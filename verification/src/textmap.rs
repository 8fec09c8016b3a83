//! A small map from strings to strings, keyed by their characters.

use vstd::prelude::*;

verus! {

fn same_text(a: &String, b: &String) -> (r: bool)
    ensures
        r == (a@ == b@),
{
    *a == *b
}

/// Keys and values side by side, each key at most once.
///
/// Held in vectors rather than in a `HashMap`: vstd specifies `HashMap` only
/// for key types that `obeys_key_model`, which it grants to integers and
/// `bool` and not to `String`, so no contract could be proved about a
/// `HashMap<String, String>`.
pub struct TextMap {
    keys: Vec<String>,
    values: Vec<String>,
}

impl TextMap {
    spec fn map_upto(&self, n: nat) -> Map<Seq<char>, Seq<char>>
        decreases n,
    {
        if n == 0 {
            Map::empty()
        } else {
            self.map_upto((n - 1) as nat).insert(self.keys@[n - 1]@, self.values@[n - 1]@)
        }
    }

    /// The value held for each key.
    pub closed spec fn map(&self) -> Map<Seq<char>, Seq<char>> {
        self.map_upto(self.keys@.len())
    }

    pub closed spec fn wf(&self) -> bool {
        &&& self.keys@.len() == self.values@.len()
        &&& forall|i: int, j: int|
            0 <= i < j < self.keys@.len() ==> #[trigger] self.keys@[i]@ != #[trigger] self.keys@[j]@
    }

    proof fn lemma_map_upto(&self, n: nat)
        requires
            self.wf(),
            n <= self.keys@.len(),
        ensures
            forall|j: int|
                0 <= j < n ==> #[trigger] self.map_upto(n).contains_key(self.keys@[j]@)
                    && self.map_upto(n)[self.keys@[j]@] == self.values@[j]@,
            forall|k: Seq<char>| #[trigger]
                self.map_upto(n).contains_key(k) ==> exists|j: int|
                    0 <= j < n && #[trigger] self.keys@[j]@ == k,
        decreases n,
    {
        if n > 0 {
            let m = (n - 1) as nat;
            self.lemma_map_upto(m);
            assert forall|j: int| 0 <= j < n implies #[trigger] self.map_upto(n).contains_key(
                self.keys@[j]@,
            ) && self.map_upto(n)[self.keys@[j]@] == self.values@[j]@ by {
                if j < m {
                    assert(self.keys@[j]@ != self.keys@[m as int]@);
                    assert(self.map_upto(m).contains_key(self.keys@[j]@));
                }
            }
            assert forall|k: Seq<char>| #[trigger]
                self.map_upto(n).contains_key(k) implies exists|j: int|
                0 <= j < n && #[trigger] self.keys@[j]@ == k by {
                if k == self.keys@[m as int]@ {
                    assert(self.keys@[m as int]@ == k);
                } else {
                    assert(self.map_upto(m).contains_key(k));
                    let j = choose|j: int| 0 <= j < m && #[trigger] self.keys@[j]@ == k;
                    assert(self.keys@[j]@ == k);
                }
            }
        }
    }

    proof fn lemma_map_upto_prefix(&self, other: &TextMap, n: nat)
        requires
            n <= self.keys@.len(),
            n <= other.keys@.len(),
            n <= self.values@.len(),
            n <= other.values@.len(),
            forall|j: int| 0 <= j < n ==> #[trigger] self.keys@[j] == other.keys@[j],
            forall|j: int| 0 <= j < n ==> #[trigger] self.values@[j] == other.values@[j],
        ensures
            self.map_upto(n) == other.map_upto(n),
        decreases n,
    {
        if n > 0 {
            self.lemma_map_upto_prefix(other, (n - 1) as nat);
            assert(self.keys@[n - 1] == other.keys@[n - 1]);
            assert(self.values@[n - 1] == other.values@[n - 1]);
        }
    }

    pub fn new() -> (m: Self)
        ensures
            m.wf(),
            m.map() == Map::<Seq<char>, Seq<char>>::empty(),
    {
        TextMap { keys: Vec::new(), values: Vec::new() }
    }

    /// The value held for `key`, if any.
    pub fn get(&self, key: &String) -> (r: Option<&String>)
        requires
            self.wf(),
        ensures
            match r {
                Some(v) => self.map().contains_key(key@) && v@ == self.map()[key@],
                None => !self.map().contains_key(key@),
            },
    {
        let n = self.keys.len();
        proof {
            self.lemma_map_upto(n as nat);
        }
        let mut i: usize = 0;
        while i < n
            invariant
                self.wf(),
                n == self.keys@.len(),
                i <= n,
                forall|j: int| 0 <= j < i ==> self.keys@[j]@ != key@,
            decreases n - i,
        {
            if same_text(&self.keys[i], key) {
                proof {
                    self.lemma_map_upto(n as nat);
                }
                return Some(&self.values[i]);
            }
            i += 1;
        }
        proof {
            self.lemma_map_upto(n as nat);
            if self.map().contains_key(key@) {
                let j = choose|j: int| 0 <= j < n && #[trigger] self.keys@[j]@ == key@;
            }
        }
        None
    }

    /// Adds `key` with `value` unless `key` is present already.
    pub fn insert_if_absent(&mut self, key: String, value: String)
        requires
            old(self).wf(),
        ensures
            final(self).wf(),
            final(self).map() == if old(self).map().contains_key(key@) {
                old(self).map()
            } else {
                old(self).map().insert(key@, value@)
            },
    {
        if self.get(&key).is_some() {
            return ;
        }
        let n = self.keys.len();
        let ghost old_map = *self;
        proof {
            self.lemma_map_upto(n as nat);
        }
        self.keys.push(key);
        self.values.push(value);
        proof {
            self.lemma_map_upto_prefix(&old_map, n as nat);
            assert forall|i: int, j: int| 0 <= i < j < n + 1 implies #[trigger] self.keys@[i]@
                != #[trigger] self.keys@[j]@ by {
                if j == n {
                    assert(old_map.keys@[i]@ != key@);
                } else {
                    assert(self.keys@[i] == old_map.keys@[i]);
                    assert(self.keys@[j] == old_map.keys@[j]);
                }
            }
        }
    }
}

} // verus!
