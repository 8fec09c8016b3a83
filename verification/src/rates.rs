//! The counters last seen for each (target, initiator) pair, from which the
//! transfer rates between two collections are derived.

use vstd::prelude::*;

verus! {

/// A (target IQN, initiator IQN) pair, by its characters.
pub type RateKey = (Seq<char>, Seq<char>);

/// Cumulative counters of one session and the time they were read, in
/// nanoseconds on a monotonic clock.
#[derive(Clone, Copy, Debug, PartialEq, Eq)]
pub struct RateState {
    pub read_mb: u64,
    pub write_mb: u64,
    pub at_ns: u64,
}

/// What a new reading of a session's counters shows against the previous one.
#[derive(Clone, Copy, Debug, PartialEq, Eq)]
pub enum RateSample {
    /// The session had no previous reading: both rates are zero.
    First,
    /// Megabytes read and written since the previous reading (zero where a
    /// counter went backwards) and the nanoseconds between the two readings
    /// (zero where the clock did not advance).
    Since { read_mb: u64, write_mb: u64, elapsed_ns: u64 },
}

/// `a - b`, or zero where `b > a` (`u64::saturating_sub`).
pub open spec fn sat_sub(a: u64, b: u64) -> u64 {
    if a >= b {
        (a - b) as u64
    } else {
        0
    }
}

/// The sample that a reading taken at `now_ns` gives after `prev`.
pub open spec fn sample_after(prev: Option<RateState>, read_mb: u64, write_mb: u64, now_ns: u64) -> RateSample {
    match prev {
        Some(p) => RateSample::Since {
            read_mb: sat_sub(read_mb, p.read_mb),
            write_mb: sat_sub(write_mb, p.write_mb),
            elapsed_ns: sat_sub(now_ns, p.at_ns),
        },
        None => RateSample::First,
    }
}

fn same_text(a: &String, b: &String) -> (r: bool)
    ensures
        r == (a@ == b@),
{
    *a == *b
}

/// The last reading of each session, keyed by target and initiators.
///
/// Held in vectors with each key at most once rather than in a `HashMap`:
/// vstd specifies `HashMap` only for key types that `obeys_key_model`, which
/// it grants to integers and `bool` and not to `String` or tuples of them, so
/// no contract could be proved about a `HashMap` with these keys.
pub struct RateCache {
    targets: Vec<String>,
    initiators: Vec<String>,
    states: Vec<RateState>,
}

impl RateCache {
    spec fn key_at(&self, i: int) -> RateKey {
        (self.targets@[i]@, self.initiators@[i]@)
    }

    spec fn map_upto(&self, n: nat) -> Map<RateKey, RateState>
        decreases n,
    {
        if n == 0 {
            Map::empty()
        } else {
            self.map_upto((n - 1) as nat).insert(self.key_at(n - 1), self.states@[n - 1])
        }
    }

    /// The last reading kept for each key.
    pub closed spec fn readings(&self) -> Map<RateKey, RateState> {
        self.map_upto(self.states@.len())
    }

    /// The three columns line up and no key occurs twice.
    pub closed spec fn wf(&self) -> bool {
        &&& self.targets@.len() == self.states@.len()
        &&& self.initiators@.len() == self.states@.len()
        &&& forall|i: int, j: int|
            0 <= i < j < self.states@.len() ==> #[trigger] self.key_at(i) != #[trigger] self.key_at(
                j,
            )
    }

    proof fn lemma_map_upto(&self, n: nat)
        requires
            self.wf(),
            n <= self.states@.len(),
        ensures
            forall|j: int|
                0 <= j < n ==> #[trigger] self.map_upto(n).contains_key(self.key_at(j))
                    && self.map_upto(n)[self.key_at(j)] == self.states@[j],
            forall|k: RateKey| #[trigger]
                self.map_upto(n).contains_key(k) ==> exists|j: int|
                    0 <= j < n && #[trigger] self.key_at(j) == k,
        decreases n,
    {
        if n > 0 {
            let m = (n - 1) as nat;
            self.lemma_map_upto(m);
            assert forall|j: int| 0 <= j < n implies #[trigger] self.map_upto(n).contains_key(
                self.key_at(j),
            ) && self.map_upto(n)[self.key_at(j)] == self.states@[j] by {
                if j < m {
                    assert(self.key_at(j) != self.key_at(m as int));
                    assert(self.map_upto(m).contains_key(self.key_at(j)));
                }
            }
            assert forall|k: RateKey| #[trigger]
                self.map_upto(n).contains_key(k) implies exists|j: int|
                0 <= j < n && #[trigger] self.key_at(j) == k by {
                if k == self.key_at(m as int) {
                    assert(self.key_at(m as int) == k);
                } else {
                    assert(self.map_upto(m).contains_key(k));
                    let j = choose|j: int| 0 <= j < m && #[trigger] self.key_at(j) == k;
                    assert(self.key_at(j) == k);
                }
            }
        }
    }

    /// An empty cache.
    pub fn new() -> (c: Self)
        ensures
            c.wf(),
            c.readings() == Map::<RateKey, RateState>::empty(),
    {
        RateCache { targets: Vec::new(), initiators: Vec::new(), states: Vec::new() }
    }

    /// Records a reading of the session `(target, initiator)` and returns how
    /// it compares with the previous reading of that session.
    pub fn observe(
        &mut self,
        target: &String,
        initiator: &String,
        read_mb: u64,
        write_mb: u64,
        now_ns: u64,
    ) -> (r: RateSample)
        requires
            old(self).wf(),
        ensures
            final(self).wf(),
            r == sample_after(
                if old(self).readings().contains_key((target@, initiator@)) {
                    Some(old(self).readings()[(target@, initiator@)])
                } else {
                    None
                },
                read_mb,
                write_mb,
                now_ns,
            ),
            final(self).readings() == old(self).readings().insert(
                (target@, initiator@),
                RateState { read_mb, write_mb, at_ns: now_ns },
            ),
    {
        let ghost key = (target@, initiator@);
        let new_state = RateState { read_mb, write_mb, at_ns: now_ns };
        let n = self.states.len();
        proof {
            self.lemma_map_upto(n as nat);
        }
        let mut i: usize = 0;
        while i < n
            invariant
                self.wf(),
                *self == *old(self),
                key == (target@, initiator@),
                new_state == (RateState { read_mb, write_mb, at_ns: now_ns }),
                n == self.states@.len(),
                i <= n,
                forall|j: int| 0 <= j < i ==> self.key_at(j) != key,
            decreases n - i,
        {
            if same_text(&self.targets[i], target) && same_text(&self.initiators[i], initiator) {
                let prev = self.states[i];
                assert(self.key_at(i as int) == key);
                proof {
                    self.lemma_map_upto(n as nat);
                }
                assert(self.readings()[key] == prev);
                let r = RateSample::Since {
                    read_mb: read_mb.saturating_sub(prev.read_mb),
                    write_mb: write_mb.saturating_sub(prev.write_mb),
                    elapsed_ns: now_ns.saturating_sub(prev.at_ns),
                };
                let ghost old_cache = *self;
                self.states.set(i, new_state);
                proof {
                    assert forall|j: int, l: int| 0 <= j < l < n implies #[trigger] self.key_at(j)
                        != #[trigger] self.key_at(l) by {
                        assert(self.key_at(j) == old_cache.key_at(j));
                        assert(self.key_at(l) == old_cache.key_at(l));
                    }
                    self.lemma_map_upto(n as nat);
                    old_cache.lemma_map_upto(n as nat);
                    assert forall|k: RateKey|
                        #![trigger self.readings().contains_key(k)]
                        self.readings().contains_key(k) == old_cache.readings().insert(
                            key,
                            new_state,
                        ).contains_key(k) by {
                        if self.readings().contains_key(k) {
                            let j = choose|j: int| 0 <= j < n && self.key_at(j) == k;
                            assert(old_cache.key_at(j) == k);
                        }
                        if old_cache.readings().contains_key(k) {
                            let j = choose|j: int| 0 <= j < n && old_cache.key_at(j) == k;
                            assert(self.key_at(j) == k);
                        }
                        if k == key {
                            assert(self.key_at(i as int) == k);
                        }
                    }
                    assert forall|k: RateKey| #[trigger]
                        self.readings().contains_key(k) implies self.readings()[k]
                        == old_cache.readings().insert(key, new_state)[k] by {
                        let j = choose|j: int| 0 <= j < n && self.key_at(j) == k;
                        assert(old_cache.key_at(j) == k);
                        assert(self.readings()[self.key_at(j)] == self.states@[j]);
                        if j != i {
                            assert(self.states@[j] == old_cache.states@[j]);
                            assert(old_cache.readings()[old_cache.key_at(j)]
                                == old_cache.states@[j]);
                        }
                    }
                    assert(self.readings() =~= old_cache.readings().insert(key, new_state));
                }
                return r;
            }
            i += 1;
        }
        proof {
            self.lemma_map_upto(n as nat);
        }
        assert(!self.readings().contains_key(key)) by {
            if self.readings().contains_key(key) {
                let j = choose|j: int| 0 <= j < n && #[trigger] self.key_at(j) == key;
            }
        }
        let ghost old_cache = *self;
        self.targets.push(target.clone());
        self.initiators.push(initiator.clone());
        self.states.push(new_state);
        proof {
            assert(self.key_at(n as int) == key);
            assert forall|j: int| 0 <= j < n implies #[trigger] self.key_at(j)
                == old_cache.key_at(j) by {}
            assert(self.map_upto(n as nat) == old_cache.map_upto(n as nat)) by {
                self.lemma_map_upto_prefix(&old_cache, n as nat);
            }
            assert forall|j: int, l: int| 0 <= j < l < n + 1 implies #[trigger] self.key_at(j)
                != #[trigger] self.key_at(l) by {
                if l < n {
                    assert(self.key_at(j) == old_cache.key_at(j));
                    assert(self.key_at(l) == old_cache.key_at(l));
                }
            }
        }
        RateSample::First
    }

    proof fn lemma_map_upto_prefix(&self, other: &RateCache, n: nat)
        requires
            n <= self.states@.len(),
            n <= other.states@.len(),
            n <= self.targets@.len(),
            n <= other.targets@.len(),
            n <= self.initiators@.len(),
            n <= other.initiators@.len(),
            forall|j: int| 0 <= j < n ==> #[trigger] self.key_at(j) == other.key_at(j),
            forall|j: int| 0 <= j < n ==> #[trigger] self.states@[j] == other.states@[j],
        ensures
            self.map_upto(n) == other.map_upto(n),
        decreases n,
    {
        if n > 0 {
            self.lemma_map_upto_prefix(other, (n - 1) as nat);
            assert(self.key_at(n - 1) == other.key_at(n - 1));
            assert(self.states@[n - 1] == other.states@[n - 1]);
        }
    }
}

} // verus!
