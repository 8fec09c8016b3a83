//! Stable sorting under a strict weak order, as `slice::sort_by` performs it.

use vstd::prelude::*;

verus! {

broadcast use vstd::seq_lib::group_to_multiset_ensures;

/// `before` is a strict weak order: irreflexive, transitive, and with
/// transitive incomparability.
pub open spec fn strict_weak_order<T>(before: spec_fn(T, T) -> bool) -> bool {
    &&& forall|a: T| !#[trigger] before(a, a)
    &&& forall|a: T, b: T, c: T|
        #![trigger before(a, b), before(b, c), before(a, c)]
        before(a, b) && before(b, c) ==> before(a, c)
    &&& forall|a: T, b: T, c: T|
        #![trigger before(a, b), before(b, c), before(a, c)]
        !before(a, b) && !before(b, c) ==> !before(a, c)
}

/// `perm` maps each position of `r` to a distinct position of `s` holding
/// the same element.
pub open spec fn is_permutation<T>(r: Seq<T>, s: Seq<T>, perm: Seq<int>) -> bool {
    &&& r.len() == s.len()
    &&& perm.len() == r.len()
    &&& forall|i: int| 0 <= i < perm.len() ==> 0 <= #[trigger] perm[i] < s.len()
    &&& forall|i: int| 0 <= i < perm.len() ==> r[i] == s[#[trigger] perm[i]]
    &&& forall|i: int, j: int| 0 <= i < j < perm.len() ==> #[trigger] perm[i] != #[trigger] perm[j]
}

/// No element of `r` comes before one to its left.
pub open spec fn sorted_by<T>(r: Seq<T>, before: spec_fn(T, T) -> bool) -> bool {
    forall|i: int, j: int| 0 <= i < j < r.len() ==> !before(#[trigger] r[j], #[trigger] r[i])
}

/// `r` is the stable sort of `s`: a rearrangement of `s` in which no element
/// comes before one to its left, and elements that neither comes before the
/// other keep the order they had in `s`.
pub open spec fn stable_sort_of<T>(r: Seq<T>, s: Seq<T>, before: spec_fn(T, T) -> bool) -> bool {
    exists|perm: Seq<int>|
        #![trigger is_permutation(r, s, perm)]
        {
            &&& is_permutation(r, s, perm)
            &&& sorted_by(r, before)
            &&& forall|i: int, j: int|
                0 <= i < j < r.len() && !before(r[i], r[j]) ==> #[trigger] perm[i]
                    < #[trigger] perm[j]
        }
}

/// Sorts `v` stably by `less`, which computes `before`.
pub(crate) fn stable_sort<T, F: Fn(&T, &T) -> bool>(
    v: &mut Vec<T>,
    less: F,
    Ghost(before): Ghost<spec_fn(T, T) -> bool>,
)
    requires
        strict_weak_order(before),
        forall|a: &T, b: &T| #[trigger] less.requires((a, b)),
        forall|a: &T, b: &T, r: bool| #[trigger] less.ensures((a, b), r) ==> r == before(*a, *b),
    ensures
        stable_sort_of(final(v)@, old(v)@, before),
        final(v)@.to_multiset() == old(v)@.to_multiset(),
{
    let ghost orig = v@;
    let n = v.len();
    let mut out: Vec<T> = Vec::new();
    let ghost mut perm: Seq<int> = seq![];
    let mut i: usize = 0;
    while i < n
        invariant
            strict_weak_order(before),
            forall|a: &T, b: &T| #[trigger] less.requires((a, b)),
            forall|a: &T, b: &T, r: bool|
                #[trigger] less.ensures((a, b), r) ==> r == before(*a, *b),
            n == orig.len(),
            i <= n,
            v@ == orig.skip(i as int),
            out@.len() == i,
            perm.len() == i,
            forall|k: int| 0 <= k < i ==> 0 <= #[trigger] perm[k] < i,
            forall|k: int| 0 <= k < i ==> out@[k] == orig[#[trigger] perm[k]],
            forall|a: int, b: int| 0 <= a < b < i ==> #[trigger] perm[a] != #[trigger] perm[b],
            sorted_by(out@, before),
            forall|a: int, b: int|
                0 <= a < b < i && !before(out@[a], out@[b]) ==> #[trigger] perm[a]
                    < #[trigger] perm[b],
            out@.to_multiset().add(v@.to_multiset()) == orig.to_multiset(),
        decreases n - i,
    {
        let ghost old_out = out@;
        let ghost old_v = v@;
        let x = v.remove(0);
        assert(x == orig[i as int]);
        assert(v@ =~= orig.skip(i + 1));
        let mut p: usize = out.len();
        while p > 0 && less(&x, &out[p - 1])
            invariant
                p <= out@.len(),
                forall|a: &T, b: &T| #[trigger] less.requires((a, b)),
                forall|a: &T, b: &T, r: bool|
                    #[trigger] less.ensures((a, b), r) ==> r == before(*a, *b),
                forall|k: int| p <= k < out@.len() ==> before(x, #[trigger] out@[k]),
            decreases p,
        {
            p -= 1;
        }
        proof {
            assert(p == 0 || !before(x, out@[p - 1]));
        }
        out.insert(p, x);
        let ghost new_perm = perm.insert(p as int, i as int);
        proof {
            let no = out@;
            assert(no == old_out.insert(p as int, x));
            assert forall|a: int, b: int| 0 <= a < b < no.len() implies !before(
                #[trigger] no[b],
                #[trigger] no[a],
            ) by {
                if b < p {
                    assert(no[a] == old_out[a] && no[b] == old_out[b]);
                } else if b == p {
                    if a < p - 1 {
                        // `x` does not come before the row above it, which
                        // does not come before row `a`.
                        assert(!before(old_out[p - 1], old_out[a]));
                        assert(!before(x, old_out[p - 1]));
                        assert(!before(x, old_out[a]));
                    }
                } else if a == p {
                    assert(no[b] == old_out[b - 1]);
                    assert(before(x, old_out[b - 1]));
                    if before(old_out[b - 1], x) {
                        // both directions would make `x` come before itself
                        assert(before(x, x));
                    }
                } else if a < p {
                    assert(no[a] == old_out[a] && no[b] == old_out[b - 1]);
                } else {
                    assert(no[a] == old_out[a - 1] && no[b] == old_out[b - 1]);
                }
            }
            assert forall|a: int, b: int|
                0 <= a < b < i + 1 && !before(no[a], no[b]) implies #[trigger] new_perm[a]
                < #[trigger] new_perm[b] by {
                if b < p {
                    assert(new_perm[a] == perm[a] && new_perm[b] == perm[b]);
                } else if b == p {
                    assert(new_perm[a] == perm[a]);
                } else if a == p {
                    assert(no[b] == old_out[b - 1]);
                    assert(before(x, old_out[b - 1]));
                } else if a < p {
                    assert(new_perm[a] == perm[a] && new_perm[b] == perm[b - 1]);
                    assert(no[a] == old_out[a] && no[b] == old_out[b - 1]);
                } else {
                    assert(new_perm[a] == perm[a - 1] && new_perm[b] == perm[b - 1]);
                    assert(no[a] == old_out[a - 1] && no[b] == old_out[b - 1]);
                }
            }
            assert forall|k: int| 0 <= k < i + 1 implies 0 <= #[trigger] new_perm[k] < i + 1
                && no[k] == orig[new_perm[k]] by {
                if k < p {
                    assert(new_perm[k] == perm[k]);
                } else if k > p {
                    assert(new_perm[k] == perm[k - 1]);
                }
            }
            assert forall|a: int, b: int| 0 <= a < b < i + 1 implies #[trigger] new_perm[a]
                != #[trigger] new_perm[b] by {
                if a < p && b < p {
                    assert(new_perm[a] == perm[a] && new_perm[b] == perm[b]);
                } else if a < p && b == p {
                    assert(new_perm[a] == perm[a]);
                } else if a < p {
                    assert(new_perm[a] == perm[a] && new_perm[b] == perm[b - 1]);
                } else if a == p {
                    assert(new_perm[b] == perm[b - 1]);
                } else {
                    assert(new_perm[a] == perm[a - 1] && new_perm[b] == perm[b - 1]);
                }
            }
            vstd::seq_lib::to_multiset_insert(old_out, p as int, x);
            vstd::seq_lib::to_multiset_remove(old_v, 0);
            assert(old_v.remove(0) =~= v@);
            assert(no.to_multiset().add(v@.to_multiset()) =~= orig.to_multiset());
        }
        proof {
            perm = new_perm;
        }
        i += 1;
    }
    assert(v@ =~= Seq::<T>::empty());
    assert(out@.to_multiset() =~= orig.to_multiset());
    assert(is_permutation(out@, orig, perm));
    *v = out;
}

/// A stable sort stays one when each element is replaced by an image under
/// `f`, for an order on images that agrees with the order on elements.
pub proof fn lemma_stable_sort_map<T, V>(
    r: Seq<T>,
    s: Seq<T>,
    before: spec_fn(T, T) -> bool,
    f: spec_fn(T) -> V,
    vbefore: spec_fn(V, V) -> bool,
)
    requires
        stable_sort_of(r, s, before),
        forall|a: T, b: T| #[trigger] before(a, b) == vbefore(f(a), f(b)),
    ensures
        stable_sort_of(r.map_values(f), s.map_values(f), vbefore),
{
    let perm = choose|perm: Seq<int>|
        #![trigger is_permutation(r, s, perm)]
        {
            &&& is_permutation(r, s, perm)
            &&& sorted_by(r, before)
            &&& forall|i: int, j: int|
                0 <= i < j < r.len() && !before(r[i], r[j]) ==> #[trigger] perm[i]
                    < #[trigger] perm[j]
        };
    let rm = r.map_values(f);
    let sm = s.map_values(f);
    assert(is_permutation(rm, sm, perm));
    assert forall|i: int, j: int| 0 <= i < j < rm.len() implies !vbefore(
        #[trigger] rm[j],
        #[trigger] rm[i],
    ) by {
        assert(!before(r[j], r[i]));
    }
    assert forall|i: int, j: int|
        0 <= i < j < rm.len() && !vbefore(rm[i], rm[j]) implies #[trigger] perm[i]
        < #[trigger] perm[j] by {
        assert(!before(r[i], r[j]));
    }
}

/// A stable sort by one order is a stable sort by any order that agrees
/// with it on the elements sorted.
pub proof fn lemma_stable_sort_agree<T>(
    r: Seq<T>,
    s: Seq<T>,
    before: spec_fn(T, T) -> bool,
    other: spec_fn(T, T) -> bool,
)
    requires
        stable_sort_of(r, s, before),
        forall|i: int, j: int|
            0 <= i < s.len() && 0 <= j < s.len() ==> before(s[i], s[j]) == other(s[i], s[j]),
    ensures
        stable_sort_of(r, s, other),
{
    let perm = choose|perm: Seq<int>|
        #![trigger is_permutation(r, s, perm)]
        {
            &&& is_permutation(r, s, perm)
            &&& sorted_by(r, before)
            &&& forall|i: int, j: int|
                0 <= i < j < r.len() && !before(r[i], r[j]) ==> #[trigger] perm[i]
                    < #[trigger] perm[j]
        };
    assert forall|i: int, j: int| 0 <= i < j < r.len() implies !other(
        #[trigger] r[j],
        #[trigger] r[i],
    ) by {
        assert(r[i] == s[perm[i]] && r[j] == s[perm[j]]);
        assert(!before(r[j], r[i]));
        assert(before(s[perm[j]], s[perm[i]]) == other(s[perm[j]], s[perm[i]]));
    }
    assert forall|i: int, j: int|
        0 <= i < j < r.len() && !other(r[i], r[j]) implies #[trigger] perm[i]
        < #[trigger] perm[j] by {
        assert(r[i] == s[perm[i]] && r[j] == s[perm[j]]);
        assert(before(s[perm[i]], s[perm[j]]) == other(s[perm[i]], s[perm[j]]));
    }
}

} // verus!
