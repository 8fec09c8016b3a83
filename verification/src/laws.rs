//! Properties of the library that span several operations or all inputs.

use vstd::prelude::*;

use crate::app::{lists_set, sort_choice, strictly_ascending, App};
use crate::iscsi::{
    collect_run, corresponds, lun_views_of, sorted_by_target, total_read, total_write, LunView,
    Observation, ObservationSpec, TpgtDir,
};
use crate::net::{find_first, find_last, lemma_find_first_bounds, lemma_find_last_bounds,
    port_of, port_part, without_port};
use crate::rates::RateKey;
use crate::table::{column_order, filtered, matching, views};
use crate::text::{has_substring, lowercase, parsed_u16};
use crate::rates::{sample_after, sat_sub, RateSample, RateState};
use crate::sort::{is_permutation, sorted_by, stable_sort_of};
use crate::iscsi::{device_name, unknown_device, AttrFile, Backing, SessionView};
use crate::table::{float_rank, is_nan_bits};
use crate::text::{joined, trim};
use crate::ui::{device_cell_text, mb_text, short_iqn};
use crate::app::clamped_selection;
use crate::iscsi::{lun_number, lun_view_order, session_names};
use crate::net::{connections_in, estab};
use crate::text::{
    all_digits, decimal, digit_char, digit_value, digits_value, is_digit, lemma_lex_irreflexive,
    lemma_lex_transitive, lex_lt, numeral_value, parsed_u64, unsigned_digits,
};

verus! {

/// Sorting is idempotent: the stable sort of a sequence that is already
/// sorted is that sequence, so re-sorting the table by the same column and
/// direction leaves its rows in place.
pub proof fn law_sorting_sorted_keeps_order<T>(r: Seq<T>, s: Seq<T>, before: spec_fn(T, T) -> bool)
    requires
        sorted_by(s, before),
        stable_sort_of(r, s, before),
    ensures
        r == s,
{
    let p = choose|perm: Seq<int>|
        #![trigger is_permutation(r, s, perm)]
        {
            &&& is_permutation(r, s, perm)
            &&& sorted_by(r, before)
            &&& forall|i: int, j: int|
                0 <= i < j < r.len() && !before(r[i], r[j]) ==> #[trigger] perm[i]
                    < #[trigger] perm[j]
        };
    let n = r.len();
    assert forall|i: int, j: int| 0 <= i < j < n implies #[trigger] p[i] < #[trigger] p[j] by {
        if !before(r[i], r[j]) {
        } else if p[j] < p[i] {
            assert(!before(s[p[i]], s[p[j]]));
        }
    }
    lemma_increasing_is_identity(p, n);
    assert forall|i: int| 0 <= i < n implies r[i] == s[i] by {
        assert(r[i] == s[p[i]]);
    }
    assert(r =~= s);
}

/// An injective map of `0..n` into `0..n` takes every value.
pub(crate) proof fn lemma_injective_is_onto(p: Seq<int>, n: nat, v: int)
    requires
        p.len() == n,
        forall|i: int| 0 <= i < n ==> 0 <= #[trigger] p[i] < n,
        forall|i: int, j: int| 0 <= i < j < n ==> #[trigger] p[i] != #[trigger] p[j],
        0 <= v < n,
    ensures
        exists|k: int| 0 <= k < n && p[k] == v,
{
    assert(p.no_duplicates()) by {
        assert forall|i: int, j: int| 0 <= i < p.len() && 0 <= j < p.len() && i != j implies p[i]
            != p[j] by {
            if i < j {
                assert(p[i] != p[j]);
            } else {
                assert(p[j] != p[i]);
            }
        }
    }
    p.unique_seq_to_set();
    let range = vstd::set_lib::set_int_range(0, n as int);
    vstd::set_lib::lemma_int_range(0, n as int);
    assert(p.to_set().subset_of(range)) by {
        assert forall|x: int| p.to_set().contains(x) implies range.contains(x) by {
            assert(p.contains(x));
            let k = choose|k: int| 0 <= k < p.len() && p[k] == x;
            assert(0 <= p[k] < n);
        }
    }
    vstd::seq_lib::seq_to_set_is_finite(p);
    vstd::set_lib::lemma_subset_equality(p.to_set(), range);
    assert(range.contains(v));
    assert(p.to_set().contains(v));
    assert(p.contains(v));
}

/// A stable sort is determined by its input: two stable sorts of the same
/// sequence by the same order are equal.
pub proof fn law_stable_sort_is_unique<T>(
    r1: Seq<T>,
    r2: Seq<T>,
    s: Seq<T>,
    before: spec_fn(T, T) -> bool,
)
    requires
        stable_sort_of(r1, s, before),
        stable_sort_of(r2, s, before),
    ensures
        r1 == r2,
{
    let p1 = choose|perm: Seq<int>|
        #![trigger is_permutation(r1, s, perm)]
        {
            &&& is_permutation(r1, s, perm)
            &&& sorted_by(r1, before)
            &&& forall|i: int, j: int|
                0 <= i < j < r1.len() && !before(r1[i], r1[j]) ==> #[trigger] perm[i]
                    < #[trigger] perm[j]
        };
    let p2 = choose|perm: Seq<int>|
        #![trigger is_permutation(r2, s, perm)]
        {
            &&& is_permutation(r2, s, perm)
            &&& sorted_by(r2, before)
            &&& forall|i: int, j: int|
                0 <= i < j < r2.len() && !before(r2[i], r2[j]) ==> #[trigger] perm[i]
                    < #[trigger] perm[j]
        };
    let n = s.len();
    let q = Seq::new(n, |i: int| choose|k: int| 0 <= k < n && p2[k] == p1[i]);
    assert forall|i: int| 0 <= i < n implies 0 <= #[trigger] q[i] < n && p2[q[i]] == p1[i] by {
        lemma_injective_is_onto(p2, n, p1[i]);
    }
    assert forall|i: int| 0 <= i < n implies r1[i] == r2[#[trigger] q[i]] by {
        assert(r1[i] == s[p1[i]]);
        assert(r2[q[i]] == s[p2[q[i]]]);
    }
    assert forall|i: int, j: int| 0 <= i < j < n implies #[trigger] q[i] != #[trigger] q[j] by {
        assert(p1[i] != p1[j]);
    }
    assert(is_permutation(r1, r2, q));
    assert forall|i: int, j: int|
        0 <= i < j < r1.len() && !before(r1[i], r1[j]) implies #[trigger] q[i] < #[trigger] q[j] by {
        assert(p1[i] < p1[j]);
        if q[j] < q[i] {
            assert(!before(r1[j], r1[i]));
            assert(r2[q[j]] == r1[j] && r2[q[i]] == r1[i]);
            assert(p2[q[j]] < p2[q[i]]);
        }
    }
    assert(stable_sort_of(r1, r2, before));
    law_sorting_sorted_keeps_order(r1, r2, before);
}

/// A strictly increasing map of `0..n` into `0..n` is the identity.
proof fn lemma_increasing_is_identity(p: Seq<int>, n: nat)
    requires
        p.len() == n,
        forall|i: int| 0 <= i < n ==> 0 <= #[trigger] p[i] < n,
        forall|i: int, j: int| 0 <= i < j < n ==> #[trigger] p[i] < #[trigger] p[j],
    ensures
        forall|i: int| 0 <= i < n ==> #[trigger] p[i] == i,
{
    assert forall|i: int| 0 <= i < n implies #[trigger] p[i] >= i by {
        lemma_increasing_lower(p, n, i);
    }
    assert forall|i: int| 0 <= i < n implies #[trigger] p[i] <= i by {
        lemma_increasing_upper(p, n, i);
    }
}

proof fn lemma_increasing_lower(p: Seq<int>, n: nat, i: int)
    requires
        p.len() == n,
        0 <= i < n,
        forall|i: int| 0 <= i < n ==> 0 <= #[trigger] p[i] < n,
        forall|i: int, j: int| 0 <= i < j < n ==> #[trigger] p[i] < #[trigger] p[j],
    ensures
        p[i] >= i,
    decreases i,
{
    if i > 0 {
        lemma_increasing_lower(p, n, i - 1);
        assert(p[i - 1] < p[i]);
    }
}

proof fn lemma_increasing_upper(p: Seq<int>, n: nat, i: int)
    requires
        p.len() == n,
        0 <= i < n,
        forall|i: int| 0 <= i < n ==> 0 <= #[trigger] p[i] < n,
        forall|i: int, j: int| 0 <= i < j < n ==> #[trigger] p[i] < #[trigger] p[j],
    ensures
        p[i] <= i,
    decreases n - i,
{
    if i < n - 1 {
        lemma_increasing_upper(p, n, i + 1);
        assert(p[i] < p[i + 1]);
    }
}

/// Reading a session's counters again without change shows nothing moved:
/// both deltas are zero, over the time between the two readings.
pub proof fn law_unchanged_counters_give_zero_deltas(prev: RateState, now_ns: u64)
    ensures
        sample_after(Some(prev), prev.read_mb, prev.write_mb, now_ns) == (RateSample::Since {
            read_mb: 0,
            write_mb: 0,
            elapsed_ns: sat_sub(now_ns, prev.at_ns),
        }),
{
}

/// The first reading of a session shows no rate.
pub proof fn law_first_reading_has_no_rate(read_mb: u64, write_mb: u64, now_ns: u64)
    ensures
        sample_after(None, read_mb, write_mb, now_ns) == RateSample::First,
{
}

proof fn lemma_digit_char(d: nat)
    requires
        d < 10,
    ensures
        is_digit(digit_char(d)),
        digit_value(digit_char(d)) == d,
        digit_char(d) != '+',
{
    let s = seq!['0', '1', '2', '3', '4', '5', '6', '7', '8', '9'];
    assert(digit_char(d) == s[d as int]);
    if d == 0 {
        assert(s[0] == '0');
    } else if d == 1 {
        assert(s[1] == '1');
    } else if d == 2 {
        assert(s[2] == '2');
    } else if d == 3 {
        assert(s[3] == '3');
    } else if d == 4 {
        assert(s[4] == '4');
    } else if d == 5 {
        assert(s[5] == '5');
    } else if d == 6 {
        assert(s[6] == '6');
    } else if d == 7 {
        assert(s[7] == '7');
    } else if d == 8 {
        assert(s[8] == '8');
    } else {
        assert(s[9] == '9');
    }
}

proof fn lemma_decimal_digits(n: nat)
    ensures
        decimal(n).len() > 0,
        all_digits(decimal(n)),
        digits_value(decimal(n)) == n,
        decimal(n)[0] != '+',
    decreases n,
{
    if n < 10 {
        lemma_digit_char(n);
        let e = decimal(n);
        assert(e.drop_last() =~= Seq::<char>::empty());
        assert(digits_value(e.drop_last()) == 0);
        assert(e.last() == digit_char(n));
        assert(digits_value(e) == digits_value(e.drop_last()) * 10 + digit_value(e.last()));
    } else {
        lemma_digit_char(n % 10);
        lemma_decimal_digits(n / 10);
        let d = decimal(n / 10);
        let e = decimal(n);
        assert(e == d.push(digit_char(n % 10)));
        assert(e.drop_last() =~= d);
        assert(e.last() == digit_char(n % 10));
        assert(digits_value(e) == digits_value(d) * 10 + digit_value(digit_char(n % 10)));
        assert(is_digit(digit_char(n % 10)));
        assert forall|i: int| 0 <= i < e.len() implies is_digit(#[trigger] e[i]) by {
            if i < d.len() {
                assert(e[i] == d[i]);
            }
        }
        assert(e[0] == d[0]);
    }
}

/// Reading back what the library writes: the decimal numeral of any `u64`
/// parses to that number.
pub proof fn law_decimal_parses_back(n: u64)
    ensures
        parsed_u64(decimal(n as nat)) == Some(n),
{
    lemma_decimal_digits(n as nat);
    assert(unsigned_digits(decimal(n as nat)) == decimal(n as nat));
    assert(numeral_value(decimal(n as nat)) == Some(n as nat));
}

/// The sum of `f` over the elements of `s`.
pub open spec fn sum_of<T>(s: Seq<T>, f: spec_fn(T) -> nat) -> nat
    decreases s.len(),
{
    if s.len() == 0 {
        0
    } else {
        sum_of(s.drop_last(), f) + f(s.last())
    }
}

proof fn lemma_sum_remove<T>(s: Seq<T>, f: spec_fn(T) -> nat, j: int)
    requires
        0 <= j < s.len(),
    ensures
        sum_of(s, f) == sum_of(s.remove(j), f) + f(s[j]),
    decreases s.len(),
{
    if j == s.len() - 1 {
        assert(s.remove(j) =~= s.drop_last());
    } else {
        lemma_sum_remove(s.drop_last(), f, j);
        assert(s.remove(j).drop_last() =~= s.drop_last().remove(j));
        assert(s.remove(j).last() == s.last());
    }
}

proof fn lemma_sum_permutation<T>(r: Seq<T>, s: Seq<T>, p: Seq<int>, f: spec_fn(T) -> nat)
    requires
        is_permutation(r, s, p),
    ensures
        sum_of(r, f) == sum_of(s, f),
    decreases r.len(),
{
    if r.len() > 0 {
        let n = r.len() as int;
        let j = p[n - 1];
        let r2 = r.drop_last();
        let s2 = s.remove(j);
        let p2 = Seq::new(
            (n - 1) as nat,
            |i: int|
                if p[i] < j {
                    p[i]
                } else {
                    p[i] - 1
                },
        );
        assert forall|i: int| 0 <= i < n - 1 implies 0 <= #[trigger] p2[i] < s2.len() && r2[i]
            == s2[p2[i]] by {
            assert(p[i] != p[n - 1]);
            if p[i] < j {
                assert(s2[p[i]] == s[p[i]]);
            } else {
                assert(s2[p[i] - 1] == s[p[i]]);
            }
        }
        assert forall|a: int, b: int| 0 <= a < b < n - 1 implies #[trigger] p2[a]
            != #[trigger] p2[b] by {
            assert(p[a] != p[b]);
            assert(p[a] != j && p[b] != j);
        }
        assert(is_permutation(r2, s2, p2));
        lemma_sum_permutation(r2, s2, p2, f);
        lemma_sum_remove(s, f, j);
        assert(r.last() == s[j]);
    }
}

pub open spec fn read_of() -> spec_fn(LunView) -> nat {
    |l: LunView| l.read_mb as nat
}

pub open spec fn write_of() -> spec_fn(LunView) -> nat {
    |l: LunView| l.write_mb as nat
}

proof fn lemma_totals_are_sums(ls: Seq<LunView>)
    ensures
        total_read(ls) == sum_of(ls, read_of()),
        total_write(ls) == sum_of(ls, write_of()),
    decreases ls.len(),
{
    if ls.len() > 0 {
        lemma_totals_are_sums(ls.drop_last());
    }
}

/// A session's totals are the sums of the counters of the LUNs it lists.
pub proof fn law_totals_are_sums_of_listed_luns(o: Observation, s: ObservationSpec)
    requires
        corresponds(o, s),
        s.total_read_mb == total_read(s.luns),
        s.total_write_mb == total_write(s.luns),
    ensures
        o.total_read_mb == total_read(lun_views_of(o.luns@)),
        o.total_write_mb == total_write(lun_views_of(o.luns@)),
{
    let r = lun_views_of(o.luns@);
    let p = choose|perm: Seq<int>|
        #![trigger is_permutation(r, s.luns, perm)]
        {
            &&& is_permutation(r, s.luns, perm)
            &&& sorted_by(r, crate::iscsi::lun_view_order())
            &&& forall|i: int, j: int|
                0 <= i < j < r.len() && !crate::iscsi::lun_view_order()(r[i], r[j])
                    ==> #[trigger] perm[i] < #[trigger] perm[j]
        };
    lemma_sum_permutation(r, s.luns, p, read_of());
    lemma_sum_permutation(r, s.luns, p, write_of());
    lemma_totals_are_sums(r);
    lemma_totals_are_sums(s.luns);
}

/// Choosing the same sort column twice from the same column turns the
/// direction back to what it was.
pub proof fn law_same_column_twice_restores_direction(col: usize, asc: bool)
    ensures
        ({
            let once = sort_choice(col, col, asc);
            sort_choice(col, once.0, once.1)
        }) == (col, asc),
        sort_choice(col, col, asc).1 == !asc,
{
}

/// A set has one ascending listing, so the source-address list that a
/// refresh produces is determined by the connections' peer addresses.
pub proof fn law_source_list_is_determined(a: Seq<Seq<char>>, b: Seq<Seq<char>>, s: Set<Seq<char>>)
    requires
        lists_set(a, s),
        lists_set(b, s),
    ensures
        a == b,
{
    assert forall|x: Seq<char>|
        #![trigger a.contains(x)]
        #![trigger b.contains(x)]
        a.contains(x) <==> b.contains(x) by {
        assert(a.contains(x) <==> s.contains(x));
        assert(b.contains(x) <==> s.contains(x));
    }
    lemma_ascending_listing_is_unique(a, b);
}

/// Two strictly ascending sequences with the same elements are equal.
proof fn lemma_ascending_listing_is_unique(a: Seq<Seq<char>>, b: Seq<Seq<char>>)
    requires
        strictly_ascending(a),
        strictly_ascending(b),
        forall|x: Seq<char>|
            #![trigger a.contains(x)]
            #![trigger b.contains(x)]
            a.contains(x) <==> b.contains(x),
    ensures
        a == b,
    decreases a.len() + b.len(),
{
    if a.len() == 0 {
        if b.len() > 0 {
            assert(b.contains(b[0]));
            assert(a.contains(b[0]));
        }
        assert(b =~= a);
    } else if b.len() == 0 {
        assert(a.contains(a[0]));
        assert(b.contains(a[0]));
    } else {
        assert(a.contains(a[0]));
        assert(b.contains(b[0]));
        assert(b.contains(a[0]));
        assert(a.contains(b[0]));
        let j = choose|j: int| 0 <= j < b.len() && b[j] == a[0];
        let i = choose|i: int| 0 <= i < a.len() && a[i] == b[0];
        if i > 0 && j > 0 {
            assert(lex_lt(a[0], a[i]));
            assert(lex_lt(b[0], b[j]));
            lemma_lex_transitive(a[0], b[0], a[0]);
            lemma_lex_irreflexive(a[0]);
        } else if i > 0 {
            assert(b[0] == a[0]);
            assert(lex_lt(a[0], a[i]));
            lemma_lex_irreflexive(a[0]);
        } else if j > 0 {
            assert(lex_lt(b[0], b[j]));
            lemma_lex_irreflexive(b[0]);
        }
        assert(a[0] == b[0]);
        let a2 = a.drop_first();
        let b2 = b.drop_first();
        assert forall|x: Seq<char>|
            #![trigger a2.contains(x)]
            #![trigger b2.contains(x)]
            a2.contains(x) <==> b2.contains(x) by {
            if a2.contains(x) {
                let k = choose|k: int| 0 <= k < a2.len() && a2[k] == x;
                assert(lex_lt(a[0], a[k + 1]));
                assert(a.contains(x));
                let m = choose|m: int| 0 <= m < b.len() && b[m] == x;
                if m == 0 {
                    lemma_lex_irreflexive(x);
                }
                assert(b2[m - 1] == x);
            }
            if b2.contains(x) {
                let k = choose|k: int| 0 <= k < b2.len() && b2[k] == x;
                assert(lex_lt(b[0], b[k + 1]));
                assert(b.contains(x));
                let m = choose|m: int| 0 <= m < a.len() && a[m] == x;
                if m == 0 {
                    lemma_lex_irreflexive(x);
                }
                assert(a2[m - 1] == x);
            }
        }
        lemma_ascending_listing_is_unique(a2, b2);
        assert(a =~= b) by {
            assert forall|k: int| 0 <= k < a.len() implies a[k] == b[k] by {
                if k > 0 {
                    assert(a[k] == a2[k - 1]);
                    assert(b[k] == b2[k - 1]);
                }
            }
        }
    }
}

/// The decimal numeral of `p` reads back as `p`, as a port.
proof fn lemma_port_digits(p: u16)
    ensures
        parsed_u16(decimal(p as nat)) == Some(p),
        forall|k: int|
            0 <= k < decimal(p as nat).len() ==> is_digit(#[trigger] decimal(p as nat)[k]),
{
    lemma_decimal_digits(p as nat);
    assert(unsigned_digits(decimal(p as nat)) == decimal(p as nat));
    assert(numeral_value(decimal(p as nat)) == Some(p as nat));
}

/// An address written with a port splits back into that address and port:
/// `ip:port` for an address without `:` that does not start with `[`, and
/// `[ip6]:port` for one without `]`.
pub proof fn law_address_and_port_read_back(ip: Seq<char>, ip6: Seq<char>, port: u16)
    requires
        forall|k: int| 0 <= k < ip.len() ==> ip[k] != ':',
        ip.len() > 0 ==> ip[0] != '[',
        forall|k: int| 0 <= k < ip6.len() ==> ip6[k] != ']',
    ensures
        without_port(ip + seq![':'] + decimal(port as nat)) == ip,
        port_of(ip + seq![':'] + decimal(port as nat)) == Some(port),
        without_port(seq!['['] + ip6 + seq![']', ':'] + decimal(port as nat)) == ip6,
        port_of(seq!['['] + ip6 + seq![']', ':'] + decimal(port as nat)) == Some(port),
{
    let d = decimal(port as nat);
    lemma_port_digits(port);
    let a = ip + seq![':'] + d;
    let n = ip.len() as int;
    assert(a[n] == ':');
    assert forall|k: int| n < k < a.len() implies a[k] != ':' by {
        assert(a[k] == d[k - n - 1]);
        assert(is_digit(d[k - n - 1]));
    }
    assert forall|k: int| 0 <= k < n implies a[k] != ':' by {
        assert(a[k] == ip[k]);
    }
    lemma_find_last_bounds(a, ':');
    assert(find_last(a, ':') == Some(n));
    assert(!(a.len() > 0 && a[0] == '[')) by {
        if n > 0 {
            assert(a[0] == ip[0]);
        }
    }
    assert(a.subrange(0, n) =~= ip);
    assert(port_part(a) =~= d);

    let b = seq!['['] + ip6 + seq![']', ':'] + d;
    let m = ip6.len() as int;
    assert(b[0] == '[');
    assert(b[m + 1] == ']');
    assert(b[m + 2] == ':');
    assert forall|k: int| 0 <= k < m + 1 implies b[k] != ']' by {
        if k > 0 {
            assert(b[k] == ip6[k - 1]);
        }
    }
    lemma_find_first_bounds(b, ']');
    assert(find_first(b, ']') == Some(m + 1));
    assert(b.subrange(1, m + 1) =~= ip6);
    let rest = b.skip(m + 2);
    assert(rest[0] == ':');
    assert(rest.drop_first() =~= d);
    assert(port_part(b) =~= d);
}

/// The key by which a collection observation is tracked.
pub open spec fn observation_key(o: ObservationSpec) -> RateKey {
    (o.target_iqn, o.initiator_iqn)
}

proof fn lemma_run_first_samples(m: Map<RateKey, RateState>, ts: Seq<TpgtDir>, now_ns: u64)
    ensures
        forall|key: RateKey|
            #[trigger] collect_run(m, ts, now_ns).1.contains_key(key) <==> (m.contains_key(key)
                || exists|j: int|
                0 <= j < collect_run(m, ts, now_ns).0.len() && observation_key(
                    #[trigger] collect_run(m, ts, now_ns).0[j],
                ) == key),
        forall|k: int|
            0 <= k < collect_run(m, ts, now_ns).0.len() && !m.contains_key(
                observation_key(#[trigger] collect_run(m, ts, now_ns).0[k]),
            ) && (forall|j: int|
                0 <= j < k ==> observation_key(collect_run(m, ts, now_ns).0[j])
                    != observation_key(collect_run(m, ts, now_ns).0[k])) ==> collect_run(
                m,
                ts,
                now_ns,
            ).0[k].sample == RateSample::First,
    decreases ts.len(),
{
    if ts.len() > 0 {
        lemma_run_first_samples(m, ts.drop_last(), now_ns);
        let prev = collect_run(m, ts.drop_last(), now_ns);
        let cur = collect_run(m, ts, now_ns);
        let t = ts.last();
        if crate::iscsi::tpgt_yields_session(t) {
            let n = prev.0.len() as int;
            assert(cur.0 == prev.0.push(cur.0[n]));
            assert forall|key: RateKey| #[trigger] cur.1.contains_key(key) <==> (m.contains_key(key)
                || exists|j: int| 0 <= j < cur.0.len() && observation_key(#[trigger] cur.0[j]) == key) by {
                if exists|j: int| 0 <= j < cur.0.len() && observation_key(#[trigger] cur.0[j]) == key {
                    let j = choose|j: int| 0 <= j < cur.0.len() && observation_key(#[trigger] cur.0[j]) == key;
                    if j < n {
                        assert(cur.0[j] == prev.0[j]);
                    }
                }
                if exists|j: int| 0 <= j < prev.0.len() && observation_key(#[trigger] prev.0[j]) == key {
                    let j = choose|j: int| 0 <= j < prev.0.len() && observation_key(#[trigger] prev.0[j]) == key;
                    assert(cur.0[j] == prev.0[j]);
                }
            }
            assert forall|k: int|
                0 <= k < cur.0.len() && !m.contains_key(observation_key(#[trigger] cur.0[k])) && (
                forall|j: int| 0 <= j < k ==> observation_key(cur.0[j]) != observation_key(cur.0[k]))
                implies cur.0[k].sample == RateSample::First by {
                if k < n {
                    assert(cur.0[k] == prev.0[k]);
                    assert forall|j: int| 0 <= j < k implies observation_key(prev.0[j])
                        != observation_key(prev.0[k]) by {
                        assert(cur.0[j] == prev.0[j]);
                    }
                } else {
                    let key = observation_key(cur.0[k]);
                    if prev.1.contains_key(key) {
                        let j = choose|j: int| 0 <= j < prev.0.len() && observation_key(#[trigger] prev.0[j]) == key;
                        assert(cur.0[j] == prev.0[j]);
                    }
                }
            }
        }
    }
}

/// A new collector knows no earlier counters: in its first collection, where
/// no two portal groups share a target and initiators, every session has its
/// first reading, so no rate.
pub proof fn law_first_collection_has_no_rates(
    r: Seq<Observation>,
    tpgts: Seq<TpgtDir>,
    now_ns: u64,
)
    requires
        sorted_by_target(r, collect_run(Map::empty(), tpgts, now_ns).0),
        forall|i: int, j: int|
            0 <= i < j < collect_run(Map::empty(), tpgts, now_ns).0.len() ==> observation_key(
                #[trigger] collect_run(Map::empty(), tpgts, now_ns).0[i],
            ) != observation_key(#[trigger] collect_run(Map::empty(), tpgts, now_ns).0[j]),
    ensures
        forall|k: int| 0 <= k < r.len() ==> #[trigger] r[k].sample == RateSample::First,
{
    let run = collect_run(Map::<RateKey, RateState>::empty(), tpgts, now_ns).0;
    lemma_run_first_samples(Map::empty(), tpgts, now_ns);
    let pre = choose|pre: Seq<Observation>|
        {
            &&& pre.len() == run.len()
            &&& forall|k: int| 0 <= k < run.len() ==> corresponds(#[trigger] pre[k], run[k])
            &&& #[trigger] stable_sort_of(r, pre, crate::iscsi::observation_order())
        };
    let perm = choose|perm: Seq<int>|
        #![trigger is_permutation(r, pre, perm)]
        {
            &&& is_permutation(r, pre, perm)
            &&& sorted_by(r, crate::iscsi::observation_order())
            &&& forall|i: int, j: int|
                0 <= i < j < r.len() && !crate::iscsi::observation_order()(r[i], r[j])
                    ==> #[trigger] perm[i] < #[trigger] perm[j]
        };
    assert forall|k: int| 0 <= k < r.len() implies #[trigger] r[k].sample == RateSample::First by {
        let x = perm[k];
        assert(r[k] == pre[x]);
        assert(corresponds(pre[x], run[x]));
        assert forall|j: int| 0 <= j < x implies observation_key(run[j]) != observation_key(run[x]) by {
            assert(observation_key(run[j]) != observation_key(run[x]));
        }
    }
}

/// Cancelling the filter edit brings back the filter that editing began
/// with: after `enter_filter_mode` turns `start` into `editing`, any
/// operations that keep the saved filter lead to `before_cancel`, and
/// `cancel_filter` turns that into `after`, the filter is `start`'s again and
/// the table shows `start`'s filter applied to the sessions then current,
/// stably sorted by the sort column.
pub proof fn law_cancel_restores_filter(start: App, editing: App, before_cancel: App, after: App)
    requires
        editing.begins_editing(&start),
        before_cancel.saved_filter() == editing.saved_filter(),
        after.cancels_editing(&before_cancel),
    ensures
        after.filter@ == start.filter@,
        !after.filter_mode,
        after.consistent(),
        stable_sort_of(
            views(after.sessions@),
            filtered(before_cancel.all_sessions_view(), start.filter@),
            column_order(before_cancel.sort_col, before_cancel.sort_asc),
        ),
{
}

proof fn lemma_substring_prefix(hay: Seq<char>, short: Seq<char>, long: Seq<char>)
    requires
        short.is_prefix_of(long),
        has_substring(hay, long),
    ensures
        has_substring(hay, short),
{
    let i = choose|i: int|
        0 <= i && i + long.len() <= hay.len() && #[trigger] hay.subrange(i, i + long.len()) == long;
    assert(hay.subrange(i, i + short.len()) =~= short) by {
        assert forall|k: int| 0 <= k < short.len() implies hay.subrange(i, i + short.len())[k]
            == short[k] by {
            assert(hay.subrange(i, i + long.len())[k] == long[k]);
        }
    }
}

/// A longer filter lets no more sessions through: where the lower-cased
/// text of a non-empty filter `longer` extends that of `shorter`, every
/// session that `longer` lets through `shorter` lets through too.  (On ASCII
/// text, typing a character extends the lower-cased filter by one.)
pub proof fn law_longer_filter_lets_fewer_through(
    all: Seq<SessionView>,
    shorter: Seq<char>,
    longer: Seq<char>,
)
    ensures
        longer.len() > 0 && (shorter.len() == 0 || lowercase(shorter).is_prefix_of(
            lowercase(longer),
        )) ==> forall|i: int|
            0 <= i < filtered(all, longer).len() ==> filtered(all, shorter).contains(
                #[trigger] filtered(all, longer)[i],
            ),
{
    if longer.len() > 0 && (shorter.len() == 0 || lowercase(shorter).is_prefix_of(
        lowercase(longer),
    )) {
        let lp = matching(lowercase(longer));
        let out = all.filter(lp);
        assert forall|i: int| 0 <= i < out.len() implies filtered(all, shorter).contains(
            #[trigger] out[i],
        ) by {
            assert(out.contains(out[i]));
            all.lemma_filter_contains_rev(lp, out[i]);
            let k = choose|k: int| 0 <= k < all.len() && all[k] == out[i];
            all.lemma_filter_pred(lp, i);
            if shorter.len() == 0 {
                assert(all.contains(out[i]));
            } else {
                let sp = matching(lowercase(shorter));
                let s = out[i];
                let ns = lowercase(shorter);
                let nl = lowercase(longer);
                if has_substring(lowercase(s.target_iqn), nl) {
                    lemma_substring_prefix(lowercase(s.target_iqn), ns, nl);
                } else if has_substring(lowercase(s.initiator_iqn), nl) {
                    lemma_substring_prefix(lowercase(s.initiator_iqn), ns, nl);
                } else {
                    let j = choose|j: int|
                        0 <= j < s.luns.len() && has_substring(lowercase(#[trigger] s.luns[j].device), nl);
                    lemma_substring_prefix(lowercase(s.luns[j].device), ns, nl);
                    assert(has_substring(lowercase(s.luns[j].device), ns));
                }
                assert(sp(all[k]));
                all.lemma_filter_contains(sp, k);
            }
        }
    }
}

/// Sorting by a column orders the rows by that column's value: ascending,
/// no row's value comes before that of a row above it (by text order for the
/// target, the initiator and the first LUN's device, by number for the
/// totals, by value for rates that are numbers); descending, the reverse.
pub proof fn law_sorting_orders_rows_by_the_column(
    r: Seq<SessionView>,
    s: Seq<SessionView>,
    col: usize,
    asc: bool,
)
    requires
        stable_sort_of(r, s, column_order(col, asc)),
    ensures
        r.len() == s.len(),
        forall|i: int, j: int|
            #![trigger r[i], r[j]]
            0 <= i < j < r.len() ==> {
                let up = if asc {
                    r[i]
                } else {
                    r[j]
                };
                let down = if asc {
                    r[j]
                } else {
                    r[i]
                };
                &&& col == 0 ==> !lex_lt(down.target_iqn, up.target_iqn)
                &&& col == 1 ==> !lex_lt(down.initiator_iqn, up.initiator_iqn)
                &&& col == 2 && up.luns.len() > 0 && down.luns.len() > 0 ==> !lex_lt(
                    down.luns[0].device,
                    up.luns[0].device,
                )
                &&& col == 2 && up.luns.len() > 0 && down.luns.len() == 0 ==> !lex_lt(
                    Seq::<char>::empty(),
                    up.luns[0].device,
                )
                &&& col == 3 && !is_nan_bits(up.read_rate_bits) && !is_nan_bits(
                    down.read_rate_bits,
                ) ==> float_rank(up.read_rate_bits) <= float_rank(down.read_rate_bits)
                &&& col == 4 && !is_nan_bits(up.write_rate_bits) && !is_nan_bits(
                    down.write_rate_bits,
                ) ==> float_rank(up.write_rate_bits) <= float_rank(down.write_rate_bits)
                &&& col == 5 ==> up.total_read_mb <= down.total_read_mb
                &&& col == 6 ==> up.total_write_mb <= down.total_write_mb
            },
{
    let perm = choose|perm: Seq<int>|
        #![trigger is_permutation(r, s, perm)]
        {
            &&& is_permutation(r, s, perm)
            &&& sorted_by(r, column_order(col, asc))
            &&& forall|i: int, j: int|
                0 <= i < j < r.len() && !column_order(col, asc)(r[i], r[j]) ==> #[trigger] perm[i]
                    < #[trigger] perm[j]
        };
    assert forall|i: int, j: int| 0 <= i < j < r.len() implies !column_order(col, asc)(
        #[trigger] r[j],
        #[trigger] r[i],
    ) by {}
}

/// The device cell shows the first LUN's device without its `/dev/`
/// prefix: putting `/dev/` back gives the device again, and a device not
/// under `/dev/` is shown whole; a session without LUNs shows `—`.
pub proof fn law_device_cell_shows_first_device(s: SessionView)
    ensures
        s.luns.len() == 0 ==> device_cell_text(s) == "—"@,
        s.luns.len() > 0 && "/dev/"@.is_prefix_of(s.luns[0].device) ==> "/dev/"@ + device_cell_text(
            s,
        ) == s.luns[0].device,
        s.luns.len() > 0 && !"/dev/"@.is_prefix_of(s.luns[0].device) ==> device_cell_text(s)
            == s.luns[0].device,
{
    reveal_strlit("/dev/");
    if s.luns.len() > 0 && "/dev/"@.is_prefix_of(s.luns[0].device) {
        let d = s.luns[0].device;
        assert("/dev/"@ + d.skip(5) =~= d);
    }
}

/// Where a LUN's device comes from: a non-blank `udev_path` wins; where
/// `udev_path` is missing or blank a non-blank `fd_dev_name` is used; where
/// both are missing or blank the store directory's name; an unreadable file
/// or no store at all gives `unknown`.  Values are trimmed.
pub proof fn law_device_name_sources(u: String, t: String, dir: Option<String>, other: AttrFile)
    ensures
        trim(u@).len() > 0 ==> device_name(
            Backing::Store { udev_path: AttrFile::Text(u), fd_dev_name: other, dir_name: dir },
        ) == trim(u@),
        trim(t@).len() > 0 ==> device_name(
            Backing::Store { udev_path: AttrFile::Absent, fd_dev_name: AttrFile::Text(t), dir_name: dir },
        ) == trim(t@),
        trim(u@).len() == 0 && trim(t@).len() > 0 ==> device_name(
            Backing::Store { udev_path: AttrFile::Text(u), fd_dev_name: AttrFile::Text(t), dir_name: dir },
        ) == trim(t@),
        trim(u@).len() == 0 && trim(t@).len() == 0 && dir is Some ==> device_name(
            Backing::Store { udev_path: AttrFile::Text(u), fd_dev_name: AttrFile::Text(t), dir_name: dir },
        ) == dir->0@,
        dir is Some ==> device_name(
            Backing::Store { udev_path: AttrFile::Absent, fd_dev_name: AttrFile::Absent, dir_name: dir },
        ) == dir->0@,
        device_name(
            Backing::Store { udev_path: AttrFile::Unreadable, fd_dev_name: other, dir_name: dir },
        ) == unknown_device(),
        device_name(Backing::Unknown) == unknown_device(),
{
}

/// Joining puts the separator between every two neighbouring parts and
/// nowhere else: one more part adds the separator and that part, a single
/// part is itself, and no parts give nothing.
pub proof fn law_join_separates_neighbours(parts: Seq<Seq<char>>, p: Seq<char>, sep: Seq<char>)
    ensures
        parts.len() >= 1 ==> joined(parts.push(p), sep) == joined(parts, sep) + sep + p,
        joined(seq![p], sep) == p,
        joined(Seq::<Seq<char>>::empty(), sep) == Seq::<char>::empty(),
{
    if parts.len() >= 1 {
        assert(parts.push(p).drop_last() =~= parts);
    }
}

/// The filter is case-insensitive over the target, the initiator and every
/// LUN's device: with a non-empty filter, a session is let through exactly
/// when one of them, lower-cased, contains the lower-cased filter; an empty
/// filter lets every session through.
pub proof fn law_filter_matches_any_field_ignoring_case(
    all: Seq<SessionView>,
    f: Seq<char>,
    s: SessionView,
)
    ensures
        f.len() == 0 ==> filtered(all, f) == all,
        f.len() > 0 && all.contains(s) && (has_substring(lowercase(s.target_iqn), lowercase(f))
            || has_substring(lowercase(s.initiator_iqn), lowercase(f)) || exists|i: int|
            0 <= i < s.luns.len() && has_substring(lowercase(#[trigger] s.luns[i].device), lowercase(f)))
            ==> filtered(all, f).contains(s),
        f.len() > 0 && filtered(all, f).contains(s) ==> all.contains(s) && (has_substring(
            lowercase(s.target_iqn),
            lowercase(f),
        ) || has_substring(lowercase(s.initiator_iqn), lowercase(f)) || exists|i: int|
            0 <= i < s.luns.len() && has_substring(lowercase(#[trigger] s.luns[i].device), lowercase(f))),
{
    if f.len() > 0 {
        let pred = matching(lowercase(f));
        if all.contains(s) && (has_substring(lowercase(s.target_iqn), lowercase(f)) || has_substring(
            lowercase(s.initiator_iqn),
            lowercase(f),
        ) || exists|i: int|
            0 <= i < s.luns.len() && has_substring(lowercase(#[trigger] s.luns[i].device), lowercase(f))) {
            let k = choose|k: int| 0 <= k < all.len() && all[k] == s;
            assert(pred(all[k]));
            all.lemma_filter_contains(pred, k);
        }
        if all.filter(pred).contains(s) {
            all.lemma_filter_contains_rev(pred, s);
            let k = choose|k: int| 0 <= k < all.filter(pred).len() && all.filter(pred)[k] == s;
            all.lemma_filter_pred(pred, k);
        }
    }
}

/// The short IQN is the IQN's last `:`-separated part: it holds no `:`, it
/// ends the IQN, and unless it is the whole IQN a `:` stands just before it.
pub proof fn law_short_iqn_is_last_part(iqn: Seq<char>)
    ensures
        forall|k: int| 0 <= k < short_iqn(iqn).len() ==> #[trigger] short_iqn(iqn)[k] != ':',
        short_iqn(iqn).is_suffix_of(iqn),
        short_iqn(iqn).len() < iqn.len() ==> iqn[iqn.len() - short_iqn(iqn).len() - 1] == ':',
        (forall|k: int| 0 <= k < iqn.len() ==> #[trigger] iqn[k] != ':') ==> short_iqn(iqn) == iqn,
{
    lemma_find_last_bounds(iqn, ':');
    match find_last(iqn, ':') {
        Some(i) => {
            let t = iqn.skip(i + 1);
            assert forall|k: int| 0 <= k < t.len() implies #[trigger] t[k] != ':' by {
                assert(t[k] == iqn[i + 1 + k]);
            }
            assert(t =~= iqn.subrange(iqn.len() - t.len(), iqn.len() as int));
        },
        None => {
            assert(iqn =~= iqn.subrange(0, iqn.len() as int));
        },
    }
}

/// Sizes under 1024 MB are shown in MB as a whole number; up to 1024 GB in
/// GB, beyond in TB.
pub proof fn law_size_units(mb: u64)
    ensures
        mb < 1024 ==> mb_text(mb) == decimal(mb as nat) + " MB"@,
        1024 <= mb < 1024 * 1024 ==> " GB"@.is_suffix_of(mb_text(mb)),
        1024 * 1024 <= mb ==> " TB"@.is_suffix_of(mb_text(mb)),
{
    let t = mb_text(mb);
    reveal_strlit(" GB");
    reveal_strlit(" TB");
    if 1024 <= mb {
        let unit = if mb < 1024 * 1024 {
            " GB"@
        } else {
            " TB"@
        };
        assert(t.subrange(t.len() - 3, t.len() as int) =~= unit) by {
            assert(unit.len() == 3);
            assert forall|k: int| 0 <= k < 3 implies t.subrange(t.len() - 3, t.len() as int)[k]
                == unit[k] by {
                assert(t[t.len() - 3 + k] == unit[k]);
            }
        }
    }
}

/// A rate sample measures how far each counter moved since the previous
/// reading, and over what time: the previous value plus the delta is the new
/// value, a counter that went back counts as unmoved, and the first reading
/// of a session has no previous one.
pub proof fn law_sample_measures_movement(prev: RateState, read_mb: u64, write_mb: u64, now_ns: u64)
    ensures
        sample_after(Some(prev), read_mb, write_mb, now_ns) matches RateSample::Since {
            read_mb: dr,
            write_mb: dw,
            elapsed_ns: dt,
        } && (read_mb >= prev.read_mb ==> prev.read_mb + dr == read_mb) && (read_mb < prev.read_mb
            ==> dr == 0) && (write_mb >= prev.write_mb ==> prev.write_mb + dw == write_mb) && (
        write_mb < prev.write_mb ==> dw == 0) && (now_ns >= prev.at_ns ==> prev.at_ns + dt
            == now_ns) && (now_ns < prev.at_ns ==> dt == 0),
        sample_after(None, read_mb, write_mb, now_ns) == RateSample::First,
{
}

/// The highlight, after the rows change, stays on a row: it exists exactly
/// when there are rows, lies within them, and stays where it was if that
/// row still exists.
pub proof fn law_selection_stays_on_a_row(sel: Option<usize>, len: nat)
    ensures
        clamped_selection(sel, len) is Some <==> len > 0,
        clamped_selection(sel, len) matches Some(i) ==> i < len,
        sel matches Some(i) && i < len ==> clamped_selection(sel, len) == sel,
        sel is None && len > 0 ==> clamped_selection(sel, len) == Some(0usize),
{
}

/// A session's LUNs come out in order of their numbers.
pub proof fn law_luns_come_out_by_number(r: Seq<LunView>, s: Seq<LunView>)
    requires
        stable_sort_of(r, s, lun_view_order()),
    ensures
        r.len() == s.len(),
        forall|i: int, j: int| 0 <= i < j < r.len() ==> #[trigger] r[i].index <= #[trigger] r[j].index,
{
    let perm = choose|perm: Seq<int>|
        #![trigger is_permutation(r, s, perm)]
        {
            &&& is_permutation(r, s, perm)
            &&& sorted_by(r, lun_view_order())
            &&& forall|i: int, j: int|
                0 <= i < j < r.len() && !lun_view_order()(r[i], r[j]) ==> #[trigger] perm[i]
                    < #[trigger] perm[j]
        };
    assert forall|i: int, j: int| 0 <= i < j < r.len() implies #[trigger] r[i].index
        <= #[trigger] r[j].index by {
        assert(!lun_view_order()(r[j], r[i]));
    }
}

/// A LUN directory named `lun_` and a number has that number.
pub proof fn law_lun_number_reads_back(n: u32)
    ensures
        lun_number(seq!['l', 'u', 'n', '_'] + decimal(n as nat)) == Some(n),
{
    let name = seq!['l', 'u', 'n', '_'] + decimal(n as nat);
    lemma_decimal_digits(n as nat);
    assert(name.skip(4) =~= decimal(n as nat));
    assert(seq!['l', 'u', 'n', '_'].is_prefix_of(name));
    assert(unsigned_digits(decimal(n as nat)) == decimal(n as nat));
    assert(numeral_value(decimal(n as nat)) == Some(n as nat));
}

/// The number of lines that start with `ESTAB`.
pub open spec fn estab_lines(ls: Seq<Seq<char>>) -> nat
    decreases ls.len(),
{
    if ls.len() == 0 {
        0
    } else {
        (if estab().is_prefix_of(ls[0]) {
            1nat
        } else {
            0nat
        }) + estab_lines(ls.skip(1))
    }
}

/// `ss` output yields one connection per `ESTAB` line: a detail line, which
/// starts with a tab or a space, is never one.
pub proof fn law_one_connection_per_estab_line(ls: Seq<Seq<char>>)
    ensures
        connections_in(ls).len() == estab_lines(ls),
    decreases ls.len(),
{
    if ls.len() > 0 {
        law_one_connection_per_estab_line(ls.skip(1));
        if estab().is_prefix_of(ls[0]) && ls.len() > 1 && crate::net::is_detail_line(ls[1]) {
            law_one_connection_per_estab_line(ls.skip(2));
            assert(ls.skip(1).skip(1) =~= ls.skip(2));
            assert(ls.skip(1)[0] == ls[1]);
            assert(!estab().is_prefix_of(ls[1])) by {
                assert(estab()[0] == 'E');
            }
        }
    }
}

/// The initiator names read from a `dynamic_sessions` file are never empty.
pub proof fn law_session_names_are_not_blank(bytes: Seq<u8>)
    ensures
        forall|k: int| 0 <= k < session_names(bytes).len() ==> #[trigger] session_names(bytes)[k].len() > 0,
{
    let raw = crate::text::lines(crate::text::utf8_lossy(bytes.filter(crate::iscsi::nonzero_byte()))).map_values(
        crate::iscsi::trim_fn(),
    );
    raw.filter_lemma(crate::iscsi::nonblank());
}

} // verus!
