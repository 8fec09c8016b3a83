//! The session table's rules: the order of each column, the filter, and the
//! text of its cells.

use vstd::prelude::*;

use crate::iscsi::{copy_session, LunView, Session, SessionView};
use crate::sort::{
    lemma_stable_sort_agree, lemma_stable_sort_map, stable_sort, stable_sort_of, strict_weak_order,
};
use crate::text::{
    chars_of, contains_chars, has_substring, lemma_lex_incomparable, lemma_lex_irreflexive,
    lemma_lex_transitive, lex_less, lex_lt, lowercase, to_lowercase, ascii_lower, is_ascii_text,
};

verus! {

/// Number of columns of the session table.
pub const NUM_COLS: usize = 7;

pub open spec fn views(s: Seq<Session>) -> Seq<SessionView> {
    s.map_values(|x: Session| x@)
}

/// The device of a session's first LUN, or nothing.
pub open spec fn first_device(s: SessionView) -> Seq<char> {
    if s.luns.len() > 0 {
        s.luns[0].device
    } else {
        seq![]
    }
}

/// The magnitude bits of an `f64`: everything but the sign bit.
pub open spec fn magnitude(bits: u64) -> int {
    (bits % 0x8000_0000_0000_0000) as int
}

/// Whether the `f64` with bit pattern `bits` is NaN: all exponent bits set
/// and a non-zero mantissa.
pub open spec fn is_nan_bits(bits: u64) -> bool {
    magnitude(bits) > 0x7FF0_0000_0000_0000
}

/// The place of a non-NaN `f64` in the order of values: the magnitude bits,
/// negated under the sign bit.  IEEE 754 orders the magnitudes of floats of
/// one sign by their bits, so this is the order of the values, from negative
/// infinity to positive infinity, with the two zeros at one place.
pub open spec fn float_rank(bits: u64) -> int {
    if bits >= 0x8000_0000_0000_0000 {
        -magnitude(bits)
    } else {
        magnitude(bits)
    }
}

/// `a < b` for the `f64` values with bit patterns `a` and `b`: false when
/// either is NaN, as `partial_cmp` then gives no order.
pub open spec fn float_lt(a: u64, b: u64) -> bool {
    !is_nan_bits(a) && !is_nan_bits(b) && float_rank(a) < float_rank(b)
}

/// Whether `a` comes before `b` in ascending order of column `col`: target,
/// initiator, device, read rate, write rate, total read, total written.
/// Rates compare as floating-point values.  Beyond the last column every two
/// sessions are equal.
pub open spec fn column_less(a: SessionView, b: SessionView, col: usize) -> bool {
    if col == 0 {
        lex_lt(a.target_iqn, b.target_iqn)
    } else if col == 1 {
        lex_lt(a.initiator_iqn, b.initiator_iqn)
    } else if col == 2 {
        lex_lt(first_device(a), first_device(b))
    } else if col == 3 {
        float_lt(a.read_rate_bits, b.read_rate_bits)
    } else if col == 4 {
        float_lt(a.write_rate_bits, b.write_rate_bits)
    } else if col == 5 {
        a.total_read_mb < b.total_read_mb
    } else if col == 6 {
        a.total_write_mb < b.total_write_mb
    } else {
        false
    }
}

/// Whether no rate compared by column `col` is NaN, so that the column's
/// order is a strict weak order on `s` and a sort by it is well defined.
pub open spec fn column_sortable(s: Seq<SessionView>, col: usize) -> bool {
    forall|i: int|
        #![trigger s[i]]
        0 <= i < s.len() ==> (col == 3 ==> !is_nan_bits(s[i].read_rate_bits)) && (col == 4
            ==> !is_nan_bits(s[i].write_rate_bits))
}

/// The rank by which the sort places a rate: its value's place, NaN ranked
/// with the zeros.  On rates that are not NaN it orders as `float_lt`.
spec fn sort_rank(bits: u64) -> int {
    if is_nan_bits(bits) {
        0
    } else {
        float_rank(bits)
    }
}

/// `column_less` with rates placed by `sort_rank`: a strict weak order on all
/// sessions, equal to `column_less` where no rate compared is NaN.
spec fn rank_less(a: SessionView, b: SessionView, col: usize) -> bool {
    if col == 3 {
        sort_rank(a.read_rate_bits) < sort_rank(b.read_rate_bits)
    } else if col == 4 {
        sort_rank(a.write_rate_bits) < sort_rank(b.write_rate_bits)
    } else {
        column_less(a, b, col)
    }
}

spec fn rank_order(col: usize, asc: bool) -> spec_fn(Session, Session) -> bool {
    |a: Session, b: Session|
        if asc {
            rank_less(a@, b@, col)
        } else {
            rank_less(b@, a@, col)
        }
}

spec fn rank_view_order(col: usize, asc: bool) -> spec_fn(SessionView, SessionView) -> bool {
    |a: SessionView, b: SessionView|
        if asc {
            rank_less(a, b, col)
        } else {
            rank_less(b, a, col)
        }
}

/// The rank of a rate as computed: `float_rank`, or `sort_rank` when
/// `nan_as_zero`.
fn rank_of(bits: u64, nan_as_zero: bool) -> (r: i64)
    ensures
        r == (if nan_as_zero {
            sort_rank(bits)
        } else {
            float_rank(bits)
        }),
{
    let mag = bits % 0x8000_0000_0000_0000;
    if nan_as_zero && mag > 0x7FF0_0000_0000_0000 {
        0
    } else if bits >= 0x8000_0000_0000_0000 {
        -(mag as i64)
    } else {
        mag as i64
    }
}

/// `a < b` for the `f64` values with bit patterns `a` and `b`.
fn float_less(a: u64, b: u64) -> (r: bool)
    ensures
        r == float_lt(a, b),
{
    let nan_a = a % 0x8000_0000_0000_0000 > 0x7FF0_0000_0000_0000;
    let nan_b = b % 0x8000_0000_0000_0000 > 0x7FF0_0000_0000_0000;
    !nan_a && !nan_b && rank_of(a, false) < rank_of(b, false)
}

/// The order of column `col`, ascending or descending.
pub open spec fn column_order(col: usize, asc: bool) -> spec_fn(SessionView, SessionView) -> bool {
    |a: SessionView, b: SessionView|
        if asc {
            column_less(a, b, col)
        } else {
            column_less(b, a, col)
        }
}

proof fn lemma_rank_less(a: SessionView, b: SessionView, c: SessionView, col: usize)
    ensures
        !rank_less(a, a, col),
        rank_less(a, b, col) && rank_less(b, c, col) ==> rank_less(a, c, col),
        !rank_less(a, b, col) && !rank_less(b, c, col) ==> !rank_less(a, c, col),
{
    if col <= 2 {
        let (x, y, z) = if col == 0 {
            (a.target_iqn, b.target_iqn, c.target_iqn)
        } else if col == 1 {
            (a.initiator_iqn, b.initiator_iqn, c.initiator_iqn)
        } else {
            (first_device(a), first_device(b), first_device(c))
        };
        lemma_lex_irreflexive(x);
        if lex_lt(x, y) && lex_lt(y, z) {
            lemma_lex_transitive(x, y, z);
        }
        if !lex_lt(x, y) && !lex_lt(y, z) {
            lemma_lex_incomparable(x, y, z);
        }
    }
}

proof fn lemma_rank_order(col: usize, asc: bool)
    ensures
        strict_weak_order(rank_order(col, asc)),
{
    let o = rank_order(col, asc);
    assert forall|a: Session| !#[trigger] o(a, a) by {
        lemma_rank_less(a@, a@, a@, col);
    }
    assert forall|a: Session, b: Session, c: Session|
        #![trigger o(a, b), o(b, c), o(a, c)]
        o(a, b) && o(b, c) implies o(a, c) by {
        if asc {
            lemma_rank_less(a@, b@, c@, col);
        } else {
            lemma_rank_less(c@, b@, a@, col);
        }
    }
    assert forall|a: Session, b: Session, c: Session|
        #![trigger o(a, b), o(b, c), o(a, c)]
        !o(a, b) && !o(b, c) implies !o(a, c) by {
        if asc {
            lemma_rank_less(a@, b@, c@, col);
        } else {
            lemma_rank_less(c@, b@, a@, col);
        }
    }
}

fn first_device_chars(s: &Session) -> (r: Vec<char>)
    ensures
        r@ == first_device(s@),
{
    if s.luns.len() > 0 {
        chars_of(s.luns[0].device.as_str())
    } else {
        Vec::new()
    }
}

/// Whether `a` comes before `b` in column `col`, ascending or descending.
pub fn session_precedes(a: &Session, b: &Session, col: usize, asc: bool) -> (r: bool)
    ensures
        r == column_order(col, asc)(a@, b@),
{
    let (x, y) = if asc {
        (a, b)
    } else {
        (b, a)
    };
    if col == 0 {
        lex_less(&chars_of(x.target_iqn.as_str()), &chars_of(y.target_iqn.as_str()))
    } else if col == 1 {
        lex_less(&chars_of(x.initiator_iqn.as_str()), &chars_of(y.initiator_iqn.as_str()))
    } else if col == 2 {
        lex_less(&first_device_chars(x), &first_device_chars(y))
    } else if col == 3 {
        float_less(x.read_rate_bits, y.read_rate_bits)
    } else if col == 4 {
        float_less(x.write_rate_bits, y.write_rate_bits)
    } else if col == 5 {
        x.total_read_mb < y.total_read_mb
    } else if col == 6 {
        x.total_write_mb < y.total_write_mb
    } else {
        false
    }
}

/// Whether no rate compared by column `col` among `sessions` is NaN.
pub fn column_is_sortable(sessions: &Vec<Session>, col: usize) -> (r: bool)
    ensures
        r == column_sortable(views(sessions@), col),
{
    let mut i: usize = 0;
    while i < sessions.len()
        invariant
            i <= sessions@.len(),
            column_sortable(views(sessions@).take(i as int), col),
        decreases sessions@.len() - i,
    {
        let read = sessions[i].read_rate_bits % 0x8000_0000_0000_0000;
        let write = sessions[i].write_rate_bits % 0x8000_0000_0000_0000;
        assert(views(sessions@)[i as int] == sessions@[i as int]@);
        if (col == 3 && read > 0x7FF0_0000_0000_0000) || (col == 4 && write > 0x7FF0_0000_0000_0000) {
            assert(!column_sortable(views(sessions@), col)) by {
                assert(views(sessions@)[i as int] == sessions@[i as int]@);
            }
            return false;
        }
        assert(views(sessions@).take(i + 1) =~= views(sessions@).take(i as int).push(
            views(sessions@)[i as int],
        ));
        i += 1;
    }
    assert(views(sessions@).take(sessions@.len() as int) =~= views(sessions@));
    true
}

/// Whether `a` comes before `b` by `rank_order`.
fn rank_precedes(a: &Session, b: &Session, col: usize, asc: bool) -> (r: bool)
    ensures
        r == rank_order(col, asc)(*a, *b),
{
    let (x, y) = if asc {
        (a, b)
    } else {
        (b, a)
    };
    if col == 3 {
        rank_of(x.read_rate_bits, true) < rank_of(y.read_rate_bits, true)
    } else if col == 4 {
        rank_of(x.write_rate_bits, true) < rank_of(y.write_rate_bits, true)
    } else {
        session_precedes(a, b, col, asc)
    }
}

/// Sorts the sessions stably by column `col`, ascending or descending.  The
/// rates of a rate column must be numbers: with a NaN among them the
/// column's order is no strict weak order and no stable sort by it exists.
pub fn sort_sessions(sessions: &mut Vec<Session>, col: usize, asc: bool)
    requires
        column_sortable(views(old(sessions)@), col),
    ensures
        stable_sort_of(views(final(sessions)@), views(old(sessions)@), column_order(col, asc)),
{
    let ghost before = sessions@;
    let less = |a: &Session, b: &Session| -> (r: bool)
        ensures
            r == rank_order(col, asc)(*a, *b),
        { rank_precedes(a, b, col, asc) };
    proof {
        lemma_rank_order(col, asc);
    }
    stable_sort(sessions, less, Ghost(rank_order(col, asc)));
    proof {
        lemma_stable_sort_map(
            sessions@,
            before,
            rank_order(col, asc),
            |x: Session| x@,
            rank_view_order(col, asc),
        );
        assert(views(sessions@) == sessions@.map_values(|x: Session| x@));
        let s = views(before);
        assert forall|i: int, j: int| 0 <= i < s.len() && 0 <= j < s.len() implies rank_view_order(
            col,
            asc,
        )(s[i], s[j]) == column_order(col, asc)(s[i], s[j]) by {
            assert(col == 3 ==> !is_nan_bits(s[i].read_rate_bits) && !is_nan_bits(s[j].read_rate_bits));
            assert(col == 4 ==> !is_nan_bits(s[i].write_rate_bits) && !is_nan_bits(s[j].write_rate_bits));
        }
        lemma_stable_sort_agree(views(sessions@), s, rank_view_order(col, asc), column_order(col, asc));
    }
}

/// Whether a session matches the lower-cased filter text `needle`: its target,
/// its initiator or the device of one of its LUNs, lower-cased, contains it.
pub open spec fn matches_needle(s: SessionView, needle: Seq<char>) -> bool {
    ||| has_substring(lowercase(s.target_iqn), needle)
    ||| has_substring(lowercase(s.initiator_iqn), needle)
    ||| exists|i: int| 0 <= i < s.luns.len() && has_substring(lowercase(#[trigger] s.luns[i].device), needle)
}

pub open spec fn matching(needle: Seq<char>) -> spec_fn(SessionView) -> bool {
    |s: SessionView| matches_needle(s, needle)
}

/// The sessions shown under the filter text `filter`: all of them for an
/// empty filter, else those matching it lower-cased, in the same order.
pub open spec fn filtered(all: Seq<SessionView>, filter: Seq<char>) -> Seq<SessionView> {
    if filter.len() == 0 {
        all
    } else {
        all.filter(matching(lowercase(filter)))
    }
}

fn lower_contains(hay: &String, needle: &[char]) -> (r: bool)
    ensures
        r == has_substring(lowercase(hay@), needle@),
{
    let low = to_lowercase(hay.as_str());
    contains_chars(&chars_of(low.as_str()), needle)
}

/// Whether `session` matches the lower-cased filter text `needle`.
pub fn session_matches(session: &Session, needle: &[char]) -> (r: bool)
    ensures
        r == matches_needle(session@, needle@),
{
    if lower_contains(&session.target_iqn, needle) {
        return true;
    }
    if lower_contains(&session.initiator_iqn, needle) {
        return true;
    }
    let mut i: usize = 0;
    while i < session.luns.len()
        invariant
            i <= session.luns@.len(),
            forall|k: int|
                0 <= k < i ==> !has_substring(lowercase(#[trigger] session@.luns[k].device), needle@),
        decreases session.luns@.len() - i,
    {
        assert(session@.luns[i as int] == session.luns@[i as int]@);
        if lower_contains(&session.luns[i].device, needle) {
            assert(has_substring(lowercase(session@.luns[i as int].device), needle@));
            return true;
        }
        i += 1;
    }
    false
}

/// Copies of the sessions that the filter text `filter` lets through.
pub fn filter_sessions(all: &Vec<Session>, filter: &String) -> (r: Vec<Session>)
    ensures
        views(r@) == filtered(views(all@), filter@),
        is_ascii_text(filter@) ==> lowercase(filter@) == filter@.map_values(
            |c: char| ascii_lower(c),
        ),
{
    let low = to_lowercase(filter.as_str());
    let needle = chars_of(low.as_str());
    let empty = filter.as_str().is_empty();
    let ghost pred = matching(lowercase(filter@));
    let mut out: Vec<Session> = Vec::new();
    let mut i: usize = 0;
    while i < all.len()
        invariant
            i <= all@.len(),
            needle@ == lowercase(filter@),
            empty == (filter@.len() == 0),
            pred == matching(lowercase(filter@)),
            views(out@) == filtered(views(all@).take(i as int), filter@),
        decreases all@.len() - i,
    {
        let ghost prev = out@;
        let ghost taken = views(all@).take(i as int);
        assert(views(all@).take(i + 1) =~= taken.push(all@[i as int]@));
        proof {
            taken.lemma_filter_push(all@[i as int]@, pred);
        }
        if empty || session_matches(&all[i], &needle) {
            let c = copy_session(&all[i]);
            out.push(c);
            assert(views(out@) =~= views(prev).push(c@));
        }
        i += 1;
    }
    assert(views(all@).take(all@.len() as int) =~= views(all@));
    out
}

} // verus!
