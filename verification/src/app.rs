//! The monitor's state: the sessions shown and how they are filtered, sorted
//! and selected, the source addresses of the iSCSI connections, and the
//! transitions that the keys and the periodic refresh cause.

use vstd::prelude::*;

use crate::iscsi::{
    collect_run, collection_fits, sorted_by_target, Collector, Observation, Session,
    SessionView, TpgtDir,
};
use crate::net::TcpConnection;
use crate::rates::{RateKey, RateState};
use crate::sort::{is_permutation, sorted_by, stable_sort_of};
use crate::table::{
    column_order, column_sortable, filter_sessions, filtered, matching, sort_sessions, views,
    NUM_COLS,
};
use crate::text::{
    ascii_lower, is_ascii_text, lowercase, chars_of, lemma_lex_irreflexive, lemma_lex_total, lemma_lex_transitive, lex_less, lex_lt, pop_char, push_char,
    same_chars,
};
use crate::textmap::TextMap;

verus! {

/// The characters of each string.
pub open spec fn texts(v: Seq<String>) -> Seq<Seq<char>> {
    v.map_values(|s: String| s@)
}

/// The characters of an optional string.
pub open spec fn opt_text(o: Option<String>) -> Option<Seq<char>> {
    match o {
        Some(s) => Some(s@),
        None => None,
    }
}

/// `r` holds the elements of `s`, rearranged.
pub open spec fn rearranges<T>(r: Seq<T>, s: Seq<T>) -> bool {
    exists|p: Seq<int>| #[trigger] is_permutation(r, s, p)
}

proof fn lemma_rearranges_refl<T>(s: Seq<T>)
    ensures
        rearranges(s, s),
{
    let p = Seq::new(s.len(), |i: int| i);
    assert(is_permutation(s, s, p));
}

proof fn lemma_sort_rearranges<T>(r: Seq<T>, s: Seq<T>, before: spec_fn(T, T) -> bool)
    requires
        stable_sort_of(r, s, before),
    ensures
        rearranges(r, s),
        crate::sort::sorted_by(r, before),
{
    let p = choose|perm: Seq<int>|
        #![trigger is_permutation(r, s, perm)]
        {
            &&& is_permutation(r, s, perm)
            &&& sorted_by(r, before)
            &&& forall|i: int, j: int|
                0 <= i < j < r.len() && !before(r[i], r[j]) ==> #[trigger] perm[i]
                    < #[trigger] perm[j]
        };
    assert(is_permutation(r, s, p));
}

proof fn lemma_rearranges_trans<T>(r: Seq<T>, s: Seq<T>, t: Seq<T>)
    requires
        rearranges(r, s),
        rearranges(s, t),
    ensures
        rearranges(r, t),
{
    let p = choose|p: Seq<int>| #[trigger] is_permutation(r, s, p);
    let q = choose|q: Seq<int>| #[trigger] is_permutation(s, t, q);
    let c = Seq::new(p.len(), |i: int| q[p[i]]);
    assert forall|i: int, j: int| 0 <= i < j < c.len() implies #[trigger] c[i] != #[trigger] c[j] by {
        assert(p[i] != p[j]);
        if p[i] < p[j] {
            assert(q[p[i]] != q[p[j]]);
        } else {
            assert(q[p[j]] != q[p[i]]);
        }
    }
    assert(is_permutation(r, t, c));
}

/// Where the highlight lands when the table changes to `len` rows: kept
/// where it still fits, moved to the last row where it does not, removed from
/// an empty table, and put on the first row of a table that had none.
pub open spec fn clamped_selection(sel: Option<usize>, len: nat) -> Option<usize> {
    match sel {
        Some(i) => if len == 0 {
            None
        } else if i >= len {
            Some((len - 1) as usize)
        } else {
            Some(i)
        },
        None => if len > 0 {
            Some(0)
        } else {
            None
        },
    }
}

/// A row is highlighted exactly when there are rows, and it is one of them.
pub open spec fn selection_fits(sel: Option<usize>, len: nat) -> bool {
    &&& (sel is None) == (len == 0)
    &&& sel matches Some(i) ==> i < len
}

/// Sort column and direction after choosing column `col`: the same column
/// again reverses the direction, another column sorts it ascending.
pub open spec fn sort_choice(col: usize, cur_col: usize, cur_asc: bool) -> (usize, bool) {
    if cur_col == col {
        (col, !cur_asc)
    } else {
        (col, true)
    }
}

/// The peer addresses of the connections.
pub open spec fn peer_set(c: Seq<TcpConnection>) -> Set<Seq<char>> {
    Set::new(|x: Seq<char>| exists|k: int| 0 <= k < c.len() && #[trigger] c[k].peer_addr@ == x)
}

pub open spec fn strictly_ascending(r: Seq<Seq<char>>) -> bool {
    forall|i: int, j: int| 0 <= i < j < r.len() ==> lex_lt(#[trigger] r[i], #[trigger] r[j])
}

/// `r` lists the elements of `s` in ascending order, each once.
pub open spec fn lists_set(r: Seq<Seq<char>>, s: Set<Seq<char>>) -> bool {
    &&& strictly_ascending(r)
    &&& forall|x: Seq<char>| #[trigger] r.contains(x) <==> s.contains(x)
}

/// The distinct peer addresses of the connections, in ascending order.
pub fn distinct_peers(conns: &Vec<TcpConnection>) -> (r: Vec<String>)
    ensures
        lists_set(texts(r@), peer_set(conns@)),
{
    let mut out: Vec<String> = Vec::new();
    let mut k: usize = 0;
    while k < conns.len()
        invariant
            k <= conns@.len(),
            strictly_ascending(texts(out@)),
            forall|x: Seq<char>|
                #[trigger] texts(out@).contains(x) <==> exists|j: int|
                    0 <= j < k && #[trigger] conns@[j].peer_addr@ == x,
        decreases conns@.len() - k,
    {
        let x = chars_of(conns[k].peer_addr.as_str());
        let ghost xs = x@;
        let ghost cur = texts(out@);
        let mut p: usize = 0;
        while p < out.len() && lex_less(&chars_of(out[p].as_str()), &x)
            invariant
                p <= out@.len(),
                cur == texts(out@),
                xs == x@,
                forall|i: int| 0 <= i < p ==> lex_lt(#[trigger] cur[i], xs),
            decreases out@.len() - p,
        {
            assert(cur[p as int] == out@[p as int]@);
            p += 1;
        }
        let present = p < out.len() && same_chars(&chars_of(out[p].as_str()), &x);
        proof {
            assert(texts(out@).contains(xs) <==> present) by {
                if p < out@.len() {
                    assert(cur[p as int] == out@[p as int]@);
                }
                if texts(out@).contains(xs) {
                    let i = choose|i: int| 0 <= i < cur.len() && cur[i] == xs;
                    if i < p {
                        lemma_lex_irreflexive(xs);
                    } else if i > p {
                        assert(lex_lt(cur[p as int], cur[i]));
                    }
                }
                if present {
                    assert(cur[p as int] == xs);
                }
            }
        }
        if !present {
            let s = conns[k].peer_addr.clone();
            out.insert(p, s);
            proof {
                assert(texts(out@) =~= cur.insert(p as int, xs));
                assert forall|i: int, j: int| 0 <= i < j < texts(out@).len() implies lex_lt(
                    #[trigger] texts(out@)[i],
                    #[trigger] texts(out@)[j],
                ) by {
                    let t = texts(out@);
                    if j < p {
                        assert(t[i] == cur[i] && t[j] == cur[j]);
                    } else if j == p {
                        assert(t[i] == cur[i]);
                    } else if i == p {
                        assert(t[j] == cur[j - 1]);
                        if p < cur.len() {
                            lemma_lex_total(cur[p as int], xs);
                            if j - 1 > p {
                                assert(lex_lt(cur[p as int], cur[j - 1]));
                                lemma_lex_transitive(xs, cur[p as int], cur[j - 1]);
                            }
                        }
                    } else if i < p {
                        assert(t[i] == cur[i] && t[j] == cur[j - 1]);
                    } else {
                        assert(t[i] == cur[i - 1] && t[j] == cur[j - 1]);
                    }
                }
                assert forall|y: Seq<char>| #[trigger] texts(out@).contains(y) <==> exists|j: int|
                    0 <= j < k + 1 && #[trigger] conns@[j].peer_addr@ == y by {
                    let t = texts(out@);
                    if t.contains(y) {
                        let i = choose|i: int| 0 <= i < t.len() && t[i] == y;
                        if i < p {
                            assert(cur[i] == y);
                            assert(cur.contains(y));
                        } else if i > p {
                            assert(cur[i - 1] == y);
                            assert(cur.contains(y));
                        } else {
                            assert(conns@[k as int].peer_addr@ == y);
                        }
                    }
                    if exists|j: int| 0 <= j < k + 1 && #[trigger] conns@[j].peer_addr@ == y {
                        let j = choose|j: int| 0 <= j < k + 1 && #[trigger] conns@[j].peer_addr@ == y;
                        if j < k {
                            assert(cur.contains(y));
                            let i = choose|i: int| 0 <= i < cur.len() && cur[i] == y;
                            if i < p {
                                assert(t[i] == y);
                            } else {
                                assert(t[i + 1] == y);
                            }
                        } else {
                            assert(t[p as int] == y);
                        }
                    }
                }
            }
        } else {
            proof {
                assert forall|y: Seq<char>| #[trigger] texts(out@).contains(y) <==> exists|j: int|
                    0 <= j < k + 1 && #[trigger] conns@[j].peer_addr@ == y by {
                    if exists|j: int| 0 <= j < k + 1 && #[trigger] conns@[j].peer_addr@ == y {
                        let j = choose|j: int| 0 <= j < k + 1 && #[trigger] conns@[j].peer_addr@ == y;
                        if j == k {
                            assert(texts(out@).contains(xs));
                        }
                    }
                }
            }
        }
        k += 1;
    }
    proof {
        assert forall|x: Seq<char>| #[trigger] texts(out@).contains(x) <==> peer_set(
            conns@,
        ).contains(x) by {}
    }
    out
}


/// The names known after adding the `(address, name)` pairs in order, each
/// only where its address has no name yet.
pub open spec fn add_lookups(
    m: Map<Seq<char>, Seq<char>>,
    ls: Seq<(Seq<char>, Seq<char>)>,
) -> Map<Seq<char>, Seq<char>>
    decreases ls.len(),
{
    if ls.len() == 0 {
        m
    } else {
        let prev = add_lookups(m, ls.drop_last());
        let (k, v) = ls.last();
        if prev.contains_key(k) {
            prev
        } else {
            prev.insert(k, v)
        }
    }
}

pub open spec fn lookup_texts(ls: Seq<(String, String)>) -> Seq<(Seq<char>, Seq<char>)> {
    ls.map_values(|p: (String, String)| (p.0@, p.1@))
}

/// The initiator's host name: the one name that the resolved addresses
/// share, or `None` where none is resolved or they have different names.
pub open spec fn hostname_choice(ips: Seq<Seq<char>>, m: Map<Seq<char>, Seq<char>>) -> Option<
    Seq<char>,
> {
    if (exists|i: int| 0 <= i < ips.len() && #[trigger] m.contains_key(ips[i])) && (forall|
        i: int,
        j: int,
    |
        0 <= i < ips.len() && 0 <= j < ips.len() && #[trigger] m.contains_key(ips[i])
            && #[trigger] m.contains_key(ips[j]) ==> m[ips[i]] == m[ips[j]]) {
        let i = choose|i: int| 0 <= i < ips.len() && #[trigger] m.contains_key(ips[i]);
        Some(m[ips[i]])
    } else {
        None
    }
}

fn choose_hostname(ips: &Vec<String>, cache: &TextMap) -> (r: Option<String>)
    requires
        cache.wf(),
    ensures
        opt_text(r) == hostname_choice(texts(ips@), cache.map()),
{
    let ghost t = texts(ips@);
    let ghost m = cache.map();
    let mut first: Option<String> = None;
    let mut same = true;
    let mut k: usize = 0;
    while k < ips.len()
        invariant
            k <= ips@.len(),
            cache.wf(),
            t == texts(ips@),
            m == cache.map(),
            first is None <==> !exists|i: int| 0 <= i < k && #[trigger] m.contains_key(t[i]),
            first matches Some(f) ==> exists|i: int|
                0 <= i < k && #[trigger] m.contains_key(t[i]) && m[t[i]] == f@,
            same <==> forall|i: int, j: int|
                0 <= i < k && 0 <= j < k && #[trigger] m.contains_key(t[i])
                    && #[trigger] m.contains_key(t[j]) ==> m[t[i]] == m[t[j]],
        decreases ips@.len() - k,
    {
        assert(t[k as int] == ips@[k as int]@);
        match cache.get(&ips[k]) {
            Some(h) => {
                match &first {
                    Some(f) => {
                        let eq = same_chars(&chars_of(f.as_str()), &chars_of(h.as_str()));
                        proof {
                            let i0 = choose|i: int|
                                0 <= i < k && #[trigger] m.contains_key(t[i]) && m[t[i]] == f@;
                            assert(m.contains_key(t[k as int]) && m[t[k as int]] == h@);
                            let all_eq = forall|i: int, j: int|
                                0 <= i < k + 1 && 0 <= j < k + 1 && #[trigger] m.contains_key(t[i])
                                    && #[trigger] m.contains_key(t[j]) ==> m[t[i]] == m[t[j]];
                            if same && eq {
                                assert forall|i: int, j: int|
                                    0 <= i < k + 1 && 0 <= j < k + 1 && #[trigger] m.contains_key(
                                        t[i],
                                    ) && #[trigger] m.contains_key(t[j]) implies m[t[i]]
                                    == m[t[j]] by {
                                    if i < k {
                                        assert(m[t[i]] == m[t[i0]]);
                                    }
                                    if j < k {
                                        assert(m[t[j]] == m[t[i0]]);
                                    }
                                }
                            } else if same {
                                assert(m[t[i0]] != m[t[k as int]]);
                                assert(!all_eq);
                            } else {
                                let (a, b) = choose|i: int, j: int|
                                    0 <= i < k && 0 <= j < k && #[trigger] m.contains_key(t[i])
                                        && #[trigger] m.contains_key(t[j]) && m[t[i]] != m[t[j]];
                                assert(!all_eq);
                            }
                        }
                        same = same && eq;
                    },
                    None => {
                        proof {
                            assert forall|i: int, j: int|
                                0 <= i < k + 1 && 0 <= j < k + 1 && #[trigger] m.contains_key(t[i])
                                    && #[trigger] m.contains_key(t[j]) implies m[t[i]] == m[t[j]] by {
                                assert(i == k && j == k);
                            }
                        }
                        first = Some(h.clone());
                    },
                }
            },
            None => {},
        }
        k += 1;
    }
    if same {
        proof {
            if first is Some {
                let f = first->0;
                let i = choose|i: int| 0 <= i < t.len() && #[trigger] m.contains_key(t[i]);
                let i0 = choose|i: int|
                    0 <= i < k && #[trigger] m.contains_key(t[i]) && m[t[i]] == f@;
                assert(m[t[i]] == m[t[i0]]);
            }
        }
        first
    } else {
        None
    }
}

/// Filtering keeps a column sortable.
proof fn lemma_sortable_filtered(all: Seq<SessionView>, f: Seq<char>, col: usize)
    requires
        column_sortable(all, col),
    ensures
        column_sortable(filtered(all, f), col),
{
    if f.len() > 0 {
        let pred = matching(lowercase(f));
        let out = all.filter(pred);
        assert forall|i: int|
            #![trigger out[i]]
            0 <= i < out.len() implies (col == 3 ==> !crate::table::is_nan_bits(
                out[i].read_rate_bits,
            )) && (col == 4 ==> !crate::table::is_nan_bits(out[i].write_rate_bits)) by {
            assert(out.contains(out[i]));
            all.lemma_filter_contains_rev(pred, out[i]);
            let k = choose|k: int| 0 <= k < all.len() && all[k] == out[i];
            assert(all[k] == out[i]);
        }
    }
}

/// Rearranging keeps a column sortable.
proof fn lemma_sortable_rearranged(r: Seq<SessionView>, s: Seq<SessionView>, col: usize)
    requires
        rearranges(r, s),
        column_sortable(s, col),
    ensures
        column_sortable(r, col),
{
    let p = choose|p: Seq<int>| #[trigger] is_permutation(r, s, p);
    assert forall|i: int|
        #![trigger r[i]]
        0 <= i < r.len() implies (col == 3 ==> !crate::table::is_nan_bits(r[i].read_rate_bits)) && (
        col == 4 ==> !crate::table::is_nan_bits(r[i].write_rate_bits)) by {
        assert(r[i] == s[p[i]]);
    }
}

/// Whether the lower-cased text of the filter `f` is known: a non-empty
/// ASCII filter lowers letter by letter.
pub open spec fn lowering_known(f: Seq<char>) -> bool {
    f.len() > 0 && is_ascii_text(f) ==> lowercase(f) == f.map_values(|c: char| ascii_lower(c))
}

/// Typing an ASCII character into the filter only narrows the table: every
/// session shown under `f + c` was shown under `f`.
proof fn lemma_typing_narrows(
    shown: Seq<SessionView>,
    all: Seq<SessionView>,
    f: Seq<char>,
    c: char,
    now_shown: Seq<SessionView>,
    order: spec_fn(SessionView, SessionView) -> bool,
)
    requires
        rearranges(shown, filtered(all, f)),
        stable_sort_of(now_shown, filtered(all, f.push(c)), order),
        is_ascii_text(f.push(c)),
        lowering_known(f),
        lowering_known(f.push(c)),
    ensures
        forall|i: int| 0 <= i < now_shown.len() ==> shown.contains(#[trigger] now_shown[i]),
{
    let g = f.push(c);
    assert(is_ascii_text(f)) by {
        assert forall|i: int| 0 <= i < f.len() implies (#[trigger] f[i] as u32) < 128 by {
            assert(g[i] == f[i]);
        }
    }
    if f.len() > 0 {
        let lf = f.map_values(|x: char| ascii_lower(x));
        let lg = g.map_values(|x: char| ascii_lower(x));
        assert(lf.is_prefix_of(lg)) by {
            assert forall|i: int| 0 <= i < lf.len() implies lf[i] == lg[i] by {
                assert(g[i] == f[i]);
            }
        }
    }
    crate::laws::law_longer_filter_lets_fewer_through(all, f, g);
    let p = choose|perm: Seq<int>|
        #![trigger is_permutation(now_shown, filtered(all, g), perm)]
        {
            &&& is_permutation(now_shown, filtered(all, g), perm)
            &&& sorted_by(now_shown, order)
            &&& forall|i: int, j: int|
                0 <= i < j < now_shown.len() && !order(now_shown[i], now_shown[j])
                    ==> #[trigger] perm[i] < #[trigger] perm[j]
        };
    let q = choose|q: Seq<int>| #[trigger] is_permutation(shown, filtered(all, f), q);
    assert forall|i: int| 0 <= i < now_shown.len() implies shown.contains(#[trigger] now_shown[i]) by {
        let x = now_shown[i];
        assert(x == filtered(all, g)[p[i]]);
        assert(filtered(all, f).contains(x));
        let k = choose|k: int| 0 <= k < filtered(all, f).len() && filtered(all, f)[k] == x;
        crate::laws::lemma_injective_is_onto(q, filtered(all, f).len(), k);
        let m = choose|m: int| 0 <= m < q.len() && q[m] == k;
        assert(shown[m] == x);
    }
}

/// The monitor's state.
pub struct App {
    /// The sessions shown, in table order.
    pub sessions: Vec<Session>,
    /// The highlighted row of `sessions`, if any.
    pub selected: Option<usize>,
    pub show_help: bool,
    /// Why the last collection failed, if it did.
    pub error: Option<String>,
    /// The distinct source addresses of the iSCSI connections, ascending.
    pub source_ips: Vec<String>,
    /// The initiator's host name, where all resolved sources share one.
    pub initiator_hostname: Option<String>,
    pub selected_col: usize,
    pub sort_col: usize,
    pub sort_asc: bool,
    pub filter: String,
    pub filter_mode: bool,
    /// The filter text when filter editing last began.
    pub filter_before_edit: String,
    /// Every session of the last successful collection.
    pub all_sessions: Vec<Session>,
    pub collector: Collector,
    /// Host names resolved so far, by address.
    pub hostname_cache: TextMap,
}

impl App {
    /// Every session of the last successful collection.
    pub open spec fn all_sessions_view(&self) -> Seq<SessionView> {
        views(self.all_sessions@)
    }

    /// The filter text when filter editing last began.
    pub open spec fn saved_filter(&self) -> Seq<char> {
        self.filter_before_edit@
    }

    /// The host names resolved so far, by address.
    pub open spec fn hostnames(&self) -> Map<Seq<char>, Seq<char>> {
        self.hostname_cache.map()
    }

    /// The counters recorded for rate computation.
    pub open spec fn readings(&self) -> Map<RateKey, RateState> {
        self.collector.readings()
    }

    /// Whether no session of the last collection has a NaN rate in column
    /// `col`, so that the table can be sorted by it.
    pub open spec fn sortable_by(&self, col: usize) -> bool {
        column_sortable(self.all_sessions_view(), col)
    }

    closed spec fn core_wf(&self) -> bool {
        &&& self.collector.wf()
        &&& self.hostname_cache.wf()
        &&& self.sortable_by(self.sort_col)
        &&& column_sortable(views(self.sessions@), self.sort_col)
    }

    pub closed spec fn wf(&self) -> bool {
        &&& self.core_wf()
        &&& lowering_known(self.filter@)
    }

    /// The table shows the sessions that the filter lets through, sorted by
    /// the sort column, with a highlight exactly when it has rows.
    pub open spec fn consistent(&self) -> bool {
        &&& rearranges(views(self.sessions@), filtered(self.all_sessions_view(), self.filter@))
        &&& sorted_by(views(self.sessions@), column_order(self.sort_col, self.sort_asc))
        &&& selection_fits(self.selected, self.sessions@.len())
    }

    /// Everything but the shown sessions and the highlight is as in `old`.
    pub open spec fn keeps_settings(&self, old: &App) -> bool {
        &&& self.show_help == old.show_help
        &&& self.error == old.error
        &&& self.source_ips == old.source_ips
        &&& self.initiator_hostname == old.initiator_hostname
        &&& self.selected_col == old.selected_col
        &&& self.sort_col == old.sort_col
        &&& self.sort_asc == old.sort_asc
        &&& self.filter == old.filter
        &&& self.filter_mode == old.filter_mode
        &&& self.saved_filter() == old.saved_filter()
        &&& self.all_sessions_view() == old.all_sessions_view()
        &&& self.hostnames() == old.hostnames()
        &&& self.readings() == old.readings()
    }

    /// Editing the filter began from `old`: its text is saved and kept.
    pub open spec fn begins_editing(&self, old: &App) -> bool {
        &&& self.filter_mode
        &&& self.saved_filter() == old.filter@
        &&& self.filter == old.filter
    }

    /// Editing the filter was cancelled from `old`: the saved text is the
    /// filter again, and the table shows the sessions it lets through,
    /// stably sorted by the sort column.
    pub open spec fn cancels_editing(&self, old: &App) -> bool {
        &&& !self.filter_mode
        &&& self.filter@ == old.saved_filter()
        &&& self.consistent()
        &&& self.all_sessions_view() == old.all_sessions_view()
        &&& self.sort_col == old.sort_col
        &&& self.sort_asc == old.sort_asc
        &&& stable_sort_of(
            views(self.sessions@),
            filtered(old.all_sessions_view(), old.saved_filter()),
            column_order(old.sort_col, old.sort_asc),
        )
    }

    pub fn new() -> (app: Self)
        ensures
            app.wf(),
            app.consistent(),
            app.sessions@.len() == 0,
            app.selected is None,
            !app.show_help,
            app.error is None,
            app.source_ips@.len() == 0,
            app.initiator_hostname is None,
            app.selected_col == 0,
            app.sort_col == 0,
            app.sort_asc,
            app.filter@.len() == 0,
            !app.filter_mode,
            app.saved_filter().len() == 0,
            app.all_sessions_view().len() == 0,
            app.hostnames() == Map::<Seq<char>, Seq<char>>::empty(),
            app.readings() == Map::<RateKey, RateState>::empty(),
    {
        let app = App {
            sessions: Vec::new(),
            selected: None,
            show_help: false,
            error: None,
            source_ips: Vec::new(),
            initiator_hostname: None,
            selected_col: 0,
            sort_col: 0,
            sort_asc: true,
            filter: String::new(),
            filter_mode: false,
            filter_before_edit: String::new(),
            all_sessions: Vec::new(),
            collector: Collector::new(),
            hostname_cache: TextMap::new(),
        };
        proof {
            assert(views(app.sessions@) =~= Seq::<SessionView>::empty());
            assert(app.all_sessions_view() =~= Seq::<SessionView>::empty());
            lemma_rearranges_refl(Seq::<SessionView>::empty());
        }
        app
    }

    /// Shows the sessions that the filter lets through, in collection order,
    /// and moves the highlight onto the new rows.
    fn apply_filter(&mut self)
        requires
            old(self).core_wf(),
        ensures
            final(self).wf(),
            final(self).keeps_settings(old(self)),
            views(final(self).sessions@) == filtered(
                old(self).all_sessions_view(),
                old(self).filter@,
            ),
            final(self).selected == clamped_selection(
                old(self).selected,
                final(self).sessions@.len(),
            ),
    {
        self.sessions = filter_sessions(&self.all_sessions, &self.filter);
        proof {
            lemma_sortable_filtered(self.all_sessions_view(), self.filter@, self.sort_col);
        }
        let len = self.sessions.len();
        match self.selected {
            Some(sel) => {
                if len == 0 {
                    self.selected = None;
                } else if sel >= len {
                    self.selected = Some(len - 1);
                }
            },
            None => {
                if len > 0 {
                    self.selected = Some(0);
                }
            },
        }
    }

    /// Sorts the shown sessions stably by the sort column.
    fn do_sort(&mut self)
        requires
            old(self).core_wf(),
        ensures
            final(self).core_wf(),
            final(self).keeps_settings(old(self)),
            final(self).selected == old(self).selected,
            stable_sort_of(
                views(final(self).sessions@),
                views(old(self).sessions@),
                column_order(old(self).sort_col, old(self).sort_asc),
            ),
    {
        let ghost before = views(self.sessions@);
        sort_sessions(&mut self.sessions, self.sort_col, self.sort_asc);
        proof {
            lemma_sort_rearranges(
                views(self.sessions@),
                before,
                column_order(self.sort_col, self.sort_asc),
            );
            lemma_sortable_rearranged(views(self.sessions@), before, self.sort_col);
        }
    }

    /// Re-filters and re-sorts, which makes the table consistent.
    fn rebuild(&mut self)
        requires
            old(self).core_wf(),
        ensures
            final(self).wf(),
            final(self).keeps_settings(old(self)),
            final(self).consistent(),
            stable_sort_of(
                views(final(self).sessions@),
                filtered(old(self).all_sessions_view(), old(self).filter@),
                column_order(old(self).sort_col, old(self).sort_asc),
            ),
            final(self).selected == clamped_selection(
                old(self).selected,
                filtered(old(self).all_sessions_view(), old(self).filter@).len(),
            ),
    {
        self.apply_filter();
        let ghost mid = views(self.sessions@);
        self.do_sort();
        proof {
            lemma_sort_rearranges(
                views(self.sessions@),
                mid,
                column_order(self.sort_col, self.sort_asc),
            );
        }
    }

    /// Starts editing the filter, remembering its current text.
    pub fn enter_filter_mode(&mut self)
        requires
            old(self).wf(),
        ensures
            final(self).wf(),
            final(self).begins_editing(old(self)),
            final(self).filter_mode,
            final(self).saved_filter() == old(self).filter@,
            final(self).filter == old(self).filter,
            final(self).sessions == old(self).sessions,
            final(self).selected == old(self).selected,
            final(self).show_help == old(self).show_help,
            final(self).error == old(self).error,
            final(self).source_ips == old(self).source_ips,
            final(self).initiator_hostname == old(self).initiator_hostname,
            final(self).selected_col == old(self).selected_col,
            final(self).sort_col == old(self).sort_col,
            final(self).sort_asc == old(self).sort_asc,
            final(self).all_sessions_view() == old(self).all_sessions_view(),
            final(self).hostnames() == old(self).hostnames(),
            final(self).readings() == old(self).readings(),
            old(self).consistent() ==> final(self).consistent(),
    {
        self.filter_before_edit = self.filter.clone();
        self.filter_mode = true;
    }

    /// Stops editing the filter, keeping its text.
    pub fn confirm_filter(&mut self)
        requires
            old(self).wf(),
        ensures
            final(self).wf(),
            !final(self).filter_mode,
            final(self).saved_filter() == old(self).saved_filter(),
            final(self).filter == old(self).filter,
            final(self).sessions == old(self).sessions,
            final(self).selected == old(self).selected,
            final(self).show_help == old(self).show_help,
            final(self).error == old(self).error,
            final(self).source_ips == old(self).source_ips,
            final(self).initiator_hostname == old(self).initiator_hostname,
            final(self).selected_col == old(self).selected_col,
            final(self).sort_col == old(self).sort_col,
            final(self).sort_asc == old(self).sort_asc,
            final(self).all_sessions_view() == old(self).all_sessions_view(),
            final(self).hostnames() == old(self).hostnames(),
            final(self).readings() == old(self).readings(),
            old(self).consistent() ==> final(self).consistent(),
    {
        self.filter_mode = false;
    }

    /// Stops editing the filter and puts back the text it had when editing
    /// began, then re-filters and re-sorts.
    pub fn cancel_filter(&mut self)
        requires
            old(self).wf(),
        ensures
            final(self).wf(),
            final(self).cancels_editing(old(self)),
            !final(self).filter_mode,
            final(self).filter@ == old(self).saved_filter(),
            final(self).saved_filter() == old(self).saved_filter(),
            final(self).consistent(),
            stable_sort_of(
                views(final(self).sessions@),
                filtered(old(self).all_sessions_view(), old(self).saved_filter()),
                column_order(old(self).sort_col, old(self).sort_asc),
            ),
            final(self).selected == clamped_selection(
                old(self).selected,
                filtered(old(self).all_sessions_view(), old(self).saved_filter()).len(),
            ),
            final(self).show_help == old(self).show_help,
            final(self).error == old(self).error,
            final(self).source_ips == old(self).source_ips,
            final(self).initiator_hostname == old(self).initiator_hostname,
            final(self).selected_col == old(self).selected_col,
            final(self).sort_col == old(self).sort_col,
            final(self).sort_asc == old(self).sort_asc,
            final(self).all_sessions_view() == old(self).all_sessions_view(),
            final(self).hostnames() == old(self).hostnames(),
            final(self).readings() == old(self).readings(),
    {
        self.filter_mode = false;
        self.filter = self.filter_before_edit.clone();
        self.rebuild();
    }

    /// Appends `c` to the filter, then re-filters and re-sorts.
    pub fn filter_push_char(&mut self, c: char)
        requires
            old(self).wf(),
        ensures
            final(self).wf(),
            final(self).filter@ == old(self).filter@.push(c),
            final(self).consistent(),
            old(self).consistent() && is_ascii_text(final(self).filter@) ==> forall|i: int|
                0 <= i < final(self).sessions@.len() ==> views(old(self).sessions@).contains(
                    #[trigger] views(final(self).sessions@)[i],
                ),
            stable_sort_of(
                views(final(self).sessions@),
                filtered(old(self).all_sessions_view(), old(self).filter@.push(c)),
                column_order(old(self).sort_col, old(self).sort_asc),
            ),
            final(self).selected == clamped_selection(
                old(self).selected,
                filtered(old(self).all_sessions_view(), old(self).filter@.push(c)).len(),
            ),
            final(self).filter_mode == old(self).filter_mode,
            final(self).saved_filter() == old(self).saved_filter(),
            final(self).show_help == old(self).show_help,
            final(self).error == old(self).error,
            final(self).source_ips == old(self).source_ips,
            final(self).initiator_hostname == old(self).initiator_hostname,
            final(self).selected_col == old(self).selected_col,
            final(self).sort_col == old(self).sort_col,
            final(self).sort_asc == old(self).sort_asc,
            final(self).all_sessions_view() == old(self).all_sessions_view(),
            final(self).hostnames() == old(self).hostnames(),
            final(self).readings() == old(self).readings(),
    {
        let ghost before = *self;
        push_char(&mut self.filter, c);
        self.rebuild();
        proof {
            if before.consistent() && is_ascii_text(self.filter@) {
                lemma_typing_narrows(
                    views(before.sessions@),
                    before.all_sessions_view(),
                    before.filter@,
                    c,
                    views(self.sessions@),
                    column_order(before.sort_col, before.sort_asc),
                );
            }
        }
    }

    /// Removes the filter's last character, if any, then re-filters and
    /// re-sorts.
    pub fn filter_backspace(&mut self)
        requires
            old(self).wf(),
        ensures
            final(self).wf(),
            final(self).filter@ == if old(self).filter@.len() > 0 {
                old(self).filter@.drop_last()
            } else {
                old(self).filter@
            },
            final(self).consistent(),
            stable_sort_of(
                views(final(self).sessions@),
                filtered(old(self).all_sessions_view(), final(self).filter@),
                column_order(old(self).sort_col, old(self).sort_asc),
            ),
            final(self).selected == clamped_selection(
                old(self).selected,
                filtered(old(self).all_sessions_view(), final(self).filter@).len(),
            ),
            final(self).filter_mode == old(self).filter_mode,
            final(self).saved_filter() == old(self).saved_filter(),
            final(self).show_help == old(self).show_help,
            final(self).error == old(self).error,
            final(self).source_ips == old(self).source_ips,
            final(self).initiator_hostname == old(self).initiator_hostname,
            final(self).selected_col == old(self).selected_col,
            final(self).sort_col == old(self).sort_col,
            final(self).sort_asc == old(self).sort_asc,
            final(self).all_sessions_view() == old(self).all_sessions_view(),
            final(self).hostnames() == old(self).hostnames(),
            final(self).readings() == old(self).readings(),
    {
        let _ = pop_char(&mut self.filter);
        self.rebuild();
    }

    /// Chooses column `col` for sorting: the same column again reverses the
    /// direction, another one sorts ascending; then re-sorts the shown rows.
    pub fn set_sort(&mut self, col: usize)
        requires
            old(self).wf(),
            old(self).sortable_by(col),
            column_sortable(views(old(self).sessions@), col),
        ensures
            final(self).wf(),
            (final(self).sort_col, final(self).sort_asc) == sort_choice(
                col,
                old(self).sort_col,
                old(self).sort_asc,
            ),
            stable_sort_of(
                views(final(self).sessions@),
                views(old(self).sessions@),
                column_order(final(self).sort_col, final(self).sort_asc),
            ),
            final(self).selected == old(self).selected,
            final(self).filter == old(self).filter,
            final(self).filter_mode == old(self).filter_mode,
            final(self).saved_filter() == old(self).saved_filter(),
            final(self).show_help == old(self).show_help,
            final(self).error == old(self).error,
            final(self).source_ips == old(self).source_ips,
            final(self).initiator_hostname == old(self).initiator_hostname,
            final(self).selected_col == old(self).selected_col,
            final(self).all_sessions_view() == old(self).all_sessions_view(),
            final(self).hostnames() == old(self).hostnames(),
            final(self).readings() == old(self).readings(),
            old(self).consistent() ==> final(self).consistent(),
    {
        if self.sort_col == col {
            self.sort_asc = !self.sort_asc;
        } else {
            self.sort_col = col;
            self.sort_asc = true;
        }
        let ghost before = views(self.sessions@);
        self.do_sort();
        proof {
            lemma_sort_rearranges(
                views(self.sessions@),
                before,
                column_order(self.sort_col, self.sort_asc),
            );
            if old(self).consistent() {
                lemma_rearranges_trans(
                    views(self.sessions@),
                    before,
                    filtered(self.all_sessions_view(), self.filter@),
                );
            }
        }
    }

    /// Moves the column cursor right, stopping at the last column.
    pub fn col_next(&mut self)
        requires
            old(self).selected_col < usize::MAX,
        ensures
            final(self).selected_col == if old(self).selected_col + 1 < NUM_COLS - 1 {
                old(self).selected_col + 1
            } else {
                NUM_COLS - 1
            },
            final(self).sessions == old(self).sessions,
            final(self).selected == old(self).selected,
            final(self).keeps_all_but_column(old(self)),
    {
        let next = self.selected_col + 1;
        self.selected_col = if next < NUM_COLS - 1 {
            next
        } else {
            NUM_COLS - 1
        };
    }

    /// Moves the column cursor left, stopping at the first column.
    pub fn col_prev(&mut self)
        ensures
            final(self).selected_col == if old(self).selected_col > 0 {
                (old(self).selected_col - 1) as usize
            } else {
                0
            },
            final(self).sessions == old(self).sessions,
            final(self).selected == old(self).selected,
            final(self).keeps_all_but_column(old(self)),
    {
        self.selected_col = self.selected_col.saturating_sub(1);
    }

    /// Everything but the column cursor is as in `old`.
    pub open spec fn keeps_all_but_column(&self, old: &App) -> bool {
        &&& self.show_help == old.show_help
        &&& self.error == old.error
        &&& self.source_ips == old.source_ips
        &&& self.initiator_hostname == old.initiator_hostname
        &&& self.sort_col == old.sort_col
        &&& self.sort_asc == old.sort_asc
        &&& self.filter == old.filter
        &&& self.filter_mode == old.filter_mode
        &&& self.saved_filter() == old.saved_filter()
        &&& self.all_sessions_view() == old.all_sessions_view()
        &&& self.hostnames() == old.hostnames()
        &&& self.readings() == old.readings()
        &&& self.wf() == old.wf()
    }

    /// Moves the highlight down one row, stopping at the last; onto the first
    /// row where none was highlighted; nothing on an empty table.
    pub fn select_next(&mut self)
        requires
            !(old(self).sessions@.len() > 0 && old(self).selected == Some(usize::MAX)),
        ensures
            final(self).selected == if old(self).sessions@.len() == 0 {
                old(self).selected
            } else {
                match old(self).selected {
                    Some(i) => Some(
                        if i + 1 < old(self).sessions@.len() - 1 {
                            (i + 1) as usize
                        } else {
                            (old(self).sessions@.len() - 1) as usize
                        },
                    ),
                    None => Some(0usize),
                }
            },
            final(self).sessions == old(self).sessions,
            final(self).keeps_settings(old(self)),
            final(self).wf() == old(self).wf(),
            old(self).consistent() ==> final(self).consistent(),
    {
        let len = self.sessions.len();
        if len == 0 {
            return ;
        }
        let next = match self.selected {
            Some(i) => if i + 1 < len - 1 {
                i + 1
            } else {
                len - 1
            },
            None => 0,
        };
        self.selected = Some(next);
    }

    /// Moves the highlight up one row, stopping at the first; onto the first
    /// row where none was highlighted; nothing on an empty table.
    pub fn select_prev(&mut self)
        ensures
            final(self).selected == if old(self).sessions@.len() == 0 {
                old(self).selected
            } else {
                match old(self).selected {
                    Some(i) => Some(
                        if i > 0 {
                            (i - 1) as usize
                        } else {
                            0usize
                        },
                    ),
                    None => Some(0usize),
                }
            },
            final(self).sessions == old(self).sessions,
            final(self).keeps_settings(old(self)),
            final(self).wf() == old(self).wf(),
            old(self).consistent() ==> final(self).consistent(),
    {
        let len = self.sessions.len();
        if len == 0 {
            return ;
        }
        let prev = match self.selected {
            Some(i) => i.saturating_sub(1),
            None => 0,
        };
        self.selected = Some(prev);
    }

    /// Highlights the first row, if there is one.
    pub fn select_first(&mut self)
        ensures
            final(self).selected == if old(self).sessions@.len() > 0 {
                Some(0usize)
            } else {
                old(self).selected
            },
            final(self).sessions == old(self).sessions,
            final(self).keeps_settings(old(self)),
            final(self).wf() == old(self).wf(),
            old(self).consistent() ==> final(self).consistent(),
    {
        if self.sessions.len() > 0 {
            self.selected = Some(0);
        }
    }

    /// Highlights the last row, if there is one.
    pub fn select_last(&mut self)
        ensures
            final(self).selected == if old(self).sessions@.len() > 0 {
                Some((old(self).sessions@.len() - 1) as usize)
            } else {
                old(self).selected
            },
            final(self).sessions == old(self).sessions,
            final(self).keeps_settings(old(self)),
            final(self).wf() == old(self).wf(),
            old(self).consistent() ==> final(self).consistent(),
    {
        let len = self.sessions.len();
        if len > 0 {
            self.selected = Some(len - 1);
        }
    }

    /// Shows or hides the help.
    pub fn toggle_help(&mut self)
        ensures
            final(self).show_help == !old(self).show_help,
            final(self).sessions == old(self).sessions,
            final(self).selected == old(self).selected,
            final(self).error == old(self).error,
            final(self).source_ips == old(self).source_ips,
            final(self).initiator_hostname == old(self).initiator_hostname,
            final(self).selected_col == old(self).selected_col,
            final(self).sort_col == old(self).sort_col,
            final(self).sort_asc == old(self).sort_asc,
            final(self).filter == old(self).filter,
            final(self).filter_mode == old(self).filter_mode,
            final(self).saved_filter() == old(self).saved_filter(),
            final(self).all_sessions_view() == old(self).all_sessions_view(),
            final(self).hostnames() == old(self).hostnames(),
            final(self).readings() == old(self).readings(),
            final(self).wf() == old(self).wf(),
            old(self).consistent() ==> final(self).consistent(),
    {
        self.show_help = !self.show_help;
    }

    /// Builds the sessions that the portal groups yield at `now_ns`,
    /// recording their counters for rate computation; sorted by target.
    pub fn collect_sessions(&mut self, tpgts: &Vec<TpgtDir>, now_ns: u64) -> (r: Vec<
        Observation,
    >)
        requires
            old(self).wf(),
            collection_fits(tpgts@),
        ensures
            final(self).wf(),
            final(self).readings() == collect_run(old(self).readings(), tpgts@, now_ns).1,
            sorted_by_target(r@, collect_run(old(self).readings(), tpgts@, now_ns).0),
            final(self).sessions == old(self).sessions,
            final(self).selected == old(self).selected,
            final(self).show_help == old(self).show_help,
            final(self).error == old(self).error,
            final(self).source_ips == old(self).source_ips,
            final(self).initiator_hostname == old(self).initiator_hostname,
            final(self).selected_col == old(self).selected_col,
            final(self).sort_col == old(self).sort_col,
            final(self).sort_asc == old(self).sort_asc,
            final(self).filter == old(self).filter,
            final(self).filter_mode == old(self).filter_mode,
            final(self).saved_filter() == old(self).saved_filter(),
            final(self).all_sessions_view() == old(self).all_sessions_view(),
            final(self).hostnames() == old(self).hostnames(),
            old(self).consistent() ==> final(self).consistent(),
    {
        self.collector.collect(tpgts, now_ns)
    }

    /// `collect_sessions`, where the sessions' totals fit in a `u64`;
    /// `None`, with the state unchanged, where one would overflow.
    pub fn try_collect_sessions(&mut self, tpgts: &Vec<TpgtDir>, now_ns: u64) -> (r: Option<
        Vec<Observation>,
    >)
        requires
            old(self).wf(),
        ensures
            final(self).wf(),
            r is None <==> !collection_fits(tpgts@),
            r is None ==> *final(self) == *old(self),
            r matches Some(v) ==> sorted_by_target(
                v@,
                collect_run(old(self).readings(), tpgts@, now_ns).0,
            ),
            r is Some ==> final(self).readings() == collect_run(
                old(self).readings(),
                tpgts@,
                now_ns,
            ).1,
            final(self).sessions == old(self).sessions,
            final(self).selected == old(self).selected,
            final(self).show_help == old(self).show_help,
            final(self).error == old(self).error,
            final(self).source_ips == old(self).source_ips,
            final(self).initiator_hostname == old(self).initiator_hostname,
            final(self).selected_col == old(self).selected_col,
            final(self).sort_col == old(self).sort_col,
            final(self).sort_asc == old(self).sort_asc,
            final(self).filter == old(self).filter,
            final(self).filter_mode == old(self).filter_mode,
            final(self).saved_filter() == old(self).saved_filter(),
            final(self).all_sessions_view() == old(self).all_sessions_view(),
            final(self).hostnames() == old(self).hostnames(),
            old(self).consistent() ==> final(self).consistent(),
    {
        if crate::iscsi::collection_fits_all(tpgts) {
            Some(self.collect_sessions(tpgts, now_ns))
        } else {
            None
        }
    }

    /// The addresses among `ips` that have no host name yet, in order.
    pub fn unresolved(&self, ips: &Vec<String>) -> (r: Vec<String>)
        requires
            self.wf(),
        ensures
            texts(r@) == texts(ips@).filter(|x: Seq<char>| !self.hostnames().contains_key(x)),
    {
        let ghost pred = |x: Seq<char>| !self.hostnames().contains_key(x);
        let mut out: Vec<String> = Vec::new();
        let mut k: usize = 0;
        while k < ips.len()
            invariant
                k <= ips@.len(),
                self.wf(),
                pred == (|x: Seq<char>| !self.hostnames().contains_key(x)),
                texts(out@) == texts(ips@).take(k as int).filter(pred),
            decreases ips@.len() - k,
        {
            let ghost prev = out@;
            proof {
                texts(ips@).take(k as int).lemma_filter_push(ips@[k as int]@, pred);
                assert(texts(ips@).take(k as int).push(ips@[k as int]@) =~= texts(ips@).take(
                    k + 1,
                ));
            }
            if self.hostname_cache.get(&ips[k]).is_none() {
                let s = ips[k].clone();
                out.push(s);
                assert(texts(out@) =~= texts(prev).push(s@));
            }
            k += 1;
        }
        assert(texts(ips@).take(ips@.len() as int) =~= texts(ips@));
        out
    }

    /// Takes in one refresh: the sessions collected, or why collecting
    /// failed; the iSCSI connections, where they could be listed; and the
    /// host names found for addresses that had none.  Then re-filters and
    /// re-sorts.
    pub fn refresh(
        &mut self,
        collected: Result<Vec<Session>, String>,
        connections: Option<Vec<TcpConnection>>,
        lookups: Vec<(String, String)>,
    )
        requires
            old(self).wf(),
            collected matches Ok(s) ==> column_sortable(views(s@), old(self).sort_col),
        ensures
            final(self).wf(),
            final(self).all_sessions_view() == match collected {
                Ok(s) => views(s@),
                Err(_) => old(self).all_sessions_view(),
            },
            final(self).error == match collected {
                Ok(_) => None,
                Err(e) => Some(e),
            },
            match connections {
                Some(c) => lists_set(texts(final(self).source_ips@), peer_set(c@)),
                None => final(self).source_ips == old(self).source_ips,
            },
            final(self).hostnames() == add_lookups(old(self).hostnames(), lookup_texts(lookups@)),
            opt_text(final(self).initiator_hostname) == hostname_choice(
                texts(final(self).source_ips@),
                final(self).hostnames(),
            ),
            final(self).consistent(),
            stable_sort_of(
                views(final(self).sessions@),
                filtered(final(self).all_sessions_view(), old(self).filter@),
                column_order(old(self).sort_col, old(self).sort_asc),
            ),
            final(self).selected == clamped_selection(
                old(self).selected,
                filtered(final(self).all_sessions_view(), old(self).filter@).len(),
            ),
            final(self).filter == old(self).filter,
            final(self).filter_mode == old(self).filter_mode,
            final(self).saved_filter() == old(self).saved_filter(),
            final(self).show_help == old(self).show_help,
            final(self).selected_col == old(self).selected_col,
            final(self).sort_col == old(self).sort_col,
            final(self).sort_asc == old(self).sort_asc,
            final(self).readings() == old(self).readings(),
    {
        match collected {
            Ok(sessions) => {
                self.all_sessions = sessions;
                self.error = None;
            },
            Err(e) => {
                self.error = Some(e);
            },
        }
        match connections {
            Some(c) => {
                self.source_ips = distinct_peers(&c);
            },
            None => {},
        }
        let ghost start = self.hostnames();
        let mut cache = TextMap::new();
        std::mem::swap(&mut cache, &mut self.hostname_cache);
        let mut k: usize = 0;
        let n = lookups.len();
        let mut rest = lookups;
        let ghost all = lookup_texts(rest@);
        while k < n
            invariant
                k <= n == all.len(),
                cache.wf(),
                rest@.len() == n - k,
                lookup_texts(rest@) == all.skip(k as int),
                cache.map() == add_lookups(start, all.take(k as int)),
            decreases n - k,
        {
            let ghost before = rest@;
            let (ip, host) = rest.remove(0);
            proof {
                assert(before[0] == (ip, host));
                assert(rest@ =~= before.drop_first());
                assert(lookup_texts(before)[0] == all.skip(k as int)[0]);
                assert(all[k as int] == (ip@, host@));
                assert(all.take(k + 1).drop_last() =~= all.take(k as int));
                assert forall|i: int| 0 <= i < rest@.len() implies lookup_texts(rest@)[i]
                    == all.skip(k + 1)[i] by {
                    assert(rest@[i] == before[i + 1]);
                    assert(lookup_texts(before)[i + 1] == all.skip(k as int)[i + 1]);
                }
                assert(lookup_texts(rest@) =~= all.skip(k + 1));
            }
            cache.insert_if_absent(ip, host);
            k += 1;
        }
        assert(all.take(n as int) =~= all);
        std::mem::swap(&mut cache, &mut self.hostname_cache);
        self.initiator_hostname = choose_hostname(&self.source_ips, &self.hostname_cache);
        self.rebuild();
    }
}

} // verus!
