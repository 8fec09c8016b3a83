//! The text of the header and of the table's cells.

use vstd::prelude::*;

use ratatui::layout::{Constraint, Direction, Layout, Rect};

use crate::iscsi::Session;
use crate::net::find_last;
use crate::app::texts;
use crate::text::{
    chars_of, decimal, digit_char, digit_to_char, joined, push_decimal, skip_chars, starts_with,
    string_of,
};

verus! {

/// Appends the characters of `s` to `out`.
fn push_str(out: &mut Vec<char>, s: &str)
    ensures
        final(out)@ == old(out)@ + s@,
{
    let c = chars_of(s);
    let mut i: usize = 0;
    let ghost base = out@;
    while i < c.len()
        invariant
            i <= c@.len(),
            c@ == s@,
            out@ == base + c@.take(i as int),
        decreases c@.len() - i,
    {
        out.push(c[i]);
        assert(c@.take(i + 1) =~= c@.take(i as int).push(c@[i as int]));
        i += 1;
    }
    assert(c@.take(c@.len() as int) =~= c@);
}

/// The last `:`-separated part of an IQN: `iqn.2024-12.com.growse.mill:foo`
/// gives `foo`; an IQN without `:` is kept whole.
pub open spec fn short_iqn(iqn: Seq<char>) -> Seq<char> {
    match find_last(iqn, ':') {
        Some(i) => iqn.skip(i + 1),
        None => iqn,
    }
}

/// Shows just the last component of an IQN.
pub fn abbreviate_iqn(iqn: &str) -> (r: String)
    ensures
        r@ == short_iqn(iqn@),
{
    let c = chars_of(iqn);
    proof {
        crate::net::lemma_find_last_bounds(c@, ':');
    }
    match crate::net::find_last_char(&c, ':') {
        Some(i) => {
            assert(i < c.len());
            string_of(&skip_chars(&c, i + 1))
        },
        None => string_of(&c),
    }
}

/// A device path without its leading `/dev/`.
pub open spec fn short_device(dev: Seq<char>) -> Seq<char> {
    if "/dev/"@.is_prefix_of(dev) {
        dev.skip(5)
    } else {
        dev
    }
}

/// Strips the `/dev/` prefix from a device path for compact display.
pub fn abbreviate_device(dev: &str) -> (r: String)
    ensures
        r@ == short_device(dev@),
{
    proof {
        reveal_strlit("/dev/");
    }
    let c = chars_of(dev);
    let prefix = chars_of("/dev/");
    if starts_with(&c, &prefix) {
        string_of(&skip_chars(&c, 5))
    } else {
        string_of(&c)
    }
}

/// The device cell of a session's row: its first LUN's device, abbreviated,
/// or `—` for a session without LUNs.
pub open spec fn device_cell_text(s: crate::iscsi::SessionView) -> Seq<char> {
    if s.luns.len() > 0 {
        short_device(s.luns[0].device)
    } else {
        "—"@
    }
}

pub fn device_cell(s: &Session) -> (r: String)
    ensures
        r@ == device_cell_text(s@),
{
    if s.luns.len() > 0 {
        abbreviate_device(s.luns[0].device.as_str())
    } else {
        string_of(&chars_of("—"))
    }
}

/// `num / den` to one decimal place, an exact tie going to the even digit,
/// as `{:.1}` writes a float of that exact value.
pub open spec fn one_decimal(num: nat, den: nat) -> Seq<char> {
    let t0 = num * 10 / den;
    let rem = num * 10 % den;
    let t = if 2 * rem > den || (2 * rem == den && t0 % 2 == 1) {
        t0 + 1
    } else {
        t0
    };
    decimal(t / 10) + seq!['.', digit_char(t % 10)]
}

/// The spacing of `f64` values around the integer `m`: 1 below 2^53, and
/// doubling with each further bit.
pub open spec fn f64_spacing(m: nat) -> nat
    decreases m,
{
    if m < 0x20_0000_0000_0000 {
        1
    } else {
        2 * f64_spacing(m / 2)
    }
}

/// The integer `m` as `as f64` converts it: to the nearest `f64`, a tie
/// going to the one with an even significand.
pub open spec fn nearest_f64(m: nat) -> nat {
    let u = f64_spacing(m);
    let q = m / u;
    let r = m % u;
    if 2 * r > u || (2 * r == u && q % 2 == 1) {
        (q + 1) * u
    } else {
        q * u
    }
}

/// A size given in MB, as the table shows it: whole MB below 1024, else GB
/// below 1024 GB, else TB, the last two to one decimal.
pub open spec fn mb_text(mb: u64) -> Seq<char> {
    if mb < 1024 {
        decimal(mb as nat) + " MB"@
    } else if mb < 1024 * 1024 {
        one_decimal(mb as nat, 1024) + " GB"@
    } else {
        one_decimal(nearest_f64(mb as nat), 1024 * 1024) + " TB"@
    }
}

fn push_one_decimal(out: &mut Vec<char>, num: u128, den: u128)
    requires
        1024 <= den <= 0x10_0000,
        num <= 0x2_0000_0000_0000_0000,
    ensures
        final(out)@ == old(out)@ + one_decimal(num as nat, den as nat),
{
    let t0 = num * 10 / den;
    let rem = num * 10 % den;
    proof {
        vstd::arithmetic::div_mod::lemma_div_is_ordered_by_denominator(
            (num * 10) as int,
            1024,
            den as int,
        );
        vstd::arithmetic::div_mod::lemma_div_is_ordered(
            (num * 10) as int,
            0x14_0000_0000_0000_0000,
            1024,
        );
        vstd::arithmetic::div_mod::lemma_mod_bound((num * 10) as int, den as int);
    }
    let t = if 2 * rem > den || (2 * rem == den && t0 % 2 == 1) {
        t0 + 1
    } else {
        t0
    };
    let whole = (t / 10) as u64;
    push_decimal(out, whole);
    out.push('.');
    out.push(digit_to_char((t % 10) as u64));
    assert(final(out)@ =~= old(out)@ + one_decimal(num as nat, den as nat));
}

/// The size `mb` as the table shows it.
pub fn format_mb(mb: u64) -> (r: String)
    ensures
        r@ == mb_text(mb),
{
    let mut out: Vec<char> = Vec::new();
    if mb < 1024 {
        push_decimal(&mut out, mb);
        push_str(&mut out, " MB");
    } else if mb < 1024 * 1024 {
        push_one_decimal(&mut out, mb as u128, 1024);
        push_str(&mut out, " GB");
    } else {
        let f = nearest_f64_exec(mb);
        push_one_decimal(&mut out, f, 1024 * 1024);
        push_str(&mut out, " TB");
    }
    assert(out@ =~= mb_text(mb));
    string_of(&out)
}

fn nearest_f64_exec(mb: u64) -> (f: u128)
    ensures
        f == nearest_f64(mb as nat),
        f <= 0x2_0000_0000_0000_0000,
{
    let mut t: u64 = mb;
    let mut u: u64 = 1;
    while t >= 0x20_0000_0000_0000
        invariant
            1 <= u < 0x1000,
            t as nat == mb as nat / u as nat,
            u * t <= mb,
            f64_spacing(mb as nat) == u * f64_spacing(t as nat),
        decreases t,
    {
        proof {
            vstd::arithmetic::div_mod::lemma_div_denominator(mb as int, u as int, 2);
            assert(u * (2 * f64_spacing((t / 2) as nat)) == (u * 2) * f64_spacing((t / 2) as nat))
                by (nonlinear_arith);
            assert(u * 0x20_0000_0000_0000 <= u * t) by (nonlinear_arith)
                requires
                    t >= 0x20_0000_0000_0000,
            ;
            assert((u * 2) * (t / 2) <= u * t) by (nonlinear_arith)
                requires
                    u >= 1,
            ;
        }
        t = t / 2;
        u = u * 2;
    }
    let q = mb / u;
    let r = mb % u;
    proof {
        assert(q == t);
        assert((q + 1) * u <= 0x20_0000_0000_0000 * 0x1000) by (nonlinear_arith)
            requires
                q < 0x20_0000_0000_0000,
                u < 0x1000,
        ;
        assert(f64_spacing(t as nat) == 1);
        let sp = f64_spacing(mb as nat);
        assert(sp == u) by (nonlinear_arith)
            requires
                sp == u * f64_spacing(t as nat),
                f64_spacing(t as nat) == 1,
        ;
        assert(q * u <= (q + 1) * u) by (nonlinear_arith);
    }
    let qq = q as u128;
    let uu = u as u128;
    if 2 * r > u || (2 * r == u && q % 2 == 1) {
        (qq + 1) * uu
    } else {
        qq * uu
    }
}

/// The header line: the number of sessions, the source addresses (or
/// `no connections`) and the time.
pub open spec fn header_text(count: nat, ips: Seq<Seq<char>>, now: Seq<char>) -> Seq<char> {
    " iscsimon — "@ + decimal(count) + " session"@ + (if count == 1 {
        ""@
    } else {
        "s"@
    }) + " — "@ + (if ips.len() == 0 {
        "no connections"@
    } else {
        joined(ips, ", "@)
    }) + " — "@ + now + " "@
}

/// The header line for `session_count` sessions, the connections' source
/// addresses and the local time `now`.
pub fn header_title(session_count: usize, source_ips: &Vec<String>, now: &str) -> (r: String)
    ensures
        r@ == header_text(session_count as nat, texts(source_ips@), now@),
{
    let mut out: Vec<char> = Vec::new();
    push_str(&mut out, " iscsimon — ");
    push_decimal(&mut out, session_count as u64);
    push_str(&mut out, " session");
    if session_count != 1 {
        push_str(&mut out, "s");
    } else {
        push_str(&mut out, "");
    }
    push_str(&mut out, " — ");
    if source_ips.len() == 0 {
        push_str(&mut out, "no connections");
    } else {
        let sep = chars_of(", ");
        let j = crate::text::join_strings(source_ips, &sep);
        assert(source_ips.deep_view() =~= texts(source_ips@));
        push_str(&mut out, j.as_str());
    }
    push_str(&mut out, " — ");
    push_str(&mut out, now);
    push_str(&mut out, " ");
    assert(out@ =~= header_text(session_count as nat, texts(source_ips@), now@));
    string_of(&out)
}

/// A rectangle of the terminal, in cells.
#[derive(Clone, Copy, Debug, PartialEq, Eq)]
pub struct Area {
    pub x: u16,
    pub y: u16,
    pub width: u16,
    pub height: u16,
}

/// The direction in which an area is cut into parts.
#[derive(Clone, Copy, Debug, PartialEq, Eq)]
pub enum Axis {
    /// Side by side, left to right.
    Horizontal,
    /// One above the other, top to bottom.
    Vertical,
}

/// Whether `part` keeps the extent of `area` across `axis`: the parts of a
/// vertical cut span the whole width, those of a horizontal cut the whole
/// height.
pub open spec fn spans_across(axis: Axis, area: Area, part: Area) -> bool {
    match axis {
        Axis::Vertical => part.x == area.x && part.width == area.width,
        Axis::Horizontal => part.y == area.y && part.height == area.height,
    }
}

/// Where `a` starts along `axis`.
pub open spec fn axis_pos(axis: Axis, a: Area) -> int {
    match axis {
        Axis::Horizontal => a.x as int,
        Axis::Vertical => a.y as int,
    }
}

/// How far `a` extends along `axis`.
pub open spec fn axis_len(axis: Axis, a: Area) -> int {
    match axis {
        Axis::Horizontal => a.width as int,
        Axis::Vertical => a.height as int,
    }
}

/// Whether `part` lies inside `area` along `axis`.
pub open spec fn lies_within(axis: Axis, area: Area, part: Area) -> bool {
    &&& axis_pos(axis, area) <= axis_pos(axis, part)
    &&& axis_pos(axis, part) + axis_len(axis, part) <= axis_pos(axis, area) + axis_len(axis, area)
}

/// The sum of the percentages.
pub open spec fn percent_total(p: Seq<u16>) -> nat
    decreases p.len(),
{
    if p.len() == 0 {
        0
    } else {
        percent_total(p.drop_last()) + p.last() as nat
    }
}

/// The cells of `extent` cells that `percent` percent make, rounded to the
/// nearest cell, halves up.
pub open spec fn share(extent: int, percent: nat) -> int {
    (extent * percent + 50) / 100
}

/// Whether `part` is part `i` of an exact cut of `area` by `percents`: it
/// starts at the share of the percentages before it and ends at the share of
/// those up to it.
pub open spec fn cut_at(axis: Axis, area: Area, percents: Seq<u16>, i: int, part: Area) -> bool {
    let len = axis_len(axis, area);
    let from = share(len, percent_total(percents.take(i)));
    let to = share(len, percent_total(percents.take(i + 1)));
    &&& axis_pos(axis, part) == axis_pos(axis, area) + from
    &&& axis_len(axis, part) == to - from
}

/// The size asked of one part of a cut.
#[derive(Clone, Copy, Debug, PartialEq, Eq)]
pub enum Size {
    /// That percentage of the whole.
    Percentage(u16),
    /// Exactly that many cells.
    Length(u16),
    /// At least that many cells, growing into the space left.
    Min(u16),
}

/// Whether every size asked is a percentage.
pub open spec fn all_percentages(sizes: Seq<Size>) -> bool {
    forall|i: int| 0 <= i < sizes.len() ==> #[trigger] sizes[i] is Percentage
}

/// The percentages of sizes that are all percentages.
pub open spec fn percents_of(sizes: Seq<Size>) -> Seq<u16> {
    sizes.map_values(
        |s: Size|
            match s {
                Size::Percentage(p) => p,
                _ => 0,
            },
    )
}

/// Whether `area` ends within the `u16` coordinates along `axis`.
pub open spec fn ends_in_range(axis: Axis, area: Area) -> bool {
    axis_pos(axis, area) + axis_len(axis, area) <= u16::MAX
}

/// Whether `part` starts `from` cells into `area` along `axis` and is `len`
/// cells long.
pub open spec fn placed(axis: Axis, area: Area, part: Area, from: int, len: int) -> bool {
    &&& axis_pos(axis, part) == axis_pos(axis, area) + from
    &&& axis_len(axis, part) == len
}

/// Whether `sizes` asks for a band of fixed length, a band of the rest, and
/// another band of fixed length, with room for both fixed ones in `area`.
pub open spec fn band_sizes(axis: Axis, area: Area, sizes: Seq<Size>) -> bool {
    &&& sizes.len() == 3
    &&& sizes[0] is Length
    &&& sizes[1] == Size::Min(0)
    &&& sizes[2] is Length
    &&& sizes[0]->Length_0 + sizes[2]->Length_0 <= axis_len(axis, area)
    &&& ends_in_range(axis, area)
}

/// Whether `parts` are the bands `sizes` asks for: the first fixed length at
/// the start of `area`, the rest, and the second fixed length at its end.
pub open spec fn bands_placed(axis: Axis, area: Area, sizes: Seq<Size>, parts: Seq<Area>) -> bool {
    let a = sizes[0]->Length_0 as int;
    let b = sizes[2]->Length_0 as int;
    let len = axis_len(axis, area);
    &&& placed(axis, area, parts[0], 0, a)
    &&& placed(axis, area, parts[1], a, len - a - b)
    &&& placed(axis, area, parts[2], len - b, b)
}

/// Cuts `area` along `axis` into one part per size, with ratatui's
/// `Layout::split` (default `Flex::Start`, no margin, no spacing).  Claimed,
/// from ratatui's `try_split`: one part per size, in order; each part spans
/// `area` across the cut (`changes_to_rects` copies those coordinates) and
/// lies inside it along the cut (the solver's required constraints keep every
/// edge between the area's edges and each part's start before its end).
/// Where the solver can meet every size at once and the area ends within
/// `u16`, its weights (percentages and lengths strong, the growth of the
/// last gap and of a `Min` part weak, equal part sizes weakest) single out
/// that solution, which `changes_to_rects` rounds to the nearest cell:
/// - percentages summing to at most 100 give the exact cut `cut_at`, the
///   rest left after the last part;
/// - `Length(a)`, `Min(0)`, `Length(b)` with `a + b` cells to spare give
///   `a` cells, the rest, and `b` cells.
/// Otherwise where the cuts fall is left unsaid: the solver weighs
/// conflicting constraints and picks among equally good solutions by the
/// walk order of its hash maps.
#[verifier::external_body]
fn split_area(axis: Axis, sizes: &Vec<Size>, area: Area) -> (parts: Vec<Area>)
    ensures
        parts@.len() == sizes@.len(),
        forall|i: int|
            0 <= i < parts@.len() ==> spans_across(axis, area, #[trigger] parts@[i]) && lies_within(
                axis,
                area,
                parts@[i],
            ),
        all_percentages(sizes@) && percent_total(percents_of(sizes@)) <= 100 && sizes@.len() <= 100
            && ends_in_range(axis, area) ==> forall|i: int|
            0 <= i < parts@.len() ==> cut_at(axis, area, percents_of(sizes@), i, #[trigger] parts@[i]),
        band_sizes(axis, area, sizes@) ==> bands_placed(axis, area, sizes@, parts@),
{
    let direction = match axis {
        Axis::Horizontal => Direction::Horizontal,
        Axis::Vertical => Direction::Vertical,
    };
    let rect = Rect { x: area.x, y: area.y, width: area.width, height: area.height };
    let constraints = sizes.iter().map(|s| match *s {
        Size::Percentage(p) => Constraint::Percentage(p),
        Size::Length(n) => Constraint::Length(n),
        Size::Min(n) => Constraint::Min(n),
    });
    let rects = Layout::default().direction(direction).constraints(constraints).split(rect);
    rects.iter().map(|r| Area { x: r.x, y: r.y, width: r.width, height: r.height }).collect()
}

/// The screen's three bands, top to bottom: a header of 3 rows, the table,
/// and a footer of 1 row.  Each spans the width of `area` and lies inside
/// it; on a screen of at least 4 rows that ends within `u16`, the header
/// takes the top 3 rows, the footer the bottom row, the table the rest.
pub fn screen_regions(area: Area) -> (r: Vec<Area>)
    ensures
        r@.len() == 3,
        forall|i: int|
            0 <= i < 3 ==> spans_across(Axis::Vertical, area, #[trigger] r@[i]) && lies_within(
                Axis::Vertical,
                area,
                r@[i],
            ),
        area.height >= 4 && area.y + area.height <= u16::MAX ==> {
            &&& r@[0] == Area { x: area.x, y: area.y, width: area.width, height: 3 }
            &&& r@[1] == Area {
                x: area.x,
                y: (area.y + 3) as u16,
                width: area.width,
                height: (area.height - 4) as u16,
            }
            &&& r@[2] == Area {
                x: area.x,
                y: (area.y + area.height - 1) as u16,
                width: area.width,
                height: 1,
            }
        },
{
    let sizes = vec![Size::Length(3), Size::Min(0), Size::Length(1)];
    let r = split_area(Axis::Vertical, &sizes, area);
    assert(spans_across(Axis::Vertical, area, r@[0]));
    assert(spans_across(Axis::Vertical, area, r@[1]));
    assert(spans_across(Axis::Vertical, area, r@[2]));
    r
}

/// The sizes of the percentages, in order.
fn percentage_sizes(percents: &Vec<u16>) -> (r: Vec<Size>)
    ensures
        all_percentages(r@),
        percents_of(r@) == percents@,
{
    let mut r: Vec<Size> = Vec::new();
    let mut i: usize = 0;
    while i < percents.len()
        invariant
            i <= percents@.len(),
            r@.len() == i,
            forall|k: int| 0 <= k < i ==> #[trigger] r@[k] == Size::Percentage(percents@[k]),
        decreases percents@.len() - i,
    {
        r.push(Size::Percentage(percents[i]));
        i += 1;
    }
    assert(percents_of(r@) =~= percents@);
    r
}

/// The percentages that centre a part of `percent` of a whole: the part
/// between two equal margins of half the rest each.
pub open spec fn centering(percent: u16) -> Seq<u16> {
    let margin = ((100 - percent) / 2) as u16;
    seq![margin, percent, margin]
}

/// The three percentages that centre a part of `percent` of a whole.
pub fn centering_percentages(percent: u16) -> (r: Vec<u16>)
    requires
        percent <= 100,
    ensures
        r@ == centering(percent),
{
    let margin = (100 - percent) / 2;
    let r = vec![margin, percent, margin];
    assert(r@ =~= centering(percent));
    r
}

/// The margin that centres a part of `percent` of a whole.
pub open spec fn margin_of(percent: u16) -> nat {
    ((100 - percent) / 2) as nat
}

/// The popup of `percent_x` by `percent_y` centred in `area`, each cut
/// rounded to the nearest cell.
pub open spec fn centered_area(percent_x: u16, percent_y: u16, area: Area) -> Area {
    let mx = margin_of(percent_x);
    let my = margin_of(percent_y);
    Area {
        x: (area.x + share(area.width as int, mx)) as u16,
        y: (area.y + share(area.height as int, my)) as u16,
        width: (share(area.width as int, mx + percent_x as nat) - share(area.width as int, mx)) as u16,
        height: (share(area.height as int, my + percent_y as nat) - share(area.height as int, my)) as u16,
    }
}

/// A popup area of `percent_x` by `percent_y` of `area`, centred in it: the
/// middle of a vertical cut of `area` by the centring percentages of
/// `percent_y`, cut again horizontally by those of `percent_x`.  It lies
/// inside `area`, and where `area` ends within `u16` it is `centered_area`.
pub fn centered_rect(percent_x: u16, percent_y: u16, area: Area) -> (r: Area)
    requires
        percent_x <= 100,
        percent_y <= 100,
    ensures
        area.x <= r.x,
        r.x + r.width <= area.x + area.width,
        area.y <= r.y,
        r.y + r.height <= area.y + area.height,
        area.x + area.width <= u16::MAX && area.y + area.height <= u16::MAX ==> r == centered_area(
            percent_x,
            percent_y,
            area,
        ),
{
    let rows = centering_percentages(percent_y);
    let vert = split_area(Axis::Vertical, &percentage_sizes(&rows), area);
    let band = vert[1];
    assert(spans_across(Axis::Vertical, area, vert@[1]));
    let cols = centering_percentages(percent_x);
    let horiz = split_area(Axis::Horizontal, &percentage_sizes(&cols), band);
    let r = horiz[1];
    assert(spans_across(Axis::Horizontal, band, horiz@[1]));
    proof {
        lemma_centering_totals(percent_y);
        lemma_centering_totals(percent_x);
        if area.x + area.width <= u16::MAX && area.y + area.height <= u16::MAX {
            assert(cut_at(Axis::Vertical, area, rows@, 1, vert@[1]));
            assert(cut_at(Axis::Horizontal, band, cols@, 1, horiz@[1]));
            assert(r == centered_area(percent_x, percent_y, area));
        }
    }
    r
}

proof fn lemma_centering_totals(p: u16)
    requires
        p <= 100,
    ensures
        percent_total(centering(p).take(1)) == margin_of(p),
        percent_total(centering(p).take(2)) == margin_of(p) + p,
        percent_total(centering(p)) <= 100,
        centering(p).len() == 3,
{
    let c = centering(p);
    reveal_with_fuel(percent_total, 4);
    assert(c.take(1) =~= seq![c[0]]);
    assert(c.take(2) =~= seq![c[0], c[1]]);
    assert(seq![c[0], c[1]].drop_last() =~= seq![c[0]]);
    assert(seq![c[0]].drop_last() =~= Seq::<u16>::empty());
    assert(c.drop_last() =~= seq![c[0], c[1]]);
}

} // verus!
