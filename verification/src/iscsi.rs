//! The LIO target's configfs tree as the monitor reads it: which entries are
//! targets and portal groups, the initiators in `dynamic_sessions`, the LUNs
//! with their backing devices and counters, and the sessions built from them.

use vstd::prelude::*;

use crate::rates::{RateCache, RateKey, RateSample, RateState, sample_after};
use crate::sort::{stable_sort, stable_sort_of, strict_weak_order};
use crate::text::{
    chars_of, decode_lossy, join_strings, joined, lemma_lex_incomparable, lemma_lex_irreflexive,
    lemma_lex_transitive, lex_less, lex_lt, lines, rows, split_lines, utf8_lossy, parse_u32, parse_u64, parsed_u32, parsed_u64, skip_chars,
    starts_with, string_of, trim, trim_chars,
};

verus! {

broadcast use vstd::seq_lib::group_seq_properties;

/// One LUN exported through a portal group.
#[derive(Debug)]
pub struct Lun {
    pub index: u32,
    /// e.g. `/dev/zvol/newtank/k8s/pvc-xxxx` (`udev_path` or `fd_dev_name`)
    pub device: String,
    /// Cumulative MB read by the initiator (from `scsi_tgt_port`)
    pub read_mb: u64,
    /// Cumulative MB written by the initiator
    pub write_mb: u64,
}

/// A LUN by its values.
pub struct LunView {
    pub index: u32,
    pub device: Seq<char>,
    pub read_mb: u64,
    pub write_mb: u64,
}

impl View for Lun {
    type V = LunView;

    open spec fn view(&self) -> LunView {
        LunView {
            index: self.index,
            device: self.device@,
            read_mb: self.read_mb,
            write_mb: self.write_mb,
        }
    }
}

/// One row of the session table.
#[derive(Debug)]
pub struct Session {
    pub target_iqn: String,
    pub initiator_iqn: String,
    pub luns: Vec<Lun>,
    /// Bit pattern of the read rate in bytes/s, an `f64` (`f64::to_bits`).
    pub read_rate_bits: u64,
    /// Bit pattern of the write rate in bytes/s, as for `read_rate_bits`.
    pub write_rate_bits: u64,
    /// Total cumulative read MB
    pub total_read_mb: u64,
    /// Total cumulative write MB
    pub total_write_mb: u64,
}

/// A session by its values.
pub struct SessionView {
    pub target_iqn: Seq<char>,
    pub initiator_iqn: Seq<char>,
    pub luns: Seq<LunView>,
    pub read_rate_bits: u64,
    pub write_rate_bits: u64,
    pub total_read_mb: u64,
    pub total_write_mb: u64,
}

impl View for Session {
    type V = SessionView;

    open spec fn view(&self) -> SessionView {
        SessionView {
            target_iqn: self.target_iqn@,
            initiator_iqn: self.initiator_iqn@,
            luns: lun_views_of(self.luns@),
            read_rate_bits: self.read_rate_bits,
            write_rate_bits: self.write_rate_bits,
            total_read_mb: self.total_read_mb,
            total_write_mb: self.total_write_mb,
        }
    }
}

/// A copy of a LUN.
pub fn copy_lun(l: &Lun) -> (r: Lun)
    ensures
        r@ == l@,
{
    Lun { index: l.index, device: l.device.clone(), read_mb: l.read_mb, write_mb: l.write_mb }
}

/// A copy of a session.
pub fn copy_session(s: &Session) -> (r: Session)
    ensures
        r@ == s@,
{
    let mut luns: Vec<Lun> = Vec::new();
    let mut i: usize = 0;
    while i < s.luns.len()
        invariant
            i <= s.luns@.len(),
            lun_views_of(luns@) == lun_views_of(s.luns@).take(i as int),
        decreases s.luns@.len() - i,
    {
        let l = copy_lun(&s.luns[i]);
        let ghost prev = luns@;
        luns.push(l);
        assert(luns@ == prev.push(l));
        assert(lun_views_of(luns@) =~= lun_views_of(prev).push(l@));
        assert(lun_views_of(s.luns@)[i as int] == s.luns@[i as int]@);
        assert(lun_views_of(luns@) =~= lun_views_of(s.luns@).take(i + 1));
        i += 1;
    }
    assert(lun_views_of(s.luns@).take(s.luns@.len() as int) =~= lun_views_of(s.luns@));
    Session {
        target_iqn: s.target_iqn.clone(),
        initiator_iqn: s.initiator_iqn.clone(),
        luns,
        read_rate_bits: s.read_rate_bits,
        write_rate_bits: s.write_rate_bits,
        total_read_mb: s.total_read_mb,
        total_write_mb: s.total_write_mb,
    }
}

/// Whether a directory under the iSCSI root names a target (`iqn.`, `eui.` or
/// `naa.`), rather than an attribute such as `lio_version`.
pub open spec fn target_dir_name(n: Seq<char>) -> bool {
    ||| seq!['i', 'q', 'n', '.'].is_prefix_of(n)
    ||| seq!['e', 'u', 'i', '.'].is_prefix_of(n)
    ||| seq!['n', 'a', 'a', '.'].is_prefix_of(n)
}

pub fn is_target_name(name: &str) -> (r: bool)
    ensures
        r == target_dir_name(name@),
{
    let n = chars_of(name);
    starts_with(&n, &['i', 'q', 'n', '.']) || starts_with(&n, &['e', 'u', 'i', '.'])
        || starts_with(&n, &['n', 'a', 'a', '.'])
}

/// Whether a directory under a target is a target portal group (`tpgt_N`).
pub open spec fn tpgt_dir_name(n: Seq<char>) -> bool {
    seq!['t', 'p', 'g', 't', '_'].is_prefix_of(n)
}

pub fn is_tpgt_name(name: &str) -> (r: bool)
    ensures
        r == tpgt_dir_name(name@),
{
    let n = chars_of(name);
    starts_with(&n, &['t', 'p', 'g', 't', '_'])
}

/// For a `lun_N` directory, its number (0 where `N` is not a `u32`);
/// `None` for other names.
pub open spec fn lun_number(n: Seq<char>) -> Option<u32> {
    if seq!['l', 'u', 'n', '_'].is_prefix_of(n) {
        Some(
            match parsed_u32(n.skip(4)) {
                Some(v) => v,
                None => 0,
            },
        )
    } else {
        None
    }
}

pub fn lun_index(name: &str) -> (r: Option<u32>)
    ensures
        r == lun_number(name@),
{
    let n = chars_of(name);
    if starts_with(&n, &['l', 'u', 'n', '_']) {
        let rest = skip_chars(&n, 4);
        match parse_u32(&rest) {
            Some(v) => Some(v),
            None => Some(0),
        }
    } else {
        None
    }
}

/// The value of a counter file holding `text` (`None` where it could not be
/// read): its trimmed text as a `u64`, or 0.
pub open spec fn counter_value(text: Option<String>) -> u64 {
    match text {
        Some(t) => match parsed_u64(trim(t@)) {
            Some(v) => v,
            None => 0,
        },
        None => 0,
    }
}

pub fn counter(text: &Option<String>) -> (r: u64)
    ensures
        r == counter_value(*text),
{
    match text {
        Some(t) => {
            let c = chars_of(t.as_str());
            let trimmed = trim_chars(&c);
            match parse_u64(&trimmed) {
                Some(v) => v,
                None => 0,
            }
        },
        None => 0,
    }
}

/// One attribute file of a backing store.
pub enum AttrFile {
    /// The file does not exist.
    Absent,
    /// The file exists but could not be read.
    Unreadable,
    /// The file's text.
    Text(String),
}

/// What following a LUN's link to its backing store found.
pub enum Backing {
    /// No link, or the LUN directory, the link or its target could not be
    /// read.
    Unknown,
    /// The store's `udev_path` (iblock) and `fd_dev_name` (fileio) files, and
    /// the last component of its directory's path, if it has one.
    Store { udev_path: AttrFile, fd_dev_name: AttrFile, dir_name: Option<String> },
}

pub open spec fn unknown_device() -> Seq<char> {
    seq!['u', 'n', 'k', 'n', 'o', 'w', 'n']
}

/// What an attribute file decides: `None` to try the next source,
/// `Some(None)` for an unreadable file, `Some(Some(v))` for a non-blank value.
pub open spec fn attr_decision(a: AttrFile) -> Option<Option<Seq<char>>> {
    match a {
        AttrFile::Absent => None,
        AttrFile::Unreadable => Some(None),
        AttrFile::Text(t) => if trim(t@).len() > 0 {
            Some(Some(trim(t@)))
        } else {
            None
        },
    }
}

/// The device shown for a LUN: the trimmed `udev_path`, else the trimmed
/// `fd_dev_name`, else the store directory's name; `unknown` where nothing
/// could be read.
pub open spec fn device_name(b: Backing) -> Seq<char> {
    match b {
        Backing::Unknown => unknown_device(),
        Backing::Store { udev_path, fd_dev_name, dir_name } => match attr_decision(udev_path) {
            Some(Some(v)) => v,
            Some(None) => unknown_device(),
            None => match attr_decision(fd_dev_name) {
                Some(Some(v)) => v,
                Some(None) => unknown_device(),
                None => match dir_name {
                    Some(d) => d@,
                    None => unknown_device(),
                },
            },
        },
    }
}

fn unknown_string() -> (s: String)
    ensures
        s@ == unknown_device(),
{
    string_of(&['u', 'n', 'k', 'n', 'o', 'w', 'n'])
}

fn attr_value(a: &AttrFile) -> (r: Option<Option<String>>)
    ensures
        match attr_decision(*a) {
            None => r is None,
            Some(None) => r == Some(None::<String>),
            Some(Some(v)) => r matches Some(Some(s)) && s@ == v,
        },
{
    match a {
        AttrFile::Absent => None,
        AttrFile::Unreadable => Some(None),
        AttrFile::Text(t) => {
            let c = chars_of(t.as_str());
            let trimmed = trim_chars(&c);
            if trimmed.len() > 0 {
                Some(Some(string_of(&trimmed)))
            } else {
                None
            }
        },
    }
}

/// The device shown for a LUN with backing store `b`.
pub fn resolve_lun_device(b: &Backing) -> (r: String)
    ensures
        r@ == device_name(*b),
{
    match b {
        Backing::Unknown => unknown_string(),
        Backing::Store { udev_path, fd_dev_name, dir_name } => {
            match attr_value(udev_path) {
                Some(Some(v)) => {
                    return v;
                },
                Some(None) => {
                    return unknown_string();
                },
                None => {},
            }
            match attr_value(fd_dev_name) {
                Some(Some(v)) => {
                    return v;
                },
                Some(None) => {
                    return unknown_string();
                },
                None => {},
            }
            match dir_name {
                Some(d) => d.clone(),
                None => unknown_string(),
            }
        },
    }
}

/// A `lun_N` directory as read from configfs.
pub struct LunDir {
    pub name: String,
    pub backing: Backing,
    /// `statistics/scsi_tgt_port/read_mbytes`, where it could be read.
    pub read_mbytes: Option<String>,
    /// `statistics/scsi_tgt_port/write_mbytes`, where it could be read.
    pub write_mbytes: Option<String>,
}

/// The LUN a directory entry describes, if its name is `lun_N`.
pub open spec fn lun_of(d: LunDir) -> Option<LunView> {
    match lun_number(d.name@) {
        Some(index) => Some(
            LunView {
                index,
                device: device_name(d.backing),
                read_mb: counter_value(d.read_mbytes),
                write_mb: counter_value(d.write_mbytes),
            },
        ),
        None => None,
    }
}

pub open spec fn lun_of_fn() -> spec_fn(LunDir) -> Option<LunView> {
    |d: LunDir| lun_of(d)
}

/// The LUNs of a portal group in directory order.
pub open spec fn lun_views(dirs: Seq<LunDir>) -> Seq<LunView> {
    dirs.filter_map(lun_of_fn())
}

pub open spec fn total_read(ls: Seq<LunView>) -> nat
    decreases ls.len(),
{
    if ls.len() == 0 {
        0
    } else {
        total_read(ls.drop_last()) + ls.last().read_mb as nat
    }
}

pub open spec fn total_write(ls: Seq<LunView>) -> nat
    decreases ls.len(),
{
    if ls.len() == 0 {
        0
    } else {
        total_write(ls.drop_last()) + ls.last().write_mb as nat
    }
}

/// LUNs ordered by number.
pub open spec fn lun_order() -> spec_fn(Lun, Lun) -> bool {
    |a: Lun, b: Lun| a.index < b.index
}

pub open spec fn lun_view_order() -> spec_fn(LunView, LunView) -> bool {
    |a: LunView, b: LunView| a.index < b.index
}

pub open spec fn lun_views_of(ls: Seq<Lun>) -> Seq<LunView> {
    ls.map_values(|l: Lun| l@)
}

fn lun_precedes(a: &Lun, b: &Lun) -> (r: bool)
    ensures
        r == (a.index < b.index),
{
    a.index < b.index
}

/// The LUNs of a portal group with their total read and written MB.
pub struct LunTable {
    pub luns: Vec<Lun>,
    pub total_read_mb: u64,
    pub total_write_mb: u64,
}

/// Whether the LUN counters of a portal group sum to values that fit in a
/// `u64`.
pub open spec fn totals_fit(dirs: Seq<LunDir>) -> bool {
    total_read(lun_views(dirs)) <= u64::MAX && total_write(lun_views(dirs)) <= u64::MAX
}

/// The LUNs of a portal group's `lun_N` entries, sorted stably by number,
/// and their summed counters.
pub fn collect_luns(dirs: &Vec<LunDir>) -> (r: LunTable)
    requires
        totals_fit(dirs@),
    ensures
        stable_sort_of(lun_views_of(r.luns@), lun_views(dirs@), lun_view_order()),
        r.total_read_mb == total_read(lun_views(dirs@)),
        r.total_write_mb == total_write(lun_views(dirs@)),
{
    let mut luns: Vec<Lun> = Vec::new();
    let mut tr: u64 = 0;
    let mut tw: u64 = 0;
    let mut i: usize = 0;
    while i < dirs.len()
        invariant
            i <= dirs@.len(),
            totals_fit(dirs@),
            lun_views_of(luns@) == lun_views(dirs@.take(i as int)),
            tr == total_read(lun_views(dirs@.take(i as int))),
            tw == total_write(lun_views(dirs@.take(i as int))),
        decreases dirs@.len() - i,
    {
        let d = &dirs[i];
        assert(dirs@.take(i + 1).drop_last() =~= dirs@.take(i as int));
        proof {
            lemma_totals_prefix(dirs@, i + 1);
        }
        match lun_index(d.name.as_str()) {
            Some(index) => {
                let lun = Lun {
                    index,
                    device: resolve_lun_device(&d.backing),
                    read_mb: counter(&d.read_mbytes),
                    write_mb: counter(&d.write_mbytes),
                };
                assert(lun@ == lun_of(*d).unwrap());
                tr = tr + lun.read_mb;
                tw = tw + lun.write_mb;
                luns.push(lun);
                assert(lun_views_of(luns@) =~= lun_views(dirs@.take(i + 1)));
            },
            None => {},
        }
        i += 1;
    }
    assert(dirs@.take(dirs@.len() as int) =~= dirs@);
    let ghost unsorted = luns@;
    stable_sort(
        &mut luns,
        lun_precedes,
        Ghost(lun_order()),
    );
    proof {
        crate::sort::lemma_stable_sort_map(
            luns@,
            unsorted,
            lun_order(),
            |l: Lun| l@,
            lun_view_order(),
        );
    }
    LunTable { luns, total_read_mb: tr, total_write_mb: tw }
}

/// Whether the LUN counters of `dirs` sum to totals that fit in a `u64`.
pub fn lun_totals_fit(dirs: &Vec<LunDir>) -> (r: bool)
    ensures
        r == totals_fit(dirs@),
{
    let mut tr: u64 = 0;
    let mut tw: u64 = 0;
    let mut i: usize = 0;
    while i < dirs.len()
        invariant
            i <= dirs@.len(),
            tr == total_read(lun_views(dirs@.take(i as int))),
            tw == total_write(lun_views(dirs@.take(i as int))),
        decreases dirs@.len() - i,
    {
        let d = &dirs[i];
        assert(dirs@.take(i + 1).drop_last() =~= dirs@.take(i as int));
        proof {
            lemma_totals_prefix(dirs@, i + 1);
        }
        match lun_index(d.name.as_str()) {
            Some(_) => {
                let r = counter(&d.read_mbytes);
                let w = counter(&d.write_mbytes);
                if r > u64::MAX - tr || w > u64::MAX - tw {
                    return false;
                }
                tr = tr + r;
                tw = tw + w;
            },
            None => {},
        }
        i += 1;
    }
    assert(dirs@.take(dirs@.len() as int) =~= dirs@);
    true
}

/// The totals over a prefix of the entries are at most the totals over all.
proof fn lemma_totals_prefix(dirs: Seq<LunDir>, n: int)
    requires
        0 <= n <= dirs.len(),
    ensures
        total_read(lun_views(dirs.take(n))) <= total_read(lun_views(dirs)),
        total_write(lun_views(dirs.take(n))) <= total_write(lun_views(dirs)),
    decreases dirs.len() - n,
{
    if n < dirs.len() {
        lemma_totals_prefix(dirs, n + 1);
        assert(dirs.take(n + 1).drop_last() =~= dirs.take(n));
    } else {
        assert(dirs.take(n) =~= dirs);
    }
}

pub open spec fn nonzero_byte() -> spec_fn(u8) -> bool {
    |b: u8| b != 0
}

pub open spec fn trim_fn() -> spec_fn(Seq<char>) -> Seq<char> {
    |l: Seq<char>| trim(l)
}

pub open spec fn nonblank() -> spec_fn(Seq<char>) -> bool {
    |l: Seq<char>| l.len() > 0
}

/// The initiator names in a `dynamic_sessions` file: with NUL bytes dropped
/// and decoded as (lossy) UTF-8, its trimmed non-blank lines.
pub open spec fn session_names(bytes: Seq<u8>) -> Seq<Seq<char>> {
    lines(utf8_lossy(bytes.filter(nonzero_byte()))).map_values(trim_fn()).filter(nonblank())
}

/// The initiator names in the raw contents of a `dynamic_sessions` file.
pub fn read_dynamic_sessions(raw: &[u8]) -> (r: Vec<String>)
    ensures
        r.deep_view() == session_names(raw@),
{
    let mut bytes: Vec<u8> = Vec::new();
    let mut i: usize = 0;
    while i < raw.len()
        invariant
            i <= raw@.len(),
            bytes@ == raw@.take(i as int).filter(nonzero_byte()),
        decreases raw@.len() - i,
    {
        proof {
            raw@.take(i as int).lemma_filter_push(raw@[i as int], nonzero_byte());
            assert(raw@.take(i as int).push(raw@[i as int]) =~= raw@.take(i + 1));
        }
        if raw[i] != 0 {
            bytes.push(raw[i]);
        }
        i += 1;
    }
    assert(raw@.take(raw@.len() as int) =~= raw@);
    let text = decode_lossy(bytes.as_slice());
    let chars = chars_of(text.as_str());
    let ls = split_lines(&chars);
    let ghost all = rows(ls@);
    let mut out: Vec<String> = Vec::new();
    let mut j: usize = 0;
    while j < ls.len()
        invariant
            j <= ls@.len(),
            all == rows(ls@),
            out.deep_view() == all.take(j as int).map_values(trim_fn()).filter(nonblank()),
        decreases ls@.len() - j,
    {
        let t = trim_chars(&ls[j]);
        let ghost prev = out.deep_view();
        proof {
            let m = all.take(j as int).map_values(trim_fn());
            assert(all.take(j + 1).map_values(trim_fn()) =~= m.push(trim(all[j as int])));
            m.lemma_filter_push(trim(all[j as int]), nonblank());
        }
        if t.len() > 0 {
            let s = string_of(&t);
            out.push(s);
            assert(out.deep_view() =~= prev.push(s@));
        }
        j += 1;
    }
    assert(all.take(ls@.len() as int) =~= all);
    out
}

/// A target portal group as read from configfs.
pub struct TpgtDir {
    /// Name of the target directory it belongs to.
    pub target_iqn: String,
    /// Its own directory name.
    pub tpgt_name: String,
    /// Contents of its `dynamic_sessions` file.
    pub dynamic_sessions: Vec<u8>,
    /// The entries of its `lun` directory, where it has one.
    pub luns: Vec<LunDir>,
}

/// A session found by one collection, with how its counters compare with the
/// previous collection.
pub struct Observation {
    pub target_iqn: String,
    pub initiator_iqn: String,
    pub luns: Vec<Lun>,
    pub total_read_mb: u64,
    pub total_write_mb: u64,
    pub sample: RateSample,
}

/// A session a collection finds, by its values, with the LUNs in directory
/// order.
pub struct ObservationSpec {
    pub target_iqn: Seq<char>,
    pub initiator_iqn: Seq<char>,
    pub luns: Seq<LunView>,
    pub total_read_mb: u64,
    pub total_write_mb: u64,
    pub sample: RateSample,
}

/// Whether a portal group yields a session: it belongs to a target, is a
/// `tpgt_N` directory and has at least one initiator.
pub open spec fn tpgt_yields_session(t: TpgtDir) -> bool {
    &&& target_dir_name(t.target_iqn@)
    &&& tpgt_dir_name(t.tpgt_name@)
    &&& session_names(t.dynamic_sessions@).len() > 0
}

/// The initiator column of a portal group's session: its initiators joined
/// by `", "`.
pub open spec fn initiator_list(t: TpgtDir) -> Seq<char> {
    joined(session_names(t.dynamic_sessions@), seq![',', ' '])
}

/// Whether the LUN totals of every portal group that yields a session fit in
/// a `u64`.
pub open spec fn collection_fits(tpgts: Seq<TpgtDir>) -> bool {
    forall|i: int|
        0 <= i < tpgts.len() && tpgt_yields_session(#[trigger] tpgts[i]) ==> totals_fit(
            tpgts[i].luns@,
        )
}

/// Whether collecting from `tpgts` keeps every session's totals within a
/// `u64`, the condition under which `Collector::collect` may be called.
pub fn collection_fits_all(tpgts: &Vec<TpgtDir>) -> (r: bool)
    ensures
        r == collection_fits(tpgts@),
{
    let mut i: usize = 0;
    while i < tpgts.len()
        invariant
            i <= tpgts@.len(),
            forall|k: int|
                0 <= k < i && tpgt_yields_session(#[trigger] tpgts@[k]) ==> totals_fit(
                    tpgts@[k].luns@,
                ),
        decreases tpgts@.len() - i,
    {
        let t = &tpgts[i];
        if is_target_name(t.target_iqn.as_str()) && is_tpgt_name(t.tpgt_name.as_str()) {
            let names = read_dynamic_sessions(t.dynamic_sessions.as_slice());
            if names.len() > 0 && !lun_totals_fit(&t.luns) {
                assert(tpgt_yields_session(tpgts@[i as int]));
                return false;
            }
        }
        i += 1;
    }
    true
}

/// The sessions that the portal groups yield, in order, and the readings
/// after each has been recorded, starting from `readings`.
pub open spec fn collect_run(
    readings: Map<RateKey, RateState>,
    tpgts: Seq<TpgtDir>,
    now_ns: u64,
) -> (Seq<ObservationSpec>, Map<RateKey, RateState>)
    decreases tpgts.len(),
{
    if tpgts.len() == 0 {
        (seq![], readings)
    } else {
        let prev = collect_run(readings, tpgts.drop_last(), now_ns);
        let t = tpgts.last();
        if tpgt_yields_session(t) {
            let key = (t.target_iqn@, initiator_list(t));
            let luns = lun_views(t.luns@);
            let tr = total_read(luns) as u64;
            let tw = total_write(luns) as u64;
            let sample = sample_after(
                if prev.1.contains_key(key) {
                    Some(prev.1[key])
                } else {
                    None
                },
                tr,
                tw,
                now_ns,
            );
            (
                prev.0.push(
                    ObservationSpec {
                        target_iqn: key.0,
                        initiator_iqn: key.1,
                        luns,
                        total_read_mb: tr,
                        total_write_mb: tw,
                        sample,
                    },
                ),
                prev.1.insert(key, RateState { read_mb: tr, write_mb: tw, at_ns: now_ns }),
            )
        } else {
            prev
        }
    }
}

/// `o` is the session `s` describes, with its LUNs sorted stably by number.
pub open spec fn corresponds(o: Observation, s: ObservationSpec) -> bool {
    &&& o.target_iqn@ == s.target_iqn
    &&& o.initiator_iqn@ == s.initiator_iqn
    &&& stable_sort_of(lun_views_of(o.luns@), s.luns, lun_view_order())
    &&& o.total_read_mb == s.total_read_mb
    &&& o.total_write_mb == s.total_write_mb
    &&& o.sample == s.sample
}

/// Observations ordered by target IQN.
pub open spec fn observation_order() -> spec_fn(Observation, Observation) -> bool {
    |a: Observation, b: Observation| lex_lt(a.target_iqn@, b.target_iqn@)
}

/// `r` lists the sessions `s` describes, sorted stably by target IQN.
pub open spec fn sorted_by_target(r: Seq<Observation>, s: Seq<ObservationSpec>) -> bool {
    exists|pre: Seq<Observation>|
        {
            &&& pre.len() == s.len()
            &&& forall|k: int| 0 <= k < s.len() ==> corresponds(#[trigger] pre[k], s[k])
            &&& #[trigger] stable_sort_of(r, pre, observation_order())
        }
}

proof fn lemma_observation_order()
    ensures
        strict_weak_order(observation_order()),
{
    let o = observation_order();
    assert forall|a: Observation| !#[trigger] o(a, a) by {
        lemma_lex_irreflexive(a.target_iqn@);
    }
    assert forall|a: Observation, b: Observation, c: Observation|
        #![trigger o(a, b), o(b, c), o(a, c)]
        o(a, b) && o(b, c) implies o(a, c) by {
        lemma_lex_transitive(a.target_iqn@, b.target_iqn@, c.target_iqn@);
    }
    assert forall|a: Observation, b: Observation, c: Observation|
        #![trigger o(a, b), o(b, c), o(a, c)]
        !o(a, b) && !o(b, c) implies !o(a, c) by {
        let (x, y, z) = (a.target_iqn@, b.target_iqn@, c.target_iqn@);
        lemma_lex_incomparable(x, y, z);
    }
}

fn observation_precedes(a: &Observation, b: &Observation) -> (r: bool)
    ensures
        r == lex_lt(a.target_iqn@, b.target_iqn@),
{
    let x = chars_of(a.target_iqn.as_str());
    let y = chars_of(b.target_iqn.as_str());
    lex_less(&x, &y)
}

/// Keeps the counters of each session between collections, to derive rates.
pub struct Collector {
    rate_cache: RateCache,
}

impl Collector {
    /// The last reading recorded for each (target, initiator) pair.
    pub closed spec fn readings(&self) -> Map<RateKey, RateState> {
        self.rate_cache.readings()
    }

    pub closed spec fn wf(&self) -> bool {
        self.rate_cache.wf()
    }

    /// A collector that has recorded nothing.
    pub fn new() -> (c: Self)
        ensures
            c.wf(),
            c.readings() == Map::<RateKey, RateState>::empty(),
    {
        Collector { rate_cache: RateCache::new() }
    }

    /// `collect`, where the sessions' totals fit in a `u64`; `None`, with
    /// nothing recorded, where one would overflow.
    pub fn try_collect(&mut self, tpgts: &Vec<TpgtDir>, now_ns: u64) -> (r: Option<Vec<Observation>>)
        requires
            old(self).wf(),
        ensures
            final(self).wf(),
            r is None <==> !collection_fits(tpgts@),
            r is None ==> final(self).readings() == old(self).readings(),
            r matches Some(v) ==> final(self).readings() == collect_run(
                old(self).readings(),
                tpgts@,
                now_ns,
            ).1 && sorted_by_target(v@, collect_run(old(self).readings(), tpgts@, now_ns).0),
    {
        if collection_fits_all(tpgts) {
            Some(self.collect(tpgts, now_ns))
        } else {
            None
        }
    }

    /// Builds the sessions that the portal groups `tpgts` yield at time
    /// `now_ns`, recording each session's counters as it goes, and returns
    /// them sorted stably by target IQN.
    pub fn collect(&mut self, tpgts: &Vec<TpgtDir>, now_ns: u64) -> (r: Vec<Observation>)
        requires
            old(self).wf(),
            collection_fits(tpgts@),
        ensures
            final(self).wf(),
            final(self).readings() == collect_run(old(self).readings(), tpgts@, now_ns).1,
            sorted_by_target(r@, collect_run(old(self).readings(), tpgts@, now_ns).0),
    {
        let ghost start = self.readings();
        let mut pre: Vec<Observation> = Vec::new();
        let mut i: usize = 0;
        while i < tpgts.len()
            invariant
                i <= tpgts@.len(),
                self.wf(),
                collection_fits(tpgts@),
                self.readings() == collect_run(start, tpgts@.take(i as int), now_ns).1,
                pre@.len() == collect_run(start, tpgts@.take(i as int), now_ns).0.len(),
                forall|k: int|
                    0 <= k < pre@.len() ==> corresponds(
                        #[trigger] pre@[k],
                        collect_run(start, tpgts@.take(i as int), now_ns).0[k],
                    ),
            decreases tpgts@.len() - i,
        {
            let t = &tpgts[i];
            let ghost prev = collect_run(start, tpgts@.take(i as int), now_ns);
            assert(tpgts@.take(i + 1).drop_last() =~= tpgts@.take(i as int));
            if is_target_name(t.target_iqn.as_str()) && is_tpgt_name(t.tpgt_name.as_str()) {
                let names = read_dynamic_sessions(t.dynamic_sessions.as_slice());
                if names.len() > 0 {
                    assert(tpgt_yields_session(*t));
                    let table = collect_luns(&t.luns);
                    let initiator = join_strings(&names, &[',', ' ']);
                    let sample = self.rate_cache.observe(
                        &t.target_iqn,
                        &initiator,
                        table.total_read_mb,
                        table.total_write_mb,
                        now_ns,
                    );
                    let obs = Observation {
                        target_iqn: t.target_iqn.clone(),
                        initiator_iqn: initiator,
                        luns: table.luns,
                        total_read_mb: table.total_read_mb,
                        total_write_mb: table.total_write_mb,
                        sample,
                    };
                    pre.push(obs);
                    proof {
                        let next = collect_run(start, tpgts@.take(i + 1), now_ns);
                        assert(corresponds(pre@[pre@.len() - 1], next.0.last()));
                        assert forall|k: int| 0 <= k < pre@.len() implies corresponds(
                            #[trigger] pre@[k],
                            next.0[k],
                        ) by {
                            if k < pre@.len() - 1 {
                                assert(next.0[k] == prev.0[k]);
                            }
                        }
                    }
                }
            }
            i += 1;
        }
        assert(tpgts@.take(tpgts@.len() as int) =~= tpgts@);
        let ghost unsorted = pre@;
        proof {
            lemma_observation_order();
        }
        stable_sort(&mut pre, observation_precedes, Ghost(observation_order()));
        assert(stable_sort_of(pre@, unsorted, observation_order()));
        pre
    }
}

} // verus!
