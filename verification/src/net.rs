//! The TCP side: reading the iSCSI connections out of `ss -tnpi` output and
//! host names out of `getent hosts` output.

use vstd::prelude::*;

use crate::text::{
    chars_of, decode_lossy, parse_u16, parse_u64, parsed_u16, parsed_u64, rows, skip_chars, split_lines, split_words,
    starts_with, string_of, utf8_lossy, lines, words,
};

verus! {

broadcast use vstd::seq_lib::group_seq_properties;

/// One established connection to the iSCSI port.
#[derive(Debug)]
pub struct TcpConnection {
    /// The peer's address, without its port.
    pub peer_addr: String,
    /// The peer's port, where its address has one.
    pub peer_port: Option<u16>,
    pub bytes_sent: u64,
    pub bytes_received: u64,
}

/// A connection by its values.
pub struct TcpConnectionView {
    pub peer_addr: Seq<char>,
    pub peer_port: Option<u16>,
    pub bytes_sent: u64,
    pub bytes_received: u64,
}

impl View for TcpConnection {
    type V = TcpConnectionView;

    open spec fn view(&self) -> TcpConnectionView {
        TcpConnectionView {
            peer_addr: self.peer_addr@,
            peer_port: self.peer_port,
            bytes_sent: self.bytes_sent,
            bytes_received: self.bytes_received,
        }
    }
}

/// Position of the first `c` in `s`.
pub open spec fn find_first(s: Seq<char>, c: char) -> Option<int>
    decreases s.len(),
{
    if s.len() == 0 {
        None
    } else if s[0] == c {
        Some(0)
    } else {
        match find_first(s.drop_first(), c) {
            Some(i) => Some(i + 1),
            None => None,
        }
    }
}

/// Position of the last `c` in `s`.
pub open spec fn find_last(s: Seq<char>, c: char) -> Option<int>
    decreases s.len(),
{
    if s.len() == 0 {
        None
    } else if s.last() == c {
        Some(s.len() - 1)
    } else {
        find_last(s.drop_last(), c)
    }
}

/// An address without its port: `[2001:db8::1]:12345` gives `2001:db8::1`,
/// `1.2.3.4:5678` gives `1.2.3.4`; text with neither form is kept.
pub open spec fn without_port(a: Seq<char>) -> Seq<char> {
    if a.len() > 0 && a[0] == '[' && find_first(a, ']') is Some {
        a.subrange(1, find_first(a, ']')->0)
    } else if find_last(a, ':') is Some {
        a.subrange(0, find_last(a, ':')->0)
    } else {
        a
    }
}

/// The port text of an address: what follows `]:` in a bracketed address,
/// or the last `:` in another one; nothing where there is no such text.
pub open spec fn port_part(a: Seq<char>) -> Seq<char> {
    if a.len() > 0 && a[0] == '[' && find_first(a, ']') is Some {
        let rest = a.skip(find_first(a, ']')->0 + 1);
        if rest.len() > 0 && rest[0] == ':' {
            rest.drop_first()
        } else {
            seq![]
        }
    } else if find_last(a, ':') is Some {
        a.skip(find_last(a, ':')->0 + 1)
    } else {
        seq![]
    }
}

/// The port of an address: its port text read as a `u16`, where it is one.
/// `[2001:db8::1]:12345` gives 12345, `1.2.3.4:5678` gives 5678.
pub open spec fn port_of(a: Seq<char>) -> Option<u16> {
    parsed_u16(port_part(a))
}

pub proof fn lemma_find_first_bounds(s: Seq<char>, c: char)
    ensures
        find_first(s, c) matches Some(i) ==> 0 <= i < s.len() && s[i] == c && forall|k: int|
            0 <= k < i ==> s[k] != c,
        find_first(s, c) is None ==> forall|k: int| 0 <= k < s.len() ==> s[k] != c,
    decreases s.len(),
{
    if s.len() > 0 && s[0] != c {
        lemma_find_first_bounds(s.drop_first(), c);
        if find_first(s.drop_first(), c) is None {
            assert forall|k: int| 0 <= k < s.len() implies s[k] != c by {
                if k > 0 {
                    assert(s[k] == s.drop_first()[k - 1]);
                }
            }
        } else {
            let i = find_first(s.drop_first(), c)->0;
            assert forall|k: int| 0 <= k < i + 1 implies s[k] != c by {
                if k > 0 {
                    assert(s[k] == s.drop_first()[k - 1]);
                }
            }
        }
    }
}

pub proof fn lemma_find_last_bounds(s: Seq<char>, c: char)
    ensures
        find_last(s, c) matches Some(i) ==> 0 <= i < s.len() && s[i] == c && forall|k: int|
            i < k < s.len() ==> s[k] != c,
        find_last(s, c) is None ==> forall|k: int| 0 <= k < s.len() ==> s[k] != c,
    decreases s.len(),
{
    if s.len() > 0 && s.last() != c {
        lemma_find_last_bounds(s.drop_last(), c);
        assert(s[s.len() - 1] != c);
        assert forall|k: int| 0 <= k < s.len() - 1 implies s[k] == s.drop_last()[k] by {}
    }
}

/// The first position of `c` in `s`, scanning forward.
fn find_first_char(s: &[char], c: char) -> (r: Option<usize>)
    ensures
        r matches Some(i) ==> find_first(s@, c) == Some(i as int),
        r is None ==> find_first(s@, c) is None,
{
    let mut i: usize = 0;
    while i < s.len()
        invariant
            i <= s@.len(),
            forall|k: int| 0 <= k < i ==> s@[k] != c,
        decreases s@.len() - i,
    {
        if s[i] == c {
            proof {
                lemma_find_first_bounds(s@, c);
                assert(find_first(s@, c) == Some(i as int));
            }
            return Some(i);
        }
        i += 1;
    }
    proof {
        lemma_find_first_bounds(s@, c);
    }
    None
}

/// The last position of `c` in `s`, scanning backward.
pub(crate) fn find_last_char(s: &[char], c: char) -> (r: Option<usize>)
    ensures
        r matches Some(i) ==> find_last(s@, c) == Some(i as int),
        r is None ==> find_last(s@, c) is None,
{
    let mut i: usize = s.len();
    while i > 0
        invariant
            i <= s@.len(),
            forall|k: int| i <= k < s@.len() ==> s@[k] != c,
        decreases i,
    {
        if s[i - 1] == c {
            proof {
                lemma_find_last_bounds(s@, c);
                assert(find_last(s@, c) == Some(i - 1));
            }
            return Some(i - 1);
        }
        i -= 1;
    }
    proof {
        lemma_find_last_bounds(s@, c);
    }
    None
}

fn copy_range(s: &[char], from: usize, to: usize) -> (r: Vec<char>)
    requires
        from <= to <= s@.len(),
    ensures
        r@ == s@.subrange(from as int, to as int),
{
    let mut r: Vec<char> = Vec::new();
    let mut k: usize = from;
    while k < to
        invariant
            from <= k <= to <= s@.len(),
            r@ == s@.subrange(from as int, k as int),
        decreases to - k,
    {
        r.push(s[k]);
        assert(s@.subrange(from as int, k as int).push(s@[k as int]) =~= s@.subrange(
            from as int,
            k + 1,
        ));
        k += 1;
    }
    r
}

fn without_port_chars(a: &[char]) -> (r: Vec<char>)
    ensures
        r@ == without_port(a@),
{
    if a.len() > 0 && a[0] == '[' {
        match find_first_char(a, ']') {
            Some(end) => {
                proof {
                    lemma_find_first_bounds(a@, ']');
                }
                return copy_range(a, 1, end);
            },
            None => {},
        }
    }
    match find_last_char(a, ':') {
        Some(colon) => {
            proof {
                lemma_find_last_bounds(a@, ':');
            }
            copy_range(a, 0, colon)
        },
        None => copy_range(a, 0, a.len()),
    }
}

fn port_chars(a: &[char]) -> (r: Vec<char>)
    ensures
        r@ == port_part(a@),
{
    if a.len() > 0 && a[0] == '[' {
        match find_first_char(a, ']') {
            Some(end) => {
                proof {
                    lemma_find_first_bounds(a@, ']');
                }
                if end + 1 < a.len() && a[end + 1] == ':' {
                    let r = copy_range(a, end + 2, a.len());
                    assert(r@ =~= a@.skip(end + 1).drop_first());
                    return r;
                }
                return Vec::new();
            },
            None => {},
        }
    }
    match find_last_char(a, ':') {
        Some(colon) => {
            proof {
                lemma_find_last_bounds(a@, ':');
            }
            let r = copy_range(a, colon + 1, a.len());
            assert(r@ =~= a@.skip(colon + 1));
            r
        },
        None => Vec::new(),
    }
}

/// The port of an address: `[2001:db8::1]:12345` → 12345, `1.2.3.4:5678` →
/// 5678; `None` where it has no port text that reads as a `u16`.
pub fn address_port(addr: &str) -> (r: Option<u16>)
    ensures
        r == port_of(addr@),
{
    let a = chars_of(addr);
    parse_u16(&port_chars(&a))
}

/// Strips the port from an address: `[2001:db8::1]:12345` → `2001:db8::1`,
/// `1.2.3.4:5678` → `1.2.3.4`.
pub fn strip_port(addr: &str) -> (r: String)
    ensures
        r@ == without_port(addr@),
{
    let a = chars_of(addr);
    let r = without_port_chars(&a);
    assert(a@.subrange(0, a@.len() as int) =~= a@);
    string_of(&r)
}

/// The value of the last token that starts with `key`: the rest of the token
/// as a `u64`, or 0; 0 where no token starts with `key`.
pub open spec fn stat_value(tokens: Seq<Seq<char>>, key: Seq<char>) -> u64
    decreases tokens.len(),
{
    if tokens.len() == 0 {
        0
    } else if key.is_prefix_of(tokens.last()) {
        match parsed_u64(tokens.last().skip(key.len() as int)) {
            Some(v) => v,
            None => 0,
        }
    } else {
        stat_value(tokens.drop_last(), key)
    }
}

pub open spec fn bytes_sent_key() -> Seq<char> {
    seq!['b', 'y', 't', 'e', 's', '_', 's', 'e', 'n', 't', ':']
}

pub open spec fn bytes_received_key() -> Seq<char> {
    seq!['b', 'y', 't', 'e', 's', '_', 'r', 'e', 'c', 'e', 'i', 'v', 'e', 'd', ':']
}

pub open spec fn estab() -> Seq<char> {
    seq!['E', 'S', 'T', 'A', 'B']
}

/// Whether a line continues the previous one (starts with a tab or a space).
pub open spec fn is_detail_line(l: Seq<char>) -> bool {
    l.len() > 0 && (l[0] == '\t' || l[0] == ' ')
}

/// The connection an `ESTAB` line describes, with the counters of its detail
/// line, if it has one.  The peer is the fifth field, split into address
/// and port.
pub open spec fn connection_of(line: Seq<char>, detail: Option<Seq<char>>) -> TcpConnectionView {
    let w = words(line);
    let peer = if w.len() > 4 {
        w[4]
    } else {
        seq![]
    };
    TcpConnectionView {
        peer_addr: without_port(peer),
        peer_port: port_of(peer),
        bytes_sent: match detail {
            Some(d) => stat_value(words(d), bytes_sent_key()),
            None => 0,
        },
        bytes_received: match detail {
            Some(d) => stat_value(words(d), bytes_received_key()),
            None => 0,
        },
    }
}

/// The connections in the lines of `ss` output: one for each line starting
/// with `ESTAB`, which takes the next line as its details where that line
/// starts with a tab or a space.
pub open spec fn connections_in(ls: Seq<Seq<char>>) -> Seq<TcpConnectionView>
    decreases ls.len(),
{
    if ls.len() == 0 {
        seq![]
    } else if estab().is_prefix_of(ls[0]) {
        if ls.len() > 1 && is_detail_line(ls[1]) {
            seq![connection_of(ls[0], Some(ls[1]))] + connections_in(ls.skip(2))
        } else {
            seq![connection_of(ls[0], None)] + connections_in(ls.skip(1))
        }
    } else {
        connections_in(ls.skip(1))
    }
}

/// The connections that `ss -tnpi sport 3260` reports in `stdout`.
pub open spec fn ss_connections(stdout: Seq<u8>) -> Seq<TcpConnectionView> {
    connections_in(lines(utf8_lossy(stdout)))
}

fn stat_of(tokens: &Vec<Vec<char>>, key: &[char]) -> (r: u64)
    ensures
        r == stat_value(rows(tokens@), key@),
{
    let ghost all = rows(tokens@);
    let mut v: u64 = 0;
    let mut k: usize = 0;
    while k < tokens.len()
        invariant
            k <= tokens@.len(),
            all == rows(tokens@),
            v == stat_value(all.take(k as int), key@),
        decreases tokens@.len() - k,
    {
        assert(all.take(k + 1).drop_last() =~= all.take(k as int));
        assert(all.take(k + 1).last() == tokens@[k as int]@);
        if starts_with(&tokens[k], key) {
            let rest = skip_chars(&tokens[k], key.len());
            v = match parse_u64(&rest) {
                Some(x) => x,
                None => 0,
            };
        }
        k += 1;
    }
    assert(all.take(tokens@.len() as int) =~= all);
    v
}

fn connection_from(line: &[char], detail: Option<&Vec<char>>) -> (r: TcpConnection)
    ensures
        r@ == connection_of(
            line@,
            match detail {
                Some(d) => Some(d@),
                None => None,
            },
        ),
{
    let w = split_words(line);
    let peer: Vec<char> = if w.len() > 4 {
        copy_range(&w[4], 0, w[4].len())
    } else {
        Vec::new()
    };
    proof {
        if w@.len() > 4 {
            assert(w@[4]@.subrange(0, w@[4]@.len() as int) =~= w@[4]@);
            assert(rows(w@)[4] == w@[4]@);
        }
    }
    let peer_addr = string_of(&without_port_chars(&peer));
    let peer_port = parse_u16(&port_chars(&peer));
    let (sent, received) = match detail {
        Some(d) => {
            let tokens = split_words(d);
            (
                stat_of(&tokens, &['b', 'y', 't', 'e', 's', '_', 's', 'e', 'n', 't', ':']),
                stat_of(
                    &tokens,
                    &['b', 'y', 't', 'e', 's', '_', 'r', 'e', 'c', 'e', 'i', 'v', 'e', 'd', ':'],
                ),
            )
        },
        None => (0, 0),
    };
    TcpConnection { peer_addr, peer_port, bytes_sent: sent, bytes_received: received }
}

/// The established connections that `ss -tnpi sport 3260` printed to
/// `stdout`.
pub fn parse_ss_output(stdout: &[u8]) -> (r: Vec<TcpConnection>)
    ensures
        r@.map_values(|c: TcpConnection| c@) == ss_connections(stdout@),
{
    let text = decode_lossy(stdout);
    let chars = chars_of(text.as_str());
    let ls = split_lines(&chars);
    let ghost all = rows(ls@);
    let mut out: Vec<TcpConnection> = Vec::new();
    let mut i: usize = 0;
    let n = ls.len();
    assert(all.skip(0) =~= all);
    while i < n
        invariant
            n == ls@.len(),
            all == rows(ls@),
            i <= n,
            out@.map_values(|c: TcpConnection| c@) + connections_in(all.skip(i as int))
                == connections_in(all),
        decreases n - i,
    {
        let ghost rest = all.skip(i as int);
        assert(rest[0] == ls@[i as int]@);
        assert(rest.skip(1) =~= all.skip(i + 1));
        if starts_with(&ls[i], &['E', 'S', 'T', 'A', 'B']) {
            let has_detail = i + 1 < n && ls[i + 1].len() > 0 && (ls[i + 1][0] == '\t'
                || ls[i + 1][0] == ' ');
            let ghost before = out@.map_values(|c: TcpConnection| c@);
            if has_detail {
                assert(rest[1] == ls@[i + 1]@);
                assert(rest.skip(2) =~= all.skip(i + 2));
                let c = connection_from(&ls[i], Some(&ls[i + 1]));
                out.push(c);
                assert(out@.map_values(|c: TcpConnection| c@) =~= before.push(c@));
                assert(seq![c@] + connections_in(all.skip(i + 2)) =~= connections_in(rest));
                i += 2;
            } else {
                let c = connection_from(&ls[i], None);
                out.push(c);
                assert(out@.map_values(|c: TcpConnection| c@) =~= before.push(c@));
                assert(seq![c@] + connections_in(all.skip(i + 1)) =~= connections_in(rest));
                i += 1;
            }
        } else {
            i += 1;
        }
    }
    assert(all.skip(n as int) =~= Seq::<Seq<char>>::empty());
    out
}

/// The host name in `getent hosts` output: its second field.
pub open spec fn getent_hostname(stdout: Seq<u8>) -> Option<Seq<char>> {
    let w = words(utf8_lossy(stdout));
    if w.len() > 1 {
        Some(w[1])
    } else {
        None
    }
}

/// The host name that `getent hosts IP` printed to `stdout`, if any.
pub fn hostname_from_getent(stdout: &[u8]) -> (r: Option<String>)
    ensures
        match getent_hostname(stdout@) {
            Some(h) => r matches Some(s) && s@ == h,
            None => r is None,
        },
{
    let text = decode_lossy(stdout);
    let chars = chars_of(text.as_str());
    let w = split_words(&chars);
    if w.len() > 1 {
        assert(rows(w@)[1] == w@[1]@);
        Some(string_of(&w[1]))
    } else {
        None
    }
}

} // verus!
