//! IPv6 neighbour tables: the text of `ip -6 neigh show` (Linux) and of
//! `ndp -an` (macOS), read into the neighbours worth probing.

use vstd::prelude::*;
use crate::net::arp::skip_header;
use crate::text::{bytes_eq, contains_bytes, contains_run, find_byte, find_first, find_from, lemma_find_from, lines_from, next_line, next_token, tokens_from};

verus! {

/// What `core::net::Ipv6Addr`'s `FromStr` reads from a text: the sixteen
/// address octets, or `None` when the text is not an IPv6 address.
pub uninterp spec fn ipv6_parse(text: Seq<char>) -> Option<Seq<u8>>;

/// `"…".parse::<Ipv6Addr>()`, as octets.
#[verifier::external_body]
fn parse_ipv6_text(text: &str) -> (r: Option<[u8; 16]>)
    ensures
        match r {
            Some(a) => ipv6_parse(text@) == Some(a@),
            None => ipv6_parse(text@) is None,
        },
{
    text.parse::<core::net::Ipv6Addr>().ok().map(|a| a.octets())
}

/// Whether every byte is ASCII.
pub open spec fn all_ascii(b: Seq<u8>) -> bool {
    forall|i: int| 0 <= i < b.len() ==> b[i] < 128
}

/// The characters of ASCII bytes.
pub open spec fn ascii_chars(b: Seq<u8>) -> Seq<char> {
    b.map_values(|x: u8| x as char)
}

/// An IPv6 address written in ASCII bytes; an address text is ASCII, so
/// bytes that are not cannot spell one.
pub open spec fn ipv6_of_bytes(b: Seq<u8>) -> Option<Seq<u8>> {
    if all_ascii(b) {
        ipv6_parse(ascii_chars(b))
    } else {
        None
    }
}

/// Parses an IPv6 address written in bytes.
pub fn parse_ipv6_bytes(b: &[u8]) -> (r: Option<[u8; 16]>)
    ensures
        match r {
            Some(a) => ipv6_of_bytes(b@) == Some(a@),
            None => ipv6_of_bytes(b@) is None,
        },
{
    let mut s = String::new();
    let mut i: usize = 0;
    while i < b.len()
        invariant
            i <= b@.len(),
            forall|j: int| 0 <= j < i ==> b@[j] < 128,
            s@ == ascii_chars(b@.take(i as int)),
        decreases b@.len() - i,
    {
        if b[i] >= 128 {
            return None;
        }
        s.push(b[i] as char);
        assert(ascii_chars(b@.take(i + 1)) =~= ascii_chars(b@.take(i as int)).push(b@[i as int] as char));
        i = i + 1;
    }
    assert(b@.take(b@.len() as int) =~= b@);
    parse_ipv6_text(s.as_str())
}

/// The loopback address `::1`.
pub open spec fn ipv6_loopback() -> Seq<u8> {
    seq![0u8, 0, 0, 0, 0, 0, 0, 0, 0, 0, 0, 0, 0, 0, 0, 1]
}

/// Whether sixteen octets are `::1`.
fn is_ipv6_loopback(a: &[u8; 16]) -> (r: bool)
    ensures
        r == (a@ == ipv6_loopback()),
{
    let lo: [u8; 16] = [0, 0, 0, 0, 0, 0, 0, 0, 0, 0, 0, 0, 0, 0, 0, 1];
    assert(lo@ =~= ipv6_loopback());
    bytes_eq(a, &lo)
}

/// `REACHABLE`, `STALE`, `DELAY` and `PROBE` in ASCII: the neighbour states
/// whose entries are complete.
pub open spec fn complete_states() -> Seq<Seq<u8>> {
    seq![
        seq![82u8, 69, 65, 67, 72, 65, 66, 76, 69],
        seq![83u8, 84, 65, 76, 69],
        seq![68u8, 69, 76, 65, 89],
        seq![80u8, 82, 79, 66, 69],
    ]
}

/// Whether a state token names a complete entry.
fn is_complete_state(t: &[u8]) -> (r: bool)
    ensures
        r == complete_states().contains(t@),
{
    let reachable: [u8; 9] = [82, 69, 65, 67, 72, 65, 66, 76, 69];
    let stale: [u8; 5] = [83, 84, 65, 76, 69];
    let delay: [u8; 5] = [68, 69, 76, 65, 89];
    let probe: [u8; 5] = [80, 82, 79, 66, 69];
    let ghost s = complete_states();
    assert(reachable@ =~= s[0]);
    assert(stale@ =~= s[1]);
    assert(delay@ =~= s[2]);
    assert(probe@ =~= s[3]);
    let r = bytes_eq(t, &reachable) || bytes_eq(t, &stale) || bytes_eq(t, &delay) || bytes_eq(
        t,
        &probe,
    );
    proof {
        if s.contains(t@) {
            let i = choose|i: int| 0 <= i < s.len() && s[i] == t@;
            assert(i == 0 || i == 1 || i == 2 || i == 3);
        }
    }
    r
}

/// What one `ip -6 neigh show` row yields given `addr`, the reading of its
/// first column as an IPv6 address: that address when it is not `::1` and
/// the last column is a complete state.
pub open spec fn neigh_line_given(line: Seq<u8>, addr: Option<Seq<u8>>) -> Option<Seq<u8>> {
    let t = tokens_from(line, 0);
    if t.len() == 0 {
        None
    } else {
        match addr {
            None => None,
            Some(a) => if a == ipv6_loopback() || !complete_states().contains(t.last()) {
                None
            } else {
                Some(a)
            },
        }
    }
}

/// One `ip -6 neigh show` row: `ADDR dev IFACE [lladdr MAC] [router] STATE`.
/// It yields its address when the first column is an IPv6 address other
/// than `::1` and the last column is a complete state.
pub open spec fn neigh_line_spec(line: Seq<u8>) -> Option<Seq<u8>> {
    let t = tokens_from(line, 0);
    if t.len() == 0 {
        None
    } else {
        neigh_line_given(line, ipv6_of_bytes(t[0]))
    }
}

/// The bounds of the last token of `line` at or after `from`, given the
/// first one, when there is one.
fn last_token(line: &[u8], a0: usize, e0: usize) -> (r: (usize, usize))
    requires
        a0 < e0 <= line@.len(),
        tokens_from(line@, 0).len() > 0,
        tokens_from(line@, 0)[0] == line@.subrange(a0 as int, e0 as int),
        tokens_from(line@, 0).drop_first() == tokens_from(line@, e0 as int),
    ensures
        r.0 <= r.1 <= line@.len(),
        tokens_from(line@, 0).last() == line@.subrange(r.0 as int, r.1 as int),
{
    let ghost all = tokens_from(line@, 0);
    let ghost mut done: Seq<Seq<u8>> = seq![line@.subrange(a0 as int, e0 as int)];
    let mut a = a0;
    let mut e = e0;
    assert(all =~= done + tokens_from(line@, e as int)) by {
        assert(all =~= seq![all[0]] + all.drop_first());
    }
    loop
        invariant
            a <= e <= line@.len(),
            done.len() > 0,
            done.last() == line@.subrange(a as int, e as int),
            all == done + tokens_from(line@, e as int),
        ensures
            a <= e <= line@.len(),
            all.last() == line@.subrange(a as int, e as int),
        decreases line@.len() - e,
    {
        match next_token(line, e) {
            None => {
                assert(all =~= done);
                break;
            },
            Some((na, ne)) => {
                proof {
                    let ts = tokens_from(line@, e as int);
                    let nd = done.push(line@.subrange(na as int, ne as int));
                    assert(all =~= nd + tokens_from(line@, ne as int)) by {
                        assert(ts =~= seq![ts[0]] + ts.drop_first());
                    }
                    done = nd;
                }
                a = na;
                e = ne;
            },
        }
    }
    (a, e)
}

/// Decides one `ip -6 neigh show` row given the reading of its first
/// column as an IPv6 address.
pub fn neigh_line_with(line: &[u8], addr: Option<[u8; 16]>) -> (r: Option<[u8; 16]>)
    ensures
        match neigh_line_given(line@, match addr {
            Some(a) => Some(a@),
            None => None,
        }) {
            Some(a) => r matches Some(x) && x@ == a,
            None => r is None,
        },
{
    let (a0, e0) = match next_token(line, 0) {
        Some(x) => x,
        None => return None,
    };
    let ip = match addr {
        Some(ip) => ip,
        None => return None,
    };
    if is_ipv6_loopback(&ip) {
        return None;
    }
    let (al, el) = last_token(line, a0, e0);
    if !is_complete_state(&line[al..el]) {
        return None;
    }
    Some(ip)
}

/// Parses one `ip -6 neigh show` row.
pub fn parse_neigh_line(line: &[u8]) -> (r: Option<[u8; 16]>)
    ensures
        match neigh_line_spec(line@) {
            Some(a) => r matches Some(x) && x@ == a,
            None => r is None,
        },
{
    let (a0, e0) = match next_token(line, 0) {
        Some(x) => x,
        None => return None,
    };
    let addr = parse_ipv6_bytes(&line[a0..e0]);
    proof {
        assert(tokens_from(line@, 0)[0] == line@.subrange(a0 as int, e0 as int));
    }
    neigh_line_with(line, addr)
}

/// The complete neighbours listed by `ip -6 neigh show`, in order.
pub open spec fn ip_neigh_spec(content: Seq<u8>) -> Seq<Seq<u8>> {
    lines_from(content, 0).filter_map(|l: Seq<u8>| neigh_line_spec(l))
}

/// The octets of a list of IPv6 addresses.
pub open spec fn v6_view(v: Seq<[u8; 16]>) -> Seq<Seq<u8>> {
    v.map_values(|a: [u8; 16]| a@)
}

/// Parses the output of `ip -6 neigh show`.
pub fn parse_ip_neigh(content: &[u8]) -> (r: Vec<[u8; 16]>)
    ensures
        v6_view(r@) == ip_neigh_spec(content@),
{
    let ghost f = |l: Seq<u8>| neigh_line_spec(l);
    let mut out: Vec<[u8; 16]> = Vec::new();
    let mut pos: usize = 0;
    let ghost all = lines_from(content@, 0);
    let ghost mut done: Seq<Seq<u8>> = seq![];
    loop
        invariant
            pos <= content@.len(),
            f == (|l: Seq<u8>| neigh_line_spec(l)),
            all == done + lines_from(content@, pos as int),
            v6_view(out@) == done.filter_map(f),
            all == lines_from(content@, 0),
        ensures
            all == done,
            v6_view(out@) == done.filter_map(f),
            f == (|l: Seq<u8>| neigh_line_spec(l)),
        decreases content@.len() - pos,
    {
        match next_line(content, pos) {
            None => {
                assert(all =~= done);
                break;
            },
            Some((a, e, next)) => {
                let line = &content[a..e];
                let parsed = parse_neigh_line(line);
                let ghost before = out@;
                match parsed {
                    Some(ip) => {
                        out.push(ip);
                        assert(v6_view(out@) =~= v6_view(before).push(ip@));
                    },
                    None => {},
                }
                proof {
                    let ls = lines_from(content@, pos as int);
                    assert(ls[0] == line@);
                    let nd = done.push(line@);
                    assert(nd.drop_last() =~= done);
                    assert(nd.last() == line@);
                    assert(all =~= nd + lines_from(content@, next as int)) by {
                        assert(ls =~= seq![ls[0]] + ls.drop_first());
                    }
                    done = nd;
                }
                pos = next;
            },
        }
    }
    assert(v6_view(out@) == all.filter_map(f));
    assert(f =~= (|l: Seq<u8>| neigh_line_spec(l)));
    out
}

/// `(incomplete)` in ASCII.
pub open spec fn incomplete_marker() -> Seq<u8> {
    seq![40u8, 105, 110, 99, 111, 109, 112, 108, 101, 116, 101, 41]
}

/// The address column without its `%scope` suffix.
pub open spec fn without_scope(t: Seq<u8>) -> Seq<u8> {
    match find_first(t, 37) {
        Some(i) => t.take(i),
        None => t,
    }
}

/// What one `ndp -an` row yields given `addr`, the reading of its first
/// column (without `%scope`) as an IPv6 address: nothing for a row marked
/// `(incomplete)` or for `::1`, otherwise that address.
pub open spec fn ndp_line_given(line: Seq<u8>, addr: Option<Seq<u8>>) -> Option<Seq<u8>> {
    let t = tokens_from(line, 0);
    if contains_run(line, incomplete_marker()) || t.len() == 0 {
        None
    } else {
        match addr {
            None => None,
            Some(a) => if a == ipv6_loopback() {
                None
            } else {
                Some(a)
            },
        }
    }
}

/// One `ndp -an` row: `ADDR LINKLAYER NETIF EXPIRE ...`. A row marked
/// `(incomplete)` yields nothing; otherwise the first column, without its
/// `%scope` suffix, when it is an IPv6 address other than `::1`.
pub open spec fn ndp_line_spec(line: Seq<u8>) -> Option<Seq<u8>> {
    let t = tokens_from(line, 0);
    if t.len() == 0 {
        None
    } else {
        ndp_line_given(line, ipv6_of_bytes(without_scope(t[0])))
    }
}

/// Decides one `ndp -an` row given the reading of its address column.
pub fn ndp_line_with(line: &[u8], addr: Option<[u8; 16]>) -> (r: Option<[u8; 16]>)
    ensures
        match ndp_line_given(line@, match addr {
            Some(a) => Some(a@),
            None => None,
        }) {
            Some(a) => r matches Some(x) && x@ == a,
            None => r is None,
        },
{
    let marker: [u8; 12] = [40, 105, 110, 99, 111, 109, 112, 108, 101, 116, 101, 41];
    assert(marker@ =~= incomplete_marker());
    if contains_bytes(line, &marker) {
        return None;
    }
    if next_token(line, 0).is_none() {
        return None;
    }
    let ip = match addr {
        Some(ip) => ip,
        None => return None,
    };
    if is_ipv6_loopback(&ip) {
        return None;
    }
    Some(ip)
}

/// Parses one `ndp -an` row.
pub fn parse_ndp_line(line: &[u8]) -> (r: Option<[u8; 16]>)
    ensures
        match ndp_line_spec(line@) {
            Some(a) => r matches Some(x) && x@ == a,
            None => r is None,
        },
{
    let (a0, e0) = match next_token(line, 0) {
        Some(x) => x,
        None => return None,
    };
    let tok = &line[a0..e0];
    let pct = find_byte(tok, 0, 37);
    proof {
        lemma_find_from(tok@, 0, 37);
    }
    let addr = if pct < tok.len() {
        &tok[0..pct]
    } else {
        tok
    };
    proof {
        if pct < tok@.len() {
            assert(addr@ =~= tok@.take(pct as int));
        }
        assert(tokens_from(line@, 0)[0] == tok@);
    }
    let parsed = parse_ipv6_bytes(addr);
    ndp_line_with(line, parsed)
}

/// The usable neighbours listed by `ndp -an`, header row skipped, in order.
pub open spec fn ndp_an_spec(content: Seq<u8>) -> Seq<Seq<u8>> {
    skip_header(lines_from(content, 0)).filter_map(|l: Seq<u8>| ndp_line_spec(l))
}

/// Parses the output of `ndp -an`.
pub fn parse_ndp_an(content: &[u8]) -> (r: Vec<[u8; 16]>)
    ensures
        v6_view(r@) == ndp_an_spec(content@),
{
    let ghost f = |l: Seq<u8>| ndp_line_spec(l);
    let mut out: Vec<[u8; 16]> = Vec::new();
    let first = next_line(content, 0);
    let mut pos: usize = match first {
        None => {
            assert(v6_view(out@) =~= ndp_an_spec(content@));
            return out;
        },
        Some((_, _, next)) => next,
    };
    let ghost all = skip_header(lines_from(content@, 0));
    assert(all == lines_from(content@, pos as int));
    let ghost mut done: Seq<Seq<u8>> = seq![];
    loop
        invariant
            pos <= content@.len(),
            f == (|l: Seq<u8>| ndp_line_spec(l)),
            all == done + lines_from(content@, pos as int),
            v6_view(out@) == done.filter_map(f),
            all == skip_header(lines_from(content@, 0)),
        ensures
            all == done,
            v6_view(out@) == done.filter_map(f),
            f == (|l: Seq<u8>| ndp_line_spec(l)),
        decreases content@.len() - pos,
    {
        match next_line(content, pos) {
            None => {
                assert(all =~= done);
                break;
            },
            Some((a, e, next)) => {
                let line = &content[a..e];
                let parsed = parse_ndp_line(line);
                let ghost before = out@;
                match parsed {
                    Some(ip) => {
                        out.push(ip);
                        assert(v6_view(out@) =~= v6_view(before).push(ip@));
                    },
                    None => {},
                }
                proof {
                    let ls = lines_from(content@, pos as int);
                    assert(ls[0] == line@);
                    let nd = done.push(line@);
                    assert(nd.drop_last() =~= done);
                    assert(nd.last() == line@);
                    assert(all =~= nd + lines_from(content@, next as int)) by {
                        assert(ls =~= seq![ls[0]] + ls.drop_first());
                    }
                    done = nd;
                }
                pos = next;
            },
        }
    }
    assert(v6_view(out@) == all.filter_map(f));
    assert(f =~= (|l: Seq<u8>| ndp_line_spec(l)));
    out
}

} // verus!
