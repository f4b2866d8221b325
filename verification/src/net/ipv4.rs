//! IPv4 dotted-decimal text: parsing as `Ipv4Addr::from_str` accepts it
//! and rendering as `Ipv4Addr`'s `Display` writes it.

use vstd::prelude::*;
use crate::text::{all_digits, ascii_bytes, decimal, digit_value, digits_value, find_byte, find_from, lemma_ascii_encode, lemma_ascii_join, lemma_decimal_digits, lemma_find_from, parse_radix, push_decimal, split_from, split_on};
use vstd::utf8::{encode_utf8, is_ascii_chars};

verus! {

/// One dotted-decimal group: one to three decimal digits, no leading zero
/// unless the group is a lone `0`, value at most 255.
pub open spec fn octet_text_value(p: Seq<u8>) -> Option<u8> {
    if p.len() == 0 || p.len() > 3 || !all_digits(p, 10) || (p.len() > 1 && p[0] == 48)
        || digits_value(p, 10) > 255 {
        None
    } else {
        Some(digits_value(p, 10) as u8)
    }
}

/// The address written by `s` in dotted-decimal: exactly four groups
/// separated by dots.
pub open spec fn parse_ipv4_spec(s: Seq<u8>) -> Option<Seq<u8>> {
    let parts = split_on(s, 46);
    if parts.len() != 4 {
        None
    } else {
        match (
            octet_text_value(parts[0]),
            octet_text_value(parts[1]),
            octet_text_value(parts[2]),
            octet_text_value(parts[3]),
        ) {
            (Some(a), Some(b), Some(c), Some(d)) => Some(seq![a, b, c, d]),
            _ => None,
        }
    }
}

/// Parses one dotted-decimal group.
pub fn parse_octet_text(p: &[u8]) -> (r: Option<u8>)
    ensures
        r == octet_text_value(p@),
{
    if p.len() == 0 || p.len() > 3 {
        return None;
    }
    if p.len() > 1 && p[0] == 48 {
        return None;
    }
    if p[0] == 43 {
        // A sign is not a digit; `parse_radix` would skip it.
        assert(digit_value(p@[0], 10) is None);
        return None;
    }
    let v = parse_radix(p, 10, 255);
    match v {
        Some(x) => {
            assert(!(p@.len() > 1 && p@[0] == 43));
            Some(x as u8)
        },
        None => {
            assert(!(p@.len() > 1 && p@[0] == 43));
            None
        },
    }
}

/// Parses dotted-decimal IPv4 text into its four octets.
pub fn parse_ipv4(s: &[u8]) -> (r: Option<[u8; 4]>)
    ensures
        match parse_ipv4_spec(s@) {
            Some(o) => r matches Some(a) && a@ == o,
            None => r is None,
        },
{
    let n = s.len();
    let mut out: Vec<u8> = Vec::new();
    let mut pos: usize = 0;
    let ghost mut done: Seq<Seq<u8>> = seq![];
    loop
        invariant_except_break
            split_on(s@, 46) == done + split_from(s@, pos as int, 46),
        invariant
            n == s@.len(),
            pos <= n,
            out@.len() == done.len(),
            done.len() <= 4,
            forall|i: int| 0 <= i < done.len() ==> octet_text_value(#[trigger] done[i]) == Some(out@[i]),
        ensures
            split_on(s@, 46) == done,
        decreases n + 1 - pos,
    {
        let e = find_byte(s, pos, 46);
        proof {
            lemma_find_from(s@, pos as int, 46);
        }
        let piece = &s[pos..e];
        if out.len() == 4 {
            proof {
                assert(split_from(s@, pos as int, 46).len() >= 1);
            }
            return None;
        }
        let v = parse_octet_text(piece);
        match v {
            None => {
                proof {
                    let parts = split_on(s@, 46);
                    if parts.len() == 4 {
                        assert(parts[done.len() as int] == piece@);
                    }
                }
                return None;
            },
            Some(x) => {
                out.push(x);
                proof {
                    let rest = split_from(s@, pos as int, 46);
                    assert(rest[0] == piece@);
                    done = done.push(piece@);
                }
                if e >= n {
                    proof {
                        assert(split_from(s@, pos as int, 46) =~= seq![piece@]);
                        assert(split_on(s@, 46) =~= done);
                    }
                    break;
                }
                proof {
                    assert(split_from(s@, pos as int, 46) =~= seq![piece@] + split_from(
                        s@,
                        e + 1,
                        46,
                    ));
                    assert(split_on(s@, 46) =~= done + split_from(s@, e + 1, 46));
                }
                pos = e + 1;
            },
        }
    }
    if out.len() != 4 {
        return None;
    }
    let a: [u8; 4] = [out[0], out[1], out[2], out[3]];
    proof {
        let parts = split_on(s@, 46);
        assert(parts =~= done);
        assert(octet_text_value(parts[0]) == Some(out@[0]));
        assert(octet_text_value(parts[1]) == Some(out@[1]));
        assert(octet_text_value(parts[2]) == Some(out@[2]));
        assert(octet_text_value(parts[3]) == Some(out@[3]));
        assert(a@ =~= seq![out@[0], out@[1], out@[2], out@[3]]);
    }
    Some(a)
}

/// Dotted-decimal rendering of four octets.
pub open spec fn ipv4_text(a: Seq<u8>) -> Seq<char> {
    decimal(a[0] as nat) + seq!['.'] + decimal(a[1] as nat) + seq!['.'] + decimal(a[2] as nat)
        + seq!['.'] + decimal(a[3] as nat)
}

/// Appends the dotted-decimal rendering of `a`.
pub fn push_ipv4(s: &mut String, a: [u8; 4])
    ensures
        final(s)@ == old(s)@ + ipv4_text(a@),
{
    push_decimal(s, a[0] as u64);
    s.push('.');
    push_decimal(s, a[1] as u64);
    s.push('.');
    push_decimal(s, a[2] as u64);
    s.push('.');
    push_decimal(s, a[3] as u64);
    assert(final(s)@ =~= old(s)@ + ipv4_text(a@)) by {
        assert(ipv4_text(a@) =~= decimal(a@[0] as nat) + seq!['.'] + decimal(a@[1] as nat)
            + seq!['.'] + decimal(a@[2] as nat) + seq!['.'] + decimal(a@[3] as nat));
    }
}

/// Whether an address lies in 127.0.0.0/8.
pub open spec fn is_loopback_octets(a: Seq<u8>) -> bool {
    a[0] == 127
}

/// Whether an address lies in 224.0.0.0/4, as `Ipv4Addr::is_multicast`
/// defines it.
pub open spec fn is_multicast_octets(a: Seq<u8>) -> bool {
    224 <= a[0] <= 239
}

/// Whether an address lies in 169.254.0.0/16, as `Ipv4Addr::is_link_local`
/// defines it.
pub open spec fn is_link_local_octets(a: Seq<u8>) -> bool {
    a[0] == 169 && a[1] == 254
}

/// The address as a 32-bit big-endian number.
pub open spec fn ipv4_u32(a: Seq<u8>) -> nat {
    a[0] as nat * 16777216 + a[1] as nat * 65536 + a[2] as nat * 256 + a[3] as nat
}

/// Octets of a 32-bit big-endian number.
pub open spec fn u32_octets(v: u32) -> Seq<u8> {
    seq![(v / 16777216) as u8, ((v / 65536) % 256) as u8, ((v / 256) % 256) as u8, (v % 256) as u8]
}

/// Converts octets to the 32-bit number they spell.
pub fn octets_to_u32(a: [u8; 4]) -> (v: u32)
    ensures
        v as nat == ipv4_u32(a@),
        u32_octets(v) == a@,
{
    let v: u32 = a[0] as u32 * 16777216 + a[1] as u32 * 65536 + a[2] as u32 * 256 + a[3] as u32;
    let a0 = a[0];
    let a1 = a[1];
    let a2 = a[2];
    let a3 = a[3];
    assert(((a0 as u32 * 16777216 + a1 as u32 * 65536 + a2 as u32 * 256 + a3 as u32) / 16777216) as u8
        == a0 && (((a0 as u32 * 16777216 + a1 as u32 * 65536 + a2 as u32 * 256 + a3 as u32) / 65536)
        % 256) as u8 == a1 && (((a0 as u32 * 16777216 + a1 as u32 * 65536 + a2 as u32 * 256
        + a3 as u32) / 256) % 256) as u8 == a2 && ((a0 as u32 * 16777216 + a1 as u32 * 65536 + a2 as u32
        * 256 + a3 as u32) % 256) as u8 == a3) by (bit_vector);
    assert(u32_octets(v) =~= a@);
    v
}

/// Converts a 32-bit number to its octets.
pub fn u32_to_octets(v: u32) -> (a: [u8; 4])
    ensures
        a@ == u32_octets(v),
        ipv4_u32(a@) == v,
{
    let a: [u8; 4] = [(v / 16777216) as u8, ((v / 65536) % 256) as u8, ((v / 256) % 256) as u8, (v
        % 256) as u8];
    assert(a@ =~= u32_octets(v));
    assert((v / 16777216) as u8 as nat * 16777216 + ((v / 65536) % 256) as u8 as nat * 65536 + ((v
        / 256) % 256) as u8 as nat * 256 + (v % 256) as u8 as nat == v as nat) by (nonlinear_arith);
    a
}

/// The IPv4 address of a socket address written `a.b.c.d:port`, as
/// `SocketAddr`'s `FromStr` reads it: the dotted-decimal address before the
/// first colon, then one or more decimal digits giving a port of at most
/// 65535, and nothing else.
pub open spec fn socket_v4_address(s: Seq<u8>) -> Option<Seq<u8>> {
    let c = find_from(s, 0, 58);
    if c >= s.len() {
        None
    } else {
        let port = s.subrange(c + 1, s.len() as int);
        if port.len() == 0 || !all_digits(port, 10) || digits_value(port, 10) > 65535 {
            None
        } else {
            parse_ipv4_spec(s.subrange(0, c))
        }
    }
}

/// Reads the IPv4 address of an IPv4 socket address text.
pub fn parse_socket_v4(s: &[u8]) -> (r: Option<[u8; 4]>)
    ensures
        match socket_v4_address(s@) {
            Some(o) => r matches Some(a) && a@ == o,
            None => r is None,
        },
{
    let c = find_byte(s, 0, 58);
    proof {
        lemma_find_from(s@, 0, 58);
    }
    if c >= s.len() {
        return None;
    }
    let port = &s[c + 1..s.len()];
    assert(port@ =~= s@.subrange(c + 1, s@.len() as int));
    if port.len() == 0 {
        return None;
    }
    if port[0] == 43 {
        // A sign is not a digit; `parse_radix` would skip it.
        assert(digit_value(port@[0], 10) is None);
        return None;
    }
    match parse_radix(port, 10, 65535) {
        None => {
            return None;
        },
        Some(_) => {},
    }
    let host = &s[0..c];
    assert(host@ =~= s@.subrange(0, c as int));
    parse_ipv4(host)
}

/// No byte of `s` is `b`.
pub open spec fn lacks(s: Seq<u8>, b: u8) -> bool {
    forall|i: int| 0 <= i < s.len() ==> s[i] != b
}

proof fn lemma_lacks_join(x: Seq<u8>, y: Seq<u8>, b: u8)
    requires
        lacks(x, b),
        lacks(y, b),
    ensures
        lacks(x + y, b),
{
    assert forall|i: int| 0 <= i < (x + y).len() implies (x + y)[i] != b by {
        if i < x.len() {
            assert((x + y)[i] == x[i]);
        } else {
            assert((x + y)[i] == y[i - x.len()]);
        }
    }
}

/// A decimal digit is neither a dot nor a colon.
proof fn lemma_digits_lack(s: Seq<u8>)
    requires
        all_digits(s, 10),
    ensures
        lacks(s, 46),
        lacks(s, 58),
{
    assert forall|i: int| 0 <= i < s.len() implies s[i] != 46 && s[i] != 58 by {
        assert(digit_value(s[i], 10) is Some);
    }
}

/// The first `sep` at or after `from` is at `k` when none comes before it.
proof fn lemma_find_at(s: Seq<u8>, from: int, k: int, sep: u8)
    requires
        0 <= from <= k <= s.len(),
        forall|j: int| from <= j < k ==> s[j] != sep,
        k < s.len() ==> s[k] == sep,
    ensures
        find_from(s, from, sep) == k,
    decreases k - from,
{
    if from < k {
        lemma_find_at(s, from + 1, k, sep);
    }
}

/// Searching the tail of a joined text searches the second part.
proof fn lemma_find_from_shift(x: Seq<u8>, y: Seq<u8>, from: int, sep: u8)
    requires
        from >= x.len(),
    ensures
        find_from(x + y, from, sep) == find_from(y, from - x.len(), sep) + x.len(),
    decreases (x + y).len() - from,
{
    if from < (x + y).len() {
        assert((x + y)[from] == y[from - x.len()]);
        if y[from - x.len()] != sep {
            lemma_find_from_shift(x, y, from + 1, sep);
        }
    }
}

/// Splitting the tail of a joined text splits the second part.
proof fn lemma_split_from_shift(x: Seq<u8>, y: Seq<u8>, from: int, sep: u8)
    requires
        from >= x.len(),
    ensures
        split_from(x + y, from, sep) == split_from(y, from - x.len(), sep),
    decreases (x + y).len() + 1 - from,
{
    let s = x + y;
    let f = from - x.len();
    if from <= s.len() {
        lemma_find_from_shift(x, y, from, sep);
        lemma_find_from(y, f, sep);
        let e = find_from(s, from, sep);
        if e >= s.len() {
            assert(s.subrange(from, s.len() as int) =~= y.subrange(f, y.len() as int));
        } else {
            assert(s.subrange(from, e) =~= y.subrange(f, e - x.len()));
            lemma_split_from_shift(x, y, e + 1, sep);
        }
    }
}

/// A piece without the separator, the separator, then the rest: the piece
/// is the first of the split.
proof fn lemma_split_lead(x: Seq<u8>, y: Seq<u8>, sep: u8)
    requires
        lacks(x, sep),
    ensures
        split_on(x + seq![sep] + y, sep) == seq![x] + split_on(y, sep),
{
    let s = x + seq![sep] + y;
    assert forall|j: int| 0 <= j < x.len() implies s[j] != sep by {
        assert(s[j] == x[j]);
    }
    lemma_find_at(s, 0, x.len() as int, sep);
    assert(s.subrange(0, x.len() as int) =~= x);
    lemma_split_from_shift(x + seq![sep], y, (x.len() + 1) as int, sep);
    assert(s == (x + seq![sep]) + y);
}

/// A piece without the separator splits into itself.
proof fn lemma_split_single(x: Seq<u8>, sep: u8)
    requires
        lacks(x, sep),
    ensures
        split_on(x, sep) == seq![x],
{
    lemma_find_at(x, 0, x.len() as int, sep);
    assert(x.subrange(0, x.len() as int) =~= x);
}

/// The decimal rendering of an octet is its dotted-decimal group.
proof fn lemma_octet_text(v: u8)
    ensures
        octet_text_value(ascii_bytes(decimal(v as nat))) == Some(v),
        is_ascii_chars(decimal(v as nat)),
        lacks(ascii_bytes(decimal(v as nat)), 46),
        lacks(ascii_bytes(decimal(v as nat)), 58),
{
    lemma_decimal_digits(v as nat);
    lemma_digits_lack(ascii_bytes(decimal(v as nat)));
}

/// The dotted-decimal groups joined by dots, as bytes.
pub open spec fn dotted(b0: Seq<u8>, b1: Seq<u8>, b2: Seq<u8>, b3: Seq<u8>) -> Seq<u8> {
    b0 + seq![46u8] + b1 + seq![46u8] + b2 + seq![46u8] + b3
}

/// Four groups without dots joined by dots split back into the groups.
proof fn lemma_dotted_split(b0: Seq<u8>, b1: Seq<u8>, b2: Seq<u8>, b3: Seq<u8>)
    requires
        lacks(b0, 46),
        lacks(b1, 46),
        lacks(b2, 46),
        lacks(b3, 46),
    ensures
        split_on(dotted(b0, b1, b2, b3), 46) == seq![b0, b1, b2, b3],
{
    let d = seq![46u8];
    lemma_split_single(b3, 46);
    lemma_split_lead(b2, b3, 46);
    lemma_split_lead(b1, b2 + d + b3, 46);
    lemma_split_lead(b0, b1 + d + b2 + d + b3, 46);
    assert(dotted(b0, b1, b2, b3) =~= b0 + d + (b1 + d + b2 + d + b3));
    assert(b1 + d + b2 + d + b3 =~= b1 + d + (b2 + d + b3));
    assert(split_on(dotted(b0, b1, b2, b3), 46) =~= seq![b0, b1, b2, b3]);
}

/// Dotted groups, a colon and the port digits read back as the groups'
/// address.
#[verifier::spinoff_prover]
proof fn lemma_socket_v4_bytes(b0: Seq<u8>, b1: Seq<u8>, b2: Seq<u8>, b3: Seq<u8>, bp: Seq<u8>, a: Seq<u8>)
    requires
        a.len() == 4,
        octet_text_value(b0) == Some(a[0]),
        octet_text_value(b1) == Some(a[1]),
        octet_text_value(b2) == Some(a[2]),
        octet_text_value(b3) == Some(a[3]),
        lacks(b0, 46),
        lacks(b1, 46),
        lacks(b2, 46),
        lacks(b3, 46),
        lacks(b0, 58),
        lacks(b1, 58),
        lacks(b2, 58),
        lacks(b3, 58),
        bp.len() > 0,
        all_digits(bp, 10),
        digits_value(bp, 10) <= 65535,
    ensures
        socket_v4_address(dotted(b0, b1, b2, b3) + seq![58u8] + bp) == Some(a),
{
    let host = dotted(b0, b1, b2, b3);
    let bytes = host + seq![58u8] + bp;
    lacks_of_host(b0, b1, b2, b3);
    assert forall|j: int| 0 <= j < host.len() implies bytes[j] != 58 by {
        assert(bytes[j] == host[j]);
    }
    lemma_find_at(bytes, 0, host.len() as int, 58);
    assert(bytes.subrange(0, host.len() as int) =~= host);
    assert(bytes.subrange((host.len() + 1) as int, bytes.len() as int) =~= bp);
    lemma_dotted_split(b0, b1, b2, b3);
    assert(seq![a[0], a[1], a[2], a[3]] =~= a);
}

/// The UTF-8 bytes of `a.b.c.d:port` are the dotted decimal groups, a
/// colon and the port's digits.
#[verifier::spinoff_prover]
proof fn lemma_socket_v4_text_bytes(a: Seq<u8>, port: u16)
    requires
        a.len() == 4,
    ensures
        encode_utf8(ipv4_text(a) + seq![':'] + decimal(port as nat)) == dotted(
            ascii_bytes(decimal(a[0] as nat)),
            ascii_bytes(decimal(a[1] as nat)),
            ascii_bytes(decimal(a[2] as nat)),
            ascii_bytes(decimal(a[3] as nat)),
        ) + seq![58u8] + ascii_bytes(decimal(port as nat)),
{
    let dot = seq!['.'];
    let colon = seq![':'];
    let d0 = decimal(a[0] as nat);
    let d1 = decimal(a[1] as nat);
    let d2 = decimal(a[2] as nat);
    let d3 = decimal(a[3] as nat);
    let dp = decimal(port as nat);
    lemma_decimal_digits(a[0] as nat);
    lemma_decimal_digits(a[1] as nat);
    lemma_decimal_digits(a[2] as nat);
    lemma_decimal_digits(a[3] as nat);
    lemma_decimal_digits(port as nat);
    assert(is_ascii_chars(dot));
    assert(is_ascii_chars(colon));
    assert(ascii_bytes(dot) =~= seq![46u8]);
    assert(ascii_bytes(colon) =~= seq![58u8]);
    lemma_ascii_join(d0, dot);
    lemma_ascii_join(d0 + dot, d1);
    lemma_ascii_join(d0 + dot + d1, dot);
    lemma_ascii_join(d0 + dot + d1 + dot, d2);
    lemma_ascii_join(d0 + dot + d1 + dot + d2, dot);
    lemma_ascii_join(d0 + dot + d1 + dot + d2 + dot, d3);
    let t = ipv4_text(a);
    assert(t == d0 + dot + d1 + dot + d2 + dot + d3);
    lemma_ascii_join(t, colon);
    lemma_ascii_join(t + colon, dp);
    lemma_ascii_encode(t + colon + dp);
}

/// An IPv4 socket address written out reads back as its address: the text
/// `a.b.c.d:port` gives `a.b.c.d`.
pub proof fn lemma_socket_v4_reads_back(a: Seq<u8>, port: u16)
    requires
        a.len() == 4,
    ensures
        socket_v4_address(encode_utf8(ipv4_text(a) + seq![':'] + decimal(port as nat))) == Some(a),
{
    lemma_socket_v4_text_bytes(a, port);
    lemma_octet_text(a[0]);
    lemma_octet_text(a[1]);
    lemma_octet_text(a[2]);
    lemma_octet_text(a[3]);
    lemma_decimal_digits(port as nat);
    lemma_socket_v4_bytes(
        ascii_bytes(decimal(a[0] as nat)),
        ascii_bytes(decimal(a[1] as nat)),
        ascii_bytes(decimal(a[2] as nat)),
        ascii_bytes(decimal(a[3] as nat)),
        ascii_bytes(decimal(port as nat)),
        a,
    );
}

/// No group or separator of the host part is a colon.
proof fn lacks_of_host(b0: Seq<u8>, b1: Seq<u8>, b2: Seq<u8>, b3: Seq<u8>)
    requires
        lacks(b0, 58),
        lacks(b1, 58),
        lacks(b2, 58),
        lacks(b3, 58),
    ensures
        lacks(dotted(b0, b1, b2, b3), 58),
{
    let d = seq![46u8];
    assert(lacks(d, 58));
    lemma_lacks_join(b0, d, 58);
    lemma_lacks_join(b0 + d, b1, 58);
    lemma_lacks_join(b0 + d + b1, d, 58);
    lemma_lacks_join(b0 + d + b1 + d, b2, 58);
    lemma_lacks_join(b0 + d + b1 + d + b2, d, 58);
    lemma_lacks_join(b0 + d + b1 + d + b2 + d, b3, 58);
}

} // verus!
