//! Kernel ARP cache entries: which neighbours are worth scanning, MAC text
//! in both directions, and the three table formats the kernels hand out —
//! Linux's `/proc/net/arp` text, the routing messages macOS returns for
//! `sysctl(NET_RT_FLAGS, RTF_LLINFO)`, and the rows of Windows'
//! `GetIpNetTable2`.

use vstd::prelude::*;
use vstd::string::StringSliceAdditionalSpecFns;
use vstd::utf8::{encode_utf8, is_ascii_chars, is_ascii_chars_encode_utf8};
use crate::text::{
    digit_value, digits_value, hex_digit_char,
    find_byte, find_from, hex_padded, lemma_find_from, lines_from, next_line, next_token,
    parse_radix, parse_radix_spec, push_hex_byte, split_from, split_on, tokens_from, trim_0x,
    trim_0x_prefix,
};
use crate::net::ipv4::{is_loopback_octets, is_multicast_octets, parse_ipv4, parse_ipv4_spec};

verus! {

/// Link-layer hardware address (Ethernet MAC, 6 bytes).
pub type MacAddr = [u8; 6];

/// An IPv4 neighbour and its hardware address.
pub type ArpEntry = ([u8; 4], MacAddr);

/// The entries as plain sequences of octets.
pub open spec fn entries_view(v: Seq<ArpEntry>) -> Seq<(Seq<u8>, Seq<u8>)> {
    v.map_values(|e: ArpEntry| (e.0@, e.1@))
}

/// Whether every byte of a hardware address is `b`.
pub open spec fn mac_all(mac: Seq<u8>, b: u8) -> bool {
    mac[0] == b && mac[1] == b && mac[2] == b && mac[3] == b && mac[4] == b && mac[5] == b
}

/// Whether `(ip, mac)` names a single device worth probing: not loopback,
/// not IPv4 multicast, not a `.255` directed broadcast, not the broadcast
/// MAC and not a multicast MAC (low bit of the first byte set).
pub open spec fn is_unicast_target_spec(ip: Seq<u8>, mac: Seq<u8>) -> bool {
    &&& !is_loopback_octets(ip)
    &&& !is_multicast_octets(ip)
    &&& ip[3] != 255
    &&& !mac_all(mac, 0xff)
    &&& mac[0] % 2 == 0
}

/// True iff `(ip, mac)` names a single physical device worth scanning.
pub fn is_unicast_target(ip: [u8; 4], mac: MacAddr) -> (r: bool)
    ensures
        r == is_unicast_target_spec(ip@, mac@),
{
    if is_loopback(ip) || (224 <= ip[0] && ip[0] <= 239) {
        return false;
    }
    if ip[3] == 255 {
        return false;
    }
    let mac_is_broadcast = mac[0] == 0xff && mac[1] == 0xff && mac[2] == 0xff && mac[3] == 0xff
        && mac[4] == 0xff && mac[5] == 0xff;
    if mac_is_broadcast {
        return false;
    }
    let m0 = mac[0];
    assert(m0 & 0x01 == m0 % 2) by (bit_vector);
    if m0 & 0x01 != 0 {
        return false;
    }
    true
}

/// Whether an address lies in 127.0.0.0/8.
pub fn is_loopback(ip: [u8; 4]) -> (r: bool)
    ensures
        r == is_loopback_octets(ip@),
{
    ip[0] == 127
}

/// Keeps the entries that are unicast scan targets, in order.
pub fn unicast_targets(entries: Vec<ArpEntry>) -> (r: Vec<ArpEntry>)
    ensures
        entries_view(r@) == entries_view(entries@).filter(
            |e: (Seq<u8>, Seq<u8>)| is_unicast_target_spec(e.0, e.1),
        ),
{
    let ghost keep = |e: (Seq<u8>, Seq<u8>)| is_unicast_target_spec(e.0, e.1);
    let mut out: Vec<ArpEntry> = Vec::new();
    let mut i: usize = 0;
    while i < entries.len()
        invariant
            i <= entries@.len(),
            keep == (|e: (Seq<u8>, Seq<u8>)| is_unicast_target_spec(e.0, e.1)),
            entries_view(out@) == entries_view(entries@.take(i as int)).filter(keep),
        decreases entries@.len() - i,
    {
        let e = entries[i];
        let ghost before = out@;
        let take = is_unicast_target(e.0, e.1);
        if take {
            out.push(e);
            assert(entries_view(out@) =~= entries_view(before).push((e.0@, e.1@)));
        }
        proof {
            let pre = entries_view(entries@.take(i as int));
            let nxt = entries_view(entries@.take(i + 1));
            assert(nxt =~= pre.push((e.0@, e.1@)));
            assert(nxt.drop_last() =~= pre);
            assert(keep((e.0@, e.1@)) == take);
            reveal(Seq::filter);
            assert(nxt.filter(keep) == if take {
                pre.filter(keep).push((e.0@, e.1@))
            } else {
                pre.filter(keep)
            });
        }
        i = i + 1;
    }
    assert(entries@.take(entries@.len() as int) =~= entries@);
    out
}

/// `aa:bb:cc:dd:ee:ff`: six lower-case two-digit hex bytes joined by colons.
pub open spec fn mac_text(mac: Seq<u8>) -> Seq<char> {
    hex_padded(mac[0] as nat, 2) + seq![':'] + hex_padded(mac[1] as nat, 2) + seq![':']
        + hex_padded(mac[2] as nat, 2) + seq![':'] + hex_padded(mac[3] as nat, 2) + seq![':']
        + hex_padded(mac[4] as nat, 2) + seq![':'] + hex_padded(mac[5] as nat, 2)
}

/// Format a MAC as `"aa:bb:cc:dd:ee:ff"` (lower-case, colon-separated).
pub fn format_mac(mac: &MacAddr) -> (s: String)
    ensures
        s@ == mac_text(mac@),
{
    let mut s = String::new();
    push_hex_byte(&mut s, mac[0]);
    s.push(':');
    push_hex_byte(&mut s, mac[1]);
    s.push(':');
    push_hex_byte(&mut s, mac[2]);
    s.push(':');
    push_hex_byte(&mut s, mac[3]);
    s.push(':');
    push_hex_byte(&mut s, mac[4]);
    s.push(':');
    push_hex_byte(&mut s, mac[5]);
    assert(s@ =~= mac_text(mac@));
    s
}

/// The bytes `s` read as `aa:bb:cc:dd:ee:ff`: exactly six colon-separated
/// pieces, each an unsigned hexadecimal number up to 255 as `u8`'s
/// `from_str_radix` reads it.
pub open spec fn parse_mac_spec(s: Seq<u8>) -> Option<Seq<u8>> {
    let parts = split_on(s, 58);
    if parts.len() != 6 {
        None
    } else if forall|i: int| 0 <= i < 6 ==> (#[trigger] parse_radix_spec(parts[i], 16, 255)) is Some {
        Some(Seq::new(6, |i: int| parse_radix_spec(parts[i], 16, 255)->0 as u8))
    } else {
        None
    }
}

/// Parses the bytes of `aa:bb:cc:dd:ee:ff` (case-insensitive).
pub fn parse_mac_bytes(s: &[u8]) -> (r: Option<MacAddr>)
    ensures
        match parse_mac_spec(s@) {
            Some(m) => r matches Some(a) && a@ == m,
            None => r is None,
        },
{
    let n = s.len();
    let mut out: Vec<u8> = Vec::new();
    let mut pos: usize = 0;
    let ghost mut done: Seq<Seq<u8>> = seq![];
    loop
        invariant_except_break
            split_on(s@, 58) == done + split_from(s@, pos as int, 58),
        invariant
            n == s@.len(),
            pos <= n,
            out@.len() == done.len(),
            done.len() <= 6,
            forall|i: int|
                0 <= i < done.len() ==> parse_radix_spec(#[trigger] done[i], 16, 255) == Some(
                    out@[i] as nat,
                ),
        ensures
            split_on(s@, 58) == done,
        decreases n + 1 - pos,
    {
        let e = find_byte(s, pos, 58);
        proof {
            lemma_find_from(s@, pos as int, 58);
        }
        let piece = &s[pos..e];
        if out.len() == 6 {
            proof {
                assert(split_from(s@, pos as int, 58).len() >= 1);
            }
            return None;
        }
        let v = parse_radix(piece, 16, 255);
        match v {
            None => {
                proof {
                    let parts = split_on(s@, 58);
                    if parts.len() == 6 {
                        assert(parts[done.len() as int] == piece@);
                        assert(parse_radix_spec(parts[done.len() as int], 16, 255) is None);
                    }
                }
                return None;
            },
            Some(x) => {
                out.push(x as u8);
                proof {
                    let rest = split_from(s@, pos as int, 58);
                    assert(rest[0] == piece@);
                    done = done.push(piece@);
                }
                if e >= n {
                    proof {
                        assert(split_from(s@, pos as int, 58) =~= seq![piece@]);
                        assert(split_on(s@, 58) =~= done);
                    }
                    break;
                }
                proof {
                    assert(split_from(s@, pos as int, 58) =~= seq![piece@] + split_from(
                        s@,
                        e + 1,
                        58,
                    ));
                    assert(split_on(s@, 58) =~= done + split_from(s@, e + 1, 58));
                }
                pos = e + 1;
            },
        }
    }
    if out.len() != 6 {
        return None;
    }
    let a: MacAddr = [out[0], out[1], out[2], out[3], out[4], out[5]];
    proof {
        let parts = split_on(s@, 58);
        assert(parts =~= done);
        assert forall|i: int| 0 <= i < 6 implies (#[trigger] parse_radix_spec(parts[i], 16, 255)) is Some by {
            assert(parse_radix_spec(done[i], 16, 255) == Some(out@[i] as nat));
        }
        let m = Seq::new(6, |i: int| parse_radix_spec(parts[i], 16, 255)->0 as u8);
        assert forall|i: int| 0 <= i < 6 implies a@[i] == m[i] by {
            assert(parse_radix_spec(done[i], 16, 255) == Some(out@[i] as nat));
        }
        assert(a@ =~= m);
    }
    Some(a)
}

/// Parse `"aa:bb:cc:dd:ee:ff"` (case-insensitive) into 6 bytes.
pub fn parse_mac_colons(s: &str) -> (r: Option<MacAddr>)
    ensures
        match parse_mac_spec(s.spec_bytes()) {
            Some(m) => r matches Some(a) && a@ == m,
            None => r is None,
        },
{
    parse_mac_bytes(s.as_bytes())
}


/// One `/proc/net/arp` row: `IP  HW-type  Flags  HW-address  Mask  Device`.
/// Rows with fewer than four columns, an address that is not dotted-decimal
/// IPv4, a loopback address, flags that are not hex or are zero (an
/// incomplete entry), or a missing or all-zero hardware address yield
/// nothing.
pub open spec fn arp_line_spec(line: Seq<u8>) -> Option<(Seq<u8>, Seq<u8>)> {
    let t = tokens_from(line, 0);
    if t.len() < 4 {
        None
    } else {
        match parse_ipv4_spec(t[0]) {
            None => None,
            Some(ip) => if is_loopback_octets(ip) {
                None
            } else {
                match parse_radix_spec(trim_0x(t[2]), 16, 255) {
                    None => None,
                    Some(flags) => if flags == 0 {
                        None
                    } else {
                        match parse_mac_spec(t[3]) {
                            None => None,
                            Some(mac) => if mac_all(mac, 0) {
                                None
                            } else {
                                Some((ip, mac))
                            },
                        }
                    },
                }
            },
        }
    }
}

/// Parses one `/proc/net/arp` row.
pub fn parse_arp_line(line: &[u8]) -> (r: Option<ArpEntry>)
    ensures
        match arp_line_spec(line@) {
            Some((ip, mac)) => r matches Some(e) && e.0@ == ip && e.1@ == mac,
            None => r is None,
        },
{
    let ghost t = tokens_from(line@, 0);
    let (a0, e0) = match next_token(line, 0) {
        Some(x) => x,
        None => return None,
    };
    let (_a1, e1) = match next_token(line, e0) {
        Some(x) => x,
        None => return None,
    };
    let (a2, e2) = match next_token(line, e1) {
        Some(x) => x,
        None => return None,
    };
    let (a3, e3) = match next_token(line, e2) {
        Some(x) => x,
        None => return None,
    };
    proof {
        assert(t[0] == line@.subrange(a0 as int, e0 as int));
        assert(t.drop_first()[0] == t[1]);
        assert(t.drop_first().drop_first()[0] == t[2]);
        assert(t.drop_first().drop_first().drop_first()[0] == t[3]);
        assert(t[2] == line@.subrange(a2 as int, e2 as int));
        assert(t[3] == line@.subrange(a3 as int, e3 as int));
    }
    let ip = match parse_ipv4(&line[a0..e0]) {
        Some(ip) => ip,
        None => return None,
    };
    if is_loopback(ip) {
        return None;
    }
    let flags = match parse_radix(trim_0x_prefix(&line[a2..e2]), 16, 255) {
        Some(f) => f,
        None => return None,
    };
    if flags == 0 {
        return None;
    }
    let mac = match parse_mac_bytes(&line[a3..e3]) {
        Some(m) => m,
        None => return None,
    };
    if mac[0] == 0 && mac[1] == 0 && mac[2] == 0 && mac[3] == 0 && mac[4] == 0 && mac[5] == 0 {
        return None;
    }
    Some((ip, mac))
}

/// All lines but the first (the column header).
pub open spec fn skip_header(ls: Seq<Seq<u8>>) -> Seq<Seq<u8>> {
    if ls.len() == 0 {
        ls
    } else {
        ls.drop_first()
    }
}

/// The usable neighbours listed in `/proc/net/arp` text, in file order.
pub open spec fn proc_arp_spec(content: Seq<u8>) -> Seq<(Seq<u8>, Seq<u8>)> {
    skip_header(lines_from(content, 0)).filter_map(|l: Seq<u8>| arp_line_spec(l))
}

/// Parses the bytes of `/proc/net/arp`.
pub fn parse_proc_arp_bytes(content: &[u8]) -> (r: Vec<ArpEntry>)
    ensures
        entries_view(r@) == proc_arp_spec(content@),
{
    let ghost f = |l: Seq<u8>| arp_line_spec(l);
    let mut out: Vec<ArpEntry> = Vec::new();
    let first = next_line(content, 0);
    let mut pos: usize = match first {
        None => {
            assert(entries_view(out@) =~= proc_arp_spec(content@));
            return out;
        },
        Some((_, _, next)) => next,
    };
    let ghost all = skip_header(lines_from(content@, 0));
    assert(all == lines_from(content@, pos as int));
    let ghost mut done: Seq<Seq<u8>> = seq![];
    loop
        invariant
            pos <= content@.len(),
            f == (|l: Seq<u8>| arp_line_spec(l)),
            all == done + lines_from(content@, pos as int),
            entries_view(out@) == done.filter_map(f),
            all == skip_header(lines_from(content@, 0)),
        ensures
            all == done,
            entries_view(out@) == done.filter_map(f),
            f == (|l: Seq<u8>| arp_line_spec(l)),
        decreases content@.len() - pos,
    {
        match next_line(content, pos) {
            None => {
                assert(all =~= done);
                break;
            },
            Some((a, e, next)) => {
                let line = &content[a..e];
                let parsed = parse_arp_line(line);
                let ghost before = out@;
                match parsed {
                    Some(entry) => {
                        out.push(entry);
                        assert(entries_view(out@) =~= entries_view(before).push(
                            (entry.0@, entry.1@),
                        ));
                    },
                    None => {},
                }
                proof {
                    let ls = lines_from(content@, pos as int);
                    assert(ls[0] == line@);
                    let nd = done.push(line@);
                    assert(nd.drop_last() =~= done);
                    assert(nd.last() == line@);
                    assert(all =~= nd + lines_from(content@, next as int)) by {
                        assert(ls =~= seq![ls[0]] + ls.drop_first());
                    }
                    done = nd;
                }
                pos = next;
            },
        }
    }
    assert(all == done);
    assert(entries_view(out@) == all.filter_map(f));
    assert(f =~= (|l: Seq<u8>| arp_line_spec(l)));
    out
}

/// Parses `/proc/net/arp`: every usable (IPv4, MAC) neighbour, skipping the
/// header row, loopback, incomplete entries and unparseable rows.
pub fn parse_proc_arp(content: &str) -> (r: Vec<ArpEntry>)
    ensures
        entries_view(r@) == proc_arp_spec(content.spec_bytes()),
{
    parse_proc_arp_bytes(content.as_bytes())
}


/// Length of the Darwin `rt_msghdr` that precedes the addresses of a
/// routing message.
pub const RT_MSGHDR_LEN: usize = 92;

/// Length of the leading `rt_msghdr` fields every routing message carries
/// (`rtm_msglen` through `rtm_addrs`).
pub const RT_MSGHDR_HEAD_LEN: usize = 16;

/// Length of a Darwin `sockaddr_in`.
pub const SOCKADDR_IN_LEN: usize = 16;

/// Length of a Darwin `sockaddr_dl` with its 12-byte `sdl_data`.
pub const SOCKADDR_DL_LEN: usize = 20;

/// Offset of `sdl_data` within a `sockaddr_dl`.
pub const SDL_DATA_OFFSET: usize = 8;

/// Darwin `AF_INET`.
pub const DARWIN_AF_INET: u8 = 2;

/// Darwin `AF_LINK`.
pub const DARWIN_AF_LINK: u8 = 18;

/// A `sockaddr` length rounded up to the 4-byte alignment BSD's `SA_SIZE`
/// uses; a zero length counts as one alignment unit.
pub open spec fn sa_size_spec(sa_len: u8) -> nat {
    if sa_len == 0 {
        4
    } else {
        ((sa_len as nat + 3) / 4) * 4
    }
}

/// Round a `sockaddr` `sa_len` up to the next 4-byte boundary, matching
/// BSD's `SA_SIZE` / `ROUNDUP` macro. Used to step from one sockaddr to the
/// next in routing-message payloads.
pub fn sa_size(sa_len: u8) -> (r: usize)
    ensures
        r == sa_size_spec(sa_len),
{
    if sa_len == 0 {
        4
    } else {
        let len: u32 = sa_len as u32;
        let m: u32 = len - 1;
        assert(m <= 254 ==> (m | 3u32) <= 255 && (m | 3u32) + 1 == ((m + 4) / 4) * 4) by (bit_vector);
        (1 + (m | 3)) as usize
    }
}

/// One routing message: the `sockaddr_in` destination right after the
/// header, then the `sockaddr_dl` gateway holding a 6-byte MAC after the
/// interface name. Anything shorter or of another address family yields
/// nothing.
pub open spec fn rt_msg_spec(m: Seq<u8>) -> Option<(Seq<u8>, Seq<u8>)> {
    let h = RT_MSGHDR_LEN as int;
    if m.len() <= h || h + SOCKADDR_IN_LEN > m.len() {
        None
    } else if m[h + 1] != DARWIN_AF_INET {
        None
    } else {
        let ip = m.subrange(h + 4, h + 8);
        let sin_len: u8 = if m[h] == 0 {
            SOCKADDR_IN_LEN as u8
        } else {
            m[h]
        };
        let p = h + sa_size_spec(sin_len);
        if p + SOCKADDR_DL_LEN > m.len() {
            None
        } else if m[p + 1] != DARWIN_AF_LINK || m[p + 6] != 6 {
            None
        } else {
            let ms = p + SDL_DATA_OFFSET + m[p + 5];
            if ms + 6 > m.len() {
                None
            } else {
                Some((ip, m.subrange(ms, ms + 6)))
            }
        }
    }
}

/// Parses a single routing message into its (IPv4, MAC) pair.
pub fn parse_one_msg(msg: &[u8]) -> (r: Option<ArpEntry>)
    ensures
        match rt_msg_spec(msg@) {
            Some((ip, mac)) => r matches Some(e) && e.0@ == ip && e.1@ == mac,
            None => r is None,
        },
{
    let h = RT_MSGHDR_LEN;
    if msg.len() <= h || h + SOCKADDR_IN_LEN > msg.len() {
        return None;
    }
    if msg[h + 1] != DARWIN_AF_INET {
        return None;
    }
    let ip: [u8; 4] = [msg[h + 4], msg[h + 5], msg[h + 6], msg[h + 7]];
    let sin_len: u8 = if msg[h] == 0 {
        SOCKADDR_IN_LEN as u8
    } else {
        msg[h]
    };
    let p = h + sa_size(sin_len);
    if p + SOCKADDR_DL_LEN > msg.len() {
        return None;
    }
    if msg[p + 1] != DARWIN_AF_LINK || msg[p + 6] != 6 {
        return None;
    }
    let ms = p + SDL_DATA_OFFSET + msg[p + 5] as usize;
    if ms + 6 > msg.len() {
        return None;
    }
    let mac: MacAddr = [msg[ms], msg[ms + 1], msg[ms + 2], msg[ms + 3], msg[ms + 4], msg[ms + 5]];
    assert(ip@ =~= msg@.subrange(h + 4, h + 8));
    assert(mac@ =~= msg@.subrange(ms as int, ms + 6));
    Some((ip, mac))
}

/// The usable neighbours in a `NET_RT_FLAGS` payload from `off` on: each
/// message starts with its little-endian 16-bit length; the walk stops at a
/// truncated or undersized message; loopback and all-zero MACs are dropped.
pub open spec fn rt_entries_from(buf: Seq<u8>, off: int) -> Seq<(Seq<u8>, Seq<u8>)>
    decreases buf.len() - off,
{
    if off < 0 || off + RT_MSGHDR_HEAD_LEN > buf.len() {
        seq![]
    } else {
        let ml = buf[off] as int + buf[off + 1] as int * 256;
        if ml < RT_MSGHDR_HEAD_LEN || off + ml > buf.len() {
            seq![]
        } else {
            let rest = rt_entries_from(buf, off + ml);
            match rt_msg_spec(buf.subrange(off, off + ml)) {
                Some((ip, mac)) => if !is_loopback_octets(ip) && !mac_all(mac, 0) {
                    seq![(ip, mac)] + rest
                } else {
                    rest
                },
                None => rest,
            }
        }
    }
}

/// Walks the `NET_RT_FLAGS` payload and extracts every usable
/// `(sockaddr_in, sockaddr_dl)` pair.
pub fn parse_rt_buffer(buf: &[u8]) -> (r: Vec<ArpEntry>)
    ensures
        entries_view(r@) == rt_entries_from(buf@, 0),
{
    let mut out: Vec<ArpEntry> = Vec::new();
    let mut offset: usize = 0;
    while buf.len() - offset >= RT_MSGHDR_HEAD_LEN
        invariant
            offset <= buf@.len(),
            rt_entries_from(buf@, 0) == entries_view(out@) + rt_entries_from(buf@, offset as int),
        decreases buf@.len() - offset,
    {
        let msg_len: usize = buf[offset] as usize + buf[offset + 1] as usize * 256;
        if msg_len < RT_MSGHDR_HEAD_LEN || msg_len > buf.len() - offset {
            assert(rt_entries_from(buf@, offset as int) =~= seq![]);
            assert(rt_entries_from(buf@, 0) =~= entries_view(out@));
            return out;
        }
        let ghost before = out@;
        let parsed = parse_one_msg(&buf[offset..offset + msg_len]);
        match parsed {
            Some((ip, mac)) => {
                if !is_loopback(ip) && !(mac[0] == 0 && mac[1] == 0 && mac[2] == 0 && mac[3] == 0
                    && mac[4] == 0 && mac[5] == 0) {
                    out.push((ip, mac));
                    assert(entries_view(out@) =~= entries_view(before).push((ip@, mac@)));
                }
            },
            None => {},
        }
        assert(rt_entries_from(buf@, 0) =~= entries_view(out@) + rt_entries_from(
            buf@,
            (offset + msg_len) as int,
        ));
        offset = offset + msg_len;
    }
    assert(rt_entries_from(buf@, offset as int) =~= seq![]);
    assert(rt_entries_from(buf@, 0) =~= entries_view(out@));
    out
}

/// Windows `NL_NEIGHBOR_STATE` value of an incomplete entry.
pub const NL_NS_INCOMPLETE: i32 = 1;

/// Windows `NL_NEIGHBOR_STATE` value of an unreachable entry.
pub const NL_NS_UNREACHABLE: i32 = 6;

/// Windows `AF_INET`.
pub const WINDOWS_AF_INET: u16 = 2;

/// The usable neighbour in one `MIB_IPNET_ROW2`, given its state, its
/// physical-address length, its address family, its IPv4 address and the
/// first six bytes of its physical address: nothing for incomplete or
/// unreachable rows, non-Ethernet lengths, other families, loopback, or an
/// all-zero MAC.
pub open spec fn ipnet_row_spec(
    state: i32,
    phys_len: u32,
    family: u16,
    ip: Seq<u8>,
    mac: Seq<u8>,
) -> Option<(Seq<u8>, Seq<u8>)> {
    if state == NL_NS_INCOMPLETE || state == NL_NS_UNREACHABLE || phys_len != 6 || family
        != WINDOWS_AF_INET || is_loopback_octets(ip) || mac_all(mac, 0) {
        None
    } else {
        Some((ip, mac))
    }
}

/// A row is never altered, only kept or dropped, and its state drops it
/// only when it is `NL_NS_INCOMPLETE` or `NL_NS_UNREACHABLE`: in every other
/// state a row with a six-byte physical address, family `AF_INET`, an
/// address outside 127.0.0.0/8 and a MAC with a non-zero byte yields its
/// address and MAC.
pub proof fn lemma_ipnet_row_kept(state: i32, phys_len: u32, family: u16, ip: Seq<u8>, mac: Seq<u8>)
    requires
        ip.len() == 4,
        mac.len() == 6,
    ensures
        ipnet_row_spec(state, phys_len, family, ip, mac) is None || ipnet_row_spec(
            state,
            phys_len,
            family,
            ip,
            mac,
        ) == Some((ip, mac)),
        (state != NL_NS_INCOMPLETE && state != NL_NS_UNREACHABLE && phys_len == 6 && family
            == WINDOWS_AF_INET && ip[0] != 127 && exists|i: int| 0 <= i < 6 && #[trigger] mac[i]
            != 0) ==> ipnet_row_spec(state, phys_len, family, ip, mac) == Some((ip, mac)),
        (state == NL_NS_INCOMPLETE || state == NL_NS_UNREACHABLE) ==> ipnet_row_spec(
            state,
            phys_len,
            family,
            ip,
            mac,
        ) is None,
{
}

/// Decides whether one `GetIpNetTable2` row is a usable IPv4 neighbour.
pub fn ipnet_row_entry(state: i32, phys_len: u32, family: u16, ip: [u8; 4], mac: MacAddr) -> (r:
    Option<ArpEntry>)
    ensures
        match ipnet_row_spec(state, phys_len, family, ip@, mac@) {
            Some((i, m)) => r matches Some(e) && e.0@ == i && e.1@ == m,
            None => r is None,
        },
{
    if state == NL_NS_INCOMPLETE || state == NL_NS_UNREACHABLE {
        return None;
    }
    if phys_len != 6 {
        return None;
    }
    if family != WINDOWS_AF_INET {
        return None;
    }
    if is_loopback(ip) {
        return None;
    }
    if mac[0] == 0 && mac[1] == 0 && mac[2] == 0 && mac[3] == 0 && mac[4] == 0 && mac[5] == 0 {
        return None;
    }
    Some((ip, mac))
}


/// The byte of the lower-case hexadecimal digit for `d < 16`.
pub open spec fn hex_byte(d: nat) -> u8 {
    if d < 10 {
        (48 + d) as u8
    } else {
        (87 + d) as u8
    }
}

proof fn lemma_hex_digit(d: nat)
    requires
        d < 16,
    ensures
        hex_digit_char(d) as u8 == hex_byte(d),
        digit_value(hex_byte(d), 16) == Some(d),
        hex_byte(d) != 58,
        hex_byte(d) != 43,
        '\0' <= hex_digit_char(d) <= '\u{7f}',
{
}

proof fn lemma_hex_pair(v: u8)
    ensures
        hex_padded(v as nat, 2) == seq![hex_digit_char(v as nat / 16), hex_digit_char(v as nat % 16)],
        parse_radix_spec(seq![hex_byte(v as nat / 16), hex_byte(v as nat % 16)], 16, 255) == Some(
            v as nat,
        ),
{
    reveal_with_fuel(hex_padded, 3);
    assert(hex_padded(v as nat, 2) =~= seq![hex_digit_char(v as nat / 16), hex_digit_char(v as nat % 16)]);
    let s = seq![hex_byte(v as nat / 16), hex_byte(v as nat % 16)];
    lemma_hex_digit(v as nat / 16);
    lemma_hex_digit(v as nat % 16);
    reveal_with_fuel(digits_value, 3);
    assert(s.drop_last() =~= seq![hex_byte(v as nat / 16)]);
    assert(s.drop_last().drop_last() =~= Seq::<u8>::empty());
    assert(digits_value(s, 16) == (v as nat / 16) * 16 + v as nat % 16);
}

/// The two hex-digit bytes of `v`.
pub open spec fn hex_pair_bytes(v: u8) -> Seq<u8> {
    seq![hex_byte(v as nat / 16), hex_byte(v as nat % 16)]
}

/// The bytes of a MAC's text.
pub open spec fn mac_text_bytes(m: Seq<u8>) -> Seq<u8> {
    hex_pair_bytes(m[0]) + seq![58u8] + hex_pair_bytes(m[1]) + seq![58u8] + hex_pair_bytes(m[2])
        + seq![58u8] + hex_pair_bytes(m[3]) + seq![58u8] + hex_pair_bytes(m[4]) + seq![58u8]
        + hex_pair_bytes(m[5])
}

/// The characters of a MAC's text, listed one by one.
pub open spec fn mac_text_listed(m: Seq<u8>) -> Seq<char> {
    seq![hex_digit_char(m[0] as nat / 16), hex_digit_char(m[0] as nat % 16), ':', hex_digit_char(m[1] as nat / 16), hex_digit_char(m[1] as nat % 16), ':', hex_digit_char(m[2] as nat / 16), hex_digit_char(m[2] as nat % 16), ':', hex_digit_char(m[3] as nat / 16), hex_digit_char(m[3] as nat % 16), ':', hex_digit_char(m[4] as nat / 16), hex_digit_char(m[4] as nat % 16), ':', hex_digit_char(m[5] as nat / 16), hex_digit_char(m[5] as nat % 16)]
}

/// The bytes of a MAC's text, listed one by one.
pub open spec fn mac_bytes_listed(m: Seq<u8>) -> Seq<u8> {
    seq![hex_byte(m[0] as nat / 16), hex_byte(m[0] as nat % 16), 58u8, hex_byte(m[1] as nat / 16), hex_byte(m[1] as nat % 16), 58u8, hex_byte(m[2] as nat / 16), hex_byte(m[2] as nat % 16), 58u8, hex_byte(m[3] as nat / 16), hex_byte(m[3] as nat % 16), 58u8, hex_byte(m[4] as nat / 16), hex_byte(m[4] as nat % 16), 58u8, hex_byte(m[5] as nat / 16), hex_byte(m[5] as nat % 16)]
}

proof fn lemma_mac_text_listed(m: Seq<u8>)
    requires
        m.len() == 6,
    ensures
        mac_text(m) == mac_text_listed(m),
{
    lemma_hex_pair(m[0]);
    lemma_hex_pair(m[1]);
    lemma_hex_pair(m[2]);
    lemma_hex_pair(m[3]);
    lemma_hex_pair(m[4]);
    lemma_hex_pair(m[5]);
    assert(mac_text(m) =~= mac_text_listed(m));
}

proof fn lemma_mac_bytes_listed(m: Seq<u8>)
    requires
        m.len() == 6,
    ensures
        mac_bytes_listed(m) == mac_text_bytes(m),
{
    assert(mac_bytes_listed(m) =~= mac_text_bytes(m));
}

#[verifier::spinoff_prover]
proof fn lemma_mac_listed_ascii(m: Seq<u8>)
    requires
        m.len() == 6,
    ensures
        is_ascii_chars(mac_text_listed(m)),
        forall|i: int| 0 <= i < 17 ==> #[trigger] mac_text_listed(m)[i] as u8 == mac_bytes_listed(m)[i],
{
    let l = mac_text_listed(m);
    let want = mac_bytes_listed(m);
    lemma_hex_digit(m[0] as nat / 16);
    lemma_hex_digit(m[0] as nat % 16);
    lemma_hex_digit(m[1] as nat / 16);
    lemma_hex_digit(m[1] as nat % 16);
    lemma_hex_digit(m[2] as nat / 16);
    lemma_hex_digit(m[2] as nat % 16);
    lemma_hex_digit(m[3] as nat / 16);
    lemma_hex_digit(m[3] as nat % 16);
    lemma_hex_digit(m[4] as nat / 16);
    lemma_hex_digit(m[4] as nat % 16);
    lemma_hex_digit(m[5] as nat / 16);
    lemma_hex_digit(m[5] as nat % 16);
    assert forall|i: int| 0 <= i < 17 implies '\0' <= #[trigger] l[i] <= '\u{7f}' && l[i] as u8
        == want[i] by {
    }
}

#[verifier::spinoff_prover]
#[verifier::rlimit(40)]
proof fn lemma_mac_text_bytes(m: Seq<u8>)
    requires
        m.len() == 6,
    ensures
        encode_utf8(mac_text(m)) == mac_text_bytes(m),
{
    lemma_mac_text_listed(m);
    lemma_mac_bytes_listed(m);
    lemma_mac_listed_ascii(m);
    let l = mac_text_listed(m);
    let want = mac_bytes_listed(m);
    is_ascii_chars_encode_utf8(l);
    let e = encode_utf8(l);
    assert forall|i: int| 0 <= i < 17 implies e[i] == want[i] by {
        assert(l[i] as u8 == e[i]);
        assert(l[i] as u8 == want[i]);
    }
    assert(e =~= want);
}

#[verifier::spinoff_prover]
proof fn lemma_mac_text_split(m: Seq<u8>)
    requires
        m.len() == 6,
    ensures
        split_on(mac_text_bytes(m), 58) == seq![
            hex_pair_bytes(m[0]),
            hex_pair_bytes(m[1]),
            hex_pair_bytes(m[2]),
            hex_pair_bytes(m[3]),
            hex_pair_bytes(m[4]),
            hex_pair_bytes(m[5]),
        ],
{
    let b = mac_text_bytes(m);
    assert(b.len() == 17);
    assert forall|i: int| 0 <= i < 17 && i % 3 != 2 implies #[trigger] b[i] != 58 by {
        let k = i / 3;
        lemma_hex_digit(m[k] as nat / 16);
        lemma_hex_digit(m[k] as nat % 16);
    }
    assert forall|j: int| 0 <= j < 15 && j % 3 == 0 implies #[trigger] find_from(b, j, 58) == j + 2 by {
        reveal_with_fuel(find_from, 4);
        assert(b[j] != 58 && b[j + 1] != 58);
        assert(b[j + 2] == 58);
    }
    assert(find_from(b, 15, 58) == 17) by {
        reveal_with_fuel(find_from, 4);
        assert(b[15] != 58 && b[16] != 58);
    }
    assert(split_from(b, 15, 58) =~= seq![b.subrange(15, 17)]);
    assert(split_from(b, 12, 58) =~= seq![b.subrange(12, 14)] + split_from(b, 15, 58));
    assert(split_from(b, 9, 58) =~= seq![b.subrange(9, 11)] + split_from(b, 12, 58));
    assert(split_from(b, 6, 58) =~= seq![b.subrange(6, 8)] + split_from(b, 9, 58));
    assert(split_from(b, 3, 58) =~= seq![b.subrange(3, 5)] + split_from(b, 6, 58));
    assert(split_from(b, 0, 58) =~= seq![b.subrange(0, 2)] + split_from(b, 3, 58));
    assert(b.subrange(0, 2) =~= hex_pair_bytes(m[0]));
    assert(b.subrange(3, 5) =~= hex_pair_bytes(m[1]));
    assert(b.subrange(6, 8) =~= hex_pair_bytes(m[2]));
    assert(b.subrange(9, 11) =~= hex_pair_bytes(m[3]));
    assert(b.subrange(12, 14) =~= hex_pair_bytes(m[4]));
    assert(b.subrange(15, 17) =~= hex_pair_bytes(m[5]));
}

/// Reading back the text of any MAC gives that MAC: `parse_mac_colons`
/// inverts `format_mac`.
#[verifier::spinoff_prover]
#[verifier::rlimit(40)]
pub proof fn lemma_mac_text_roundtrip(mac: MacAddr)
    ensures
        parse_mac_spec(encode_utf8(mac_text(mac@))) == Some(mac@),
{
    let m = mac@;
    lemma_mac_text_bytes(m);
    lemma_mac_text_split(m);
    let parts = split_on(mac_text_bytes(m), 58);
    assert forall|i: int| 0 <= i < 6 implies parse_radix_spec(#[trigger] parts[i], 16, 255) == Some(
        m[i] as nat,
    ) by {
        lemma_hex_pair(m[i]);
    }
    let r = Seq::new(6, |i: int| parse_radix_spec(parts[i], 16, 255)->0 as u8);
    assert(r =~= m);
}

} // verus!
