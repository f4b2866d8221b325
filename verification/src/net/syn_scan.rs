//! Raw TCP SYN scan: SYN packet construction with IPv4 and TCP checksums,
//! and recognition of the SYN-ACK replies that mark an open port.

use vstd::prelude::*;
use crate::net::icmp::{
    be_bytes16, checksum, hi, internet_checksum, lemma_checksum_insert_verifies, lo,
    MAX_CHECKSUM_LEN,
};

verus! {

/// Length of the IPv4 header the scanner writes (no options).
pub const IP_HDR_LEN: usize = 20;

/// Length of the TCP header the scanner writes (no options).
pub const TCP_HDR_LEN: usize = 20;

/// Length of a SYN probe: IPv4 header followed by TCP header.
pub const PKT_LEN: usize = 40;

/// TCP flags byte of a SYN.
pub const TCP_SYN: u8 = 0x02;

/// TCP flags byte of a SYN-ACK.
pub const TCP_SYN_ACK: u8 = 0x12;

/// Computes the Internet checksum of `data`; used for both the IPv4 header
/// and the TCP segment with its pseudo-header.
pub fn ones_complement_sum(data: &[u8]) -> (ck: u16)
    requires
        data@.len() <= MAX_CHECKSUM_LEN,
    ensures
        ck == internet_checksum(data@),
{
    checksum(data)
}

/// The TCP pseudo-header: source, destination, zero, protocol 6, and the
/// segment length (taken modulo 2^16).
pub open spec fn tcp_pseudo_header(src: [u8; 4], dst: [u8; 4], len: nat) -> Seq<u8> {
    let l = (len % 65536) as u16;
    src@ + dst@ + seq![0u8, 6u8, hi(l), lo(l)]
}

/// Checksum of a TCP segment `tcp_hdr` sent from `src` to `dst`.
pub fn tcp_checksum(src: [u8; 4], dst: [u8; 4], tcp_hdr: &[u8]) -> (ck: u16)
    requires
        tcp_hdr@.len() + 12 <= MAX_CHECKSUM_LEN,
    ensures
        ck == internet_checksum(tcp_pseudo_header(src, dst, tcp_hdr@.len()) + tcp_hdr@),
{
    let len = tcp_hdr.len();
    let l16: u16 = (len % 65536) as u16;
    let (lh, ll) = be_bytes16(l16);
    let mut combined: Vec<u8> = Vec::new();
    combined.push(src[0]);
    combined.push(src[1]);
    combined.push(src[2]);
    combined.push(src[3]);
    combined.push(dst[0]);
    combined.push(dst[1]);
    combined.push(dst[2]);
    combined.push(dst[3]);
    combined.push(0u8);
    combined.push(6u8);
    combined.push(lh);
    combined.push(ll);
    let mut i: usize = 0;
    while i < len
        invariant
            len == tcp_hdr@.len(),
            i <= len,
            combined@ == tcp_pseudo_header(src, dst, len as nat) + tcp_hdr@.subrange(0, i as int),
        decreases len - i,
    {
        combined.push(tcp_hdr[i]);
        assert(tcp_hdr@.subrange(0, i + 1) =~= tcp_hdr@.subrange(0, i as int).push(tcp_hdr@[i as int]));
        i = i + 1;
    }
    assert(tcp_hdr@.subrange(0, len as int) =~= tcp_hdr@);
    ones_complement_sum(combined.as_slice())
}

/// Big-endian bytes of a 32-bit value.
pub open spec fn be32(v: u32) -> Seq<u8> {
    seq![(v / 16777216) as u8, ((v / 65536) % 256) as u8, ((v / 256) % 256) as u8, (v % 256) as u8]
}

/// The IPv4 header of a SYN probe before its checksum is filled in:
/// version 4 / IHL 5, total length 40, DF, TTL 64, protocol TCP.
pub open spec fn syn_ip_header_unsummed(src: [u8; 4], dst: [u8; 4]) -> Seq<u8> {
    seq![0x45u8, 0u8, 0u8, 40u8, 0u8, 0u8, 0x40u8, 0u8, 64u8, 6u8, 0u8, 0u8] + src@ + dst@
}

/// The IPv4 header of a SYN probe.
pub open spec fn syn_ip_header(src: [u8; 4], dst: [u8; 4]) -> Seq<u8> {
    let u = syn_ip_header_unsummed(src, dst);
    let ck = internet_checksum(u);
    u.update(10, hi(ck)).update(11, lo(ck))
}

/// The TCP header of a SYN probe before its checksum is filled in: ports,
/// sequence number, zero acknowledgement, data offset 5, SYN, window 65535.
pub open spec fn syn_tcp_header_unsummed(src_port: u16, dst_port: u16, seq_no: u32) -> Seq<u8> {
    seq![hi(src_port), lo(src_port), hi(dst_port), lo(dst_port)] + be32(seq_no) + seq![
        0u8,
        0u8,
        0u8,
        0u8,
        0x50u8,
        TCP_SYN,
        0xffu8,
        0xffu8,
        0u8,
        0u8,
        0u8,
        0u8,
    ]
}

/// The TCP header of a SYN probe, its checksum covering the pseudo-header.
pub open spec fn syn_tcp_header(
    src: [u8; 4],
    dst: [u8; 4],
    src_port: u16,
    dst_port: u16,
    seq_no: u32,
) -> Seq<u8> {
    let u = syn_tcp_header_unsummed(src_port, dst_port, seq_no);
    let ck = internet_checksum(tcp_pseudo_header(src, dst, 20) + u);
    u.update(16, hi(ck)).update(17, lo(ck))
}

/// A complete SYN probe.
pub open spec fn syn_packet(
    src: [u8; 4],
    dst: [u8; 4],
    src_port: u16,
    dst_port: u16,
    seq_no: u32,
) -> Seq<u8> {
    syn_ip_header(src, dst) + syn_tcp_header(src, dst, src_port, dst_port, seq_no)
}

/// Builds the raw IPv4 + TCP SYN probe from `src_ip:src_port` to
/// `dst_ip:dst_port` with sequence number `seq_no`.
pub fn build_syn(
    src_ip: [u8; 4],
    dst_ip: [u8; 4],
    src_port: u16,
    dst_port: u16,
    seq_no: u32,
) -> (pkt: [u8; PKT_LEN])
    ensures
        pkt@ == syn_packet(src_ip, dst_ip, src_port, dst_port, seq_no),
{
    let ip_blank: [u8; IP_HDR_LEN] = [
        0x45,
        0,
        0,
        40,
        0,
        0,
        0x40,
        0,
        64,
        6,
        0,
        0,
        src_ip[0],
        src_ip[1],
        src_ip[2],
        src_ip[3],
        dst_ip[0],
        dst_ip[1],
        dst_ip[2],
        dst_ip[3],
    ];
    assert(ip_blank@ =~= syn_ip_header_unsummed(src_ip, dst_ip));
    let ip_ck = ones_complement_sum(ip_blank.as_slice());
    let (ich, icl) = be_bytes16(ip_ck);
    let (sph, spl) = be_bytes16(src_port);
    let (dph, dpl) = be_bytes16(dst_port);
    assert((seq_no >> 24) as u8 == seq_no / 16777216 && ((seq_no >> 16) & 0xff) as u8 == (seq_no
        / 65536) % 256 && ((seq_no >> 8) & 0xff) as u8 == (seq_no / 256) % 256 && (seq_no & 0xff) as u8
        == seq_no % 256) by (bit_vector);
    let s0 = (seq_no >> 24) as u8;
    let s1 = ((seq_no >> 16) & 0xff) as u8;
    let s2 = ((seq_no >> 8) & 0xff) as u8;
    let s3 = (seq_no & 0xff) as u8;
    let tcp_blank: [u8; TCP_HDR_LEN] = [
        sph,
        spl,
        dph,
        dpl,
        s0,
        s1,
        s2,
        s3,
        0,
        0,
        0,
        0,
        0x50,
        TCP_SYN,
        0xff,
        0xff,
        0,
        0,
        0,
        0,
    ];
    assert(tcp_blank@ =~= syn_tcp_header_unsummed(src_port, dst_port, seq_no));
    let tcp_ck = tcp_checksum(src_ip, dst_ip, tcp_blank.as_slice());
    let (tch, tcl) = be_bytes16(tcp_ck);
    let pkt: [u8; PKT_LEN] = [
        0x45,
        0,
        0,
        40,
        0,
        0,
        0x40,
        0,
        64,
        6,
        ich,
        icl,
        src_ip[0],
        src_ip[1],
        src_ip[2],
        src_ip[3],
        dst_ip[0],
        dst_ip[1],
        dst_ip[2],
        dst_ip[3],
        sph,
        spl,
        dph,
        dpl,
        s0,
        s1,
        s2,
        s3,
        0,
        0,
        0,
        0,
        0x50,
        TCP_SYN,
        0xff,
        0xff,
        tch,
        tcl,
        0,
        0,
    ];
    assert(syn_ip_header(src_ip, dst_ip) =~= pkt@.subrange(0, 20));
    assert(syn_tcp_header(src_ip, dst_ip, src_port, dst_port, seq_no) =~= pkt@.subrange(20, 40));
    assert(pkt@ =~= syn_packet(src_ip, dst_ip, src_port, dst_port, seq_no));
    pkt
}

/// Every SYN probe carries a valid IPv4 header checksum and a valid TCP
/// checksum: both verify to zero at the receiver.
pub proof fn lemma_syn_checksums_verify(
    src: [u8; 4],
    dst: [u8; 4],
    src_port: u16,
    dst_port: u16,
    seq_no: u32,
)
    ensures
        internet_checksum(syn_packet(src, dst, src_port, dst_port, seq_no).subrange(0, 20)) == 0,
        internet_checksum(
            tcp_pseudo_header(src, dst, 20) + syn_packet(
                src,
                dst,
                src_port,
                dst_port,
                seq_no,
            ).subrange(20, 40),
        ) == 0,
{
    let p = syn_packet(src, dst, src_port, dst_port, seq_no);
    let ui = syn_ip_header_unsummed(src, dst);
    lemma_checksum_insert_verifies(ui, 10);
    assert(p.subrange(0, 20) =~= syn_ip_header(src, dst));
    let ut = tcp_pseudo_header(src, dst, 20) + syn_tcp_header_unsummed(src_port, dst_port, seq_no);
    lemma_checksum_insert_verifies(ut, 28);
    let ck = internet_checksum(ut);
    assert(ut.update(28, hi(ck)).update(29, lo(ck)) =~= tcp_pseudo_header(src, dst, 20)
        + syn_tcp_header(src, dst, src_port, dst_port, seq_no));
    assert(p.subrange(20, 40) =~= syn_tcp_header(src, dst, src_port, dst_port, seq_no));
}


/// Base of the source-port block, offset by the low 12 bits of the process id
/// so that concurrent scanners pick distinct blocks.
pub fn syn_base_port(pid: u32) -> (base: u16)
    ensures
        base == 40000 + pid % 4096,
{
    assert((pid & 0x0fff) == pid % 4096) by (bit_vector);
    let off: u16 = (pid & 0x0fff) as u16;
    40000u16.wrapping_add(off)
}

/// Source port assigned to the `i`-th target: `base + i` modulo 2^16.
pub open spec fn syn_src_port(base: u16, i: nat) -> u16 {
    ((base as nat + i % 65536) % 65536) as u16
}

/// Sequence number sent to the `i`-th target: `7919 * i` modulo 2^32.
pub open spec fn syn_seq_no(i: nat) -> u32 {
    (((i % 4294967296) * 7919) % 4294967296) as u32
}

/// Source port and sequence number of the probe sent to the `i`-th target.
pub fn syn_probe_ids(base: u16, i: usize) -> (r: (u16, u32))
    ensures
        r.0 == syn_src_port(base, i as nat),
        r.1 == syn_seq_no(i as nat),
{
    let i16: u16 = (i % 65536) as u16;
    let wide: u64 = i as u64;
    let i32v: u32 = (wide % 4294967296) as u32;
    let port = base.wrapping_add(i16);
    let seq_no = i32v.wrapping_mul(7919);
    (port, seq_no)
}

/// Reads a SYN-ACK out of a raw IPv4 datagram of `n` received bytes: the
/// sender's address and the destination port (our probe's source port).
/// `None` for short datagrams, a header length that leaves no room for a
/// TCP header, or any flags other than exactly SYN+ACK.
pub open spec fn syn_ack_reply_spec(buf: Seq<u8>, n: nat) -> Option<(Seq<u8>, u16)> {
    let ihl = (buf[0] % 16) as int * 4;
    if n < IP_HDR_LEN + TCP_HDR_LEN {
        None
    } else if n < ihl + TCP_HDR_LEN {
        None
    } else if buf[ihl + 13] != TCP_SYN_ACK {
        None
    } else {
        Some((buf.subrange(12, 16), (buf[ihl + 2] as nat * 256 + buf[ihl + 3] as nat) as u16))
    }
}

/// Recognises a SYN-ACK in a received raw datagram.
pub fn syn_ack_reply(buf: &[u8], n: usize) -> (r: Option<([u8; 4], u16)>)
    requires
        n <= buf@.len(),
    ensures
        match syn_ack_reply_spec(buf@, n as nat) {
            Some((ip, port)) => r matches Some((a, p)) && a@ == ip && p == port,
            None => r is None,
        },
{
    if n < IP_HDR_LEN + TCP_HDR_LEN {
        return None;
    }
    let b0 = buf[0];
    assert((b0 & 0x0f) == b0 % 16) by (bit_vector);
    let ihl: usize = ((b0 & 0x0f) as usize) * 4;
    if n < ihl + TCP_HDR_LEN {
        return None;
    }
    if buf[ihl + 13] != TCP_SYN_ACK {
        return None;
    }
    let port: u16 = buf[ihl + 2] as u16 * 256 + buf[ihl + 3] as u16;
    let src: [u8; 4] = [buf[12], buf[13], buf[14], buf[15]];
    assert(src@ =~= buf@.subrange(12, 16));
    Some((src, port))
}

/// The last target index below `k` whose probe used source port `port`.
pub open spec fn last_target_with_port(base: u16, k: nat, port: u16) -> Option<nat>
    decreases k,
{
    if k == 0 {
        None
    } else if syn_src_port(base, (k - 1) as nat) == port {
        Some((k - 1) as nat)
    } else {
        last_target_with_port(base, (k - 1) as nat, port)
    }
}

/// The target a SYN-ACK answers: the probe that used `port` as its source
/// port (the last one, should ports have wrapped), provided the reply came
/// from that target's address.
pub open spec fn syn_reply_target_spec(
    targets: Seq<([u8; 4], u16)>,
    base: u16,
    port: u16,
    src: Seq<u8>,
) -> Option<([u8; 4], u16)> {
    match last_target_with_port(base, targets.len(), port) {
        Some(i) => if targets[i as int].0@ == src {
            Some(targets[i as int])
        } else {
            None
        },
        None => None,
    }
}

/// Maps a SYN-ACK back to the scanned `(address, port)` it answers.
pub fn syn_reply_target(
    targets: &[([u8; 4], u16)],
    base: u16,
    port: u16,
    src: [u8; 4],
) -> (r: Option<([u8; 4], u16)>)
    ensures
        r == syn_reply_target_spec(targets@, base, port, src@),
{
    let mut k = targets.len();
    while k > 0
        invariant
            k <= targets@.len(),
            last_target_with_port(base, targets@.len(), port) == last_target_with_port(
                base,
                k as nat,
                port,
            ),
        decreases k,
    {
        let (p, _) = syn_probe_ids(base, k - 1);
        if p == port {
            let t = targets[k - 1];
            let a = t.0;
            if a[0] == src[0] && a[1] == src[1] && a[2] == src[2] && a[3] == src[3] {
                assert(a@ =~= src@);
                return Some(t);
            } else {
                assert(a@ != src@) by {
                    if a@ == src@ {
                        assert(a@[0] == src@[0] && a@[1] == src@[1] && a@[2] == src@[2] && a@[3]
                            == src@[3]);
                    }
                }
                return None;
            }
        }
        k = k - 1;
    }
    None
}

/// The open (address, port) pairs after one more SYN-ACK: each pair once,
/// in order of its first answer.
pub open spec fn after_open(open: Seq<(Seq<u8>, u16)>, t: (Seq<u8>, u16)) -> Seq<(Seq<u8>, u16)> {
    if open.contains(t) {
        open
    } else {
        open.push(t)
    }
}

/// The plain values of a list of (address, port) pairs.
pub open spec fn pairs_view(v: Seq<([u8; 4], u16)>) -> Seq<(Seq<u8>, u16)> {
    v.map_values(|t: ([u8; 4], u16)| (t.0@, t.1))
}

/// Records an (address, port) pair that answered with a SYN-ACK.
pub fn record_open(open: &mut Vec<([u8; 4], u16)>, t: ([u8; 4], u16))
    ensures
        pairs_view(final(open)@) == after_open(pairs_view(old(open)@), (t.0@, t.1)),
{
    let mut i: usize = 0;
    while i < open.len()
        invariant
            i <= open@.len(),
            forall|j: int| 0 <= j < i ==> ((#[trigger] open@[j]).0@, open@[j].1) != (t.0@, t.1),
        decreases open@.len() - i,
    {
        if open[i].1 == t.1 && crate::text::bytes_eq(&open[i].0, &t.0) {
            assert(pairs_view(open@)[i as int] == (t.0@, t.1));
            return;
        }
        i = i + 1;
    }
    proof {
        let v = pairs_view(open@);
        if v.contains((t.0@, t.1)) {
            let j = choose|j: int| 0 <= j < v.len() && v[j] == (t.0@, t.1);
            assert((open@[j].0@, open@[j].1) == (t.0@, t.1));
        }
    }
    let ghost before = open@;
    open.push(t);
    assert(pairs_view(open@) =~= pairs_view(before).push((t.0@, t.1)));
}

} // verus!
