//! ICMP echo: the Internet checksum, echo-request construction and
//! echo-reply recognition.

use vstd::prelude::*;

verus! {

/// ICMP type of an echo request.
pub const ICMP_ECHO_REQUEST: u8 = 8;

/// ICMP type of an echo reply.
pub const ICMP_ECHO_REPLY: u8 = 0;

/// Length of an IPv4 header without options.
pub const IP_HEADER_LEN: usize = 20;

/// Length of an ICMP echo header.
pub const ICMP_HEADER_LEN: usize = 8;

/// Largest input the checksum accumulates without overflowing its 32-bit sum.
pub const MAX_CHECKSUM_LEN: usize = 131074;

/// Sum of the first `k` big-endian 16-bit words of `d`.
pub open spec fn pair_sum(d: Seq<u8>, k: nat) -> nat
    decreases k,
{
    if k == 0 {
        0
    } else {
        pair_sum(d, (k - 1) as nat) + d[2 * k - 2] as nat * 256 + d[2 * k - 1] as nat
    }
}

/// Sum of all big-endian 16-bit words of `d`; an odd trailing byte counts as
/// the high byte of a word whose low byte is zero.
pub open spec fn word_sum(d: Seq<u8>) -> nat {
    pair_sum(d, d.len() / 2) + if d.len() % 2 == 1 {
        d[d.len() - 1] as nat * 256
    } else {
        0
    }
}

/// End-around-carry fold of a sum into 16 bits.
pub open spec fn fold16(s: nat) -> nat
    decreases s,
{
    if s < 65536 {
        s
    } else {
        fold16((s % 65536 + s / 65536) as nat)
    }
}

/// The Internet checksum (RFC 1071) of `d`: the ones' complement of the
/// ones'-complement sum of its 16-bit words.
pub open spec fn internet_checksum(d: Seq<u8>) -> u16 {
    (65535 - fold16(word_sum(d))) as u16
}

/// High byte of a 16-bit value.
pub open spec fn hi(v: u16) -> u8 {
    (v / 256) as u8
}

/// Low byte of a 16-bit value.
pub open spec fn lo(v: u16) -> u8 {
    (v % 256) as u8
}

pub proof fn lemma_pair_sum_bound(d: Seq<u8>, k: nat)
    ensures
        pair_sum(d, k) <= k * 65535,
    decreases k,
{
    if k > 0 {
        lemma_pair_sum_bound(d, (k - 1) as nat);
    }
}

pub proof fn lemma_fold16_step(s: nat)
    requires
        s >= 65536,
    ensures
        (s % 65536 + s / 65536) < s,
        (s % 65536 + s / 65536) % 65535 == s % 65535,
        (s % 65536 + s / 65536) > 0,
{
    assert((s % 65536 + s / 65536) < s) by (nonlinear_arith)
        requires
            s >= 65536,
    ;
    assert((s % 65536 + s / 65536) % 65535 == s % 65535) by (nonlinear_arith)
        requires
            s >= 65536,
    ;
    assert((s % 65536 + s / 65536) > 0) by (nonlinear_arith)
        requires
            s >= 65536,
    ;
}

/// The fold lands in 16 bits, keeps the value modulo 65535, and keeps a
/// non-zero sum non-zero.
pub proof fn lemma_fold16(s: nat)
    ensures
        fold16(s) < 65536,
        fold16(s) % 65535 == s % 65535,
        s > 0 ==> fold16(s) > 0,
    decreases s,
{
    if s >= 65536 {
        lemma_fold16_step(s);
        lemma_fold16((s % 65536 + s / 65536) as nat);
    }
}

/// Adding the checksum of a word sum to that sum makes the folded total
/// all ones: a receiver that sums a packet carrying its checksum gets a
/// verification checksum of zero.
pub proof fn lemma_sum_with_checksum_folds_to_ones(s: nat)
    ensures
        fold16((s + (65535 - fold16(s))) as nat) == 65535,
{
    lemma_fold16(s);
    let f = fold16(s);
    let t = (s + (65535 - f)) as nat;
    lemma_fold16(t);
    assert(t > 0);
    assert(t % 65535 == 0) by (nonlinear_arith)
        requires
            f % 65535 == s % 65535,
            f < 65536,
            t == s + (65535 - f),
    ;
    assert(fold16(t) == 65535) by (nonlinear_arith)
        requires
            fold16(t) < 65536,
            fold16(t) > 0,
            fold16(t) % 65535 == t % 65535,
            t % 65535 == 0,
    ;
}

/// Writing `c` big-endian into a zeroed word slot at even offset `k` raises
/// the word sum by exactly `c`.
pub proof fn lemma_pair_sum_insert(d: Seq<u8>, k: int, c: u16, m: nat)
    requires
        k % 2 == 0,
        0 <= k,
        k + 1 < d.len(),
        d[k] == 0,
        d[k + 1] == 0,
        2 * m <= d.len(),
    ensures
        pair_sum(d.update(k, hi(c)).update(k + 1, lo(c)), m) == pair_sum(d, m) + if k / 2 < m {
            c as nat
        } else {
            0
        },
    decreases m,
{
    let e = d.update(k, hi(c)).update(k + 1, lo(c));
    if m > 0 {
        lemma_pair_sum_insert(d, k, c, (m - 1) as nat);
        assert(hi(c) as nat * 256 + lo(c) as nat == c as nat);
        if k == 2 * m - 2 {
            assert(e[2 * m - 2] == hi(c) && e[2 * m - 1] == lo(c));
        } else {
            assert(e[2 * m - 2] == d[2 * m - 2] && e[2 * m - 1] == d[2 * m - 1]);
        }
    }
}

/// The word sum grows by `c` when `c` fills a zeroed, even-aligned slot.
pub proof fn lemma_word_sum_insert(d: Seq<u8>, k: int, c: u16)
    requires
        k % 2 == 0,
        0 <= k,
        k + 1 < d.len(),
        d[k] == 0,
        d[k + 1] == 0,
    ensures
        word_sum(d.update(k, hi(c)).update(k + 1, lo(c))) == word_sum(d) + c,
{
    let e = d.update(k, hi(c)).update(k + 1, lo(c));
    lemma_pair_sum_insert(d, k, c, d.len() / 2);
    if d.len() % 2 == 1 {
        assert(e[d.len() - 1] == d[d.len() - 1]);
    }
}

/// A buffer whose zeroed, even-aligned checksum slot is filled with its own
/// checksum verifies: its checksum is then zero.
pub proof fn lemma_checksum_insert_verifies(d: Seq<u8>, k: int)
    requires
        k % 2 == 0,
        0 <= k,
        k + 1 < d.len(),
        d[k] == 0,
        d[k + 1] == 0,
    ensures
        internet_checksum(
            d.update(k, hi(internet_checksum(d))).update(k + 1, lo(internet_checksum(d))),
        ) == 0,
{
    let ck = internet_checksum(d);
    lemma_fold16(word_sum(d));
    lemma_word_sum_insert(d, k, ck);
    lemma_sum_with_checksum_folds_to_ones(word_sum(d));
}

/// Computes the Internet checksum of `data`.
pub fn checksum(data: &[u8]) -> (ck: u16)
    requires
        data@.len() <= MAX_CHECKSUM_LEN,
    ensures
        ck == internet_checksum(data@),
{
    let n = data.len();
    let mut sum: u32 = 0;
    let mut i: usize = 0;
    while i + 1 < n
        invariant
            n == data@.len(),
            n <= MAX_CHECKSUM_LEN,
            i % 2 == 0,
            i <= n,
            sum == pair_sum(data@, (i / 2) as nat),
        decreases n - i,
    {
        proof {
            lemma_pair_sum_bound(data@, (i / 2) as nat);
            assert((i / 2) as nat * 65535 + 65535 <= 65537 * 65535) by (nonlinear_arith)
                requires
                    i / 2 <= 65536,
            ;
        }
        let w: u32 = data[i] as u32 * 256 + data[i + 1] as u32;
        assert(pair_sum(data@, ((i + 2) / 2) as nat) == pair_sum(data@, (i / 2) as nat)
            + data@[i as int] as nat * 256 + data@[i + 1] as nat);
        sum = sum + w;
        i = i + 2;
    }
    assert(i / 2 == n / 2);
    proof {
        lemma_pair_sum_bound(data@, (n / 2) as nat);
        assert((n / 2) as nat * 65535 <= 65537 * 65535) by (nonlinear_arith)
            requires
                n / 2 <= 65537,
        ;
        if n % 2 == 1 {
            assert((n / 2) as nat * 65535 <= 65536 * 65535) by (nonlinear_arith)
                requires
                    n / 2 <= 65536,
            ;
        }
    }
    if n % 2 == 1 {
        sum = sum + data[n - 1] as u32 * 256;
    }
    assert(sum == word_sum(data@));
    let ghost total: nat = sum as nat;
    while sum >> 16 != 0
        invariant
            fold16(sum as nat) == fold16(total),
        decreases sum,
    {
        let ghost old_sum = sum;
        assert(sum >> 16 == sum / 65536 && sum & 0xffff == sum % 65536) by (bit_vector);
        assert(sum >> 16 != 0 ==> sum >= 65536) by (bit_vector);
        proof {
            lemma_fold16_step(sum as nat);
        }
        sum = (sum & 0xffff) + (sum >> 16);
        assert(fold16(old_sum as nat) == fold16(sum as nat));
    }
    assert(sum >> 16 == 0 ==> sum < 65536) by (bit_vector);
    assert(fold16(sum as nat) == sum as nat);
    (65535 - sum) as u16
}


/// Splits a 16-bit value into its big-endian bytes.
pub fn be_bytes16(v: u16) -> (r: (u8, u8))
    ensures
        r.0 == hi(v),
        r.1 == lo(v),
        r.0 as nat * 256 + r.1 as nat == v as nat,
{
    assert((v >> 8) as u8 == v / 256 && (v & 0xff) as u8 == v % 256) by (bit_vector);
    ((v >> 8) as u8, (v & 0xff) as u8)
}

/// The echo-request header before its checksum is filled in.
pub open spec fn echo_request_unsummed(id: u16, seq: u16) -> Seq<u8> {
    seq![ICMP_ECHO_REQUEST, 0u8, 0u8, 0u8, hi(id), lo(id), hi(seq), lo(seq)]
}

/// The echo-request header: type 8, code 0, checksum, identifier, sequence.
pub open spec fn echo_request_packet(id: u16, seq: u16) -> Seq<u8> {
    let ck = internet_checksum(echo_request_unsummed(id, seq));
    seq![ICMP_ECHO_REQUEST, 0u8, hi(ck), lo(ck), hi(id), lo(id), hi(seq), lo(seq)]
}

/// Builds an ICMP echo-request header for `id` and `seq`.
pub fn echo_request(id: u16, seq: u16) -> (pkt: [u8; ICMP_HEADER_LEN])
    ensures
        pkt@ == echo_request_packet(id, seq),
{
    let (ih, il) = be_bytes16(id);
    let (sh, sl) = be_bytes16(seq);
    let blank: [u8; ICMP_HEADER_LEN] = [ICMP_ECHO_REQUEST, 0u8, 0, 0, ih, il, sh, sl];
    assert(blank@ =~= echo_request_unsummed(id, seq));
    let ck = checksum(blank.as_slice());
    let (ch, cl) = be_bytes16(ck);
    let pkt: [u8; ICMP_HEADER_LEN] = [ICMP_ECHO_REQUEST, 0u8, ch, cl, ih, il, sh, sl];
    assert(pkt@ =~= echo_request_packet(id, seq));
    pkt
}

/// Every echo request carries a valid checksum: the receiver's checksum over
/// the whole header is zero.
pub proof fn lemma_echo_request_checksum_verifies(id: u16, seq: u16)
    ensures
        internet_checksum(echo_request_packet(id, seq)) == 0,
{
    let u = echo_request_unsummed(id, seq);
    let ck = internet_checksum(u);
    lemma_checksum_insert_verifies(u, 2);
    assert(u.update(2, hi(ck)).update(3, lo(ck)) =~= echo_request_packet(id, seq));
}

/// The source of an echo reply to our `id`, read from a raw IPv4 datagram of
/// `n` received bytes: `None` unless the datagram holds a full IPv4 header
/// and echo header, the ICMP type is echo reply, the identifier is `id` and
/// the source is not a loopback address.
pub open spec fn echo_reply_source_spec(buf: Seq<u8>, n: nat, id: u16) -> Option<Seq<u8>> {
    if n < IP_HEADER_LEN + ICMP_HEADER_LEN || buf.len() < IP_HEADER_LEN + ICMP_HEADER_LEN {
        None
    } else if buf[20] == ICMP_ECHO_REPLY && buf[24] as nat * 256 + buf[25] as nat == id as nat
        && buf[12] != 127 {
        Some(buf.subrange(12, 16))
    } else {
        None
    }
}

/// Recognises an echo reply addressed to `id` in a received raw datagram.
pub fn echo_reply_source(buf: &[u8], n: usize, id: u16) -> (r: Option<[u8; 4]>)
    ensures
        match echo_reply_source_spec(buf@, n as nat, id) {
            Some(ip) => r matches Some(a) && a@ == ip,
            None => r is None,
        },
{
    if n < IP_HEADER_LEN + ICMP_HEADER_LEN || buf.len() < IP_HEADER_LEN + ICMP_HEADER_LEN {
        return None;
    }
    let src: [u8; 4] = [buf[12], buf[13], buf[14], buf[15]];
    let reply_id: u16 = buf[24] as u16 * 256 + buf[25] as u16;
    if buf[20] == ICMP_ECHO_REPLY && reply_id == id && !(src[0] == 127) {
        assert(src@ =~= buf@.subrange(12, 16));
        Some(src)
    } else {
        None
    }
}


/// Identifier and sequence number of the echo request to the `i`-th host:
/// the low 16 bits of the process id, and `i` modulo 2^16.
pub fn echo_ids(pid: u32, i: usize) -> (r: (u16, u16))
    ensures
        r.0 == pid % 65536,
        r.1 == i % 65536,
{
    ((pid % 65536) as u16, (i % 65536) as u16)
}

/// The replying hosts after `ip` answers: a host that was pinged is
/// recorded once, in order of its first reply; a reply from any other host
/// is ignored.
pub open spec fn after_reply(alive: Seq<Seq<u8>>, probed: Seq<Seq<u8>>, ip: Seq<u8>) -> Seq<Seq<u8>> {
    if probed.contains(ip) && !alive.contains(ip) {
        alive.push(ip)
    } else {
        alive
    }
}

/// Whether `ip` is in the list.
fn listed(v: &[[u8; 4]], ip: [u8; 4]) -> (r: bool)
    ensures
        r == crate::net::responders::v4_view(v@).contains(ip@),
{
    let mut i: usize = 0;
    while i < v.len()
        invariant
            i <= v@.len(),
            forall|j: int| 0 <= j < i ==> (#[trigger] v@[j])@ != ip@,
        decreases v@.len() - i,
    {
        if crate::text::bytes_eq(&v[i], &ip) {
            assert(crate::net::responders::v4_view(v@)[i as int] == ip@);
            return true;
        }
        i = i + 1;
    }
    proof {
        let w = crate::net::responders::v4_view(v@);
        if w.contains(ip@) {
            let j = choose|j: int| 0 <= j < w.len() && w[j] == ip@;
            assert(v@[j]@ == ip@);
        }
    }
    false
}

/// Records a host that answered the echo request, if it is one of the hosts
/// that were pinged.
pub fn record_alive(alive: &mut Vec<[u8; 4]>, probed: &[[u8; 4]], ip: [u8; 4])
    ensures
        crate::net::responders::v4_view(final(alive)@) == after_reply(
            crate::net::responders::v4_view(old(alive)@),
            crate::net::responders::v4_view(probed@),
            ip@,
        ),
{
    if !listed(probed, ip) || listed(alive, ip) {
        return;
    }
    let ghost before = alive@;
    alive.push(ip);
    assert(crate::net::responders::v4_view(alive@) =~= crate::net::responders::v4_view(before).push(
        ip@,
    ));
}

/// The hosts recorded from replies were all pinged, and each is recorded
/// once.
pub proof fn lemma_replies_from_probed(alive: Seq<Seq<u8>>, probed: Seq<Seq<u8>>, ip: Seq<u8>)
    requires
        alive.no_duplicates(),
        forall|i: int| 0 <= i < alive.len() ==> probed.contains(#[trigger] alive[i]),
    ensures
        after_reply(alive, probed, ip).no_duplicates(),
        forall|i: int|
            0 <= i < after_reply(alive, probed, ip).len() ==> probed.contains(
                #[trigger] after_reply(alive, probed, ip)[i],
            ),
{
    let r = after_reply(alive, probed, ip);
    if probed.contains(ip) && !alive.contains(ip) {
        assert forall|i: int| 0 <= i < r.len() implies probed.contains(#[trigger] r[i]) by {
            if i < alive.len() {
                assert(r[i] == alive[i]);
            }
        }
        assert forall|i: int, j: int| 0 <= i < r.len() && 0 <= j < r.len() && i != j implies r[i]
            != r[j] by {
            if i == alive.len() {
                assert(r[j] == alive[j]);
            } else if j == alive.len() {
                assert(r[i] == alive[i]);
            } else {
                assert(r[i] == alive[i] && r[j] == alive[j]);
            }
        }
    }
}

} // verus!
