//! IPv4 network arithmetic, CIDR parsing, and the subnets that the local
//! interfaces sit on.

use vstd::prelude::*;
use crate::collect::{dedup_first, dedup_strings, texts};
use crate::error::DafyddError;
use crate::net::ipv4::{ipv4_text, ipv4_u32, is_link_local_octets, is_loopback_octets, octets_to_u32, push_ipv4, u32_octets, u32_to_octets};
use crate::text::{decimal, push_decimal};

verus! {

/// `2^k`: how many addresses a block with `k` host bits spans.
pub open spec fn block_size(k: nat) -> nat
    decreases k,
{
    if k == 0 {
        1
    } else {
        2 * block_size((k - 1) as nat)
    }
}

/// Blocks grow with their number of host bits.
pub proof fn lemma_block_size_grows(a: nat, b: nat)
    requires
        a < b,
    ensures
        block_size(a) < block_size(b),
    decreases b,
{
    if a < b - 1 {
        lemma_block_size_grows(a, (b - 1) as nat);
    }
    lemma_block_size_positive((b - 1) as nat);
}

/// Every block holds at least one address.
pub proof fn lemma_block_size_positive(k: nat)
    ensures
        block_size(k) >= 1,
    decreases k,
{
    if k > 0 {
        lemma_block_size_positive((k - 1) as nat);
    }
}

/// `2^(a+b) = 2^a * 2^b`.
pub proof fn lemma_block_size_adds(a: nat, b: nat)
    ensures
        block_size(a + b) == block_size(a) * block_size(b),
    decreases b,
{
    if b == 0 {
        assert(block_size(a) * 1 == block_size(a)) by (nonlinear_arith);
    } else {
        lemma_block_size_adds(a, (b - 1) as nat);
        assert((a + b - 1) as nat == a + (b - 1) as nat);
        assert(block_size(a + b) == 2 * block_size((a + b - 1) as nat));
        assert(block_size(a) * block_size(b) == block_size(a) * (2 * block_size((b - 1) as nat)));
        assert(block_size(a) * (2 * block_size((b - 1) as nat)) == 2 * (block_size(a) * block_size(
            (b - 1) as nat,
        ))) by (nonlinear_arith);
    }
}

/// Number of IPv4 addresses: `2^32`.
pub open spec fn ipv4_space() -> nat {
    0x1_0000_0000
}

/// A block is never larger than the whole address space.
proof fn lemma_block_size_le_space(p: nat)
    requires
        p <= 32,
    ensures
        block_size((32 - p) as nat) <= ipv4_space(),
{
    lemma_block_32();
    if p > 0 {
        lemma_block_size_grows((32 - p) as nat, 32);
    }
}

pub proof fn lemma_block_32()
    ensures
        block_size(32) == ipv4_space(),
{
    reveal_with_fuel(block_size, 33);
}

/// The netmask of a /`p` network, as a number: `p` one bits, then zeros.
pub open spec fn netmask_value(p: nat) -> nat {
    (ipv4_space() - block_size((32 - p) as nat)) as nat
}

/// The first address of the /`p` network that holds `addr`.
pub open spec fn network_of(addr: nat, p: nat) -> nat {
    (addr - addr % block_size((32 - p) as nat)) as nat
}

/// The last address of the /`p` network that holds `addr`.
pub open spec fn broadcast_of(addr: nat, p: nat) -> nat {
    (network_of(addr, p) + block_size((32 - p) as nat) - 1) as nat
}

/// Whether `x` lies in the /`p` network that holds `addr`.
pub open spec fn net_contains(addr: nat, p: nat, x: nat) -> bool {
    network_of(addr, p) <= x <= broadcast_of(addr, p)
}

/// `2^128`.
pub proof fn lemma_block_128()
    ensures
        block_size(128) == 0x1_0000_0000_0000_0000_0000_0000_0000_0000,
        block_size(64) == 0x1_0000_0000_0000_0000,
{
    lemma_block_32();
    lemma_block_size_adds(32, 32);
    assert(block_size(64) == 0x1_0000_0000 * 0x1_0000_0000);
    lemma_block_size_adds(64, 64);
    assert(block_size(128) == block_size(64) * block_size(64));
    assert(block_size(128) == 0x1_0000_0000_0000_0000 * 0x1_0000_0000_0000_0000);
}

/// Netmasks of different prefix lengths differ.
pub proof fn lemma_netmask_injective(p: nat, q: nat)
    requires
        p <= 32,
        q <= 32,
        p != q,
    ensures
        netmask_value(p) != netmask_value(q),
{
    lemma_block_32();
    lemma_block_size_le_space(p);
    lemma_block_size_le_space(q);
    if p < q {
        lemma_block_size_grows((32 - q) as nat, (32 - p) as nat);
    } else {
        lemma_block_size_grows((32 - p) as nat, (32 - q) as nat);
    }
}

/// The prefix length a netmask spells, if it is one at all.
pub open spec fn mask_prefix(mask: nat) -> Option<nat> {
    if exists|p: nat| p <= 32 && #[trigger] netmask_value(p) == mask {
        Some(choose|p: nat| p <= 32 && #[trigger] netmask_value(p) == mask)
    } else {
        None
    }
}

/// `ipnet::Ipv4Net::with_netmask`, of which only the prefix length is
/// kept: it is the number of leading one bits of the mask, and the call
/// fails when a one bit follows a zero bit. So the result is `Some(p)`
/// exactly when the mask is the /`p` netmask.
#[verifier::external_body]
fn netmask_prefix(ip: [u8; 4], netmask: [u8; 4]) -> (r: Option<u8>)
    ensures
        match r {
            Some(p) => p <= 32 && netmask_value(p as nat) == ipv4_u32(netmask@),
            None => forall|p: nat| p <= 32 ==> #[trigger] netmask_value(p) != ipv4_u32(netmask@),
        },
{
    let ip = core::net::Ipv4Addr::from(ip);
    let mask = core::net::Ipv4Addr::from(netmask);
    ipnet::Ipv4Net::with_netmask(ip, mask).ok().map(|n| n.prefix_len())
}

/// The prefix length of a netmask, through `Ipv4Net::with_netmask`.
pub fn prefix_of_netmask(ip: [u8; 4], netmask: [u8; 4]) -> (r: Option<u8>)
    ensures
        match r {
            Some(p) => mask_prefix(ipv4_u32(netmask@)) == Some(p as nat),
            None => mask_prefix(ipv4_u32(netmask@)) is None,
        },
{
    let r = netmask_prefix(ip, netmask);
    proof {
        let m = ipv4_u32(netmask@);
        match r {
            Some(p) => {
                assert(netmask_value(p as nat) == m);
                let c = choose|q: nat| q <= 32 && #[trigger] netmask_value(q) == m;
                if c != p as nat {
                    lemma_netmask_injective(c, p as nat);
                }
            },
            None => {},
        }
    }
    r
}

/// `2^k` for `k <= 32`.
fn block_size_u64(k: u8) -> (r: u64)
    requires
        k <= 32,
    ensures
        r == block_size(k as nat),
        1 <= r <= ipv4_space(),
{
    let mut r: u64 = 1;
    let mut i: u8 = 0;
    proof {
        lemma_block_size_grows(0, 32);
    }
    while i < k
        invariant
            i <= k <= 32,
            r == block_size(i as nat),
            block_size(i as nat) <= block_size(32),
        decreases k - i,
    {
        proof {
            if i + 1 < 32 {
                lemma_block_size_grows((i + 1) as nat, 32);
            }
            lemma_block_32();
        }
        r = r * 2;
        i = i + 1;
    }
    proof {
        lemma_block_size_positive(k as nat);
        lemma_block_32();
    }
    r
}

/// Whole blocks tile the address space: the block holding an address ends
/// inside the space.
proof fn lemma_network_in_space(addr: nat, p: nat)
    requires
        addr < ipv4_space(),
        p <= 32,
    ensures
        network_of(addr, p) <= addr,
        network_of(addr, p) + block_size((32 - p) as nat) <= ipv4_space(),
        network_of(addr, p) % block_size((32 - p) as nat) == 0,
{
    let k = (32 - p) as nat;
    let b = block_size(k) as int;
    lemma_block_size_positive(k);
    lemma_block_size_adds(k, p);
    lemma_block_32();
    assert(k + p == 32);
    let c = block_size(p) as int;
    assert(b * c == ipv4_space());
    let q = addr as int / b;
    let r = addr as int % b;
    assert(addr as int == b * q + r && 0 <= r < b) by (nonlinear_arith)
        requires
            b >= 1,
            q == addr as int / b,
            r == addr as int % b,
    ;
    assert(q < c) by (nonlinear_arith)
        requires
            addr as int == b * q + r,
            0 <= r,
            addr < b * c,
            b >= 1,
    ;
    assert(b * q + b <= b * c) by (nonlinear_arith)
        requires
            q < c,
            b >= 1,
    ;
    assert((b * q) % b == 0) by (nonlinear_arith)
        requires
            b >= 1,
    ;
}


/// The aligned block of `2^k` addresses that holds `addr` lies inside a
/// space of `2^bits` addresses.
pub proof fn lemma_block_floor(addr: nat, k: nat, bits: nat)
    requires
        k <= bits,
        addr < block_size(bits),
    ensures
        block_size(k) >= 1,
        addr % block_size(k) <= addr,
        (addr - addr % block_size(k)) + block_size(k) <= block_size(bits),
{
    let b = block_size(k) as int;
    lemma_block_size_positive(k);
    lemma_block_size_adds(k, (bits - k) as nat);
    assert(k + (bits - k) as nat == bits);
    let c = block_size((bits - k) as nat) as int;
    assert(b * c == block_size(bits));
    let q = addr as int / b;
    let r = addr as int % b;
    assert(addr as int == b * q + r && 0 <= r < b) by (nonlinear_arith)
        requires
            b >= 1,
            q == addr as int / b,
            r == addr as int % b,
    ;
    assert(q >= 0) by (nonlinear_arith)
        requires
            addr as int == b * q + r,
            0 <= r < b,
            addr >= 0,
            b >= 1,
    ;
    assert(q < c) by (nonlinear_arith)
        requires
            addr as int == b * q + r,
            0 <= r,
            addr < b * c,
            b >= 1,
    ;
    assert(b * q + b <= b * c) by (nonlinear_arith)
        requires
            q < c,
            b >= 1,
    ;
}

/// The network address of `addr` in a /`p` network.
pub fn network_address(addr: u32, p: u8) -> (r: u32)
    requires
        p <= 32,
    ensures
        r == network_of(addr as nat, p as nat),
{
    let b = block_size_u64(32 - p);
    let a = addr as u64;
    let m = a % b;
    proof {
        lemma_network_in_space(addr as nat, p as nat);
        assert(m <= a) by (nonlinear_arith)
            requires
                m == a % b,
                b >= 1,
        ;
    }
    (a - m) as u32
}

/// The last address of the /`p` network holding `addr`.
pub fn broadcast_address(addr: u32, p: u8) -> (r: u32)
    requires
        p <= 32,
    ensures
        r == broadcast_of(addr as nat, p as nat),
{
    let b = block_size_u64(32 - p);
    let a = addr as u64;
    let m = a % b;
    proof {
        lemma_network_in_space(addr as nat, p as nat);
        assert(m <= a) by (nonlinear_arith)
            requires
                m == a % b,
                b >= 1,
        ;
    }
    (a - m + b - 1) as u32
}

/// Whether `x` lies in the /`p` network holding `addr`.
pub fn network_contains(addr: u32, p: u8, x: u32) -> (r: bool)
    requires
        p <= 32,
    ensures
        r == net_contains(addr as nat, p as nat, x as nat),
{
    let lo = network_address(addr, p);
    let hi = broadcast_address(addr, p);
    lo <= x && x <= hi
}

/// A subnet in CIDR form: address as written and prefix length.
#[derive(Debug, Clone, Copy)]
pub enum IpNetwork {
    V4 { addr: [u8; 4], prefix: u8 },
    V6 { addr6: [u8; 16], prefix6: u8 },
}

/// What `ipnet::IpNet`'s `FromStr` makes of a text: the family (`true` for
/// IPv4), the address octets as written and the prefix length; `None` when
/// the text is not a network in CIDR notation.
pub uninterp spec fn ip_net_parse(text: Seq<char>) -> Option<(bool, Seq<u8>, u8)>;

/// The network as the plain values that `ip_net_parse` speaks of.
pub open spec fn ip_network_parts(n: IpNetwork) -> (bool, Seq<u8>, u8) {
    match n {
        IpNetwork::V4 { addr, prefix } => (true, addr@, prefix),
        IpNetwork::V6 { addr6, prefix6 } => (false, addr6@, prefix6),
    }
}

/// Whether the prefix length fits the family.
pub open spec fn ip_network_wf(n: IpNetwork) -> bool {
    match n {
        IpNetwork::V4 { prefix, .. } => prefix <= 32,
        IpNetwork::V6 { prefix6, .. } => prefix6 <= 128,
    }
}

/// `"…".parse::<ipnet::IpNet>()`. The parser builds the network through
/// `Ipv4Net::new` / `Ipv6Net::new`, so the prefix length fits the family;
/// its error displays as `invalid IP address syntax`.
#[verifier::external_body]
fn parse_ip_net(text: &str) -> (r: Result<IpNetwork, String>)
    ensures
        match r {
            Ok(n) => ip_net_parse(text@) == Some(ip_network_parts(n)) && ip_network_wf(n),
            Err(e) => ip_net_parse(text@) is None && e@ == "invalid IP address syntax"@,
        },
{
    match text.parse::<ipnet::IpNet>() {
        Ok(ipnet::IpNet::V4(n)) => Ok(IpNetwork::V4 { addr: n.addr().octets(), prefix: n.prefix_len() }),
        Ok(ipnet::IpNet::V6(n)) => Ok(IpNetwork::V6 { addr6: n.addr().octets(), prefix6: n.prefix_len() }),
        Err(e) => Err(e.to_string()),
    }
}

/// Parses one CIDR subnet; a text that is not one is an invalid subnet.
pub fn parse_subnet(text: &str) -> (r: Result<IpNetwork, DafyddError>)
    ensures
        match r {
            Ok(n) => ip_net_parse(text@) == Some(ip_network_parts(n)) && ip_network_wf(n),
            Err(e) => ip_net_parse(text@) is None && (e matches DafyddError::InvalidSubnet(m) && m@
                == "invalid IP address syntax"@),
        },
{
    match parse_ip_net(text) {
        Ok(n) => Ok(n),
        Err(e) => Err(DafyddError::InvalidSubnet(e)),
    }
}


/// The IPv4 part of an interface address, as enumeration reports it; the
/// address of an IPv6 interface is not needed.
#[derive(Debug, Clone, Copy)]
pub enum InterfaceAddr {
    V4 { ip: [u8; 4], netmask: [u8; 4] },
    V6,
}

/// The CIDR text of a network: `a.b.c.d/p`.
pub open spec fn cidr_text(network: nat, p: nat) -> Seq<char> {
    ipv4_text(u32_octets(network as u32)) + seq!['/'] + decimal(p)
}

/// The subnet an interface is swept as: none for IPv6, loopback or
/// link-local (169.254.0.0/16) addresses, or a netmask that is not one;
/// otherwise the interface's network, widened to no more than
/// `max_prefix`'s width (a /16 interface under a /24 limit is swept as the
/// /24 around its address; narrower networks are kept as they are).
pub open spec fn interface_subnet(a: InterfaceAddr, max_prefix: nat) -> Option<Seq<char>> {
    match a {
        InterfaceAddr::V6 => None,
        InterfaceAddr::V4 { ip, netmask } => if is_loopback_octets(ip@) || is_link_local_octets(
            ip@,
        ) {
            None
        } else {
            match mask_prefix(ipv4_u32(netmask@)) {
                None => None,
                Some(p) => {
                    let q = if p < max_prefix {
                        max_prefix
                    } else {
                        p
                    };
                    Some(cidr_text(network_of(ipv4_u32(ip@), q), q))
                },
            }
        },
    }
}

/// An interface on a /`p` network (its netmask spelling /`p`), with an
/// address outside loopback and link-local, is swept as the network of its
/// address at a width `q`: `q` is `max_prefix` when the interface's network
/// is wider than that, and `p` otherwise; so `q` is never below either, and
/// the swept network holds the interface's address.
pub proof fn lemma_interface_subnet_width(ip: [u8; 4], netmask: [u8; 4], p: nat, max_prefix: nat)
    requires
        p <= 32,
        max_prefix <= 32,
        netmask_value(p) == ipv4_u32(netmask@),
        ip[0] != 127,
        !(ip[0] == 169 && ip[1] == 254),
    ensures
        exists|q: nat|
            #![trigger network_of(ipv4_u32(ip@), q)]
            interface_subnet(InterfaceAddr::V4 { ip, netmask }, max_prefix) == Some(
                cidr_text(network_of(ipv4_u32(ip@), q), q),
            ) && p <= q && max_prefix <= q && (p < max_prefix ==> q == max_prefix) && (max_prefix
                <= p ==> q == p) && net_contains(ipv4_u32(ip@), q, ipv4_u32(ip@)),
{
    let m = ipv4_u32(netmask@);
    let c = choose|c: nat| c <= 32 && #[trigger] netmask_value(c) == m;
    if c != p {
        lemma_netmask_injective(c, p);
    }
    assert(mask_prefix(m) == Some(p));
    let q = if p < max_prefix {
        max_prefix
    } else {
        p
    };
    let a = ipv4_u32(ip@);
    lemma_block_size_positive((32 - q) as nat);
    let b = block_size((32 - q) as nat);
    assert(0 <= a % b < b && a % b <= a) by (nonlinear_arith)
        requires
            b >= 1,
    ;
    assert(network_of(a, q) == a - a % b);
    assert(network_of(a, q) <= a <= broadcast_of(a, q));
}

/// The subnets of a list of interfaces, in order, repeats included.
pub open spec fn interface_subnets(ifaces: Seq<InterfaceAddr>, max_prefix: nat) -> Seq<Seq<char>>
    decreases ifaces.len(),
{
    if ifaces.len() == 0 {
        Seq::empty()
    } else {
        let rest = interface_subnets(ifaces.drop_last(), max_prefix);
        match interface_subnet(ifaces.last(), max_prefix) {
            Some(t) => rest.push(t),
            None => rest,
        }
    }
}

/// The message for a subnet width outside `/16..=/32`.
pub open spec fn prefix_range_message(p: nat) -> Seq<char> {
    "subnet prefix /"@ + decimal(p) + " out of range; must be /16..=/32 (max 65k hosts)"@
}

/// The subnet one interface is swept as.
pub fn interface_subnet_text(a: &InterfaceAddr, max_prefix: u8) -> (r: Option<String>)
    requires
        max_prefix <= 32,
    ensures
        match r {
            Some(t) => interface_subnet(*a, max_prefix as nat) == Some(t@),
            None => interface_subnet(*a, max_prefix as nat) is None,
        },
{
    match a {
        InterfaceAddr::V6 => None,
        InterfaceAddr::V4 { ip, netmask } => {
            if ip[0] == 127 || (ip[0] == 169 && ip[1] == 254) {
                return None;
            }
            match prefix_of_netmask(*ip, *netmask) {
                None => None,
                Some(p) => {
                    let q = if p < max_prefix {
                        max_prefix
                    } else {
                        p
                    };
                    let ipn = octets_to_u32(*ip);
                    let net = network_address(ipn, q);
                    let mut t = String::new();
                    push_ipv4(&mut t, u32_to_octets(net));
                    t.push('/');
                    push_decimal(&mut t, q as u64);
                    assert(t@ =~= cidr_text(network_of(ipv4_u32(ip@), q as nat), q as nat));
                    Some(t)
                },
            }
        },
    }
}

/// The deduplicated CIDR subnets of the local interfaces, for a sweep that
/// widens no interface beyond /`max_prefix`. `interfaces` is `None` when
/// they could not be enumerated: there is then nothing to sweep.
pub fn local_subnets(max_prefix: u8, interfaces: Option<Vec<InterfaceAddr>>) -> (r: Result<
    Vec<String>,
    DafyddError,
>)
    ensures
        !(16 <= max_prefix <= 32) ==> (r matches Err(DafyddError::InvalidSubnet(m)) && m@
            == prefix_range_message(max_prefix as nat)),
        16 <= max_prefix <= 32 ==> (r matches Ok(v) && texts(v@) == match interfaces {
            None => Seq::empty(),
            Some(i) => dedup_first(interface_subnets(i@, max_prefix as nat)),
        }),
{
    if max_prefix < 16 || max_prefix > 32 {
        let mut m = "subnet prefix /".to_owned();
        push_decimal(&mut m, max_prefix as u64);
        let m = m.concat(" out of range; must be /16..=/32 (max 65k hosts)");
        return Err(DafyddError::InvalidSubnet(m));
    }
    let ifaces = match interfaces {
        None => {
            let v: Vec<String> = Vec::new();
            assert(texts(v@) =~= Seq::<Seq<char>>::empty());
            return Ok(v);
        },
        Some(i) => i,
    };
    let mut cands: Vec<String> = Vec::new();
    let mut k: usize = 0;
    while k < ifaces.len()
        invariant
            k <= ifaces@.len(),
            16 <= max_prefix <= 32,
            texts(cands@) == interface_subnets(ifaces@.take(k as int), max_prefix as nat),
        decreases ifaces@.len() - k,
    {
        let t = interface_subnet_text(&ifaces[k], max_prefix);
        proof {
            assert(ifaces@.take(k + 1).drop_last() =~= ifaces@.take(k as int));
            assert(ifaces@.take(k + 1).last() == ifaces@[k as int]);
        }
        match t {
            Some(t) => {
                let ghost before = cands@;
                cands.push(t);
                assert(texts(cands@) =~= texts(before).push(cands@.last()@));
            },
            None => {},
        }
        k = k + 1;
    }
    assert(ifaces@.take(ifaces@.len() as int) =~= ifaces@);
    Ok(dedup_strings(cands))
}


/// The local subnets are listed once each, and a text is listed exactly
/// when some interface is swept as that subnet.
pub proof fn lemma_local_subnets_distinct(ifaces: Seq<InterfaceAddr>, max_prefix: nat, t: Seq<char>)
    ensures
        dedup_first(interface_subnets(ifaces, max_prefix)).no_duplicates(),
        dedup_first(interface_subnets(ifaces, max_prefix)).contains(t) <==> interface_subnets(
            ifaces,
            max_prefix,
        ).contains(t),
{
    crate::collect::lemma_dedup_first_distinct(interface_subnets(ifaces, max_prefix));
    crate::collect::lemma_dedup_first_contains(interface_subnets(ifaces, max_prefix), t);
}
} // verus!
