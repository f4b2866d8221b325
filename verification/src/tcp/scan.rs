//! TCP probe targets and matches: socket address text, response
//! acceptance, the priority lists, tagging and merging of matches.

use vstd::prelude::*;
use crate::collect::dedup_first;
use crate::error::DafyddError;
use crate::net::arp::{ArpEntry, MacAddr, format_mac, mac_text};
use crate::net::ipv4::{ipv4_text, ipv4_u32, lemma_socket_v4_reads_back, octets_to_u32, parse_socket_v4, push_ipv4, socket_v4_address, u32_octets, u32_to_octets};
use vstd::utf8::encode_utf8;
pub use crate::tcp::subnet::local_subnets;
use crate::tcp::subnet::{IpNetwork, ip_net_parse, ip_network_parts, ip_network_wf, net_contains, network_address, network_contains, network_of, parse_subnet};
use crate::text::{contains_bytes, contains_run, decimal, push_decimal};
use crate::types::{DeviceMatch, DeviceMatchView, InfoMap, Transport, opt_bytes};

verus! {

/// The IP part of a socket address. An IPv6 address carries its scope id.
#[derive(Debug, Clone, Copy)]
pub enum HostAddr {
    V4([u8; 4]),
    V6([u8; 16], u32),
}

/// A TCP endpoint: address and port.
#[derive(Debug, Clone, Copy)]
pub struct Endpoint {
    pub host: HostAddr,
    pub port: u16,
}

/// Whether two byte arrays hold the same bytes.
fn same_octets<const N: usize>(a: &[u8; N], b: &[u8; N]) -> (r: bool)
    ensures
        r == (a@ == b@),
{
    let mut i: usize = 0;
    while i < N
        invariant
            i <= N,
            a@.len() == N,
            b@.len() == N,
            forall|j: int| 0 <= j < i ==> a@[j] == b@[j],
        decreases N - i,
    {
        if a[i] != b[i] {
            return false;
        }
        i = i + 1;
    }
    assert(a@ =~= b@);
    true
}

/// The endpoint as plain values: family, octets, scope, port.
pub open spec fn endpoint_key(e: Endpoint) -> (bool, Seq<u8>, u32, u16) {
    match e.host {
        HostAddr::V4(a) => (true, a@, 0, e.port),
        HostAddr::V6(a, s) => (false, a@, s, e.port),
    }
}

/// Whether two endpoints are the same address and port.
pub fn endpoint_eq(a: &Endpoint, b: &Endpoint) -> (r: bool)
    ensures
        r == (endpoint_key(*a) == endpoint_key(*b)),
{
    if a.port != b.port {
        return false;
    }
    match (&a.host, &b.host) {
        (HostAddr::V4(x), HostAddr::V4(y)) => same_octets(x, y),
        (HostAddr::V6(x, s), HostAddr::V6(y, t)) => *s == *t && same_octets(x, y),
        _ => false,
    }
}

/// The canonical text `Ipv6Addr`'s `Display` writes for these octets.
pub uninterp spec fn ipv6_text(octets: Seq<u8>) -> Seq<char>;

/// `std::net::Ipv6Addr`'s `to_string`: the canonical (RFC 5952) text of an
/// IPv6 address. The text itself is not spelled out; it is named, as a
/// function of the octets.
#[verifier::external_body]
fn ipv6_to_string(octets: [u8; 16]) -> (s: String)
    ensures
        s@ == ipv6_text(octets@),
{
    core::net::Ipv6Addr::from(octets).to_string()
}

/// The text of an IPv6 socket address given the text of its address:
/// `[v6]:port`, or `[v6%scope]:port` for a non-zero scope.
pub open spec fn v6_socket_text_spec(addr: Seq<char>, scope: u32, port: u16) -> Seq<char> {
    seq!['['] + addr + (if scope == 0 {
        Seq::<char>::empty()
    } else {
        seq!['%'] + decimal(scope as nat)
    }) + seq![']', ':'] + decimal(port as nat)
}

/// The text of an endpoint, as `SocketAddr`'s `Display` writes it:
/// `a.b.c.d:port`, `[v6]:port`, or `[v6%scope]:port` for a non-zero scope.
pub open spec fn endpoint_text_spec(e: Endpoint) -> Seq<char> {
    match e.host {
        HostAddr::V4(a) => ipv4_text(a@) + seq![':'] + decimal(e.port as nat),
        HostAddr::V6(a, scope) => v6_socket_text_spec(ipv6_text(a@), scope, e.port),
    }
}

/// Renders an IPv6 socket address around the text of its address.
pub fn v6_socket_text(addr: &str, scope: u32, port: u16) -> (s: String)
    ensures
        s@ == v6_socket_text_spec(addr@, scope, port),
{
    let mut s = String::new();
    s.push('[');
    s = s.concat(addr);
    if scope != 0 {
        s.push('%');
        push_decimal(&mut s, scope as u64);
    }
    s.push(']');
    s.push(':');
    push_decimal(&mut s, port as u64);
    assert(s@ =~= v6_socket_text_spec(addr@, scope, port));
    s
}

/// Renders an endpoint as text.
pub fn endpoint_text(e: &Endpoint) -> (s: String)
    ensures
        s@ == endpoint_text_spec(*e),
{
    let mut s = String::new();
    match e.host {
        HostAddr::V4(a) => {
            push_ipv4(&mut s, a);
            s.push(':');
            push_decimal(&mut s, e.port as u64);
        },
        HostAddr::V6(a, scope) => {
            let t = ipv6_to_string(a);
            s = v6_socket_text(t.as_str(), scope, e.port);
        },
    }
    s
}

/// The match a TCP probe of `addr` yields: the endpoint text as address,
/// the response if it is non-empty, and `hostname` in the metadata when a
/// hint is given.
pub open spec fn tcp_match_spec(addr: Endpoint, response: Seq<u8>, hint: Option<Seq<char>>) -> DeviceMatchView {
    DeviceMatchView {
        transport: Transport::Tcp,
        address: endpoint_text_spec(addr),
        response: if response.len() == 0 {
            None
        } else {
            Some(response)
        },
        info: match hint {
            Some(h) => Map::empty().insert("hostname"@, h),
            None => Map::empty(),
        },
    }
}

/// Builds the match for a responding (or merely reachable) endpoint.
pub fn build_match(addr: &Endpoint, response: &[u8], hostname_hint: Option<&str>) -> (m: DeviceMatch)
    ensures
        m@ == tcp_match_spec(*addr, response@, match hostname_hint {
            Some(h) => Some(h@),
            None => None,
        }),
{
    let mut info = InfoMap::new();
    let raw_response = if response.len() == 0 {
        None
    } else {
        let mut v: Vec<u8> = Vec::new();
        let mut i: usize = 0;
        while i < response.len()
            invariant
                i <= response@.len(),
                v@ == response@.take(i as int),
            decreases response@.len() - i,
        {
            v.push(response[i]);
            assert(response@.take(i + 1) =~= response@.take(i as int).push(response@[i as int]));
            i = i + 1;
        }
        assert(response@.take(response@.len() as int) =~= response@);
        Some(v)
    };
    match hostname_hint {
        Some(h) => {
            info.insert("hostname".to_owned(), h.to_owned());
        },
        None => {},
    }
    let m = DeviceMatch {
        transport: Transport::Tcp,
        address: endpoint_text(addr),
        response: raw_response,
        info,
    };
    assert(m@.info =~= tcp_match_spec(*addr, response@, match hostname_hint {
        Some(h) => Some(h@),
        None => None,
    }).info);
    m
}

/// What probing an endpoint yields once connected: without a probe
/// command the connection alone is a match (no response recorded); with
/// one, the response must be accepted.
pub open spec fn probe_outcome_spec(addr: Endpoint, probed: bool, response: Seq<u8>, filter: Option<Seq<u8>>, hint: Option<Seq<char>>) -> Option<DeviceMatchView> {
    if !probed {
        Some(tcp_match_spec(addr, Seq::empty(), hint))
    } else if tcp_response_accepted(response, filter) {
        Some(tcp_match_spec(addr, response, hint))
    } else {
        None
    }
}

/// Decides the match for a connected endpoint: `probed` tells whether a
/// probe command was written, `response` is what was read back.
pub fn probe_outcome(
    addr: &Endpoint,
    probed: bool,
    response: &[u8],
    response_filter: Option<&[u8]>,
    hostname_hint: Option<&str>,
) -> (r: Option<DeviceMatch>)
    ensures
        match probe_outcome_spec(*addr, probed, response@, match response_filter {
            Some(f) => Some(f@),
            None => None,
        }, match hostname_hint {
            Some(h) => Some(h@),
            None => None,
        }) {
            Some(v) => r matches Some(m) && m@ == v,
            None => r is None,
        },
{
    if !probed {
        let empty: [u8; 0] = [];
        let m = build_match(addr, &empty, hostname_hint);
        assert(empty@ =~= Seq::<u8>::empty());
        return Some(m);
    }
    if accept_tcp_response(response, response_filter) {
        Some(build_match(addr, response, hostname_hint))
    } else {
        None
    }
}

/// Whether a TCP probe response counts as a match: it must be non-empty,
/// and contain the filter when one is set. An empty filter is contained in
/// every response.
pub open spec fn tcp_response_accepted(response: Seq<u8>, filter: Option<Seq<u8>>) -> bool {
    response.len() > 0 && match filter {
        None => true,
        Some(f) => contains_run(response, f),
    }
}

/// An empty filter accepts every non-empty response.
pub proof fn lemma_empty_filter_accepts(response: Seq<u8>)
    requires
        response.len() > 0,
    ensures
        tcp_response_accepted(response, Some(Seq::empty())),
{
    assert(response.subrange(0, 0 + Seq::<u8>::empty().len() as int) =~= Seq::<u8>::empty());
}

/// Decides whether a TCP probe response is a match.
pub fn accept_tcp_response(response: &[u8], filter: Option<&[u8]>) -> (b: bool)
    ensures
        b == tcp_response_accepted(response@, match filter {
            Some(f) => Some(f@),
            None => None,
        }),
{
    if response.len() == 0 {
        return false;
    }
    match filter {
        None => true,
        Some(f) => contains_bytes(response, f),
    }
}


/// Last octets probed first within each subnet, before the linear sweep:
/// addresses that embedded devices commonly sit on.
pub const PRIORITY_LAST_OCTETS: [u8; 9] = [1, 2, 10, 50, 100, 101, 200, 253, 254];

/// The plain values of a list of endpoints.
pub open spec fn endpoint_keys(v: Seq<Endpoint>) -> Seq<(bool, Seq<u8>, u32, u16)> {
    v.map_values(|e: Endpoint| endpoint_key(e))
}

/// The IPv4 endpoints of one address on each port, in port order.
pub open spec fn port_keys(ip: Seq<u8>, ports: Seq<u16>) -> Seq<(bool, Seq<u8>, u32, u16)> {
    ports.map_values(|p: u16| (true, ip, 0u32, p))
}

/// `s` without the values listed in `excluded`, in order.
pub open spec fn without<A>(s: Seq<A>, excluded: Seq<A>) -> Seq<A>
    decreases s.len(),
{
    if s.len() == 0 {
        Seq::empty()
    } else {
        let rest = without(s.drop_last(), excluded);
        if excluded.contains(s.last()) {
            rest
        } else {
            rest.push(s.last())
        }
    }
}

/// Whether some IPv4 network of the list holds `ip` (an IPv6 network holds
/// no IPv4 address).
pub open spec fn in_some_v4_net(nets: Seq<IpNetwork>, ip: Seq<u8>) -> bool {
    exists|i: int|
        0 <= i < nets.len() && (#[trigger] nets[i] matches IpNetwork::V4 { addr, prefix } && net_contains(
            ipv4_u32(addr@),
            prefix as nat,
            ipv4_u32(ip),
        ))
}

/// ARP-cache endpoints, before deduplication: each cached host that lies in
/// one of the networks, on every port.
pub open spec fn arp_candidates(arp: Seq<ArpEntry>, nets: Seq<IpNetwork>, ports: Seq<u16>) -> Seq<
    (bool, Seq<u8>, u32, u16),
>
    decreases arp.len(),
{
    if arp.len() == 0 {
        Seq::empty()
    } else {
        let rest = arp_candidates(arp.drop_last(), nets, ports);
        if in_some_v4_net(nets, arp.last().0@) {
            rest + port_keys(arp.last().0@, ports)
        } else {
            rest
        }
    }
}

/// The MAC address the ARP cache gives each host that lies in one of the
/// networks; a later entry for the same host wins.
pub open spec fn arp_mac_map(arp: Seq<ArpEntry>, nets: Seq<IpNetwork>) -> Map<Seq<u8>, Seq<u8>>
    decreases arp.len(),
{
    if arp.len() == 0 {
        Map::empty()
    } else {
        let rest = arp_mac_map(arp.drop_last(), nets);
        if in_some_v4_net(nets, arp.last().0@) {
            rest.insert(arp.last().0@, arp.last().1@)
        } else {
            rest
        }
    }
}

/// The MAC map a list of (address, MAC) pairs stands for: a later pair for
/// the same address wins.
pub open spec fn mac_map(v: Seq<ArpEntry>) -> Map<Seq<u8>, Seq<u8>>
    decreases v.len(),
{
    if v.len() == 0 {
        Map::empty()
    } else {
        mac_map(v.drop_last()).insert(v.last().0@, v.last().1@)
    }
}

/// The address with the first three octets of `network` and the last octet
/// `last`.
pub open spec fn with_last_octet(network: Seq<u8>, last: u8) -> Seq<u8> {
    seq![network[0], network[1], network[2], last]
}

/// Whether a heuristic address is probed: it lies in the network and is not
/// the limited broadcast address 255.255.255.255.
pub open spec fn heuristic_ok(addr: Seq<u8>, prefix: nat, cand: Seq<u8>) -> bool {
    net_contains(ipv4_u32(addr), prefix, ipv4_u32(cand)) && cand != seq![255u8, 255u8, 255u8, 255u8]
}

/// Heuristic endpoints of one IPv4 network for the given last octets.
pub open spec fn octet_candidates(addr: Seq<u8>, prefix: nat, lasts: Seq<u8>, ports: Seq<u16>) -> Seq<
    (bool, Seq<u8>, u32, u16),
>
    decreases lasts.len(),
{
    if lasts.len() == 0 {
        Seq::empty()
    } else {
        let rest = octet_candidates(addr, prefix, lasts.drop_last(), ports);
        let cand = with_last_octet(u32_octets(network_of(ipv4_u32(addr), prefix) as u32), lasts.last());
        if heuristic_ok(addr, prefix, cand) {
            rest + port_keys(cand, ports)
        } else {
            rest
        }
    }
}

/// Heuristic endpoints of a list of networks, before deduplication; IPv6
/// networks contribute none.
pub open spec fn heuristic_candidates(nets: Seq<IpNetwork>, ports: Seq<u16>) -> Seq<
    (bool, Seq<u8>, u32, u16),
>
    decreases nets.len(),
{
    if nets.len() == 0 {
        Seq::empty()
    } else {
        let rest = heuristic_candidates(nets.drop_last(), ports);
        match nets.last() {
            IpNetwork::V4 { addr, prefix } => rest + octet_candidates(
                addr@,
                prefix as nat,
                PRIORITY_LAST_OCTETS@,
                ports,
            ),
            IpNetwork::V6 { .. } => rest,
        }
    }
}

/// Appends the endpoints of `ip` on every port.
fn push_port_endpoints(out: &mut Vec<Endpoint>, ip: [u8; 4], ports: &[u16])
    ensures
        endpoint_keys(final(out)@) == endpoint_keys(old(out)@) + port_keys(ip@, ports@),
{
    let ghost start = endpoint_keys(out@);
    let mut k: usize = 0;
    while k < ports.len()
        invariant
            k <= ports@.len(),
            endpoint_keys(out@) == start + port_keys(ip@, ports@.take(k as int)),
        decreases ports@.len() - k,
    {
        let ghost before = out@;
        out.push(Endpoint { host: HostAddr::V4(ip), port: ports[k] });
        proof {
            assert(endpoint_keys(out@) =~= endpoint_keys(before).push(endpoint_key(out@.last())));
            assert(port_keys(ip@, ports@.take(k + 1)) =~= port_keys(ip@, ports@.take(k as int)).push(
                (true, ip@, 0u32, ports@[k as int]),
            ));
            assert(endpoint_keys(out@) =~= start + port_keys(ip@, ports@.take(k + 1)));
        }
        k = k + 1;
    }
    assert(ports@.take(ports@.len() as int) =~= ports@);
}

/// Whether an IPv4 network of the list holds `ip`.
pub fn in_v4_nets(nets: &[IpNetwork], ip: [u8; 4]) -> (r: bool)
    requires
        forall|i: int| 0 <= i < nets@.len() ==> ip_network_wf(#[trigger] nets@[i]),
    ensures
        r == in_some_v4_net(nets@, ip@),
{
    let x = octets_to_u32(ip);
    let mut i: usize = 0;
    while i < nets.len()
        invariant
            i <= nets@.len(),
            x == ipv4_u32(ip@),
            forall|j: int| 0 <= j < nets@.len() ==> ip_network_wf(#[trigger] nets@[j]),
            forall|j: int|
                0 <= j < i ==> !(#[trigger] nets@[j] matches IpNetwork::V4 { addr, prefix }
                    && net_contains(ipv4_u32(addr@), prefix as nat, ipv4_u32(ip@))),
        decreases nets@.len() - i,
    {
        match &nets[i] {
            IpNetwork::V4 { addr, prefix } => {
                let a = octets_to_u32(*addr);
                if network_contains(a, *prefix, x) {
                    return true;
                }
            },
            IpNetwork::V6 { .. } => {},
        }
        i = i + 1;
    }
    false
}

/// Whether an endpoint with these plain values is listed.
pub(crate) fn has_endpoint(v: &[Endpoint], e: &Endpoint) -> (r: bool)
    ensures
        r == endpoint_keys(v@).contains(endpoint_key(*e)),
{
    let mut i: usize = 0;
    while i < v.len()
        invariant
            i <= v@.len(),
            forall|j: int| 0 <= j < i ==> endpoint_key(#[trigger] v@[j]) != endpoint_key(*e),
        decreases v@.len() - i,
    {
        if endpoint_eq(&v[i], e) {
            assert(endpoint_keys(v@)[i as int] == endpoint_key(*e));
            return true;
        }
        i = i + 1;
    }
    proof {
        if endpoint_keys(v@).contains(endpoint_key(*e)) {
            let j = choose|j: int| 0 <= j < endpoint_keys(v@).len() && endpoint_keys(v@)[j] == endpoint_key(*e);
            assert(endpoint_key(v@[j]) != endpoint_key(*e));
        }
    }
    false
}

/// The endpoints of `v` that `excluded` does not list, each once, in order
/// of first occurrence.
pub fn dedup_endpoints(v: &[Endpoint], excluded: &[Endpoint]) -> (r: Vec<Endpoint>)
    ensures
        endpoint_keys(r@) == dedup_first(without(endpoint_keys(v@), endpoint_keys(excluded@))),
{
    let mut out: Vec<Endpoint> = Vec::new();
    let mut i: usize = 0;
    while i < v.len()
        invariant
            i <= v@.len(),
            endpoint_keys(out@) == dedup_first(
                without(endpoint_keys(v@.take(i as int)), endpoint_keys(excluded@)),
            ),
        decreases v@.len() - i,
    {
        let e = v[i];
        let skip = has_endpoint(excluded, &e);
        let seen = has_endpoint(&out, &e);
        proof {
            let ks = endpoint_keys(v@.take(i + 1));
            assert(ks.drop_last() =~= endpoint_keys(v@.take(i as int)));
            assert(ks.last() == endpoint_key(e));
            crate::collect::lemma_dedup_first_push(
                without(endpoint_keys(v@.take(i as int)), endpoint_keys(excluded@)),
                endpoint_key(e),
            );
        }
        if !skip && !seen {
            let ghost before = out@;
            out.push(e);
            assert(endpoint_keys(out@) =~= endpoint_keys(before).push(endpoint_key(e)));
        }
        i = i + 1;
    }
    assert(v@.take(v@.len() as int) =~= v@);
    out
}

/// ARP-cache endpoints before deduplication.
fn arp_candidate_endpoints(nets: &[IpNetwork], ports: &[u16], arp: &[ArpEntry]) -> (r: Vec<Endpoint>)
    requires
        forall|i: int| 0 <= i < nets@.len() ==> ip_network_wf(#[trigger] nets@[i]),
    ensures
        endpoint_keys(r@) == arp_candidates(arp@, nets@, ports@),
{
    let mut out: Vec<Endpoint> = Vec::new();
    let mut i: usize = 0;
    while i < arp.len()
        invariant
            i <= arp@.len(),
            forall|j: int| 0 <= j < nets@.len() ==> ip_network_wf(#[trigger] nets@[j]),
            endpoint_keys(out@) == arp_candidates(arp@.take(i as int), nets@, ports@),
        decreases arp@.len() - i,
    {
        let (ip, _mac) = arp[i];
        proof {
            assert(arp@.take(i + 1).drop_last() =~= arp@.take(i as int));
            assert(arp@.take(i + 1).last() == arp@[i as int]);
        }
        if in_v4_nets(nets, ip) {
            push_port_endpoints(&mut out, ip, ports);
        }
        i = i + 1;
    }
    assert(arp@.take(arp@.len() as int) =~= arp@);
    out
}

/// The (address, MAC) pairs of the ARP-cache hosts that lie in the networks.
fn arp_mac_pairs(nets: &[IpNetwork], arp: &[ArpEntry]) -> (r: Vec<ArpEntry>)
    requires
        forall|i: int| 0 <= i < nets@.len() ==> ip_network_wf(#[trigger] nets@[i]),
    ensures
        mac_map(r@) == arp_mac_map(arp@, nets@),
{
    let mut out: Vec<ArpEntry> = Vec::new();
    let mut i: usize = 0;
    while i < arp.len()
        invariant
            i <= arp@.len(),
            forall|j: int| 0 <= j < nets@.len() ==> ip_network_wf(#[trigger] nets@[j]),
            mac_map(out@) == arp_mac_map(arp@.take(i as int), nets@),
        decreases arp@.len() - i,
    {
        let entry = arp[i];
        proof {
            assert(arp@.take(i + 1).drop_last() =~= arp@.take(i as int));
            assert(arp@.take(i + 1).last() == arp@[i as int]);
        }
        if in_v4_nets(nets, entry.0) {
            let ghost before = out@;
            out.push(entry);
            assert(out@.drop_last() =~= before);
        }
        i = i + 1;
    }
    assert(arp@.take(arp@.len() as int) =~= arp@);
    out
}

/// Heuristic endpoints of one IPv4 network.
fn octet_candidate_endpoints(out: &mut Vec<Endpoint>, addr: [u8; 4], prefix: u8, ports: &[u16])
    requires
        prefix <= 32,
    ensures
        endpoint_keys(final(out)@) == endpoint_keys(old(out)@) + octet_candidates(
            addr@,
            prefix as nat,
            PRIORITY_LAST_OCTETS@,
            ports@,
        ),
{
    let ghost start = endpoint_keys(out@);
    let a = octets_to_u32(addr);
    let net = u32_to_octets(network_address(a, prefix));
    let lasts = PRIORITY_LAST_OCTETS;
    let mut k: usize = 0;
    while k < 9
        invariant
            k <= 9,
            prefix <= 32,
            lasts@ == PRIORITY_LAST_OCTETS@,
            a == ipv4_u32(addr@),
            net@ == u32_octets(network_of(ipv4_u32(addr@), prefix as nat) as u32),
            endpoint_keys(out@) == start + octet_candidates(
                addr@,
                prefix as nat,
                lasts@.take(k as int),
                ports@,
            ),
        decreases 9 - k,
    {
        let cand: [u8; 4] = [net[0], net[1], net[2], lasts[k]];
        let c = octets_to_u32(cand);
        proof {
            assert(lasts@.take(k + 1).drop_last() =~= lasts@.take(k as int));
            assert(lasts@.take(k + 1).last() == lasts@[k as int]);
            assert(cand@ =~= with_last_octet(net@, lasts@[k as int]));
        }
        let broadcast = cand[0] == 255 && cand[1] == 255 && cand[2] == 255 && cand[3] == 255;
        proof {
            if cand@ == seq![255u8, 255u8, 255u8, 255u8] {
                assert(cand@[0] == 255 && cand@[1] == 255 && cand@[2] == 255 && cand@[3] == 255);
            }
            if broadcast {
                assert(cand@ =~= seq![255u8, 255u8, 255u8, 255u8]);
            }
        }
        if network_contains(a, prefix, c) && !broadcast {
            let ghost before = endpoint_keys(out@);
            push_port_endpoints(out, cand, ports);
            assert(endpoint_keys(out@) =~= start + octet_candidates(
                addr@,
                prefix as nat,
                lasts@.take(k + 1),
                ports@,
            ));
        }
        k = k + 1;
    }
    assert(lasts@.take(9) =~= lasts@);
}

/// Heuristic endpoints of all networks before deduplication.
fn heuristic_candidate_endpoints(nets: &[IpNetwork], ports: &[u16]) -> (r: Vec<Endpoint>)
    requires
        forall|i: int| 0 <= i < nets@.len() ==> ip_network_wf(#[trigger] nets@[i]),
    ensures
        endpoint_keys(r@) == heuristic_candidates(nets@, ports@),
{
    let mut out: Vec<Endpoint> = Vec::new();
    let mut i: usize = 0;
    while i < nets.len()
        invariant
            i <= nets@.len(),
            forall|j: int| 0 <= j < nets@.len() ==> ip_network_wf(#[trigger] nets@[j]),
            endpoint_keys(out@) == heuristic_candidates(nets@.take(i as int), ports@),
        decreases nets@.len() - i,
    {
        proof {
            assert(nets@.take(i + 1).drop_last() =~= nets@.take(i as int));
            assert(nets@.take(i + 1).last() == nets@[i as int]);
            assert(ip_network_wf(nets@[i as int]));
        }
        match &nets[i] {
            IpNetwork::V4 { addr, prefix } => {
                octet_candidate_endpoints(&mut out, *addr, *prefix, ports);
            },
            IpNetwork::V6 { .. } => {},
        }
        i = i + 1;
    }
    assert(nets@.take(nets@.len() as int) =~= nets@);
    out
}

/// The addresses probed before the sweep.
pub struct PriorityPlan {
    /// ARP-cache hosts inside the networks, on every port, each once.
    pub arp_addrs: Vec<Endpoint>,
    /// The MAC address of each ARP-cache host inside the networks.
    pub arp_macs: Vec<ArpEntry>,
    /// Common device addresses (`.1`, `.100`, `.254`, …) on every port,
    /// each once, without those already in `arp_addrs`.
    pub heuristic_addrs: Vec<Endpoint>,
}

/// Builds the priority address lists probed before the linear sweep. The
/// ARP-cache hosts (`arp_hosts`, read only when `use_arp` is set) come
/// first, then the common last-octet addresses of each IPv4 network; only
/// addresses inside the networks are included.
pub fn build_priority_addrs(nets: &[IpNetwork], ports: &[u16], use_arp: bool, arp_hosts: &[ArpEntry]) -> (r: PriorityPlan)
    requires
        forall|i: int| 0 <= i < nets@.len() ==> ip_network_wf(#[trigger] nets@[i]),
    ensures
        endpoint_keys(r.arp_addrs@) == if use_arp {
            dedup_first(arp_candidates(arp_hosts@, nets@, ports@))
        } else {
            Seq::empty()
        },
        mac_map(r.arp_macs@) == if use_arp {
            arp_mac_map(arp_hosts@, nets@)
        } else {
            Map::empty()
        },
        endpoint_keys(r.heuristic_addrs@) == dedup_first(
            without(heuristic_candidates(nets@, ports@), endpoint_keys(r.arp_addrs@)),
        ),
{
    let (arp_addrs, arp_macs) = if use_arp {
        let cands = arp_candidate_endpoints(nets, ports, arp_hosts);
        let none: Vec<Endpoint> = Vec::new();
        let addrs = dedup_endpoints(&cands, &none);
        proof {
            lemma_without_nothing(endpoint_keys(cands@));
            assert(endpoint_keys(none@) =~= Seq::<(bool, Seq<u8>, u32, u16)>::empty());
        }
        (addrs, arp_mac_pairs(nets, arp_hosts))
    } else {
        let a: Vec<Endpoint> = Vec::new();
        let m: Vec<ArpEntry> = Vec::new();
        assert(endpoint_keys(a@) =~= Seq::<(bool, Seq<u8>, u32, u16)>::empty());
        (a, m)
    };
    let heur = heuristic_candidate_endpoints(nets, ports);
    let heuristic_addrs = dedup_endpoints(&heur, &arp_addrs);
    PriorityPlan { arp_addrs, arp_macs, heuristic_addrs }
}

/// Excluding nothing keeps every value.
pub proof fn lemma_without_nothing<A>(s: Seq<A>)
    ensures
        without(s, Seq::empty()) == s,
    decreases s.len(),
{
    if s.len() > 0 {
        lemma_without_nothing(s.drop_last());
        assert(s.drop_last().push(s.last()) =~= s);
    }
}


/// Parses every subnet of the list; the first text that is not a CIDR
/// network makes the whole list invalid.
pub fn parse_subnets(subnets: &[String]) -> (r: Result<Vec<IpNetwork>, DafyddError>)
    ensures
        match r {
            Ok(v) => v@.len() == subnets@.len() && forall|i: int|
                0 <= i < v@.len() ==> ip_net_parse(subnets@[i]@) == Some(
                    ip_network_parts(#[trigger] v@[i]),
                ) && ip_network_wf(v@[i]),
            Err(e) => (exists|i: int|
                0 <= i < subnets@.len() && (#[trigger] ip_net_parse(subnets@[i]@)) is None) && (e matches DafyddError::InvalidSubnet(
                m,
            ) && m@ == "invalid IP address syntax"@),
        },
{
    let mut out: Vec<IpNetwork> = Vec::new();
    let mut i: usize = 0;
    while i < subnets.len()
        invariant
            i <= subnets@.len(),
            out@.len() == i,
            forall|j: int|
                0 <= j < i ==> ip_net_parse(subnets@[j]@) == Some(ip_network_parts(#[trigger] out@[j]))
                    && ip_network_wf(out@[j]),
        decreases subnets@.len() - i,
    {
        match parse_subnet(subnets[i].as_str()) {
            Ok(n) => out.push(n),
            Err(e) => {
                assert(ip_net_parse(subnets@[i as int]@) is None);
                return Err(e);
            },
        }
        i = i + 1;
    }
    Ok(out)
}

/// How many endpoints one sweep batch holds: four per allowed connection,
/// at least 1024.
pub open spec fn batch_size_spec(max_concurrent: nat) -> nat {
    let m = if max_concurrent * 4 > usize::MAX {
        usize::MAX as nat
    } else {
        max_concurrent * 4
    };
    if m < 1024 {
        1024
    } else {
        m
    }
}

/// The sweep batch size for `max_concurrent` connections.
pub fn batch_size(max_concurrent: usize) -> (r: usize)
    ensures
        r == batch_size_spec(max_concurrent as nat),
{
    let m: usize = match max_concurrent.checked_mul(4) {
        Some(v) => v,
        None => usize::MAX,
    };
    if m < 1024 {
        1024
    } else {
        m
    }
}

/// A priority match tagged with the list it came from and, when the MAC
/// map is given and holds the match's IPv4 address (`ip`, read back from
/// its address text), the MAC address.
pub open spec fn tagged_match(m: DeviceMatchView, source: Seq<char>, macs: Option<Map<Seq<u8>, Seq<u8>>>, ip: Option<Seq<u8>>) -> DeviceMatchView {
    let info = m.info.insert("source"@, source);
    let info = match (macs, ip) {
        (Some(map), Some(a)) => if map.contains_key(a) {
            info.insert("mac"@, mac_text(map[a]))
        } else {
            info
        },
        _ => info,
    };
    DeviceMatchView { info, ..m }
}

/// The MAC stored for `ip` in a list of pairs; the last pair wins.
fn lookup_mac(macs: &[ArpEntry], ip: [u8; 4]) -> (r: Option<MacAddr>)
    ensures
        match r {
            Some(m) => mac_map(macs@).contains_key(ip@) && mac_map(macs@)[ip@] == m@,
            None => !mac_map(macs@).contains_key(ip@),
        },
{
    let mut k: usize = macs.len();
    while k > 0
        invariant
            k <= macs@.len(),
            forall|j: int| k <= j < macs@.len() ==> (#[trigger] macs@[j]).0@ != ip@,
        decreases k,
    {
        let (a, m) = macs[k - 1];
        if same_octets(&a, &ip) {
            proof {
                lemma_mac_map_last(macs@, (k - 1) as int, ip@);
            }
            return Some(m);
        }
        k = k - 1;
    }
    proof {
        lemma_mac_map_absent(macs@, ip@);
    }
    None
}

/// The entry at `i` decides the MAC of its address when no later entry has
/// that address.
proof fn lemma_mac_map_last(v: Seq<ArpEntry>, i: int, a: Seq<u8>)
    requires
        0 <= i < v.len(),
        v[i].0@ == a,
        forall|j: int| i < j < v.len() ==> (#[trigger] v[j]).0@ != a,
    ensures
        mac_map(v).contains_key(a),
        mac_map(v)[a] == v[i].1@,
    decreases v.len(),
{
    if i < v.len() - 1 {
        assert(v.drop_last()[i] == v[i]);
        assert forall|j: int| i < j < v.drop_last().len() implies (#[trigger] v.drop_last()[j]).0@ != a by {
            assert(v.drop_last()[j] == v[j]);
        }
        lemma_mac_map_last(v.drop_last(), i, a);
        assert(v.last() == v[v.len() - 1]);
    }
}

/// An address no entry has is not in the map.
proof fn lemma_mac_map_absent(v: Seq<ArpEntry>, a: Seq<u8>)
    requires
        forall|j: int| 0 <= j < v.len() ==> (#[trigger] v[j]).0@ != a,
    ensures
        !mac_map(v).contains_key(a),
    decreases v.len(),
{
    if v.len() > 0 {
        assert forall|j: int| 0 <= j < v.drop_last().len() implies (#[trigger] v.drop_last()[j]).0@ != a by {
            assert(v.drop_last()[j] == v[j]);
        }
        lemma_mac_map_absent(v.drop_last(), a);
        assert(v.last() == v[v.len() - 1]);
    }
}

/// Tags a priority match, given the IPv4 address read back from its
/// address text (`None` when it is not an IPv4 socket address).
pub fn tag_match_with(m: &mut DeviceMatch, source: &str, arp_macs: Option<&[ArpEntry]>, ip: Option<[u8; 4]>)
    ensures
        final(m)@ == tagged_match(old(m)@, source@, match arp_macs {
            Some(v) => Some(mac_map(v@)),
            None => None,
        }, match ip {
            Some(a) => Some(a@),
            None => None,
        }),
{
    m.info.insert("source".to_owned(), source.to_owned());
    match (arp_macs, ip) {
        (Some(macs), Some(a)) => {
            match lookup_mac(macs, a) {
                Some(mac) => {
                    m.info.insert("mac".to_owned(), format_mac(&mac));
                },
                None => {},
            }
        },
        _ => {},
    }
}

/// Tags a priority match with its source list and, for an ARP-cache hit,
/// the host's MAC address.
pub fn tag_priority_match(m: &mut DeviceMatch, source: &str, arp_macs: Option<&[ArpEntry]>)
    ensures
        final(m)@ == tagged_match(old(m)@, source@, match arp_macs {
            Some(v) => Some(mac_map(v@)),
            None => None,
        }, socket_v4_address(encode_utf8(old(m)@.address))),
{
    let ip = parse_socket_v4(m.address.as_str().as_bytes());
    tag_match_with(m, source, arp_macs, ip);
}

/// A match made for an IPv4 endpoint and tagged as found through an ARP
/// table that lists the endpoint's host carries that host's MAC address,
/// read back from the match's address text.
pub proof fn lemma_arp_match_gets_mac(
    m: DeviceMatchView,
    source: Seq<char>,
    macs: Map<Seq<u8>, Seq<u8>>,
    host: [u8; 4],
    port: u16,
)
    requires
        m.address == endpoint_text_spec(Endpoint { host: HostAddr::V4(host), port }),
        macs.contains_key(host@),
    ensures
        tagged_match(m, source, Some(macs), socket_v4_address(encode_utf8(m.address))).info["mac"@]
            == mac_text(macs[host@]),
        tagged_match(m, source, Some(macs), socket_v4_address(encode_utf8(m.address))).info["source"@]
            == source,
{
    lemma_socket_v4_reads_back(host@, port);
    reveal_strlit("mac");
    reveal_strlit("source");
    assert("mac"@.len() != "source"@.len());
}

/// The views of a list of matches.
pub open spec fn match_views(v: Seq<DeviceMatch>) -> Seq<DeviceMatchView> {
    v.map_values(|m: DeviceMatch| m@)
}

/// Whether some match of the list has this address.
pub open spec fn has_match_address(v: Seq<DeviceMatchView>, a: Seq<char>) -> bool {
    exists|i: int| 0 <= i < v.len() && (#[trigger] v[i]).address == a
}

/// The sweep matches appended after those already found: a match whose
/// address is already present is dropped.
pub open spec fn merged_matches(found: Seq<DeviceMatchView>, sweep: Seq<DeviceMatchView>) -> Seq<DeviceMatchView>
    decreases sweep.len(),
{
    if sweep.len() == 0 {
        found
    } else {
        let rest = merged_matches(found, sweep.drop_last());
        if has_match_address(rest, sweep.last().address) {
            rest
        } else {
            rest.push(sweep.last())
        }
    }
}

/// Appends the sweep matches to those found by the fast paths, skipping
/// every address already present.
pub fn merge_by_address(found: Vec<DeviceMatch>, sweep: &[DeviceMatch]) -> (r: Vec<DeviceMatch>)
    ensures
        match_views(r@) == merged_matches(match_views(found@), match_views(sweep@)),
{
    let mut out = found;
    let ghost start = match_views(out@);
    let mut i: usize = 0;
    while i < sweep.len()
        invariant
            i <= sweep@.len(),
            match_views(out@) == merged_matches(start, match_views(sweep@.take(i as int))),
        decreases sweep@.len() - i,
    {
        let m = &sweep[i];
        let mut present = false;
        let mut j: usize = 0;
        while j < out.len()
            invariant
                j <= out@.len(),
                present == exists|k: int| 0 <= k < j && out@[k].address@ == m.address@,
            decreases out@.len() - j,
        {
            if crate::text::str_eq(out[j].address.as_str(), m.address.as_str()) {
                present = true;
            }
            j = j + 1;
        }
        proof {
            let sv = match_views(sweep@.take(i + 1));
            assert(sv.drop_last() =~= match_views(sweep@.take(i as int)));
            assert(sv.last() == m@);
            let ov = match_views(out@);
            if present {
                let k = choose|k: int| 0 <= k < j && out@[k].address@ == m.address@;
                assert(ov[k].address == m@.address);
            }
            if has_match_address(ov, m@.address) {
                let k = choose|k: int| 0 <= k < ov.len() && (#[trigger] ov[k]).address == m@.address;
                assert(out@[k].address@ == m.address@);
            }
        }
        if !present {
            let ghost before = out@;
            out.push(m.duplicate());
            assert(match_views(out@) =~= match_views(before).push(m@));
        }
        i = i + 1;
    }
    assert(sweep@.take(sweep@.len() as int) =~= sweep@);
    out
}


/// The plain values of an endpoint on a host, as `SocketAddr::new` makes
/// it: an IPv6 host loses its scope.
pub open spec fn host_port_key(h: HostAddr, port: u16) -> (bool, Seq<u8>, u32, u16) {
    match h {
        HostAddr::V4(a) => (true, a@, 0u32, port),
        HostAddr::V6(a, _) => (false, a@, 0u32, port),
    }
}

/// Every address on every port, address by address.
pub open spec fn targets_spec(addrs: Seq<HostAddr>, ports: Seq<u16>) -> Seq<(bool, Seq<u8>, u32, u16)>
    decreases addrs.len(),
{
    if addrs.len() == 0 {
        Seq::empty()
    } else {
        targets_spec(addrs.drop_last(), ports) + ports.map_values(|p: u16| host_port_key(addrs.last(), p))
    }
}

/// The endpoints probed for a resolved host: each resolved address on each
/// port.
pub fn probe_targets(addrs: &[HostAddr], ports: &[u16]) -> (r: Vec<Endpoint>)
    ensures
        endpoint_keys(r@) == targets_spec(addrs@, ports@),
{
    let mut out: Vec<Endpoint> = Vec::new();
    let mut i: usize = 0;
    while i < addrs.len()
        invariant
            i <= addrs@.len(),
            endpoint_keys(out@) == targets_spec(addrs@.take(i as int), ports@),
        decreases addrs@.len() - i,
    {
        let host = match addrs[i] {
            HostAddr::V4(a) => HostAddr::V4(a),
            HostAddr::V6(a, _) => HostAddr::V6(a, 0),
        };
        let ghost start = endpoint_keys(out@);
        let mut k: usize = 0;
        while k < ports.len()
            invariant
                k <= ports@.len(),
                i < addrs@.len(),
                forall|p: u16| #[trigger] endpoint_key(Endpoint { host, port: p }) == host_port_key(addrs@[i as int], p),
                endpoint_keys(out@) == start + ports@.take(k as int).map_values(
                    |p: u16| host_port_key(addrs@[i as int], p),
                ),
            decreases ports@.len() - k,
        {
            let ghost before = out@;
            let e = Endpoint { host, port: ports[k] };
            out.push(e);
            assert(endpoint_keys(out@) =~= endpoint_keys(before).push(endpoint_key(e)));
            assert(ports@.take(k + 1).map_values(|p: u16| host_port_key(addrs@[i as int], p)) =~= ports@.take(
                k as int,
            ).map_values(|p: u16| host_port_key(addrs@[i as int], p)).push(
                host_port_key(addrs@[i as int], ports@[k as int]),
            ));
            k = k + 1;
        }
        proof {
            assert(ports@.take(ports@.len() as int) =~= ports@);
            assert(addrs@.take(i + 1).drop_last() =~= addrs@.take(i as int));
            assert(addrs@.take(i + 1).last() == addrs@[i as int]);
        }
        i = i + 1;
    }
    assert(addrs@.take(addrs@.len() as int) =~= addrs@);
    out
}

/// The endpoints probed after the ICMP pre-filter: the open (address, port)
/// pairs a SYN scan found, or every alive host on every port when no SYN
/// scan could be run.
pub open spec fn raw_targets_spec(alive: Seq<[u8; 4]>, ports: Seq<u16>, open: Option<Seq<([u8; 4], u16)>>) -> Seq<(bool, Seq<u8>, u32, u16)> {
    match open {
        Some(pairs) => pairs.map_values(|t: ([u8; 4], u16)| (true, t.0@, 0u32, t.1)),
        None => targets_spec(alive.map_values(|a: [u8; 4]| HostAddr::V4(a)), ports),
    }
}

/// The endpoints to probe once ICMP has found the alive hosts.
pub fn raw_probe_targets(alive: &[[u8; 4]], ports: &[u16], open: Option<&[([u8; 4], u16)]>) -> (r: Vec<Endpoint>)
    ensures
        endpoint_keys(r@) == raw_targets_spec(alive@, ports@, match open {
            Some(p) => Some(p@),
            None => None,
        }),
{
    match open {
        Some(pairs) => {
            let mut out: Vec<Endpoint> = Vec::new();
            let mut i: usize = 0;
            while i < pairs.len()
                invariant
                    i <= pairs@.len(),
                    endpoint_keys(out@) == pairs@.take(i as int).map_values(
                        |t: ([u8; 4], u16)| (true, t.0@, 0u32, t.1),
                    ),
                decreases pairs@.len() - i,
            {
                let (a, p) = pairs[i];
                let ghost before = out@;
                out.push(Endpoint { host: HostAddr::V4(a), port: p });
                assert(endpoint_keys(out@) =~= endpoint_keys(before).push((true, a@, 0u32, p)));
                assert(pairs@.take(i + 1).map_values(|t: ([u8; 4], u16)| (true, t.0@, 0u32, t.1))
                    =~= pairs@.take(i as int).map_values(
                    |t: ([u8; 4], u16)| (true, t.0@, 0u32, t.1),
                ).push((true, a@, 0u32, p)));
                i = i + 1;
            }
            assert(pairs@.take(pairs@.len() as int) =~= pairs@);
            out
        },
        None => {
            let mut hosts: Vec<HostAddr> = Vec::new();
            let mut i: usize = 0;
            while i < alive.len()
                invariant
                    i <= alive@.len(),
                    hosts@ == alive@.take(i as int).map_values(|a: [u8; 4]| HostAddr::V4(a)),
                decreases alive@.len() - i,
            {
                hosts.push(HostAddr::V4(alive[i]));
                assert(alive@.take(i + 1).map_values(|a: [u8; 4]| HostAddr::V4(a)) =~= alive@.take(
                    i as int,
                ).map_values(|a: [u8; 4]| HostAddr::V4(a)).push(HostAddr::V4(alive@[i as int])));
                i = i + 1;
            }
            assert(alive@.take(alive@.len() as int) =~= alive@);
            probe_targets(&hosts, ports)
        },
    }
}


/// A value survives the exclusion exactly when it occurs and is not
/// excluded.
pub proof fn lemma_without_contains<A>(s: Seq<A>, excluded: Seq<A>, x: A)
    ensures
        without(s, excluded).contains(x) <==> (s.contains(x) && !excluded.contains(x)),
    decreases s.len(),
{
    if s.len() > 0 {
        lemma_without_contains(s.drop_last(), excluded, x);
        let rest = without(s.drop_last(), excluded);
        assert(s =~= s.drop_last().push(s.last()));
        if s.contains(x) && x != s.last() {
            let i = choose|i: int| 0 <= i < s.len() && s[i] == x;
            assert(s.drop_last()[i] == x);
        }
        if s.drop_last().contains(x) {
            let i = choose|i: int| 0 <= i < s.drop_last().len() && s.drop_last()[i] == x;
            assert(s[i] == x);
        }
        if rest.push(s.last()).contains(x) && x != s.last() {
            let i = choose|i: int| 0 <= i < rest.push(s.last()).len() && rest.push(s.last())[i] == x;
            assert(rest[i] == x);
        }
        if rest.contains(x) {
            let i = choose|i: int| 0 <= i < rest.len() && rest[i] == x;
            assert(rest.push(s.last())[i] == x);
        }
        assert(rest.push(s.last())[rest.len() as int] == s.last());
        assert(s[s.len() - 1] == s.last());
    }
}

/// The two priority lists never share an endpoint: a heuristic endpoint is
/// never one the ARP-cache list already probes.
pub proof fn lemma_priority_lists_disjoint(
    nets: Seq<IpNetwork>,
    ports: Seq<u16>,
    arp_keys: Seq<(bool, Seq<u8>, u32, u16)>,
    k: (bool, Seq<u8>, u32, u16),
)
    requires
        dedup_first(without(heuristic_candidates(nets, ports), arp_keys)).contains(k),
    ensures
        !arp_keys.contains(k),
        heuristic_candidates(nets, ports).contains(k),
{
    crate::collect::lemma_dedup_first_contains(without(heuristic_candidates(nets, ports), arp_keys), k);
    lemma_without_contains(heuristic_candidates(nets, ports), arp_keys, k);
}
/// The addresses an endpoint list holds lie in one of the IPv4 networks.
pub open spec fn all_in_v4_nets(keys: Seq<(bool, Seq<u8>, u32, u16)>, nets: Seq<IpNetwork>) -> bool {
    forall|i: int| 0 <= i < keys.len() ==> (#[trigger] keys[i]).0 && in_some_v4_net(nets, keys[i].1)
}

/// Appending the endpoints of an address in the networks keeps every
/// address in the networks.
proof fn lemma_port_keys_in_nets(rest: Seq<(bool, Seq<u8>, u32, u16)>, ip: Seq<u8>, ports: Seq<u16>, nets: Seq<IpNetwork>)
    requires
        all_in_v4_nets(rest, nets),
        in_some_v4_net(nets, ip),
    ensures
        all_in_v4_nets(rest + port_keys(ip, ports), nets),
{
    let all = rest + port_keys(ip, ports);
    assert forall|i: int| 0 <= i < all.len() implies (#[trigger] all[i]).0 && in_some_v4_net(nets, all[i].1) by {
        if i >= rest.len() {
            assert(all[i] == port_keys(ip, ports)[i - rest.len()]);
        } else {
            assert(all[i] == rest[i]);
        }
    }
}

/// Every ARP-cache candidate lies in one of the networks.
proof fn lemma_arp_candidates_in_nets(arp: Seq<ArpEntry>, nets: Seq<IpNetwork>, ports: Seq<u16>)
    ensures
        all_in_v4_nets(arp_candidates(arp, nets, ports), nets),
    decreases arp.len(),
{
    if arp.len() > 0 {
        lemma_arp_candidates_in_nets(arp.drop_last(), nets, ports);
        if in_some_v4_net(nets, arp.last().0@) {
            lemma_port_keys_in_nets(arp_candidates(arp.drop_last(), nets, ports), arp.last().0@, ports, nets);
        }
    }
}

/// Every heuristic candidate of one network lies in that network.
proof fn lemma_octet_candidates_in_net(addr: [u8; 4], prefix: u8, lasts: Seq<u8>, ports: Seq<u16>, nets: Seq<IpNetwork>, j: int)
    requires
        0 <= j < nets.len(),
        nets[j] == (IpNetwork::V4 { addr, prefix }),
    ensures
        all_in_v4_nets(octet_candidates(addr@, prefix as nat, lasts, ports), nets),
    decreases lasts.len(),
{
    if lasts.len() > 0 {
        lemma_octet_candidates_in_net(addr, prefix, lasts.drop_last(), ports, nets, j);
        let cand = with_last_octet(
            u32_octets(network_of(ipv4_u32(addr@), prefix as nat) as u32),
            lasts.last(),
        );
        if heuristic_ok(addr@, prefix as nat, cand) {
            assert(in_some_v4_net(nets, cand)) by {
                assert(nets[j] matches IpNetwork::V4 { addr: a, prefix: p } && net_contains(
                    ipv4_u32(a@),
                    p as nat,
                    ipv4_u32(cand),
                ));
            }
            lemma_port_keys_in_nets(
                octet_candidates(addr@, prefix as nat, lasts.drop_last(), ports),
                cand,
                ports,
                nets,
            );
        }
    }
}

/// Every heuristic candidate lies in one of the networks.
proof fn lemma_heuristic_candidates_in_nets(nets: Seq<IpNetwork>, all: Seq<IpNetwork>, ports: Seq<u16>)
    requires
        forall|i: int| 0 <= i < nets.len() ==> #[trigger] nets[i] == all[i],
        nets.len() <= all.len(),
    ensures
        all_in_v4_nets(heuristic_candidates(nets, ports), all),
    decreases nets.len(),
{
    if nets.len() > 0 {
        let d = nets.drop_last();
        assert forall|i: int| 0 <= i < d.len() implies #[trigger] d[i] == all[i] by {
            assert(d[i] == nets[i]);
        }
        lemma_heuristic_candidates_in_nets(d, all, ports);
        let rest = heuristic_candidates(d, ports);
        match nets.last() {
            IpNetwork::V4 { addr, prefix } => {
                let j = nets.len() - 1;
                assert(all[j] == nets[j]);
                lemma_octet_candidates_in_net(addr, prefix, PRIORITY_LAST_OCTETS@, ports, all, j);
                let o = octet_candidates(addr@, prefix as nat, PRIORITY_LAST_OCTETS@, ports);
                let both = rest + o;
                assert forall|i: int| 0 <= i < both.len() implies (#[trigger] both[i]).0
                    && in_some_v4_net(all, both[i].1) by {
                    if i >= rest.len() {
                        assert(both[i] == o[i - rest.len()]);
                    } else {
                        assert(both[i] == rest[i]);
                    }
                }
            },
            IpNetwork::V6 { .. } => {},
        }
    }
}

/// A value that survives the exclusion occurs in the sequence it came from.
proof fn lemma_without_subset(s: Seq<(bool, Seq<u8>, u32, u16)>, ex: Seq<(bool, Seq<u8>, u32, u16)>, k: (bool, Seq<u8>, u32, u16))
    requires
        dedup_first(without(s, ex)).contains(k),
    ensures
        s.contains(k),
{
    crate::collect::lemma_dedup_first_contains(without(s, ex), k);
    lemma_without_contains(s, ex, k);
}

/// Only addresses inside the subnets are probed first: every endpoint of
/// both priority lists is an IPv4 address in one of the networks.
pub proof fn lemma_priority_in_subnets(
    arp: Seq<ArpEntry>,
    nets: Seq<IpNetwork>,
    ports: Seq<u16>,
    arp_keys: Seq<(bool, Seq<u8>, u32, u16)>,
    k: (bool, Seq<u8>, u32, u16),
)
    requires
        dedup_first(arp_candidates(arp, nets, ports)).contains(k) || dedup_first(
            without(heuristic_candidates(nets, ports), arp_keys),
        ).contains(k),
    ensures
        k.0,
        in_some_v4_net(nets, k.1),
{
    lemma_arp_candidates_in_nets(arp, nets, ports);
    lemma_heuristic_candidates_in_nets(nets, nets, ports);
    if dedup_first(arp_candidates(arp, nets, ports)).contains(k) {
        crate::collect::lemma_dedup_first_contains(arp_candidates(arp, nets, ports), k);
        let s = arp_candidates(arp, nets, ports);
        let i = choose|i: int| 0 <= i < s.len() && s[i] == k;
        assert(s[i].0 && in_some_v4_net(nets, s[i].1));
    } else {
        lemma_without_subset(heuristic_candidates(nets, ports), arp_keys, k);
        let s = heuristic_candidates(nets, ports);
        let i = choose|i: int| 0 <= i < s.len() && s[i] == k;
        assert(s[i].0 && in_some_v4_net(nets, s[i].1));
    }
}

} // verus!
