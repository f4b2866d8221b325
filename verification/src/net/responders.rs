//! Active multicast discovery (mDNS DNS-SD and SSDP M-SEARCH): the queries
//! sent and which responders are kept.

use vstd::prelude::*;
use crate::net::ipv4::{is_link_local_octets, is_loopback_octets};

verus! {

/// The mDNS multicast group, 224.0.0.251.
pub const MDNS_ADDR: [u8; 4] = [224, 0, 0, 251];

/// The mDNS port.
pub const MDNS_PORT: u16 = 5353;

/// The SSDP multicast group, 239.255.255.250.
pub const SSDP_ADDR: [u8; 4] = [239, 255, 255, 250];

/// The SSDP port.
pub const SSDP_PORT: u16 = 1900;

/// A DNS PTR query for `_services._dns-sd._udp.local` in mDNS wire format:
/// a header with one question, the name in length-prefixed labels, then
/// QTYPE PTR (12) and QCLASS IN (1). Every DNS-SD responder on the link
/// answers it.
pub const DNS_SD_QUERY: [u8; 46] = [
    0x00, 0x00, 0x00, 0x00, 0x00, 0x01, 0x00, 0x00, 0x00, 0x00, 0x00, 0x00,
    0x09, 0x5f, 0x73, 0x65, 0x72, 0x76, 0x69, 0x63, 0x65, 0x73,
    0x07, 0x5f, 0x64, 0x6e, 0x73, 0x2d, 0x73, 0x64,
    0x04, 0x5f, 0x75, 0x64, 0x70,
    0x05, 0x6c, 0x6f, 0x63, 0x61, 0x6c,
    0x00,
    0x00, 0x0c, 0x00, 0x01,
];

/// An SSDP M-SEARCH for all services, answers requested within a second.
pub const MSEARCH: &'static str = "M-SEARCH * HTTP/1.1\r\nHOST: 239.255.255.250:1900\r\nMAN: \"ssdp:discover\"\r\nMX: 1\r\nST: ssdp:all\r\n\r\n";

/// Whether a responder is kept: not loopback, not link-local.
pub open spec fn responder_kept(ip: Seq<u8>) -> bool {
    !is_loopback_octets(ip) && !is_link_local_octets(ip)
}

/// The responders recorded after `ip` answers: a kept address not yet
/// recorded is added.
pub open spec fn after_response(seen: Seq<Seq<u8>>, ip: Seq<u8>) -> Seq<Seq<u8>> {
    if responder_kept(ip) && !seen.contains(ip) {
        seen.push(ip)
    } else {
        seen
    }
}

/// The octets of a list of IPv4 addresses.
pub open spec fn v4_view(v: Seq<[u8; 4]>) -> Seq<Seq<u8>> {
    v.map_values(|a: [u8; 4]| a@)
}

/// Records the IPv4 source of an answer to an active query.
pub fn record_responder(seen: &mut Vec<[u8; 4]>, ip: [u8; 4])
    ensures
        v4_view(final(seen)@) == after_response(v4_view(old(seen)@), ip@),
{
    if ip[0] == 127 || (ip[0] == 169 && ip[1] == 254) {
        return;
    }
    let mut i: usize = 0;
    while i < seen.len()
        invariant
            i <= seen@.len(),
            forall|j: int| 0 <= j < i ==> (#[trigger] seen@[j])@ != ip@,
        decreases seen@.len() - i,
    {
        if crate::text::bytes_eq(&seen[i], &ip) {
            assert(v4_view(seen@)[i as int] == ip@);
            return;
        }
        i = i + 1;
    }
    proof {
        if v4_view(seen@).contains(ip@) {
            let j = choose|j: int| 0 <= j < v4_view(seen@).len() && v4_view(seen@)[j] == ip@;
            assert(seen@[j]@ == ip@);
        }
    }
    let ghost before = seen@;
    seen.push(ip);
    assert(v4_view(seen@) =~= v4_view(before).push(ip@));
}

} // verus!
