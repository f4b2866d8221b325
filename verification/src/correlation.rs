//! Cross-transport device correlation.
//!
//! USB-CDC devices show up in both USB and Serial discovery results. These
//! functions pair the two by USB serial number and split a mixed result
//! list by transport.

use vstd::prelude::*;
use crate::types::{DeviceMatch, DeviceMatchView, Transport};
use crate::watch::derefs;

verus! {

/// A pair of matches that likely represent the same physical device.
#[derive(Debug, Clone)]
pub struct CorrelatedDevice {
    /// The USB enumeration result.
    pub usb: DeviceMatch,
    /// The Serial port result for the same physical device.
    pub serial: DeviceMatch,
}

/// The serial number a match carries in its metadata.
pub open spec fn serial_number_of(m: DeviceMatchView) -> Option<Seq<char>> {
    if m.info.contains_key("serial_number"@) {
        Some(m.info["serial_number"@])
    } else {
        None
    }
}

/// Index of the last Serial match among the first `k` of `serial` whose
/// serial number is `sn`.
pub open spec fn last_serial_with(serial: Seq<DeviceMatch>, k: int, sn: Seq<char>) -> Option<int>
    decreases k,
{
    if k <= 0 {
        None
    } else if serial[k - 1].transport == Transport::Serial && serial_number_of(serial[k - 1]@)
        == Some(sn) {
        Some(k - 1)
    } else {
        last_serial_with(serial, k - 1, sn)
    }
}

/// The Serial match a USB match pairs with, if it is a USB match with a
/// serial number that some Serial match also carries (the last such one).
pub open spec fn partner_of(usb: DeviceMatch, serial: Seq<DeviceMatch>) -> Option<int> {
    if usb.transport != Transport::Usb {
        None
    } else {
        match serial_number_of(usb@) {
            Some(sn) => last_serial_with(serial, serial.len() as int, sn),
            None => None,
        }
    }
}

/// The pairs, in the order of the USB matches.
pub open spec fn correlation_spec(usb: Seq<DeviceMatch>, serial: Seq<DeviceMatch>) -> Seq<
    (DeviceMatchView, DeviceMatchView),
> {
    usb.filter_map(
        |u: DeviceMatch|
            match partner_of(u, serial) {
                Some(j) => Some((u@, serial[j]@)),
                None => None,
            },
    )
}

/// The pairs as plain values.
pub open spec fn pairs_view(v: Seq<CorrelatedDevice>) -> Seq<(DeviceMatchView, DeviceMatchView)> {
    v.map_values(|c: CorrelatedDevice| (c.usb@, c.serial@))
}

/// Finds the Serial match with serial number `sn`, the last one if several.
fn find_serial(serial: &[DeviceMatch], sn: &String) -> (r: Option<usize>)
    ensures
        match r {
            Some(j) => last_serial_with(serial@, serial@.len() as int, sn@) == Some(j as int) && j
                < serial@.len(),
            None => last_serial_with(serial@, serial@.len() as int, sn@) is None,
        },
{
    let mut k = serial.len();
    while k > 0
        invariant
            k <= serial@.len(),
            last_serial_with(serial@, serial@.len() as int, sn@) == last_serial_with(
                serial@,
                k as int,
                sn@,
            ),
        decreases k,
    {
        let m = &serial[k - 1];
        if m.transport == Transport::Serial {
            match m.info.get("serial_number") {
                Some(s) => {
                    if *s == *sn {
                        return Some(k - 1);
                    }
                },
                None => {},
            }
        }
        k = k - 1;
    }
    None
}

/// Correlate USB and Serial matches by USB serial number.
///
/// A USB match whose `info["serial_number"]` equals the
/// `info["serial_number"]` of a Serial match is paired with it; when several
/// Serial matches carry that number, the last one wins. USB matches without
/// a serial number, or with no Serial partner, are skipped.
pub fn correlate_usb_serial(usb_matches: &[DeviceMatch], serial_matches: &[DeviceMatch]) -> (r: Vec<
    CorrelatedDevice,
>)
    ensures
        pairs_view(r@) == correlation_spec(usb_matches@, serial_matches@),
{
    let ghost f = |u: DeviceMatch|
        match partner_of(u, serial_matches@) {
            Some(j) => Some((u@, serial_matches@[j]@)),
            None => None,
        };
    let mut out: Vec<CorrelatedDevice> = Vec::new();
    let mut i: usize = 0;
    while i < usb_matches.len()
        invariant
            i <= usb_matches@.len(),
            f == (|u: DeviceMatch|
                match partner_of(u, serial_matches@) {
                    Some(j) => Some((u@, serial_matches@[j]@)),
                    None => None,
                }),
            pairs_view(out@) == usb_matches@.take(i as int).filter_map(f),
        decreases usb_matches@.len() - i,
    {
        let u = &usb_matches[i];
        let ghost before = out@;
        if u.transport == Transport::Usb {
            match u.info.get("serial_number") {
                Some(sn) => {
                    match find_serial(serial_matches, sn) {
                        Some(j) => {
                            let c = CorrelatedDevice {
                                usb: u.duplicate(),
                                serial: serial_matches[j].duplicate(),
                            };
                            out.push(c);
                            assert(pairs_view(out@) =~= pairs_view(before).push(
                                (u@, serial_matches@[j as int]@),
                            ));
                        },
                        None => {},
                    }
                },
                None => {},
            }
        }
        proof {
            let t = usb_matches@.take(i + 1);
            assert(t.drop_last() =~= usb_matches@.take(i as int));
            assert(t.last() == usb_matches@[i as int]);
        }
        i = i + 1;
    }
    assert(usb_matches@.take(usb_matches@.len() as int) =~= usb_matches@);
    out
}

/// The matches of `ms` with transport `t`, in order.
pub open spec fn with_transport(ms: Seq<DeviceMatch>, t: Transport) -> Seq<DeviceMatch> {
    ms.filter(|m: DeviceMatch| m.transport == t)
}

/// Partition a flat list of matches by transport type.
///
/// Returns `(serial_matches, usb_matches, tcp_matches)`, each in the order
/// of `matches`.
pub fn partition_by_transport(matches: &[DeviceMatch]) -> (r: (
    Vec<&DeviceMatch>,
    Vec<&DeviceMatch>,
    Vec<&DeviceMatch>,
))
    ensures
        derefs(r.0@) == with_transport(matches@, Transport::Serial),
        derefs(r.1@) == with_transport(matches@, Transport::Usb),
        derefs(r.2@) == with_transport(matches@, Transport::Tcp),
{
    let mut serial: Vec<&DeviceMatch> = Vec::new();
    let mut usb: Vec<&DeviceMatch> = Vec::new();
    let mut tcp: Vec<&DeviceMatch> = Vec::new();
    let mut i: usize = 0;
    while i < matches.len()
        invariant
            i <= matches@.len(),
            derefs(serial@) == with_transport(matches@.take(i as int), Transport::Serial),
            derefs(usb@) == with_transport(matches@.take(i as int), Transport::Usb),
            derefs(tcp@) == with_transport(matches@.take(i as int), Transport::Tcp),
        decreases matches@.len() - i,
    {
        let m = &matches[i];
        let ghost (s0, u0, t0) = (serial@, usb@, tcp@);
        match m.transport {
            Transport::Serial => {
                serial.push(m);
                assert(derefs(serial@) =~= derefs(s0).push(*m));
            },
            Transport::Usb => {
                usb.push(m);
                assert(derefs(usb@) =~= derefs(u0).push(*m));
            },
            Transport::Tcp => {
                tcp.push(m);
                assert(derefs(tcp@) =~= derefs(t0).push(*m));
            },
        }
        proof {
            let t = matches@.take(i + 1);
            assert(t.drop_last() =~= matches@.take(i as int));
            assert(t.last() == matches@[i as int]);
            reveal(Seq::filter);
        }
        i = i + 1;
    }
    assert(matches@.take(matches@.len() as int) =~= matches@);
    (serial, usb, tcp)
}

/// Partitioning loses and invents nothing: the three parts together are as
/// long as the input.
pub proof fn lemma_partition_sizes(ms: Seq<DeviceMatch>)
    ensures
        with_transport(ms, Transport::Serial).len() + with_transport(ms, Transport::Usb).len()
            + with_transport(ms, Transport::Tcp).len() == ms.len(),
    decreases ms.len(),
{
    reveal(Seq::filter);
    if ms.len() > 0 {
        lemma_partition_sizes(ms.drop_last());
    }
}

} // verus!
