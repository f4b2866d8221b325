//! Source addresses of captured Ethernet frames, for passive discovery.

use vstd::prelude::*;

verus! {

/// The source address of a captured IP packet.
#[derive(Debug, Clone, Copy)]
pub enum SourceIp {
    V4([u8; 4]),
    V6([u8; 16]),
}

/// The family (`true` for IPv4) and octets of a source address.
pub open spec fn source_view(s: SourceIp) -> (bool, Seq<u8>) {
    match s {
        SourceIp::V4(a) => (true, a@),
        SourceIp::V6(a) => (false, a@),
    }
}

/// The source address of an Ethernet frame: frames shorter than 34 bytes
/// carry none; EtherType 0x0800 (IPv4) has it at bytes 26..30, EtherType
/// 0x86DD (IPv6, at least 38 bytes) at bytes 22..38; other types none.
pub open spec fn frame_source(data: Seq<u8>) -> Option<(bool, Seq<u8>)> {
    if data.len() < 34 {
        None
    } else {
        let eth_type = data[12] as nat * 256 + data[13] as nat;
        if eth_type == 0x0800 {
            Some((true, data.subrange(26, 30)))
        } else if eth_type == 0x86DD {
            if data.len() < 38 {
                None
            } else {
                Some((false, data.subrange(22, 38)))
            }
        } else {
            None
        }
    }
}

/// Reads the source address of a captured frame.
pub fn extract_src_ip(data: &[u8]) -> (r: Option<SourceIp>)
    ensures
        match r {
            Some(s) => frame_source(data@) == Some(source_view(s)),
            None => frame_source(data@) is None,
        },
{
    let n = data.len();
    if n < 34 {
        return None;
    }
    let eth_type: u16 = data[12] as u16 * 256 + data[13] as u16;
    if eth_type == 0x0800 {
        let a: [u8; 4] = [data[26], data[27], data[28], data[29]];
        assert(a@ =~= data@.subrange(26, 30));
        Some(SourceIp::V4(a))
    } else if eth_type == 0x86DD {
        if n < 38 {
            return None;
        }
        let mut a: [u8; 16] = [0; 16];
        let mut i: usize = 0;
        while i < 16
            invariant
                i <= 16,
                n == data@.len(),
                n >= 38,
                forall|j: int| 0 <= j < i ==> a@[j] == data@[22 + j],
            decreases 16 - i,
        {
            a[i] = data[22 + i];
            i = i + 1;
        }
        assert(a@ =~= data@.subrange(22, 38));
        Some(SourceIp::V6(a))
    } else {
        None
    }
}

/// Sources not worth recording: IPv4 loopback, the limited broadcast
/// address and multicast; IPv6 loopback and multicast.
pub open spec fn boring_source(s: (bool, Seq<u8>)) -> bool {
    if s.0 {
        s.1[0] == 127 || s.1 == seq![255u8, 255, 255, 255] || (224 <= s.1[0] <= 239)
    } else {
        s.1 == seq![0u8, 0, 0, 0, 0, 0, 0, 0, 0, 0, 0, 0, 0, 0, 0, 1] || s.1[0] == 0xff
    }
}

/// Whether a source address is not worth recording.
pub fn is_boring(ip: &SourceIp) -> (r: bool)
    ensures
        r == boring_source(source_view(*ip)),
{
    match ip {
        SourceIp::V4(a) => {
            let bcast = a[0] == 255 && a[1] == 255 && a[2] == 255 && a[3] == 255;
            proof {
                if a@ == seq![255u8, 255, 255, 255] {
                    assert(a@[0] == 255 && a@[1] == 255 && a@[2] == 255 && a@[3] == 255);
                }
                if bcast {
                    assert(a@ =~= seq![255u8, 255, 255, 255]);
                }
            }
            a[0] == 127 || bcast || (224 <= a[0] && a[0] <= 239)
        },
        SourceIp::V6(a) => {
            let lo: [u8; 16] = [0, 0, 0, 0, 0, 0, 0, 0, 0, 0, 0, 0, 0, 0, 0, 1];
            assert(lo@ =~= seq![0u8, 0, 0, 0, 0, 0, 0, 0, 0, 0, 0, 0, 0, 0, 0, 1]);
            crate::text::bytes_eq(a, &lo) || a[0] == 0xff
        },
    }
}

} // verus!
