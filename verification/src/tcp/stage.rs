//! The order of a subnet scan: the priority endpoints from the ARP cache,
//! then those at common device addresses, then a ping sweep of the other
//! hosts, which decides between probing the hosts that replied and a full
//! sweep. A cancellation stops the scan before each new stage.

use vstd::prelude::*;

verus! {

/// A point that the subnet scan has reached.
#[derive(Debug, Clone, Copy, PartialEq, Eq, Structural)]
pub enum ScanEvent {
    /// Nothing has been probed yet.
    Started,
    /// The endpoints found in the ARP cache were probed.
    ArpProbed,
    /// The endpoints at common device addresses were probed.
    HeuristicProbed,
    /// The ping sweep ran and this many hosts replied.
    Pinged { replied: usize },
    /// The ping sweep could not run (no raw-socket privilege).
    PingUnavailable,
    /// Looking for open ports on the replying hosts gave this many endpoints.
    TargetsReady { targets: usize },
    /// The endpoints on the replying hosts were probed.
    TargetsProbed,
    /// The full sweep handed out a batch of this many endpoints.
    SweepBatch { len: usize },
    /// A batch of the full sweep was probed.
    BatchProbed,
}

/// What the subnet scan does next.
#[derive(Debug, Clone, Copy, PartialEq, Eq, Structural)]
pub enum ScanAction {
    /// Probe the endpoints found in the ARP cache.
    ProbeArp,
    /// Probe the endpoints at common device addresses.
    ProbeHeuristic,
    /// Ping the hosts not covered by the priority endpoints.
    Ping,
    /// Look for open ports on the hosts that replied.
    FindOpenPorts,
    /// Probe the endpoints found on the replying hosts.
    ProbeTargets,
    /// Take the next batch of the full sweep.
    NextBatch,
    /// Probe the batch just taken.
    ProbeBatch,
    /// The scan is over.
    Finish,
}

/// After the ARP-cache endpoints (or where there were none).
pub open spec fn after_arp(has_heuristic: bool, cancelled: bool) -> ScanAction {
    if cancelled {
        ScanAction::Finish
    } else if has_heuristic {
        ScanAction::ProbeHeuristic
    } else {
        ScanAction::Ping
    }
}

/// The next action of a scan that reached `event`, where `has_arp` and
/// `has_heuristic` say whether those priority lists are non-empty and
/// `cancelled` whether a cancellation was requested.
pub open spec fn scan_step_spec(event: ScanEvent, has_arp: bool, has_heuristic: bool, cancelled: bool) -> ScanAction {
    match event {
        ScanEvent::Started => if has_arp {
            ScanAction::ProbeArp
        } else {
            after_arp(has_heuristic, cancelled)
        },
        ScanEvent::ArpProbed => after_arp(has_heuristic, cancelled),
        ScanEvent::HeuristicProbed => if cancelled {
            ScanAction::Finish
        } else {
            ScanAction::Ping
        },
        ScanEvent::Pinged { replied } => if replied > 0 {
            ScanAction::FindOpenPorts
        } else {
            ScanAction::Finish
        },
        ScanEvent::PingUnavailable => if cancelled {
            ScanAction::Finish
        } else {
            ScanAction::NextBatch
        },
        ScanEvent::TargetsReady { targets } => if targets > 0 && !cancelled {
            ScanAction::ProbeTargets
        } else {
            ScanAction::Finish
        },
        ScanEvent::TargetsProbed => ScanAction::Finish,
        ScanEvent::SweepBatch { len } => if len > 0 {
            ScanAction::ProbeBatch
        } else {
            ScanAction::Finish
        },
        ScanEvent::BatchProbed => if cancelled {
            ScanAction::Finish
        } else {
            ScanAction::NextBatch
        },
    }
}

/// Decides the next action of a subnet scan.
pub fn scan_step(event: ScanEvent, has_arp: bool, has_heuristic: bool, cancelled: bool) -> (r: ScanAction)
    ensures
        r == scan_step_spec(event, has_arp, has_heuristic, cancelled),
{
    let after = if cancelled {
        ScanAction::Finish
    } else if has_heuristic {
        ScanAction::ProbeHeuristic
    } else {
        ScanAction::Ping
    };
    match event {
        ScanEvent::Started => if has_arp {
            ScanAction::ProbeArp
        } else {
            after
        },
        ScanEvent::ArpProbed => after,
        ScanEvent::HeuristicProbed => if cancelled {
            ScanAction::Finish
        } else {
            ScanAction::Ping
        },
        ScanEvent::Pinged { replied } => if replied > 0 {
            ScanAction::FindOpenPorts
        } else {
            ScanAction::Finish
        },
        ScanEvent::PingUnavailable | ScanEvent::BatchProbed => if cancelled {
            ScanAction::Finish
        } else {
            ScanAction::NextBatch
        },
        ScanEvent::TargetsReady { targets } => if targets > 0 && !cancelled {
            ScanAction::ProbeTargets
        } else {
            ScanAction::Finish
        },
        ScanEvent::TargetsProbed => ScanAction::Finish,
        ScanEvent::SweepBatch { len } => if len > 0 {
            ScanAction::ProbeBatch
        } else {
            ScanAction::Finish
        },
    }
}

/// Once a cancellation is requested, the scan starts no new stage: it
/// neither moves on to the common-address endpoints, the ping sweep or a
/// new sweep batch, nor probes the endpoints found on replying hosts.
pub proof fn lemma_cancel_starts_no_stage(event: ScanEvent, has_arp: bool, has_heuristic: bool)
    ensures
        ({
            let a = scan_step_spec(event, has_arp, has_heuristic, true);
            a != ScanAction::ProbeHeuristic && a != ScanAction::Ping && a != ScanAction::ProbeTargets
                && a != ScanAction::NextBatch
        }),
{
}

} // verus!
