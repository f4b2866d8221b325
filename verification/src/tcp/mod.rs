//! TCP/IP device discovery: address handling, sweep planning, match
//! construction and the discovery configuration.

pub mod scan;
pub mod stage;
pub mod subnet;
pub mod sweep;

use vstd::prelude::*;
use crate::collect::dedup_first;
use crate::text::{decimal, push_decimal};

verus! {

/// The settings of a TCP discovery.
///
/// Each host is connected to on each port; with a probe command, only hosts
/// that answer (with bytes holding `response_filter`, when set) match,
/// otherwise an accepted connection does. `preferred_host` is probed first;
/// priority addresses (ARP cache, common device addresses) are probed before
/// the sweep of `subnets`, or of the local interfaces' subnets when none
/// are given.
#[derive(Debug)]
pub struct TcpDiscovery {
    pub ports: Vec<u16>,
    pub subnets: Vec<String>,
    pub probe_command: Option<Vec<u8>>,
    pub connect_timeout_ms: u64,
    pub io_timeout_ms: u64,
    pub max_concurrent: usize,
    pub preferred_host: Option<String>,
    pub preferred_retry: u32,
    pub preferred_retry_delay_ms: u64,
    pub use_arp_cache: bool,
    pub use_mdns: bool,
    pub mdns_timeout_ms: u64,
    pub use_ssdp: bool,
    pub ssdp_timeout_ms: u64,
    pub response_filter: Option<Vec<u8>>,
    pub subnet_prefix: u8,
    pub tcp_linger_seconds: Option<u32>,
}

/// The ports of a discovery: `port` (when given) followed by `ports`, each
/// once, in order of first appearance.
pub open spec fn merged_ports(port: Option<u16>, ports: Seq<u16>) -> Seq<u16> {
    dedup_first(
        match port {
            Some(p) => seq![p] + ports,
            None => ports,
        },
    )
}

/// The message for a subnet width outside `[16, 32]`.
pub open spec fn subnet_prefix_message(p: nat) -> Seq<char> {
    "subnet_prefix /"@ + decimal(p) + " out of range; must be in [16, 32]"@
}

impl TcpDiscovery {
    /// A discovery with the given settings. `subnet_prefix` must lie in
    /// `[16, 32]`; `port` and `ports` are merged without repeats.
    pub fn new(
        port: Option<u16>,
        ports: Vec<u16>,
        subnets: Vec<String>,
        probe_command: Option<Vec<u8>>,
        connect_timeout_ms: u64,
        io_timeout_ms: u64,
        max_concurrent: usize,
        preferred_host: Option<String>,
        preferred_retry: u32,
        preferred_retry_delay_ms: u64,
        use_arp_cache: bool,
        use_mdns: bool,
        mdns_timeout_ms: u64,
        use_ssdp: bool,
        ssdp_timeout_ms: u64,
        response_filter: Option<Vec<u8>>,
        subnet_prefix: u8,
        tcp_linger_seconds: Option<u32>,
    ) -> (r: Result<TcpDiscovery, String>)
        ensures
            r is Err <==> !(16 <= subnet_prefix <= 32),
            r matches Err(m) ==> m@ == subnet_prefix_message(subnet_prefix as nat),
            r matches Ok(d) ==> {
                &&& d.ports@ == merged_ports(port, ports@)
                &&& d.subnets == subnets
                &&& d.probe_command == probe_command
                &&& d.connect_timeout_ms == connect_timeout_ms
                &&& d.io_timeout_ms == io_timeout_ms
                &&& d.max_concurrent == max_concurrent
                &&& d.preferred_host == preferred_host
                &&& d.preferred_retry == preferred_retry
                &&& d.preferred_retry_delay_ms == preferred_retry_delay_ms
                &&& d.use_arp_cache == use_arp_cache
                &&& d.use_mdns == use_mdns
                &&& d.mdns_timeout_ms == mdns_timeout_ms
                &&& d.use_ssdp == use_ssdp
                &&& d.ssdp_timeout_ms == ssdp_timeout_ms
                &&& d.response_filter == response_filter
                &&& d.subnet_prefix == subnet_prefix
                &&& d.tcp_linger_seconds == tcp_linger_seconds
            },
    {
        if subnet_prefix < 16 || subnet_prefix > 32 {
            let mut m = "subnet_prefix /".to_owned();
            push_decimal(&mut m, subnet_prefix as u64);
            let m = m.concat(" out of range; must be in [16, 32]");
            return Err(m);
        }
        let mut all: Vec<u16> = Vec::new();
        match port {
            Some(p) => all.push(p),
            None => {},
        }
        let mut i: usize = 0;
        let ghost head = all@;
        while i < ports.len()
            invariant
                i <= ports@.len(),
                all@ == head + ports@.take(i as int),
            decreases ports@.len() - i,
        {
            all.push(ports[i]);
            assert(ports@.take(i + 1) =~= ports@.take(i as int).push(ports@[i as int]));
            i = i + 1;
        }
        assert(ports@.take(ports@.len() as int) =~= ports@);
        assert(all@ =~= match port {
            Some(p) => seq![p] + ports@,
            None => ports@,
        });
        let merged = crate::collect::dedup_ports(&all);
        Ok(
            TcpDiscovery {
                ports: merged,
                subnets,
                probe_command,
                connect_timeout_ms,
                io_timeout_ms,
                max_concurrent,
                preferred_host,
                preferred_retry,
                preferred_retry_delay_ms,
                use_arp_cache,
                use_mdns,
                mdns_timeout_ms,
                use_ssdp,
                ssdp_timeout_ms,
                response_filter,
                subnet_prefix,
                tcp_linger_seconds,
            },
        )
    }

    /// Discovery needs at least one port.
    pub fn check_ports(&self) -> (r: Result<(), String>)
        ensures
            r is Err <==> self.ports@.len() == 0,
            r matches Err(m) ==> m@ == "TcpDiscovery requires at least one port (use port= or ports=)"@,
    {
        if self.ports.len() == 0 {
            return Err("TcpDiscovery requires at least one port (use port= or ports=)".to_owned());
        }
        Ok(())
    }
}

/// The merged ports list each port once, and exactly the ports given in
/// `port` or `ports`.
pub proof fn lemma_merged_ports(port: Option<u16>, ports: Seq<u16>, p: u16)
    ensures
        merged_ports(port, ports).no_duplicates(),
        merged_ports(port, ports).contains(p) <==> (port == Some(p) || ports.contains(p)),
{
    let all = match port {
        Some(q) => seq![q] + ports,
        None => ports,
    };
    crate::collect::lemma_dedup_first_distinct(all);
    crate::collect::lemma_dedup_first_contains(all, p);
    match port {
        Some(q) => {
            if ports.contains(p) {
                let i = choose|i: int| 0 <= i < ports.len() && ports[i] == p;
                assert(all[i + 1] == p);
            }
            if all.contains(p) && p != q {
                let i = choose|i: int| 0 <= i < all.len() && all[i] == p;
                assert(ports[i - 1] == p);
            }
            assert(all[0] == q);
        },
        None => {},
    }
}

} // verus!
