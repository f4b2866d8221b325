use dafydd::net::ipv4::parse_socket_v4;
use dafydd::tcp::stage::{scan_step, ScanAction, ScanEvent};
use dafydd::net::arp::ArpEntry;
use dafydd::tcp::scan::{
    accept_tcp_response, batch_size, build_match, build_priority_addrs, endpoint_text, merge_by_address, parse_subnets,
    probe_targets, raw_probe_targets, tag_match_with, tag_priority_match, Endpoint, HostAddr, PRIORITY_LAST_OCTETS,
};
use dafydd::tcp::subnet::{local_subnets, network_address, parse_subnet, prefix_of_netmask, InterfaceAddr, IpNetwork};
use dafydd::tcp::sweep::{remaining_hosts, SweepCursor};
use dafydd::tcp::TcpDiscovery;
use dafydd::types::{DeviceMatch, InfoMap, Transport};

fn v4(a: [u8; 4], port: u16) -> Endpoint {
    Endpoint { host: HostAddr::V4(a), port }
}

fn interfaces() -> Option<Vec<InterfaceAddr>> {
    let ifaces = if_addrs::get_if_addrs().ok()?;
    Some(
        ifaces
            .into_iter()
            .map(|i| match i.addr {
                if_addrs::IfAddr::V4(a) => InterfaceAddr::V4 { ip: a.ip.octets(), netmask: a.netmask.octets() },
                if_addrs::IfAddr::V6(_) => InterfaceAddr::V6,
            })
            .collect(),
    )
}

fn key(e: &Endpoint) -> String {
    endpoint_text(e)
}

#[test]
fn test_build_match_empty_response() {
    let addr = v4([127, 0, 0, 1], 8080);
    let m = build_match(&addr, &[], None);
    assert_eq!(m.address, "127.0.0.1:8080");
    assert_eq!(m.transport, Transport::Tcp);
    assert!(m.response.is_none());
    assert!(m.info.is_empty());
}

#[test]
fn test_build_match_with_response_and_hostname() {
    let addr = v4([192, 168, 1, 100], 80);
    let m = build_match(&addr, b"hello", Some("my-device"));
    assert_eq!(m.address, "192.168.1.100:80");
    assert_eq!(m.response, Some(b"hello".to_vec()));
    assert_eq!(m.info.get("hostname").map(String::as_str), Some("my-device"));
}

#[test]
fn test_local_subnets_default_never_panics() {
    let _subnets = local_subnets(24, interfaces()).ok().expect("/24 is in [16, 32]");
}

#[test]
fn test_local_subnets_rejects_out_of_range() {
    assert!(local_subnets(15, interfaces()).is_err());
    assert!(local_subnets(33, interfaces()).is_err());
    assert!(local_subnets(0, interfaces()).is_err());
}

#[test]
fn test_local_subnets_accepts_full_range() {
    for p in 16u8..=32 {
        assert!(local_subnets(p, interfaces()).is_ok(), "/{p} should be accepted");
    }
}

#[test]
fn test_priority_last_octets_reasonable() {
    for &octet in PRIORITY_LAST_OCTETS.iter() {
        assert_ne!(octet, 255);
        assert_ne!(octet, 0);
    }
}

#[test]
fn local_subnets_clamps_skips_and_dedups() {
    let ifaces = vec![
        InterfaceAddr::V4 { ip: [10, 1, 2, 3], netmask: [255, 255, 0, 0] },
        InterfaceAddr::V4 { ip: [192, 168, 5, 77], netmask: [255, 255, 255, 192] },
        InterfaceAddr::V4 { ip: [127, 0, 0, 1], netmask: [255, 0, 0, 0] },
        InterfaceAddr::V4 { ip: [169, 254, 3, 4], netmask: [255, 255, 0, 0] },
        InterfaceAddr::V4 { ip: [172, 16, 0, 9], netmask: [255, 0, 255, 0] },
        InterfaceAddr::V6,
        InterfaceAddr::V4 { ip: [10, 1, 2, 200], netmask: [255, 255, 255, 0] },
    ];
    let r = local_subnets(24, Some(ifaces)).ok().unwrap();
    assert_eq!(r, vec!["10.1.2.0/24".to_string(), "192.168.5.64/26".to_string()]);
}

#[test]
fn local_subnets_without_interfaces_is_empty() {
    assert_eq!(local_subnets(24, None).ok().unwrap(), Vec::<String>::new());
}

#[test]
fn local_subnets_error_names_the_prefix() {
    match local_subnets(15, None) {
        Err(e) => assert_eq!(e.message(), "invalid subnet: subnet prefix /15 out of range; must be /16..=/32 (max 65k hosts)"),
        Ok(_) => panic!("expected an error"),
    }
}

#[test]
fn netmask_prefix_and_network_address() {
    assert_eq!(prefix_of_netmask([10, 0, 0, 1], [255, 255, 255, 0]), Some(24));
    assert_eq!(prefix_of_netmask([10, 0, 0, 1], [255, 255, 255, 128]), Some(25));
    assert_eq!(prefix_of_netmask([10, 0, 0, 1], [0, 0, 0, 0]), Some(0));
    assert_eq!(prefix_of_netmask([10, 0, 0, 1], [255, 255, 0, 1]), None);
    assert_eq!(network_address(0xAC107B7B, 16), 0xAC100000);
    assert_eq!(network_address(0xAC107B7B, 32), 0xAC107B7B);
    assert_eq!(network_address(0xAC107B7B, 0), 0);
}

#[test]
fn parse_subnet_reads_both_families() {
    match parse_subnet("192.168.1.0/24") {
        Ok(IpNetwork::V4 { addr, prefix }) => {
            assert_eq!(addr, [192, 168, 1, 0]);
            assert_eq!(prefix, 24);
        }
        _ => panic!("expected an IPv4 network"),
    }
    match parse_subnet("fd00::/120") {
        Ok(IpNetwork::V6 { addr6, prefix6 }) => {
            assert_eq!(addr6[0], 0xfd);
            assert_eq!(prefix6, 120);
        }
        _ => panic!("expected an IPv6 network"),
    }
}

#[test]
fn parse_subnets_rejects_any_bad_entry() {
    let good = vec!["10.0.0.0/8".to_string(), "10.1.0.0/16".to_string()];
    assert_eq!(parse_subnets(&good).ok().unwrap().len(), 2);
    let bad = vec!["10.0.0.0/8".to_string(), "10.0.0.0/33".to_string()];
    match parse_subnets(&bad) {
        Err(e) => assert_eq!(e.message(), "invalid subnet: invalid IP address syntax"),
        Ok(_) => panic!("expected an error"),
    }
    assert!(parse_subnets(&["not a subnet".to_string()]).is_err());
}

#[test]
fn batch_size_is_four_per_connection_at_least_1024() {
    assert_eq!(batch_size(0), 1024);
    assert_eq!(batch_size(100), 1024);
    assert_eq!(batch_size(500), 2000);
    assert_eq!(batch_size(usize::MAX), usize::MAX);
}

#[test]
fn tcp_response_acceptance() {
    assert!(!accept_tcp_response(b"", None));
    assert!(accept_tcp_response(b"abc", None));
    assert!(accept_tcp_response(b"hello world", Some(b"lo w")));
    assert!(!accept_tcp_response(b"hello world", Some(b"xyz")));
    assert!(accept_tcp_response(b"hello", Some(b"")));
    assert!(!accept_tcp_response(b"", Some(b"")));
}

#[test]
fn endpoint_text_forms() {
    assert_eq!(endpoint_text(&v4([10, 0, 0, 1], 502)), "10.0.0.1:502");
    let mut a = [0u8; 16];
    a[0] = 0xfe;
    a[1] = 0x80;
    a[15] = 1;
    assert_eq!(endpoint_text(&Endpoint { host: HostAddr::V6(a, 0), port: 80 }), "[fe80::1]:80");
    assert_eq!(endpoint_text(&Endpoint { host: HostAddr::V6(a, 3), port: 80 }), "[fe80::1%3]:80");
}

#[test]
fn priority_plan_orders_arp_then_heuristics() {
    let nets = vec![IpNetwork::V4 { addr: [192, 168, 1, 0], prefix: 24 }];
    let ports = [80u16];
    let arp: Vec<ArpEntry> = vec![
        ([192, 168, 1, 1], [0x02, 0, 0, 0, 0, 1]),
        ([10, 9, 9, 9], [0x02, 0, 0, 0, 0, 2]),
        ([192, 168, 1, 77], [0x02, 0, 0, 0, 0, 3]),
    ];
    let plan = build_priority_addrs(&nets, &ports, true, &arp);
    let arp_texts: Vec<String> = plan.arp_addrs.iter().map(key).collect();
    assert_eq!(arp_texts, vec!["192.168.1.1:80", "192.168.1.77:80"]);
    assert_eq!(plan.arp_macs.len(), 2);
    let heur: Vec<String> = plan.heuristic_addrs.iter().map(key).collect();
    assert_eq!(
        heur,
        vec![
            "192.168.1.2:80",
            "192.168.1.10:80",
            "192.168.1.50:80",
            "192.168.1.100:80",
            "192.168.1.101:80",
            "192.168.1.200:80",
            "192.168.1.253:80",
            "192.168.1.254:80",
        ]
    );
}

#[test]
fn priority_plan_without_arp_and_small_subnet() {
    let nets = vec![
        IpNetwork::V4 { addr: [10, 0, 0, 0], prefix: 30 },
        IpNetwork::V6 { addr6: [0; 16], prefix6: 64 },
    ];
    let plan = build_priority_addrs(&nets, &[22, 80], false, &[([10, 0, 0, 1], [2, 0, 0, 0, 0, 1])]);
    assert!(plan.arp_addrs.is_empty());
    assert!(plan.arp_macs.is_empty());
    let heur: Vec<String> = plan.heuristic_addrs.iter().map(key).collect();
    assert_eq!(heur, vec!["10.0.0.1:22", "10.0.0.1:80", "10.0.0.2:22", "10.0.0.2:80"]);
}

#[test]
fn tagging_adds_source_and_mac() {
    let macs: Vec<ArpEntry> = vec![([10, 0, 0, 5], [0xaa, 0xbb, 0xcc, 0, 0, 1])];
    let mut m = build_match(&v4([10, 0, 0, 5], 502), b"x", None);
    tag_priority_match(&mut m, "arp_cache", Some(&macs));
    assert_eq!(m.info.get("source").map(String::as_str), Some("arp_cache"));
    assert_eq!(m.info.get("mac").map(String::as_str), Some("aa:bb:cc:00:00:01"));
    let mut h = build_match(&v4([10, 0, 0, 6], 502), b"x", None);
    tag_priority_match(&mut h, "heuristic", None);
    assert_eq!(h.info.get("source").map(String::as_str), Some("heuristic"));
    assert!(h.info.get("mac").is_none());
    let mut g = build_match(&v4([10, 0, 0, 7], 502), b"x", None);
    tag_match_with(&mut g, "arp_cache", Some(&macs), Some([10, 0, 0, 5]));
    assert_eq!(g.info.get("mac").map(String::as_str), Some("aa:bb:cc:00:00:01"));
}

#[test]
fn merge_keeps_fast_path_matches_and_drops_repeats() {
    let mk = |a: &str| DeviceMatch { transport: Transport::Tcp, address: a.to_string(), response: None, info: InfoMap::new() };
    let found = vec![mk("10.0.0.1:80"), mk("10.0.0.1:80")];
    let sweep = vec![mk("10.0.0.1:80"), mk("10.0.0.2:80"), mk("10.0.0.2:80"), mk("10.0.0.3:80")];
    let merged = merge_by_address(found, &sweep);
    let addrs: Vec<&str> = merged.iter().map(|m| m.address.as_str()).collect();
    assert_eq!(addrs, vec!["10.0.0.1:80", "10.0.0.1:80", "10.0.0.2:80", "10.0.0.3:80"]);
}

#[test]
fn sweep_cursor_walks_hosts_ports_and_skips_priority() {
    let nets = vec![IpNetwork::V4 { addr: [10, 0, 0, 0], prefix: 30 }, IpNetwork::V4 { addr: [10, 0, 1, 7], prefix: 32 }];
    let ports = [1u16, 2];
    let excluded = vec![v4([10, 0, 0, 1], 2)];
    let mut c = SweepCursor::start(&nets, &ports);
    let b1: Vec<String> = c.next_batch(&nets, &ports, &excluded, 2).iter().map(key).collect();
    assert_eq!(b1, vec!["10.0.0.1:1", "10.0.0.2:1"]);
    let b2: Vec<String> = c.next_batch(&nets, &ports, &excluded, 10).iter().map(key).collect();
    assert_eq!(b2, vec!["10.0.0.2:2", "10.0.1.7:1", "10.0.1.7:2"]);
    assert!(c.is_done(&nets));
    assert!(c.next_batch(&nets, &ports, &excluded, 10).is_empty());
}

#[test]
fn sweep_of_ipv6_network_covers_every_address() {
    let mut base = [0u8; 16];
    base[0] = 0xfd;
    let nets = vec![IpNetwork::V6 { addr6: base, prefix6: 127 }];
    let mut c = SweepCursor::start(&nets, &[9]);
    let b: Vec<String> = c.next_batch(&nets, &[9], &[], 5).iter().map(key).collect();
    assert_eq!(b, vec!["[fd00::]:9", "[fd00::1]:9"]);
}

#[test]
fn remaining_hosts_drop_priority_hosts() {
    let nets = vec![IpNetwork::V4 { addr: [10, 0, 0, 0], prefix: 29 }, IpNetwork::V6 { addr6: [0; 16], prefix6: 120 }];
    let excluded = vec![v4([10, 0, 0, 2], 80), v4([10, 0, 0, 5], 81)];
    let r = remaining_hosts(&nets, &[80, 81], &excluded);
    assert_eq!(r, vec![[10, 0, 0, 1], [10, 0, 0, 3], [10, 0, 0, 4], [10, 0, 0, 6]]);
}

#[test]
fn probe_targets_cover_addresses_times_ports() {
    let t: Vec<String> = probe_targets(&[HostAddr::V4([1, 2, 3, 4]), HostAddr::V4([5, 6, 7, 8])], &[80, 443]).iter().map(key).collect();
    assert_eq!(t, vec!["1.2.3.4:80", "1.2.3.4:443", "5.6.7.8:80", "5.6.7.8:443"]);
    let open = [([5u8, 6, 7, 8], 443u16)];
    let r: Vec<String> = raw_probe_targets(&[[5, 6, 7, 8]], &[80, 443], Some(&open)).iter().map(key).collect();
    assert_eq!(r, vec!["5.6.7.8:443"]);
    let all: Vec<String> = raw_probe_targets(&[[5, 6, 7, 8]], &[80, 443], None).iter().map(key).collect();
    assert_eq!(all, vec!["5.6.7.8:80", "5.6.7.8:443"]);
}

#[test]
fn tcp_discovery_merges_ports_and_checks_prefix() {
    let d = TcpDiscovery::new(
        Some(502), vec![80, 502, 443, 80], vec![], None, 50, 500, 500, None, 0, 500, true, false, 1000, false,
        1000, None, 24, None,
    )
    .ok()
    .unwrap();
    assert_eq!(d.ports, vec![502, 80, 443]);
    assert!(d.check_ports().is_ok());
    let e = TcpDiscovery::new(
        None, vec![], vec![], None, 50, 500, 500, None, 0, 500, true, false, 1000, false, 1000, None, 15, None,
    );
    assert_eq!(e.err(), Some("subnet_prefix /15 out of range; must be in [16, 32]".to_string()));
    let none = TcpDiscovery::new(
        None, vec![], vec![], None, 50, 500, 500, None, 0, 500, true, false, 1000, false, 1000, None, 24, None,
    )
    .ok()
    .unwrap();
    assert_eq!(
        none.check_ports().err(),
        Some("TcpDiscovery requires at least one port (use port= or ports=)".to_string())
    );
}

#[test]
fn sweep_batches_concatenate_to_one_batch() {
    let nets = vec![IpNetwork::V4 { addr: [10, 0, 0, 0], prefix: 29 }];
    let ports = [7u16, 9];
    let excluded = vec![v4([10, 0, 0, 3], 9), v4([10, 0, 0, 4], 7)];
    let mut a = SweepCursor::start(&nets, &ports);
    let mut split: Vec<String> = a.next_batch(&nets, &ports, &excluded, 3).iter().map(key).collect();
    split.extend(a.next_batch(&nets, &ports, &excluded, 4).iter().map(key));
    let mut b = SweepCursor::start(&nets, &ports);
    let whole: Vec<String> = b.next_batch(&nets, &ports, &excluded, 7).iter().map(key).collect();
    assert_eq!(split, whole);
    assert_eq!(whole.len(), 7);
    assert!(!whole.contains(&"10.0.0.3:9".to_string()));
}

#[test]
fn scan_stages_in_order() {
    assert_eq!(scan_step(ScanEvent::Started, true, true, false), ScanAction::ProbeArp);
    assert_eq!(scan_step(ScanEvent::Started, false, true, false), ScanAction::ProbeHeuristic);
    assert_eq!(scan_step(ScanEvent::Started, false, false, false), ScanAction::Ping);
    assert_eq!(scan_step(ScanEvent::ArpProbed, true, false, false), ScanAction::Ping);
    assert_eq!(scan_step(ScanEvent::HeuristicProbed, true, true, false), ScanAction::Ping);
    assert_eq!(scan_step(ScanEvent::Pinged { replied: 3 }, false, false, false), ScanAction::FindOpenPorts);
    assert_eq!(scan_step(ScanEvent::Pinged { replied: 0 }, false, false, false), ScanAction::Finish);
    assert_eq!(scan_step(ScanEvent::PingUnavailable, false, false, false), ScanAction::NextBatch);
    assert_eq!(scan_step(ScanEvent::TargetsReady { targets: 2 }, false, false, false), ScanAction::ProbeTargets);
    assert_eq!(scan_step(ScanEvent::TargetsReady { targets: 0 }, false, false, false), ScanAction::Finish);
    assert_eq!(scan_step(ScanEvent::TargetsProbed, false, false, false), ScanAction::Finish);
    assert_eq!(scan_step(ScanEvent::SweepBatch { len: 5 }, false, false, false), ScanAction::ProbeBatch);
    assert_eq!(scan_step(ScanEvent::SweepBatch { len: 0 }, false, false, false), ScanAction::Finish);
    assert_eq!(scan_step(ScanEvent::BatchProbed, false, false, false), ScanAction::NextBatch);
}

#[test]
fn cancelled_scan_starts_no_stage() {
    assert_eq!(scan_step(ScanEvent::Started, false, true, true), ScanAction::Finish);
    assert_eq!(scan_step(ScanEvent::ArpProbed, true, true, true), ScanAction::Finish);
    assert_eq!(scan_step(ScanEvent::HeuristicProbed, true, true, true), ScanAction::Finish);
    assert_eq!(scan_step(ScanEvent::PingUnavailable, false, false, true), ScanAction::Finish);
    assert_eq!(scan_step(ScanEvent::TargetsReady { targets: 2 }, false, false, true), ScanAction::Finish);
    assert_eq!(scan_step(ScanEvent::BatchProbed, false, false, true), ScanAction::Finish);
}

#[test]
fn socket_text_read_back_as_ipv4() {
    assert_eq!(parse_socket_v4(b"10.0.0.5:502"), Some([10, 0, 0, 5]));
    assert_eq!(parse_socket_v4(b"192.168.1.254:0065535"), Some([192, 168, 1, 254]));
    assert_eq!(parse_socket_v4(b"10.0.0.5:65536"), None);
    assert_eq!(parse_socket_v4(b"10.0.0.5:"), None);
    assert_eq!(parse_socket_v4(b"10.0.0.5:+80"), None);
    assert_eq!(parse_socket_v4(b"10.0.0.5"), None);
    assert_eq!(parse_socket_v4(b"10.0.0.05:80"), None);
    assert_eq!(parse_socket_v4(b"[fe80::1]:80"), None);
    assert_eq!(parse_socket_v4(b"10.0.0.5:80:1"), None);
    for text in ["10.0.0.5:502", "10.0.0.5:65536", "10.0.0.5:+80", "10.0.0.05:80", "1.2.3.4:007"] {
        let std_v4 = match text.parse::<core::net::SocketAddr>() {
            Ok(core::net::SocketAddr::V4(a)) => Some(a.ip().octets()),
            _ => None,
        };
        assert_eq!(parse_socket_v4(text.as_bytes()), std_v4, "{text}");
    }
}
