use dafydd::net::icmp::{checksum, echo_ids, echo_reply_source, echo_request, record_alive};
use dafydd::net::ndp::{parse_ip_neigh, parse_ndp_an};
use dafydd::net::pcap::{extract_src_ip, is_boring, SourceIp};
use dafydd::net::responders::{record_responder, DNS_SD_QUERY, MSEARCH};
use dafydd::net::syn_scan::{build_syn, ones_complement_sum, syn_ack_reply, tcp_checksum};
use dafydd::runtime::{thread_name, worker_threads};

#[test]
fn checksum_of_known_header() {
    // RFC 1071 example words 0x0001 0xf203 0xf4f5 0xf6f7 sum to 0xddf2 (one's complement 0x220d).
    assert_eq!(checksum(&[0x00, 0x01, 0xf2, 0x03, 0xf4, 0xf5, 0xf6, 0xf7]), 0x220d);
    assert_eq!(checksum(&[]), 0xffff);
    assert_eq!(checksum(&[0xff]), 0x00ff);
}

#[test]
fn echo_request_verifies_to_zero() {
    let pkt = echo_request(0x1234, 7);
    assert_eq!(pkt[0], 8);
    assert_eq!(&pkt[4..8], &[0x12, 0x34, 0x00, 0x07]);
    assert_eq!(checksum(&pkt), 0);
}

#[test]
fn echo_ids_wrap_at_sixteen_bits() {
    assert_eq!(echo_ids(0x1_0005, 65537), (5, 1));
}

#[test]
fn echo_reply_recognised_only_for_our_id() {
    let mut buf = [0u8; 28];
    buf[12..16].copy_from_slice(&[10, 0, 0, 9]);
    buf[20] = 0;
    buf[24] = 0x12;
    buf[25] = 0x34;
    assert_eq!(echo_reply_source(&buf, 28, 0x1234), Some([10, 0, 0, 9]));
    assert_eq!(echo_reply_source(&buf, 28, 0x1235), None);
    assert_eq!(echo_reply_source(&buf, 27, 0x1234), None);
    buf[12] = 127;
    assert_eq!(echo_reply_source(&buf, 28, 0x1234), None);
}

#[test]
fn alive_hosts_recorded_once() {
    let probed = [[10, 0, 0, 1], [10, 0, 0, 2], [10, 0, 0, 3]];
    let mut alive = Vec::new();
    record_alive(&mut alive, &probed, [10, 0, 0, 1]);
    record_alive(&mut alive, &probed, [10, 0, 0, 2]);
    record_alive(&mut alive, &probed, [10, 0, 0, 1]);
    assert_eq!(alive, vec![[10, 0, 0, 1], [10, 0, 0, 2]]);
}

#[test]
fn replies_from_unprobed_hosts_ignored() {
    let probed = [[10, 0, 0, 1]];
    let mut alive = Vec::new();
    record_alive(&mut alive, &probed, [10, 0, 0, 7]);
    assert!(alive.is_empty());
    record_alive(&mut alive, &probed, [10, 0, 0, 1]);
    assert_eq!(alive, vec![[10, 0, 0, 1]]);
    record_alive(&mut alive, &[], [10, 0, 0, 1]);
    assert_eq!(alive, vec![[10, 0, 0, 1]]);
}

#[test]
fn syn_packet_checksums_verify() {
    let src = [192, 168, 1, 5];
    let dst = [192, 168, 1, 9];
    let pkt = build_syn(src, dst, 40001, 502, 7919);
    assert_eq!(pkt.len(), 40);
    assert_eq!(ones_complement_sum(&pkt[..20]), 0);
    assert_eq!(tcp_checksum(src, dst, &pkt[20..]), 0);
    assert_eq!(pkt[33], 0x02);
}

#[test]
fn syn_ack_read_from_reply() {
    let mut buf = [0u8; 40];
    buf[0] = 0x45;
    buf[12..16].copy_from_slice(&[10, 0, 0, 3]);
    buf[22] = 0x9c;
    buf[23] = 0x41;
    buf[33] = 0x12;
    assert_eq!(syn_ack_reply(&buf, 40), Some(([10, 0, 0, 3], 0x9c41)));
    buf[33] = 0x10;
    assert_eq!(syn_ack_reply(&buf, 40), None);
}

#[test]
fn ip_neigh_keeps_complete_entries() {
    let out = b"fe80::1 dev eth0 lladdr aa:bb:cc:dd:ee:ff router REACHABLE\n\
fe80::2 dev eth0 lladdr aa:bb:cc:dd:ee:01 STALE\n\
fe80::3 dev eth0 FAILED\n\
::1 dev lo lladdr 00:00:00:00:00:00 REACHABLE\n\
garbage line PROBE\n\
2001:db8::7 dev eth0 lladdr aa:bb:cc:dd:ee:02 DELAY\n";
    let hosts = parse_ip_neigh(out);
    assert_eq!(hosts.len(), 3);
    assert_eq!(hosts[0][15], 1);
    assert_eq!(hosts[1][15], 2);
    assert_eq!(hosts[2][0..2], [0x20, 0x01]);
}

#[test]
fn ndp_an_skips_header_incomplete_and_loopback() {
    let out = b"Neighbor                        Linklayer Address  Netif Expire    St Flgs Prbs\n\
fe80::1%en0                     aa:bb:cc:dd:ee:ff  en0   23h59m58s S  R\n\
fe80::9%en0                     (incomplete)       en0   expired   N\n\
::1                             (incomplete)       lo0   permanent R\n\
2001:db8::5                     aa:bb:cc:dd:ee:01  en0   permanent R\n";
    let hosts = parse_ndp_an(out);
    assert_eq!(hosts.len(), 2);
    assert_eq!(hosts[0][0..2], [0xfe, 0x80]);
    assert_eq!(hosts[1][15], 5);
}

#[test]
fn frame_sources() {
    let mut f = vec![0u8; 34];
    f[12] = 0x08;
    f[13] = 0x00;
    f[26..30].copy_from_slice(&[10, 1, 1, 1]);
    match extract_src_ip(&f) {
        Some(SourceIp::V4(a)) => assert_eq!(a, [10, 1, 1, 1]),
        _ => panic!("expected an IPv4 source"),
    }
    f[12] = 0x86;
    f[13] = 0xdd;
    assert!(extract_src_ip(&f).is_none());
    f.resize(54, 0);
    f[22] = 0xfe;
    assert!(matches!(extract_src_ip(&f), Some(SourceIp::V6(a)) if a[0] == 0xfe));
    assert!(extract_src_ip(&f[..33]).is_none());
    assert!(is_boring(&SourceIp::V4([224, 0, 0, 251])));
    assert!(is_boring(&SourceIp::V4([255, 255, 255, 255])));
    assert!(!is_boring(&SourceIp::V4([10, 0, 0, 1])));
    let mut lo6 = [0u8; 16];
    lo6[15] = 1;
    assert!(is_boring(&SourceIp::V6(lo6)));
}

#[test]
fn responders_skip_loopback_link_local_and_repeats() {
    let mut seen = Vec::new();
    record_responder(&mut seen, [192, 168, 1, 20]);
    record_responder(&mut seen, [127, 0, 0, 1]);
    record_responder(&mut seen, [169, 254, 1, 1]);
    record_responder(&mut seen, [192, 168, 1, 20]);
    assert_eq!(seen, vec![[192, 168, 1, 20]]);
}

#[test]
fn queries_are_well_formed() {
    assert_eq!(DNS_SD_QUERY.len(), 46);
    assert_eq!(&DNS_SD_QUERY[DNS_SD_QUERY.len() - 4..], &[0x00, 0x0c, 0x00, 0x01]);
    assert!(MSEARCH.starts_with("M-SEARCH * HTTP/1.1\r\n"));
    assert!(MSEARCH.ends_with("\r\n\r\n"));
}

#[test]
fn worker_thread_count() {
    assert_eq!(worker_threads(Some("8"), Some(16)), 8);
    assert_eq!(worker_threads(Some("+3"), None), 3);
    assert_eq!(worker_threads(Some("eight"), Some(16)), 2);
    assert_eq!(worker_threads(None, Some(1)), 1);
    assert_eq!(worker_threads(None, None), 2);
    assert_eq!(thread_name(None), "dafydd-worker");
    assert_eq!(thread_name(Some("scan".to_string())), "scan");
}

#[test]
fn open_ports_recorded_once() {
    let mut open = Vec::new();
    dafydd::net::syn_scan::record_open(&mut open, ([10, 0, 0, 1], 80));
    dafydd::net::syn_scan::record_open(&mut open, ([10, 0, 0, 1], 443));
    dafydd::net::syn_scan::record_open(&mut open, ([10, 0, 0, 1], 80));
    assert_eq!(open, vec![([10, 0, 0, 1], 80), ([10, 0, 0, 1], 443)]);
}
