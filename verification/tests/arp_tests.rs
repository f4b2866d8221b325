use dafydd::net::arp::{format_mac, ipnet_row_entry, is_unicast_target, parse_mac_colons, parse_one_msg, parse_proc_arp, parse_rt_buffer, sa_size, unicast_targets};

#[test]
fn test_sa_size_alignment() {
    assert_eq!(sa_size(0), 4);
    assert_eq!(sa_size(1), 4);
    assert_eq!(sa_size(4), 4);
    assert_eq!(sa_size(5), 8);
    assert_eq!(sa_size(16), 16);
    assert_eq!(sa_size(20), 20);
}

#[test]
fn test_is_unicast_target_filters() {
    let valid_mac = [0xaa, 0xbb, 0xcc, 0xdd, 0xee, 0x01];
    assert!(is_unicast_target([192, 168, 1, 1], valid_mac));
    assert!(!is_unicast_target([192, 168, 1, 1], [0x01, 0x00, 0x5e, 0x00, 0x00, 0xfb]));
    assert!(!is_unicast_target([192, 168, 1, 255], [0xff; 6]));
    assert!(!is_unicast_target([224, 0, 0, 251], valid_mac));
    assert!(!is_unicast_target([127, 0, 0, 1], valid_mac));
    assert!(!is_unicast_target([10, 0, 0, 255], valid_mac));
}

#[test]
fn test_format_mac_roundtrip() {
    let mac = [0xaa, 0xbb, 0xcc, 0x01, 0x02, 0x03];
    assert_eq!(format_mac(&mac), "aa:bb:cc:01:02:03");
    assert_eq!(parse_mac_colons("aa:bb:cc:01:02:03"), Some(mac));
}

#[test]
fn test_parse_mac_colons_rejects_bad() {
    assert!(parse_mac_colons("aa:bb:cc:01:02").is_none());
    assert!(parse_mac_colons("aa:bb:cc:01:02:03:04").is_none());
    assert!(parse_mac_colons("zz:bb:cc:01:02:03").is_none());
    assert!(parse_mac_colons("aabbcc010203").is_none());
}

#[test]
fn test_parse_proc_arp_complete_and_incomplete() {
    let fixture = "\
IP address       HW type     Flags       HW address            Mask     Device
192.168.1.1      0x1         0x2         aa:bb:cc:dd:ee:01     *        eth0
192.168.1.50     0x1         0x0         00:00:00:00:00:00     *        eth0
127.0.0.1        0x1         0x2         de:ad:be:ef:00:01     *        lo
192.168.1.100    0x1         0x2         11:22:33:44:55:66     *        eth0
";
    let entries = parse_proc_arp(fixture);
    assert_eq!(entries.len(), 2);
    assert!(entries.contains(&([192, 168, 1, 1], [0xaa, 0xbb, 0xcc, 0xdd, 0xee, 0x01])));
    assert!(entries.contains(&([192, 168, 1, 100], [0x11, 0x22, 0x33, 0x44, 0x55, 0x66])));
}

#[test]
fn format_mac_pads_each_byte_to_two_digits() {
    assert_eq!(format_mac(&[0, 1, 0x0a, 0x10, 0xff, 0x7f]), "00:01:0a:10:ff:7f");
    assert_eq!(parse_mac_colons("00:01:0a:10:ff:7f"), Some([0, 1, 0x0a, 0x10, 0xff, 0x7f]));
}

#[test]
fn parse_mac_colons_accepts_upper_case() {
    assert_eq!(parse_mac_colons("AA:BB:CC:01:02:03"), Some([0xaa, 0xbb, 0xcc, 1, 2, 3]));
}

#[test]
fn proc_arp_skips_short_and_malformed_rows() {
    let fixture = "IP address HW type Flags HW address Mask Device\n\
10.0.0.7 0x1 0x2\n\
10.0.0.8 0x1 zz 11:22:33:44:55:66 * eth0\n\
10.0.0.300 0x1 0x2 11:22:33:44:55:66 * eth0\n\
10.0.0.9 0x1 0x6 11:22:33:44:55:77 * eth0\n";
    let entries = parse_proc_arp(fixture);
    assert_eq!(entries, vec![([10, 0, 0, 9], [0x11, 0x22, 0x33, 0x44, 0x55, 0x77])]);
}

#[test]
fn proc_arp_of_empty_text_is_empty() {
    assert!(parse_proc_arp("").is_empty());
}

#[test]
fn unicast_targets_keeps_only_unicast_neighbours() {
    let good = ([192, 168, 1, 10], [0x02, 0, 0, 0, 0, 1]);
    let bcast = ([192, 168, 1, 11], [0xff; 6]);
    let mcast_ip = ([239, 1, 2, 3], [0x02, 0, 0, 0, 0, 2]);
    assert_eq!(unicast_targets(vec![good, bcast, mcast_ip]), vec![good]);
}

fn rt_message(ip: [u8; 4], mac: [u8; 6]) -> Vec<u8> {
    let total: usize = 92 + 16 + 20;
    let mut m = vec![0u8; total];
    m[0] = (total & 0xff) as u8;
    m[1] = (total >> 8) as u8;
    // sockaddr_in
    m[92] = 16;
    m[93] = 2;
    m[96..100].copy_from_slice(&ip);
    // sockaddr_dl with a 6-byte link-layer address and no name
    let dl = 92 + 16;
    m[dl] = 20;
    m[dl + 1] = 18;
    m[dl + 5] = 0;
    m[dl + 6] = 6;
    m[dl + 8..dl + 14].copy_from_slice(&mac);
    m
}

#[test]
fn routing_message_yields_its_neighbour() {
    let msg = rt_message([10, 1, 2, 3], [0x02, 0x11, 0x22, 0x33, 0x44, 0x55]);
    assert_eq!(parse_one_msg(&msg), Some(([10, 1, 2, 3], [0x02, 0x11, 0x22, 0x33, 0x44, 0x55])));
}

#[test]
fn routing_buffer_walks_every_message() {
    let mut buf = rt_message([10, 1, 2, 3], [0x02, 0x11, 0x22, 0x33, 0x44, 0x55]);
    buf.extend(rt_message([10, 1, 2, 4], [0x02, 0x11, 0x22, 0x33, 0x44, 0x66]));
    let entries = parse_rt_buffer(&buf);
    assert_eq!(entries.len(), 2);
    assert_eq!(entries[1], ([10, 1, 2, 4], [0x02, 0x11, 0x22, 0x33, 0x44, 0x66]));
}

#[test]
fn routing_message_too_short_yields_nothing() {
    assert_eq!(parse_one_msg(&[0u8; 50]), None);
}

#[test]
fn windows_rows_skip_incomplete_and_unreachable() {
    let mac = [0x02, 0, 0, 0, 0, 9];
    assert_eq!(ipnet_row_entry(2, 6, 2, [10, 0, 0, 1], mac), Some(([10, 0, 0, 1], mac)));
    assert_eq!(ipnet_row_entry(1, 6, 2, [10, 0, 0, 1], mac), None);
    assert_eq!(ipnet_row_entry(6, 6, 2, [10, 0, 0, 1], mac), None);
    assert_eq!(ipnet_row_entry(2, 0, 2, [10, 0, 0, 1], mac), None);
}
