use dafydd::correlation::{correlate_usb_serial, partition_by_transport};
use dafydd::net::ndp::{ndp_line_with, neigh_line_with};
use dafydd::preferred::{preferred_next, PreferredNext};
use dafydd::tcp::scan::{probe_outcome, v6_socket_text, Endpoint, HostAddr};
use dafydd::types::{BusParamValue, DeviceMatch, InfoMap, Transport};

fn dm(transport: Transport, address: &str, info: &[(&str, &str)]) -> DeviceMatch {
    let mut m = InfoMap::new();
    for (k, v) in info {
        m.insert(k.to_string(), v.to_string());
    }
    DeviceMatch { transport, address: address.to_string(), response: None, info: m }
}

#[test]
fn preferred_target_is_probed_retry_plus_one_times() {
    assert_eq!(preferred_next(0, 2, false), PreferredNext::RetryAfterDelay);
    assert_eq!(preferred_next(1, 2, false), PreferredNext::RetryAfterDelay);
    assert_eq!(preferred_next(2, 2, false), PreferredNext::FallBack);
    assert_eq!(preferred_next(0, 0, false), PreferredNext::FallBack);
    assert_eq!(preferred_next(1, 2, true), PreferredNext::Found);
}

#[test]
fn partition_keeps_every_match_once() {
    let ms = vec![
        dm(Transport::Tcp, "10.0.0.1:80", &[]),
        dm(Transport::Serial, "COM1", &[]),
        dm(Transport::Usb, "0x0001:0x0002", &[]),
        dm(Transport::Serial, "COM2", &[]),
    ];
    let (s, u, t) = partition_by_transport(&ms);
    assert_eq!(s.len() + u.len() + t.len(), ms.len());
    assert_eq!(s[1].address, "COM2");
    assert_eq!(u[0].address, "0x0001:0x0002");
    assert_eq!(t[0].address, "10.0.0.1:80");
}

#[test]
fn correlation_pairs_by_serial_number() {
    let usb = vec![
        dm(Transport::Usb, "0x0403:0x6001:A1", &[("serial_number", "A1")]),
        dm(Transport::Usb, "0x0403:0x6001", &[]),
        dm(Transport::Usb, "0x0403:0x6001:B2", &[("serial_number", "B2")]),
    ];
    let serial = vec![
        dm(Transport::Serial, "/dev/ttyUSB0", &[("serial_number", "B2")]),
        dm(Transport::Serial, "/dev/ttyUSB1", &[("serial_number", "A1")]),
        dm(Transport::Tcp, "10.0.0.1:80", &[("serial_number", "A1")]),
    ];
    let pairs = correlate_usb_serial(&usb, &serial);
    assert_eq!(pairs.len(), 2);
    assert_eq!(pairs[0].usb.address, "0x0403:0x6001:A1");
    assert_eq!(pairs[0].serial.address, "/dev/ttyUSB1");
    assert_eq!(pairs[1].serial.address, "/dev/ttyUSB0");
}

#[test]
fn v6_socket_text_with_and_without_scope() {
    assert_eq!(v6_socket_text("fe80::1", 0, 8080), "[fe80::1]:8080");
    assert_eq!(v6_socket_text("fe80::1", 4, 22), "[fe80::1%4]:22");
}

#[test]
fn probe_outcome_rules() {
    let e = Endpoint { host: HostAddr::V4([10, 0, 0, 2]), port: 23 };
    let open = probe_outcome(&e, false, b"ignored", Some(b"x"), None).unwrap();
    assert_eq!(open.address, "10.0.0.2:23");
    assert!(open.response.is_none());
    assert!(probe_outcome(&e, true, b"", None, None).is_none());
    assert!(probe_outcome(&e, true, b"login:", Some(b"ssh"), None).is_none());
    let hit = probe_outcome(&e, true, b"login:", Some(b"log"), Some("router")).unwrap();
    assert_eq!(hit.response, Some(b"login:".to_vec()));
    assert_eq!(hit.info.get("hostname").map(String::as_str), Some("router"));
}

#[test]
fn empty_tcp_filter_matches_any_reply() {
    let e = Endpoint { host: HostAddr::V4([10, 0, 0, 2]), port: 23 };
    let hit = probe_outcome(&e, true, b"anything", Some(b""), None).unwrap();
    assert_eq!(hit.response, Some(b"anything".to_vec()));
    assert!(probe_outcome(&e, true, b"", Some(b""), None).is_none());
}

#[test]
fn neighbour_rows_given_their_address() {
    let mut a = [0u8; 16];
    a[0] = 0xfe;
    a[1] = 0x80;
    a[15] = 7;
    let mut lo = [0u8; 16];
    lo[15] = 1;
    assert_eq!(neigh_line_with(b"x dev eth0 REACHABLE", Some(a)), Some(a));
    assert_eq!(neigh_line_with(b"x dev eth0 FAILED", Some(a)), None);
    assert_eq!(neigh_line_with(b"x dev lo REACHABLE", Some(lo)), None);
    assert_eq!(neigh_line_with(b"x dev eth0 STALE", None), None);
    assert_eq!(ndp_line_with(b"x aa:bb en0 permanent R", Some(a)), Some(a));
    assert_eq!(ndp_line_with(b"x (incomplete) en0 expired N", Some(a)), None);
    assert_eq!(ndp_line_with(b"", Some(a)), None);
}

#[test]
fn info_pairs_round_trip() {
    let m = dm(Transport::Serial, "COM1", &[("baud_rate", "9600"), ("parity", "even")]);
    let mut pairs = m.info.to_pairs();
    pairs.sort();
    assert_eq!(
        pairs,
        vec![("baud_rate".to_string(), "9600".to_string()), ("parity".to_string(), "even".to_string())]
    );
}

#[test]
fn bus_params_for_each_transport() {
    let s = dm(Transport::Serial, "COM1", &[("baud_rate", "9600"), ("parity", "even"), ("stop_bits", "2")]);
    let p = s.bus_params();
    assert_eq!(p[0], ("port".to_string(), BusParamValue::Text("COM1".to_string())));
    assert_eq!(p[1], ("baudrate".to_string(), BusParamValue::Number(9600)));
    assert_eq!(p[2], ("parity".to_string(), BusParamValue::Text("E".to_string())));
    assert_eq!(p[3], ("stopbits".to_string(), BusParamValue::Number(2)));
    let t = dm(Transport::Tcp, "10.0.0.1:502", &[]);
    assert_eq!(
        t.bus_params(),
        vec![
            ("host".to_string(), BusParamValue::Text("10.0.0.1".to_string())),
            ("port".to_string(), BusParamValue::Number(502)),
        ]
    );
    let u = dm(Transport::Usb, "0x04d8:0x00dd:SN9", &[("serial_number", "SN9")]);
    assert_eq!(u.bus_params().len(), 3);
}
