use dafydd::types::{DeviceMatch, InfoMap, Transport};

fn dm(transport: Transport, address: &str, response: Option<Vec<u8>>, info: InfoMap) -> DeviceMatch {
    DeviceMatch { transport, address: address.to_string(), response, info }
}

fn info_of(pairs: &[(&str, &str)]) -> InfoMap {
    let mut m = InfoMap::new();
    for (k, v) in pairs {
        m.insert(k.to_string(), v.to_string());
    }
    m
}

#[test]
fn test_device_match_eq() {
    let dm1 = dm(Transport::Tcp, "192.168.1.1:80", Some(vec![1, 2, 3]), InfoMap::new());
    let dm2 = dm(Transport::Tcp, "192.168.1.1:80", Some(vec![1, 2, 3]), InfoMap::new());
    assert!(dm1.__eq__(&dm2));
}

#[test]
fn test_device_match_neq_response() {
    let dm1 = dm(Transport::Tcp, "192.168.1.1:80", Some(vec![1, 2, 3]), InfoMap::new());
    let dm2 = dm(Transport::Tcp, "192.168.1.1:80", None, InfoMap::new());
    assert!(!dm1.__eq__(&dm2));
}

#[test]
fn test_device_match_neq() {
    let dm1 = dm(Transport::Tcp, "192.168.1.1:80", None, InfoMap::new());
    let dm2 = dm(Transport::Tcp, "192.168.1.2:80", None, InfoMap::new());
    let dm3 = dm(Transport::Serial, "192.168.1.1:80", None, InfoMap::new());
    assert!(!dm1.__eq__(&dm2));
    assert!(!dm1.__eq__(&dm3));
}

#[test]
fn test_device_match_hash() {
    let dm1 = dm(Transport::Usb, "1234:5678", Some(vec![1, 2, 3]), InfoMap::new());
    let dm2 = dm(Transport::Usb, "1234:5678", Some(vec![1, 2, 3]), InfoMap::new());
    assert_eq!(dm1.__hash__(), dm2.__hash__());
}

#[test]
fn test_device_match_hash_different_responses() {
    let dm1 = dm(Transport::Usb, "1234:5678", None, InfoMap::new());
    let dm2 = dm(Transport::Usb, "1234:5678", Some(vec![0xFF]), InfoMap::new());
    assert_ne!(dm1.__hash__(), dm2.__hash__());
}

#[test]
fn test_hash_eq_invariant() {
    let a = dm(Transport::Tcp, "10.0.0.1:502", Some(vec![1, 2, 3]), info_of(&[("key", "value")]));
    let b = dm(Transport::Tcp, "10.0.0.1:502", Some(vec![1, 2, 3]), info_of(&[("key", "value")]));
    assert!(a.__eq__(&b), "identical DeviceMatch must be equal");
    assert_eq!(a.__hash__(), b.__hash__(), "equal DeviceMatch must have equal hashes");
    let c = dm(Transport::Tcp, "10.0.0.1:502", Some(vec![1, 2, 3]), info_of(&[("key", "different")]));
    assert!(!a.__eq__(&c), "DeviceMatch with different info must not be equal");
    assert_eq!(
        a.__hash__(),
        c.__hash__(),
        "DeviceMatch with different info must still have equal hashes (info excluded from hash)"
    );
}

#[test]
fn test_device_match_sort() {
    let dm1 = dm(Transport::Serial, "COM1", None, InfoMap::new());
    let dm2 = dm(Transport::Serial, "COM2", None, InfoMap::new());
    assert!(dm1.__lt__(&dm2));
    assert!(!dm2.__lt__(&dm1));
}

#[test]
fn test_tcp_host_and_port_getters() {
    let tcp = dm(Transport::Tcp, "10.0.0.1:502", None, InfoMap::new());
    assert_eq!(tcp.host(), Some("10.0.0.1"));
    assert_eq!(tcp.port(), Some(502));
    let serial = dm(Transport::Serial, "/dev/ttyUSB0", None, InfoMap::new());
    assert_eq!(serial.host(), None);
    assert_eq!(serial.port(), None);
    let usb = dm(Transport::Usb, "0x04d8:0x00dd", None, InfoMap::new());
    assert_eq!(usb.host(), None);
    assert_eq!(usb.port(), None);
}

#[test]
fn test_usb_vendor_product_getters() {
    let usb = dm(Transport::Usb, "0x04d8:0x00dd", None, InfoMap::new());
    assert_eq!(usb.vendor_id(), Some(0x04d8));
    assert_eq!(usb.product_id(), Some(0x00dd));
    let tcp = dm(Transport::Tcp, "10.0.0.1:502", None, InfoMap::new());
    assert_eq!(tcp.vendor_id(), None);
    assert_eq!(tcp.product_id(), None);
}

#[test]
fn test_usb_is_hid() {
    let hid = dm(Transport::Usb, "0x04d8:0x00dd", None, info_of(&[("device_class", "3")]));
    assert!(hid.is_hid());
    let not_hid = dm(Transport::Usb, "0x04d8:0x00dd", None, info_of(&[("device_class", "0")]));
    assert!(!not_hid.is_hid());
    let tcp = dm(Transport::Tcp, "10.0.0.1:502", None, InfoMap::new());
    assert!(!tcp.is_hid());
}

#[test]
fn test_serial_baud_rate_getter() {
    let with_baud = dm(Transport::Serial, "/dev/ttyUSB0", None, info_of(&[("baud_rate", "115200")]));
    assert_eq!(with_baud.baud_rate(), Some(115_200));
    let without_baud = dm(Transport::Serial, "/dev/ttyUSB0", None, InfoMap::new());
    assert_eq!(without_baud.baud_rate(), None);
}

#[test]
fn info_map_insert_replaces_and_reports_previous() {
    let mut m = InfoMap::new();
    assert_eq!(m.insert("k".to_string(), "v1".to_string()), None);
    assert_eq!(m.insert("k".to_string(), "v2".to_string()), Some("v1".to_string()));
    assert_eq!(m.get("k").map(String::as_str), Some("v2"));
    assert_eq!(m.len(), 1);
    assert!(m.get("missing").is_none());
}

#[test]
fn tcp_host_of_ipv6_address_keeps_brackets() {
    let tcp = dm(Transport::Tcp, "[fe80::1]:8080", None, InfoMap::new());
    assert_eq!(tcp.host(), Some("[fe80::1]"));
    assert_eq!(tcp.port(), Some(8080));
}

#[test]
fn tcp_port_out_of_range_is_none() {
    let tcp = dm(Transport::Tcp, "10.0.0.1:70000", None, InfoMap::new());
    assert_eq!(tcp.port(), None);
}

#[test]
fn baud_rate_that_does_not_parse_is_none() {
    let m = dm(Transport::Serial, "COM3", None, info_of(&[("baud_rate", "fast")]));
    assert_eq!(m.baud_rate(), None);
}

#[test]
fn new_without_info_has_empty_metadata() {
    let m = DeviceMatch::new(Transport::Usb, "0x1234:0x5678".to_string(), None, None);
    assert!(m.info.is_empty());
    assert_eq!(m.address, "0x1234:0x5678");
}
