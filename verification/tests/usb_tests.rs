use dafydd::usb::{apply_filters, build_device_match, UsbDeviceInfo, UsbDiscovery, UsbWatch};

fn device(vid: u16, pid: u16, class: u8, mfg: Option<&str>, product: Option<&str>, sn: Option<&str>) -> UsbDeviceInfo {
    UsbDeviceInfo {
        vendor_id: vid,
        product_id: pid,
        class,
        manufacturer: mfg.map(str::to_string),
        product: product.map(str::to_string),
        serial_number: sn.map(str::to_string),
    }
}

#[test]
fn device_match_formats_codes_and_strings() {
    let d = device(0x04d8, 0x00dd, 0, Some("Microchip"), Some("MCP2221"), Some("0001234"));
    let m = build_device_match(&d);
    assert_eq!(m.address, "0x04d8:0x00dd:0001234");
    assert_eq!(m.info.get("vendor_id").map(String::as_str), Some("0x04d8"));
    assert_eq!(m.info.get("product_id").map(String::as_str), Some("0x00dd"));
    assert_eq!(m.info.get("device_class").map(String::as_str), Some("0"));
    assert_eq!(m.info.get("manufacturer").map(String::as_str), Some("Microchip"));
    assert_eq!(m.info.get("product").map(String::as_str), Some("MCP2221"));
    assert_eq!(m.info.get("serial_number").map(String::as_str), Some("0001234"));
    assert!(m.response.is_none());
    assert_eq!(m.vendor_id(), Some(0x04d8));
    assert_eq!(m.product_id(), Some(0x00dd));
}

#[test]
fn device_match_without_strings() {
    let m = build_device_match(&device(0xABCD, 0x1, 3, None, None, None));
    assert_eq!(m.address, "0xabcd:0x0001");
    assert_eq!(m.info.len(), 3);
    assert!(m.is_hid());
}

#[test]
fn filters_are_exact_codes_and_substrings() {
    let d = device(0x2341, 0x0043, 2, Some("Arduino LLC"), Some("Uno R3"), None);
    assert!(apply_filters(&d, None, None, None, None, None, None));
    assert!(apply_filters(&d, Some(0x2341), Some(0x0043), Some("Arduino"), Some("Uno"), None, Some(2)));
    assert!(!apply_filters(&d, Some(0x2342), None, None, None, None, None));
    assert!(!apply_filters(&d, None, Some(0x44), None, None, None, None));
    assert!(!apply_filters(&d, None, None, Some("arduino"), None, None, None));
    assert!(!apply_filters(&d, None, None, None, None, Some(""), None));
    assert!(!apply_filters(&d, None, None, None, None, None, Some(3)));
}

#[test]
fn discovery_keeps_accepted_devices_in_order() {
    let f = UsbDiscovery::new(Some(0x2341), None, None, None, None, None);
    let devices = vec![
        device(0x2341, 1, 0, None, None, Some("A")),
        device(0x1111, 1, 0, None, None, None),
        device(0x2341, 2, 0, None, None, None),
    ];
    let ms = f.matches(&devices);
    let addrs: Vec<&str> = ms.iter().map(|m| m.address.as_str()).collect();
    assert_eq!(addrs, vec!["0x2341:0x0001:A", "0x2341:0x0002"]);
}

#[test]
fn watch_reports_each_device_once_and_its_removal() {
    let f = UsbDiscovery::new(None, None, None, None, None, Some(3));
    let hid = device(1, 2, 3, None, None, None);
    let other = device(1, 3, 0, None, None, None);
    let mut w = UsbWatch::new();
    let added = w.device_connected(&f, 7, &hid).unwrap();
    assert_eq!(added.address, "0x0001:0x0002");
    assert!(w.device_connected(&f, 7, &hid).is_none());
    assert!(w.device_connected(&f, 8, &other).is_none());
    assert!(w.device_disconnected(8).is_none());
    let removed = w.device_disconnected(7).unwrap();
    assert!(removed.__eq__(&added));
    assert!(w.device_disconnected(7).is_none());
}
