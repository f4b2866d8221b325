use dafydd::error::{DafyddError, SerialErrorKind};
use dafydd::serial::probe::{
    build_builder, list_port_matches, probe_result, response_complete, select_ports, DataBits, FlowControl, Parity,
    PortEntry, StopBits,
};
use dafydd::serial::SerialDiscovery;
use dafydd::types::Transport;

fn invalid_input(r: Result<dafydd::serial::probe::PortSettings, DafyddError>) -> String {
    match r {
        Err(DafyddError::Serial(e)) => {
            assert_eq!(e.kind, SerialErrorKind::InvalidInput);
            e.description
        }
        _ => panic!("expected an invalid-input serial error"),
    }
}

#[test]
fn builder_defaults_to_8n1_without_flow_control() {
    let s = build_builder("/dev/ttyUSB0", 9600, None, None, None, None).ok().unwrap();
    assert_eq!(s.path, "/dev/ttyUSB0");
    assert_eq!(s.baud_rate, 9600);
    assert_eq!(s.data_bits, DataBits::Eight);
    assert_eq!(s.parity, Parity::NoParity);
    assert_eq!(s.stop_bits, StopBits::One);
    assert_eq!(s.flow_control, FlowControl::NoFlowControl);
}

#[test]
fn builder_accepts_every_documented_setting() {
    let s = build_builder("COM3", 115200, Some(7), Some("even"), Some(2), Some("hardware")).ok().unwrap();
    assert_eq!(s.data_bits, DataBits::Seven);
    assert_eq!(s.parity, Parity::Even);
    assert_eq!(s.stop_bits, StopBits::Two);
    assert_eq!(s.flow_control, FlowControl::Hardware);
    let t = build_builder("COM3", 115200, Some(5), Some("odd"), Some(1), Some("software")).ok().unwrap();
    assert_eq!(t.data_bits, DataBits::Five);
    assert_eq!(t.parity, Parity::Odd);
    assert_eq!(t.flow_control, FlowControl::Software);
}

#[test]
fn builder_reports_the_first_bad_setting() {
    assert_eq!(
        invalid_input(build_builder("p", 1, Some(9), Some("bad"), Some(3), Some("bad"))),
        "invalid data bits: must be 5, 6, 7, or 8"
    );
    assert_eq!(
        invalid_input(build_builder("p", 1, None, Some("mark"), Some(3), None)),
        "invalid parity: must be 'none', 'even', or 'odd'"
    );
    assert_eq!(invalid_input(build_builder("p", 1, None, None, Some(3), None)), "invalid stop bits: must be 1 or 2");
    assert_eq!(
        invalid_input(build_builder("p", 1, None, None, None, Some("xon"))),
        "invalid flow control: must be 'none', 'hardware', or 'software'"
    );
}

#[test]
fn read_completes_on_terminator() {
    assert!(response_complete(b"*IDN? OK\r\n", Some(b"\r\n")));
    assert!(!response_complete(b"*IDN? OK\r", Some(b"\r\n")));
    assert!(!response_complete(b"OK\r\n", None));
    assert!(!response_complete(b"\n", Some(b"\r\n")));
    assert!(response_complete(b"abc", Some(b"")));
}

#[test]
fn probe_result_records_non_default_settings() {
    let m = probe_result("/dev/ttyUSB0", 19200, b"ID:42", None, Some(7), Some("even"), Some(2)).unwrap();
    assert_eq!(m.transport, Transport::Serial);
    assert_eq!(m.address, "/dev/ttyUSB0");
    assert_eq!(m.response, Some(b"ID:42".to_vec()));
    assert_eq!(m.info.get("baud_rate").map(String::as_str), Some("19200"));
    assert_eq!(m.info.get("data_bits").map(String::as_str), Some("7"));
    assert_eq!(m.info.get("parity").map(String::as_str), Some("even"));
    assert_eq!(m.info.get("stop_bits").map(String::as_str), Some("2"));
}

#[test]
fn probe_result_omits_default_settings() {
    let m = probe_result("COM1", 9600, b"x", None, Some(8), Some("none"), Some(1)).unwrap();
    assert_eq!(m.info.len(), 1);
    assert_eq!(m.baud_rate(), Some(9600));
}

#[test]
fn probe_result_needs_bytes_holding_the_filter() {
    assert!(probe_result("COM1", 9600, b"", None, None, None, None).is_none());
    assert!(probe_result("COM1", 9600, b"hello", Some(b"xyz"), None, None, None).is_none());
    assert!(probe_result("COM1", 9600, b"hello", Some(b"ell"), None, None, None).is_some());
}

fn port(name: &str, bluetooth: bool) -> PortEntry {
    PortEntry { name: name.to_string(), bluetooth }
}

#[test]
fn port_selection_rules() {
    let ports = vec![
        port("/dev/tty.usbserial-1", false),
        port("/dev/cu.usbserial-1", false),
        port("/dev/tty.Bluetooth", true),
        port("/dev/cu.Bluetooth", true),
        port("/dev/ttyUSB0", false),
    ];
    assert_eq!(
        select_ports(&ports, false, None, true),
        vec!["/dev/cu.usbserial-1", "/dev/ttyUSB0"]
    );
    assert_eq!(
        select_ports(&ports, true, None, true),
        vec!["/dev/cu.usbserial-1", "/dev/cu.Bluetooth", "/dev/ttyUSB0"]
    );
    assert_eq!(
        select_ports(&ports, false, None, false),
        vec!["/dev/tty.usbserial-1", "/dev/cu.usbserial-1", "/dev/ttyUSB0"]
    );
    assert_eq!(select_ports(&ports, true, Some("USB"), true), vec!["/dev/ttyUSB0"]);
}

#[test]
fn tty_kept_when_its_twin_is_bluetooth_and_excluded() {
    let ports = vec![port("/dev/tty.Headset", false), port("/dev/cu.Headset", true)];
    assert_eq!(select_ports(&ports, false, None, true), vec!["/dev/tty.Headset"]);
}

#[test]
fn list_only_matches_have_no_response() {
    let ms = list_port_matches(&["COM1".to_string(), "COM7".to_string()]);
    assert_eq!(ms.len(), 2);
    assert_eq!(ms[1].address, "COM7");
    assert!(ms[1].response.is_none());
    assert!(ms[1].info.is_empty());
}

fn discovery(probe: Option<Vec<u8>>, bauds: Vec<u32>) -> SerialDiscovery {
    SerialDiscovery::new(probe, bauds, 500, None, 0, 500, false, None, None, None, None, None, None, None)
}

#[test]
fn probe_command_needs_baud_rates() {
    assert_eq!(
        discovery(Some(b"*IDN?\n".to_vec()), vec![]).validate(),
        Err("baud_rates is required when probe_command is set".to_string())
    );
    assert_eq!(discovery(Some(b"*IDN?\n".to_vec()), vec![9600]).validate(), Ok(()));
    assert_eq!(discovery(None, vec![]).validate(), Ok(()));
}
