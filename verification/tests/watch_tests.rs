use dafydd::types::{DeviceMatch, InfoMap, Transport};
use dafydd::watch::compute_diff;

fn make_match(address: &str) -> DeviceMatch {
    DeviceMatch { transport: Transport::Tcp, address: address.to_string(), response: None, info: InfoMap::new() }
}

#[test]
fn test_compute_diff_detects_addition() {
    let prev: Vec<DeviceMatch> = vec![];
    let current = vec![make_match("10.0.0.1:502")];
    let (added, removed) = compute_diff(&prev, &current);
    assert_eq!(added.len(), 1);
    assert_eq!(added[0].address, "10.0.0.1:502");
    assert!(removed.is_empty());
}

#[test]
fn test_compute_diff_detects_removal() {
    let prev = vec![make_match("10.0.0.1:502")];
    let current: Vec<DeviceMatch> = vec![];
    let (added, removed) = compute_diff(&prev, &current);
    assert!(added.is_empty());
    assert_eq!(removed.len(), 1);
    assert_eq!(removed[0].address, "10.0.0.1:502");
}

#[test]
fn test_compute_diff_no_spurious_events_for_unchanged() {
    let device = make_match("10.0.0.1:502");
    let prev = vec![device.clone()];
    let current = vec![device];
    let (added, removed) = compute_diff(&prev, &current);
    assert!(added.is_empty());
    assert!(removed.is_empty());
}

#[test]
fn test_compute_diff_simultaneous_add_and_remove() {
    let prev = vec![make_match("10.0.0.1:502")];
    let current = vec![make_match("10.0.0.2:502")];
    let (added, removed) = compute_diff(&prev, &current);
    assert_eq!(added.len(), 1);
    assert_eq!(added[0].address, "10.0.0.2:502");
    assert_eq!(removed.len(), 1);
    assert_eq!(removed[0].address, "10.0.0.1:502");
}

#[test]
fn diff_compares_by_address_only() {
    let mut changed = make_match("10.0.0.1:502");
    changed.response = Some(vec![1]);
    let prev = vec![make_match("10.0.0.1:502")];
    let current = vec![changed];
    let (added, removed) = compute_diff(&prev, &current);
    assert!(added.is_empty());
    assert!(removed.is_empty());
}
