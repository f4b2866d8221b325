//! USB device discovery: descriptor filters, match construction, and the
//! bookkeeping of a hotplug watch.

use vstd::prelude::*;
use vstd::string::StringSliceAdditionalSpecFns;
use std::collections::HashMap;
use crate::text::{contains_bytes, contains_run, decimal, hex_padded, push_decimal, push_hex_u16};
use crate::types::{DeviceMatch, DeviceMatchView, InfoMap, Transport, utf8};

verus! {

/// What the library reads of a USB device's descriptors.
#[derive(Debug, Clone)]
pub struct UsbDeviceInfo {
    pub vendor_id: u16,
    pub product_id: u16,
    pub class: u8,
    pub manufacturer: Option<String>,
    pub product: Option<String>,
    pub serial_number: Option<String>,
}

/// The text of an optional string.
pub open spec fn opt_string(s: Option<String>) -> Option<Seq<char>> {
    match s {
        Some(t) => Some(t@),
        None => None,
    }
}

/// The bytes of an optional filter text.
pub open spec fn filter_bytes(f: Option<&str>) -> Option<Seq<u8>> {
    match f {
        Some(t) => Some(t.spec_bytes()),
        None => None,
    }
}

/// A substring filter on an optional descriptor string: no filter passes
/// everything; a set filter needs the string to be present and to hold it.
pub open spec fn text_filter_passes(field: Option<Seq<char>>, filter: Option<Seq<u8>>) -> bool {
    match filter {
        None => true,
        Some(f) => match field {
            Some(t) => contains_run(utf8(t), f),
            None => false,
        },
    }
}

/// Whether a device passes every set filter: exact vendor, product and
/// class codes, and substrings of the manufacturer, product and serial
/// number strings.
pub open spec fn usb_accepts(
    d: UsbDeviceInfo,
    vid: Option<u16>,
    pid: Option<u16>,
    mfg: Option<Seq<u8>>,
    prod: Option<Seq<u8>>,
    sn: Option<Seq<u8>>,
    class: Option<u8>,
) -> bool {
    &&& (vid is None || vid == Some(d.vendor_id))
    &&& (pid is None || pid == Some(d.product_id))
    &&& text_filter_passes(opt_string(d.manufacturer), mfg)
    &&& text_filter_passes(opt_string(d.product), prod)
    &&& text_filter_passes(opt_string(d.serial_number), sn)
    &&& (class is None || class == Some(d.class))
}

/// Whether a descriptor string is present and, as UTF-8 bytes, is some
/// bytes, then `f`, then some more bytes.
pub open spec fn string_holds(field: Option<String>, f: Seq<u8>) -> bool {
    match field {
        Some(t) => exists|a: Seq<u8>, b: Seq<u8>| utf8(t@) == #[trigger] (a + f + b),
        None => false,
    }
}

/// The string filters are substring tests: with the code filters unset, a
/// device passes exactly when each set manufacturer, product and serial
/// filter occurs somewhere (at the start, the end or in between) in the
/// corresponding descriptor string, which must be present.
pub proof fn lemma_string_filters_are_substrings(
    d: UsbDeviceInfo,
    mfg: Option<Seq<u8>>,
    prod: Option<Seq<u8>>,
    sn: Option<Seq<u8>>,
)
    ensures
        usb_accepts(d, None, None, mfg, prod, sn, None) <==> ((mfg matches Some(f) ==> string_holds(
            d.manufacturer,
            f,
        )) && (prod matches Some(f) ==> string_holds(d.product, f)) && (sn matches Some(f)
            ==> string_holds(d.serial_number, f))),
{
    if let Some(f) = mfg {
        if let Some(t) = d.manufacturer {
            crate::text::lemma_contains_run_split(utf8(t@), f);
        }
    }
    if let Some(f) = prod {
        if let Some(t) = d.product {
            crate::text::lemma_contains_run_split(utf8(t@), f);
        }
    }
    if let Some(f) = sn {
        if let Some(t) = d.serial_number {
            crate::text::lemma_contains_run_split(utf8(t@), f);
        }
    }
}

/// Applies a substring filter to an optional descriptor string.
fn text_filter(field: &Option<String>, filter: Option<&str>) -> (r: bool)
    ensures
        r == text_filter_passes(opt_string(*field), filter_bytes(filter)),
{
    match filter {
        None => true,
        Some(f) => match field {
            Some(t) => contains_bytes(t.as_str().as_bytes(), f.as_bytes()),
            None => false,
        },
    }
}

/// Whether a device passes the vendor, product, string and class filters.
pub fn apply_filters(
    device: &UsbDeviceInfo,
    vid: Option<u16>,
    pid: Option<u16>,
    mfg_filter: Option<&str>,
    prod_filter: Option<&str>,
    sn_filter: Option<&str>,
    class_filter: Option<u8>,
) -> (r: bool)
    ensures
        r == usb_accepts(
            *device,
            vid,
            pid,
            filter_bytes(mfg_filter),
            filter_bytes(prod_filter),
            filter_bytes(sn_filter),
            class_filter,
        ),
{
    match vid {
        Some(v) => {
            if device.vendor_id != v {
                return false;
            }
        },
        None => {},
    }
    match pid {
        Some(p) => {
            if device.product_id != p {
                return false;
            }
        },
        None => {},
    }
    if !text_filter(&device.manufacturer, mfg_filter) {
        return false;
    }
    if !text_filter(&device.product, prod_filter) {
        return false;
    }
    if !text_filter(&device.serial_number, sn_filter) {
        return false;
    }
    match class_filter {
        Some(c) => device.class == c,
        None => true,
    }
}

/// A 16-bit code as `{:#06x}` writes it: `0x` and four lower-case digits.
pub open spec fn hex_code(v: u16) -> Seq<char> {
    seq!['0', 'x'] + hex_padded(v as nat, 4)
}

/// The address of a USB match: `0xVVVV:0xPPPP`, then `:` and the serial
/// number when the device has one.
pub open spec fn usb_address(d: UsbDeviceInfo) -> Seq<char> {
    let base = hex_code(d.vendor_id) + seq![':'] + hex_code(d.product_id);
    match d.serial_number {
        Some(s) => base + seq![':'] + s@,
        None => base,
    }
}

/// Inserts `k` under `key` when it is present.
pub open spec fn insert_some(m: Map<Seq<char>, Seq<char>>, key: Seq<char>, v: Option<Seq<char>>) -> Map<Seq<char>, Seq<char>> {
    match v {
        Some(t) => m.insert(key, t),
        None => m,
    }
}

/// The metadata of a USB match: vendor and product codes, device class,
/// and whichever descriptor strings the device has.
pub open spec fn usb_info(d: UsbDeviceInfo) -> Map<Seq<char>, Seq<char>> {
    let m = Map::empty().insert("vendor_id"@, hex_code(d.vendor_id)).insert(
        "product_id"@,
        hex_code(d.product_id),
    ).insert("device_class"@, decimal(d.class as nat));
    let m = insert_some(m, "manufacturer"@, opt_string(d.manufacturer));
    let m = insert_some(m, "product"@, opt_string(d.product));
    insert_some(m, "serial_number"@, opt_string(d.serial_number))
}

/// The match a USB device yields.
pub open spec fn usb_match_spec(d: UsbDeviceInfo) -> DeviceMatchView {
    DeviceMatchView {
        transport: Transport::Usb,
        address: usb_address(d),
        response: None,
        info: usb_info(d),
    }
}

/// `{:#06x}` of a 16-bit code.
fn hex_code_string(v: u16) -> (s: String)
    ensures
        s@ == hex_code(v),
{
    let mut s = "0x".to_owned();
    proof {
        reveal_strlit("0x");
    }
    push_hex_u16(&mut s, v);
    assert(s@ =~= hex_code(v));
    s
}

/// Builds the match for a USB device.
pub fn build_device_match(device: &UsbDeviceInfo) -> (m: DeviceMatch)
    ensures
        m@ == usb_match_spec(*device),
{
    let mut info = InfoMap::new();
    info.insert("vendor_id".to_owned(), hex_code_string(device.vendor_id));
    info.insert("product_id".to_owned(), hex_code_string(device.product_id));
    let mut class = String::new();
    push_decimal(&mut class, device.class as u64);
    info.insert("device_class".to_owned(), class);
    match &device.manufacturer {
        Some(t) => {
            info.insert("manufacturer".to_owned(), t.clone());
        },
        None => {},
    }
    match &device.product {
        Some(t) => {
            info.insert("product".to_owned(), t.clone());
        },
        None => {},
    }
    match &device.serial_number {
        Some(t) => {
            info.insert("serial_number".to_owned(), t.clone());
        },
        None => {},
    }
    let mut address = hex_code_string(device.vendor_id);
    address.push(':');
    address = address.concat(hex_code_string(device.product_id).as_str());
    match &device.serial_number {
        Some(t) => {
            address.push(':');
            address = address.concat(t.as_str());
        },
        None => {},
    }
    let m = DeviceMatch { transport: Transport::Usb, address, response: None, info };
    assert(m@.info =~= usb_info(*device));
    assert(m@.address =~= usb_address(*device));
    m
}

/// The filters of a USB discovery.
#[derive(Debug, Clone)]
pub struct UsbDiscovery {
    pub vid: Option<u16>,
    pub pid: Option<u16>,
    pub manufacturer: Option<String>,
    pub product_string: Option<String>,
    pub serial_number: Option<String>,
    pub device_class: Option<u8>,
}

/// The bytes of an optional filter string.
pub open spec fn opt_filter(s: Option<String>) -> Option<Seq<u8>> {
    match s {
        Some(t) => Some(utf8(t@)),
        None => None,
    }
}

/// Whether a discovery's filters accept a device.
pub open spec fn discovery_accepts(f: UsbDiscovery, d: UsbDeviceInfo) -> bool {
    usb_accepts(
        d,
        f.vid,
        f.pid,
        opt_filter(f.manufacturer),
        opt_filter(f.product_string),
        opt_filter(f.serial_number),
        f.device_class,
    )
}

/// The matches for the accepted devices of a list, in order.
pub open spec fn discovered(f: UsbDiscovery, devices: Seq<UsbDeviceInfo>) -> Seq<DeviceMatchView>
    decreases devices.len(),
{
    if devices.len() == 0 {
        Seq::empty()
    } else {
        let rest = discovered(f, devices.drop_last());
        if discovery_accepts(f, devices.last()) {
            rest.push(usb_match_spec(devices.last()))
        } else {
            rest
        }
    }
}

/// The filter text of an optional string, as a `&str`.
fn as_filter(s: &Option<String>) -> (r: Option<&str>)
    ensures
        filter_bytes(r) == opt_filter(*s),
{
    match s {
        Some(t) => Some(t.as_str()),
        None => None,
    }
}

impl UsbDiscovery {
    /// A discovery with the given filters; `None` leaves a filter unset.
    pub fn new(
        vid: Option<u16>,
        pid: Option<u16>,
        manufacturer: Option<String>,
        product_string: Option<String>,
        serial_number: Option<String>,
        device_class: Option<u8>,
    ) -> (r: UsbDiscovery)
        ensures
            r.vid == vid,
            r.pid == pid,
            r.manufacturer == manufacturer,
            r.product_string == product_string,
            r.serial_number == serial_number,
            r.device_class == device_class,
    {
        UsbDiscovery { vid, pid, manufacturer, product_string, serial_number, device_class }
    }

    /// Whether the filters accept a device.
    pub fn accepts(&self, device: &UsbDeviceInfo) -> (r: bool)
        ensures
            r == discovery_accepts(*self, *device),
    {
        apply_filters(
            device,
            self.vid,
            self.pid,
            as_filter(&self.manufacturer),
            as_filter(&self.product_string),
            as_filter(&self.serial_number),
            self.device_class,
        )
    }

    /// The matches for the connected devices that pass the filters.
    pub fn matches(&self, devices: &[UsbDeviceInfo]) -> (r: Vec<DeviceMatch>)
        ensures
            crate::tcp::scan::match_views(r@) == discovered(*self, devices@),
    {
        let mut out: Vec<DeviceMatch> = Vec::new();
        let mut i: usize = 0;
        while i < devices.len()
            invariant
                i <= devices@.len(),
                crate::tcp::scan::match_views(out@) == discovered(*self, devices@.take(i as int)),
            decreases devices@.len() - i,
        {
            proof {
                assert(devices@.take(i + 1).drop_last() =~= devices@.take(i as int));
                assert(devices@.take(i + 1).last() == devices@[i as int]);
            }
            if self.accepts(&devices[i]) {
                let ghost before = out@;
                out.push(build_device_match(&devices[i]));
                assert(crate::tcp::scan::match_views(out@) =~= crate::tcp::scan::match_views(
                    before,
                ).push(usb_match_spec(devices@[i as int])));
            }
            i = i + 1;
        }
        assert(devices@.take(devices@.len() as int) =~= devices@);
        out
    }
}

/// A watch state after a device connects: an accepted device that is not
/// present yet is present and reported; anything else changes nothing.
pub open spec fn after_connect(s: Map<u64, DeviceMatchView>, accepted: bool, id: u64, m: DeviceMatchView) -> (Map<u64, DeviceMatchView>, Option<DeviceMatchView>) {
    if accepted && !s.contains_key(id) {
        (s.insert(id, m), Some(m))
    } else {
        (s, None)
    }
}

/// A watch state after a device disconnects: a present device is dropped
/// and its match reported.
pub open spec fn after_disconnect(s: Map<u64, DeviceMatchView>, id: u64) -> (Map<u64, DeviceMatchView>, Option<DeviceMatchView>) {
    if s.contains_key(id) {
        (s.remove(id), Some(s[id]))
    } else {
        (s, None)
    }
}

/// The devices a hotplug watch has reported as present, keyed by an
/// identifier of each connected device.
pub struct UsbWatch {
    present: HashMap<u64, DeviceMatch>,
}

impl View for UsbWatch {
    type V = Map<u64, DeviceMatchView>;

    closed spec fn view(&self) -> Map<u64, DeviceMatchView> {
        self.present@.map_values(|m: DeviceMatch| m@)
    }
}

impl UsbWatch {
    /// A watch that tracks nothing yet.
    pub fn new() -> (w: UsbWatch)
        ensures
            w@ == Map::<u64, DeviceMatchView>::empty(),
    {
        let w = UsbWatch { present: HashMap::new() };
        assert(w@ =~= Map::<u64, DeviceMatchView>::empty());
        w
    }

    /// Records a connected device. Returns the match to report as added when
    /// the filters accept the device and it is not present already.
    pub fn device_connected(&mut self, filters: &UsbDiscovery, id: u64, info: &UsbDeviceInfo) -> (r: Option<DeviceMatch>)
        ensures
            (final(self)@, match r {
                Some(m) => Some(m@),
                None => None,
            }) == after_connect(
                old(self)@,
                discovery_accepts(*filters, *info),
                id,
                usb_match_spec(*info),
            ),
    {
        broadcast use vstd::std_specs::hash::group_hash_axioms;

        if !filters.accepts(info) {
            return None;
        }
        if self.present.contains_key(&id) {
            return None;
        }
        let m = build_device_match(info);
        let report = m.duplicate();
        let ghost before = self.present@;
        self.present.insert(id, m);
        assert(self@ =~= before.map_values(|m: DeviceMatch| m@).insert(id, usb_match_spec(*info)));
        Some(report)
    }

    /// Records a disconnected device. Returns the match to report as removed
    /// when the device was present.
    pub fn device_disconnected(&mut self, id: u64) -> (r: Option<DeviceMatch>)
        ensures
            (final(self)@, match r {
                Some(m) => Some(m@),
                None => None,
            }) == after_disconnect(old(self)@, id),
    {
        broadcast use vstd::std_specs::hash::group_hash_axioms;

        let ghost before = self.present@;
        let r = self.present.remove(&id);
        assert(self@ =~= before.map_values(|m: DeviceMatch| m@).remove(id));
        r
    }
}

/// A device that a watch reports as added is reported as removed, with the
/// same match, when it disconnects.
pub proof fn lemma_watch_removal_returns_added(s: Map<u64, DeviceMatchView>, accepted: bool, id: u64, m: DeviceMatchView)
    requires
        after_connect(s, accepted, id, m).1 is Some,
    ensures
        after_disconnect(after_connect(s, accepted, id, m).0, id) == (s.remove(id), Some(m)),
{
    assert(!s.contains_key(id));
    assert(s.insert(id, m).remove(id) =~= s.remove(id));
}

/// A present device is not reported as added a second time.
pub proof fn lemma_watch_reports_once(s: Map<u64, DeviceMatchView>, accepted: bool, id: u64, m: DeviceMatchView, accepted2: bool, m2: DeviceMatchView)
    requires
        after_connect(s, accepted, id, m).1 is Some,
    ensures
        after_connect(after_connect(s, accepted, id, m).0, accepted2, id, m2).1 is None,
{
}

/// A disconnect for a device the watch does not track changes nothing and
/// reports nothing.
pub proof fn lemma_watch_unknown_disconnect(s: Map<u64, DeviceMatchView>, id: u64)
    requires
        !s.contains_key(id),
    ensures
        after_disconnect(s, id) == (s, None::<DeviceMatchView>),
{
}

} // verus!
