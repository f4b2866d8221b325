//! The values every discovery transport returns: the transport tag, the
//! metadata map, and the device match with its accessors.

use vstd::prelude::*;
use vstd::string::StringSliceAdditionalSpecFns;
use vstd::std_specs::hash::DefaultHasherAdditionalSpecFns;
use std::collections::hash_map::DefaultHasher;
use std::hash::Hasher;
use vstd::utf8::{decode_utf8, encode_utf8, encode_utf8_decode_utf8};
use crate::text::{
    bytes_eq, bytes_lt, find_byte, find_first, find_from, lemma_encode_utf8_injective,
    lemma_find_from, lemma_rfind, lex_lt, parse_radix, parse_radix_spec, rfind, rfind_byte,
    split_str_at, str_eq, trim_0x, trim_0x_prefix,
};

verus! {

/// Which physical transport was used to discover the device.
#[derive(Debug, Clone, Copy, PartialEq, Eq, Structural)]
pub enum Transport {
    /// RS-232 / RS-485 serial port.
    Serial,
    /// Universal Serial Bus.
    Usb,
    /// TCP socket over Ethernet or Wi-Fi.
    Tcp,
}

/// The map an association list of distinct keys stands for.
pub open spec fn pairs_map(s: Seq<(String, String)>) -> Map<Seq<char>, Seq<char>>
    decreases s.len(),
{
    if s.len() == 0 {
        Map::empty()
    } else {
        pairs_map(s.drop_last()).insert(s.last().0@, s.last().1@)
    }
}

/// No key occurs twice.
pub open spec fn keys_distinct(s: Seq<(String, String)>) -> bool {
    forall|i: int, j: int| 0 <= i < j < s.len() ==> s[i].0@ != s[j].0@
}

pub proof fn lemma_pairs_map(s: Seq<(String, String)>)
    requires
        keys_distinct(s),
    ensures
        pairs_map(s).dom().finite(),
        pairs_map(s).dom().len() == s.len(),
        forall|k: Seq<char>|
            #[trigger] pairs_map(s).dom().contains(k) <==> exists|i: int|
                0 <= i < s.len() && s[i].0@ == k,
        forall|i: int| 0 <= i < s.len() ==> #[trigger] pairs_map(s)[s[i].0@] == s[i].1@,
    decreases s.len(),
{
    if s.len() > 0 {
        let p = s.drop_last();
        assert(keys_distinct(p));
        lemma_pairs_map(p);
        let last = s.last();
        assert(!pairs_map(p).dom().contains(last.0@)) by {
            if pairs_map(p).dom().contains(last.0@) {
                let i = choose|i: int| 0 <= i < p.len() && p[i].0@ == last.0@;
                assert(s[i].0@ == s[s.len() - 1].0@);
            }
        }
        assert forall|k: Seq<char>|
            #[trigger] pairs_map(s).dom().contains(k) <==> exists|i: int|
                0 <= i < s.len() && s[i].0@ == k by {
            if pairs_map(s).dom().contains(k) && k != last.0@ {
                let i = choose|i: int| 0 <= i < p.len() && p[i].0@ == k;
                assert(s[i].0@ == k);
            }
            if exists|i: int| 0 <= i < s.len() && s[i].0@ == k {
                let i = choose|i: int| 0 <= i < s.len() && s[i].0@ == k;
                if i < s.len() - 1 {
                    assert(p[i].0@ == k);
                }
            }
        }
        assert forall|i: int| 0 <= i < s.len() implies #[trigger] pairs_map(s)[s[i].0@] == s[i].1@ by {
            if i < s.len() - 1 {
                assert(p[i] == s[i]);
                assert(s[i].0@ != last.0@);
            }
        }
    }
}

/// Transport-specific metadata: a map from text keys to text values, kept
/// as an association list with distinct keys.
#[derive(Debug)]
pub struct InfoMap {
    entries: Vec<(String, String)>,
}

impl View for InfoMap {
    type V = Map<Seq<char>, Seq<char>>;

    closed spec fn view(&self) -> Map<Seq<char>, Seq<char>> {
        pairs_map(self.entries@)
    }
}

impl InfoMap {
    #[verifier::type_invariant]
    closed spec fn wf(self) -> bool {
        keys_distinct(self.entries@)
    }

    /// The empty map.
    pub fn new() -> (m: InfoMap)
        ensures
            m@ == Map::<Seq<char>, Seq<char>>::empty(),
    {
        InfoMap { entries: Vec::new() }
    }

    /// The index of the entry for `k`, if any.
    fn position(&self, k: &str) -> (r: Option<usize>)
        ensures
            match r {
                Some(i) => i < self.entries@.len() && self.entries@[i as int].0@ == k@,
                None => forall|i: int| 0 <= i < self.entries@.len() ==> self.entries@[i].0@ != k@,
            },
    {
        let mut i: usize = 0;
        while i < self.entries.len()
            invariant
                i <= self.entries@.len(),
                forall|j: int| 0 <= j < i ==> self.entries@[j].0@ != k@,
            decreases self.entries@.len() - i,
        {
            if str_eq(self.entries[i].0.as_str(), k) {
                return Some(i);
            }
            i = i + 1;
        }
        None
    }

    /// The value stored under `k`.
    pub fn get(&self, k: &str) -> (r: Option<&String>)
        ensures
            match r {
                Some(v) => self@.contains_key(k@) && v@ == self@[k@],
                None => !self@.contains_key(k@),
            },
    {
        proof {
            use_type_invariant(self);
            lemma_pairs_map(self.entries@);
        }
        match self.position(k) {
            Some(i) => Some(&self.entries[i].1),
            None => None,
        }
    }

    /// Stores `v` under `k`, returning the value it replaces.
    pub fn insert(&mut self, k: String, v: String) -> (r: Option<String>)
        ensures
            final(self)@ == old(self)@.insert(k@, v@),
            match r {
                Some(o) => old(self)@.contains_key(k@) && o@ == old(self)@[k@],
                None => !old(self)@.contains_key(k@),
            },
    {
        proof {
            use_type_invariant(&*self);
            lemma_pairs_map(self.entries@);
        }
        let ghost old_entries = self.entries@;
        match self.position(k.as_str()) {
            Some(i) => {
                let prev = self.entries[i].1.clone();
                let mut entries: Vec<(String, String)> = Vec::new();
                std::mem::swap(&mut entries, &mut self.entries);
                entries.set(i, (k, v));
                proof {
                    let s = entries@;
                    assert(keys_distinct(s)) by {
                        assert forall|a: int, b: int| 0 <= a < b < s.len() implies s[a].0@
                            != s[b].0@ by {
                            assert(old_entries[a].0@ != old_entries[b].0@);
                        }
                    }
                    lemma_pairs_map(s);
                    assert(pairs_map(s) =~= pairs_map(old_entries).insert(k@, v@)) by {
                        assert forall|key: Seq<char>| #[trigger]
                            pairs_map(s).dom().contains(key) <==> pairs_map(old_entries).insert(
                                k@,
                                v@,
                            ).dom().contains(key) by {
                            if pairs_map(s).dom().contains(key) {
                                let j = choose|j: int| 0 <= j < s.len() && s[j].0@ == key;
                                if j != i {
                                    assert(old_entries[j].0@ == key);
                                }
                            }
                            if pairs_map(old_entries).dom().contains(key) {
                                let j = choose|j: int| 0 <= j < old_entries.len() && old_entries[j].0@ == key;
                                assert(s[j].0@ == key);
                            }
                        }
                        assert forall|key: Seq<char>| #[trigger]
                            pairs_map(s).dom().contains(key) implies pairs_map(s)[key] == pairs_map(
                            old_entries,
                        ).insert(k@, v@)[key] by {
                            let j = choose|j: int| 0 <= j < s.len() && s[j].0@ == key;
                            assert(pairs_map(s)[s[j].0@] == s[j].1@);
                            if j != i {
                                assert(pairs_map(old_entries)[old_entries[j].0@] == old_entries[j].1@);
                            }
                        }
                    }
                }
                self.entries = entries;
                Some(prev)
            },
            None => {
                let mut entries: Vec<(String, String)> = Vec::new();
                std::mem::swap(&mut entries, &mut self.entries);
                entries.push((k, v));
                proof {
                    let s = entries@;
                    assert(s.drop_last() =~= old_entries);
                    assert(keys_distinct(s)) by {
                        assert forall|a: int, b: int| 0 <= a < b < s.len() implies s[a].0@
                            != s[b].0@ by {
                            if b == s.len() - 1 {
                                assert(old_entries[a].0@ != k@);
                            } else {
                                assert(old_entries[a].0@ != old_entries[b].0@);
                            }
                        }
                    }
                    assert(!pairs_map(old_entries).dom().contains(k@)) by {
                        if pairs_map(old_entries).dom().contains(k@) {
                            let j = choose|j: int| 0 <= j < old_entries.len() && old_entries[j].0@ == k@;
                        }
                    }
                }
                self.entries = entries;
                None
            },
        }
    }

    /// The number of entries.
    pub fn len(&self) -> (n: usize)
        ensures
            n == self@.dom().len(),
    {
        proof {
            use_type_invariant(self);
            lemma_pairs_map(self.entries@);
        }
        self.entries.len()
    }

    /// Whether the map is empty.
    pub fn is_empty(&self) -> (b: bool)
        ensures
            b == (self@.dom().len() == 0),
    {
        self.len() == 0
    }

    /// Whether both maps hold the same keys with the same values.
    pub fn same_as(&self, other: &InfoMap) -> (r: bool)
        ensures
            r == (self@ == other@),
    {
        proof {
            use_type_invariant(self);
            use_type_invariant(other);
            lemma_pairs_map(self.entries@);
            lemma_pairs_map(other.entries@);
        }
        if self.entries.len() != other.entries.len() {
            return false;
        }
        assert forall|j: int| 0 <= j < self.entries@.len() implies #[trigger] self@.contains_key(
            self.entries@[j].0@,
        ) && self@[self.entries@[j].0@] == self.entries@[j].1@ by {
            assert(pairs_map(self.entries@)[self.entries@[j].0@] == self.entries@[j].1@);
        }
        let mut i: usize = 0;
        while i < self.entries.len()
            invariant
                i <= self.entries@.len(),
                self.entries@.len() == other.entries@.len(),
                forall|j: int|
                    0 <= j < self.entries@.len() ==> #[trigger] self@.contains_key(self.entries@[j].0@)
                        && self@[self.entries@[j].0@] == self.entries@[j].1@,
                forall|j: int|
                    0 <= j < i ==> #[trigger] other@.contains_key(self.entries@[j].0@) && other@[self.entries@[j].0@]
                        == self.entries@[j].1@,
            decreases self.entries@.len() - i,
        {
            let key = self.entries[i].0.as_str();
            match other.get(key) {
                Some(v) => {
                    if !str_eq(v.as_str(), self.entries[i].1.as_str()) {
                        return false;
                    }
                    assert(other@.contains_key(self.entries@[i as int].0@) && other@[self.entries@[i as int].0@]
                        == self.entries@[i as int].1@);
                    assert(other@.contains_key(self.entries@[i as int].0@));
                },
                None => {
                    assert(self@.contains_key(self.entries@[i as int].0@));
                    return false;
                },
            }
            let ghost gi = i as int;
            i = i + 1;
            assert forall|j: int| 0 <= j < i implies #[trigger] other@.contains_key(self.entries@[j].0@)
                && other@[self.entries@[j].0@] == self.entries@[j].1@ by {
                if j < gi {
                    assert(other@.contains_key(self.entries@[j].0@) && other@[self.entries@[j].0@]
                        == self.entries@[j].1@);
                } else {
                    assert(j == gi);
                    assert(other@.contains_key(self.entries@[gi].0@) && other@[self.entries@[gi].0@]
                        == self.entries@[gi].1@);
                }
            }
        }
        proof {
            assert(self@.dom().subset_of(other@.dom())) by {
                assert forall|k: Seq<char>| self@.dom().contains(k) implies other@.dom().contains(k) by {
                    let j = choose|j: int| 0 <= j < self.entries@.len() && self.entries@[j].0@ == k;
                    assert(other@.contains_key(self.entries@[j].0@));
                }
            }
            vstd::set_lib::lemma_subset_equality(self@.dom(), other@.dom());
            assert forall|k: Seq<char>| self@.dom().contains(k) implies self@[k] == other@[k] by {
                let j = choose|j: int| 0 <= j < self.entries@.len() && self.entries@[j].0@ == k;
                assert(other@.contains_key(self.entries@[j].0@));
            }
            assert(self@ =~= other@);
        }
        true
    }

    /// An independent copy.
    pub fn duplicate(&self) -> (r: InfoMap)
        ensures
            r@ == self@,
    {
        proof {
            use_type_invariant(self);
        }
        let mut entries: Vec<(String, String)> = Vec::new();
        let mut i: usize = 0;
        while i < self.entries.len()
            invariant
                i <= self.entries@.len(),
                entries@.len() == i,
                forall|j: int|
                    0 <= j < i ==> #[trigger] entries@[j].0@ == self.entries@[j].0@ && entries@[j].1@
                        == self.entries@[j].1@,
            decreases self.entries@.len() - i,
        {
            let k = self.entries[i].0.clone();
            let v = self.entries[i].1.clone();
            entries.push((k, v));
            i = i + 1;
        }
        proof {
            lemma_pairs_map_views(entries@, self.entries@);
        }
        InfoMap { entries }
    }

    /// The entries as (key, value) pairs, each key once.
    pub fn to_pairs(&self) -> (r: Vec<(String, String)>)
        ensures
            pairs_map(r@) == self@,
            keys_distinct(r@),
    {
        proof {
            use_type_invariant(self);
        }
        let copy = self.duplicate();
        proof {
            use_type_invariant(&copy);
        }
        copy.entries
    }
}

impl Clone for InfoMap {
    fn clone(&self) -> (r: InfoMap)
        ensures
            r@ == self@,
    {
        self.duplicate()
    }
}

/// Association lists that agree entry by entry on their texts stand for
/// the same map and are equally well formed.
pub proof fn lemma_pairs_map_views(a: Seq<(String, String)>, b: Seq<(String, String)>)
    requires
        a.len() == b.len(),
        forall|j: int| 0 <= j < a.len() ==> #[trigger] a[j].0@ == b[j].0@ && a[j].1@ == b[j].1@,
    ensures
        pairs_map(a) == pairs_map(b),
        keys_distinct(a) == keys_distinct(b),
    decreases a.len(),
{
    if a.len() > 0 {
        lemma_pairs_map_views(a.drop_last(), b.drop_last());
    }
    assert(keys_distinct(a) == keys_distinct(b)) by {
        if keys_distinct(a) {
            assert forall|i: int, j: int| 0 <= i < j < b.len() implies b[i].0@ != b[j].0@ by {
                assert(a[i].0@ == b[i].0@ && a[j].0@ == b[j].0@);
            }
        }
        if keys_distinct(b) {
            assert forall|i: int, j: int| 0 <= i < j < a.len() implies a[i].0@ != a[j].0@ by {
                assert(a[i].0@ == b[i].0@ && a[j].0@ == b[j].0@);
            }
        }
    }
}


/// The bytes a match is hashed over: its transport's number, the address
/// text followed by 0xff, then 0 for no response or 1 and the response.
/// The metadata is left out.
pub open spec fn hash_key(m: DeviceMatchView) -> Seq<u8> {
    let tag: u8 = match m.transport {
        Transport::Serial => 0,
        Transport::Usb => 1,
        Transport::Tcp => 2,
    };
    seq![tag] + utf8(m.address) + seq![0xffu8] + match m.response {
        None => seq![0u8],
        Some(r) => seq![1u8] + r,
    }
}

/// The hash of a match: a `DefaultHasher` made by `new` (whose keys are
/// fixed), written the match's key bytes once, then finished.
pub open spec fn match_hash(m: DeviceMatchView) -> u64 {
    DefaultHasher::spec_finish(seq![hash_key(m)])
}

/// The texts of a device match, as a value for contracts.
pub struct DeviceMatchView {
    pub transport: Transport,
    pub address: Seq<char>,
    pub response: Option<Seq<u8>>,
    pub info: Map<Seq<char>, Seq<char>>,
}

/// A device found during discovery.
#[derive(Debug)]
pub struct DeviceMatch {
    /// Transport layer that found this device.
    pub transport: Transport,
    /// Human-readable address: port path, `VID:PID`, or `IP:port`.
    pub address: String,
    /// Raw bytes returned by the device.
    pub response: Option<Vec<u8>>,
    /// Transport-specific metadata (baud rate, firmware response, hostname, …).
    pub info: InfoMap,
}

/// The bytes of an optional byte vector.
pub open spec fn opt_bytes(r: Option<Vec<u8>>) -> Option<Seq<u8>> {
    match r {
        Some(v) => Some(v@),
        None => None,
    }
}

impl View for DeviceMatch {
    type V = DeviceMatchView;

    open spec fn view(&self) -> DeviceMatchView {
        DeviceMatchView {
            transport: self.transport,
            address: self.address@,
            response: opt_bytes(self.response),
            info: self.info@,
        }
    }
}

/// Copies an optional byte vector.
pub fn copy_response(r: &Option<Vec<u8>>) -> (c: Option<Vec<u8>>)
    ensures
        opt_bytes(c) == opt_bytes(*r),
{
    match r {
        Some(v) => {
            let mut out: Vec<u8> = Vec::new();
            let mut i: usize = 0;
            while i < v.len()
                invariant
                    i <= v@.len(),
                    out@ == v@.take(i as int),
                decreases v@.len() - i,
            {
                out.push(v[i]);
                assert(v@.take(i + 1) =~= v@.take(i as int).push(v@[i as int]));
                i = i + 1;
            }
            assert(v@.take(v@.len() as int) =~= v@);
            Some(out)
        },
        None => None,
    }
}

/// Whether two optional byte vectors hold the same bytes.
pub fn same_response(a: &Option<Vec<u8>>, b: &Option<Vec<u8>>) -> (r: bool)
    ensures
        r == (opt_bytes(*a) == opt_bytes(*b)),
{
    match (a, b) {
        (Some(x), Some(y)) => bytes_eq(x.as_slice(), y.as_slice()),
        (None, None) => true,
        _ => false,
    }
}

/// The UTF-8 bytes of a text.
pub open spec fn utf8(t: Seq<char>) -> Seq<u8> {
    encode_utf8(t)
}

/// TCP host: the address before its last `:`.
pub open spec fn host_spec(m: DeviceMatchView) -> Option<Seq<u8>> {
    if m.transport != Transport::Tcp {
        None
    } else {
        match rfind(utf8(m.address), 58) {
            Some(i) => Some(utf8(m.address).take(i)),
            None => None,
        }
    }
}

/// TCP port: the decimal `u16` after the address's last `:`.
pub open spec fn port_spec(m: DeviceMatchView) -> Option<u16> {
    if m.transport != Transport::Tcp {
        None
    } else {
        match rfind(utf8(m.address), 58) {
            Some(i) => match parse_radix_spec(utf8(m.address).skip(i + 1), 10, 65535) {
                Some(v) => Some(v as u16),
                None => None,
            },
            None => None,
        }
    }
}

/// USB vendor id: the hex `u16` before the address's first `:`, any `0x`
/// prefixes removed.
pub open spec fn vendor_id_spec(m: DeviceMatchView) -> Option<u16> {
    if m.transport != Transport::Usb {
        None
    } else {
        match find_first(utf8(m.address), 58) {
            Some(i) => match parse_radix_spec(trim_0x(utf8(m.address).take(i)), 16, 65535) {
                Some(v) => Some(v as u16),
                None => None,
            },
            None => None,
        }
    }
}

/// USB product id: the hex `u16` between the address's first and second
/// `:` (or its end), any `0x` prefixes removed.
pub open spec fn product_id_spec(m: DeviceMatchView) -> Option<u16> {
    if m.transport != Transport::Usb {
        None
    } else {
        let b = utf8(m.address);
        match find_first(b, 58) {
            Some(i) => {
                let j = find_from(b, i + 1, 58);
                match parse_radix_spec(trim_0x(b.subrange(i + 1, j)), 16, 65535) {
                    Some(v) => Some(v as u16),
                    None => None,
                }
            },
            None => None,
        }
    }
}

/// A metadata value read as a decimal number no larger than `max`.
pub open spec fn info_number(m: DeviceMatchView, key: Seq<char>, max: nat) -> Option<nat> {
    if m.info.contains_key(key) {
        parse_radix_spec(utf8(m.info[key]), 10, max)
    } else {
        None
    }
}

/// Serial baud rate: `info["baud_rate"]` as a decimal `u32`.
pub open spec fn baud_rate_spec(m: DeviceMatchView) -> Option<u32> {
    match info_number(m, "baud_rate"@, 0xffff_ffff) {
        Some(v) => Some(v as u32),
        None => None,
    }
}

/// USB HID: `info["device_class"]` reads as the `u8` 3.
pub open spec fn is_hid_spec(m: DeviceMatchView) -> bool {
    m.transport == Transport::Usb && info_number(m, "device_class"@, 255) == Some(3nat)
}

impl Clone for DeviceMatch {
    fn clone(&self) -> (r: DeviceMatch)
        ensures
            r@ == self@,
    {
        self.duplicate()
    }
}

/// A keyword-argument value for a python-bus factory.
#[derive(Debug, Clone, PartialEq, Eq)]
pub enum BusParamValue {
    /// A text argument.
    Text(String),
    /// An integer argument.
    Number(u64),
}

/// A keyword-argument value as a plain value.
pub enum BusParamView {
    Text(Seq<char>),
    Number(u64),
}

/// The keyword arguments as plain values.
pub open spec fn bus_params_view(v: Seq<(String, BusParamValue)>) -> Seq<(Seq<char>, BusParamView)> {
    v.map_values(
        |e: (String, BusParamValue)|
            (
                e.0@,
                match e.1 {
                    BusParamValue::Text(t) => BusParamView::Text(t@),
                    BusParamValue::Number(n) => BusParamView::Number(n),
                },
            ),
    )
}

/// `(key, value)` if `o` holds a value, nothing otherwise.
pub open spec fn opt_param(key: Seq<char>, o: Option<BusParamView>) -> Seq<(Seq<char>, BusParamView)> {
    match o {
        Some(v) => seq![(key, v)],
        None => seq![],
    }
}

/// A decimal metadata value up to 255 as a keyword argument.
pub open spec fn info_u8_param(m: DeviceMatchView, key: Seq<char>) -> Option<BusParamView> {
    match info_number(m, key, 255) {
        Some(v) => Some(BusParamView::Number(v as u64)),
        None => None,
    }
}

/// The python-bus keyword arguments a match yields. Serial: `port`, then
/// `baudrate`, `bytesize`, `parity` (`E` for even, `O` for odd, `N`
/// otherwise) and `stopbits` where the metadata has them. TCP: `host` and
/// `port` from the address. USB: `vendor` and `product` from the address,
/// `serial_number` from the metadata.
pub open spec fn bus_params_spec(m: DeviceMatchView) -> Seq<(Seq<char>, BusParamView)> {
    match m.transport {
        Transport::Serial => seq![("port"@, BusParamView::Text(m.address))] + opt_param(
            "baudrate"@,
            match baud_rate_spec(m) {
                Some(b) => Some(BusParamView::Number(b as u64)),
                None => None,
            },
        ) + opt_param("bytesize"@, info_u8_param(m, "data_bits"@)) + opt_param(
            "parity"@,
            if m.info.contains_key("parity"@) {
                Some(
                    BusParamView::Text(
                        if m.info["parity"@] == "even"@ {
                            "E"@
                        } else if m.info["parity"@] == "odd"@ {
                            "O"@
                        } else {
                            "N"@
                        },
                    ),
                )
            } else {
                None
            },
        ) + opt_param("stopbits"@, info_u8_param(m, "stop_bits"@)),
        Transport::Tcp => opt_param(
            "host"@,
            match host_spec(m) {
                Some(h) => Some(BusParamView::Text(decode_utf8(h))),
                None => None,
            },
        ) + opt_param(
            "port"@,
            match port_spec(m) {
                Some(p) => Some(BusParamView::Number(p as u64)),
                None => None,
            },
        ),
        Transport::Usb => opt_param(
            "vendor"@,
            match vendor_id_spec(m) {
                Some(v) => Some(BusParamView::Number(v as u64)),
                None => None,
            },
        ) + opt_param(
            "product"@,
            match product_id_spec(m) {
                Some(p) => Some(BusParamView::Number(p as u64)),
                None => None,
            },
        ) + opt_param(
            "serial_number"@,
            if m.info.contains_key("serial_number"@) {
                Some(BusParamView::Text(m.info["serial_number"@]))
            } else {
                None
            },
        ),
    }
}

impl DeviceMatch {
    /// Create a new [`DeviceMatch`]; missing metadata is an empty map.
    pub fn new(
        transport: Transport,
        address: String,
        response: Option<Vec<u8>>,
        info: Option<InfoMap>,
    ) -> (m: DeviceMatch)
        ensures
            m.transport == transport,
            m.address@ == address@,
            opt_bytes(m.response) == opt_bytes(response),
            m.info@ == match info {
                Some(i) => i@,
                None => Map::empty(),
            },
    {
        let info = match info {
            Some(i) => i,
            None => InfoMap::new(),
        };
        DeviceMatch { transport, address, response, info }
    }

    /// An independent copy.
    pub fn duplicate(&self) -> (r: DeviceMatch)
        ensures
            r@ == self@,
    {
        DeviceMatch {
            transport: self.transport,
            address: self.address.clone(),
            response: copy_response(&self.response),
            info: self.info.duplicate(),
        }
    }

    /// Equality over all four fields, metadata included.
    pub fn __eq__(&self, other: &Self) -> (r: bool)
        ensures
            r == (self@ == other@),
    {
        let r = self.transport == other.transport && self.address == other.address
            && same_response(&self.response, &other.response) && self.info.same_as(&other.info);
        proof {
            if r {
                assert(self@ =~= other@);
            }
        }
        r
    }

    /// Hash over transport, address and response; the metadata is left out,
    /// so matches that are `__eq__` hash alike.
    pub fn __hash__(&self) -> (r: isize)
        ensures
            r == match_hash(self@) as isize,
    {
        let tag: u8 = match self.transport {
            Transport::Serial => 0,
            Transport::Usb => 1,
            Transport::Tcp => 2,
        };
        let mut key: Vec<u8> = Vec::new();
        key.push(tag);
        let a = self.address.as_str().as_bytes();
        let mut i: usize = 0;
        while i < a.len()
            invariant
                i <= a@.len(),
                a@ == utf8(self.address@),
                key@ == seq![tag] + a@.take(i as int),
            decreases a@.len() - i,
        {
            key.push(a[i]);
            assert(a@.take(i + 1) =~= a@.take(i as int).push(a@[i as int]));
            i = i + 1;
        }
        key.push(0xff);
        match &self.response {
            None => key.push(0),
            Some(r) => {
                key.push(1);
                let ghost mid = key@;
                let mut j: usize = 0;
                while j < r.len()
                    invariant
                        j <= r@.len(),
                        key@ == mid + r@.take(j as int),
                    decreases r@.len() - j,
                {
                    key.push(r[j]);
                    assert(r@.take(j + 1) =~= r@.take(j as int).push(r@[j as int]));
                    j = j + 1;
                }
                assert(r@.take(r@.len() as int) =~= r@);
            },
        }
        assert(a@.take(a@.len() as int) =~= a@);
        assert(key@ =~= hash_key(self@));
        let mut hasher = DefaultHasher::new();
        hasher.write(key.as_slice());
        let h = hasher.finish();
        assert(hasher@ =~= seq![hash_key(self@)]);
        h as isize
    }

    /// Orders matches by address, byte by byte.
    pub fn __lt__(&self, other: &Self) -> (r: bool)
        ensures
            r == lex_lt(utf8(self.address@), utf8(other.address@)),
    {
        bytes_lt(self.address.as_str().as_bytes(), other.address.as_str().as_bytes())
    }

    /// For Serial transport: baud rate confirmed during discovery.
    pub fn baud_rate(&self) -> (r: Option<u32>)
        ensures
            r == baud_rate_spec(self@),
    {
        match self.info.get("baud_rate") {
            Some(v) => match parse_radix(v.as_str().as_bytes(), 10, 0xffff_ffff) {
                Some(x) => Some(x as u32),
                None => None,
            },
            None => None,
        }
    }

    /// Keyword arguments for the matching python-bus factory function, in
    /// the order they are set.
    pub fn bus_params(&self) -> (r: Vec<(String, BusParamValue)>)
        ensures
            bus_params_view(r@) == bus_params_spec(self@),
    {
        let mut out: Vec<(String, BusParamValue)> = Vec::new();
        match self.transport {
            Transport::Serial => {
                out.push(("port".to_owned(), BusParamValue::Text(self.address.clone())));
                if let Some(br) = self.baud_rate() {
                    out.push(("baudrate".to_owned(), BusParamValue::Number(br as u64)));
                }
                if let Some(v) = self.info.get("data_bits") {
                    if let Some(db) = parse_radix(v.as_str().as_bytes(), 10, 255) {
                        out.push(("bytesize".to_owned(), BusParamValue::Number(db)));
                    }
                }
                if let Some(p) = self.info.get("parity") {
                    let c = if str_eq(p.as_str(), "even") {
                        "E"
                    } else if str_eq(p.as_str(), "odd") {
                        "O"
                    } else {
                        "N"
                    };
                    out.push(("parity".to_owned(), BusParamValue::Text(c.to_owned())));
                }
                if let Some(v) = self.info.get("stop_bits") {
                    if let Some(sb) = parse_radix(v.as_str().as_bytes(), 10, 255) {
                        out.push(("stopbits".to_owned(), BusParamValue::Number(sb)));
                    }
                }
            },
            Transport::Tcp => {
                if let Some(h) = self.host() {
                    proof {
                        encode_utf8_decode_utf8(h@);
                    }
                    out.push(("host".to_owned(), BusParamValue::Text(h.to_owned())));
                }
                if let Some(p) = self.port() {
                    out.push(("port".to_owned(), BusParamValue::Number(p as u64)));
                }
            },
            Transport::Usb => {
                if let Some(v) = self.vendor_id() {
                    out.push(("vendor".to_owned(), BusParamValue::Number(v as u64)));
                }
                if let Some(p) = self.product_id() {
                    out.push(("product".to_owned(), BusParamValue::Number(p as u64)));
                }
                if let Some(sn) = self.info.get("serial_number") {
                    out.push(("serial_number".to_owned(), BusParamValue::Text(sn.clone())));
                }
            },
        }
        assert(bus_params_view(out@) =~= bus_params_spec(self@));
        out
    }

    /// For TCP transport: hostname or IP address part of the connection
    /// address.
    pub fn host(&self) -> (r: Option<&str>)
        ensures
            match host_spec(self@) {
                Some(h) => r matches Some(s) && s.spec_bytes() == h,
                None => r is None,
            },
    {
        match self.transport {
            Transport::Tcp => {
                let a = self.address.as_str();
                match rfind_byte(a.as_bytes(), 58) {
                    Some(i) => {
                        let (h, _) = split_str_at(a, i);
                        Some(h)
                    },
                    None => None,
                }
            },
            _ => None,
        }
    }

    /// For TCP transport: port number part of the connection address.
    pub fn port(&self) -> (r: Option<u16>)
        ensures
            r == port_spec(self@),
    {
        match self.transport {
            Transport::Tcp => {
                let b = self.address.as_str().as_bytes();
                match rfind_byte(b, 58) {
                    Some(i) => {
                        let n = b.len();
                        assert(i < n);
                        assert(b@.subrange(i + 1, n as int) =~= b@.skip(i + 1));
                        match parse_radix(&b[i + 1..n], 10, 65535) {
                            Some(v) => Some(v as u16),
                            None => None,
                        }
                    },
                    None => None,
                }
            },
            _ => None,
        }
    }

    /// For USB transport: vendor ID as an integer.
    pub fn vendor_id(&self) -> (r: Option<u16>)
        ensures
            r == vendor_id_spec(self@),
    {
        match self.transport {
            Transport::Usb => {
                let b = self.address.as_str().as_bytes();
                let i = find_byte(b, 0, 58);
                proof {
                    lemma_find_from(b@, 0, 58);
                }
                if i >= b.len() {
                    return None;
                }
                assert(b@.subrange(0, i as int) =~= b@.take(i as int));
                match parse_radix(trim_0x_prefix(&b[0..i]), 16, 65535) {
                    Some(v) => Some(v as u16),
                    None => None,
                }
            },
            _ => None,
        }
    }

    /// For USB transport: product ID as an integer.
    pub fn product_id(&self) -> (r: Option<u16>)
        ensures
            r == product_id_spec(self@),
    {
        match self.transport {
            Transport::Usb => {
                let b = self.address.as_str().as_bytes();
                let i = find_byte(b, 0, 58);
                proof {
                    lemma_find_from(b@, 0, 58);
                }
                if i >= b.len() {
                    return None;
                }
                let j = find_byte(b, i + 1, 58);
                proof {
                    lemma_find_from(b@, i + 1, 58);
                }
                match parse_radix(trim_0x_prefix(&b[i + 1..j]), 16, 65535) {
                    Some(v) => Some(v as u16),
                    None => None,
                }
            },
            _ => None,
        }
    }

    /// For USB transport: True if the device reports HID class (0x03) at
    /// the device level.
    pub fn is_hid(&self) -> (r: bool)
        ensures
            r == is_hid_spec(self@),
    {
        match self.transport {
            Transport::Usb => match self.info.get("device_class") {
                Some(v) => match parse_radix(v.as_str().as_bytes(), 10, 255) {
                    Some(c) => c == 3,
                    None => false,
                },
                None => false,
            },
            _ => false,
        }
    }
}

/// Matches that are equal hash alike: the hash reads only fields that
/// equality compares.
pub proof fn lemma_equal_matches_hash_alike(a: DeviceMatchView, b: DeviceMatchView)
    requires
        a == b,
    ensures
        match_hash(a) == match_hash(b),
{
}

/// Matches that differ only in their metadata hash alike.
pub proof fn lemma_hash_ignores_info(a: DeviceMatchView, b: DeviceMatchView)
    requires
        a.transport == b.transport,
        a.address == b.address,
        a.response == b.response,
    ensures
        match_hash(a) == match_hash(b),
{
}

} // verus!
