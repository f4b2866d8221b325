//! Serial probing decisions: line settings, which ports a sweep opens,
//! when a read is complete, and what a response yields.

use vstd::prelude::*;
use vstd::string::StringSliceAdditionalSpecFns;
use crate::error::{DafyddError, SerialError, SerialErrorKind};
use crate::text::{bytes_eq, contains_bytes, contains_run, decimal, push_decimal, starts_with, str_eq};
use crate::types::{DeviceMatch, DeviceMatchView, InfoMap, Transport, utf8};

verus! {

/// Number of bits per character.
#[derive(Debug, Clone, Copy, PartialEq, Eq, Structural)]
pub enum DataBits {
    Five,
    Six,
    Seven,
    Eight,
}

/// Parity checking mode.
#[derive(Debug, Clone, Copy, PartialEq, Eq, Structural)]
pub enum Parity {
    NoParity,
    Odd,
    Even,
}

/// Number of stop bits.
#[derive(Debug, Clone, Copy, PartialEq, Eq, Structural)]
pub enum StopBits {
    One,
    Two,
}

/// Flow control mode.
#[derive(Debug, Clone, Copy, PartialEq, Eq, Structural)]
pub enum FlowControl {
    NoFlowControl,
    Software,
    Hardware,
}

/// Everything needed to open a serial port: path, baud rate and line
/// settings.
#[derive(Debug, Clone)]
pub struct PortSettings {
    pub path: String,
    pub baud_rate: u32,
    pub data_bits: DataBits,
    pub parity: Parity,
    pub stop_bits: StopBits,
    pub flow_control: FlowControl,
}

/// Data bits from the caller's value: 5 to 8, 8 when unset.
pub open spec fn data_bits_of(d: Option<u8>) -> Option<DataBits> {
    match d {
        None => Some(DataBits::Eight),
        Some(5) => Some(DataBits::Five),
        Some(6) => Some(DataBits::Six),
        Some(7) => Some(DataBits::Seven),
        Some(8) => Some(DataBits::Eight),
        Some(_) => None,
    }
}

/// Parity from the caller's text: `none`, `even` or `odd`, none when unset.
pub open spec fn parity_of(p: Option<Seq<char>>) -> Option<Parity> {
    let t = match p {
        Some(t) => t,
        None => "none"@,
    };
    if t == "even"@ {
        Some(Parity::Even)
    } else if t == "odd"@ {
        Some(Parity::Odd)
    } else if t == "none"@ {
        Some(Parity::NoParity)
    } else {
        None
    }
}

/// Stop bits from the caller's value: 1 or 2, 1 when unset.
pub open spec fn stop_bits_of(s: Option<u8>) -> Option<StopBits> {
    match s {
        None => Some(StopBits::One),
        Some(1) => Some(StopBits::One),
        Some(2) => Some(StopBits::Two),
        Some(_) => None,
    }
}

/// Flow control from the caller's text: `none`, `hardware` or `software`,
/// none when unset.
pub open spec fn flow_control_of(f: Option<Seq<char>>) -> Option<FlowControl> {
    let t = match f {
        Some(t) => t,
        None => "none"@,
    };
    if t == "hardware"@ {
        Some(FlowControl::Hardware)
    } else if t == "software"@ {
        Some(FlowControl::Software)
    } else if t == "none"@ {
        Some(FlowControl::NoFlowControl)
    } else {
        None
    }
}

/// The text of an optional string.
pub open spec fn opt_text(s: Option<&str>) -> Option<Seq<char>> {
    match s {
        Some(t) => Some(t@),
        None => None,
    }
}

/// Whether `e` is an invalid-input serial error with this description.
pub open spec fn is_invalid_input(e: DafyddError, description: Seq<char>) -> bool {
    e matches DafyddError::Serial(s) && s.kind == SerialErrorKind::InvalidInput && s.description@
        == description
}

/// An invalid-input serial error.
fn invalid_input(description: &str) -> (e: DafyddError)
    ensures
        is_invalid_input(e, description@),
{
    DafyddError::Serial(
        SerialError { kind: SerialErrorKind::InvalidInput, description: description.to_owned() },
    )
}

/// Checks the line settings and assembles what opening `port` at `baud`
/// needs. The settings are checked in order (data bits, parity, stop bits,
/// flow control) and the first bad one is reported.
pub fn build_builder(
    port: &str,
    baud: u32,
    data_bits: Option<u8>,
    parity: Option<&str>,
    stop_bits: Option<u8>,
    flow_control: Option<&str>,
) -> (r: Result<PortSettings, DafyddError>)
    ensures
        data_bits_of(data_bits) is None ==> (r is Err && is_invalid_input(
            r->Err_0,
            "invalid data bits: must be 5, 6, 7, or 8"@,
        )),
        data_bits_of(data_bits) is Some && parity_of(opt_text(parity)) is None ==> (r is Err
            && is_invalid_input(r->Err_0, "invalid parity: must be 'none', 'even', or 'odd'"@)),
        data_bits_of(data_bits) is Some && parity_of(opt_text(parity)) is Some && stop_bits_of(
            stop_bits,
        ) is None ==> (r is Err && is_invalid_input(
            r->Err_0,
            "invalid stop bits: must be 1 or 2"@,
        )),
        data_bits_of(data_bits) is Some && parity_of(opt_text(parity)) is Some && stop_bits_of(
            stop_bits,
        ) is Some && flow_control_of(opt_text(flow_control)) is None ==> (r is Err
            && is_invalid_input(
            r->Err_0,
            "invalid flow control: must be 'none', 'hardware', or 'software'"@,
        )),
        data_bits_of(data_bits) is Some && parity_of(opt_text(parity)) is Some && stop_bits_of(
            stop_bits,
        ) is Some && flow_control_of(opt_text(flow_control)) is Some ==> r is Ok,
        r is Ok ==> ({
            let s = r->Ok_0;
            &&& s.path@ == port@
            &&& s.baud_rate == baud
            &&& data_bits_of(data_bits) == Some(s.data_bits)
            &&& parity_of(opt_text(parity)) == Some(s.parity)
            &&& stop_bits_of(stop_bits) == Some(s.stop_bits)
            &&& flow_control_of(opt_text(flow_control)) == Some(s.flow_control)
        }),
{
    let db = match data_bits {
        None => DataBits::Eight,
        Some(5) => DataBits::Five,
        Some(6) => DataBits::Six,
        Some(7) => DataBits::Seven,
        Some(8) => DataBits::Eight,
        Some(_) => {
            return Err(invalid_input("invalid data bits: must be 5, 6, 7, or 8"));
        },
    };
    let p = match parity {
        Some(t) => t,
        None => "none",
    };
    let par = if str_eq(p, "even") {
        Parity::Even
    } else if str_eq(p, "odd") {
        Parity::Odd
    } else if str_eq(p, "none") {
        Parity::NoParity
    } else {
        return Err(invalid_input("invalid parity: must be 'none', 'even', or 'odd'"));
    };
    let sb = match stop_bits {
        None => StopBits::One,
        Some(1) => StopBits::One,
        Some(2) => StopBits::Two,
        Some(_) => {
            return Err(invalid_input("invalid stop bits: must be 1 or 2"));
        },
    };
    let f = match flow_control {
        Some(t) => t,
        None => "none",
    };
    let fc = if str_eq(f, "hardware") {
        FlowControl::Hardware
    } else if str_eq(f, "software") {
        FlowControl::Software
    } else if str_eq(f, "none") {
        FlowControl::NoFlowControl
    } else {
        return Err(invalid_input("invalid flow control: must be 'none', 'hardware', or 'software'"));
    };
    Ok(
        PortSettings {
            path: port.to_owned(),
            baud_rate: baud,
            data_bits: db,
            parity: par,
            stop_bits: sb,
            flow_control: fc,
        },
    )
}

/// Whether a read is complete: the accumulated response ends with the
/// terminator, when one is set.
pub open spec fn ends_with_terminator(response: Seq<u8>, terminator: Option<Seq<u8>>) -> bool {
    match terminator {
        Some(t) => t.len() <= response.len() && response.subrange(
            response.len() - t.len(),
            response.len() as int,
        ) == t,
        None => false,
    }
}

/// Decides whether the read loop may stop before its timeout.
pub fn response_complete(response: &[u8], terminator: Option<&[u8]>) -> (r: bool)
    ensures
        r == ends_with_terminator(response@, match terminator {
            Some(t) => Some(t@),
            None => None,
        }),
{
    match terminator {
        None => false,
        Some(t) => {
            let n = response.len();
            let k = t.len();
            if k > n {
                return false;
            }
            let mut i: usize = 0;
            while i < k
                invariant
                    i <= k <= n,
                    terminator == Some(t),
                    n == response@.len(),
                    k == t@.len(),
                    forall|j: int| 0 <= j < i ==> response@[n - k + j] == t@[j],
                decreases k - i,
            {
                assert(response@.subrange(n - k, n as int)[i as int] == response@[n - k + i]);
                if response[n - k + i] != t[i] {
                    assert(response@.subrange(
                        response@.len() - t@.len(),
                        response@.len() as int,
                    ) != t@);
                    return false;
                }
                i = i + 1;
            }
            assert(response@.subrange(n - k, n as int) =~= t@);
            true
        },
    }
}

/// A read is complete exactly when the bytes received so far are some
/// bytes followed by the whole terminator; a terminator merely occurring
/// earlier in the data does not end the read, and without a terminator no
/// read ends early.
pub proof fn lemma_complete_iff_terminator_last(response: Seq<u8>, t: Seq<u8>)
    ensures
        ends_with_terminator(response, Some(t)) <==> exists|p: Seq<u8>| response == #[trigger] (p + t),
        forall|p: Seq<u8>| #[trigger] ends_with_terminator(p + t, Some(t)),
        !ends_with_terminator(response, None),
{
    if ends_with_terminator(response, Some(t)) {
        let p = response.take(response.len() - t.len());
        assert(response =~= p + t);
    }
    if exists|p: Seq<u8>| response == #[trigger] (p + t) {
        let p = choose|p: Seq<u8>| response == #[trigger] (p + t);
        assert(response.subrange(response.len() - t.len(), response.len() as int) =~= t);
    }
    assert forall|p: Seq<u8>| #[trigger] ends_with_terminator(p + t, Some(t)) by {
        assert((p + t).subrange((p + t).len() - t.len(), (p + t).len() as int) =~= t);
    }
}

/// The metadata of a serial match: the baud rate always; data bits,
/// parity and stop bits only where they differ from 8-N-1.
pub open spec fn serial_info(baud: nat, data_bits: Option<u8>, parity: Option<Seq<char>>, stop_bits: Option<u8>) -> Map<Seq<char>, Seq<char>> {
    let m = Map::empty().insert("baud_rate"@, decimal(baud));
    let m = match data_bits {
        Some(d) => if d != 8 {
            m.insert("data_bits"@, decimal(d as nat))
        } else {
            m
        },
        None => m,
    };
    let m = match parity {
        Some(p) => if p != "none"@ {
            m.insert("parity"@, p)
        } else {
            m
        },
        None => m,
    };
    match stop_bits {
        Some(s) => if s != 1 {
            m.insert("stop_bits"@, decimal(s as nat))
        } else {
            m
        },
        None => m,
    }
}

/// Whether a response counts as an answer: it is non-empty and holds the
/// filter, when one is set.
pub open spec fn serial_response_accepted(response: Seq<u8>, filter: Option<Seq<u8>>) -> bool {
    response.len() > 0 && match filter {
        Some(f) => contains_run(response, f),
        None => true,
    }
}

/// The match a port yields for a response at `baud`.
pub open spec fn serial_match_spec(port: Seq<char>, baud: nat, response: Seq<u8>, data_bits: Option<u8>, parity: Option<Seq<char>>, stop_bits: Option<u8>) -> DeviceMatchView {
    DeviceMatchView {
        transport: Transport::Serial,
        address: port,
        response: Some(response),
        info: serial_info(baud, data_bits, parity, stop_bits),
    }
}

/// The decimal text of a number.
fn decimal_string(v: u64) -> (s: String)
    ensures
        s@ == decimal(v as nat),
{
    let mut s = String::new();
    push_decimal(&mut s, v);
    assert(s@ =~= decimal(v as nat));
    s
}

/// What a probe of `port` at `baud` yields for the bytes read back: a
/// match when they count as an answer, nothing otherwise.
pub fn probe_result(
    port: &str,
    baud: u32,
    response: &[u8],
    response_filter: Option<&[u8]>,
    data_bits: Option<u8>,
    parity: Option<&str>,
    stop_bits: Option<u8>,
) -> (r: Option<DeviceMatch>)
    ensures
        match r {
            Some(m) => serial_response_accepted(response@, match response_filter {
                Some(f) => Some(f@),
                None => None,
            }) && m@ == serial_match_spec(
                port@,
                baud as nat,
                response@,
                data_bits,
                opt_text(parity),
                stop_bits,
            ),
            None => !serial_response_accepted(response@, match response_filter {
                Some(f) => Some(f@),
                None => None,
            }),
        },
{
    if response.len() == 0 {
        return None;
    }
    match response_filter {
        Some(f) => {
            if !contains_bytes(response, f) {
                return None;
            }
        },
        None => {},
    }
    let mut info = InfoMap::new();
    info.insert("baud_rate".to_owned(), decimal_string(baud as u64));
    match data_bits {
        Some(d) => {
            if d != 8 {
                info.insert("data_bits".to_owned(), decimal_string(d as u64));
            }
        },
        None => {},
    }
    match parity {
        Some(p) => {
            if !str_eq(p, "none") {
                info.insert("parity".to_owned(), p.to_owned());
            }
        },
        None => {},
    }
    match stop_bits {
        Some(s) => {
            if s != 1 {
                info.insert("stop_bits".to_owned(), decimal_string(s as u64));
            }
        },
        None => {},
    }
    let mut bytes: Vec<u8> = Vec::new();
    let mut i: usize = 0;
    while i < response.len()
        invariant
            i <= response@.len(),
            bytes@ == response@.take(i as int),
        decreases response@.len() - i,
    {
        bytes.push(response[i]);
        assert(response@.take(i + 1) =~= response@.take(i as int).push(response@[i as int]));
        i = i + 1;
    }
    assert(response@.take(response@.len() as int) =~= response@);
    let m = DeviceMatch {
        transport: Transport::Serial,
        address: port.to_owned(),
        response: Some(bytes),
        info,
    };
    assert(m@.info =~= serial_info(baud as nat, data_bits, opt_text(parity), stop_bits));
    Some(m)
}

/// A port as enumeration reports it: its name and whether it is a
/// Bluetooth link.
#[derive(Debug, Clone)]
pub struct PortEntry {
    pub name: String,
    pub bluetooth: bool,
}

/// `/dev/cu.` as bytes.
pub open spec fn cu_prefix() -> Seq<u8> {
    seq![47u8, 100, 101, 118, 47, 99, 117, 46]
}

/// `/dev/tty.` as bytes.
pub open spec fn tty_prefix() -> Seq<u8> {
    seq![47u8, 100, 101, 118, 47, 116, 116, 121, 46]
}

/// Whether a port survives the Bluetooth rule.
pub open spec fn type_kept(e: PortEntry, include_bluetooth: bool) -> bool {
    include_bluetooth || !e.bluetooth
}

/// Whether `name` is a `/dev/tty.X` port whose call-out twin `/dev/cu.X`
/// is among the ports kept by the Bluetooth rule.
pub open spec fn shadowed_tty(name: Seq<u8>, ports: Seq<PortEntry>, include_bluetooth: bool) -> bool {
    starts_with(name, tty_prefix()) && exists|j: int|
        0 <= j < ports.len() && type_kept(#[trigger] ports[j], include_bluetooth) && starts_with(
            utf8(ports[j].name@),
            cu_prefix(),
        ) && utf8(ports[j].name@).skip(8) == name.skip(9)
}

/// Whether a sweep opens this port: Bluetooth ports only when asked for,
/// on macOS no `tty.*` port that has a `cu.*` twin, and only names that
/// hold the port filter.
pub open spec fn port_selected(e: PortEntry, ports: Seq<PortEntry>, include_bluetooth: bool, port_filter: Option<Seq<u8>>, call_out_only: bool) -> bool {
    &&& type_kept(e, include_bluetooth)
    &&& !(call_out_only && shadowed_tty(utf8(e.name@), ports, include_bluetooth))
    &&& match port_filter {
        Some(f) => contains_run(utf8(e.name@), f),
        None => true,
    }
}

/// The names of the selected ports, in enumeration order.
pub open spec fn selected_names(pool: Seq<PortEntry>, ports: Seq<PortEntry>, include_bluetooth: bool, port_filter: Option<Seq<u8>>, call_out_only: bool) -> Seq<Seq<char>>
    decreases pool.len(),
{
    if pool.len() == 0 {
        Seq::empty()
    } else {
        let rest = selected_names(
            pool.drop_last(),
            ports,
            include_bluetooth,
            port_filter,
            call_out_only,
        );
        if port_selected(pool.last(), ports, include_bluetooth, port_filter, call_out_only) {
            rest.push(pool.last().name@)
        } else {
            rest
        }
    }
}

/// Whether `s` starts with `p`.
fn has_prefix(s: &[u8], p: &[u8]) -> (r: bool)
    ensures
        r == starts_with(s@, p@),
{
    if p.len() > s.len() {
        return false;
    }
    let mut i: usize = 0;
    while i < p.len()
        invariant
            i <= p@.len() <= s@.len(),
            forall|j: int| 0 <= j < i ==> s@[j] == p@[j],
        decreases p@.len() - i,
    {
        if s[i] != p[i] {
            assert(s@.take(p@.len() as int)[i as int] != p@[i as int]);
            return false;
        }
        i = i + 1;
    }
    assert(s@.take(p@.len() as int) =~= p@);
    true
}

/// Whether the bytes after the first `a` bytes of `x` equal those after
/// the first `b` bytes of `y`.
fn same_tail(x: &[u8], a: usize, y: &[u8], b: usize) -> (r: bool)
    requires
        a <= x@.len(),
        b <= y@.len(),
    ensures
        r == (x@.skip(a as int) == y@.skip(b as int)),
{
    if x.len() - a != y.len() - b {
        assert(x@.skip(a as int).len() != y@.skip(b as int).len());
        return false;
    }
    let xl = x.len();
    let yl = y.len();
    let n = xl - a;
    let mut i: usize = 0;
    while i < n
        invariant
            i <= n,
            xl == x@.len(),
            yl == y@.len(),
            a + n == xl,
            b + n == yl,
            n == x@.len() - a,
            n == y@.len() - b,
            forall|j: int| 0 <= j < i ==> x@.skip(a as int)[j] == #[trigger] y@.skip(b as int)[j],
        decreases n - i,
    {
        assert(x@.skip(a as int)[i as int] == x@[a + i]);
        assert(y@.skip(b as int)[i as int] == y@[b + i]);
        if x[a + i] != y[b + i] {
            return false;
        }
        i = i + 1;
    }
    assert(x@.skip(a as int) =~= y@.skip(b as int));
    true
}

/// Whether a `/dev/tty.X` name has a kept `/dev/cu.X` twin.
fn is_shadowed_tty(name: &[u8], ports: &[PortEntry], include_bluetooth: bool) -> (r: bool)
    ensures
        r == shadowed_tty(name@, ports@, include_bluetooth),
{
    let tty: [u8; 9] = [47, 100, 101, 118, 47, 116, 116, 121, 46];
    let cu: [u8; 8] = [47, 100, 101, 118, 47, 99, 117, 46];
    assert(tty@ =~= tty_prefix());
    assert(cu@ =~= cu_prefix());
    if !has_prefix(name, &tty) {
        return false;
    }
    let mut j: usize = 0;
    while j < ports.len()
        invariant
            j <= ports@.len(),
            cu@ == cu_prefix(),
            starts_with(name@, tty_prefix()),
            name@.len() >= 9,
            forall|k: int|
                0 <= k < j ==> !(type_kept(#[trigger] ports@[k], include_bluetooth) && starts_with(
                    utf8(ports@[k].name@),
                    cu_prefix(),
                ) && utf8(ports@[k].name@).skip(8) == name@.skip(9)),
        decreases ports@.len() - j,
    {
        let e = &ports[j];
        if include_bluetooth || !e.bluetooth {
            let b = e.name.as_str().as_bytes();
            if has_prefix(b, &cu) {
                if same_tail(b, 8, name, 9) {
                    return true;
                }
            }
        }
        j = j + 1;
    }
    false
}

/// The ports a sweep opens, by name, in enumeration order: Bluetooth ports
/// only when `include_bluetooth` is set; when `call_out_only` is set (on
/// macOS), no `/dev/tty.X` whose `/dev/cu.X` twin is listed; and only names
/// holding `port_filter`, when one is set.
pub fn select_ports(ports: &[PortEntry], include_bluetooth: bool, port_filter: Option<&str>, call_out_only: bool) -> (r: Vec<String>)
    ensures
        crate::collect::texts(r@) == selected_names(
            ports@,
            ports@,
            include_bluetooth,
            match port_filter {
                Some(f) => Some(f.spec_bytes()),
                None => None,
            },
            call_out_only,
        ),
{
    let ghost filter = match port_filter {
        Some(f) => Some(f.spec_bytes()),
        None => None,
    };
    let mut out: Vec<String> = Vec::new();
    let mut i: usize = 0;
    while i < ports.len()
        invariant
            i <= ports@.len(),
            filter == match port_filter {
                Some(f) => Some(f.spec_bytes()),
                None => None::<Seq<u8>>,
            },
            crate::collect::texts(out@) == selected_names(
                ports@.take(i as int),
                ports@,
                include_bluetooth,
                filter,
                call_out_only,
            ),
        decreases ports@.len() - i,
    {
        let e = &ports[i];
        let name = e.name.as_str().as_bytes();
        let keep_type = include_bluetooth || !e.bluetooth;
        let shadow = call_out_only && is_shadowed_tty(name, ports, include_bluetooth);
        let keep_filter = match port_filter {
            Some(f) => contains_bytes(name, f.as_bytes()),
            None => true,
        };
        proof {
            assert(ports@.take(i + 1).drop_last() =~= ports@.take(i as int));
            assert(ports@.take(i + 1).last() == ports@[i as int]);
        }
        if keep_type && !shadow && keep_filter {
            let ghost before = out@;
            out.push(e.name.clone());
            assert(crate::collect::texts(out@) =~= crate::collect::texts(before).push(e.name@));
        }
        i = i + 1;
    }
    assert(ports@.take(ports@.len() as int) =~= ports@);
    out
}

/// The match a port yields in list-only mode: its name, no response, no
/// metadata.
pub open spec fn listed_port_spec(name: Seq<char>) -> DeviceMatchView {
    DeviceMatchView {
        transport: Transport::Serial,
        address: name,
        response: None,
        info: Map::empty(),
    }
}

/// Lists ports as matches without opening them.
pub fn list_port_matches(names: &[String]) -> (r: Vec<DeviceMatch>)
    ensures
        r@.len() == names@.len(),
        forall|i: int| 0 <= i < r@.len() ==> (#[trigger] r@[i])@ == listed_port_spec(names@[i]@),
{
    let mut out: Vec<DeviceMatch> = Vec::new();
    let mut i: usize = 0;
    while i < names.len()
        invariant
            i <= names@.len(),
            out@.len() == i,
            forall|j: int| 0 <= j < i ==> (#[trigger] out@[j])@ == listed_port_spec(names@[j]@),
        decreases names@.len() - i,
    {
        let m = DeviceMatch {
            transport: Transport::Serial,
            address: names[i].clone(),
            response: None,
            info: InfoMap::new(),
        };
        assert(m@ == listed_port_spec(names@[i as int]@));
        out.push(m);
        i = i + 1;
    }
    out
}

} // verus!
