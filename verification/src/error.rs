//! Unified error type for all discovery operations.

use vstd::prelude::*;

verus! {

/// What kind of serial-port failure occurred.
#[derive(Debug, Clone, Copy, PartialEq, Eq, Structural)]
pub enum SerialErrorKind {
    /// The device is not available.
    NoDevice,
    /// A parameter was incorrect.
    InvalidInput,
    /// An unknown error occurred.
    Unknown,
    /// An I/O error occurred.
    Io,
}

/// A serial-port failure: its kind and its description.
#[derive(Debug, Clone)]
pub struct SerialError {
    pub kind: SerialErrorKind,
    pub description: String,
}

/// All errors that can occur during device discovery.
#[derive(Debug, Clone)]
pub enum DafyddError {
    /// Serial port enumeration or I/O failure.
    Serial(SerialError),
    /// USB enumeration failure.
    Usb(String),
    /// Generic I/O error (TCP connect, read/write), with its message.
    Io(String),
    /// Unparseable subnet/CIDR string supplied by the caller.
    InvalidSubnet(String),
}

/// The message of an error: `serial: `, `usb: `, `io: ` or
/// `invalid subnet: ` followed by the detail.
pub open spec fn error_message(e: DafyddError) -> Seq<char> {
    match e {
        DafyddError::Serial(s) => "serial: "@ + s.description@,
        DafyddError::Usb(m) => "usb: "@ + m@,
        DafyddError::Io(m) => "io: "@ + m@,
        DafyddError::InvalidSubnet(m) => "invalid subnet: "@ + m@,
    }
}

impl DafyddError {
    /// The human-readable message of this error.
    pub fn message(&self) -> (r: String)
        ensures
            r@ == error_message(*self),
    {
        match self {
            DafyddError::Serial(s) => "serial: ".to_owned().concat(s.description.as_str()),
            DafyddError::Usb(m) => "usb: ".to_owned().concat(m.as_str()),
            DafyddError::Io(m) => "io: ".to_owned().concat(m.as_str()),
            DafyddError::InvalidSubnet(m) => "invalid subnet: ".to_owned().concat(m.as_str()),
        }
    }

    /// Whether the error stems from bad caller input (a value error rather
    /// than a runtime failure).
    pub fn is_invalid_input(&self) -> (r: bool)
        ensures
            r == (*self is InvalidSubnet),
    {
        match self {
            DafyddError::InvalidSubnet(_) => true,
            _ => false,
        }
    }
}

} // verus!
