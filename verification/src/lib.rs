//! Dafydd: locate instruments and embedded devices over serial, USB and
//! TCP/IP. This crate holds the decision logic of discovery: packet
//! builders and parsers, kernel-table parsers, address arithmetic, match
//! construction and filtering, and the watch diff.

pub mod collect;
pub mod correlation;
pub mod error;
pub mod net;
pub mod preferred;
pub mod runtime;
pub mod serial;
pub mod tcp;
pub mod text;
pub mod types;
pub mod usb;
pub mod watch;
