//! Serial-port discovery: line settings, port selection, probe results and
//! the discovery configuration.

pub mod probe;

use vstd::prelude::*;

verus! {

/// The settings of a serial discovery.
///
/// Without a probe command, discovery lists the available ports without
/// opening them. With one, it is written to each port at each baud rate and
/// the ports that answer (with bytes holding `response_filter`, when set)
/// are the matches; `preferred_port` is tried first, `preferred_retry`
/// more times, before the sweep.
#[derive(Debug)]
pub struct SerialDiscovery {
    pub probe_command: Option<Vec<u8>>,
    pub baud_rates: Vec<u32>,
    pub timeout_ms: u64,
    pub preferred_port: Option<String>,
    pub preferred_retry: u32,
    pub preferred_retry_delay_ms: u64,
    pub include_bluetooth: bool,
    pub data_bits: Option<u8>,
    pub parity: Option<String>,
    pub stop_bits: Option<u8>,
    pub flow_control: Option<String>,
    pub port_filter: Option<String>,
    pub response_terminator: Option<Vec<u8>>,
    pub response_filter: Option<Vec<u8>>,
}

impl SerialDiscovery {
    /// A discovery with the given settings, kept as they are.
    pub fn new(
        probe_command: Option<Vec<u8>>,
        baud_rates: Vec<u32>,
        timeout_ms: u64,
        preferred_port: Option<String>,
        preferred_retry: u32,
        preferred_retry_delay_ms: u64,
        include_bluetooth: bool,
        data_bits: Option<u8>,
        parity: Option<String>,
        stop_bits: Option<u8>,
        flow_control: Option<String>,
        port_filter: Option<String>,
        response_terminator: Option<Vec<u8>>,
        response_filter: Option<Vec<u8>>,
    ) -> (r: SerialDiscovery)
        ensures
            r.probe_command == probe_command,
            r.baud_rates == baud_rates,
            r.timeout_ms == timeout_ms,
            r.preferred_port == preferred_port,
            r.preferred_retry == preferred_retry,
            r.preferred_retry_delay_ms == preferred_retry_delay_ms,
            r.include_bluetooth == include_bluetooth,
            r.data_bits == data_bits,
            r.parity == parity,
            r.stop_bits == stop_bits,
            r.flow_control == flow_control,
            r.port_filter == port_filter,
            r.response_terminator == response_terminator,
            r.response_filter == response_filter,
    {
        SerialDiscovery {
            probe_command,
            baud_rates,
            timeout_ms,
            preferred_port,
            preferred_retry,
            preferred_retry_delay_ms,
            include_bluetooth,
            data_bits,
            parity,
            stop_bits,
            flow_control,
            port_filter,
            response_terminator,
            response_filter,
        }
    }

    /// Checks the settings before any I/O: a probe command needs at least
    /// one baud rate.
    pub fn validate(&self) -> (r: Result<(), String>)
        ensures
            r is Err <==> (self.probe_command is Some && self.baud_rates@.len() == 0),
            r matches Err(m) ==> m@ == "baud_rates is required when probe_command is set"@,
    {
        if self.probe_command.is_some() && self.baud_rates.len() == 0 {
            return Err("baud_rates is required when probe_command is set".to_owned());
        }
        Ok(())
    }
}

} // verus!
