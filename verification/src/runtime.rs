//! Sizing and naming of the shared async runtime's worker threads.

use vstd::prelude::*;
use vstd::string::StringSliceAdditionalSpecFns;
use crate::text::{parse_radix, parse_radix_spec};

verus! {

/// The number of worker threads: the `DAFYDD_WORKER_THREADS` setting when it
/// reads as a number (as `usize::from_str` reads it), otherwise the
/// machine's parallelism capped at two (two when it is unknown). Scanning
/// is I/O-bound, so two workers keep the scheduler busy.
pub open spec fn worker_threads_spec(setting: Option<Seq<u8>>, available: Option<nat>) -> nat {
    match setting {
        Some(s) => match parse_radix_spec(s, 10, usize::MAX as nat) {
            Some(v) => v,
            None => default_workers(available),
        },
        None => default_workers(available),
    }
}

/// The machine's parallelism capped at two, two when unknown.
pub open spec fn default_workers(available: Option<nat>) -> nat {
    match available {
        Some(n) => if n < 2 {
            n
        } else {
            2
        },
        None => 2,
    }
}

/// Decides the number of worker threads from the setting's text and the
/// machine's parallelism.
pub fn worker_threads(setting: Option<&str>, available: Option<usize>) -> (r: usize)
    ensures
        r == worker_threads_spec(
            match setting {
                Some(s) => Some(s.spec_bytes()),
                None => None,
            },
            match available {
                Some(n) => Some(n as nat),
                None => None,
            },
        ),
{
    let fallback: usize = match available {
        Some(n) => if n < 2 {
            n
        } else {
            2
        },
        None => 2,
    };
    match setting {
        Some(s) => match parse_radix(s.as_bytes(), 10, usize::MAX as u64) {
            Some(v) => v as usize,
            None => fallback,
        },
        None => fallback,
    }
}

/// The name of the worker threads: the `DAFYDD_THREAD_NAME` setting, or
/// `dafydd-worker`.
pub fn thread_name(setting: Option<String>) -> (r: String)
    ensures
        r@ == match setting {
            Some(s) => s@,
            None => "dafydd-worker"@,
        },
{
    match setting {
        Some(s) => s,
        None => "dafydd-worker".to_owned(),
    }
}

} // verus!
