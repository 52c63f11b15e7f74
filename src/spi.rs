//! One non-blocking attempt at a byte exchange, decided from a snapshot of
//! the bus status flags.
use vstd::prelude::*;

verus! {

/// A fault reported by the bus hardware.
#[derive(Debug, Clone, Copy, PartialEq, Eq, Structural)]
pub enum Error {
    /// A received byte was overwritten before it was read.
    Overrun,
    /// Another master drove the bus.
    ModeFault,
    /// The checksum of a frame did not match.
    Crc,
}

/// A snapshot of the bus status register, taken once per attempt.
#[derive(Debug, Clone, Copy, PartialEq, Eq, Structural)]
pub struct Flags {
    pub overrun: bool,
    pub mode_fault: bool,
    pub crc_error: bool,
    /// A received byte is waiting in the data register.
    pub rx_not_empty: bool,
    /// The transmit buffer can take another byte.
    pub tx_empty: bool,
}

/// The result of one attempt: done, not yet possible, or a hard fault.
#[derive(Debug, Clone, Copy, PartialEq, Eq, Structural)]
pub enum Outcome {
    Ready,
    NotYetReady,
    Fault(Error),
}

/// The fault that the flags report, if any, in the fixed priority
/// overrun, mode fault, checksum error.
pub open spec fn fault_of(f: Flags) -> Option<Error> {
    if f.overrun {
        Some(Error::Overrun)
    } else if f.mode_fault {
        Some(Error::ModeFault)
    } else if f.crc_error {
        Some(Error::Crc)
    } else {
        None
    }
}

/// The outcome of an attempt whose readiness is shown by `ready`: a fault
/// always wins over readiness.
pub open spec fn outcome_of(f: Flags, ready: bool) -> Outcome {
    match fault_of(f) {
        Some(e) => Outcome::Fault(e),
        None => if ready { Outcome::Ready } else { Outcome::NotYetReady },
    }
}

fn decide(f: Flags, ready: bool) -> (r: Outcome)
    ensures
        r == outcome_of(f, ready),
{
    if f.overrun {
        Outcome::Fault(Error::Overrun)
    } else if f.mode_fault {
        Outcome::Fault(Error::ModeFault)
    } else if f.crc_error {
        Outcome::Fault(Error::Crc)
    } else if ready {
        Outcome::Ready
    } else {
        Outcome::NotYetReady
    }
}

/// Whether a byte may be written to the data register now.
pub fn check_send(f: Flags) -> (r: Outcome)
    ensures
        r == outcome_of(f, f.tx_empty),
{
    decide(f, f.tx_empty)
}

/// Whether a received byte may be read from the data register now.
pub fn check_receive(f: Flags) -> (r: Outcome)
    ensures
        r == outcome_of(f, f.rx_not_empty),
{
    decide(f, f.rx_not_empty)
}

} // verus!
