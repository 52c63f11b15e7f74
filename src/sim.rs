//! A simulated device on a simulated bus: 64 registers, the register
//! pointer advancing per byte under the multi-byte bit, and an optional
//! fault injected on one chosen byte sent.
use vstd::prelude::*;
use crate::bus::{BusEvent, BusPort};
use crate::spi::Error;

verus! {

pub struct SimBus {
    /// The device's registers.
    pub regs: Vec<u8>,
    /// The number of the send, counting from zero, that meets a mode fault.
    pub fail_at: Option<usize>,
    /// Everything done through the bus.
    pub events: Vec<BusEvent>,
    /// The command of the transaction under way, once it has come in.
    pub cmd: Option<u8>,
    /// Payload bytes taken so far in this transaction.
    pub idx: usize,
    /// The byte shifted back with the last byte sent.
    pub reply: u8,
    /// Bytes sent so far, faults included.
    pub sends: usize,
}

impl SimBus {
    /// A bus with the given register contents and no fault.
    pub fn new(regs: Vec<u8>) -> (b: SimBus)
        ensures
            b.regs@ == regs@,
            b.fail_at is None,
            b.events@.len() == 0,
    {
        SimBus { regs, fail_at: None, events: Vec::new(), cmd: None, idx: 0, reply: 0, sends: 0 }
    }
}

impl BusPort for SimBus {
    open spec fn trace(&self) -> Seq<BusEvent> {
        self.events@
    }

    fn setup_select(&mut self) {
        self.events.push(BusEvent::Setup);
    }

    fn select(&mut self) {
        self.cmd = None;
        self.idx = 0;
        self.events.push(BusEvent::Select);
    }

    fn deselect(&mut self) {
        self.events.push(BusEvent::Deselect);
    }

    fn send(&mut self, byte: u8) -> (r: Result<(), Error>) {
        let n = self.sends;
        if self.sends < usize::MAX {
            self.sends = self.sends + 1;
        }
        let fail = match self.fail_at {
            Some(k) => k == n,
            None => false,
        };
        if fail {
            self.events.push(BusEvent::Fault(Error::ModeFault));
            return Err(Error::ModeFault);
        }
        match self.cmd {
            None => {
                self.cmd = Some(byte);
                self.reply = 0;
            },
            Some(c) => {
                let base = (c % 64) as usize;
                let step = if (c / 64) % 2 == 1 { self.idx } else { 0 };
                self.reply = 0;
                if step < 64 && base + step < self.regs.len() {
                    let addr = base + step;
                    if c >= 128 {
                        self.reply = self.regs[addr];
                    } else {
                        self.regs.set(addr, byte);
                    }
                }
                if self.idx < usize::MAX {
                    self.idx = self.idx + 1;
                }
            },
        }
        self.events.push(BusEvent::Sent(byte));
        Ok(())
    }

    fn receive(&mut self) -> (r: Result<u8, Error>) {
        self.events.push(BusEvent::Received(self.reply));
        Ok(self.reply)
    }
}

} // verus!
