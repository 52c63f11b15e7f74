//! Chip-select framing of multi-byte exchanges over a blocking byte port.
use vstd::prelude::*;
use crate::spi::Error;

verus! {

/// What the driver did on the bus, one step at a time.
#[derive(Debug, Clone, Copy, PartialEq, Eq, Structural)]
pub enum BusEvent {
    /// The select line was driven active.
    Select,
    /// The select line was driven back to idle.
    Deselect,
    /// A byte was shifted out.
    Sent(u8),
    /// A byte was shifted in.
    Received(u8),
    /// The bus reported a fault instead of moving a byte.
    Fault(Error),
    /// The select line was made an output and driven idle.
    Setup,
}

/// A bus port as the driver sees it: the operations of a `Platform`, and
/// `trace`, everything done through the port so far, to which each method
/// adds the one event it performed.
pub trait BusPort {
    spec fn trace(&self) -> Seq<BusEvent>;

    /// Makes the select line an output and drives it to its idle level.
    fn setup_select(&mut self)
        ensures
            final(self).trace() == old(self).trace().push(BusEvent::Setup),
    ;

    /// Drives the select line active: a transaction begins.
    fn select(&mut self)
        ensures
            final(self).trace() == old(self).trace().push(BusEvent::Select),
    ;

    /// Drives the select line idle: the transaction ends.
    fn deselect(&mut self)
        ensures
            final(self).trace() == old(self).trace().push(BusEvent::Deselect),
    ;

    /// Shifts one byte out, waiting while the bus is not ready.
    fn send(&mut self, byte: u8) -> (r: Result<(), Error>)
        ensures
            final(self).trace() == old(self).trace().push(
                match r {
                    Ok(_) => BusEvent::Sent(byte),
                    Err(e) => BusEvent::Fault(e),
                },
            ),
    ;

    /// Takes the byte shifted in, waiting while none has arrived.
    fn receive(&mut self) -> (r: Result<u8, Error>)
        ensures
            final(self).trace() == old(self).trace().push(
                match r {
                    Ok(v) => BusEvent::Received(v),
                    Err(e) => BusEvent::Fault(e),
                },
            ),
    ;
}

/// The bytes shifted out during `t`, in order.
pub open spec fn sent_of(t: Seq<BusEvent>) -> Seq<u8>
    decreases t.len(),
{
    if t.len() == 0 {
        Seq::empty()
    } else {
        match t.last() {
            BusEvent::Sent(b) => sent_of(t.drop_last()).push(b),
            _ => sent_of(t.drop_last()),
        }
    }
}

/// The bytes shifted in during `t`, in order.
pub open spec fn received_of(t: Seq<BusEvent>) -> Seq<u8>
    decreases t.len(),
{
    if t.len() == 0 {
        Seq::empty()
    } else {
        match t.last() {
            BusEvent::Received(b) => received_of(t.drop_last()).push(b),
            _ => received_of(t.drop_last()),
        }
    }
}

/// `m` is a run of byte exchanges: each sent byte followed by the byte
/// received with it.
pub open spec fn pairs(m: Seq<BusEvent>) -> bool
    decreases m.len(),
{
    m.len() == 0 || (m.len() >= 2 && m[m.len() - 2] is Sent && m.last() is Received && pairs(
        m.take(m.len() - 2),
    ))
}

/// `m` is a run of byte exchanges, possibly cut short by one fault, on the
/// send or on the receive of the last byte.
pub open spec fn exchanges(m: Seq<BusEvent>) -> bool {
    ||| pairs(m)
    ||| (m.len() >= 1 && m.last() is Fault && pairs(m.drop_last()))
    ||| (m.len() >= 2 && m.last() is Fault && m[m.len() - 2] is Sent && pairs(m.take(m.len() - 2)))
}

/// `t` opens with a select, closes with a deselect, and in between
/// exchanges bytes one for one, stopping at the first fault.
pub open spec fn well_framed(t: Seq<BusEvent>) -> bool {
    &&& t.len() >= 2
    &&& t[0] == BusEvent::Select
    &&& t.last() == BusEvent::Deselect
    &&& exchanges(t.subrange(1, t.len() - 1))
}

/// The fault that ended transaction `t`, if one did: it stands just before
/// the closing deselect.
pub open spec fn fault_in(t: Seq<BusEvent>) -> Option<Error> {
    if t.len() >= 2 && t[t.len() - 2] is Fault {
        Some(t[t.len() - 2]->Fault_0)
    } else {
        None
    }
}

/// No fault was reported during `t`.
pub open spec fn no_fault(t: Seq<BusEvent>) -> bool {
    forall|i: int| 0 <= i < t.len() ==> !(#[trigger] t[i] is Fault)
}

proof fn lemma_push(t: Seq<BusEvent>, e: BusEvent)
    ensures
        sent_of(t.push(e)) == (match e {
            BusEvent::Sent(b) => sent_of(t).push(b),
            _ => sent_of(t),
        }),
        received_of(t.push(e)) == (match e {
            BusEvent::Received(b) => received_of(t).push(b),
            _ => received_of(t),
        }),
{
    assert(t.push(e).drop_last() =~= t);
}

/// What a platform offers: one select line and a full-duplex byte
/// exchange that waits until the hardware is ready or reports a fault.
pub trait Platform {
    /// Makes the select line an output and drives it to its idle level.
    fn setup_select(&mut self);

    /// Drives the select line active.
    fn select(&mut self);

    /// Drives the select line idle.
    fn deselect(&mut self);

    /// Shifts one byte out.
    fn send(&mut self, byte: u8) -> Result<(), Error>;

    /// Takes the byte shifted in.
    fn receive(&mut self) -> Result<u8, Error>;
}

/// A platform together with the trace of every call made on it.
pub struct Recorded<H: Platform> {
    pub hw: H,
    trace: Ghost<Seq<BusEvent>>,
}

impl<H: Platform> Recorded<H> {
    pub fn new(hw: H) -> (r: Self)
        ensures
            r.trace() == Seq::<BusEvent>::empty(),
    {
        Recorded { hw, trace: Ghost(Seq::empty()) }
    }
}

impl<H: Platform> BusPort for Recorded<H> {
    closed spec fn trace(&self) -> Seq<BusEvent> {
        self.trace@
    }

    fn setup_select(&mut self) {
        self.hw.setup_select();
        self.trace = Ghost(self.trace@.push(BusEvent::Setup));
    }

    fn select(&mut self) {
        self.hw.select();
        self.trace = Ghost(self.trace@.push(BusEvent::Select));
    }

    fn deselect(&mut self) {
        self.hw.deselect();
        self.trace = Ghost(self.trace@.push(BusEvent::Deselect));
    }

    fn send(&mut self, byte: u8) -> (r: Result<(), Error>) {
        let r = self.hw.send(byte);
        self.trace = Ghost(
            self.trace@.push(
                match r {
                    Ok(_) => BusEvent::Sent(byte),
                    Err(e) => BusEvent::Fault(e),
                },
            ),
        );
        r
    }

    fn receive(&mut self) -> (r: Result<u8, Error>) {
        let r = self.hw.receive();
        self.trace = Ghost(
            self.trace@.push(
                match r {
                    Ok(v) => BusEvent::Received(v),
                    Err(e) => BusEvent::Fault(e),
                },
            ),
        );
        r
    }
}

proof fn lemma_pairs_push(m: Seq<BusEvent>, b: u8, v: u8)
    requires
        pairs(m),
    ensures
        pairs(m.push(BusEvent::Sent(b)).push(BusEvent::Received(v))),
{
    let m2 = m.push(BusEvent::Sent(b)).push(BusEvent::Received(v));
    assert(m2.take(m2.len() - 2) =~= m);
}

/// A port together with the record of every transaction made through it.
pub struct Channel<P: BusPort> {
    port: P,
    history: Ghost<Seq<Seq<BusEvent>>>,
}

impl<P: BusPort> Channel<P> {
    /// One entry per transaction made through `exchange`, each the events it
    /// consisted of.
    pub closed spec fn history(&self) -> Seq<Seq<BusEvent>> {
        self.history@
    }

    /// Everything done through the port.
    pub closed spec fn trace(&self) -> Seq<BusEvent> {
        self.port.trace()
    }

    /// The port, to look at.
    pub fn port(&self) -> (p: &P)
        ensures
            p.trace() == self.trace(),
    {
        &self.port
    }

    pub fn new(port: P) -> (c: Self)
        ensures
            c.history() == Seq::<Seq<BusEvent>>::empty(),
            c.trace() == port.trace(),
    {
        Channel { port, history: Ghost(Seq::empty()) }
    }

    /// Readies the select line, outside any transaction.
    pub fn setup_select(&mut self)
        ensures
            final(self).history() == old(self).history(),
            final(self).trace() == old(self).trace().push(BusEvent::Setup),
    {
        self.port.setup_select();
    }

    /// One transaction: selects the device, shifts each byte of `out` and
    /// collects the byte shifted in with it, then deselects. The first fault
    /// the port reports stops the exchange and is returned; the select line
    /// is released either way.
    pub fn exchange(&mut self, out: &[u8]) -> (r: Result<Vec<u8>, Error>)
        ensures
            final(self).history().len() == old(self).history().len() + 1,
            final(self).history().drop_last() == old(self).history(),
            final(self).trace() == old(self).trace() + final(self).history().last(),
            well_framed(final(self).history().last()),
            sent_of(final(self).history().last()).len() <= out@.len(),
            sent_of(final(self).history().last()) == out@.take(
                sent_of(final(self).history().last()).len() as int,
            ),
            r is Ok <==> fault_in(final(self).history().last()) is None,
            no_fault(final(self).history().last()) ==> r is Ok,
            r matches Err(e) ==> fault_in(final(self).history().last()) == Some(e),
            r is Ok <==> received_of(final(self).history().last()).len() == out@.len(),
            r matches Ok(rx) ==> rx@ == received_of(final(self).history().last()) && sent_of(
                final(self).history().last(),
            ) == out@,
    {
        let ghost h0 = self.history@;
        let ghost tr0 = self.port.trace();
        self.port.select();
        let ghost mut t: Seq<BusEvent> = Seq::empty().push(BusEvent::Select);
        proof {
            lemma_push(Seq::empty(), BusEvent::Select);
            assert(t.skip(1) =~= Seq::<BusEvent>::empty());
            assert(self.port.trace() =~= tr0 + t);
        }
        let mut rx: Vec<u8> = Vec::new();
        let mut fault: Option<Error> = None;
        let mut i: usize = 0;
        while i < out.len() && fault.is_none()
            invariant
                i <= out@.len(),
                self.history@ == h0,
                self.port.trace() == tr0 + t,
                t.len() >= 1,
                t[0] == BusEvent::Select,
                forall|j: int| 0 <= j < t.len() - 1 ==> !(#[trigger] t[j] is Fault),
                fault is None ==> no_fault(t) && pairs(t.skip(1)),
                fault matches Some(e) ==> t.last() == BusEvent::Fault(e) && exchanges(t.skip(1)),
                rx@ == received_of(t),
                sent_of(t).len() <= out@.len(),
                sent_of(t) == out@.take(sent_of(t).len() as int),
                fault is None ==> sent_of(t) == out@.take(i as int) && rx@.len() == i,
                fault is Some ==> rx@.len() < out@.len(),
            decreases out@.len() - i, if fault is None { 1int } else { 0int },
        {
            let ghost m = t.skip(1);
            match self.port.send(out[i]) {
                Err(e) => {
                    fault = Some(e);
                    proof {
                        lemma_push(t, BusEvent::Fault(e));
                        t = t.push(BusEvent::Fault(e));
                        assert(t.skip(1).drop_last() =~= m);
                        assert(self.port.trace() =~= tr0 + t);
                    }
                },
                Ok(()) => {
                    proof {
                        lemma_push(t, BusEvent::Sent(out@[i as int]));
                        assert(out@.take(i as int).push(out@[i as int]) =~= out@.take(i + 1));
                        t = t.push(BusEvent::Sent(out@[i as int]));
                        assert(self.port.trace() =~= tr0 + t);
                    }
                    match self.port.receive() {
                        Err(e) => {
                            fault = Some(e);
                            proof {
                                lemma_push(t, BusEvent::Fault(e));
                                t = t.push(BusEvent::Fault(e));
                                let m2 = t.skip(1);
                                assert(m2.take(m2.len() - 2) =~= m);
                                assert(self.port.trace() =~= tr0 + t);
                            }
                        },
                        Ok(v) => {
                            proof {
                                lemma_push(t, BusEvent::Received(v));
                                lemma_pairs_push(m, out@[i as int], v);
                                t = t.push(BusEvent::Received(v));
                                assert(t.skip(1) =~= m.push(BusEvent::Sent(out@[i as int])).push(
                                    BusEvent::Received(v),
                                ));
                                assert(self.port.trace() =~= tr0 + t);
                            }
                            rx.push(v);
                            i = i + 1;
                        },
                    }
                },
            }
        }
        self.port.deselect();
        proof {
            let ghost tb = t;
            lemma_push(t, BusEvent::Deselect);
            t = t.push(BusEvent::Deselect);
            assert(t.subrange(1, t.len() - 1) =~= tb.skip(1));
            assert(out@.take(out@.len() as int) =~= out@);
            assert(self.port.trace() =~= tr0 + t);
            if fault is None {
                assert(no_fault(t));
            }
        }
        self.history = Ghost(h0.push(t));
        proof {
            assert(h0.push(t).drop_last() =~= h0);
        }
        match fault {
            Some(e) => Err(e),
            None => Ok(rx),
        }
    }
}

} // verus!
