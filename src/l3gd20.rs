//! L3GD20 gyroscope: register access, configuration and decoding.
use vstd::prelude::*;
use crate::bus::{BusEvent, BusPort, Channel, fault_in, no_fault, sent_of, received_of, well_framed};
use crate::spi;
use vstd::arithmetic::power2::pow2;

verus! {

/// Multi-byte bit of a command: the device advances its register pointer
/// after each byte.
pub const MS: u8 = 0x40;
/// Direction bit of a command: set for a read.
pub const READ: u8 = 0x80;
/// Identity stored in the `WHO_AM_I` register.
pub const SENSOR_ID: u8 = 0xD4;
/// Filler shifted out to clock in a byte being read.
pub const JUNK_DATA: u8 = 0x00;
/// `CTRL_REG1` bits that power the sensor and enable all three axes.
pub const ENABLE_SENSOR: u8 = 0x0F;
/// `CTRL_REG3` bit that signals data-ready on the `INT2` pin.
pub const ENABLE_DRDY: u8 = 0x08;

pub const WHO_AM_I: u8 = 0x0F;
pub const CTRL_REG1: u8 = 0x20;
pub const CTRL_REG3: u8 = 0x22;
pub const CTRL_REG4: u8 = 0x23;
pub const OUT_TEMP: u8 = 0x26;
pub const STATUS_REG: u8 = 0x27;
pub const OUT_X_L: u8 = 0x28;

/// Gyroscope errors.
#[derive(Debug, Clone, Copy, PartialEq, Eq, Structural)]
pub enum Error {
    /// The bus reported a fault.
    Spi(spi::Error),
    /// The identity register did not hold the expected value.
    IdentityMismatch,
}

/// Output data rate.
#[derive(Debug, Clone, Copy, PartialEq, Eq, Structural)]
pub enum ODR {
    Hz95,
    Hz190,
    Hz380,
    Hz760,
}

/// Cut-off frequency of the low-pass filter.
#[derive(Debug, Clone, Copy, PartialEq, Eq, Structural)]
pub enum CutOff {
    Freq30,
    Freq35,
    Freq50,
    Freq100,
}

/// Full-scale range.
#[derive(Debug, Clone, Copy, PartialEq, Eq, Structural)]
pub enum ScaleSelection {
    /// 250 degrees per second
    Dps250,
    /// 500 degrees per second
    Dps500,
    /// 2000 degrees per second
    Dps2000,
}

pub open spec fn odr_bits(o: ODR) -> u8 {
    match o {
        ODR::Hz95 => 0x00,
        ODR::Hz190 => 0x40,
        ODR::Hz380 => 0x80,
        ODR::Hz760 => 0xC0,
    }
}

pub open spec fn cut_off_bits(c: CutOff) -> u8 {
    match c {
        CutOff::Freq30 => 0x00,
        CutOff::Freq35 => 0x10,
        CutOff::Freq50 => 0x20,
        CutOff::Freq100 => 0x30,
    }
}

pub open spec fn scale_bits(s: ScaleSelection) -> u8 {
    match s {
        ScaleSelection::Dps250 => 0x00,
        ScaleSelection::Dps500 => 0x10,
        ScaleSelection::Dps2000 => 0x30,
    }
}

/// Sensitivity of each range in micro-degrees per second per count.
pub open spec fn sensitivity(s: ScaleSelection) -> u32 {
    match s {
        ScaleSelection::Dps250 => 8750,
        ScaleSelection::Dps500 => 17500,
        ScaleSelection::Dps2000 => 70000,
    }
}

impl ODR {
    /// The data-rate field of `CTRL_REG1`.
    pub fn bits(&self) -> (r: u8)
        ensures
            r == odr_bits(*self),
    {
        match self {
            ODR::Hz95 => 0x00,
            ODR::Hz190 => 0x40,
            ODR::Hz380 => 0x80,
            ODR::Hz760 => 0xC0,
        }
    }
}

impl CutOff {
    /// The bandwidth field of `CTRL_REG1`.
    pub fn bits(&self) -> (r: u8)
        ensures
            r == cut_off_bits(*self),
    {
        match self {
            CutOff::Freq30 => 0x00,
            CutOff::Freq35 => 0x10,
            CutOff::Freq50 => 0x20,
            CutOff::Freq100 => 0x30,
        }
    }
}

impl ScaleSelection {
    /// The full-scale field of `CTRL_REG4`.
    pub fn bits(&self) -> (r: u8)
        ensures
            r == scale_bits(*self),
    {
        match self {
            ScaleSelection::Dps250 => 0x00,
            ScaleSelection::Dps500 => 0x10,
            ScaleSelection::Dps2000 => 0x30,
        }
    }

    /// Micro-degrees per second that one count stands for in this range.
    pub fn micro_dps_per_count(&self) -> (r: u32)
        ensures
            r == sensitivity(*self),
    {
        match self {
            ScaleSelection::Dps250 => 8750,
            ScaleSelection::Dps500 => 17500,
            ScaleSelection::Dps2000 => 70000,
        }
    }
}

/// Configuration of the gyroscope.
#[derive(Debug, Clone, Copy, PartialEq, Eq, Structural)]
pub struct Config {
    /// Output data rate.
    pub odr: ODR,
    /// Low-pass filter cut-off frequency.
    pub cut_off: CutOff,
    /// Signal data-ready on the `INT2` pin.
    pub interrupt: bool,
    /// Full-scale range.
    pub scale: ScaleSelection,
}

impl Default for Config {
    fn default() -> (c: Config)
        ensures
            c == (Config {
                odr: ODR::Hz380,
                cut_off: CutOff::Freq50,
                interrupt: true,
                scale: ScaleSelection::Dps2000,
            }),
    {
        Config {
            odr: ODR::Hz380,
            cut_off: CutOff::Freq50,
            interrupt: true,
            scale: ScaleSelection::Dps2000,
        }
    }
}

/// Sensor status.
#[derive(Debug, Clone, Copy, PartialEq, Eq, Structural)]
pub struct Status {
    /// Data of some axis was overwritten before it was read.
    pub sensor_overrun: bool,
    pub z_overrun: bool,
    pub y_overrun: bool,
    pub x_overrun: bool,
    /// New data is available for some axis.
    pub new_data: bool,
    pub z_new: bool,
    pub y_new: bool,
    pub x_new: bool,
}

/// Whether bit `k` of `b` is set.
pub open spec fn bit(b: u8, k: nat) -> bool {
    (b as nat / pow2(k)) % 2 == 1
}

/// The status flags held by the status register value `b`, bit 7 down to bit 0.
pub open spec fn status_of(b: u8) -> Status {
    Status {
        sensor_overrun: bit(b, 7),
        z_overrun: bit(b, 6),
        y_overrun: bit(b, 5),
        x_overrun: bit(b, 4),
        new_data: bit(b, 3),
        z_new: bit(b, 2),
        y_new: bit(b, 1),
        x_new: bit(b, 0),
    }
}

/// Decodes the status register.
pub fn decode_status(b: u8) -> (s: Status)
    ensures
        s == status_of(b),
{
    proof {
        vstd::arithmetic::power2::lemma2_to64();
        assert((b & 128 != 0) == ((b / 128) % 2 == 1)) by (bit_vector);
        assert((b & 64 != 0) == ((b / 64) % 2 == 1)) by (bit_vector);
        assert((b & 32 != 0) == ((b / 32) % 2 == 1)) by (bit_vector);
        assert((b & 16 != 0) == ((b / 16) % 2 == 1)) by (bit_vector);
        assert((b & 8 != 0) == ((b / 8) % 2 == 1)) by (bit_vector);
        assert((b & 4 != 0) == ((b / 4) % 2 == 1)) by (bit_vector);
        assert((b & 2 != 0) == ((b / 2) % 2 == 1)) by (bit_vector);
        assert((b & 1 != 0) == (b % 2 == 1)) by (bit_vector);
    }
    Status {
        sensor_overrun: b & 128 != 0,
        z_overrun: b & 64 != 0,
        y_overrun: b & 32 != 0,
        x_overrun: b & 16 != 0,
        new_data: b & 8 != 0,
        z_new: b & 4 != 0,
        y_new: b & 2 != 0,
        x_new: b & 1 != 0,
    }
}

/// Angular velocity in counts of the range it was read with; one count is
/// `scale.micro_dps_per_count()` micro-degrees per second.
#[derive(Debug, Clone, Copy, PartialEq, Eq, Structural)]
pub struct Measurement {
    pub x: i16,
    pub y: i16,
    pub z: i16,
    pub scale: ScaleSelection,
}

/// The two's-complement value of the little-endian word `lo`, `hi`.
pub open spec fn word_of(lo: u8, hi: u8) -> int {
    let w = hi as int * 256 + lo as int;
    if w >= 0x8000 {
        w - 0x10000
    } else {
        w
    }
}

/// Combines a low and a high byte into a signed sample.
pub fn sample(lo: u8, hi: u8) -> (r: i16)
    ensures
        r as int == word_of(lo, hi),
{
    let w: u16 = (hi as u16) * 256 + lo as u16;
    if w >= 0x8000 {
        (w as i32 - 0x10000) as i16
    } else {
        w as i16
    }
}

/// Decodes the six output registers, x then y then z, each low byte first.
pub fn decode_measurement(data: &[u8], scale: ScaleSelection) -> (m: Measurement)
    requires
        data@.len() == 6,
    ensures
        m.x as int == word_of(data@[0], data@[1]),
        m.y as int == word_of(data@[2], data@[3]),
        m.z as int == word_of(data@[4], data@[5]),
        m.scale == scale,
{
    Measurement {
        x: sample(data[0], data[1]),
        y: sample(data[2], data[3]),
        z: sample(data[4], data[5]),
        scale,
    }
}

/// The command byte for an access to register `reg` moving `len` bytes:
/// direction bit, multi-byte bit when more than one byte moves, address.
pub open spec fn command(reg: u8, read: bool, len: nat) -> u8 {
    (reg + (if read { 0x80u8 } else { 0u8 }) + (if len > 1 { 0x40u8 } else { 0u8 })) as u8
}

/// Encodes a command byte.
pub fn command_byte(reg: u8, read: bool, len: usize) -> (c: u8)
    requires
        reg <= 0x3F,
    ensures
        c == command(reg, read, len as nat),
{
    let dir: u8 = if read { READ } else { 0 };
    let ms: u8 = if len > 1 { MS } else { 0 };
    assert(dir | ms | reg == dir + ms + reg) by (bit_vector)
        requires
            reg <= 0x3F,
            dir == 0 || dir == 0x80,
            ms == 0 || ms == 0x40,
    ;
    dir | ms | reg
}

/// The bytes a write of `bytes` at `reg` shifts out.
pub open spec fn write_frame(reg: u8, bytes: Seq<u8>) -> Seq<u8> {
    seq![command(reg, false, bytes.len())] + bytes
}

/// The bytes a read of `n` bytes at `reg` shifts out.
pub open spec fn read_frame(reg: u8, n: nat) -> Seq<u8> {
    seq![command(reg, true, n)] + Seq::new(n, |i: int| JUNK_DATA)
}


/// `after` is `before` with one more transaction, which was properly framed
/// and shifted out a prefix of `frame`.
pub open spec fn one_more(
    before: Seq<Seq<BusEvent>>,
    after: Seq<Seq<BusEvent>>,
    frame: Seq<u8>,
) -> bool {
    &&& after.len() == before.len() + 1
    &&& after.drop_last() == before
    &&& well_framed(after.last())
    &&& sent_of(after.last()).len() <= frame.len()
    &&& sent_of(after.last()) == frame.take(sent_of(after.last()).len() as int)
}

/// The `CTRL_REG1` value that powers all axes at the given rate and cut-off.
pub open spec fn reg1_value(odr: ODR, cut_off: CutOff) -> u8 {
    (odr_bits(odr) + cut_off_bits(cut_off) + ENABLE_SENSOR) as u8
}

/// The configuration writes for `cfg`, in the order they are issued: the
/// interrupt setting if one is asked for, the range, and last the write that
/// powers the sensor.
pub open spec fn config_writes(cfg: Config) -> Seq<Seq<u8>> {
    config_writes_interrupt(cfg.interrupt) + seq![
        write_frame(CTRL_REG4, seq![scale_bits(cfg.scale)]),
        write_frame(CTRL_REG1, seq![reg1_value(cfg.odr, cfg.cut_off)]),
    ]
}

/// The interrupt write of a configuration, if it asks for one.
pub open spec fn config_writes_interrupt(interrupt: bool) -> Seq<Seq<u8>> {
    if interrupt {
        seq![write_frame(CTRL_REG3, seq![ENABLE_DRDY])]
    } else {
        Seq::empty()
    }
}

/// Every transaction of initialisation: the identity read, then the
/// configuration writes.
pub open spec fn init_plan(cfg: Config) -> Seq<Seq<u8>> {
    seq![read_frame(WHO_AM_I, 1)] + config_writes(cfg)
}

/// The signed value of the register byte `b`.
pub open spec fn signed8(b: u8) -> int {
    if b >= 0x80 {
        b - 0x100
    } else {
        b as int
    }
}

/// The fault that ended transaction `t`, as a driver error.
pub open spec fn spi_fault(t: Seq<BusEvent>) -> Option<Error> {
    match fault_in(t) {
        Some(f) => Some(Error::Spi(f)),
        None => None,
    }
}

/// No transaction that `h` adds to `o` met a fault.
pub open spec fn no_faults(o: Seq<Seq<BusEvent>>, h: Seq<Seq<BusEvent>>) -> bool {
    forall|i: int| o.len() <= i < h.len() ==> no_fault(#[trigger] h[i])
}

/// The events of the transactions `h`, one after another.
pub open spec fn joined(h: Seq<Seq<BusEvent>>) -> Seq<BusEvent>
    decreases h.len(),
{
    if h.len() == 0 {
        Seq::empty()
    } else {
        joined(h.drop_last()) + h.last()
    }
}

/// The port's trace grew from `tr0` to `tr1` by exactly the transactions
/// that `h` adds to `o`, at most one.
pub open spec fn step_traced(
    tr0: Seq<BusEvent>,
    tr1: Seq<BusEvent>,
    o: Seq<Seq<BusEvent>>,
    h: Seq<Seq<BusEvent>>,
) -> bool {
    ||| h == o && tr1 == tr0
    ||| h.len() == o.len() + 1 && h.drop_last() == o && tr1 == tr0 + h.last()
}

proof fn lemma_joined_push(h: Seq<Seq<BusEvent>>, n: int, t: Seq<BusEvent>)
    requires
        0 <= n <= h.len(),
    ensures
        joined(h.push(t).skip(n)) == joined(h.skip(n)) + t,
        joined(h.skip(h.len() as int)) == Seq::<BusEvent>::empty(),
{
    assert(h.push(t).skip(n) =~= h.skip(n).push(t));
    assert(h.skip(n).push(t).drop_last() =~= h.skip(n));
    assert(h.skip(h.len() as int) =~= Seq::<Seq<BusEvent>>::empty());
}

/// One more step of initialisation keeps the trace equal to the setup
/// followed by the transactions made since.
proof fn lemma_step(
    base: Seq<BusEvent>,
    o: Seq<Seq<BusEvent>>,
    tr0: Seq<BusEvent>,
    tr1: Seq<BusEvent>,
    h1: Seq<Seq<BusEvent>>,
    h2: Seq<Seq<BusEvent>>,
)
    requires
        o.len() <= h1.len(),
        tr0 == base + joined(h1.skip(o.len() as int)),
        step_traced(tr0, tr1, h1, h2),
    ensures
        tr1 == base + joined(h2.skip(o.len() as int)),
{
    if h2 != h1 {
        let n = o.len() as int;
        lemma_joined_push(h1, n, h2.last());
        assert(h2 =~= h1.push(h2.last()));
        assert((base + joined(h1.skip(n))) + h2.last() =~= base + (joined(h1.skip(n)) + h2.last()));
    }
}

proof fn lemma_fault_unclean(t: Seq<BusEvent>)
    requires
        fault_in(t) is Some,
    ensures
        !no_fault(t),
{
    assert(t[t.len() - 2] is Fault);
}

/// `t` carried all of `frame` and took in a byte for each byte sent.
pub open spec fn complete(t: Seq<BusEvent>, frame: Seq<u8>) -> bool {
    sent_of(t) == frame && received_of(t).len() == frame.len()
}

/// The transactions that `h` adds to `o` carried the frames of `plan` in
/// order, each properly framed, each whole but the last, which may have been
/// cut short by a fault.
pub open spec fn carried_out(o: Seq<Seq<BusEvent>>, h: Seq<Seq<BusEvent>>, plan: Seq<Seq<u8>>) -> bool {
    &&& o.len() <= h.len() <= o.len() + plan.len()
    &&& h.take(o.len() as int) == o
    &&& forall|i: int|
        o.len() <= i < h.len() ==> {
            &&& well_framed(#[trigger] h[i])
            &&& sent_of(h[i]).len() <= plan[i - o.len()].len()
            &&& sent_of(h[i]) == plan[i - o.len()].take(sent_of(h[i]).len() as int)
        }
    &&& forall|i: int| o.len() <= i < h.len() - 1 ==> complete(#[trigger] h[i], plan[i - o.len()])
}

/// `h` adds to `o` one whole transaction for each frame of `plan`.
pub open spec fn finished(o: Seq<Seq<BusEvent>>, h: Seq<Seq<BusEvent>>, plan: Seq<Seq<u8>>) -> bool {
    &&& carried_out(o, h, plan)
    &&& h.len() == o.len() + plan.len()
    &&& forall|i: int| o.len() <= i < h.len() ==> complete(#[trigger] h[i], plan[i - o.len()])
}

proof fn lemma_nothing(o: Seq<Seq<BusEvent>>, plan: Seq<Seq<u8>>)
    ensures
        carried_out(o, o, plan),
        finished(o, o, plan) == (plan.len() == 0),
{
    assert(o.take(o.len() as int) =~= o);
}

proof fn lemma_single(o: Seq<Seq<BusEvent>>, h: Seq<Seq<BusEvent>>, f: Seq<u8>)
    requires
        one_more(o, h, f),
    ensures
        carried_out(o, h, seq![f]),
        finished(o, h, seq![f]) == complete(h.last(), f),
{
    assert(h.take(o.len() as int) =~= h.drop_last());
}

proof fn lemma_chain(
    o: Seq<Seq<BusEvent>>,
    h1: Seq<Seq<BusEvent>>,
    h2: Seq<Seq<BusEvent>>,
    p1: Seq<Seq<u8>>,
    p2: Seq<Seq<u8>>,
)
    requires
        finished(o, h1, p1),
        carried_out(h1, h2, p2),
    ensures
        carried_out(o, h2, p1 + p2),
        finished(o, h2, p1 + p2) == finished(h1, h2, p2),
{
    let p = p1 + p2;
    assert(h2.take(o.len() as int) =~= h1.take(o.len() as int)) by {
        assert forall|i: int| 0 <= i < o.len() implies h2[i] == h1[i] by {
            assert(h2.take(h1.len() as int)[i] == h2[i]);
        }
    }
    assert forall|i: int| o.len() <= i < h2.len() implies #[trigger] p[i - o.len()] == (if i
        < h1.len() {
        p1[i - o.len()]
    } else {
        p2[i - h1.len()]
    }) && (i < h1.len() ==> h2[i] == h1[i]) by {
        if i < h1.len() {
            assert(h2.take(h1.len() as int)[i] == h2[i]);
        }
    }
    if finished(h1, h2, p2) {
        assert forall|i: int| o.len() <= i < h2.len() implies complete(#[trigger] h2[i], p[i - o.len()]) by {
            assert(p[i - o.len()] == (if i < h1.len() { p1[i - o.len()] } else { p2[i - h1.len()] }));
        }
    }
    if finished(o, h2, p) {
        assert forall|i: int| h1.len() <= i < h2.len() implies complete(#[trigger] h2[i], p2[i - h1.len()]) by {
            assert(p[i - o.len()] == p2[i - h1.len()]);
        }
    }
}

proof fn lemma_widen(o: Seq<Seq<BusEvent>>, h: Seq<Seq<BusEvent>>, p1: Seq<Seq<u8>>, p2: Seq<Seq<u8>>)
    requires
        carried_out(o, h, p1),
        !finished(o, h, p1),
    ensures
        carried_out(o, h, p1 + p2),
        !finished(o, h, p1 + p2),
{
    let p = p1 + p2;
    assert forall|i: int| o.len() <= i < h.len() implies #[trigger] p[i - o.len()] == p1[i - o.len()] by {}
    if finished(o, h, p) {
        assert forall|i: int| o.len() <= i < h.len() implies complete(#[trigger] h[i], p1[i - o.len()]) by {
            assert(p[i - o.len()] == p1[i - o.len()]);
        }
    }
}

/// Gyroscope on a bus port.
pub struct L3GD20<P: BusPort> {
    pub bus: Channel<P>,
    /// Set by a successful `init`: the device is configured and sampling.
    pub ready: bool,
}

impl<P: BusPort> L3GD20<P> {
    /// Every transaction made so far, oldest first.
    pub open spec fn history(&self) -> Seq<Seq<BusEvent>> {
        self.bus.history()
    }

    /// Everything done through the port so far.
    pub open spec fn trace(&self) -> Seq<BusEvent> {
        self.bus.trace()
    }

    pub fn new(port: P) -> (g: Self)
        ensures
            g.history() == Seq::<Seq<BusEvent>>::empty(),
            g.trace() == port.trace(),
            !g.ready,
    {
        L3GD20 { bus: Channel::new(port), ready: false }
    }

    /// Writes `bytes` to the registers from `reg` on, in one transaction.
    pub fn write(&mut self, reg: u8, bytes: &[u8]) -> (r: Result<(), Error>)
        requires
            reg <= 0x3F,
            bytes@.len() < usize::MAX,
        ensures
            final(self).ready == old(self).ready,
            final(self).trace() == old(self).trace() + final(self).history().last(),
            r is Ok <==> fault_in(final(self).history().last()) is None,
            no_fault(final(self).history().last()) ==> r is Ok,
            r matches Err(e) ==> spi_fault(final(self).history().last()) == Some(e),
            one_more(old(self).history(), final(self).history(), write_frame(reg, bytes@)),
            r is Ok <==> received_of(final(self).history().last()).len() == bytes@.len() + 1,
            r is Ok ==> sent_of(final(self).history().last()) == write_frame(reg, bytes@),
    {
        let cmd = command_byte(reg, false, bytes.len());
        let mut frame: Vec<u8> = Vec::new();
        frame.push(cmd);
        let mut i: usize = 0;
        while i < bytes.len()
            invariant
                i <= bytes@.len(),
                frame@ == write_frame(reg, bytes@).take(i + 1),
            decreases bytes@.len() - i,
        {
            frame.push(bytes[i]);
            i = i + 1;
            assert(frame@ =~= write_frame(reg, bytes@).take(i + 1));
        }
        assert(frame@ =~= write_frame(reg, bytes@));
        match self.bus.exchange(frame.as_slice()) {
            Ok(_) => Ok(()),
            Err(e) => Err(Error::Spi(e)),
        }
    }

    /// Reads as many bytes as `bytes` holds from the registers from `reg`
    /// on, in one transaction.
    pub fn read(&mut self, reg: u8, bytes: &mut [u8]) -> (r: Result<(), Error>)
        requires
            reg <= 0x3F,
            old(bytes)@.len() < usize::MAX,
        ensures
            final(self).ready == old(self).ready,
            final(self).trace() == old(self).trace() + final(self).history().last(),
            r is Ok <==> fault_in(final(self).history().last()) is None,
            no_fault(final(self).history().last()) ==> r is Ok,
            r matches Err(e) ==> spi_fault(final(self).history().last()) == Some(e),
            one_more(old(self).history(), final(self).history(), read_frame(reg, old(bytes)@.len())),
            final(bytes)@.len() == old(bytes)@.len(),
            r is Ok <==> received_of(final(self).history().last()).len() == old(bytes)@.len() + 1,
            r is Ok ==> sent_of(final(self).history().last()) == read_frame(reg, old(bytes)@.len())
                && final(bytes)@ == received_of(final(self).history().last()).skip(1),
            r is Err ==> final(bytes)@ == old(bytes)@,
    {
        let n = bytes.len();
        let cmd = command_byte(reg, true, n);
        let mut frame: Vec<u8> = Vec::new();
        frame.push(cmd);
        let mut i: usize = 0;
        while i < n
            invariant
                i <= n,
                n == bytes@.len(),
                frame@ == read_frame(reg, n as nat).take(i + 1),
            decreases n - i,
        {
            frame.push(JUNK_DATA);
            i = i + 1;
            assert(frame@ =~= read_frame(reg, n as nat).take(i + 1));
        }
        assert(frame@ =~= read_frame(reg, n as nat));
        match self.bus.exchange(frame.as_slice()) {
            Ok(rx) => {
                let mut j: usize = 0;
                while j < n
                    invariant
                        j <= n,
                        n == bytes@.len(),
                        rx@.len() == n + 1,
                        forall|k: int| 0 <= k < j ==> bytes@[k] == rx@[k + 1],
                    decreases n - j,
                {
                    bytes[j] = rx[j + 1];
                    j = j + 1;
                }
                assert(bytes@ =~= rx@.skip(1));
                Ok(())
            },
            Err(e) => Err(Error::Spi(e)),
        }
    }

    /// Brings the device up: readies the select line, checks the device
    /// identity, then writes the configuration, powering the sensor last.
    /// Stops at the first failure; a wrong identity stops it before any
    /// configuration write. The driver is ready exactly when this succeeded.
    pub fn init(&mut self, cfg: Config) -> (r: Result<(), Error>)
        ensures
            final(self).ready == r is Ok,
            final(self).trace() == old(self).trace().push(BusEvent::Setup) + joined(
                final(self).history().skip(old(self).history().len() as int),
            ),
            carried_out(old(self).history(), final(self).history(), init_plan(cfg)),
            r is Ok <==> finished(old(self).history(), final(self).history(), init_plan(cfg))
                && received_of(final(self).history()[old(self).history().len() as int])[1]
                == SENSOR_ID,
            r == Err::<(), Error>(Error::IdentityMismatch) <==> {
                let id = final(self).history()[old(self).history().len() as int];
                &&& final(self).history().len() > old(self).history().len()
                &&& complete(id, read_frame(WHO_AM_I, 1))
                &&& received_of(id)[1] != SENSOR_ID
            },
            r == Err::<(), Error>(Error::IdentityMismatch) ==> final(self).history().len()
                == old(self).history().len() + 1,
            r matches Err(Error::Spi(f)) ==> final(self).history().len() > old(self).history().len()
                && fault_in(final(self).history().last()) == Some(f),
            no_faults(old(self).history(), final(self).history()) ==> (r is Ok <==> received_of(
                final(self).history()[old(self).history().len() as int],
            )[1] == SENSOR_ID),
    {
        let ghost h0 = self.history();
        let ghost o = h0.len() as int;
        self.ready = false;
        self.bus.setup_select();
        let ghost tr1 = self.trace();
        let res = self.check_id();
        let ghost h1 = self.history();
        let ghost p0 = seq![read_frame(WHO_AM_I, 1)];
        let ghost rest = config_writes(cfg);
        proof {
            lemma_single(h0, h1, read_frame(WHO_AM_I, 1));
            assert(init_plan(cfg) == p0 + rest);
            lemma_joined_push(h0, o, h1.last());
            assert(h0.push(h1.last()) == h1);
            assert(tr1 + Seq::<BusEvent>::empty() =~= tr1);
            assert(self.trace() == tr1 + joined(h1.skip(o)));
            if res is Err {
                lemma_fault_unclean(h1.last());
                assert(!no_fault(h1[h1.len() - 1]));
            }
        }
        match res {
            Err(e) => {
                proof {
                    lemma_widen(h0, h1, p0, rest);
                }
                return Err(e);
            },
            Ok(false) => {
                proof {
                    lemma_nothing(h1, rest);
                    lemma_chain(h0, h1, h1, p0, rest);
                }
                return Err(Error::IdentityMismatch);
            },
            Ok(true) => {},
        }
        let ghost p3 = config_writes_interrupt(cfg.interrupt);
        let ghost p4 = seq![write_frame(CTRL_REG4, seq![scale_bits(cfg.scale)])];
        let ghost p1 = seq![write_frame(CTRL_REG1, seq![reg1_value(cfg.odr, cfg.cut_off)])];
        proof {
            assert(rest =~= p3 + p4 + p1);
            assert(p0 + rest =~= p0 + p3 + p4 + p1);
        }
        let ghost trb = self.trace();
        let res = self.config_reg3(cfg.interrupt);
        let ghost h2 = self.history();
        proof {
            lemma_chain(h0, h1, h2, p0, p3);
            lemma_step(tr1, h0, trb, self.trace(), h1, h2);
            if res is Err {
                lemma_fault_unclean(h2.last());
                assert(!no_fault(h2[h2.len() - 1]));
            }
        }
        if let Err(e) = res {
            proof {
                lemma_widen(h0, h2, p0 + p3, p4 + p1);
                assert(p0 + p3 + (p4 + p1) =~= p0 + rest);
            }
            return Err(e);
        }
        let ghost trc = self.trace();
        let res = self.config_reg4(cfg.scale);
        let ghost h3 = self.history();
        proof {
            lemma_chain(h0, h2, h3, p0 + p3, p4);
            lemma_step(tr1, h0, trc, self.trace(), h2, h3);
            if res is Err {
                lemma_fault_unclean(h3.last());
                assert(!no_fault(h3[h3.len() - 1]));
            }
        }
        if let Err(e) = res {
            proof {
                lemma_widen(h0, h3, p0 + p3 + p4, p1);
            }
            return Err(e);
        }
        let ghost trd = self.trace();
        let res = self.config_reg1(cfg.odr, cfg.cut_off);
        proof {
            lemma_chain(h0, h3, self.history(), p0 + p3 + p4, p1);
            lemma_step(tr1, h0, trd, self.trace(), h3, self.history());
            if res is Err {
                lemma_fault_unclean(self.history().last());
                assert(!no_fault(self.history()[self.history().len() - 1]));
            }
        }
        self.ready = res.is_ok();
        res
    }

    /// Checks the `WHO_AM_I` register against the known identity.
    pub fn check_id(&mut self) -> (r: Result<bool, Error>)
        ensures
            final(self).ready == old(self).ready,
            final(self).trace() == old(self).trace() + final(self).history().last(),
            r is Ok <==> fault_in(final(self).history().last()) is None,
            no_fault(final(self).history().last()) ==> r is Ok,
            r matches Err(e) ==> spi_fault(final(self).history().last()) == Some(e),
            one_more(old(self).history(), final(self).history(), read_frame(WHO_AM_I, 1)),
            r is Ok <==> complete(final(self).history().last(), read_frame(WHO_AM_I, 1)),
            r matches Ok(b) ==> b == (received_of(final(self).history().last())[1] == SENSOR_ID),
    {
        let mut id: [u8; 1] = [0];
        let res = self.read(WHO_AM_I, &mut id);
        match res {
            Ok(()) => Ok(id[0] == SENSOR_ID),
            Err(e) => Err(e),
        }
    }

    /// Reads the temperature register.
    pub fn temp(&mut self) -> (r: Result<i8, Error>)
        ensures
            final(self).ready == old(self).ready,
            final(self).trace() == old(self).trace() + final(self).history().last(),
            r is Ok <==> fault_in(final(self).history().last()) is None,
            no_fault(final(self).history().last()) ==> r is Ok,
            r matches Err(e) ==> spi_fault(final(self).history().last()) == Some(e),
            one_more(old(self).history(), final(self).history(), read_frame(OUT_TEMP, 1)),
            r is Ok <==> complete(final(self).history().last(), read_frame(OUT_TEMP, 1)),
            r matches Ok(v) ==> v as int == signed8(received_of(final(self).history().last())[1]),
    {
        let mut data: [u8; 1] = [0];
        let res = self.read(OUT_TEMP, &mut data);
        match res {
            Ok(()) => {
                let b = data[0];
                if b >= 0x80 {
                    Ok((b as i16 - 0x100) as i8)
                } else {
                    Ok(b as i8)
                }
            },
            Err(e) => Err(e),
        }
    }

    /// Reads and decodes the status register.
    pub fn status(&mut self) -> (r: Result<Status, Error>)
        ensures
            final(self).ready == old(self).ready,
            final(self).trace() == old(self).trace() + final(self).history().last(),
            r is Ok <==> fault_in(final(self).history().last()) is None,
            no_fault(final(self).history().last()) ==> r is Ok,
            r matches Err(e) ==> spi_fault(final(self).history().last()) == Some(e),
            one_more(old(self).history(), final(self).history(), read_frame(STATUS_REG, 1)),
            r is Ok <==> complete(final(self).history().last(), read_frame(STATUS_REG, 1)),
            r matches Ok(s) ==> s == status_of(received_of(final(self).history().last())[1]),
    {
        let mut data: [u8; 1] = [0];
        let res = self.read(STATUS_REG, &mut data);
        match res {
            Ok(()) => Ok(decode_status(data[0])),
            Err(e) => Err(e),
        }
    }

    /// Reads the six output registers in one transaction and decodes the
    /// angular velocity in counts of range `dps`. Reading them also clears a
    /// pending data-ready signal.
    pub fn measure(&mut self, dps: ScaleSelection) -> (r: Result<Measurement, Error>)
        ensures
            final(self).ready == old(self).ready,
            final(self).trace() == old(self).trace() + final(self).history().last(),
            r is Ok <==> fault_in(final(self).history().last()) is None,
            no_fault(final(self).history().last()) ==> r is Ok,
            r matches Err(e) ==> spi_fault(final(self).history().last()) == Some(e),
            one_more(old(self).history(), final(self).history(), read_frame(OUT_X_L, 6)),
            r is Ok <==> complete(final(self).history().last(), read_frame(OUT_X_L, 6)),
            r matches Ok(m) ==> {
                let d = received_of(final(self).history().last()).skip(1);
                &&& m.x as int == word_of(d[0], d[1])
                &&& m.y as int == word_of(d[2], d[3])
                &&& m.z as int == word_of(d[4], d[5])
                &&& m.scale == dps
            },
    {
        let mut data: [u8; 6] = [0; 6];
        let res = self.read(OUT_X_L, &mut data);
        match res {
            Ok(()) => Ok(decode_measurement(&data, dps)),
            Err(e) => Err(e),
        }
    }

    /// Writes `CTRL_REG1`: powers the sensor, enables all axes, and sets the
    /// data rate and low-pass cut-off.
    fn config_reg1(&mut self, odr: ODR, cut_off: CutOff) -> (r: Result<(), Error>)
        ensures
            final(self).ready == old(self).ready,
            step_traced(old(self).trace(), final(self).trace(), old(self).history(), final(self).history()),
            r matches Err(e) ==> final(self).history().len() > old(self).history().len()
                && spi_fault(final(self).history().last()) == Some(e),
            no_faults(old(self).history(), final(self).history()) ==> r is Ok,
            carried_out(
                old(self).history(),
                final(self).history(),
                seq![write_frame(CTRL_REG1, seq![reg1_value(odr, cut_off)])],
            ),
            r is Ok <==> finished(
                old(self).history(),
                final(self).history(),
                seq![write_frame(CTRL_REG1, seq![reg1_value(odr, cut_off)])],
            ),
    {
        let o = odr.bits();
        let c = cut_off.bits();
        assert(o | c | 0x0F == o + c + 0x0F) by (bit_vector)
            requires
                o == 0 || o == 0x40 || o == 0x80 || o == 0xC0,
                c == 0 || c == 0x10 || c == 0x20 || c == 0x30,
        ;
        let cmd: [u8; 1] = [o | c | ENABLE_SENSOR];
        assert(cmd@ =~= seq![reg1_value(odr, cut_off)]);
        let r = self.write(CTRL_REG1, &cmd);
        proof {
            lemma_single(old(self).history(), self.history(), write_frame(CTRL_REG1, cmd@));
        }
        r
    }

    /// Writes `CTRL_REG3` when `interrupt` asks for a data-ready signal;
    /// otherwise touches nothing.
    fn config_reg3(&mut self, interrupt: bool) -> (r: Result<(), Error>)
        ensures
            final(self).ready == old(self).ready,
            step_traced(old(self).trace(), final(self).trace(), old(self).history(), final(self).history()),
            r matches Err(e) ==> final(self).history().len() > old(self).history().len()
                && spi_fault(final(self).history().last()) == Some(e),
            no_faults(old(self).history(), final(self).history()) ==> r is Ok,
            carried_out(
                old(self).history(),
                final(self).history(),
                config_writes_interrupt(interrupt),
            ),
            r is Ok <==> finished(
                old(self).history(),
                final(self).history(),
                config_writes_interrupt(interrupt),
            ),
    {
        if interrupt {
            let cmd: [u8; 1] = [ENABLE_DRDY];
            assert(cmd@ =~= seq![ENABLE_DRDY]);
            let r = self.write(CTRL_REG3, &cmd);
            proof {
                lemma_single(old(self).history(), self.history(), write_frame(CTRL_REG3, cmd@));
            }
            r
        } else {
            proof {
                lemma_nothing(self.history(), Seq::empty());
            }
            Ok(())
        }
    }

    /// Writes `CTRL_REG4`: the full-scale range.
    fn config_reg4(&mut self, scale: ScaleSelection) -> (r: Result<(), Error>)
        ensures
            final(self).ready == old(self).ready,
            step_traced(old(self).trace(), final(self).trace(), old(self).history(), final(self).history()),
            r matches Err(e) ==> final(self).history().len() > old(self).history().len()
                && spi_fault(final(self).history().last()) == Some(e),
            no_faults(old(self).history(), final(self).history()) ==> r is Ok,
            carried_out(
                old(self).history(),
                final(self).history(),
                seq![write_frame(CTRL_REG4, seq![scale_bits(scale)])],
            ),
            r is Ok <==> finished(
                old(self).history(),
                final(self).history(),
                seq![write_frame(CTRL_REG4, seq![scale_bits(scale)])],
            ),
    {
        let cmd: [u8; 1] = [scale.bits()];
        assert(cmd@ =~= seq![scale_bits(scale)]);
        let r = self.write(CTRL_REG4, &cmd);
        proof {
            lemma_single(old(self).history(), self.history(), write_frame(CTRL_REG4, cmd@));
        }
        r
    }
}

} // verus!
