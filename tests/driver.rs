use l3gd20::bus::{BusEvent, Platform, Recorded};
use l3gd20::sim::SimBus;
use l3gd20::l3gd20::{
    command_byte, decode_measurement, decode_status, Config, CutOff, Error, Measurement,
    ScaleSelection, Status, L3GD20, ODR,
};
use l3gd20::spi;

fn sim() -> SimBus {
    let mut regs = vec![0u8; 64];
    regs[0x0F] = 0xD4;
    SimBus::new(regs)
}

/// The bytes sent in each transaction, in order.
fn frames(events: &[BusEvent]) -> Vec<Vec<u8>> {
    let mut out: Vec<Vec<u8>> = Vec::new();
    for e in events {
        match e {
            BusEvent::Select => out.push(Vec::new()),
            BusEvent::Sent(b) => out.last_mut().unwrap().push(*b),
            _ => {}
        }
    }
    out
}

/// Whether the select line is active after `events`.
fn selected(events: &[BusEvent]) -> bool {
    let mut sel = false;
    for e in events {
        match e {
            BusEvent::Select => sel = true,
            BusEvent::Deselect => sel = false,
            _ => {}
        }
    }
    sel
}

#[test]
fn command_byte_single_read() {
    assert_eq!(command_byte(0x27, true, 1), 0xA7);
}

#[test]
fn command_byte_multi_read() {
    assert_eq!(command_byte(0x28, true, 6), 0xE8);
}

#[test]
fn command_byte_writes() {
    assert_eq!(command_byte(0x20, false, 1), 0x20);
    assert_eq!(command_byte(0x20, false, 3), 0x60);
    assert_eq!(command_byte(0x3F, true, 0), 0xBF);
}

#[test]
fn status_decode_mixed_bits() {
    let s = decode_status(0b1001_0001);
    assert_eq!(
        s,
        Status {
            sensor_overrun: true,
            z_overrun: false,
            y_overrun: false,
            x_overrun: true,
            new_data: false,
            z_new: false,
            y_new: false,
            x_new: true,
        }
    );
}

#[test]
fn status_decode_each_bit() {
    assert!(decode_status(0x40).z_overrun);
    assert!(decode_status(0x20).y_overrun);
    assert!(decode_status(0x08).new_data);
    assert!(decode_status(0x04).z_new);
    assert!(decode_status(0x02).y_new);
    let none = decode_status(0);
    assert!(!none.sensor_overrun && !none.x_new && !none.new_data);
}

fn rad_per_sec(count: i16, scale: ScaleSelection) -> f32 {
    let dps = scale.micro_dps_per_count() as f32 * 1e-6;
    count as f32 * dps.to_radians()
}

#[test]
fn measurement_zero_bytes_decode_to_zero() {
    for scale in [ScaleSelection::Dps250, ScaleSelection::Dps500, ScaleSelection::Dps2000] {
        let m = decode_measurement(&[0, 0, 0, 0, 0, 0], scale);
        assert_eq!(m, Measurement { x: 0, y: 0, z: 0, scale });
        assert_eq!(rad_per_sec(m.x, scale), 0.0);
    }
}

#[test]
fn measurement_minus_one_at_250_dps() {
    let m = decode_measurement(&[0xFF, 0xFF, 0, 0, 0, 0], ScaleSelection::Dps250);
    assert_eq!((m.x, m.y, m.z), (-1, 0, 0));
    let x = rad_per_sec(m.x, ScaleSelection::Dps250);
    assert!((x - (-1.527e-4)).abs() < 1e-7);
}

#[test]
fn measurement_words_are_little_endian_signed() {
    let m = decode_measurement(&[0x34, 0x12, 0x00, 0x80, 0xFF, 0x7F], ScaleSelection::Dps500);
    assert_eq!((m.x, m.y, m.z), (0x1234, -32768, 32767));
}

#[test]
fn sensitivity_per_range() {
    assert_eq!(ScaleSelection::Dps250.micro_dps_per_count(), 8750);
    assert_eq!(ScaleSelection::Dps500.micro_dps_per_count(), 17500);
    assert_eq!(ScaleSelection::Dps2000.micro_dps_per_count(), 70000);
}

#[test]
fn config_default_values() {
    let c = Config::default();
    assert_eq!(c.odr, ODR::Hz380);
    assert_eq!(c.cut_off, CutOff::Freq50);
    assert!(c.interrupt);
    assert_eq!(c.scale, ScaleSelection::Dps2000);
}

#[test]
fn write_then_read_round_trip() {
    let mut g = L3GD20::new(sim());
    for (reg, payload) in [(0x00u8, vec![7u8]), (0x10, vec![1, 2, 3]), (0x3A, vec![9, 8, 7, 6, 5, 4])] {
        g.write(reg, &payload).unwrap();
        let mut back = vec![0u8; payload.len()];
        g.read(reg, &mut back).unwrap();
        assert_eq!(back, payload);
    }
}

#[test]
fn read_frame_uses_filler_bytes() {
    let mut g = L3GD20::new(sim());
    let mut buf = [0u8; 3];
    g.read(0x28, &mut buf).unwrap();
    assert_eq!(frames(&g.bus.port().events)[0], vec![0xE8, 0, 0, 0]);
}

#[test]
fn init_writes_power_last_with_interrupt() {
    let mut g = L3GD20::new(sim());
    assert!(!g.ready);
    g.init(Config::default()).unwrap();
    assert!(g.ready);
    let p = g.bus.port();
    assert_eq!(p.events[0], BusEvent::Setup);
    assert_eq!(
        frames(&p.events),
        vec![vec![0x8F, 0x00], vec![0x22, 0x08], vec![0x23, 0x30], vec![0x20, 0x80 | 0x20 | 0x0F]]
    );
}

#[test]
fn init_writes_power_last_without_interrupt() {
    let mut g = L3GD20::new(sim());
    let cfg = Config { odr: ODR::Hz760, cut_off: CutOff::Freq100, interrupt: false, scale: ScaleSelection::Dps250 };
    g.init(cfg).unwrap();
    assert_eq!(frames(&g.bus.port().events), vec![vec![0x8F, 0x00], vec![0x23, 0x00], vec![0x20, 0xFF]]);
    assert_eq!(g.bus.port().regs[0x20], 0xFF);
}

#[test]
fn init_rejects_wrong_identity() {
    let mut s = sim();
    s.regs[0x0F] = 0xD3;
    let mut g = L3GD20::new(s);
    assert_eq!(g.init(Config::default()), Err(Error::IdentityMismatch));
    assert!(!g.ready);
    assert_eq!(frames(&g.bus.port().events), vec![vec![0x8F, 0x00]]);
    assert_eq!(g.bus.port().regs[0x20], 0);
}

#[test]
fn check_id_reports_match() {
    let mut g = L3GD20::new(sim());
    assert_eq!(g.check_id(), Ok(true));
}

#[test]
fn fault_mid_transaction_releases_select() {
    let mut s = sim();
    s.fail_at = Some(2);
    let mut g = L3GD20::new(s);
    assert_eq!(g.write(0x10, &[1, 2, 3]), Err(Error::Spi(spi::Error::ModeFault)));
    let p = g.bus.port();
    assert!(!selected(&p.events));
    assert_eq!(
        p.events,
        vec![BusEvent::Select, BusEvent::Sent(0x50), BusEvent::Received(0), BusEvent::Sent(1), BusEvent::Received(0), BusEvent::Fault(spi::Error::ModeFault), BusEvent::Deselect]
    );
}

#[test]
fn fault_during_init_stops_configuration() {
    let mut s = sim();
    s.fail_at = Some(2);
    let mut g = L3GD20::new(s);
    assert_eq!(g.init(Config::default()), Err(Error::Spi(spi::Error::ModeFault)));
    assert!(!g.ready);
    let p = g.bus.port();
    assert!(!selected(&p.events));
    assert_eq!(frames(&p.events).len(), 2);
    assert_eq!(p.regs[0x20], 0);
}

#[test]
fn status_temp_and_measure_through_bus() {
    let mut s = sim();
    s.regs[0x26] = 0xF6;
    s.regs[0x27] = 0b1001_0001;
    s.regs[0x28..0x2E].copy_from_slice(&[0xFF, 0xFF, 0x02, 0x00, 0x00, 0x80]);
    let mut g = L3GD20::new(s);
    assert_eq!(g.temp(), Ok(-10));
    let s = g.status().unwrap();
    assert!(s.sensor_overrun && s.x_overrun && s.x_new && !s.new_data);
    let m = g.measure(ScaleSelection::Dps2000).unwrap();
    assert_eq!(m, Measurement { x: -1, y: 2, z: -32768, scale: ScaleSelection::Dps2000 });
    assert_eq!(frames(&g.bus.port().events)[2], vec![0xE8, 0, 0, 0, 0, 0, 0]);
}

#[test]
fn transport_fault_priority() {
    let all = spi::Flags { overrun: true, mode_fault: true, crc_error: true, rx_not_empty: true, tx_empty: true };
    assert_eq!(spi::check_send(all), spi::Outcome::Fault(spi::Error::Overrun));
    assert_eq!(spi::check_receive(all), spi::Outcome::Fault(spi::Error::Overrun));
    let modf = spi::Flags { overrun: false, ..all };
    assert_eq!(spi::check_send(modf), spi::Outcome::Fault(spi::Error::ModeFault));
    let crc = spi::Flags { mode_fault: false, ..modf };
    assert_eq!(spi::check_receive(crc), spi::Outcome::Fault(spi::Error::Crc));
}

#[test]
fn transport_ready_and_not_ready() {
    let idle = spi::Flags { overrun: false, mode_fault: false, crc_error: false, rx_not_empty: false, tx_empty: true };
    assert_eq!(spi::check_send(idle), spi::Outcome::Ready);
    assert_eq!(spi::check_receive(idle), spi::Outcome::NotYetReady);
    let got = spi::Flags { rx_not_empty: true, tx_empty: false, ..idle };
    assert_eq!(spi::check_send(got), spi::Outcome::NotYetReady);
    assert_eq!(spi::check_receive(got), spi::Outcome::Ready);
}

/// A platform whose receive side always reports a checksum error.
struct BrokenReceive {
    log: Vec<&'static str>,
}

impl Platform for BrokenReceive {
    fn setup_select(&mut self) {
        self.log.push("setup");
    }

    fn select(&mut self) {
        self.log.push("select");
    }

    fn deselect(&mut self) {
        self.log.push("deselect");
    }

    fn send(&mut self, _byte: u8) -> Result<(), spi::Error> {
        self.log.push("send");
        Ok(())
    }

    fn receive(&mut self) -> Result<u8, spi::Error> {
        self.log.push("receive");
        Err(spi::Error::Crc)
    }
}

#[test]
fn receive_fault_is_returned_and_select_released() {
    let mut g = L3GD20::new(Recorded::new(BrokenReceive { log: Vec::new() }));
    assert_eq!(g.status(), Err(Error::Spi(spi::Error::Crc)));
    assert_eq!(g.bus.port().hw.log, vec!["select", "send", "receive", "deselect"]);
}

#[test]
fn init_stops_at_first_fault_after_setup() {
    let mut g = L3GD20::new(Recorded::new(BrokenReceive { log: Vec::new() }));
    assert_eq!(g.init(Config::default()), Err(Error::Spi(spi::Error::Crc)));
    assert!(!g.ready);
    assert_eq!(g.bus.port().hw.log, vec!["setup", "select", "send", "receive", "deselect"]);
}
