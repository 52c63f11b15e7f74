//! How the device keeps its registers and answers transactions, and the
//! laws that the driver's frames obey against it.
use vstd::prelude::*;
use crate::l3gd20::{
    command, config_writes, read_frame, reg1_value, scale_bits, write_frame, Config, CTRL_REG1,
    CTRL_REG3, CTRL_REG4, ENABLE_DRDY,
};

verus! {

/// The register that the `i`-th payload byte after command `cmd` reaches:
/// the command names the first register; with the multi-byte bit each
/// further byte moves on to the next register, without it they all stay.
pub open spec fn target(cmd: u8, i: int) -> int {
    (cmd % 64) as int + if (cmd / 64) % 2 == 1 {
        i
    } else {
        0
    }
}

/// The registers after the device took a write transaction carrying `frame`.
pub open spec fn device_write(regs: Seq<u8>, frame: Seq<u8>) -> Seq<u8>
    decreases frame.len(),
{
    if frame.len() <= 1 {
        regs
    } else {
        device_write(regs, frame.drop_last()).update(target(frame[0], frame.len() - 2), frame.last())
    }
}

/// The bytes the device shifts back during a read transaction carrying
/// `frame`: nothing of meaning while the command comes in, then the
/// registers in the order the command reaches them.
pub open spec fn device_replies(regs: Seq<u8>, frame: Seq<u8>) -> Seq<u8> {
    Seq::new(
        frame.len(),
        |i: int|
            if i == 0 {
                0u8
            } else {
                regs[target(frame[0], i - 1)]
            },
    )
}

proof fn lemma_write_prefix(regs: Seq<u8>, reg: u8, frame: Seq<u8>, k: int)
    requires
        regs.len() == 64,
        frame.len() >= 1,
        reg + frame.len() - 1 <= 64,
        forall|i: int| 0 <= i < frame.len() - 1 ==> target(frame[0], i) == reg + i,
        0 <= k < frame.len(),
    ensures
        device_write(regs, frame.take(k + 1)).len() == 64,
        forall|j: int| 1 <= j <= k ==> device_write(regs, frame.take(k + 1))[reg + j - 1] == #[trigger] frame[j],
    decreases k,
{
    if k > 0 {
        lemma_write_prefix(regs, reg, frame, k - 1);
        let f = frame.take(k + 1);
        assert(f.drop_last() =~= frame.take(k));
        assert(f[0] == frame[0]);
        assert(target(frame[0], k - 1) == reg + k - 1);
    }
}

/// Writing bytes to registers in range and reading the same number of
/// bytes back from the same register gives the bytes written, when nothing
/// else changes the registers in between.
pub proof fn lemma_write_then_read(regs: Seq<u8>, reg: u8, bytes: Seq<u8>)
    requires
        regs.len() == 64,
        reg <= 0x3F,
        bytes.len() >= 1,
        reg + bytes.len() <= 64,
    ensures
        device_replies(
            device_write(regs, write_frame(reg, bytes)),
            read_frame(reg, bytes.len()),
        ).skip(1) == bytes,
{
    let wf = write_frame(reg, bytes);
    let rf = read_frame(reg, bytes.len());
    let wc = command(reg, false, bytes.len());
    let rc = command(reg, true, bytes.len());
    assert(wf[0] == wc);
    assert(rf[0] == rc);
    assert forall|i: int| 0 <= i < bytes.len() implies target(wc, i) == reg + i && target(rc, i)
        == reg + i by {
        if bytes.len() > 1 {
            assert(wc == reg + 0x40);
            assert(rc == reg + 0xC0);
        } else {
            assert(wc == reg);
            assert(rc == reg + 0x80);
        }
    }
    lemma_write_prefix(regs, reg, wf, wf.len() - 1);
    assert(wf.take(wf.len() as int) =~= wf);
    let regs2 = device_write(regs, wf);
    assert(device_replies(regs2, rf).skip(1) =~= bytes) by {
        assert forall|j: int| 0 <= j < bytes.len() implies device_replies(regs2, rf).skip(1)[j]
            == bytes[j] by {
            assert(wf[j + 1] == bytes[j]);
            assert(regs2[reg + (j + 1) - 1] == wf[j + 1]);
        }
    }
}

/// Whatever the configuration, the write that powers the sensor comes last,
/// after the range write and, when one is asked for, the interrupt write;
/// no earlier write reaches `CTRL_REG1`.
pub proof fn lemma_power_on_last(cfg: Config)
    ensures
        ({
            let w = config_writes(cfg);
            &&& w.len() >= 2
            &&& w.last() == write_frame(CTRL_REG1, seq![reg1_value(cfg.odr, cfg.cut_off)])
            &&& w[w.len() - 2] == write_frame(CTRL_REG4, seq![scale_bits(cfg.scale)])
            &&& cfg.interrupt ==> w[0] == write_frame(CTRL_REG3, seq![ENABLE_DRDY])
            &&& forall|i: int| 0 <= i < w.len() - 1 ==> (#[trigger] w[i])[0] != command(CTRL_REG1, false, 1)
        }),
{
    let w = config_writes(cfg);
    assert forall|i: int| 0 <= i < w.len() - 1 implies (#[trigger] w[i])[0] != command(CTRL_REG1, false, 1) by {
        if cfg.interrupt && i == 0 {
            assert(w[i][0] == command(CTRL_REG3, false, 1));
        } else {
            assert(w[i][0] == command(CTRL_REG4, false, 1));
        }
    }
}

} // verus!
