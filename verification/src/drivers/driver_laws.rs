//! Laws of the chips' data formats: what was measured is what is read.
use vstd::prelude::*;

use crate::drivers::axp2101;
use crate::drivers::axp2101::Transfer;
use crate::drivers::cst9217;
use crate::drivers::cst9217::Handshake;
use crate::drivers::pcf85063;
use crate::drivers::qmi8658;

verus! {

/// The report of a touch at raw column `x` and raw row `y`.
pub open spec fn report_bytes(x: int, y: int, fingers: int, pressed: bool) -> Seq<u8> {
    Seq::new(
        15,
        |i: int|
            if i == 0 {
                if pressed { 6u8 } else { 0u8 }
            } else if i == 1 {
                (x / 16) as u8
            } else if i == 2 {
                (y / 16) as u8
            } else if i == 3 {
                (x % 16 * 16 + y % 16) as u8
            } else if i == 5 {
                fingers as u8
            } else if i == 6 {
                0xABu8
            } else {
                0u8
            },
    )
}

/// A touch is read where it is: columns as they are, rows counted from the top, on the panel.
pub proof fn lemma_touch_is_read(x: int, y: int, fingers: int, pressed: bool)
    requires
        0 <= x < 4096,
        0 <= y < 4096,
        1 <= fingers <= 2,
    ensures
        ({
            let r = cst9217::report_of(report_bytes(x, y, fingers, pressed));
            &&& r is Some
            &&& (r->0).x == x
            &&& y <= 465 ==> (r->0).y == 465 - y
            &&& y > 465 ==> (r->0).y == 0
            &&& (r->0).fingers == fingers
            &&& (r->0).pressed == pressed
        }),
{
    let b = report_bytes(x, y, fingers, pressed);
    assert(b[1] == x / 16 && b[2] == y / 16 && b[3] == x % 16 * 16 + y % 16);
    assert(b[3] / 16 == x % 16 && b[3] % 16 == y % 16);
}

/// A report that is not acknowledged, or holds no finger or too many, is none.
pub proof fn lemma_bad_report(b: Seq<u8>)
    requires
        b.len() == 15,
    ensures
        cst9217::report_of(b) is None <==> b[6] != 0xAB || b[5] % 128 == 0 || b[5] % 128 > 2,
        cst9217::report_of(b) matches Some(t) ==> (t.pressed <==> b[0] % 16 == 6),
{
}

/// The handshake in the order of its steps: seven good answers make the controller ready, with
/// the size, chip and firmware that it named.
pub proof fn lemma_handshake_runs(
    h: Handshake,
    r1: Seq<u8>,
    r2: Seq<u8>,
    r3: Seq<u8>,
    r4: Seq<u8>,
    r5: Seq<u8>,
    r6: Seq<u8>,
    r7: Seq<u8>,
)
    requires
        h.step is CommandMode,
        r2[2] == 0xCA && r2[3] == 0xCA,
        r4[3] == 0x92 && (r4[2] == 0x17 || r4[2] == 0x20),
        r5[0] != 0xA5,
    ensures
        ({
            let h1 = cst9217::handshake_next(h, true, r1);
            let h2 = cst9217::handshake_next(h1, true, r2);
            let h3 = cst9217::handshake_next(h2, true, r3);
            let h4 = cst9217::handshake_next(h3, true, r4);
            let h5 = cst9217::handshake_next(h4, true, r5);
            let h6 = cst9217::handshake_next(h5, true, r6);
            let h7 = cst9217::handshake_next(h6, true, r7);
            &&& h7.step is Ready
            &&& h7.found.res_x == r3[0] + 256 * r3[1]
            &&& h7.found.res_y == r3[2] + 256 * r3[3]
            &&& h7.found.chip_type == r4[2] + 256 * r4[3]
            &&& h7.found.fw_version == r5[0] + 256 * r5[1] + 65_536 * r5[2] + 16_777_216 * r5[3]
        }),
{
    let fw = cst9217::le32(r5[0], r5[1], r5[2], r5[3]);
    assert(fw % 256 == r5[0]);
    assert(0 <= fw <= 0xffff_ffff);
}

/// A wrong answer ends the handshake.
pub proof fn lemma_handshake_refuses(h: Handshake, r: Seq<u8>)
    ensures
        h.step is CheckCode && !(r[2] == 0xCA && r[3] == 0xCA) ==> cst9217::handshake_next(h, true, r).step is Failed,
        h.step is ChipType && r[3] != 0x92 ==> cst9217::handshake_next(h, true, r).step is Failed,
        h.step is Firmware && r[0] == 0xA5 && r[1] == 0xA5 && r[2] == 0xA5 && r[3] == 0xA5 ==> cst9217::handshake_next(
            h,
            true,
            r,
        ).step is Failed,
{
}

/// An acceleration is read with its sign.
pub proof fn lemma_acceleration_is_read(v: int, lo: u8, hi: u8)
    requires
        -32_768 <= v <= 32_767,
        lo == v % 256,
        hi == v / 256 % 256,
    ensures
        qmi8658::le_i16(lo, hi) == v,
{
    let h = v / 256;
    assert(v == 256 * h + v % 256);
    assert(-128 <= h <= 127);
    assert(h >= 0 ==> h % 256 == h);
    assert(h < 0 ==> h % 256 == h + 256);
}

/// A BCD byte holds a decimal digit in each half.
pub proof fn lemma_bcd_digits(tens: int, units: int)
    requires
        0 <= tens <= 9,
        0 <= units <= 9,
    ensures
        pcf85063::bcd_value(16 * tens + units) == 10 * tens + units,
        pcf85063::bcd_of(10 * tens + units) == 16 * tens + units,
{
    reveal(pcf85063::bcd_value);
    reveal(pcf85063::bcd_of);
}

/// The display's power-up sets each rail's voltage before it reads and enables it, and ends.
pub proof fn lemma_power_up(read: u8)
    ensures
        axp2101::display_power(0, read) == (Transfer::Write { reg: 0x82, value: 18 }),
        axp2101::display_power(1, read) == (Transfer::Read { reg: 0x80 }),
        axp2101::display_power(3, read) == (Transfer::Write { reg: 0x92, value: 28 }),
        axp2101::display_power(4, read) == (Transfer::Read { reg: 0x90 }),
        forall|step: int| step >= 6 ==> #[trigger] axp2101::display_power(step, read) is Done,
        forall|step: int|
            step == 2 || step == 5 ==> (#[trigger] axp2101::display_power(step, read) matches Transfer::Write {
                reg,
                value,
            } && reg == (if step == 2 { 0x80u8 } else { 0x90u8 }) && value % 2 == 1 && value / 2 == read / 2),
{
}

/// Arming the power key enables both presses and keeps the other interrupts.
pub proof fn lemma_key_armed(read: u8)
    ensures
        axp2101::power_key_setup(1, read) matches Transfer::Write { reg, value } && {
            &&& reg == 0x41
            &&& value / 4 % 4 == 3
            &&& value % 4 == read % 4
            &&& value / 16 == read / 16
        },
{
    let v = axp2101::with_bit(axp2101::with_bit(read as int, 8), 4);
    assert(0 <= v <= 255);
}

} // verus!
