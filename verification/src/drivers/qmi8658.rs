//! QMI8658 inertial unit: setup registers and the accelerometer sample.
use vstd::prelude::*;

verus! {

/// Reads 0x05 on a healthy chip.
pub const REG_WHO_AM_I: u8 = 0x00;
pub const REG_CTRL1: u8 = 0x02;
pub const REG_CTRL2: u8 = 0x03;
pub const REG_CTRL3: u8 = 0x04;
pub const REG_CTRL7: u8 = 0x08;
pub const REG_ACC_X_L: u8 = 0x35;

/// Accelerometer sensitivity at the configured full scale of 4 g.
pub const ACC_LSB_PER_G: i32 = 8192;

/// Register write `step` of the setup: auto-increment, accelerometer 4 g at 1000 Hz, gyro,
/// both enabled; `None` when done.
pub fn init(step: u8) -> (r: Option<(u8, u8)>)
    ensures
        r == (if step == 0 {
            Some((0x02u8, 0x60u8))
        } else if step == 1 {
            Some((0x03u8, 0x13u8))
        } else if step == 2 {
            Some((0x04u8, 0x43u8))
        } else if step == 3 {
            Some((0x08u8, 0x03u8))
        } else {
            None
        }),
{
    if step == 0 {
        Some((REG_CTRL1, 0x60))
    } else if step == 1 {
        Some((REG_CTRL2, 0x13))
    } else if step == 2 {
        Some((REG_CTRL3, 0x43))
    } else if step == 3 {
        Some((REG_CTRL7, 0x03))
    } else {
        None
    }
}

/// Signed 16-bit value of a little-endian byte pair.
pub open spec fn le_i16(lo: u8, hi: u8) -> int {
    let w = hi * 256 + lo;
    if w >= 32768 { w - 65536 } else { w }
}

fn axis_value(lo: u8, hi: u8) -> (r: i16)
    ensures
        r == le_i16(lo, hi),
{
    let w: i32 = hi as i32 * 256 + lo as i32;
    if w >= 32768 {
        (w - 65536) as i16
    } else {
        w as i16
    }
}

/// The raw accelerometer vector from six output bytes.
pub fn read_accel(b: &[u8; 6]) -> (r: (i16, i16, i16))
    ensures
        r.0 == le_i16(b@[0], b@[1]),
        r.1 == le_i16(b@[2], b@[3]),
        r.2 == le_i16(b@[4], b@[5]),
{
    (axis_value(b[0], b[1]), axis_value(b[2], b[3]), axis_value(b[4], b[5]))
}

} // verus!
