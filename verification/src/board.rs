//! Board constants of the ESP32-S3 round-AMOLED watch.
use vstd::prelude::*;

verus! {

/// Round AMOLED panel.
pub const LCD_WIDTH: u16 = 466;
pub const LCD_HEIGHT: u16 = 466;
/// The visible window starts at this panel column.
pub const LCD_COL_OFFSET: u16 = 6;

/// I2C device addresses.
pub const AXP2101_ADDR: u8 = 0x34;
pub const PCF85063_ADDR: u8 = 0x51;
pub const CST9217_ADDR: u8 = 0x5A;
pub const QMI8658_ADDR: u8 = 0x6B;

/// Touch controller pins.
pub const TP_INT_GPIO: u8 = 11;
pub const TP_RESET_GPIO: u8 = 40;

} // verus!
