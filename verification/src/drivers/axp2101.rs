//! AXP2101 power management: the two display rails, power-key events and battery status.
//!
//! Register access is described step by step: each function returns the next transfer
//! from the step number and the byte read last. Only the documented rail and interrupt
//! registers are ever written.
use vstd::prelude::*;

verus! {

pub const REG_STATUS1: u8 = 0x00;
pub const REG_STATUS2: u8 = 0x01;
pub const REG_INTEN2: u8 = 0x41;
pub const REG_INTSTS1: u8 = 0x48;
pub const REG_INTSTS2: u8 = 0x49;
pub const REG_INTSTS3: u8 = 0x4A;
pub const REG_DC_ONOFF: u8 = 0x80;
pub const REG_DC_VOL0: u8 = 0x82;
pub const REG_LDO_ONOFF0: u8 = 0x90;
pub const REG_LDO_VOL0: u8 = 0x92;
pub const REG_BAT_PCT: u8 = 0xA4;

/// Power-key bits of interrupt bank 2.
pub const PKEY_LONG: u8 = 0x04;
pub const PKEY_SHORT: u8 = 0x08;

/// One register transfer.
#[derive(Clone, Copy, Debug, PartialEq, Eq, Structural)]
pub enum Transfer {
    Read { reg: u8 },
    Write { reg: u8, value: u8 },
    Done,
}

/// A power-key event.
#[derive(Clone, Copy, Debug, PartialEq, Eq, Structural)]
pub enum PowerKey {
    NoPress,
    ShortPress,
    LongPress,
}

/// The bit of weight `w` is set in `b`.
pub open spec fn bit(b: int, w: int) -> bool {
    b / w % 2 == 1
}

/// `b` with the bit of weight `w` set.
pub open spec fn with_bit(b: int, w: int) -> int {
    if bit(b, w) { b } else { b + w }
}

/// Setting the rail-enable bit keeps every other bit.
fn rail_on(b: u8) -> (r: u8)
    ensures
        r == with_bit(b as int, 1),
{
    assert((b | 1) == if b % 2 == 1 { b as int } else { b + 1 }) by (bit_vector);
    b | 1
}

/// Setting both key bits keeps every other bit.
fn keys_on(b: u8) -> (r: u8)
    ensures
        r == with_bit(with_bit(b as int, 8), 4),
{
    assert((b | 8 | 4) == {
        let c = if b / 8 % 2 == 1 { b as int } else { b + 8 };
        if b / 4 % 2 == 1 { c } else { c + 4 }
    }) by (bit_vector);
    proof {
        let c = with_bit(b as int, 8);
        assert(c / 4 % 2 == b as int / 4 % 2);
    }
    b | PKEY_SHORT | PKEY_LONG
}

/// Transfer `step` of enabling DC1 and ALDO1 at 3.3 V; `read` is the byte read by the
/// step before.
pub open spec fn display_power(step: int, read: u8) -> Transfer {
    if step == 0 {
        Transfer::Write { reg: 0x82, value: 18 }
    } else if step == 1 {
        Transfer::Read { reg: 0x80 }
    } else if step == 2 {
        Transfer::Write { reg: 0x80, value: with_bit(read as int, 1) as u8 }
    } else if step == 3 {
        Transfer::Write { reg: 0x92, value: 28 }
    } else if step == 4 {
        Transfer::Read { reg: 0x90 }
    } else if step == 5 {
        Transfer::Write { reg: 0x90, value: with_bit(read as int, 1) as u8 }
    } else {
        Transfer::Done
    }
}

/// Next transfer of the display power-up.
pub fn enable_display_power(step: u8, read: u8) -> (t: Transfer)
    ensures
        t == display_power(step as int, read),
{
    if step == 0 {
        Transfer::Write { reg: REG_DC_VOL0, value: 18 }
    } else if step == 1 {
        Transfer::Read { reg: REG_DC_ONOFF }
    } else if step == 2 {
        Transfer::Write { reg: REG_DC_ONOFF, value: rail_on(read) }
    } else if step == 3 {
        Transfer::Write { reg: REG_LDO_VOL0, value: 28 }
    } else if step == 4 {
        Transfer::Read { reg: REG_LDO_ONOFF0 }
    } else if step == 5 {
        Transfer::Write { reg: REG_LDO_ONOFF0, value: rail_on(read) }
    } else {
        Transfer::Done
    }
}

/// Transfer `step` of arming the power key: enable both presses, then clear what was
/// latched before boot.
pub open spec fn power_key_setup(step: int, read: u8) -> Transfer {
    if step == 0 {
        Transfer::Read { reg: 0x41 }
    } else if step == 1 {
        Transfer::Write { reg: 0x41, value: with_bit(with_bit(read as int, 8), 4) as u8 }
    } else if step == 2 {
        Transfer::Write { reg: 0x48, value: 0xFF }
    } else if step == 3 {
        Transfer::Write { reg: 0x49, value: 0xFF }
    } else if step == 4 {
        Transfer::Write { reg: 0x4A, value: 0xFF }
    } else {
        Transfer::Done
    }
}

/// Next transfer of the power-key setup.
pub fn init_power_key(step: u8, read: u8) -> (t: Transfer)
    ensures
        t == power_key_setup(step as int, read),
{
    if step == 0 {
        Transfer::Read { reg: REG_INTEN2 }
    } else if step == 1 {
        Transfer::Write { reg: REG_INTEN2, value: keys_on(read) }
    } else if step == 2 {
        Transfer::Write { reg: REG_INTSTS1, value: 0xFF }
    } else if step == 3 {
        Transfer::Write { reg: REG_INTSTS2, value: 0xFF }
    } else if step == 4 {
        Transfer::Write { reg: REG_INTSTS3, value: 0xFF }
    } else {
        Transfer::Done
    }
}

/// No rail but DC1 and ALDO1 is touched, and their control registers only gain the enable bit.
pub proof fn lemma_only_display_rails(step: int, read: u8)
    ensures
        display_power(step, read) matches Transfer::Write { reg, value } ==> reg == 0x80 || reg == 0x82 || reg
            == 0x90 || reg == 0x92,
        display_power(step, read) matches Transfer::Write { reg, value } ==> (reg == 0x80 || reg == 0x90)
            ==> bit(value as int, 1) && value as int / 2 == read as int / 2,
{
}

/// The power-key setup writes interrupt registers only, and once a latched flag has been
/// cleared no enable follows.
pub proof fn lemma_key_setup_order(step: int, later: int, r1: u8, r2: u8)
    requires
        step <= later,
    ensures
        power_key_setup(step, r1) matches Transfer::Write { reg, value } ==> reg == 0x41 || 0x48 <= reg <= 0x4A,
        (power_key_setup(step, r1) matches Transfer::Write { reg, value } && reg >= 0x48) ==> (power_key_setup(
            later,
            r2,
        ) matches Transfer::Write { reg: reg2, value: value2 } ==> reg2 >= 0x48),
{
}

/// The event latched in interrupt status bank 2 (a long press wins) and the bits to write
/// back to clear it, or no event and nothing to clear.
pub fn power_key_event(status: u8) -> (r: (PowerKey, Option<u8>))
    ensures
        ({
            let long = bit(status as int, 4);
            let short = bit(status as int, 8);
            &&& r.0 == (if long {
                PowerKey::LongPress
            } else if short {
                PowerKey::ShortPress
            } else {
                PowerKey::NoPress
            })
            &&& (r.1 is None <==> !long && !short)
            &&& r.1 is Some ==> r.1->0 == (if long { 4int } else { 0 }) + (if short { 8int } else { 0 })
        }),
{
    let long: bool = status / 4 % 2 == 1;
    let short: bool = status / 8 % 2 == 1;
    if !long && !short {
        return (PowerKey::NoPress, None);
    }
    let hit: u8 = (if long { PKEY_LONG } else { 0 }) + (if short { PKEY_SHORT } else { 0 });
    if long {
        (PowerKey::LongPress, Some(hit))
    } else {
        (PowerKey::ShortPress, Some(hit))
    }
}

/// A battery is present according to status register 1.
pub fn battery_present(status1: u8) -> (r: bool)
    ensures
        r == bit(status1 as int, 8),
{
    status1 / 8 % 2 == 1
}

/// Battery percentage from the status register and the fuel gauge, `None` without a battery.
pub fn battery_percent(status1: u8, gauge: u8) -> (r: Option<u8>)
    ensures
        r == (if bit(status1 as int, 8) {
            Some(if gauge <= 100 { gauge } else { 100u8 })
        } else {
            None
        }),
{
    if !battery_present(status1) {
        return None;
    }
    Some(if gauge <= 100 { gauge } else { 100 })
}

/// The battery is charging: the top three bits of status register 2 read 1.
pub fn is_charging(status2: u8) -> (r: bool)
    ensures
        r == (status2 as int / 32 == 1),
{
    status2 / 32 == 1
}

} // verus!
