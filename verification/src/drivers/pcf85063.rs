//! PCF85063 real-time clock: BCD time registers 0x04..=0x0A (seconds, minutes, hours,
//! day, weekday, month, year 00..=99 for 2000..=2099). Bit 7 of the seconds register is
//! the integrity flag: set when the chip lost power since the time was last written,
//! cleared by writing the seconds.
use vstd::prelude::*;

verus! {

pub const REG_CONTROL_1: u8 = 0x00;
pub const REG_SECONDS: u8 = 0x04;

/// Broken-down local time as stored in the chip.
#[derive(Clone, Copy, Debug, PartialEq, Eq, Structural)]
pub struct RtcTime {
    /// 2000..=2099
    pub year: u16,
    /// 1..=12
    pub month: u8,
    /// 1..=31
    pub day: u8,
    /// 0..=23
    pub hour: u8,
    pub minute: u8,
    pub second: u8,
}

/// Value of a BCD byte.
#[verifier::opaque]
pub open spec fn bcd_value(b: int) -> int {
    (b / 16) * 10 + b % 16
}

/// BCD byte of a value.
#[verifier::opaque]
pub open spec fn bcd_of(v: int) -> int {
    ((v / 10) % 16) * 16 + v % 10
}

/// Two decimal digits survive BCD.
pub proof fn lemma_bcd_round_trip(v: int)
    requires
        0 <= v <= 99,
    ensures
        bcd_value(bcd_of(v)) == v,
        0 <= bcd_of(v) <= 0x99,
        bcd_of(v) < 16 * (v / 10) + 16,
{
    reveal(bcd_value);
    reveal(bcd_of);
}

pub fn bcd_to_bin(b: u8) -> (r: u8)
    ensures
        r == bcd_value(b as int),
        r <= 165,
{
    proof {
        reveal(bcd_value);
    }
    (b / 16) * 10 + b % 16
}

pub fn bin_to_bcd(v: u8) -> (r: u8)
    ensures
        r == bcd_of(v as int),
{
    proof {
        reveal(bcd_of);
    }
    ((v / 10) % 16) * 16 + v % 10
}

/// The time held by the seven registers.
pub open spec fn time_of(regs: Seq<u8>) -> RtcTime {
    RtcTime {
        second: bcd_value(regs[0] as int % 128) as u8,
        minute: bcd_value(regs[1] as int % 128) as u8,
        hour: bcd_value(regs[2] as int % 64) as u8,
        day: bcd_value(regs[3] as int % 64) as u8,
        month: bcd_value(regs[5] as int % 32) as u8,
        year: (2000 + bcd_value(regs[6] as int)) as u16,
    }
}

/// Decode the registers: the time and whether its integrity was lost.
pub fn decode_time(regs: &[u8; 7]) -> (r: (RtcTime, bool))
    ensures
        r.0 == time_of(regs@),
        r.1 == (regs@[0] >= 128),
        2000 <= r.0.year <= 2165,
{
    let vl = regs[0] >= 128;
    let t = RtcTime {
        second: bcd_to_bin(regs[0] % 128),
        minute: bcd_to_bin(regs[1] % 128),
        hour: bcd_to_bin(regs[2] % 64),
        day: bcd_to_bin(regs[3] % 64),
        month: bcd_to_bin(regs[5] % 32),
        year: 2000 + bcd_to_bin(regs[6]) as u16,
    };
    (t, vl)
}

/// The bytes that set the clock: start register, then the seven time registers.
pub open spec fn set_bytes(t: RtcTime, weekday: int) -> Seq<u8> {
    seq![
        0x04u8,
        bcd_of(t.second as int) as u8,
        bcd_of(t.minute as int) as u8,
        bcd_of(t.hour as int) as u8,
        bcd_of(t.day as int) as u8,
        (weekday % 8) as u8,
        bcd_of(t.month as int) as u8,
        bcd_of((t.year - 2000) % 256) as u8,
    ]
}

/// Encode a time for writing; bit 7 of the seconds clears the integrity flag.
pub fn encode_time(t: &RtcTime, weekday: u8) -> (r: [u8; 8])
    requires
        t.year >= 2000,
    ensures
        r@ == set_bytes(*t, weekday as int),
{
    let r: [u8; 8] = [
        REG_SECONDS,
        bin_to_bcd(t.second),
        bin_to_bcd(t.minute),
        bin_to_bcd(t.hour),
        bin_to_bcd(t.day),
        weekday % 8,
        bin_to_bcd(t.month),
        bin_to_bcd(((t.year - 2000) % 256) as u8),
    ];
    assert(r@ =~= set_bytes(*t, weekday as int));
    r
}

/// A time the chip can hold.
pub open spec fn storable(t: RtcTime) -> bool {
    2000 <= t.year <= 2099 && t.month <= 12 && t.day <= 31 && t.hour <= 23 && t.minute <= 59 && t.second <= 59
}

/// What was set is what is read back, with its integrity intact.
pub proof fn lemma_set_then_read(t: RtcTime, weekday: int)
    requires
        storable(t),
    ensures
        time_of(set_bytes(t, weekday).skip(1)) == t,
        set_bytes(t, weekday).skip(1)[0] < 128,
{
    let r = set_bytes(t, weekday).skip(1);
    lemma_field(t.second as int);
    lemma_field(t.minute as int);
    lemma_field(t.hour as int);
    lemma_field(t.day as int);
    lemma_field(t.month as int);
    lemma_bcd_round_trip(t.year - 2000);
    assert((t.year - 2000) % 256 == t.year - 2000);
}

proof fn lemma_field(v: int)
    requires
        0 <= v <= 59,
    ensures
        bcd_value((bcd_of(v) as u8) as int % 128) == v,
        (bcd_of(v) as u8) < 128,
        v <= 39 ==> bcd_value((bcd_of(v) as u8) as int % 64) == v,
        v <= 19 ==> bcd_value((bcd_of(v) as u8) as int % 32) == v,
{
    lemma_bcd_round_trip(v);
    assert(0 <= bcd_of(v) < 0x60);
    assert(v <= 39 ==> bcd_of(v) < 64);
    assert(v <= 19 ==> bcd_of(v) < 32);
}

} // verus!
