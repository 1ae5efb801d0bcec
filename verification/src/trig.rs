//! Fixed-point sine: a 512-entry table in Q14 (1.0 is 16384), read with linear
//! interpolation. `cos(x)` is `sin(x + FRAC_PI_2_Q14)`.
use vstd::prelude::*;

use crate::imath;

verus! {

/// One full turn of phase.
pub const TAU_Q14: i32 = 103_246;
/// A quarter turn.
pub const FRAC_PI_2_Q14: i32 = 25_736;

/// `round(16384 * sin(2 pi i / 512))`.
pub const SIN_LUT_I16: [i16; 512] = [
    0, 201, 402, 603, 804, 1005, 1205, 1406, 1606, 1806, 2006, 2205, 2404, 2603, 2801, 2999,
    3196, 3393, 3590, 3786, 3981, 4176, 4370, 4563, 4756, 4948, 5139, 5330, 5520, 5708, 5897, 6084,
    6270, 6455, 6639, 6823, 7005, 7186, 7366, 7545, 7723, 7900, 8076, 8250, 8423, 8595, 8765, 8935,
    9102, 9269, 9434, 9598, 9760, 9921, 10080, 10238, 10394, 10549, 10702, 10853, 11003, 11151, 11297, 11442,
    11585, 11727, 11866, 12004, 12140, 12274, 12406, 12537, 12665, 12792, 12916, 13039, 13160, 13279, 13395, 13510,
    13623, 13733, 13842, 13949, 14053, 14155, 14256, 14354, 14449, 14543, 14635, 14724, 14811, 14896, 14978, 15059,
    15137, 15213, 15286, 15357, 15426, 15493, 15557, 15619, 15679, 15736, 15791, 15843, 15893, 15941, 15986, 16029,
    16069, 16107, 16143, 16176, 16207, 16235, 16261, 16284, 16305, 16324, 16340, 16353, 16364, 16373, 16379, 16383,
    16384, 16383, 16379, 16373, 16364, 16353, 16340, 16324, 16305, 16284, 16261, 16235, 16207, 16176, 16143, 16107,
    16069, 16029, 15986, 15941, 15893, 15843, 15791, 15736, 15679, 15619, 15557, 15493, 15426, 15357, 15286, 15213,
    15137, 15059, 14978, 14896, 14811, 14724, 14635, 14543, 14449, 14354, 14256, 14155, 14053, 13949, 13842, 13733,
    13623, 13510, 13395, 13279, 13160, 13039, 12916, 12792, 12665, 12537, 12406, 12274, 12140, 12004, 11866, 11727,
    11585, 11442, 11297, 11151, 11003, 10853, 10702, 10549, 10394, 10238, 10080, 9921, 9760, 9598, 9434, 9269,
    9102, 8935, 8765, 8595, 8423, 8250, 8076, 7900, 7723, 7545, 7366, 7186, 7005, 6823, 6639, 6455,
    6270, 6084, 5897, 5708, 5520, 5330, 5139, 4948, 4756, 4563, 4370, 4176, 3981, 3786, 3590, 3393,
    3196, 2999, 2801, 2603, 2404, 2205, 2006, 1806, 1606, 1406, 1205, 1005, 804, 603, 402, 201,
    0, -201, -402, -603, -804, -1005, -1205, -1406, -1606, -1806, -2006, -2205, -2404, -2603, -2801, -2999,
    -3196, -3393, -3590, -3786, -3981, -4176, -4370, -4563, -4756, -4948, -5139, -5330, -5520, -5708, -5897, -6084,
    -6270, -6455, -6639, -6823, -7005, -7186, -7366, -7545, -7723, -7900, -8076, -8250, -8423, -8595, -8765, -8935,
    -9102, -9269, -9434, -9598, -9760, -9921, -10080, -10238, -10394, -10549, -10702, -10853, -11003, -11151, -11297, -11442,
    -11585, -11727, -11866, -12004, -12140, -12274, -12406, -12537, -12665, -12792, -12916, -13039, -13160, -13279, -13395, -13510,
    -13623, -13733, -13842, -13949, -14053, -14155, -14256, -14354, -14449, -14543, -14635, -14724, -14811, -14896, -14978, -15059,
    -15137, -15213, -15286, -15357, -15426, -15493, -15557, -15619, -15679, -15736, -15791, -15843, -15893, -15941, -15986, -16029,
    -16069, -16107, -16143, -16176, -16207, -16235, -16261, -16284, -16305, -16324, -16340, -16353, -16364, -16373, -16379, -16383,
    -16384, -16383, -16379, -16373, -16364, -16353, -16340, -16324, -16305, -16284, -16261, -16235, -16207, -16176, -16143, -16107,
    -16069, -16029, -15986, -15941, -15893, -15843, -15791, -15736, -15679, -15619, -15557, -15493, -15426, -15357, -15286, -15213,
    -15137, -15059, -14978, -14896, -14811, -14724, -14635, -14543, -14449, -14354, -14256, -14155, -14053, -13949, -13842, -13733,
    -13623, -13510, -13395, -13279, -13160, -13039, -12916, -12792, -12665, -12537, -12406, -12274, -12140, -12004, -11866, -11727,
    -11585, -11442, -11297, -11151, -11003, -10853, -10702, -10549, -10394, -10238, -10080, -9921, -9760, -9598, -9434, -9269,
    -9102, -8935, -8765, -8595, -8423, -8250, -8076, -7900, -7723, -7545, -7366, -7186, -7005, -6823, -6639, -6455,
    -6270, -6084, -5897, -5708, -5520, -5330, -5139, -4948, -4756, -4563, -4370, -4176, -3981, -3786, -3590, -3393,
    -3196, -2999, -2801, -2603, -2404, -2205, -2006, -1806, -1606, -1406, -1205, -1005, -804, -603, -402, -201,
];

/// Entry `i` of the sine table.
#[verifier::opaque]
pub open spec fn sin_entry(i: int) -> int {
    SIN_LUT_I16@[i] as int
}

/// No entry exceeds 1.0.
pub proof fn lemma_sin_entry(i: int)
    requires
        0 <= i < 512,
    ensures
        -16384 <= sin_entry(i) <= 16384,
{
    reveal(sin_entry);
}

/// One table entry.
pub fn sin_at(i: usize) -> (r: i32)
    requires
        i < 512,
    ensures
        r == sin_entry(i as int),
        -16384 <= r <= 16384,
{
    proof {
        reveal(sin_entry);
        lemma_sin_entry(i as int);
    }
    SIN_LUT_I16[i] as i32
}

/// Position of a phase in the table, in 512ths of an entry.
pub open spec fn table_pos(phase: int) -> int {
    (phase % 103_246) * 262_144 / 103_246
}

/// Sine of a phase: the two table entries around it, weighted by their distance.
pub open spec fn sin_q14(phase: int) -> int {
    let p = table_pos(phase);
    let a = sin_entry(p / 512);
    let b = sin_entry((p / 512 + 1) % 512);
    a + (b - a) * (p % 512) / 512
}

/// The sine of a phase in Q14.
pub fn lut_sin_cos_q14(phase: i32) -> (r: i32)
    ensures
        r == sin_q14(phase as int),
        -16384 <= r <= 16384,
{
    let mut x: i32 = phase % TAU_Q14;
    if x < 0 {
        x = x + TAU_Q14;
    }
    assert(x == phase as int % 103_246);
    let p: i64 = x as i64 * 262_144 / 103_246;
    assert(0 <= p < 262_144);
    let i0: usize = (p / 512) as usize;
    let frac: i32 = (p % 512) as i32;
    let v0: i32 = sin_at(i0);
    let v1: i32 = sin_at((i0 + 1) % 512);
    let d: i32 = v1 - v0;
    proof {
        assert(-32768 * 511 <= d * frac <= 32768 * 511) by (nonlinear_arith)
            requires -32768 <= d <= 32768, 0 <= frac <= 511;
        assert(d >= 0 ==> 0 <= d * frac <= d * 512) by (nonlinear_arith)
            requires 0 <= frac <= 511;
        assert(d < 0 ==> d * 512 <= d * frac <= 0) by (nonlinear_arith)
            requires 0 <= frac <= 511;
    }
    v0 + imath::asr(d * frac, 9)
}

/// A full turn later the sine is the same.
pub proof fn lemma_sin_periodic(phase: int)
    ensures
        sin_q14(phase + 103_246) == sin_q14(phase),
{
    assert((phase + 103_246) % 103_246 == phase % 103_246);
}

/// No sine exceeds 1.0.
pub proof fn lemma_sin_range(phase: int)
    ensures
        -16384 <= sin_q14(phase) <= 16384,
{
    let p = table_pos(phase);
    assert(0 <= p < 262_144);
    lemma_sin_entry(p / 512);
    lemma_sin_entry((p / 512 + 1) % 512);
    let (a, b, f) = (sin_entry(p / 512), sin_entry((p / 512 + 1) % 512), p % 512);
    let d = b - a;
    assert(d >= 0 ==> 0 <= d * f <= d * 512) by (nonlinear_arith)
        requires 0 <= f <= 511;
    assert(d < 0 ==> d * 512 <= d * f <= 0) by (nonlinear_arith)
        requires 0 <= f <= 511;
}

} // verus!
