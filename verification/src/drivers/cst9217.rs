//! CST9217 touch controller: the start-up handshake and the touch report.
use vstd::prelude::*;

use crate::board::LCD_HEIGHT;

verus! {

pub const CHIP_ID_CST9217: u16 = 0x9217;
pub const CHIP_ID_CST9220: u16 = 0x9220;
pub const ACK: u8 = 0xAB;

/// What the handshake found out.
#[derive(Clone, Copy, Debug, PartialEq, Eq, Structural)]
pub struct Attributes {
    pub chip_type: u16,
    pub res_x: u16,
    pub res_y: u16,
    pub fw_version: u32,
}

/// One touch report (first finger), in display coordinates.
#[derive(Clone, Copy, Debug, PartialEq, Eq, Structural)]
pub struct TouchPoint {
    pub x: u16,
    pub y: u16,
    pub fingers: u8,
    /// Contact; false is a lift-off report.
    pub pressed: bool,
}

/// Little-endian values.
pub open spec fn le16(lo: u8, hi: u8) -> int {
    hi * 256 + lo
}

pub open spec fn le32(b0: u8, b1: u8, b2: u8, b3: u8) -> int {
    le16(b2, b3) * 65536 + le16(b0, b1)
}

/// What to do next in the handshake, which follows a reset pulse.
#[derive(Clone, Copy, Debug, PartialEq, Eq, Structural)]
pub enum InitStep {
    /// Enter command mode, then wait 10 ms.
    CommandMode,
    /// Read the four-byte check code.
    CheckCode,
    /// Read the four-byte resolution.
    Resolution,
    /// Read the four-byte chip type.
    ChipType,
    /// Read the eight-byte firmware block.
    Firmware,
    /// Back to normal reporting.
    NormalMode,
    /// Disable the automatic low-power scan.
    StayAwake,
    /// The controller is up.
    Ready,
    /// A transfer failed or an answer was wrong.
    Failed,
}

/// The handshake so far.
#[derive(Clone, Copy, Debug, PartialEq, Eq, Structural)]
pub struct Handshake {
    pub step: InitStep,
    pub found: Attributes,
}

/// Two-byte command of a step and the number of bytes it reads; `None` when the handshake
/// is over.
pub fn init_command(step: InitStep) -> (r: Option<(u8, u8, usize)>)
    ensures
        r == (match step {
            InitStep::CommandMode => Some((0xD1u8, 0x01u8, 0usize)),
            InitStep::CheckCode => Some((0xD1u8, 0xFCu8, 4usize)),
            InitStep::Resolution => Some((0xD1u8, 0xF8u8, 4usize)),
            InitStep::ChipType => Some((0xD2u8, 0x04u8, 4usize)),
            InitStep::Firmware => Some((0xD2u8, 0x08u8, 8usize)),
            InitStep::NormalMode => Some((0xD1u8, 0x09u8, 0usize)),
            InitStep::StayAwake => Some((0xD1u8, 0x06u8, 0usize)),
            InitStep::Ready => None,
            InitStep::Failed => None,
        }),
{
    match step {
        InitStep::CommandMode => Some((0xD1, 0x01, 0)),
        InitStep::CheckCode => Some((0xD1, 0xFC, 4)),
        InitStep::Resolution => Some((0xD1, 0xF8, 4)),
        InitStep::ChipType => Some((0xD2, 0x04, 4)),
        InitStep::Firmware => Some((0xD2, 0x08, 8)),
        InitStep::NormalMode => Some((0xD1, 0x09, 0)),
        InitStep::StayAwake => Some((0xD1, 0x06, 0)),
        InitStep::Ready => None,
        InitStep::Failed => None,
    }
}

/// The handshake after the transfer of its step: `reply` holds the bytes read, or `ok` is
/// false when the bus failed.
pub open spec fn handshake_next(h: Handshake, ok: bool, reply: Seq<u8>) -> Handshake {
    let failed = Handshake { step: InitStep::Failed, found: h.found };
    if !ok {
        failed
    } else {
        match h.step {
            InitStep::CommandMode => Handshake { step: InitStep::CheckCode, found: h.found },
            InitStep::CheckCode => if le16(reply[2], reply[3]) == 0xCACA {
                Handshake { step: InitStep::Resolution, found: h.found }
            } else {
                failed
            },
            InitStep::Resolution => Handshake {
                step: InitStep::ChipType,
                found: Attributes {
                    res_x: le16(reply[0], reply[1]) as u16,
                    res_y: le16(reply[2], reply[3]) as u16,
                    ..h.found
                },
            },
            InitStep::ChipType => {
                let id = le16(reply[2], reply[3]);
                if id == 0x9217 || id == 0x9220 {
                    Handshake {
                        step: InitStep::Firmware,
                        found: Attributes { chip_type: id as u16, ..h.found },
                    }
                } else {
                    failed
                }
            },
            InitStep::Firmware => {
                let fw = le32(reply[0], reply[1], reply[2], reply[3]);
                if fw == 0xA5A5_A5A5 {
                    failed
                } else {
                    Handshake {
                        step: InitStep::NormalMode,
                        found: Attributes { fw_version: fw as u32, ..h.found },
                    }
                }
            },
            InitStep::NormalMode => Handshake { step: InitStep::StayAwake, found: h.found },
            InitStep::StayAwake => Handshake { step: InitStep::Ready, found: h.found },
            InitStep::Ready => h,
            InitStep::Failed => h,
        }
    }
}

fn word16(lo: u8, hi: u8) -> (r: u16)
    ensures
        r == le16(lo, hi),
{
    hi as u16 * 256 + lo as u16
}

impl Handshake {
    /// The handshake after the reset pulse.
    pub fn new() -> (h: Self)
        ensures
            h.step == InitStep::CommandMode,
            h.found == (Attributes { chip_type: 0, res_x: 0, res_y: 0, fw_version: 0 }),
    {
        Handshake {
            step: InitStep::CommandMode,
            found: Attributes { chip_type: 0, res_x: 0, res_y: 0, fw_version: 0 },
        }
    }

    /// Take the outcome of the step's transfer.
    pub fn advance(&mut self, ok: bool, reply: &[u8; 8])
        ensures
            *final(self) == handshake_next(*old(self), ok, reply@),
    {
        if !ok {
            self.step = InitStep::Failed;
            return;
        }
        match self.step {
            InitStep::CommandMode => {
                self.step = InitStep::CheckCode;
            },
            InitStep::CheckCode => {
                self.step = if word16(reply[2], reply[3]) == 0xCACA {
                    InitStep::Resolution
                } else {
                    InitStep::Failed
                };
            },
            InitStep::Resolution => {
                self.found.res_x = word16(reply[0], reply[1]);
                self.found.res_y = word16(reply[2], reply[3]);
                self.step = InitStep::ChipType;
            },
            InitStep::ChipType => {
                let id: u16 = word16(reply[2], reply[3]);
                if id == CHIP_ID_CST9217 || id == CHIP_ID_CST9220 {
                    self.found.chip_type = id;
                    self.step = InitStep::Firmware;
                } else {
                    self.step = InitStep::Failed;
                }
            },
            InitStep::Firmware => {
                let fw: u32 = word16(reply[2], reply[3]) as u32 * 65536 + word16(reply[0], reply[1]) as u32;
                if fw == 0xA5A5_A5A5 {
                    self.step = InitStep::Failed;
                } else {
                    self.found.fw_version = fw;
                    self.step = InitStep::NormalMode;
                }
            },
            InitStep::NormalMode => {
                self.step = InitStep::StayAwake;
            },
            InitStep::StayAwake => {
                self.step = InitStep::Ready;
            },
            InitStep::Ready => {},
            InitStep::Failed => {},
        }
    }
}

/// A handshake that got past the chip check holds a supported chip, and one that got past
/// the firmware check holds a firmware.
pub open spec fn handshake_sound(h: Handshake) -> bool {
    let past_chip = h.step is Firmware || h.step is NormalMode || h.step is StayAwake || h.step is Ready;
    let past_fw = h.step is NormalMode || h.step is StayAwake || h.step is Ready;
    &&& past_chip ==> h.found.chip_type == 0x9217 || h.found.chip_type == 0x9220
    &&& past_fw ==> h.found.fw_version != 0xA5A5_A5A5
}

/// Every step keeps that; a failure is final.
pub proof fn lemma_handshake_sound(h: Handshake, ok: bool, reply: Seq<u8>)
    requires
        handshake_sound(h),
    ensures
        handshake_sound(handshake_next(h, ok, reply)),
        h.step is Failed ==> handshake_next(h, ok, reply).step is Failed,
        !ok ==> handshake_next(h, ok, reply).step is Failed,
{
}

/// The report held by the fifteen bytes read: `None` when it is not valid.
pub open spec fn report_of(b: Seq<u8>) -> Option<TouchPoint> {
    let fingers = b[5] % 128;
    if b[6] != 0xAB || fingers == 0 || fingers > 2 {
        None
    } else {
        let raw = b[2] * 16 + b[3] % 16;
        Some(
            TouchPoint {
                x: (b[1] * 16 + b[3] / 16) as u16,
                y: (if raw <= 465 { 465 - raw } else { 0 }) as u16,
                fingers,
                pressed: b[0] % 16 == 6,
            },
        )
    }
}

/// Decode a report. The raw y axis runs upwards; it is flipped to display coordinates.
pub fn read_touch(buf: &[u8; 15]) -> (r: Option<TouchPoint>)
    ensures
        r == report_of(buf@),
        r is Some ==> r->0.x <= 4095 && r->0.y <= 465,
{
    if buf[6] != ACK {
        return None;
    }
    let fingers: u8 = buf[5] % 128;
    if fingers == 0 || fingers > 2 {
        return None;
    }
    let evt: u8 = buf[0] % 16;
    let x: u16 = buf[1] as u16 * 16 + (buf[3] / 16) as u16;
    let y_raw: u16 = buf[2] as u16 * 16 + (buf[3] % 16) as u16;
    let y: u16 = (LCD_HEIGHT - 1).saturating_sub(y_raw);
    Some(TouchPoint { x, y, fingers, pressed: evt == 6 })
}

} // verus!
