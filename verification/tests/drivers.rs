//! Power management, touch controller, clock chip and accelerometer.
use openpocket::drivers::axp2101;
use openpocket::drivers::axp2101::{PowerKey, Transfer};
use openpocket::drivers::cst9217;
use openpocket::drivers::cst9217::{Attributes, Handshake, InitStep, TouchPoint};
use openpocket::drivers::pcf85063;
use openpocket::drivers::pcf85063::RtcTime;
use openpocket::drivers::qmi8658;

#[test]
fn display_rails_gain_only_their_enable_bit() {
    assert_eq!(axp2101::enable_display_power(0, 0), Transfer::Write { reg: 0x82, value: 18 });
    assert_eq!(axp2101::enable_display_power(1, 0), Transfer::Read { reg: 0x80 });
    assert_eq!(axp2101::enable_display_power(2, 0b1010), Transfer::Write { reg: 0x80, value: 0b1011 });
    assert_eq!(axp2101::enable_display_power(3, 0), Transfer::Write { reg: 0x92, value: 28 });
    assert_eq!(axp2101::enable_display_power(4, 0), Transfer::Read { reg: 0x90 });
    assert_eq!(axp2101::enable_display_power(5, 0xFF), Transfer::Write { reg: 0x90, value: 0xFF });
    assert_eq!(axp2101::enable_display_power(6, 0), Transfer::Done);
}

#[test]
fn key_setup_enables_before_it_clears() {
    assert_eq!(axp2101::init_power_key(0, 0), Transfer::Read { reg: 0x41 });
    assert_eq!(axp2101::init_power_key(1, 0x01), Transfer::Write { reg: 0x41, value: 0x0D });
    assert_eq!(axp2101::init_power_key(1, 0x0C), Transfer::Write { reg: 0x41, value: 0x0C });
    for (step, reg) in [(2u8, 0x48u8), (3, 0x49), (4, 0x4A)] {
        assert_eq!(axp2101::init_power_key(step, 0), Transfer::Write { reg, value: 0xFF });
    }
    assert_eq!(axp2101::init_power_key(5, 0), Transfer::Done);
}

#[test]
fn key_events_clear_only_key_bits() {
    assert_eq!(axp2101::power_key_event(0xF3), (PowerKey::NoPress, None));
    assert_eq!(axp2101::power_key_event(0x08), (PowerKey::ShortPress, Some(0x08)));
    assert_eq!(axp2101::power_key_event(0x04), (PowerKey::LongPress, Some(0x04)));
    assert_eq!(axp2101::power_key_event(0xFF), (PowerKey::LongPress, Some(0x0C)));
}

#[test]
fn battery_gauge() {
    assert_eq!(axp2101::battery_percent(0x00, 50), None);
    assert_eq!(axp2101::battery_percent(0x08, 50), Some(50));
    assert_eq!(axp2101::battery_percent(0x08, 101), Some(100));
    assert!(axp2101::battery_present(0x0C));
    assert!(axp2101::is_charging(0x20));
    assert!(!axp2101::is_charging(0x40));
    assert!(!axp2101::is_charging(0x60));
}

fn handshake_to(step: InitStep) -> Handshake {
    let mut h = Handshake::new();
    let replies: [[u8; 8]; 7] = [
        [0; 8],
        [0, 0, 0xCA, 0xCA, 0, 0, 0, 0],
        [0xD2, 0x01, 0xD1, 0x01, 0, 0, 0, 0],
        [0, 0, 0x17, 0x92, 0, 0, 0, 0],
        [4, 3, 2, 1, 0, 0, 0, 0],
        [0; 8],
        [0; 8],
    ];
    let mut i = 0;
    while h.step != step {
        h.advance(true, &replies[i]);
        i += 1;
    }
    h
}

#[test]
fn handshake_reads_the_attributes() {
    let h = handshake_to(InitStep::Ready);
    assert_eq!(
        h.found,
        Attributes { chip_type: 0x9217, res_x: 466, res_y: 465, fw_version: 0x0102_0304 }
    );
    assert_eq!(cst9217::init_command(InitStep::Ready), None);
    assert_eq!(cst9217::init_command(InitStep::CommandMode), Some((0xD1, 0x01, 0)));
    assert_eq!(cst9217::init_command(InitStep::Firmware), Some((0xD2, 0x08, 8)));
    let mut again = h;
    again.advance(true, &[0; 8]);
    assert_eq!(again, h);
}

#[test]
fn handshake_fails_for_good() {
    let mut bus = handshake_to(InitStep::Resolution);
    bus.advance(false, &[0; 8]);
    assert_eq!(bus.step, InitStep::Failed);
    bus.advance(true, &[0; 8]);
    assert_eq!(bus.step, InitStep::Failed);

    let mut code = handshake_to(InitStep::CheckCode);
    code.advance(true, &[0, 0, 0xCA, 0xCB, 0, 0, 0, 0]);
    assert_eq!(code.step, InitStep::Failed);

    let mut chip = handshake_to(InitStep::ChipType);
    chip.advance(true, &[0, 0, 0x18, 0x92, 0, 0, 0, 0]);
    assert_eq!(chip.step, InitStep::Failed);

    let mut fw = handshake_to(InitStep::Firmware);
    fw.advance(true, &[0xA5; 8]);
    assert_eq!(fw.step, InitStep::Failed);
}

#[test]
fn handshake_takes_the_sibling_chip() {
    let mut h = handshake_to(InitStep::ChipType);
    h.advance(true, &[0, 0, 0x20, 0x92, 0, 0, 0, 0]);
    assert_eq!(h.step, InitStep::Firmware);
    assert_eq!(h.found.chip_type, 0x9220);
}

fn report(evt: u8, x: u16, y_raw: u16, fingers: u8, ack: u8) -> [u8; 15] {
    let mut b = [0u8; 15];
    b[0] = evt;
    b[1] = (x >> 4) as u8;
    b[2] = (y_raw >> 4) as u8;
    b[3] = (((x & 15) << 4) | (y_raw & 15)) as u8;
    b[5] = fingers;
    b[6] = ack;
    b
}

#[test]
fn touch_reports_are_flipped_upright() {
    assert_eq!(
        cst9217::read_touch(&report(0x06, 300, 465, 1, 0xAB)),
        Some(TouchPoint { x: 300, y: 0, fingers: 1, pressed: true })
    );
    assert_eq!(
        cst9217::read_touch(&report(0x00, 4095, 0, 2, 0xAB)),
        Some(TouchPoint { x: 4095, y: 465, fingers: 2, pressed: false })
    );
    // beyond the panel the row is held to the top
    assert_eq!(cst9217::read_touch(&report(0x06, 0, 600, 1, 0xAB)).unwrap().y, 0);
    // the top bit of the finger count is not part of it
    assert!(cst9217::read_touch(&report(0x06, 0, 0, 0x81, 0xAB)).is_some());
}

#[test]
fn invalid_touch_reports() {
    assert_eq!(cst9217::read_touch(&report(6, 1, 1, 1, 0xAA)), None);
    assert_eq!(cst9217::read_touch(&report(6, 1, 1, 0, 0xAB)), None);
    assert_eq!(cst9217::read_touch(&report(6, 1, 1, 3, 0xAB)), None);
}

#[test]
fn bcd_survives_a_round_trip() {
    for v in 0..100u8 {
        assert_eq!(pcf85063::bcd_to_bin(pcf85063::bin_to_bcd(v)), v);
    }
    assert_eq!(pcf85063::bin_to_bcd(59), 0x59);
}

#[test]
fn clock_chip_reads_back_what_was_set() {
    let t = RtcTime { year: 2026, month: 11, day: 16, hour: 23, minute: 59, second: 58 };
    let w = pcf85063::encode_time(&t, 1);
    assert_eq!(w, [0x04, 0x58, 0x59, 0x23, 0x16, 0x01, 0x11, 0x26]);
    let mut regs = [0u8; 7];
    regs.copy_from_slice(&w[1..]);
    assert_eq!(pcf85063::decode_time(&regs), (t, false));
    regs[0] |= 0x80;
    assert_eq!(pcf85063::decode_time(&regs), (t, true));
}

#[test]
fn accelerometer_setup_and_vector() {
    let steps: Vec<Option<(u8, u8)>> = (0..5).map(qmi8658::init).collect();
    assert_eq!(
        steps,
        vec![Some((0x02, 0x60)), Some((0x03, 0x13)), Some((0x04, 0x43)), Some((0x08, 0x03)), None]
    );
    assert_eq!(qmi8658::read_accel(&[0x00, 0x20, 0xFF, 0xFF, 0x00, 0x80]), (8192, -1, -32768));
}
