//! The dirty-span index, the retained canvas and the panel's bus.
use openpocket::display::dmi::{DmiIndex, Span, MAX_SPANS};
use openpocket::display::qspi_bus;
use openpocket::display::qspi_bus::{RectStream, Region};
use openpocket::display::watch_fb::{RectAcc, WatchFb};

fn has(d: &DmiIndex, x: u16, y: u16) -> bool {
    d.spans().iter().any(|s| s.y == y && s.x0 <= x && x <= s.x1)
}

#[test]
fn index_starts_empty() {
    let d = DmiIndex::new();
    assert!(d.is_empty());
    assert!(!d.overflowed());
    assert_eq!(d.spans().len(), 0);
}

#[test]
fn touching_runs_of_a_row_merge() {
    let mut d = DmiIndex::new();
    d.add_span(5, 10, 20);
    d.add_span(5, 21, 30);
    d.add_span(5, 5, 12);
    assert_eq!(d.spans().len(), 1);
    assert_eq!((d.spans()[0].x0, d.spans()[0].x1), (5, 30));
    d.add_span(5, 40, 41);
    assert_eq!(d.spans().len(), 2);
    d.add_span(6, 10, 5);
    assert_eq!(d.spans().len(), 2);
}

#[test]
fn rectangles_mark_exactly_their_pixels() {
    let mut d = DmiIndex::new();
    d.add_rect(3, 4, 6, 5);
    for y in 0..10u16 {
        for x in 0..10u16 {
            assert_eq!(has(&d, x, y), (3..=6).contains(&x) && (4..=5).contains(&y));
        }
    }
}

#[test]
fn overflow_is_sticky_until_cleared() {
    let mut d = DmiIndex::new();
    for k in 0..=MAX_SPANS {
        d.add_span((2 * k) as u16, 0, 0);
    }
    assert!(d.overflowed());
    d.add_span(0, 0, 400);
    assert!(d.overflowed());
    assert!(!d.is_empty());
    d.clear();
    assert!(d.is_empty());
    assert!(!d.overflowed());
}

#[test]
fn canvas_starts_black_and_fully_dirty() {
    let mut buf = vec![9u8; 466 * 466 * 2];
    let fb = WatchFb::new(&mut buf, 466, 466);
    assert!(fb.bytes().iter().all(|b| *b == 0));
    assert!(!fb.is_clean());
    assert_eq!(fb.dmi.spans().len(), 466);
}

#[test]
fn marks_are_clamped_and_empty_ones_ignored() {
    let mut buf = vec![0u8; 466 * 466 * 2];
    let mut fb = WatchFb::new(&mut buf, 466, 466);
    fb.clear_damage();
    assert!(fb.is_clean());
    fb.mark_rect(10, 10, 9, 20);
    fb.mark_rect(-20, -20, -1, -1);
    fb.mark_rect(466, 0, 600, 5);
    assert!(fb.is_clean());
    fb.mark_rect(-5, 464, 3, 900);
    assert_eq!(fb.dmi.spans().len(), 2);
    assert!(has(&fb.dmi, 0, 464) && has(&fb.dmi, 3, 465));
    assert!(!has(&fb.dmi, 4, 464));
}

#[test]
fn accumulator_holds_every_point() {
    let mut a = RectAcc::empty();
    assert!(a.is_empty());
    a.add(5, 7);
    a.add(-2, 9);
    assert!(!a.is_empty());
    assert_eq!(a, RectAcc { x0: -2, y0: 7, x1: 5, y1: 9 });
}

#[test]
fn register_writes_carry_big_endian_words() {
    let c = qspi_bus::write_command(0x29);
    assert_eq!((c.addr, c.data), (0x2900, vec![]));
    let b = qspi_bus::write_c8d8(0x51, 0xFF);
    assert_eq!((b.addr, b.data), (0x5100, vec![0xFF]));
    let (cols, rows) = qspi_bus::set_window(6, 471, 0, 465);
    assert_eq!((cols.addr, cols.data), (0x2A00, vec![0, 6, 1, 0xD7]));
    assert_eq!((rows.addr, rows.data), (0x2B00, vec![0, 0, 1, 0xD1]));
}

#[test]
fn stacked_spans_become_one_region() {
    let spans = [
        Span { y: 3, x0: 1, x1: 5 },
        Span { y: 4, x0: 1, x1: 5 },
        Span { y: 5, x0: 1, x1: 6 },
        Span { y: 7, x0: 1, x1: 6 },
    ];
    let r = qspi_bus::regions(&spans);
    assert_eq!(
        r,
        vec![
            Region { x0: 1, x1: 5, y0: 3, y1: 4 },
            Region { x0: 1, x1: 6, y0: 5, y1: 5 },
            Region { x0: 1, x1: 6, y0: 7, y1: 7 },
        ]
    );
    let hit = |x: u16, y: u16| r.iter().any(|g| g.x0 <= x && x <= g.x1 && g.y0 <= y && y <= g.y1);
    for y in 0..10u16 {
        for x in 0..10u16 {
            let in_span = spans.iter().any(|s| s.y == y && s.x0 <= x && x <= s.x1);
            assert_eq!(hit(x, y), in_span);
        }
    }
    assert!(qspi_bus::regions(&[]).is_empty());
}

#[test]
fn windows_are_pairs_of_pixels() {
    let v = qspi_bus::window(Region { x0: 3, x1: 4, y0: 5, y1: 465 }, 466 * 466 * 2, 466);
    assert_eq!(v, Region { x0: 2, x1: 5, y0: 4, y1: 465 });
    let w = qspi_bus::window(Region { x0: 900, x1: 901, y0: 0, y1: 0 }, 466 * 466 * 2, 466);
    assert_eq!(w, Region { x0: 464, x1: 465, y0: 0, y1: 1 });
}

#[test]
fn batches_send_every_row_of_a_window() {
    let width = 8u16;
    let fb: Vec<u8> = (0..8 * 6 * 2).map(|i| i as u8).collect();
    let view = Region { x0: 2, x1: 5, y0: 1, y1: 4 };
    let mut s = RectStream::new(view);
    let mut sent: Vec<u8> = Vec::new();
    let mut batches = 0;
    loop {
        let b = s.fill(&fb, width, 20);
        if b.is_empty() {
            break;
        }
        assert!(b.len() <= 20);
        batches += 1;
        sent.extend_from_slice(&b);
    }
    let mut expected: Vec<u8> = Vec::new();
    for y in 1..=4usize {
        let a = (y * 8 + 2) * 2;
        expected.extend_from_slice(&fb[a..a + 8]);
    }
    assert_eq!(sent, expected);
    assert_eq!(batches, 2);
}

#[test]
fn rows_past_the_buffer_are_skipped() {
    let fb = vec![1u8; 8 * 2 * 2];
    let mut s = RectStream::new(Region { x0: 0, x1: 7, y0: 1, y1: 5 });
    assert_eq!(s.fill(&fb, 8, 100).len(), 16);
    assert!(s.fill(&fb, 8, 100).is_empty());
}

#[test]
fn full_flush_in_chunks() {
    assert_eq!(qspi_bus::next_chunk(434_312, 0, qspi_bus::DMA_CHUNK_BYTES), 16_384);
    assert_eq!(qspi_bus::next_chunk(434_312, 425_984, 16_384), 8_328);
    assert_eq!(qspi_bus::next_chunk(434_312, 434_312, 16_384), 0);
}
