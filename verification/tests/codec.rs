//! Byte codecs, the animation asset and its playback.
use openpocket::baker;
use openpocket::codec;
use openpocket::prebake::{PrebakePlayer, FRAME_BYTES};

fn frame(seed: u32, changes: usize) -> Vec<u8> {
    let mut f = vec![0u8; FRAME_BYTES];
    let mut s = seed;
    for _ in 0..changes {
        s = s.wrapping_mul(1_664_525).wrapping_add(1_013_904_223);
        f[(s >> 8) as usize % FRAME_BYTES] = (s >> 4) as u8;
    }
    f
}

#[test]
fn zero_runs() {
    assert_eq!(codec::zero_rle_encode(&[7, 0, 0, 0, 9]), vec![7, 0, 3, 0, 9]);
    assert_eq!(codec::zero_rle_encode(&[0]), vec![0, 1, 0]);
    assert_eq!(codec::zero_rle_encode(&[]), Vec::<u8>::new());
    // a run longer than its length field can say is split
    assert_eq!(codec::zero_rle_encode(&vec![0u8; 65_536]), vec![0, 255, 255, 0, 1, 0]);
}

#[test]
fn zero_runs_come_back() {
    let mut out = vec![1, 2, 3];
    for data in [vec![], vec![0u8; 70_000], vec![5, 0, 0, 6], vec![1, 2, 3], vec![0, 0, 255, 0]] {
        codec::zero_rle_decode_into(&codec::zero_rle_encode(&data), &mut out);
        assert_eq!(out, data);
    }
    // a zero without a full length ends the data
    codec::zero_rle_decode_into(&[4, 0, 9], &mut out);
    assert_eq!(out, vec![4]);
    codec::zero_rle_decode_into(&[4, 0, 2, 0, 5], &mut out);
    assert_eq!(out, vec![4, 0, 0, 5]);
}

#[test]
fn long_zero_runs_come_back_over_old_contents() {
    let mut data = vec![0u8; 65_535 * 2 + 7];
    data[65_535] = 9;
    let enc = codec::zero_rle_encode(&data);
    let mut out = vec![1u8; 40];
    codec::zero_rle_decode_into(&enc, &mut out);
    assert!(out == data);
    codec::zero_rle_decode_into(&codec::zero_rle_encode(&[]), &mut out);
    assert!(out.is_empty());
}

#[test]
fn differences_along_a_frame() {
    assert_eq!(codec::spatial_delta(&[10, 12, 9, 9]), vec![10, 2, 253, 0]);
    let mut dst = [0u8; 5];
    codec::spatial_undelta_to(&[10, 2, 253, 0], &mut dst);
    assert_eq!(dst, [10, 12, 9, 9, 0]);
    let mut short = [0u8; 2];
    codec::spatial_undelta_to(&[10, 2, 253, 0], &mut short);
    assert_eq!(short, [10, 12]);
}

#[test]
fn differences_between_frames() {
    let (a, b) = ([1u8, 0xF0, 7], [3u8, 0x0F, 7, 9]);
    let d = codec::xor_bytes(&a, &b);
    assert_eq!(d, vec![2, 0xFF, 0]);
    assert_eq!(codec::xor_bytes(&b, &d), vec![1, 0xF0, 7]);
}

#[test]
fn asset_layout() {
    let asset = baker::encode_asset(&[vec![1, 1, 1], vec![1, 1, 2]], 70_000);
    let header = vec![
        82, 65, 73, 68, 1, 0, 0xD2, 1, 0xD2, 1, 0x70, 0x11, 2, 0, 0, 0, 1, 15, 0, 0, 48, 0, 0, 0, 0, 0, 0, 0,
    ];
    assert_eq!(asset[..28], header[..]);
    // 1, 0, 0 compresses to 1, run of two; the change to 0, 0, 3 likewise
    assert_eq!(asset[28..38], [0, 0, 0, 0, 4, 0, 0, 0, 1, 1]);
    assert_eq!(asset[38..48], [4, 0, 0, 0, 4, 0, 0, 0, 0, 1]);
    assert_eq!(asset[48..], [1, 0, 2, 0, 0, 2, 0, 3]);
}

#[test]
fn least_seam_wins() {
    assert_eq!(baker::frame_diff(&[10, 0, 5], &[7, 4]), 25);
    let frames = vec![vec![0u8], vec![9], vec![3], vec![4], vec![8], vec![2]];
    // loops of three: 0..3, 9..4, 3..8, 4..2
    assert_eq!(baker::find_best_seam_offset_for_p(&frames, 3), (3, 3));
    // loops of two: 0..9, 9..3, 3..4, 4..8, 8..2
    assert_eq!(baker::find_best_seam_offset_for_p(&frames, 2), (2, 2));
    // ties go to the first
    assert_eq!(baker::find_best_seam_offset_for_p(&frames, 1), (1, 0));
    assert_eq!(baker::find_best_seam_offset_for_p(&frames, 7), (7, 0));
    assert_eq!(baker::find_best_seam_offset_for_p(&frames, 0), (0, 0));
    assert_eq!(baker::extract_loop(&frames, 2, 2), vec![vec![3u8], vec![4]]);
    assert_eq!(baker::extract_loop(&frames, 5, 2), frames);
}

#[test]
fn written_frames_play_back_in_a_loop() {
    let frames: Vec<Vec<u8>> = (0..17).map(|i| frame(i, 300)).collect();
    let asset: &'static [u8] = baker::encode_asset(&frames, 25).leak();
    let mut p = PrebakePlayer::from_asset(asset);
    assert_eq!(p.frame_count(), 17);
    let mut out = vec![0u8; FRAME_BYTES];
    for i in 0..40usize {
        assert!(p.can_show(out.len()));
        p.next_frame(&mut out);
        assert!(out == frames[i % 17]);
    }
}

#[test]
fn raw_asset_holds_full_frames() {
    let mut asset = vec![0u8; 32];
    asset[12] = 9;
    asset[20] = 32;
    let mut d = codec::spatial_delta(&frame(1, 50));
    asset.append(&mut d);
    asset.extend_from_slice(&codec::spatial_delta(&frame(2, 50)));
    let mut p = PrebakePlayer::from_asset(asset.leak());
    // the header says nine, the data holds two
    assert_eq!(p.frame_count(), 2);
    let mut out = vec![0u8; FRAME_BYTES];
    p.next_frame(&mut out);
    assert!(out == frame(1, 50));
    p.next_frame(&mut out);
    assert!(out == frame(2, 50));
    p.next_frame(&mut out);
    assert!(out == frame(1, 50));
}

#[test]
fn damaged_entry_is_noticed() {
    let mut asset = vec![0u8; 28];
    asset[12] = 1;
    asset[16] = 1;
    asset[20] = 38;
    // ten bytes at offset zero, where only four follow
    asset.extend_from_slice(&[0, 0, 0, 0, 10, 0, 0, 0, 1, 1, 1, 2, 3, 4]);
    let p = PrebakePlayer::from_asset(asset.leak());
    assert_eq!(p.frame_count(), 1);
    assert!(!p.can_show(FRAME_BYTES));
}

#[test]
fn without_an_asset_test_frames_play() {
    for asset in [vec![0u8; 31], vec![0u8; 40]] {
        let mut p = PrebakePlayer::from_asset(asset.leak());
        assert_eq!(p.frame_count(), 8);
        assert!(p.can_show(FRAME_BYTES));
        assert!(!p.can_show(FRAME_BYTES + 1));
        let mut out = vec![0u8; FRAME_BYTES];
        p.next_frame(&mut out);
        assert_eq!(out[..4], [255, 255, 0, 0]);
        p.next_frame(&mut out);
        // red 3, green 5, blue 7, and the bar at 50
        assert_eq!(out[..2], [0x18, 0xA7]);
        assert_eq!(out[100..102], [255, 255]);
        for _ in 0..6 {
            p.next_frame(&mut out);
        }
        p.next_frame(&mut out);
        assert_eq!(out[..4], [255, 255, 0, 0]);
    }
}
