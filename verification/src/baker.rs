//! The animation asset as written: a header, a table of frames, and the frames, each as its
//! compressed differences. Also the search for the loop with the least visible seam.
use vstd::prelude::*;

use crate::codec;

verus! {

/// Frames between full frames.
pub const KEYFRAME_INTERVAL: usize = 15;

/// The bytes of each frame.
pub open spec fn views(f: Seq<Vec<u8>>) -> Seq<Seq<u8>> {
    Seq::new(f.len(), |i: int| f[i]@)
}

/// What is stored of frame `i`: the frame itself every 15 frames, else its difference from
/// the one before.
pub open spec fn stored_diff(fr: Seq<Seq<u8>>, i: int) -> Seq<u8> {
    if i % 15 == 0 { fr[i] } else { codec::xored(fr[i], fr[i - 1]) }
}

/// The compressed bytes of frame `i`.
pub open spec fn chunk(fr: Seq<Seq<u8>>, i: int) -> Seq<u8> {
    codec::rle_encoded(codec::delta(stored_diff(fr, i)))
}

/// The compressed bytes of the first `n` frames.
pub open spec fn payload(fr: Seq<Seq<u8>>, n: int) -> Seq<u8>
    decreases n,
{
    if n <= 0 { Seq::empty() } else { payload(fr, n - 1) + chunk(fr, n - 1) }
}

/// Little-endian bytes.
pub open spec fn le16_bytes(n: int) -> Seq<u8> {
    seq![(n % 256) as u8, (n / 256 % 256) as u8]
}

pub open spec fn le32_bytes(n: int) -> Seq<u8> {
    seq![
        (n % 256) as u8,
        (n / 256 % 256) as u8,
        (n / 65_536 % 256) as u8,
        (n / 16_777_216 % 256) as u8,
    ]
}

/// Table row of frame `i`: offset, length, full frame or not, compressed.
pub open spec fn row(fr: Seq<Seq<u8>>, i: int) -> Seq<u8> {
    le32_bytes(payload(fr, i).len() as int) + le32_bytes(chunk(fr, i).len() as int) + seq![
        if i % 15 == 0 { 1u8 } else { 0u8 },
        1u8,
    ]
}

/// The first `n` rows of the table.
pub open spec fn table(fr: Seq<Seq<u8>>, n: int) -> Seq<u8>
    decreases n,
{
    if n <= 0 { Seq::empty() } else { table(fr, n - 1) + row(fr, n - 1) }
}

/// The fixed header: magic, version, width, height, frame rate, frame count, format, full
/// frame interval, flags, offset of the payload, checksum.
pub open spec fn header(n: int, fps: int) -> Seq<u8> {
    seq![82u8, 65, 73, 68] + le16_bytes(1) + le16_bytes(466) + le16_bytes(466) + le16_bytes(fps % 65_536)
        + le32_bytes(n) + seq![1u8, 15] + le16_bytes(0) + le32_bytes(28 + 10 * n) + le32_bytes(0)
}

/// The whole asset.
pub open spec fn asset_of(fr: Seq<Seq<u8>>, fps: int) -> Seq<u8> {
    let n = fr.len() as int;
    header(n, fps) + table(fr, n) + payload(fr, n)
}

/// The asset's offsets fit in 32 bits.
pub open spec fn asset_fits(fr: Seq<Seq<u8>>) -> bool {
    28 + 10 * fr.len() + payload(fr, fr.len() as int).len() <= 0xffff_ffff
}

/// The payload grows with the frames.
pub proof fn lemma_payload_monotonic(fr: Seq<Seq<u8>>, m: int, n: int)
    requires
        0 <= m <= n,
    ensures
        payload(fr, m).len() <= payload(fr, n).len(),
    decreases n,
{
    if m < n {
        lemma_payload_monotonic(fr, m, n - 1);
    }
}

pub proof fn lemma_table_len(fr: Seq<Seq<u8>>, n: int)
    requires
        0 <= n,
    ensures
        table(fr, n).len() == 10 * n,
    decreases n,
{
    if n > 0 {
        lemma_table_len(fr, n - 1);
    }
}

fn push16(v: &mut Vec<u8>, n: u16)
    ensures
        final(v)@ == old(v)@ + le16_bytes(n as int),
{
    v.push((n % 256) as u8);
    v.push((n / 256) as u8);
    assert(v@ =~= old(v)@ + le16_bytes(n as int));
}

/// Append the low 32 bits of `n`.
fn push32(v: &mut Vec<u8>, n: u128)
    ensures
        final(v)@ == old(v)@ + le32_bytes(n as int),
{
    v.push((n % 256) as u8);
    v.push((n / 256 % 256) as u8);
    v.push((n / 65_536 % 256) as u8);
    v.push((n / 16_777_216 % 256) as u8);
    assert(v@ =~= old(v)@ + le32_bytes(n as int));
}

fn push_bytes(v: &mut Vec<u8>, s: &[u8])
    ensures
        final(v)@ == old(v)@ + s@,
{
    let mut i: usize = 0;
    assert(v@ =~= old(v)@ + s@.take(0));
    while i < s.len()
        invariant
            i <= s@.len(),
            v@ == old(v)@ + s@.take(i as int),
        decreases s@.len() - i,
    {
        v.push(s[i]);
        i = i + 1;
        assert(v@ =~= old(v)@ + s@.take(i as int));
    }
    assert(s@.take(s@.len() as int) =~= s@);
}

fn push_header(v: &mut Vec<u8>, n: usize, fps: u32)
    ensures
        final(v)@ == old(v)@ + header(n as int, fps as int),
{
    let ghost v0 = v@;
    v.push(82);
    v.push(65);
    v.push(73);
    v.push(68);
    assert(v@ =~= v0 + seq![82u8, 65, 73, 68]);
    push16(v, 1);
    push16(v, 466);
    push16(v, 466);
    push16(v, (fps % 65_536) as u16);
    push32(v, n as u128);
    let ghost v1 = v@;
    v.push(1);
    v.push(15);
    assert(v@ =~= v1 + seq![1u8, 15]);
    push16(v, 0);
    push32(v, 28 + 10 * n as u128);
    push32(v, 0);
    assert(v@ =~= v0 + header(n as int, fps as int));
}

/// Compress one frame.
fn encode_frame(frames: &[Vec<u8>], i: usize) -> (c: Vec<u8>)
    requires
        i < frames@.len(),
    ensures
        c@ == chunk(views(frames@), i as int),
{
    let ghost fr = views(frames@);
    assert(fr[i as int] == frames@[i as int]@);
    if i % KEYFRAME_INTERVAL == 0 {
        let d = codec::spatial_delta(frames[i].as_slice());
        codec::zero_rle_encode(d.as_slice())
    } else {
        assert(fr[i - 1] == frames@[i - 1]@);
        let x = codec::xor_bytes(frames[i].as_slice(), frames[i - 1].as_slice());
        let d = codec::spatial_delta(x.as_slice());
        codec::zero_rle_encode(d.as_slice())
    }
}

/// Encode the frames into an asset; lengths and offsets are written modulo 2^32.
pub fn encode_asset(frames: &[Vec<u8>], fps: u32) -> (asset: Vec<u8>)
    ensures
        asset@ == asset_of(views(frames@), fps as int),
{
    let ghost fr = views(frames@);
    let ghost n = fr.len() as int;
    let mut body: Vec<u8> = Vec::new();
    let mut out: Vec<u8> = Vec::new();
    push_header(&mut out, frames.len(), fps);
    let ghost head = out@;
    assert(head =~= header(n, fps as int));
    assert(out@ =~= head + table(fr, 0));
    let mut i: usize = 0;
    while i < frames.len()
        invariant
            i <= frames@.len(),
            fr == views(frames@),
            n == fr.len(),
            head == header(n, fps as int),
            body@ == payload(fr, i as int),
            out@ == head + table(fr, i as int),
        decreases frames@.len() - i,
    {
        let c = encode_frame(frames, i);
        let ghost before = out@;
        push32(&mut out, body.len() as u128);
        push32(&mut out, c.len() as u128);
        out.push(if i % KEYFRAME_INTERVAL == 0 { 1 } else { 0 });
        out.push(1);
        assert(out@ =~= before + row(fr, i as int));
        assert(before + row(fr, i as int) =~= head + table(fr, i + 1));
        push_bytes(&mut body, c.as_slice());
        i = i + 1;
    }
    push_bytes(&mut out, body.as_slice());
    out
}

/// Sum of squared byte differences over the first `n` bytes.
pub open spec fn diff_sum(a: Seq<u8>, b: Seq<u8>, n: int) -> int
    decreases n,
{
    if n <= 0 { 0 } else { diff_sum(a, b, n - 1) + (a[n - 1] - b[n - 1]) * (a[n - 1] - b[n - 1]) }
}

/// How visible the step from one frame to another is.
pub open spec fn seam(a: Seq<u8>, b: Seq<u8>) -> int {
    diff_sum(a, b, if a.len() < b.len() { a.len() as int } else { b.len() as int })
}

/// A frame short enough that its seams fit in 64 bits.
pub open spec fn frame_fits(f: Seq<u8>) -> bool {
    f.len() <= 0x1_0000_0000_0000
}

/// Difference of two frames.
pub fn frame_diff(a: &[u8], b: &[u8]) -> (r: u64)
    requires
        frame_fits(a@),
    ensures
        r == seam(a@, b@),
        r < u64::MAX,
{
    let n: usize = if a.len() < b.len() { a.len() } else { b.len() };
    let mut r: u64 = 0;
    let mut i: usize = 0;
    while i < n
        invariant
            i <= n,
            n <= a@.len() <= 0x1_0000_0000_0000,
            n <= b@.len(),
            r == diff_sum(a@, b@, i as int),
            r <= 65_025 * i,
        decreases n - i,
    {
        let d: u64 = if a[i] >= b[i] { (a[i] - b[i]) as u64 } else { (b[i] - a[i]) as u64 };
        proof {
            assert(0 <= d * d <= 65_025) by (nonlinear_arith)
                requires
                    0 <= d <= 255,
            ;
            let e = a@[i as int] - b@[i as int];
            assert(d * d == e * e) by (nonlinear_arith)
                requires
                    d == e || d == -e,
            ;
        }
        r = r + d * d;
        i = i + 1;
    }
    r
}

/// The seam of the loop of `p` frames from `off` on: from its last frame to its first.
pub open spec fn loop_seam(fr: Seq<Seq<u8>>, off: int, p: int) -> int {
    seam(fr[off + p - 1], fr[off])
}

/// Where to cut a loop of `p` frames: the first offset with the least seam.
pub fn find_best_seam_offset_for_p(frames: &[Vec<u8>], p: usize) -> (r: (usize, usize))
    requires
        forall|i: int| 0 <= i < frames@.len() ==> frame_fits(#[trigger] views(frames@)[i]),
    ensures
        r.0 == p,
        p == 0 || frames@.len() < p ==> r.1 == 0,
        0 < p <= frames@.len() ==> {
            &&& r.1 + p <= frames@.len()
            &&& forall|k: int|
                0 <= k <= frames@.len() - p ==> loop_seam(views(frames@), r.1 as int, p as int) <= #[trigger] loop_seam(
                    views(frames@),
                    k,
                    p as int,
                )
            &&& forall|k: int|
                0 <= k < r.1 ==> loop_seam(views(frames@), r.1 as int, p as int) < #[trigger] loop_seam(
                    views(frames@),
                    k,
                    p as int,
                )
        },
{
    if p == 0 || frames.len() < p {
        return (p, 0);
    }
    let ghost fr = views(frames@);
    let n: usize = frames.len();
    let max_off: usize = n - p;
    let mut best_off: usize = 0;
    let mut best: u64 = u64::MAX;
    let mut off: usize = 0;
    while off <= max_off
        invariant
            0 < p <= frames@.len(),
            n == frames@.len(),
            max_off == n - p,
            off <= max_off + 1,
            fr == views(frames@),
            forall|i: int| 0 <= i < frames@.len() ==> frame_fits(#[trigger] fr[i]),
            off == 0 ==> best == u64::MAX && best_off == 0,
            off > 0 ==> best_off < off && best == loop_seam(fr, best_off as int, p as int),
            forall|k: int| 0 <= k < off ==> best <= #[trigger] loop_seam(fr, k, p as int),
            forall|k: int| 0 <= k < best_off ==> best < #[trigger] loop_seam(fr, k, p as int),
        decreases max_off + 1 - off,
    {
        let last: usize = off + (p - 1);
        assert(fr[last as int] == frames@[last as int]@);
        assert(fr[off as int] == frames@[off as int]@);
        assert(frame_fits(fr[last as int]));
        let s: u64 = frame_diff(frames[last].as_slice(), frames[off].as_slice());
        assert(s == loop_seam(fr, off as int, p as int));
        if s < best {
            best = s;
            best_off = off;
        }
        off = off + 1;
    }
    (p, best_off)
}

fn copy_frame(f: &Vec<u8>) -> (r: Vec<u8>)
    ensures
        r@ == f@,
{
    let mut r: Vec<u8> = Vec::new();
    push_bytes(&mut r, f.as_slice());
    assert(r@ =~= f@);
    r
}

/// The frames of a loop; all frames where the loop runs past their end.
pub fn extract_loop(frames: &[Vec<u8>], offset: usize, period: usize) -> (r: Vec<Vec<u8>>)
    requires
        offset + period <= usize::MAX,
    ensures
        views(r@) == (if offset + period <= frames@.len() {
            views(frames@).subrange(offset as int, offset + period)
        } else {
            views(frames@)
        }),
{
    let end: usize = offset + period;
    let (a, b): (usize, usize) = if end <= frames.len() { (offset, end) } else { (0, frames.len()) };
    let mut r: Vec<Vec<u8>> = Vec::new();
    let mut i: usize = a;
    while i < b
        invariant
            a <= i <= b,
            b <= frames@.len(),
            r@.len() == i - a,
            forall|k: int| 0 <= k < i - a ==> (#[trigger] r@[k])@ == frames@[a + k]@,
        decreases b - i,
    {
        r.push(copy_frame(&frames[i]));
        i = i + 1;
    }
    assert(views(r@) =~= (if offset + period <= frames@.len() {
        views(frames@).subrange(offset as int, offset + period)
    } else {
        views(frames@)
    }));
    r
}

} // verus!
