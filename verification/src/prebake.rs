//! Playback of a pre-computed animation: frames are decoded one by one from an asset, or,
//! without one, taken from a small set of test frames.
use vstd::prelude::*;

use crate::baker;
use crate::codec;
use crate::imath;
use crate::pixel;

verus! {

/// Bytes of a frame.
pub const FRAME_BYTES: usize = 434_312;
/// Number of test frames.
pub const TEST_FRAMES: usize = 8;

/// Where a frame lies in the payload, and how it is stored.
#[derive(Clone, Copy, Debug, PartialEq, Eq, Structural)]
pub struct FrameEntry {
    pub offset: usize,
    pub len: usize,
    pub is_key: bool,
    pub is_rle: bool,
}

/// Little-endian 32-bit number at `i`.
pub open spec fn read32(a: Seq<u8>, i: int) -> int {
    a[i] + a[i + 1] * 256 + a[i + 2] * 65_536 + a[i + 3] * 16_777_216
}

/// Frames of an asset, as its header says.
pub open spec fn frame_count_of(a: Seq<u8>) -> int {
    read32(a, 12)
}

/// Offset of the payload.
pub open spec fn payload_start_of(a: Seq<u8>) -> int {
    read32(a, 20)
}

/// Row `i` of the frame table.
pub open spec fn table_entry(a: Seq<u8>, i: int) -> FrameEntry {
    let o = 28 + 10 * i;
    FrameEntry {
        offset: read32(a, o) as usize,
        len: read32(a, o + 4) as usize,
        is_key: a[o + 8] != 0,
        is_rle: a[o + 9] != 0,
    }
}

/// Entries of an asset: its table as far as the asset reaches, or, in the raw format, the
/// full frames behind the payload offset.
pub open spec fn entries_of(a: Seq<u8>) -> Seq<FrameEntry> {
    if a[16] == 1 {
        Seq::new(imath::smin(frame_count_of(a), (a.len() - 28) / 10) as nat, |i: int| table_entry(a, i))
    } else {
        let room = a.len() - payload_start_of(a);
        Seq::new(
            (if room < 0 { 0 } else { imath::smin(frame_count_of(a), room / 434_312) }) as nat,
            |i: int| FrameEntry { offset: (i * 434_312) as usize, len: 434_312, is_key: true, is_rle: false },
        )
    }
}

/// What is played.
pub enum Source {
    Test,
    Asset { asset: Seq<u8>, entries: Seq<FrameEntry>, start: int },
}

/// Pixel of test frame `i`: a gradient that moves with the frame, and a white bar.
pub open spec fn test_px(i: int, x: int, y: int) -> (u8, u8) {
    if x == i * 50 % 466 {
        (255u8, 255u8)
    } else {
        pixel::rgb((i * 3 + x / 20) % 32, (i * 5 + y / 20) % 64, (i * 7 + (x + y) / 30) % 32)
    }
}

pub open spec fn test_frame(i: int) -> Seq<u8> {
    Seq::new(
        434_312,
        |k: int|
            {
                let p = test_px(i, k / 2 % 466, k / 2 / 466);
                if k % 2 == 0 { p.0 } else { p.1 }
            },
    )
}

pub struct PrebakePlayer {
    asset: Option<&'static [u8]>,
    entries: Vec<FrameEntry>,
    payload_start: usize,
    test_frames: Option<Vec<Vec<u8>>>,
    current: usize,
    prev: Vec<u8>,
    decode_tmp: Vec<u8>,
}

/// The stored bytes of an entry.
pub open spec fn stored_bytes(a: Seq<u8>, start: int, e: FrameEntry) -> Seq<u8> {
    a.subrange(start + e.offset, start + e.offset + e.len)
}

/// The bytes of an entry after decompression.
pub open spec fn unpacked(a: Seq<u8>, start: int, e: FrameEntry) -> Seq<u8> {
    if e.is_rle { codec::rle_decoded(stored_bytes(a, start, e)) } else { stored_bytes(a, start, e) }
}

/// The output after an entry is shown over `out`: its differences undone, and added to the
/// frame before unless it is a full frame.
pub open spec fn shown(data: Seq<u8>, is_key: bool, prev: Seq<u8>, out: Seq<u8>) -> Seq<u8> {
    let b = codec::undelta_into(data, out);
    Seq::new(out.len(), |j: int| if j < data.len() && !is_key { prev[j] ^ b[j] } else { b[j] })
}

/// The entry lies inside the asset, the output is large enough, and a difference is not
/// longer than a frame.
pub open spec fn entry_shows(a: Seq<u8>, start: int, e: FrameEntry, out_len: int) -> bool {
    &&& out_len >= 434_312
    &&& start + e.offset + e.len <= a.len()
    &&& !e.is_key ==> imath::smin(unpacked(a, start, e).len() as int, out_len) <= 434_312
}

impl PrebakePlayer {
    pub closed spec fn source(&self) -> Source {
        match self.asset {
            Some(a) => Source::Asset { asset: a@, entries: self.entries@, start: self.payload_start as int },
            None => Source::Test,
        }
    }

    /// The frame that comes next.
    pub closed spec fn position(&self) -> int {
        self.current as int
    }

    /// The frame shown last.
    pub closed spec fn last(&self) -> Seq<u8> {
        self.prev@
    }

    pub closed spec fn wf(&self) -> bool {
        &&& self.prev@.len() == 434_312
        &&& match self.asset {
            Some(_) => self.test_frames is None && self.current < self.entries@.len(),
            None => {
                &&& self.test_frames is Some
                &&& self.test_frames->0@.len() == 8
                &&& forall|i: int| 0 <= i < 8 ==> (#[trigger] self.test_frames->0@[i])@ == test_frame(i)
                &&& self.current < 8
            },
        }
    }

    /// Whether the next frame can be shown in an output of `out_len` bytes.
    pub open spec fn shows(&self, out_len: int) -> bool {
        match self.source() {
            Source::Test => out_len == 434_312,
            Source::Asset { asset, entries, start } => entry_shows(asset, start, entries[self.position()], out_len),
        }
    }
}

fn read_u32(a: &[u8], i: usize) -> (r: u32)
    requires
        i + 4 <= a@.len(),
    ensures
        r == read32(a@, i as int),
{
    a[i] as u32 + a[i + 1] as u32 * 256 + a[i + 2] as u32 * 65_536 + a[i + 3] as u32 * 16_777_216
}

fn make_test_frame(i: usize) -> (f: Vec<u8>)
    requires
        i < 8,
    ensures
        f@ == test_frame(i as int),
{
    let bar: usize = i * 50 % 466;
    let phase: i32 = i as i32;
    let mut f: Vec<u8> = Vec::new();
    let mut k: usize = 0;
    while k < 217_156
        invariant
            k <= 217_156,
            i < 8,
            phase == i,
            bar == i * 50 % 466,
            f@.len() == 2 * k,
            forall|j: int| 0 <= j < 2 * k ==> f@[j] == test_frame(i as int)[j],
        decreases 217_156 - k,
    {
        let x: usize = k % 466;
        let y: usize = k / 466;
        let p: (u8, u8) = if x == bar {
            (255, 255)
        } else {
            let (xi, yi): (i32, i32) = (x as i32, y as i32);
            pixel::pack((phase * 3 + xi / 20) % 32, (phase * 5 + yi / 20) % 64, (phase * 7 + (xi + yi) / 30) % 32)
        };
        assert(p == test_px(i as int, x as int, y as int));
        f.push(p.0);
        f.push(p.1);
        k = k + 1;
    }
    assert(f@ =~= test_frame(i as int));
    f
}

fn blank_frame() -> (f: Vec<u8>)
    ensures
        f@ == codec::zeros(434_312),
{
    let mut f: Vec<u8> = Vec::new();
    let mut k: usize = 0;
    while k < FRAME_BYTES
        invariant
            k <= 434_312,
            f@.len() == k,
            forall|j: int| 0 <= j < k ==> f@[j] == 0,
        decreases 434_312 - k,
    {
        f.push(0);
        k = k + 1;
    }
    assert(f@ =~= codec::zeros(434_312));
    f
}

/// The entries of an asset.
fn parse_entries(asset: &[u8]) -> (r: Vec<FrameEntry>)
    requires
        asset@.len() >= 32,
    ensures
        r@ == entries_of(asset@),
{
    let count: u32 = read_u32(asset, 12);
    let start: u32 = read_u32(asset, 20);
    let mut r: Vec<FrameEntry> = Vec::new();
    if asset[16] == 1 {
        let len: usize = asset.len();
        let fit: usize = (len - 28) / 10;
        let mut i: usize = 0;
        while i < fit && (i as u64) < count as u64
            invariant
                i <= fit,
                i <= count,
                fit == (len - 28) / 10,
                len == asset@.len(),
                len >= 32,
                count == frame_count_of(asset@),
                r@.len() == i,
                forall|k: int| 0 <= k < i ==> r@[k] == table_entry(asset@, k),
            decreases fit - i,
        {
            let o: usize = 28 + 10 * i;
            r.push(
                FrameEntry {
                    offset: read_u32(asset, o) as usize,
                    len: read_u32(asset, o + 4) as usize,
                    is_key: asset[o + 8] != 0,
                    is_rle: asset[o + 9] != 0,
                },
            );
            i = i + 1;
        }
        assert(r@ =~= entries_of(asset@));
        return r;
    }
    if (start as u64) <= asset.len() as u64 {
        let fit: usize = (asset.len() - start as usize) / FRAME_BYTES;
        let mut i: usize = 0;
        while i < fit && (i as u64) < count as u64
            invariant
                i <= fit,
                i <= count,
                fit == (asset@.len() - start) / 434_312,
                start <= asset@.len() <= usize::MAX,
                count == frame_count_of(asset@),
                r@.len() == i,
                forall|k: int|
                    0 <= k < i ==> r@[k] == (FrameEntry {
                        offset: (k * 434_312) as usize,
                        len: 434_312,
                        is_key: true,
                        is_rle: false,
                    }),
            decreases fit - i,
        {
            assert(i * 434_312 <= fit * 434_312);
            r.push(FrameEntry { offset: i * 434_312, len: FRAME_BYTES, is_key: true, is_rle: false });
            i = i + 1;
        }
    }
    assert(r@ =~= entries_of(asset@));
    r
}

/// The zero-run decoding is longer than `limit` bytes.
fn decodes_beyond(data: &[u8], limit: usize) -> (r: bool)
    requires
        limit <= 0x1000_0000,
    ensures
        r == (codec::rle_decoded(data@).len() > limit),
{
    let n: usize = data.len();
    let mut total: usize = 0;
    let mut i: usize = 0;
    while i < n
        invariant
            i <= n,
            n == data@.len(),
            total <= limit <= 0x1000_0000,
            total + codec::rle_decoded_from(data@, i as int).len() == codec::rle_decoded(data@).len(),
        decreases n - i,
    {
        if data[i] != 0 {
            total = total + 1;
            i = i + 1;
        } else {
            if n - i <= 2 {
                return false;
            }
            total = total + (data[i + 1] as usize + data[i + 2] as usize * 256);
            i = i + 3;
        }
        if total > limit {
            return true;
        }
    }
    false
}

impl PrebakePlayer {
    /// A player of the test frames.
    pub fn new_test() -> (p: Self)
        ensures
            p.wf(),
            p.source() == Source::Test,
            p.position() == 0,
            p.last() == codec::zeros(434_312),
    {
        let mut frames: Vec<Vec<u8>> = Vec::new();
        let mut i: usize = 0;
        while i < TEST_FRAMES
            invariant
                i <= 8,
                frames@.len() == i,
                forall|k: int| 0 <= k < i ==> (#[trigger] frames@[k])@ == test_frame(k),
            decreases 8 - i,
        {
            frames.push(make_test_frame(i));
            i = i + 1;
        }
        PrebakePlayer {
            asset: None,
            entries: Vec::new(),
            payload_start: 0,
            test_frames: Some(frames),
            current: 0,
            prev: blank_frame(),
            decode_tmp: Vec::new(),
        }
    }

    /// A player of an asset; of the test frames where the asset holds none.
    pub fn from_asset(asset: &'static [u8]) -> (p: Self)
        ensures
            p.wf(),
            p.position() == 0,
            p.last() == codec::zeros(434_312),
            p.source() == (if asset@.len() >= 32 && entries_of(asset@).len() > 0 {
                Source::Asset { asset: asset@, entries: entries_of(asset@), start: payload_start_of(asset@) }
            } else {
                Source::Test
            }),
    {
        if asset.len() < 32 {
            return Self::new_test();
        }
        let entries = parse_entries(asset);
        if entries.len() == 0 {
            return Self::new_test();
        }
        PrebakePlayer {
            asset: Some(asset),
            entries,
            payload_start: read_u32(asset, 20) as usize,
            test_frames: None,
            current: 0,
            prev: blank_frame(),
            decode_tmp: Vec::new(),
        }
    }

    /// Whether `next_frame` can be called with an output of this length.
    pub fn can_show(&self, out_len: usize) -> (r: bool)
        requires
            self.wf(),
        ensures
            r == self.shows(out_len as int),
    {
        match self.asset {
            None => out_len == FRAME_BYTES,
            Some(a) => {
                let e = self.entries[self.current];
                if out_len < FRAME_BYTES || self.payload_start > a.len() {
                    return false;
                }
                let room: usize = a.len() - self.payload_start;
                if e.offset > room || e.len > room - e.offset {
                    return false;
                }
                if e.is_key || out_len <= FRAME_BYTES {
                    return true;
                }
                let from: usize = self.payload_start + e.offset;
                let data = vstd::slice::slice_subrange(a, from, from + e.len);
                if e.is_rle {
                    !decodes_beyond(data, FRAME_BYTES)
                } else {
                    e.len <= FRAME_BYTES
                }
            },
        }
    }

    /// Show the next frame.
    pub fn next_frame(&mut self, out: &mut [u8])
        requires
            old(self).wf(),
            old(self).shows(old(out)@.len() as int),
        ensures
            final(self).wf(),
            final(self).source() == old(self).source(),
            match old(self).source() {
                Source::Test => {
                    &&& final(out)@ == test_frame(old(self).position())
                    &&& final(self).last() == old(self).last()
                    &&& final(self).position() == (old(self).position() + 1) % 8
                },
                Source::Asset { asset, entries, start } => {
                    let e = entries[old(self).position()];
                    let u = unpacked(asset, start, e);
                    let n = imath::smin(u.len() as int, old(out)@.len() as int);
                    &&& final(out)@ == shown(u.take(n), e.is_key, old(self).last(), old(out)@)
                    &&& final(self).last() == final(out)@.take(434_312)
                    &&& final(self).position() == (old(self).position() + 1) % (entries.len() as int)
                },
            },
    {
        match self.asset {
            None => {
                if let Some(frames) = &self.test_frames {
                    copy_into(out, frames[self.current].as_slice());
                }
                self.current = (self.current + 1) % TEST_FRAMES;
            },
            Some(a) => {
                let e = self.entries[self.current];
                let count: usize = self.entries.len();
                let len: usize = a.len();
                assert(self.payload_start + e.offset + e.len <= len);
                let from: usize = self.payload_start + e.offset;
                let data = vstd::slice::slice_subrange(a, from, from + e.len);
                if e.is_rle {
                    codec::zero_rle_decode_into(data, &mut self.decode_tmp);
                } else {
                    self.decode_tmp.clear();
                    append(&mut self.decode_tmp, data);
                }
                show_frame(out, self.decode_tmp.as_slice(), e.is_key, self.prev.as_slice());
                keep_frame(&mut self.prev, out);
                self.current = (self.current + 1) % count;
            },
        }
    }

    /// Number of frames.
    pub fn frame_count(&self) -> (n: usize)
        requires
            self.wf(),
        ensures
            n == (match self.source() {
                Source::Test => 8,
                Source::Asset { entries, .. } => entries.len(),
            }),
    {
        match self.asset {
            None => TEST_FRAMES,
            Some(_) => self.entries.len(),
        }
    }
}

fn copy_into(out: &mut [u8], f: &[u8])
    requires
        old(out)@.len() == f@.len(),
    ensures
        final(out)@ == f@,
{
    let mut i: usize = 0;
    while i < f.len()
        invariant
            i <= f@.len(),
            out@.len() == f@.len(),
            forall|k: int| 0 <= k < i ==> out@[k] == f@[k],
        decreases f@.len() - i,
    {
        out[i] = f[i];
        i = i + 1;
    }
    assert(out@ =~= f@);
}

fn append(v: &mut Vec<u8>, s: &[u8])
    requires
        old(v)@.len() == 0,
    ensures
        final(v)@ == s@,
{
    let mut i: usize = 0;
    while i < s.len()
        invariant
            i <= s@.len(),
            v@.len() == i,
            forall|k: int| 0 <= k < i ==> v@[k] == s@[k],
        decreases s@.len() - i,
    {
        v.push(s[i]);
        i = i + 1;
    }
    assert(v@ =~= s@);
}

fn keep_frame(prev: &mut Vec<u8>, out: &[u8])
    requires
        old(prev)@.len() == 434_312,
        out@.len() >= 434_312,
    ensures
        final(prev)@ == out@.take(434_312),
{
    let mut i: usize = 0;
    while i < FRAME_BYTES
        invariant
            i <= 434_312,
            prev@.len() == 434_312,
            out@.len() >= 434_312,
            forall|k: int| 0 <= k < i ==> prev@[k] == out@[k],
        decreases 434_312 - i,
    {
        prev.set(i, out[i]);
        i = i + 1;
    }
    assert(prev@ =~= out@.take(434_312));
}

fn show_frame(out: &mut [u8], data: &[u8], is_key: bool, prev: &[u8])
    requires
        prev@.len() == 434_312,
        !is_key ==> imath::smin(data@.len() as int, old(out)@.len() as int) <= 434_312,
    ensures
        final(out)@ == shown(
            data@.take(imath::smin(data@.len() as int, old(out)@.len() as int)),
            is_key,
            prev@,
            old(out)@,
        ),
{
    let n: usize = if data.len() < out.len() { data.len() } else { out.len() };
    let part = vstd::slice::slice_subrange(data, 0, n);
    assert(part@ =~= data@.take(n as int));
    codec::spatial_undelta_to(part, out);
    let ghost b = out@;
    if !is_key {
        let mut j: usize = 0;
        while j < n
            invariant
                j <= n,
                n <= 434_312,
                n <= out@.len(),
                prev@.len() == 434_312,
                out@.len() == b.len(),
                forall|k: int| 0 <= k < j ==> out@[k] == prev@[k] ^ b[k],
                forall|k: int| j <= k < out@.len() ==> out@[k] == b[k],
            decreases n - j,
        {
            let v: u8 = prev[j] ^ out[j];
            out[j] = v;
            j = j + 1;
        }
    }
    assert(out@ =~= shown(part@, is_key, prev@, old(out)@));
}

/// A 32-bit number is read as it was written.
proof fn lemma_read32(a: Seq<u8>, i: int, n: int)
    requires
        0 <= n <= 0xffff_ffff,
        0 <= i,
        i + 4 <= a.len(),
        a.subrange(i, i + 4) == baker::le32_bytes(n),
    ensures
        read32(a, i) == n,
{
    let s = a.subrange(i, i + 4);
    assert(a[i] == s[0] && a[i + 1] == s[1] && a[i + 2] == s[2] && a[i + 3] == s[3]);
}

proof fn lemma_header(n: int, fps: int)
    ensures
        baker::header(n, fps).len() == 28,
        baker::header(n, fps)[16] == 1,
        baker::header(n, fps).subrange(12, 16) == baker::le32_bytes(n),
        baker::header(n, fps).subrange(20, 24) == baker::le32_bytes(28 + 10 * n),
{
    let h = baker::header(n, fps);
    assert(h.subrange(12, 16) =~= baker::le32_bytes(n));
    assert(h.subrange(20, 24) =~= baker::le32_bytes(28 + 10 * n));
}

/// Row `i` of the table stands at its place.
proof fn lemma_table_row(fr: Seq<Seq<u8>>, n: int, i: int)
    requires
        0 <= i < n,
    ensures
        baker::table(fr, n).len() == 10 * n,
        baker::table(fr, n).subrange(10 * i, 10 * i + 10) == baker::row(fr, i),
    decreases n,
{
    baker::lemma_table_len(fr, n);
    baker::lemma_table_len(fr, n - 1);
    let t = baker::table(fr, n);
    let u = baker::table(fr, n - 1);
    if i == n - 1 {
        assert(t.subrange(10 * i, 10 * i + 10) =~= baker::row(fr, i));
    } else {
        lemma_table_row(fr, n - 1, i);
        assert(t.subrange(10 * i, 10 * i + 10) =~= u.subrange(10 * i, 10 * i + 10));
    }
}

/// The compressed bytes of frame `i` stand at their offset.
proof fn lemma_payload_chunk(fr: Seq<Seq<u8>>, n: int, i: int)
    requires
        0 <= i < n,
    ensures
        baker::payload(fr, i).len() + baker::chunk(fr, i).len() <= baker::payload(fr, n).len(),
        baker::payload(fr, n).subrange(
            baker::payload(fr, i).len() as int,
            (baker::payload(fr, i).len() + baker::chunk(fr, i).len()) as int,
        ) == baker::chunk(fr, i),
    decreases n,
{
    let p = baker::payload(fr, n);
    let q = baker::payload(fr, n - 1);
    let (a, b) = (
        baker::payload(fr, i).len() as int,
        (baker::payload(fr, i).len() + baker::chunk(fr, i).len()) as int,
    );
    if i == n - 1 {
        assert(p.subrange(a, b) =~= baker::chunk(fr, i));
    } else {
        lemma_payload_chunk(fr, n - 1, i);
        assert(p.subrange(a, b) =~= q.subrange(a, b));
    }
}

/// The entry that the asset's table holds for frame `i`.
pub open spec fn entry_for(fr: Seq<Seq<u8>>, i: int) -> FrameEntry {
    FrameEntry {
        offset: baker::payload(fr, i).len() as usize,
        len: baker::chunk(fr, i).len() as usize,
        is_key: i % 15 == 0,
        is_rle: true,
    }
}

proof fn lemma_entry(fr: Seq<Seq<u8>>, fps: int, i: int)
    requires
        baker::asset_fits(fr),
        0 <= i < fr.len(),
    ensures
        table_entry(baker::asset_of(fr, fps), i) == entry_for(fr, i),
        baker::asset_of(fr, fps).len() >= 28 + 10 * fr.len(),
        entry_for(fr, i).offset == baker::payload(fr, i).len(),
        entry_for(fr, i).len == baker::chunk(fr, i).len(),
{
    let n = fr.len() as int;
    let a = baker::asset_of(fr, fps);
    let t = baker::table(fr, n);
    let o = 28 + 10 * i;
    lemma_header(n, fps);
    lemma_table_row(fr, n, i);
    baker::lemma_payload_monotonic(fr, i + 1, n);
    assert(baker::payload(fr, i + 1) == baker::payload(fr, i) + baker::chunk(fr, i));
    let row = baker::row(fr, i);
    let off = baker::le32_bytes(baker::payload(fr, i).len() as int);
    let len = baker::le32_bytes(baker::chunk(fr, i).len() as int);
    assert(a.subrange(o, o + 10) =~= t.subrange(10 * i, 10 * i + 10));
    assert(row.subrange(0, 4) =~= off);
    assert(row.subrange(4, 8) =~= len);
    assert(a.subrange(o, o + 4) =~= a.subrange(o, o + 10).subrange(0, 4));
    assert(a.subrange(o + 4, o + 8) =~= a.subrange(o, o + 10).subrange(4, 8));
    lemma_read32(a, o, baker::payload(fr, i).len() as int);
    lemma_read32(a, o + 4, baker::chunk(fr, i).len() as int);
    assert(a[o + 8] == a.subrange(o, o + 10)[8]);
    assert(a[o + 9] == a.subrange(o, o + 10)[9]);
}

/// Reading a written asset gives its frames' places and its payload's.
pub proof fn lemma_asset_read(fr: Seq<Seq<u8>>, fps: int)
    requires
        baker::asset_fits(fr),
        fr.len() >= 1,
    ensures
        ({
            let a = baker::asset_of(fr, fps);
            &&& a.len() >= 32
            &&& payload_start_of(a) == 28 + 10 * fr.len()
            &&& entries_of(a) == Seq::new(fr.len(), |i: int| entry_for(fr, i))
        }),
{
    let n = fr.len() as int;
    let a = baker::asset_of(fr, fps);
    baker::lemma_table_len(fr, n);
    lemma_header(n, fps);
    let h = baker::header(n, fps);
    assert(a.subrange(12, 16) =~= h.subrange(12, 16));
    assert(a.subrange(20, 24) =~= h.subrange(20, 24));
    lemma_read32(a, 12, n);
    lemma_read32(a, 20, 28 + 10 * n);
    assert(a[16] == h[16]);
    let e = entries_of(a);
    assert(e.len() == n);
    assert forall|i: int| 0 <= i < n implies e[i] == entry_for(fr, i) by {
        lemma_entry(fr, fps, i);
    }
    assert(e =~= Seq::new(fr.len(), |i: int| entry_for(fr, i)));
}

/// Playing back what was written: shown after the frame before it (or anything, where it is
/// stored in full), frame `i` comes out byte for byte.
pub proof fn lemma_frame_round_trip(fr: Seq<Seq<u8>>, fps: int, i: int, prev: Seq<u8>, out: Seq<u8>)
    requires
        baker::asset_fits(fr),
        0 <= i < fr.len(),
        forall|k: int| 0 <= k < fr.len() ==> (#[trigger] fr[k]).len() == 434_312,
        prev.len() == 434_312,
        i % 15 == 0 || prev == fr[i - 1],
        out.len() == 434_312,
    ensures
        ({
            let a = baker::asset_of(fr, fps);
            let start = payload_start_of(a);
            let e = entries_of(a)[i];
            let u = unpacked(a, start, e);
            &&& entry_shows(a, start, e, 434_312)
            &&& shown(u.take(imath::smin(u.len() as int, 434_312)), e.is_key, prev, out) == fr[i]
        }),
{
    let n = fr.len() as int;
    let a = baker::asset_of(fr, fps);
    lemma_asset_read(fr, fps);
    lemma_entry(fr, fps, i);
    lemma_payload_chunk(fr, n, i);
    baker::lemma_table_len(fr, n);
    lemma_header(n, fps);
    let start = 28 + 10 * n;
    let e = entry_for(fr, i);
    let p = baker::payload(fr, n);
    assert(a.subrange(start + e.offset, start + e.offset + e.len) =~= p.subrange(
        e.offset as int,
        e.offset + e.len,
    ));
    let d = baker::stored_diff(fr, i);
    assert(d.len() == 434_312);
    codec::lemma_rle_round_trip(codec::delta(d));
    let u = unpacked(a, start, e);
    assert(u == codec::delta(d));
    assert(u.take(434_312) =~= u);
    codec::lemma_delta_round_trip(d);
    let b = codec::undelta_into(u, out);
    assert(b =~= codec::undelta(u));
    let r = shown(u, e.is_key, prev, out);
    if e.is_key {
        assert(r =~= d);
    } else {
        codec::lemma_xor_round_trip(prev, fr[i]);
        assert(r =~= codec::xored(prev, d));
    }
}

/// The loop closes: the player is where it can play frame `i` exactly, and after playing it,
/// where it can play the next one, from the last frame back to the first.
pub proof fn lemma_loop_plays(fr: Seq<Seq<u8>>, i: int, prev: Seq<u8>)
    requires
        0 <= i < fr.len(),
        prev == fr[i],
    ensures
        ({
            let j = (i + 1) % (fr.len() as int);
            j % 15 == 0 || prev == fr[j - 1]
        }),
{
    let n = fr.len() as int;
    if i + 1 < n {
        vstd::arithmetic::div_mod::lemma_small_mod((i + 1) as nat, n as nat);
    } else {
        vstd::arithmetic::div_mod::lemma_mod_self_0(n);
    }
}

/// A player that was given the asset of `fr` and has shown `k` frames of it.
pub open spec fn playing(src: Source, position: int, last: Seq<u8>, fr: Seq<Seq<u8>>, fps: int, k: int) -> bool {
    let a = baker::asset_of(fr, fps);
    &&& src == (Source::Asset { asset: a, entries: entries_of(a), start: payload_start_of(a) })
    &&& position == k % (fr.len() as int)
    &&& last.len() == 434_312
    &&& position % 15 == 0 || last == fr[position - 1]
}

/// Playback is exact and endless: a player of an encoded asset starts ready to show the first
/// frame, has as many entries as there are frames, and whenever it has shown `k` frames, the
/// next is frame `k` modulo their number, byte for byte, after which it has shown `k + 1`.
pub proof fn lemma_playback(fr: Seq<Seq<u8>>, fps: int, k: int, last: Seq<u8>, out: Seq<u8>)
    requires
        baker::asset_fits(fr),
        fr.len() >= 1,
        forall|j: int| 0 <= j < fr.len() ==> (#[trigger] fr[j]).len() == 434_312,
        k >= 0,
        last.len() == 434_312,
        k % (fr.len() as int) % 15 == 0 || last == fr[k % (fr.len() as int) - 1],
        out.len() == 434_312,
    ensures
        ({
            let a = baker::asset_of(fr, fps);
            let n = fr.len() as int;
            let src = Source::Asset { asset: a, entries: entries_of(a), start: payload_start_of(a) };
            let e = entries_of(a)[k % n];
            let u = unpacked(a, payload_start_of(a), e);
            let now = shown(u.take(imath::smin(u.len() as int, 434_312)), e.is_key, last, out);
            &&& a.len() >= 32
            &&& entries_of(a).len() == n
            &&& playing(src, 0, codec::zeros(434_312), fr, fps, 0)
            &&& playing(src, k % n, last, fr, fps, k)
            &&& entry_shows(a, payload_start_of(a), e, 434_312)
            &&& now == fr[k % n]
            &&& playing(src, (k % n + 1) % n, now.take(434_312), fr, fps, k + 1)
        }),
{
    let n = fr.len() as int;
    let i = k % n;
    lemma_asset_read(fr, fps);
    vstd::arithmetic::div_mod::lemma_small_mod(0, n as nat);
    lemma_frame_round_trip(fr, fps, i, last, out);
    assert(fr[i].take(434_312) =~= fr[i]);
    lemma_loop_plays(fr, i, fr[i]);
    vstd::arithmetic::div_mod::lemma_add_mod_noop(k, 1, n);
    vstd::arithmetic::div_mod::lemma_add_mod_noop(i, 1, n);
    vstd::arithmetic::div_mod::lemma_mod_twice(k, n);
}

} // verus!
