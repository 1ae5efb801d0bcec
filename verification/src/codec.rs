//! Byte codecs of the animation asset: zero-run compression, differences along a frame, and
//! differences between frames. Each undoes the other exactly.
use vstd::prelude::*;

verus! {

/// Little-endian 16-bit number.
pub open spec fn le16(lo: u8, hi: u8) -> int {
    lo + hi * 256
}

/// `n` zero bytes.
pub open spec fn zeros(n: int) -> Seq<u8> {
    Seq::new(n as nat, |i: int| 0u8)
}

/// Length of the run of zeros at `i`, at most `cap`.
pub open spec fn zero_run(data: Seq<u8>, i: int, cap: int) -> int
    decreases cap,
{
    if cap <= 0 || i < 0 || i >= data.len() || data[i] != 0 { 0 } else { 1 + zero_run(data, i + 1, cap - 1) }
}

/// Zero-run encoding of the bytes from `i` on: a non-zero byte stands for itself, a run of
/// zeros is a zero and its 16-bit length.
pub open spec fn rle_encoded_from(data: Seq<u8>, i: int) -> Seq<u8>
    decreases data.len() - i,
{
    if i < 0 || i >= data.len() {
        Seq::empty()
    } else if data[i] != 0 {
        seq![data[i]] + rle_encoded_from(data, i + 1)
    } else {
        let n = zero_run(data, i, 65_535);
        proof {
            lemma_zero_run(data, i, 65_535);
        }
        seq![0u8, (n % 256) as u8, (n / 256) as u8] + rle_encoded_from(data, i + n)
    }
}

pub open spec fn rle_encoded(data: Seq<u8>) -> Seq<u8> {
    rle_encoded_from(data, 0)
}

/// Zero-run decoding of the bytes from `i` on; it stops at a zero without a full length.
pub open spec fn rle_decoded_from(data: Seq<u8>, i: int) -> Seq<u8>
    decreases data.len() - i,
{
    if i < 0 || i >= data.len() {
        Seq::empty()
    } else if data[i] != 0 {
        seq![data[i]] + rle_decoded_from(data, i + 1)
    } else if i + 2 >= data.len() {
        Seq::empty()
    } else {
        zeros(le16(data[i + 1], data[i + 2])) + rle_decoded_from(data, i + 3)
    }
}

pub open spec fn rle_decoded(data: Seq<u8>) -> Seq<u8> {
    rle_decoded_from(data, 0)
}

/// A run is within the data and consists of zeros.
pub proof fn lemma_zero_run(data: Seq<u8>, i: int, cap: int)
    requires
        0 <= i,
        0 <= cap,
    ensures
        0 <= zero_run(data, i, cap) <= cap,
        i <= data.len() ==> i + zero_run(data, i, cap) <= data.len(),
        i < data.len() && data[i] == 0 && cap >= 1 ==> zero_run(data, i, cap) >= 1,
        forall|k: int| i <= k < i + zero_run(data, i, cap) ==> #[trigger] data[k] == 0,
    decreases cap,
{
    if !(cap <= 0 || i >= data.len() || data[i] != 0) {
        lemma_zero_run(data, i + 1, cap - 1);
    }
}

/// Decoding does not look back.
proof fn lemma_decoded_shift(p: Seq<u8>, rest: Seq<u8>, k: int)
    requires
        0 <= k,
    ensures
        rle_decoded_from(p + rest, p.len() + k) == rle_decoded_from(rest, k),
    decreases rest.len() - k,
{
    let all = p + rest;
    let i = p.len() + k;
    if k < rest.len() {
        assert(all[i] == rest[k]);
        if rest[k] != 0 {
            lemma_decoded_shift(p, rest, k + 1);
        } else if k + 2 < rest.len() {
            assert(all[i + 1] == rest[k + 1]);
            assert(all[i + 2] == rest[k + 2]);
            lemma_decoded_shift(p, rest, k + 3);
        }
    }
}

/// Decoding an encoding gives the bytes back.
pub proof fn lemma_rle_round_trip(data: Seq<u8>)
    ensures
        rle_decoded(rle_encoded(data)) == data,
{
    lemma_rle_round_trip_from(data, 0);
    assert(data.skip(0) =~= data);
}

proof fn lemma_rle_round_trip_from(data: Seq<u8>, i: int)
    requires
        0 <= i,
    ensures
        rle_decoded(rle_encoded_from(data, i)) == (if i <= data.len() { data.skip(i) } else { Seq::empty() }),
    decreases data.len() - i,
{
    if i < data.len() {
        if data[i] != 0 {
            lemma_rle_round_trip_from(data, i + 1);
            let rest = rle_encoded_from(data, i + 1);
            let head = seq![data[i]];
            lemma_decoded_shift(head, rest, 0);
            assert((head + rest)[0] == data[i]);
            assert(rle_decoded(head + rest) == head + rle_decoded_from(head + rest, 1));
            assert(data.skip(i) =~= head + data.skip(i + 1));
        } else {
            let n = zero_run(data, i, 65_535);
            lemma_zero_run(data, i, 65_535);
            lemma_rle_round_trip_from(data, i + n);
            let rest = rle_encoded_from(data, i + n);
            let head = seq![0u8, (n % 256) as u8, (n / 256) as u8];
            lemma_decoded_shift(head, rest, 0);
            let all = head + rest;
            assert(all[0] == 0 && all[1] == (n % 256) as u8 && all[2] == (n / 256) as u8);
            assert(le16(all[1], all[2]) == n);
            assert(rle_decoded(all) == zeros(n) + rle_decoded_from(all, 3));
            assert(data.skip(i) =~= zeros(n) + data.skip(i + n));
        }
    } else if i == data.len() {
        assert(data.skip(i) =~= Seq::empty());
    }
}

/// An encoding is at most three times as long as the bytes.
pub proof fn lemma_rle_len(data: Seq<u8>, i: int)
    requires
        0 <= i <= data.len(),
    ensures
        rle_encoded_from(data, i).len() <= 3 * (data.len() - i),
    decreases data.len() - i,
{
    if i < data.len() {
        if data[i] != 0 {
            lemma_rle_len(data, i + 1);
        } else {
            lemma_zero_run(data, i, 65_535);
            lemma_rle_len(data, i + zero_run(data, i, 65_535));
        }
    }
}

/// Encode zero runs.
pub fn zero_rle_encode(data: &[u8]) -> (out: Vec<u8>)
    ensures
        out@ == rle_encoded(data@),
{
    let mut out: Vec<u8> = Vec::new();
    let mut i: usize = 0;
    while i < data.len()
        invariant
            i <= data@.len(),
            out@ + rle_encoded_from(data@, i as int) == rle_encoded(data@),
        decreases data@.len() - i,
    {
        let ghost before = out@;
        let ghost start = i as int;
        if data[i] != 0 {
            out.push(data[i]);
            i = i + 1;
            assert(out@ + rle_encoded_from(data@, i as int) =~= before + (seq![data@[start]] + rle_encoded_from(
                data@,
                i as int,
            )));
        } else {
            let n: u16 = run_length(data, i);
            proof {
                lemma_zero_run(data@, start, 65_535);
            }
            out.push(0);
            out.push((n % 256) as u8);
            out.push((n / 256) as u8);
            i = i + n as usize;
            assert(out@ + rle_encoded_from(data@, i as int) =~= before + (seq![
                0u8,
                (n as int % 256) as u8,
                (n as int / 256) as u8,
            ] + rle_encoded_from(data@, i as int)));
        }
    }
    assert(out@ + Seq::<u8>::empty() =~= out@);
    out
}

fn run_length(data: &[u8], start: usize) -> (n: u16)
    requires
        start < data@.len(),
    ensures
        n == zero_run(data@, start as int, 65_535),
{
    let mut n: u16 = 0;
    while n < u16::MAX && (n as usize) < data.len() - start && data[start + n as usize] == 0
        invariant
            start < data@.len(),
            start + n <= data@.len(),
            n + zero_run(data@, start + n, 65_535 - n) == zero_run(data@, start as int, 65_535),
        decreases 65_535 - n,
    {
        n = n + 1;
    }
    n
}

/// Decode zero runs into a buffer, which is cleared first.
pub fn zero_rle_decode_into(data: &[u8], out: &mut Vec<u8>)
    ensures
        final(out)@ == rle_decoded(data@),
{
    out.clear();
    let n: usize = data.len();
    let mut i: usize = 0;
    assert(out@ + rle_decoded_from(data@, 0) =~= rle_decoded(data@));
    while i < n
        invariant
            i <= n,
            n == data@.len(),
            out@ + rle_decoded_from(data@, i as int) == rle_decoded(data@),
        decreases n - i,
    {
        let ghost before = out@;
        let b: u8 = data[i];
        if b == 0 {
            if n - i <= 2 {
                assert(before + Seq::<u8>::empty() =~= before);
                return;
            }
            let count: usize = data[i + 1] as usize + data[i + 2] as usize * 256;
            push_zeros(out, count);
            assert(out@ + rle_decoded_from(data@, i + 3) =~= before + (zeros(count as int) + rle_decoded_from(
                data@,
                i + 3,
            )));
            i = i + 3;
        } else {
            out.push(b);
            assert(out@ + rle_decoded_from(data@, i + 1) =~= before + (seq![b] + rle_decoded_from(data@, i + 1)));
            i = i + 1;
        }
    }
    assert(out@ + Seq::<u8>::empty() =~= out@);
}

fn push_zeros(out: &mut Vec<u8>, count: usize)
    ensures
        final(out)@ == old(out)@ + zeros(count as int),
{
    let mut k: usize = 0;
    assert(out@ =~= old(out)@ + zeros(0));
    while k < count
        invariant
            k <= count,
            out@ == old(out)@ + zeros(k as int),
        decreases count - k,
    {
        out.push(0);
        k = k + 1;
        assert(out@ =~= old(out)@ + zeros(k as int));
    }
}

/// Difference of two bytes, modulo 256.
pub open spec fn byte_sub(a: u8, b: u8) -> u8 {
    if a >= b { (a - b) as u8 } else { (a - b + 256) as u8 }
}

/// Sum of two bytes, modulo 256.
pub open spec fn byte_add(a: u8, b: u8) -> u8 {
    if a + b < 256 { (a + b) as u8 } else { (a + b - 256) as u8 }
}

/// Each byte as its difference from the one before.
pub open spec fn delta(data: Seq<u8>) -> Seq<u8> {
    Seq::new(data.len(), |i: int| if i == 0 { data[0] } else { byte_sub(data[i], data[i - 1]) })
}

/// Running sum of the bytes up to `i`.
pub open spec fn running(data: Seq<u8>, i: int) -> u8
    decreases i,
{
    if i <= 0 { data[0] } else { byte_add(running(data, i - 1), data[i]) }
}

/// The bytes whose differences are given.
pub open spec fn undelta(data: Seq<u8>) -> Seq<u8> {
    Seq::new(data.len(), |i: int| running(data, i))
}

proof fn lemma_running(data: Seq<u8>, i: int)
    requires
        0 <= i < data.len(),
    ensures
        running(delta(data), i) == data[i],
    decreases i,
{
    if i > 0 {
        lemma_running(data, i - 1);
    }
}

/// Undoing the differences gives the bytes back.
pub proof fn lemma_delta_round_trip(data: Seq<u8>)
    ensures
        undelta(delta(data)) == data,
{
    assert forall|i: int| 0 <= i < data.len() implies undelta(delta(data))[i] == data[i] by {
        lemma_running(data, i);
    }
    assert(undelta(delta(data)) =~= data);
}

/// Differences along the data.
pub fn spatial_delta(data: &[u8]) -> (out: Vec<u8>)
    ensures
        out@ == delta(data@),
{
    let mut out: Vec<u8> = Vec::new();
    let mut i: usize = 0;
    while i < data.len()
        invariant
            i <= data@.len(),
            out@.len() == i,
            forall|k: int| 0 <= k < i ==> out@[k] == delta(data@)[k],
        decreases data@.len() - i,
    {
        if i == 0 {
            out.push(data[0]);
        } else {
            out.push(data[i].wrapping_sub(data[i - 1]));
        }
        i = i + 1;
    }
    assert(out@ =~= delta(data@));
    out
}

/// The first bytes of `dst` replaced by the undone differences, as far as both reach.
pub open spec fn undelta_into(data: Seq<u8>, dst: Seq<u8>) -> Seq<u8> {
    Seq::new(dst.len(), |i: int| if i < data.len() { running(data, i) } else { dst[i] })
}

/// Undo the differences into a buffer.
pub fn spatial_undelta_to(data: &[u8], dst: &mut [u8])
    ensures
        final(dst)@ == undelta_into(data@, old(dst)@),
{
    let n: usize = if data.len() < dst.len() { data.len() } else { dst.len() };
    let mut i: usize = 0;
    while i < n
        invariant
            i <= n,
            n <= data@.len(),
            n <= dst@.len(),
            n == data@.len() || n == dst@.len(),
            dst@.len() == old(dst)@.len(),
            forall|k: int| 0 <= k < i ==> dst@[k] == running(data@, k),
            forall|k: int| i <= k < dst@.len() ==> dst@[k] == old(dst)@[k],
        decreases n - i,
    {
        if i == 0 {
            dst[0] = data[0];
        } else {
            let v: u8 = dst[i - 1].wrapping_add(data[i]);
            assert(v == byte_add(running(data@, i - 1), data@[i as int]));
            dst[i] = v;
        }
        i = i + 1;
    }
    assert(dst@ =~= undelta_into(data@, old(dst)@));
}

/// Bytewise exclusive or, as long as both last.
pub open spec fn xored(a: Seq<u8>, b: Seq<u8>) -> Seq<u8> {
    Seq::new(if a.len() < b.len() { a.len() } else { b.len() }, |i: int| a[i] ^ b[i])
}

/// Exclusive or of two frames.
pub fn xor_bytes(a: &[u8], b: &[u8]) -> (out: Vec<u8>)
    ensures
        out@ == xored(a@, b@),
{
    let n: usize = if a.len() < b.len() { a.len() } else { b.len() };
    let mut out: Vec<u8> = Vec::new();
    let mut i: usize = 0;
    while i < n
        invariant
            i <= n,
            n <= a@.len(),
            n <= b@.len(),
            out@.len() == i,
            forall|k: int| 0 <= k < i ==> out@[k] == a@[k] ^ b@[k],
        decreases n - i,
    {
        out.push(a[i] ^ b[i]);
        i = i + 1;
    }
    assert(out@ =~= xored(a@, b@));
    out
}

/// A difference between frames, applied to the earlier one, gives the later one.
pub proof fn lemma_xor_round_trip(prev: Seq<u8>, frame: Seq<u8>)
    requires
        prev.len() == frame.len(),
    ensures
        xored(prev, xored(frame, prev)) == frame,
{
    assert forall|i: int| 0 <= i < frame.len() implies xored(prev, xored(frame, prev))[i] == frame[i] by {
        let (p, f) = (prev[i], frame[i]);
        assert(p ^ (f ^ p) == f) by (bit_vector);
    }
    assert(xored(prev, xored(frame, prev)) =~= frame);
}

} // verus!
