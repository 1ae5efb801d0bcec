//! Bitmap glyph atlases: 4-bit coverage, two pixels per byte, and the layout of a
//! line of text along a baseline.
use vstd::prelude::*;

use vstd::string::StrSliceExecFns;

verus! {

/// One glyph: its coverage bitmap (two pixels per byte, the left one in the high
/// nibble, rows padded to whole bytes), its advance and its offset from the baseline.
#[derive(Clone, Copy)]
pub struct Glyph {
    pub width: u8,
    pub height: u8,
    pub advance: u8,
    pub ymin: i16,
    pub data: &'static [u8],
}

/// Bytes per bitmap row.
pub open spec fn stride(g: Glyph) -> int {
    (g.width + 1) / 2
}

/// The bitmap holds every row.
pub open spec fn glyph_ok(g: Glyph) -> bool {
    g.data@.len() >= stride(g) * g.height
}

/// Every glyph of the atlas is complete.
pub open spec fn font_ok(font: Seq<Option<Glyph>>) -> bool {
    forall|i: int| 0 <= i < font.len() && (#[trigger] font[i]) is Some ==> glyph_ok(font[i]->0)
}

/// Coverage of one bitmap pixel, 0..=15.
pub open spec fn nibble(g: Glyph, x: int, y: int) -> int {
    let b = g.data@[y * stride(g) + x / 2] as int;
    if x % 2 == 0 { b / 16 } else { b % 16 }
}

/// The glyph of a character code, if the atlas has one.
pub open spec fn glyph_of(font: Seq<Option<Glyph>>, c: u8) -> Option<Glyph> {
    if c < font.len() { font[c as int] } else { None }
}

/// ASCII codes of a text; a character outside ASCII becomes 255, which no atlas holds.
pub open spec fn codes_of(text: Seq<char>) -> Seq<u8> {
    Seq::new(text.len(), |i: int| if (text[i] as int) < 128 { text[i] as u8 } else { 255u8 })
}

/// Advance of one character.
pub open spec fn advance_of(font: Seq<Option<Glyph>>, c: u8) -> int {
    match glyph_of(font, c) {
        Some(g) => g.advance as int,
        None => 0,
    }
}

/// Advance of the first `n` characters.
pub open spec fn pen(font: Seq<Option<Glyph>>, s: Seq<u8>, n: int) -> int
    decreases n,
{
    if n <= 0 { 0 } else { pen(font, s, n - 1) + advance_of(font, s[n - 1]) }
}

/// Width of a text in pixels.
pub open spec fn width_of(font: Seq<Option<Glyph>>, s: Seq<u8>) -> int {
    pen(font, s, s.len() as int)
}

/// A pen position lies between 0 and 255 pixels per character.
pub proof fn lemma_pen(font: Seq<Option<Glyph>>, s: Seq<u8>, n: int)
    ensures
        0 <= pen(font, s, n),
        n >= 0 ==> pen(font, s, n) <= 255 * n,
    decreases n,
{
    if n > 0 {
        lemma_pen(font, s, n - 1);
    }
}

/// Pen positions never move left.
pub proof fn lemma_pen_monotonic(font: Seq<Option<Glyph>>, s: Seq<u8>, m: int, n: int)
    requires
        m <= n,
    ensures
        pen(font, s, m) <= pen(font, s, n),
    decreases n - m,
{
    if m < n {
        lemma_pen_monotonic(font, s, m, n - 1);
        if n <= 0 {
        }
    }
}

/// Pen positions depend on the characters before them only.
pub proof fn lemma_pen_prefix(font: Seq<Option<Glyph>>, s: Seq<u8>, t: Seq<u8>, n: int)
    requires
        forall|i: int| 0 <= i < n ==> s[i] == t[i],
    ensures
        pen(font, s, n) == pen(font, t, n),
    decreases n,
{
    if n > 0 {
        lemma_pen_prefix(font, s, t, n - 1);
    }
}

/// The glyph for a code, if any.
pub fn get_glyph(glyphs: &[Option<Glyph>; 128], c: u8) -> (r: Option<Glyph>)
    ensures
        r == glyph_of(glyphs@, c),
{
    if (c as usize) < 128 {
        glyphs[c as usize]
    } else {
        None
    }
}

/// One bitmap pixel.
pub fn coverage(g: &Glyph, x: i32, y: i32) -> (r: i32)
    requires
        glyph_ok(*g),
        0 <= x < g.width,
        0 <= y < g.height,
    ensures
        r == nibble(*g, x as int, y as int),
        0 <= r <= 15,
{
    let st: usize = (g.width as usize + 1) / 2;
    proof {
        assert(0 <= y * st && y * st + st <= st * g.height) by (nonlinear_arith)
            requires 0 <= y, y + 1 <= g.height, st >= 0;
        assert(y * st <= 255 * 128) by (nonlinear_arith)
            requires 0 <= y <= 255, 0 <= st <= 128;
    }
    let b: u8 = g.data[y as usize * st + x as usize / 2];
    if x % 2 == 0 {
        (b / 16) as i32
    } else {
        (b % 16) as i32
    }
}

/// The codes of a text.
pub fn codes(text: &str) -> (r: Vec<u8>)
    ensures
        r@ == codes_of(text@),
{
    let n: usize = text.unicode_len();
    let mut v: Vec<u8> = Vec::new();
    let mut i: usize = 0;
    while i < n
        invariant
            i <= n,
            n == text@.len(),
            v@.len() == i,
            forall|k: int| 0 <= k < i ==> v@[k] == codes_of(text@)[k],
        decreases n - i,
    {
        let c: u32 = text.get_char(i) as u32;
        v.push(if c < 128 { c as u8 } else { 255 });
        i = i + 1;
    }
    assert(v@ =~= codes_of(text@));
    v
}

/// Width of a line given by its codes.
pub fn codes_width(s: &[u8], glyphs: &[Option<Glyph>; 128]) -> (w: i32)
    requires
        s@.len() <= 0x80_8080,
    ensures
        w == width_of(glyphs@, s@),
        0 <= w <= 255 * s@.len(),
{
    let mut w: i32 = 0;
    let mut i: usize = 0;
    while i < s.len()
        invariant
            i <= s@.len() <= 0x80_8080,
            w == pen(glyphs@, s@, i as int),
            0 <= w <= 255 * i,
        decreases s@.len() - i,
    {
        if let Some(g) = get_glyph(glyphs, s[i]) {
            w = w + g.advance as i32;
        }
        i = i + 1;
    }
    w
}

/// Width of a text in pixels.
pub fn text_width(text: &str, glyphs: &[Option<Glyph>; 128]) -> (w: i32)
    requires
        text@.len() <= 0x80_8080,
    ensures
        w == width_of(glyphs@, codes_of(text@)),
        0 <= w <= 255 * text@.len(),
{
    let v = codes(text);
    codes_width(v.as_slice(), glyphs)
}

/// Pen positions go on in the second of two joined texts where the first ends.
proof fn lemma_pen_join(font: Seq<Option<Glyph>>, a: Seq<u8>, b: Seq<u8>, n: int)
    requires
        0 <= n <= b.len(),
    ensures
        pen(font, a + b, a.len() + n) == width_of(font, a) + pen(font, b, n),
    decreases n,
{
    if n > 0 {
        lemma_pen_join(font, a, b, n - 1);
        assert((a + b)[a.len() + n - 1] == b[n - 1]);
    } else {
        lemma_pen_prefix(font, a + b, a, a.len() as int);
    }
}

/// Widths of joined texts add up; the empty text has none, no text has a negative one, and a
/// character outside ASCII or without a glyph adds none.
pub proof fn lemma_text_width(font: Seq<Option<Glyph>>, a: Seq<char>, b: Seq<char>, c: char)
    requires
        font.len() == 128,
    ensures
        width_of(font, codes_of(a + b)) == width_of(font, codes_of(a)) + width_of(font, codes_of(b)),
        width_of(font, codes_of(Seq::empty())) == 0,
        0 <= width_of(font, codes_of(a)),
        c as int >= 128 || font[c as int] is None ==> width_of(font, codes_of(a.push(c))) == width_of(font, codes_of(a)),
{
    lemma_pen(font, codes_of(a), a.len() as int);
    assert(codes_of(a + b) =~= codes_of(a) + codes_of(b));
    lemma_pen_join(font, codes_of(a), codes_of(b), b.len() as int);
    let one = seq![c];
    assert(codes_of(a.push(c)) =~= codes_of(a) + codes_of(one));
    lemma_pen_join(font, codes_of(a), codes_of(one), 1);
    assert(pen(font, codes_of(one), 1) == pen(font, codes_of(one), 0) + advance_of(font, codes_of(one)[0]));
}

} // verus!
