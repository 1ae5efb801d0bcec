//! Laws of text layout: where the characters of a line stand and which pixels they cover.
use vstd::prelude::*;

use crate::font;
use crate::font::Glyph;

verus! {

/// Coverage that character `i` of a line gives to a pixel; 0 where its glyph does not reach.
pub open spec fn coverage(font: Seq<Option<Glyph>>, s: Seq<u8>, left: int, base: int, i: int, x: int, y: int) -> int {
    match font::glyph_of(font, s[i]) {
        Some(g) => {
            let dx = x - left - font::pen(font, s, i);
            let dy = y - base + g.height + g.ymin;
            if 0 <= dx < g.width && 0 <= dy < g.height {
                font::nibble(g, dx, dy)
            } else {
                0
            }
        },
        None => 0,
    }
}

/// No character of a line from `from` on covers the pixel.
pub open spec fn clear_from(
    font: Seq<Option<Glyph>>,
    s: Seq<u8>,
    left: int,
    base: int,
    from: int,
    x: int,
    y: int,
) -> bool {
    forall|i: int| from <= i < s.len() ==> #[trigger] coverage(font, s, left, base, i, x, y) == 0
}

/// A line of this width starts here when it is centred on the panel.
pub open spec fn centred(left: int, width: int) -> bool {
    466 <= 2 * left + width <= 467
}

/// The pen starts at the left edge and moves on by the advance of each character; a character
/// that the atlas lacks takes no room.
pub proof fn lemma_pen_steps(font: Seq<Option<Glyph>>, s: Seq<u8>, i: int)
    requires
        0 <= i < s.len(),
    ensures
        font::pen(font, s, 0) == 0,
        s[i] < font.len() && font[s[i] as int] is Some ==> font::pen(font, s, i + 1) == font::pen(font, s, i) + (
        font[s[i] as int]->0).advance,
        s[i] >= font.len() || font[s[i] as int] is None ==> font::pen(font, s, i + 1) == font::pen(font, s, i),
{
}

/// A line is as wide as its parts together.
pub proof fn lemma_width_adds(font: Seq<Option<Glyph>>, s: Seq<u8>, t: Seq<u8>)
    ensures
        font::width_of(font, s + t) == font::width_of(font, s) + font::width_of(font, t),
    decreases t.len(),
{
    if t.len() == 0 {
        assert(s + t =~= s);
    } else {
        let u = t.drop_last();
        lemma_width_adds(font, s, u);
        assert((s + t).drop_last() =~= s + u);
        font::lemma_pen_prefix(font, s + t, s + u, (s + u).len() as int);
        font::lemma_pen_prefix(font, t, u, u.len() as int);
    }
}

/// Two neighbouring pixels of a bitmap row share a byte, the left one in the high half, and
/// rows follow one another in whole bytes.
pub proof fn lemma_bitmap(g: Glyph, x: int, y: int)
    requires
        font::glyph_ok(g),
        0 <= x,
        2 * x < g.width,
        0 <= y < g.height,
    ensures
        ({
            let row = if g.width % 2 == 0 { g.width as int / 2 } else { g.width as int / 2 + 1 };
            let b = g.data@[y * row + x] as int;
            &&& font::nibble(g, 2 * x, y) * 16 + font::nibble(g, 2 * x + 1, y) == b
            &&& 0 <= font::nibble(g, 2 * x, y) <= 15
            &&& 0 <= font::nibble(g, 2 * x + 1, y) <= 15
        }),
{
}

/// A code stands for its character; what lies outside ASCII has no glyph.
pub proof fn lemma_codes(text: Seq<char>, i: int, font: Seq<Option<Glyph>>)
    requires
        0 <= i < text.len(),
        font.len() == 128,
    ensures
        font::codes_of(text).len() == text.len(),
        (text[i] as int) < 128 ==> font::codes_of(text)[i] == text[i] as int && font::glyph_of(
            font,
            font::codes_of(text)[i],
        ) == font[text[i] as int],
        (text[i] as int) >= 128 ==> font::glyph_of(font, font::codes_of(text)[i]) is None,
{
    lemma_ascii(text[i]);
}

/// A character of ASCII keeps its number as a byte.
pub proof fn lemma_ascii(c: char)
    ensures
        (c as int) < 128 ==> (c as u8) as int == c as int,
{
}

} // verus!
