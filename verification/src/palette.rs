//! The palette of the recording.
use vstd::prelude::*;

use crate::quantise::Rgb;

verus! {

/// The number of palette entries: black and the hues of the gradient.
pub const PALETTE_SIZE: usize = 256;

/// The background colour.
pub open spec fn black() -> Rgb {
    (0u8, 0u8, 0u8)
}

/// Byte `c` of a colour: 0 is red, 1 green, 2 blue.
pub open spec fn rgb_byte(p: Rgb, c: int) -> u8 {
    if c == 0 {
        p.0
    } else if c == 1 {
        p.1
    } else {
        p.2
    }
}

/// The bytes of the colours, one colour after the other.
pub open spec fn palette_seq(pal: Seq<Rgb>) -> Seq<u8> {
    Seq::new(3 * pal.len(), |i: int| rgb_byte(pal[i / 3], i % 3))
}

/// The palette of a recording: entry 0 is the black background, and the hues of the gradient
/// follow in order.
pub fn build_palette(hues: &[Rgb]) -> (pal: Vec<Rgb>)
    requires
        hues@.len() == PALETTE_SIZE - 1,
    ensures
        pal@ == seq![black()] + hues@,
        pal@[0] == (0u8, 0u8, 0u8),
{
    let mut pal: Vec<Rgb> = Vec::new();
    pal.push((0, 0, 0));
    let mut i: usize = 1;
    assert(pal@ =~= seq![black()] + hues@.take(0));
    while i < PALETTE_SIZE
        invariant
            1 <= i <= PALETTE_SIZE,
            hues@.len() == PALETTE_SIZE - 1,
            pal@ == seq![black()] + hues@.take(i - 1),
        decreases PALETTE_SIZE - i,
    {
        pal.push(hues[i - 1]);
        assert(hues@.take(i as int) =~= hues@.take(i - 1).push(hues@[i - 1]));
        i = i + 1;
    }
    assert(hues@.take(PALETTE_SIZE - 1) =~= hues@);
    pal
}

/// The colours as plain bytes: red, green, blue of each.
pub fn palette_bytes(pal: &[Rgb]) -> (bytes: Vec<u8>)
    requires
        3 * pal@.len() <= isize::MAX,
    ensures
        bytes@ == palette_seq(pal@),
{
    let mut bytes: Vec<u8> = Vec::new();
    let mut i: usize = 0;
    while i < pal.len()
        invariant
            i <= pal@.len(),
            bytes@.len() == 3 * i,
            forall|k: int|
                0 <= k < bytes@.len() ==> #[trigger] bytes@[k] == rgb_byte(pal@[k / 3], k % 3),
        decreases pal@.len() - i,
    {
        let (r, g, b) = pal[i];
        bytes.push(r);
        bytes.push(g);
        bytes.push(b);
        i = i + 1;
    }
    assert(bytes@ =~= palette_seq(pal@));
    bytes
}

/// The bytes hold three for each colour, and each colour can be read back from them.
pub proof fn law_palette_bytes_keep_the_colours(pal: Seq<Rgb>, i: int)
    requires
        0 <= i < pal.len(),
    ensures
        palette_seq(pal).len() == 3 * pal.len(),
        pal[i] == (
            palette_seq(pal)[3 * i],
            palette_seq(pal)[3 * i + 1],
            palette_seq(pal)[3 * i + 2],
        ),
{
}

} // verus!
