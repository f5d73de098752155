//! Recorded frames as a GIF stream.
use vstd::prelude::*;

use crate::palette::palette_bytes;
#[allow(unused_imports)]
use crate::palette::{law_palette_bytes_keep_the_colours, palette_seq};
use crate::quantise::Rgb;

verus! {

/// How long each frame is shown, in hundredths of a second.
pub const GIF_FRAME_DELAY: u16 = 3;

/// The palette index that is shown as transparent: the background.
pub const TRANSPARENT_INDEX: u8 = 0;

/// The two bytes of `v`, the lower one first.
pub open spec fn le16(v: u16) -> Seq<u8> {
    seq![(v % 256) as u8, (v / 256) as u8]
}

/// The size of the colour table that holds `n` colours: a power of two from 2 to 256.
pub open spec fn table_bits(n: int) -> int {
    if n <= 2 {
        0
    } else if n <= 4 {
        1
    } else if n <= 8 {
        2
    } else if n <= 16 {
        3
    } else if n <= 32 {
        4
    } else if n <= 64 {
        5
    } else if n <= 128 {
        6
    } else {
        7
    }
}

/// The number of colours in a table whose size is given by `bits`.
pub open spec fn table_len(bits: int) -> int {
    if bits <= 0 {
        2
    } else if bits == 1 {
        4
    } else if bits == 2 {
        8
    } else if bits == 3 {
        16
    } else if bits == 4 {
        32
    } else if bits == 5 {
        64
    } else if bits == 6 {
        128
    } else {
        256
    }
}

/// The opening of a stream: signature, screen size, and the colours of `palette` (three bytes
/// each) padded with black to the size of the table.
pub open spec fn opening(width: u16, height: u16, palette: Seq<u8>) -> Seq<u8> {
    let colours = palette.len() as int / 3;
    let bits = table_bits(colours);
    seq![0x47u8, 0x49u8, 0x46u8, 0x38u8, 0x39u8, 0x61u8] + le16(width) + le16(height) + seq![
        (128 + 17 * bits) as u8,
        0u8,
        0u8,
    ] + palette.take(3 * colours) + Seq::new(
        (3 * (table_len(bits) - colours)) as nat,
        |i: int| 0u8,
    )
}

/// The block that says how often the animation is repeated. None stands for without end; no
/// repetition at all needs no block.
pub open spec fn repeat_block(repeats: Option<u16>) -> Seq<u8> {
    if repeats == Some(0u16) {
        seq![]
    } else {
        let count = match repeats {
            Some(n) => n,
            None => 0u16,
        };
        seq![0x21u8, 0xffu8, 11u8] + seq![
            0x4eu8,
            0x45u8,
            0x54u8,
            0x53u8,
            0x43u8,
            0x41u8,
            0x50u8,
            0x45u8,
            0x32u8,
            0x2eu8,
            0x30u8,
        ] + seq![3u8, 1u8] + le16(count) + seq![0u8]
    }
}

/// The block before a frame: how long it is shown, and which index is transparent. The frame
/// stays when the next one is drawn.
pub open spec fn control_block(delay: u16, transparent: Option<u8>) -> Seq<u8> {
    let flags = if transparent is Some {
        5u8
    } else {
        4u8
    };
    let index = match transparent {
        Some(t) => t,
        None => 0u8,
    };
    seq![0x21u8, 0xf9u8, 4u8, flags] + le16(delay) + seq![index, 0u8]
}

/// The description of a frame that covers the whole screen and uses the common palette.
pub open spec fn image_descriptor(width: u16, height: u16) -> Seq<u8> {
    seq![0x2cu8, 0u8, 0u8, 0u8, 0u8] + le16(width) + le16(height) + seq![0u8]
}

/// A whole frame.
pub open spec fn frame_block(
    width: u16,
    height: u16,
    pixels: Seq<u8>,
    transparent: Option<u8>,
    delay: u16,
) -> Seq<u8> {
    control_block(delay, transparent) + image_descriptor(width, height) + image_data(pixels)
}

/// The first `n` of `frames`, each a square of `size` pixels.
pub open spec fn frame_blocks(frames: Seq<Seq<u8>>, size: u16, n: int) -> Seq<u8>
    decreases n,
{
    if n <= 0 {
        seq![]
    } else {
        frame_blocks(frames, size, n - 1) + frame_block(
            size,
            size,
            frames[n - 1],
            Some(TRANSPARENT_INDEX),
            GIF_FRAME_DELAY,
        )
    }
}

/// The whole stream of an endlessly repeated animation.
pub open spec fn gif_stream(frames: Seq<Seq<u8>>, palette: Seq<u8>, size: u16) -> Seq<u8> {
    (opening(size, size, palette) + repeat_block(None) + frame_blocks(
        frames,
        size,
        frames.len() as int,
    )).push(0x3bu8)
}

/// The contents of each frame.
pub open spec fn frame_views(frames: Seq<Vec<u8>>) -> Seq<Seq<u8>> {
    Seq::new(frames.len(), |i: int| frames[i]@)
}

/// The compressed pixels of a frame as `gif::Encoder::write_frame` writes them: the code
/// size, the LZW codes cut into blocks, and the empty block that ends them.
pub uninterp spec fn image_data(pixels: Seq<u8>) -> Seq<u8>;

/// What `gif::Encoder` reports where it fails.
#[verifier::external_type_specification]
#[verifier::external_body]
pub struct ExEncodingError(gif::EncodingError);

/// A `gif::Encoder` that collects its bytes in memory. It is held in a type of its own because
/// `gif::Encoder` is bounded by `std::io::Write`, which Verus does not know.
#[verifier::external_body]
pub struct GifEncoder {
    inner: gif::Encoder<Vec<u8>>,
}

/// The bytes that the encoder has collected so far.
pub uninterp spec fn written(encoder: GifEncoder) -> Seq<u8>;

/// Whether the encoder was given a common palette with at least one colour.
pub uninterp spec fn has_palette(encoder: GifEncoder) -> bool;

impl GifEncoder {
    /// Calls `gif::Encoder::new` with an empty vector to write to. It fails exactly where the
    /// palette has more than 256 colours; otherwise it writes the opening of the stream. A
    /// vector takes all bytes that are written to it.
    #[verifier::external_body]
    fn new(width: u16, height: u16, palette: &[u8]) -> (r: Result<GifEncoder, gif::EncodingError>)
        ensures
            r is Ok <==> palette@.len() / 3 <= 256,
            r is Ok ==> written(r->Ok_0) == opening(width, height, palette@),
            r is Ok ==> has_palette(r->Ok_0) == (palette@.len() >= 3),
    {
        let inner = gif::Encoder::new(Vec::new(), width, height, palette)?;
        Ok(GifEncoder { inner })
    }

    /// Calls `gif::Encoder::set_repeat`, which writes the block for the given number of
    /// repetitions.
    #[verifier::external_body]
    fn set_repeat(&mut self, repeats: Option<u16>) -> (r: Result<(), gif::EncodingError>)
        ensures
            r is Ok,
            written(*final(self)) == written(*old(self)) + repeat_block(repeats),
            has_palette(*final(self)) == has_palette(*old(self)),
    {
        self.inner.set_repeat(
            match repeats {
                Some(n) => gif::Repeat::Finite(n),
                None => gif::Repeat::Infinite,
            },
        )
    }

    /// Makes a frame with `gif::Frame::from_indexed_pixels`, which insists on one index per
    /// pixel, and calls `gif::Encoder::write_frame`. Without a common palette that fails for want
    /// of one; with one it can only fail because memory runs out. What has been written by then
    /// is left open.
    #[verifier::external_body]
    fn write_frame(
        &mut self,
        width: u16,
        height: u16,
        pixels: &[u8],
        transparent: Option<u8>,
        delay: u16,
    ) -> (r: Result<(), FrameError>)
        requires
            pixels@.len() == width * height,
        ensures
            !has_palette(*old(self)) ==> r is Err && r->Err_0 is MissingPalette,
            has_palette(*old(self)) && r is Err ==> r->Err_0 is OutOfMemory,
            r is Ok ==> written(*final(self)) == written(*old(self)) + (control_block(
                delay,
                transparent,
            ) + image_descriptor(width, height) + image_data(pixels@)),
            has_palette(*final(self)) == has_palette(*old(self)),
    {
        let mut frame = gif::Frame::from_indexed_pixels(width, height, pixels, transparent);
        frame.delay = delay;
        match self.inner.write_frame(&frame) {
            Ok(()) => Ok(()),
            Err(gif::EncodingError::OutOfMemory) => Err(FrameError::OutOfMemory),
            Err(
                gif::EncodingError::Format(gif::EncodingFormatError::MissingColorPalette),
            ) => Err(FrameError::MissingPalette),
            Err(e) => Err(FrameError::Other(e)),
        }
    }

    /// Calls `gif::Encoder::into_inner`, which writes the byte that ends the stream and hands
    /// the vector back.
    #[verifier::external_body]
    fn into_bytes(self) -> (r: Result<Vec<u8>, gif::EncodingError>)
        ensures
            r is Ok,
            r->Ok_0@ == written(self).push(0x3bu8),
    {
        self.inner.into_inner()
    }
}

/// Why a frame could not be written.
#[derive(Debug)]
pub enum FrameError {
    /// Memory ran out.
    OutOfMemory,
    /// The stream has no palette.
    MissingPalette,
    /// The encoder reports something else.
    Other(gif::EncodingError),
}

/// Which part of a stream could not be written.
#[derive(Debug)]
pub enum GifError {
    Opening(gif::EncodingError),
    Repeat(gif::EncodingError),
    Frame(FrameError),
    Ending(gif::EncodingError),
}

/// The stream could not be written because memory ran out.
pub open spec fn out_of_memory(e: GifError) -> bool {
    e matches GifError::Frame(f) && f is OutOfMemory
}

/// The stream could not be written because there is no palette for its frames.
pub open spec fn missing_palette(e: GifError) -> bool {
    e matches GifError::Frame(f) && f is MissingPalette
}

/// Encodes square frames of palette indices as an endlessly repeated animation.
///
/// It fails where the palette has more than 256 colours, where there are frames and the
/// palette has no colour, and where memory runs out while a frame is compressed.
pub fn encode_gif(frames: &[Vec<u8>], pal: &[Rgb], size: u16) -> (r: Result<Vec<u8>, GifError>)
    requires
        3 * pal@.len() <= isize::MAX,
        forall|i: int| 0 <= i < frames@.len() ==> (#[trigger] frames@[i])@.len() == size * size,
    ensures
        r is Ok ==> r->Ok_0@ == gif_stream(frame_views(frames@), palette_seq(pal@), size),
        (r is Err && r->Err_0 is Opening) <==> pal@.len() > 256,
        pal@.len() == 0 && frames@.len() > 0 ==> r is Err && missing_palette(r->Err_0),
        0 < pal@.len() <= 256 && r is Err ==> out_of_memory(r->Err_0),
        frames@.len() == 0 && pal@.len() <= 256 ==> r is Ok,
{
    let flat_pal: Vec<u8> = palette_bytes(pal);
    let mut encoder: GifEncoder = match GifEncoder::new(size, size, flat_pal.as_slice()) {
        Ok(encoder) => encoder,
        Err(e) => {
            return Err(GifError::Opening(e));
        },
    };
    match encoder.set_repeat(None) {
        Ok(()) => {},
        Err(e) => {
            return Err(GifError::Repeat(e));
        },
    }
    let ghost begun = opening(size, size, flat_pal@) + repeat_block(None);
    let ghost views = frame_views(frames@);
    let mut i: usize = 0;
    assert(begun + frame_blocks(views, size, 0) =~= begun);
    while i < frames.len()
        invariant
            i <= frames@.len(),
            pal@.len() <= 256,
            i > 0 ==> pal@.len() > 0,
            forall|k: int| 0 <= k < frames@.len() ==> (#[trigger] frames@[k])@.len() == size * size,
            views == frame_views(frames@),
            has_palette(encoder) == (pal@.len() > 0),
            written(encoder) == begun + frame_blocks(views, size, i as int),
        decreases frames@.len() - i,
    {
        match encoder.write_frame(
            size,
            size,
            frames[i].as_slice(),
            Some(TRANSPARENT_INDEX),
            GIF_FRAME_DELAY,
        ) {
            Ok(()) => {},
            Err(e) => {
                return Err(GifError::Frame(e));
            },
        }
        proof {
            let block = frame_block(
                size,
                size,
                views[i as int],
                Some(TRANSPARENT_INDEX),
                GIF_FRAME_DELAY,
            );
            assert(begun + frame_blocks(views, size, i as int) + block =~= begun + (frame_blocks(
                views,
                size,
                i as int,
            ) + block));
        }
        i = i + 1;
    }
    match encoder.into_bytes() {
        Ok(bytes) => Ok(bytes),
        Err(e) => Err(GifError::Ending(e)),
    }
}

/// A further frame goes in front of the end of the stream and changes nothing before it.
pub proof fn law_frames_are_appended(
    frames: Seq<Seq<u8>>,
    pixels: Seq<u8>,
    palette: Seq<u8>,
    size: u16,
)
    ensures
        gif_stream(frames.push(pixels), palette, size) == (gif_stream(frames, palette, size)
            .drop_last() + frame_block(
            size,
            size,
            pixels,
            Some(TRANSPARENT_INDEX),
            GIF_FRAME_DELAY,
        )).push(0x3bu8),
{
    let n = frames.len() as int;
    lemma_blocks_of_prefix(frames, frames.push(pixels), size, n);
    assert(gif_stream(frames.push(pixels), palette, size) =~= (gif_stream(frames, palette, size)
        .drop_last() + frame_block(
        size,
        size,
        pixels,
        Some(TRANSPARENT_INDEX),
        GIF_FRAME_DELAY,
    )).push(0x3bu8));
}

proof fn lemma_blocks_of_prefix(a: Seq<Seq<u8>>, b: Seq<Seq<u8>>, size: u16, n: int)
    requires
        n <= a.len(),
        n <= b.len(),
        forall|i: int| 0 <= i < n ==> a[i] == b[i],
    ensures
        frame_blocks(a, size, n) == frame_blocks(b, size, n),
    decreases n,
{
    if n > 0 {
        lemma_blocks_of_prefix(a, b, size, n - 1);
    }
}

/// Every stream opens with the GIF signature and the screen size, and ends with the trailer.
pub proof fn law_stream_is_framed(frames: Seq<Seq<u8>>, palette: Seq<u8>, size: u16)
    requires
        palette.len() / 3 <= 256,
    ensures
        ({
            let s = gif_stream(frames, palette, size);
            &&& s.len() > 10
            &&& s.take(6) == seq![0x47u8, 0x49u8, 0x46u8, 0x38u8, 0x39u8, 0x61u8]
            &&& s.subrange(6, 10) == le16(size) + le16(size)
            &&& s.last() == 0x3bu8
        }),
{
    let s = gif_stream(frames, palette, size);
    assert(s.take(6) =~= seq![0x47u8, 0x49u8, 0x46u8, 0x38u8, 0x39u8, 0x61u8]);
    assert(s.subrange(6, 10) =~= le16(size) + le16(size));
}

/// The frames that go into a stream are the given ones, each at its own place.
pub proof fn law_every_frame_keeps_its_place(frames: Seq<Vec<u8>>, i: int)
    requires
        0 <= i < frames.len(),
    ensures
        frame_views(frames).len() == frames.len(),
        frame_views(frames)[i] == frames[i]@,
{
}

/// One frame more goes to the end of the stream, behind all the others and in front of the
/// trailer: a control block (shown for three hundredths of a second, index zero transparent),
/// the position and size of the whole screen, and the pixels of that very frame.
pub proof fn law_one_more_frame_is_appended(
    frames: Seq<Vec<u8>>,
    frame: Vec<u8>,
    pal: Seq<Rgb>,
    size: u16,
)
    ensures
        ({
            let (lo, hi) = ((size % 256) as u8, (size / 256) as u8);
            let without = gif_stream(frame_views(frames), palette_seq(pal), size);
            gif_stream(frame_views(frames.push(frame)), palette_seq(pal), size)
                == without.drop_last() + seq![0x21u8, 0xf9u8, 4u8, 5u8, 3u8, 0u8, 0u8, 0u8] + seq![
                0x2cu8,
                0u8,
                0u8,
                0u8,
                0u8,
                lo,
                hi,
                lo,
                hi,
                0u8,
            ] + image_data(frame@) + seq![0x3bu8]
        }),
{
    assert(frame_views(frames.push(frame)) =~= frame_views(frames).push(frame@));
    law_frames_are_appended(frame_views(frames), frame@, palette_seq(pal), size);
    let (lo, hi) = ((size % 256) as u8, (size / 256) as u8);
    let without = gif_stream(frame_views(frames), palette_seq(pal), size);
    assert(gif_stream(frame_views(frames.push(frame)), palette_seq(pal), size)
        =~= without.drop_last() + seq![0x21u8, 0xf9u8, 4u8, 5u8, 3u8, 0u8, 0u8, 0u8] + seq![
        0x2cu8,
        0u8,
        0u8,
        0u8,
        0u8,
        lo,
        hi,
        lo,
        hi,
        0u8,
    ] + image_data(frame@) + seq![0x3bu8]);
}

/// The stream of the first frames, but for its trailer, is the beginning of the whole stream:
/// later frames change nothing of what is written for earlier ones.
pub proof fn law_fewer_frames_are_a_beginning(
    frames: Seq<Vec<u8>>,
    pal: Seq<Rgb>,
    size: u16,
    n: int,
)
    requires
        0 <= n <= frames.len(),
    ensures
        gif_stream(frame_views(frames.take(n)), palette_seq(pal), size).drop_last().is_prefix_of(
            gif_stream(frame_views(frames), palette_seq(pal), size),
        ),
    decreases frames.len() - n,
{
    let whole = gif_stream(frame_views(frames), palette_seq(pal), size);
    let part = gif_stream(frame_views(frames.take(n)), palette_seq(pal), size).drop_last();
    if n == frames.len() {
        assert(frames.take(n) =~= frames);
    } else {
        law_fewer_frames_are_a_beginning(frames, pal, size, n + 1);
        assert(frames.take(n + 1) =~= frames.take(n).push(frames[n]));
        law_one_more_frame_is_appended(frames.take(n), frames[n], pal, size);
        let longer = gif_stream(frame_views(frames.take(n + 1)), palette_seq(pal), size);
        assert(part.is_prefix_of(longer.drop_last()));
        assert(longer.drop_last().is_prefix_of(whole));
    }
    assert(part =~= whole.take(part.len() as int));
}

/// The stream without any frame, byte by byte: the signature, the size of the square screen, a
/// colour table with the smallest power of two that holds all colours, these colours in order,
/// black up to the end of the table, the block for endless repetition, and the trailer.
pub proof fn law_stream_without_frames(
    pal: Seq<Rgb>,
    size: u16,
    bits: nat,
    entries: int,
    i: int,
)
    requires
        bits <= 7,
        entries == vstd::arithmetic::power2::pow2(bits + 1),
        pal.len() <= entries,
        bits > 0 ==> entries < 2 * pal.len(),
        0 <= i < entries,
    ensures
        ({
            let s = gif_stream(frame_views(Seq::empty()), palette_seq(pal), size);
            let (lo, hi) = ((size % 256) as u8, (size / 256) as u8);
            let k = 13 + 3 * i;
            &&& s.len() == 13 + 3 * entries + 20
            &&& s.take(10) == seq![
                0x47u8,
                0x49u8,
                0x46u8,
                0x38u8,
                0x39u8,
                0x61u8,
                lo,
                hi,
                lo,
                hi,
            ]
            &&& s[10] == 128 + 17 * bits
            &&& s[11] == 0
            &&& s[12] == 0
            &&& (s[k], s[k + 1], s[k + 2]) == if i < pal.len() {
                pal[i]
            } else {
                (0u8, 0u8, 0u8)
            }
            &&& s.skip(13 + 3 * entries) == seq![
                0x21u8,
                0xffu8,
                11u8,
                0x4eu8,
                0x45u8,
                0x54u8,
                0x53u8,
                0x43u8,
                0x41u8,
                0x50u8,
                0x45u8,
                0x32u8,
                0x2eu8,
                0x30u8,
                3u8,
                1u8,
                0u8,
                0u8,
                0u8,
                0x3bu8,
            ]
        }),
{
    vstd::arithmetic::power2::lemma2_to64();
    let p = palette_seq(pal);
    let s = gif_stream(frame_views(Seq::empty()), p, size);
    let (lo, hi) = ((size % 256) as u8, (size / 256) as u8);
    assert(p.len() / 3 == pal.len());
    assert(table_bits(pal.len() as int) == bits);
    assert(table_len(bits as int) == entries);
    assert(p.take(3 * pal.len() as int) =~= p);
    let head = opening(size, size, p);
    assert(head.len() == 13 + 3 * entries);
    assert(frame_blocks(frame_views(Seq::empty()), size, 0) =~= seq![]);
    assert(s =~= (head + repeat_block(None)).push(0x3bu8));
    assert(s.take(10) =~= seq![
        0x47u8,
        0x49u8,
        0x46u8,
        0x38u8,
        0x39u8,
        0x61u8,
        lo,
        hi,
        lo,
        hi,
    ]);
    if i < pal.len() {
        law_palette_bytes_keep_the_colours(pal, i);
        assert(s[13 + 3 * i] == p[3 * i]);
        assert(s[13 + 3 * i + 1] == p[3 * i + 1]);
        assert(s[13 + 3 * i + 2] == p[3 * i + 2]);
    }
    assert(s.skip(13 + 3 * entries) =~= repeat_block(None).push(0x3bu8));
    assert(repeat_block(None).push(0x3bu8) =~= seq![
        0x21u8,
        0xffu8,
        11u8,
        0x4eu8,
        0x45u8,
        0x54u8,
        0x53u8,
        0x43u8,
        0x41u8,
        0x50u8,
        0x45u8,
        0x32u8,
        0x2eu8,
        0x30u8,
        3u8,
        1u8,
        0u8,
        0u8,
        0u8,
        0x3bu8,
    ]);
}

/// The two reasons why the frames of a stream cannot be written are told apart.
pub proof fn law_errors_are_told_apart(e: GifError)
    ensures
        out_of_memory(e) <==> e == GifError::Frame(FrameError::OutOfMemory),
        missing_palette(e) <==> e == GifError::Frame(FrameError::MissingPalette),
{
}

} // verus!
