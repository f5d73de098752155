//! The animation: what it holds, and what it does on every tick and every key press.
use vstd::prelude::*;
use vstd::string::StringExecFns;

use crate::canvas::SoftCanvas;
use crate::curve::{build_turns, fit_to_canvas, turns_to_points, Fitted};
#[allow(unused_imports)]
use crate::curve::{
    dragon_turns, law_each_step_is_the_last_one_turned, law_fitted_curve_is_centred,
    law_fitted_curve_keeps_the_margin, law_fitted_curve_reaches_the_margin,
    law_fitting_moves_the_points_as_a_whole, lemma_position_bounds, position, turn_count, Bounds,
    Point,
};
#[allow(unused_imports)]
use crate::draw::{
    brush_half_width, curve_fits, curve_pixel, law_last_segment_is_on_top,
    law_uncovered_pixel_is_kept, lemma_thick_line_holds_its_ends, segment_covers,
};
use crate::gif_stream::{encode_gif, GifError};
#[allow(unused_imports)]
use crate::gif_stream::{frame_views, gif_stream, out_of_memory};
#[allow(unused_imports)]
use crate::line::on_thick_line;
use crate::palette::build_palette;
#[allow(unused_imports)]
use crate::palette::{black, palette_seq, PALETTE_SIZE};
#[allow(unused_imports)]
use crate::quantise::{
    block_size, kept_below, law_background_is_index_zero, law_box_colour_is_the_mean,
    law_box_of_one_pixel, law_boxes_below_each_other_add_up, law_boxes_side_by_side_add_up,
    law_palette_colour_is_found, law_same_pixels_give_the_same_indices,
    law_target_pixel_is_the_closest_to_its_box, law_uniform_box_keeps_its_colour,
};
use crate::quantise::Rgb;
#[allow(unused_imports)]
use crate::text::decimal;
use crate::text::push_decimal;

verus! {

/// How often the strip is folded.
pub const ORDER: usize = 14;

/// The width and height of the window and of the canvas.
pub const CANVAS: u32 = 1080;

/// The part of the canvas that stays free on every side.
pub const MARGIN: u32 = 90;

/// The width and height of a recorded frame.
pub const GIF_SIZE: u16 = 540;

/// Every how many ticks a frame is recorded.
pub const GIF_CAPTURE_EVERY: usize = 1;

/// How many more times the last frame is shown at the end of a recording.
pub const HOLD_FRAMES: usize = 40;

/// The state of the animation, but for the camera.
pub struct Model {
    /// The curve, centred on the origin.
    pub curve: Fitted,
    /// The number of segments of the curve.
    pub total: usize,
    /// The number of segments drawn so far.
    pub head: usize,
    /// The number of ticks since the animation was started.
    pub tick: usize,
    /// Whether frames are being recorded.
    pub recording: bool,
    /// The palette of the recording.
    pub pal: Vec<Rgb>,
    /// The canvas that frames are drawn on.
    pub soft: SoftCanvas,
    /// The recorded frames, as palette indices.
    pub frames: Vec<Vec<u8>>,
    /// Whether frames have been saved since the last restart.
    pub done: bool,
}

/// The keys that mean something to the animation.
#[derive(Clone, Copy, Debug, PartialEq, Eq, Structural)]
pub enum Key {
    R,
    G,
    S,
    Escape,
    Other,
}

/// What a key press leads to.
#[derive(Clone, Copy, Debug, PartialEq, Eq, Structural)]
pub enum KeyAction {
    /// The animation has started again.
    Restarted,
    /// The animation has started again and is being recorded.
    RecordingStarted,
    /// There is nothing to be saved.
    NothingRecorded,
    /// The recorded frames are to be saved.
    Save,
    /// The program is to end.
    Quit,
    /// The key means nothing.
    Ignored,
}

/// The canvas shows the first `n` segments of the curve on transparent black, and nothing else.
pub open spec fn shows_only(
    canvas: &SoftCanvas,
    pixels: Seq<(i32, i32)>,
    colours: Seq<Rgb>,
    hw: int,
    n: int,
) -> bool {
    &&& canvas.wf()
    &&& forall|x: int, y: int| #[trigger]
        canvas.in_frame(x, y) ==> canvas.at(x, y) == curve_pixel(
            (0u8, 0u8, 0u8, 0u8),
            pixels,
            colours,
            hw,
            n,
            x,
            y,
        )
}

/// `pts` are the points of the curve folded `order` times.
pub open spec fn are_dragon_points(pts: Seq<Point>, order: nat) -> bool {
    &&& pts.len() == turn_count(order) + 1
    &&& forall|k: int|
        0 <= k < pts.len() ==> (#[trigger] pts[k])@ == position(dragon_turns(order), k)
}

/// `curve` is the curve folded `order` times, centred on the origin.
pub open spec fn is_dragon_curve(curve: Fitted, order: nat) -> bool {
    exists|pts: Seq<Point>, b: Bounds|
        are_dragon_points(pts, order) && #[trigger] b.is_box_of(pts) && curve.centres(pts, b)
}

impl Model {
    /// What holds of the animation at all times.
    pub open spec fn wf(&self) -> bool {
        &&& self.total == turn_count(ORDER as nat)
        &&& self.curve.pts@.len() == self.total + 1
        &&& is_dragon_curve(self.curve, ORDER as nat)
        &&& self.head <= self.total
        &&& self.tick <= self.head
        &&& self.pal@.len() == PALETTE_SIZE
        &&& self.pal@[0] == black()
        &&& self.soft.wf()
        &&& self.soft.w == CANVAS
        &&& self.soft.h == CANVAS
        &&& forall|i: int|
            0 <= i < self.frames@.len() ==> (#[trigger] self.frames@[i])@.len() == GIF_SIZE
                * GIF_SIZE
    }

    /// The animation is still running.
    pub open spec fn running(&self) -> bool {
        self.head < self.total
    }

    /// A frame is to be recorded on this tick.
    pub open spec fn captures(&self) -> bool {
        self.recording && self.tick % GIF_CAPTURE_EVERY == 0
    }

    /// The recording is complete: it has run to the end of the curve and is due to be saved,
    /// also where a part of it has been saved by hand before.
    pub open spec fn finishes(&self) -> bool {
        self.recording && self.head >= self.total
    }

    /// The line of text under the picture, with the zoom given as text.
    pub open spec fn hud(&self, zoom: Seq<char>) -> Seq<char> {
        if self.done {
            "Saved dragon_curve.gif"@
        } else if self.recording {
            "REC  "@ + decimal(self.frames@.len()) + " frames  zoom "@ + zoom
                + "x  |  [S] save  [R] restart"@
        } else {
            decimal(self.head as nat) + "/"@ + decimal(self.total as nat) + " segs  zoom "@ + zoom
                + "x  |  [G] record  [R] restart  [Esc] quit"@
        }
    }
}

/// The segments drawn after one more tick: at least one more, and no more than there are.
pub open spec fn advanced(head: int, total: int, wanted: int) -> int {
    let step = if wanted < 1 {
        1
    } else {
        wanted
    };
    if head + step < total {
        head + step
    } else {
        total
    }
}

/// The animation has started again, with no frames recorded.
pub open spec fn restarted(before: Model, after: Model, recording: bool) -> bool {
    &&& after.frames@ == Seq::<Vec<u8>>::empty()
    &&& after == (Model {
        head: 0,
        tick: 0,
        recording,
        frames: after.frames,
        done: false,
        ..before
    })
}

/// What a key press does to the animation: R and G start it again, G with the recording on, and
/// the other keys leave it as it is.
pub open spec fn key_effect(before: Model, key: Key, after: Model) -> bool {
    match key {
        Key::R => restarted(before, after, false),
        Key::G => restarted(before, after, true),
        _ => after == before,
    }
}

/// What a key press leads to.
pub open spec fn key_action(m: Model, key: Key) -> KeyAction {
    match key {
        Key::R => KeyAction::Restarted,
        Key::G => KeyAction::RecordingStarted,
        Key::S => if m.frames@.len() == 0 {
            KeyAction::NothingRecorded
        } else {
            KeyAction::Save
        },
        Key::Escape => KeyAction::Quit,
        Key::Other => KeyAction::Ignored,
    }
}

/// The animation one tick later.
pub open spec fn ticked(m: Model, wanted: int) -> Model {
    if m.running() {
        Model {
            head: advanced(m.head as int, m.total as int, wanted) as usize,
            tick: (m.tick + 1) as usize,
            ..m
        }
    } else {
        m
    }
}

/// A frame has been recorded: the curve drawn so far on an empty canvas, shrunk to the size of
/// a frame.
pub open spec fn frame_captured(
    before: Model,
    after: Model,
    pixels: Seq<(i32, i32)>,
    colours: Seq<Rgb>,
    weight: int,
) -> bool {
    &&& shows_only(
        &after.soft,
        pixels,
        colours,
        brush_half_width(weight),
        before.head as int,
    )
    &&& after.frames@.len() == before.frames@.len() + 1
    &&& after.frames@.drop_last() == before.frames@
    &&& after.frames@.last()@ == after.soft.indexed(GIF_SIZE as int, GIF_SIZE as int, before.pal@)
    &&& after == (Model { soft: after.soft, frames: after.frames, ..before })
}

/// The last frame, if there is one, has been repeated at the end.
pub open spec fn last_frame_held(before: Model, after: Model) -> bool {
    let n = before.frames@.len();
    &&& after.frames@.len() == if n == 0 {
        0
    } else {
        n + HOLD_FRAMES
    }
    &&& forall|i: int| 0 <= i < n ==> #[trigger] after.frames@[i] == before.frames@[i]
    &&& forall|i: int|
        n <= i < after.frames@.len() ==> (#[trigger] after.frames@[i])@ == before.frames@.last()@
    &&& after == (Model { frames: after.frames, ..before })
}

/// The picture of the current tick has been recorded, if a frame is to be recorded.
pub open spec fn frame_taken(
    before: Model,
    after: Model,
    pixels: Seq<(i32, i32)>,
    colours: Seq<Rgb>,
    weight: int,
) -> bool {
    if before.captures() {
        frame_captured(before, after, pixels, colours, weight)
    } else {
        after == before
    }
}

/// The recording has been rounded off, if it is complete.
pub open spec fn rounded_off(before: Model, after: Model) -> bool {
    if before.finishes() {
        last_frame_held(before, after)
    } else {
        after == before
    }
}

/// The current tick has been recorded: first its picture is taken, and then a complete
/// recording is rounded off.
pub open spec fn tick_recorded(
    before: Model,
    after: Model,
    pixels: Seq<(i32, i32)>,
    colours: Seq<Rgb>,
    weight: int,
) -> bool {
    exists|taken: Model| #[trigger]
        frame_taken(before, taken, pixels, colours, weight) && rounded_off(taken, after)
}

/// Starts the animation again. Whether it is being recorded stays as it was; frames recorded
/// so far are dropped.
pub fn reset(m: &mut Model)
    requires
        old(m).wf(),
    ensures
        final(m).wf(),
        restarted(*old(m), *final(m), old(m).recording),
{
    m.head = 0;
    m.tick = 0;
    m.frames.clear();
    m.done = false;
}

/// Decides what a key press does.
pub fn key_pressed(m: &mut Model, key: Key) -> (action: KeyAction)
    requires
        old(m).wf(),
    ensures
        final(m).wf(),
        key_effect(*old(m), key, *final(m)),
        action == key_action(*old(m), key),
{
    match key {
        Key::R => {
            reset(m);
            m.recording = false;
            KeyAction::Restarted
        },
        Key::G => {
            reset(m);
            m.recording = true;
            KeyAction::RecordingStarted
        },
        Key::S => if m.frames.is_empty() {
            KeyAction::NothingRecorded
        } else {
            KeyAction::Save
        },
        Key::Escape => KeyAction::Quit,
        Key::Other => KeyAction::Ignored,
    }
}

/// Notes that the frames have been saved on request.
pub fn saved(m: &mut Model)
    requires
        old(m).wf(),
    ensures
        final(m).wf(),
        *final(m) == (Model { done: true, ..*old(m) }),
{
    m.done = true;
}

/// Notes that the frames have been saved because the recording was complete.
pub fn auto_saved(m: &mut Model)
    requires
        old(m).wf(),
    ensures
        final(m).wf(),
        *final(m) == (Model { done: true, recording: false, ..*old(m) }),
{
    m.done = true;
    m.recording = false;
}

/// Moves the drawing head on by `wanted` segments, by one at least, and counts the tick. Once
/// the whole curve is drawn nothing changes any more. Says whether the head was moved.
pub fn advance(m: &mut Model, wanted: usize) -> (moved: bool)
    requires
        old(m).wf(),
    ensures
        final(m).wf(),
        moved == old(m).running(),
        *final(m) == ticked(*old(m), wanted as int),
{
    if m.head >= m.total {
        return false;
    }
    let step: usize = if wanted < 1 {
        1
    } else {
        wanted
    };
    m.head = if step < m.total - m.head {
        m.head + step
    } else {
        m.total
    };
    m.tick = m.tick + 1;
    true
}

/// A new animation, with the hues of the gradient for its palette.
pub fn make_model(hues: &[Rgb]) -> (m: Model)
    requires
        hues@.len() == PALETTE_SIZE - 1,
    ensures
        m.wf(),
        m.head == 0,
        m.tick == 0,
        !m.recording,
        m.pal@ == seq![black()] + hues@,
        m.pal@[0] == (0u8, 0u8, 0u8),
        m.soft.buf@ == Seq::new((CANVAS * CANVAS * 4) as nat, |i: int| 0u8),
        m.frames@ == Seq::<Vec<u8>>::empty(),
        !m.done,
{
    proof {
        vstd::arithmetic::power2::lemma2_to64();
    }
    let turns: Vec<i8> = build_turns(ORDER);
    let pts: Vec<Point> = turns_to_points(turns.as_slice());
    proof {
        assert forall|i: int| 0 <= i < pts@.len() implies -16384 <= (#[trigger] pts@[i]).x <= 16384
            && -16384 <= pts@[i].y <= 16384 by {
            lemma_position_bounds(turns@, i);
            assert(pts@[i]@ == position(turns@, i));
        }
    }
    let curve: Fitted = fit_to_canvas(pts.as_slice());
    proof {
        let b = choose|b: Bounds| #[trigger] b.is_box_of(pts@) && curve.centres(pts@, b);
        assert(are_dragon_points(pts@, ORDER as nat));
        assert(b.is_box_of(pts@) && curve.centres(pts@, b));
    }
    let total: usize = if curve.pts.len() == 0 {
        0
    } else {
        curve.pts.len() - 1
    };
    let pal: Vec<Rgb> = build_palette(hues);
    let soft: SoftCanvas = SoftCanvas::new(CANVAS as usize, CANVAS as usize);
    Model {
        curve,
        total,
        head: 0,
        tick: 0,
        recording: false,
        pal,
        soft,
        frames: Vec::new(),
        done: false,
    }
}

/// Records the picture of the current tick, if a frame is to be recorded: the curve drawn so
/// far on an empty canvas, shrunk to the size of a frame. Says whether it did.
///
/// `pixels` holds the points of the curve where the camera puts them on the canvas, and
/// `colours` one colour per segment. `weight` is the half-width of the line that the camera
/// asks for.
pub fn capture_frame(
    m: &mut Model,
    pixels: &[(i32, i32)],
    colours: &[Rgb],
    weight: i32,
) -> (captured: bool)
    requires
        old(m).wf(),
        old(m).captures() ==> {
            &&& pixels@.len() == old(m).total + 1
            &&& old(m).head <= colours@.len()
            &&& curve_fits(pixels@, old(m).head as int, brush_half_width(weight as int))
        },
    ensures
        final(m).wf(),
        captured == old(m).captures(),
        captured ==> frame_captured(*old(m), *final(m), pixels@, colours@, weight as int),
        !captured ==> *final(m) == *old(m),
{
    if !(m.recording && m.tick % GIF_CAPTURE_EVERY == 0) {
        return false;
    }
    m.soft.clear();
    let ghost blank = m.soft;
    m.soft.draw_curve_with_camera(pixels, colours, m.head, weight);
    proof {
        assert forall|x: int, y: int| #[trigger] m.soft.in_frame(x, y) implies blank.at(x, y) == (
            0u8,
            0u8,
            0u8,
            0u8,
        ) && blank.reachable(x, y) by {
            crate::canvas::lemma_offset_in_buffer(blank.w as int, blank.h as int, x, y);
        }
        lemma_frame_boxes_fit(&m.soft);
    }
    let size: usize = GIF_SIZE as usize;
    let indexed: Vec<u8> = m.soft.to_indexed(size, size, m.pal.as_slice());
    m.frames.push(indexed);
    assert(m.frames@.drop_last() =~= old(m).frames@);
    true
}

/// One pixel of a frame stands for a box of two by two pixels of the canvas.
proof fn lemma_frame_block_size()
    ensures
        block_size(CANVAS as int, GIF_SIZE as int) == 2,
{
    let (w, t) = (CANVAS as int, GIF_SIZE as int);
    assert(w / t == 2) by (nonlinear_arith)
        requires
            w == 1080,
            t == 540,
    ;
}

/// On a canvas of the size of the window every box that a frame averages can be summed up.
proof fn lemma_frame_boxes_fit(canvas: &SoftCanvas)
    requires
        canvas.w == CANVAS,
        canvas.h == CANVAS,
    ensures
        canvas.boxes_fit(GIF_SIZE as int, GIF_SIZE as int),
{
    let b = block_size(CANVAS as int, GIF_SIZE as int);
    lemma_frame_block_size();
    assert forall|tx: int, ty: int|
        0 <= tx < GIF_SIZE && 0 <= ty < GIF_SIZE implies #[trigger] canvas.box_fits(
        tx * b,
        ty * b,
        b,
        b,
    ) by {
        canvas.lemma_box_sum_bounds(0, tx * b, ty * b, b, b, b);
        canvas.lemma_box_sum_bounds(1, tx * b, ty * b, b, b, b);
        canvas.lemma_box_sum_bounds(2, tx * b, ty * b, b, b, b);
    }
}

/// Once a recording is complete, repeats its last frame at the end, so that it is seen for a
/// while, and says that the frames are to be saved.
pub fn finish_recording(m: &mut Model) -> (save: bool)
    requires
        old(m).wf(),
    ensures
        final(m).wf(),
        save == old(m).finishes(),
        save ==> last_frame_held(*old(m), *final(m)),
        !save ==> *final(m) == *old(m),
{
    if !(m.recording && m.head >= m.total) {
        return false;
    }
    let n: usize = m.frames.len();
    if n > 0 {
        let mut k: usize = 0;
        while k < HOLD_FRAMES
            invariant
                0 < n,
                n == old(m).frames@.len(),
                k <= HOLD_FRAMES,
                old(m).wf(),
                m.frames@.len() == n + k,
                forall|i: int| 0 <= i < n ==> #[trigger] m.frames@[i] == old(m).frames@[i],
                forall|i: int|
                    n <= i < m.frames@.len() ==> (#[trigger] m.frames@[i])@
                        == old(m).frames@.last()@,
                *m == (Model { frames: m.frames, ..*old(m) }),
            decreases HOLD_FRAMES - k,
        {
            let last: Vec<u8> = m.frames[n - 1].clone();
            assert(last@ =~= old(m).frames@.last()@);
            m.frames.push(last);
            k = k + 1;
        }
    }
    assert forall|i: int| 0 <= i < m.frames@.len() implies (#[trigger] m.frames@[i])@.len()
        == GIF_SIZE * GIF_SIZE by {
        if i < n {
            assert(m.frames@[i] == old(m).frames@[i]);
        } else {
            assert(m.frames@[i]@ == old(m).frames@[n - 1]@);
        }
    }
    true
}

/// Records the current tick: takes its picture, if a frame is to be recorded, and rounds the
/// recording off, if it is complete. Says whether the frames are to be saved.
pub fn record_tick(
    m: &mut Model,
    pixels: &[(i32, i32)],
    colours: &[Rgb],
    weight: i32,
) -> (save: bool)
    requires
        old(m).wf(),
        old(m).captures() ==> {
            &&& pixels@.len() == old(m).total + 1
            &&& old(m).head <= colours@.len()
            &&& curve_fits(pixels@, old(m).head as int, brush_half_width(weight as int))
        },
    ensures
        final(m).wf(),
        save == old(m).finishes(),
        tick_recorded(*old(m), *final(m), pixels@, colours@, weight as int),
{
    capture_frame(m, pixels, colours, weight);
    let ghost taken = *m;
    assert(frame_taken(*old(m), taken, pixels@, colours@, weight as int));
    finish_recording(m)
}

/// The line of text under the picture. `zoom` is the zoom of the camera as it is to be shown.
pub fn hud_text(m: &Model, zoom: &str) -> (text: String)
    ensures
        text@ == m.hud(zoom@),
{
    let mut text: String = String::new();
    if m.done {
        text.append("Saved dragon_curve.gif");
    } else if m.recording {
        text.append("REC  ");
        push_decimal(&mut text, m.frames.len());
        text.append(" frames  zoom ");
        text.append(zoom);
        text.append("x  |  [S] save  [R] restart");
    } else {
        push_decimal(&mut text, m.head);
        text.append("/");
        push_decimal(&mut text, m.total);
        text.append(" segs  zoom ");
        text.append(zoom);
        text.append("x  |  [G] record  [R] restart  [Esc] quit");
    }
    assert(text@ =~= m.hud(zoom@));
    text
}

/// Encodes the recorded frames. Only running out of memory can make that fail.
pub fn encode_recording(m: &Model) -> (r: Result<Vec<u8>, GifError>)
    requires
        m.wf(),
    ensures
        r is Ok ==> r->Ok_0@ == gif_stream(frame_views(m.frames@), palette_seq(m.pal@), GIF_SIZE),
        r is Err ==> out_of_memory(r->Err_0),
        m.frames@.len() == 0 ==> r is Ok,
{
    encode_gif(m.frames.as_slice(), m.pal.as_slice(), GIF_SIZE)
}

/// The number of segments drawn after some ticks, each with its wish for new segments.
pub open spec fn head_after(head: int, total: int, wishes: Seq<int>) -> int
    decreases wishes.len(),
{
    if wishes.len() == 0 {
        head
    } else {
        advanced(head_after(head, total, wishes.drop_last()), total, wishes.last())
    }
}

proof fn lemma_head_after(head: int, total: int, wishes: Seq<int>)
    requires
        0 <= head <= total,
    ensures
        head <= head_after(head, total, wishes) <= total,
        head_after(head, total, wishes) >= head + wishes.len() || head_after(head, total, wishes)
            == total,
    decreases wishes.len(),
{
    if wishes.len() > 0 {
        lemma_head_after(head, total, wishes.drop_last());
    }
}

/// The animation ends: after as many ticks as there are segments left, whatever each of them
/// asks for, the whole curve is drawn.
pub proof fn law_animation_ends(head: int, total: int, wishes: Seq<int>)
    requires
        0 <= head <= total,
        wishes.len() >= total - head,
    ensures
        head_after(head, total, wishes) == total,
{
    lemma_head_after(head, total, wishes);
}

/// While the animation runs, every tick draws at least one more segment; and once it has ended,
/// ticks change nothing.
pub proof fn law_ticks_make_progress(m: Model, wanted: int)
    requires
        m.wf(),
    ensures
        m.running() ==> m.head < ticked(m, wanted).head <= m.total,
        !m.running() ==> ticked(m, wanted) == m,
{
}

/// The curve has one segment less than 2 to the power of its fold depth.
pub proof fn law_number_of_segments(m: Model)
    requires
        m.wf(),
    ensures
        m.total == vstd::arithmetic::power2::pow2(ORDER as nat) - 1,
        m.curve.pts@.len() == vstd::arithmetic::power2::pow2(ORDER as nat),
{
    vstd::arithmetic::power2::lemma2_to64();
}

/// A recording that has just been started holds nothing that could be saved.
pub proof fn law_new_recording_is_empty(before: Model, after: Model)
    requires
        key_effect(before, Key::G, after),
    ensures
        after.recording,
        key_action(after, Key::S) == KeyAction::NothingRecorded,
{
}

/// After R nothing is being recorded, nothing can be saved, and no frame is taken.
pub proof fn law_restart_drops_the_recording(before: Model, after: Model)
    requires
        key_effect(before, Key::R, after),
    ensures
        key_action(after, Key::S) == KeyAction::NothingRecorded,
        !after.captures(),
        !after.finishes(),
{
}

/// Both restarts go back to the very beginning of the same curve.
pub proof fn law_restart_keeps_the_curve(before: Model, key: Key, after: Model)
    requires
        before.wf(),
        key == Key::R || key == Key::G,
        key_effect(before, key, after),
    ensures
        after.wf(),
        after.head == 0,
        after.tick == 0,
        after.curve == before.curve,
        after.total == before.total,
        after.running(),
{
    vstd::arithmetic::power2::lemma2_to64();
}

/// A recorded frame can be saved.
pub proof fn law_captured_frame_can_be_saved(
    before: Model,
    after: Model,
    pixels: Seq<(i32, i32)>,
    colours: Seq<Rgb>,
    weight: int,
)
    requires
        frame_captured(before, after, pixels, colours, weight),
    ensures
        key_action(after, Key::S) == KeyAction::Save,
{
}

/// While a recording runs it takes one frame per tick: a recording with as many frames as ticks
/// still has that after the next tick.
pub proof fn law_one_frame_per_tick(
    m: Model,
    wanted: int,
    after: Model,
    pixels: Seq<(i32, i32)>,
    colours: Seq<Rgb>,
    weight: int,
)
    requires
        m.wf(),
        m.recording,
        m.running(),
        m.frames@.len() == m.tick,
        frame_captured(ticked(m, wanted), after, pixels, colours, weight),
    ensures
        ticked(m, wanted).captures(),
        after.recording,
        after.frames@.len() == after.tick,
{
}

/// A complete recording is saved by itself, with its last frame held at the end, and only once.
pub proof fn law_complete_recording_is_saved_once(m: Model, held: Model)
    requires
        m.wf(),
        m.recording,
        !m.running(),
        m.frames@.len() == m.tick,
        m.tick > 0,
        last_frame_held(m, held),
    ensures
        m.finishes(),
        held.frames@.len() == m.tick + HOLD_FRAMES,
        held.frames@.last()@ == m.frames@.last()@,
        !(Model { done: true, recording: false, ..held }).finishes(),
{
}

/// A frame shows the curve as the camera sees it and no trace of any earlier frame: two frames
/// taken with the same camera at the same point of the curve are the same.
pub proof fn law_frames_leave_no_trace(
    a: Model,
    a_after: Model,
    b: Model,
    b_after: Model,
    pixels: Seq<(i32, i32)>,
    colours: Seq<Rgb>,
    weight: int,
)
    requires
        a.wf(),
        b.wf(),
        a.head == b.head,
        a.pal@ == b.pal@,
        a_after.wf(),
        b_after.wf(),
        frame_captured(a, a_after, pixels, colours, weight),
        frame_captured(b, b_after, pixels, colours, weight),
    ensures
        a_after.frames@.last()@ == b_after.frames@.last()@,
{
    assert forall|x: int, y: int| #[trigger] a_after.soft.in_frame(x, y) implies a_after.soft.at(
        x,
        y,
    ) == b_after.soft.at(x, y) by {
        assert(b_after.soft.in_frame(x, y));
    }
    law_same_pixels_give_the_same_indices(
        &a_after.soft,
        &b_after.soft,
        GIF_SIZE as int,
        GIF_SIZE as int,
        a.pal@,
    );
}

/// The animation, saved by hand or not.
pub open spec fn perhaps_saved(m: Model, by_hand: bool) -> Model {
    if by_hand {
        Model { done: true, ..m }
    } else {
        m
    }
}

/// One tick of a recording, with whatever camera: perhaps the frames so far are saved by hand,
/// the head moves on, and the tick is recorded.
pub open spec fn recording_step(before: Model, after: Model) -> bool {
    exists|
        by_hand: bool,
        wanted: int,
        pixels: Seq<(i32, i32)>,
        colours: Seq<Rgb>,
        weight: int,
    | #[trigger]
        tick_recorded(
            ticked(perhaps_saved(before, by_hand), wanted),
            after,
            pixels,
            colours,
            weight,
        )
}

/// The states of a recording that was begun with G and left to run: each but the last is still
/// running, and each is one tick after the one before it.
pub open spec fn is_recording(trace: Seq<Model>) -> bool {
    &&& trace.len() > 0
    &&& trace[0].wf()
    &&& restarted(trace[0], trace[0], true)
    &&& forall|j: int|
        0 <= j < trace.len() - 1 ==> (#[trigger] trace[j]).running() && recording_step(
            trace[j],
            trace[j + 1],
        )
}

proof fn lemma_recording_so_far(trace: Seq<Model>, i: int)
    requires
        is_recording(trace),
        0 <= i < trace.len(),
    ensures
        trace[i].recording,
        trace[i].total == trace[0].total,
        trace[i].tick == i,
        trace[i].running() ==> trace[i].frames@.len() == i,
        !trace[i].running() ==> trace[i].frames@.len() == i + HOLD_FRAMES,
        i <= trace[i].head <= trace[i].total,
    decreases i,
{
    vstd::arithmetic::power2::lemma2_to64();
    if i > 0 {
        lemma_recording_so_far(trace, i - 1);
        let a = trace[i - 1];
        let b = trace[i];
        assert(a.running() && recording_step(a, b));
        let (by_hand, wanted, pixels, colours, weight) = choose|
            by_hand: bool,
            wanted: int,
            pixels: Seq<(i32, i32)>,
            colours: Seq<Rgb>,
            weight: int,
        | #[trigger]
            tick_recorded(
                ticked(perhaps_saved(a, by_hand), wanted),
                b,
                pixels,
                colours,
                weight,
            );
        let t = ticked(perhaps_saved(a, by_hand), wanted);
        let taken = choose|taken: Model| #[trigger]
            frame_taken(t, taken, pixels, colours, weight) && rounded_off(taken, b);
        assert(t.captures());
        assert(frame_captured(t, taken, pixels, colours, weight));
    }
}

/// A recording completes by itself. Begun with G and left to run, it takes one frame per tick
/// and at most as many ticks as the curve has segments. Once the curve is drawn, the recording
/// is due to be saved, with its last frame held at the end, whether or not a part of it has
/// been saved by hand on the way.
pub proof fn law_recording_completes(trace: Seq<Model>)
    requires
        is_recording(trace),
    ensures
        trace.len() <= trace[0].total + 1,
        trace.last().tick == trace.len() - 1,
        trace.last().running() ==> trace.last().frames@.len() == trace.len() - 1,
        !trace.last().running() ==> trace.last().finishes() && trace.last().frames@.len()
            == trace.len() - 1 + HOLD_FRAMES,
{
    lemma_recording_so_far(trace, trace.len() - 1);
}

/// Saving by hand keeps neither the recording from going on nor its end from being saved.
pub proof fn law_saving_by_hand_keeps_the_recording(m: Model, wanted: int)
    ensures
        ({
            let s = Model { done: true, ..m };
            &&& s.captures() == m.captures()
            &&& s.finishes() == m.finishes()
            &&& ticked(s, wanted).captures() == ticked(m, wanted).captures()
            &&& ticked(s, wanted).finishes() == ticked(m, wanted).finishes()
        }),
{
}

/// Where the curve is not drawn, a frame shows the background: a pixel of the frame has index
/// zero where no segment covers any of the four canvas pixels that it stands for.
pub proof fn law_undrawn_pixels_are_background(
    before: Model,
    after: Model,
    pixels: Seq<(i32, i32)>,
    colours: Seq<Rgb>,
    weight: int,
    tx: int,
    ty: int,
)
    requires
        before.wf(),
        after.wf(),
        frame_captured(before, after, pixels, colours, weight),
        0 <= tx < GIF_SIZE,
        0 <= ty < GIF_SIZE,
        forall|s: int, x: int, y: int|
            0 <= s < before.head && 2 * tx <= x <= 2 * tx + 1 && 2 * ty <= y <= 2 * ty + 1
                ==> !#[trigger] segment_covers(pixels, s, brush_half_width(weight), x, y),
    ensures
        after.frames@.last()@[ty * GIF_SIZE + tx] == 0,
{
    let c = after.soft;
    let size = GIF_SIZE as int;
    let hw = brush_half_width(weight);
    lemma_frame_block_size();
    assert forall|i: int, j: int| 0 <= i < 2 && 0 <= j < 2 implies {
        let p = #[trigger] c.at(
            kept_below(tx * 2 + i, c.w as int),
            kept_below(ty * 2 + j, c.h as int),
        );
        (p.0, p.1, p.2) == black()
    } by {
        let (x, y) = (tx * 2 + i, ty * 2 + j);
        assert(kept_below(x, c.w as int) == x && kept_below(y, c.h as int) == y);
        assert(c.in_frame(x, y));
        law_uncovered_pixel_is_kept(
            (0u8, 0u8, 0u8, 0u8),
            pixels,
            colours,
            hw,
            before.head as int,
            x,
            y,
        );
    }
    assert(c.box_is_uniform(black(), tx * 2, ty * 2, 2, 2));
    law_background_is_index_zero(&c, size, size, before.pal@, tx, ty);
    vstd::arithmetic::div_mod::lemma_fundamental_div_mod_converse(ty * size + tx, size, ty, tx);
    assert(0 <= ty * size + tx < size * size) by (nonlinear_arith)
        requires
            0 <= tx < size,
            0 <= ty < size,
    ;
}

/// What an animation is made of: the 16383 segments of the curve, a palette of 256 colours that
/// begins with black, a canvas of 1080 by 1080 pixels and frames of 540 by 540 indices.
pub proof fn law_parts_of_the_animation(m: Model, i: int)
    requires
        m.wf(),
    ensures
        m.total == 16383,
        m.curve.pts@.len() == 16384,
        m.head <= m.total,
        m.pal@.len() == 256,
        m.pal@[0] == (0u8, 0u8, 0u8),
        m.soft.w == 1080,
        m.soft.h == 1080,
        m.soft.buf@.len() == 1080 * 1080 * 4,
        0 <= i < m.frames@.len() ==> m.frames@[i]@.len() == 540 * 540,
{
    vstd::arithmetic::power2::lemma2_to64();
}

/// The curve of the animation: every step is two half units long, the first one runs along the
/// x axis, and each further one is the one before it, turned left or right as the folded strip
/// says.
pub proof fn law_curve_of_the_animation(m: Model, k: int)
    requires
        m.wf(),
        1 <= k < m.total,
    ensures
        ({
            let c = m.curve.pts@;
            let (dx, dy) = (c[k].x - c[k - 1].x, c[k].y - c[k - 1].y);
            &&& (c[1].x - c[0].x, c[1].y - c[0].y) == (2int, 0int)
            &&& (c[k + 1].x - c[k].x, c[k + 1].y - c[k].y) == if dragon_turns(14)[k - 1] == 1 {
                (-dy, dx)
            } else {
                (dy, -dx)
            }
        }),
{
    let (pts, b) = choose|pts: Seq<Point>, b: Bounds|
        are_dragon_points(pts, ORDER as nat) && #[trigger] b.is_box_of(pts) && m.curve.centres(
            pts,
            b,
        );
    let t = dragon_turns(ORDER as nat);
    law_each_step_is_the_last_one_turned(t, k);
    assert(pts[0]@ == position(t, 0) && pts[1]@ == position(t, 1));
    assert(pts[k - 1]@ == position(t, k - 1));
    assert(pts[k]@ == position(t, k));
    assert(pts[k + 1]@ == position(t, k + 1));
    law_fitting_moves_the_points_as_a_whole(m.curve, pts, b, 1, 0);
    law_fitting_moves_the_points_as_a_whole(m.curve, pts, b, k, k - 1);
    law_fitting_moves_the_points_as_a_whole(m.curve, pts, b, k + 1, k);
}

/// The curve of the animation is centred: whatever point one takes, there is one at least as far
/// out on the other side, along either axis. The span is how far out the furthest points are.
pub proof fn law_curve_of_the_animation_is_centred(m: Model, i: int)
    requires
        m.wf(),
        0 <= i < m.curve.pts@.len(),
    ensures
        ({
            let c = m.curve.pts@;
            &&& exists|j: int| 0 <= j < c.len() && (#[trigger] c[j]).x <= -c[i].x
            &&& exists|j: int| 0 <= j < c.len() && (#[trigger] c[j]).x >= -c[i].x
            &&& exists|j: int| 0 <= j < c.len() && (#[trigger] c[j]).y <= -c[i].y
            &&& exists|j: int| 0 <= j < c.len() && (#[trigger] c[j]).y >= -c[i].y
            &&& -m.curve.span <= c[i].x <= m.curve.span
            &&& -m.curve.span <= c[i].y <= m.curve.span
            &&& exists|j: int|
                0 <= j < c.len() && ((#[trigger] c[j]).x == m.curve.span || c[j].y == m.curve.span)
        }),
{
    let (pts, b) = choose|pts: Seq<Point>, b: Bounds|
        are_dragon_points(pts, ORDER as nat) && #[trigger] b.is_box_of(pts) && m.curve.centres(
            pts,
            b,
        );
    law_fitted_curve_is_centred(m.curve, pts, b, i);
    law_fitted_curve_keeps_the_margin(m.curve, pts, b, 1, i);
    law_fitted_curve_reaches_the_margin(m.curve, pts, b);
}

/// A tick draws exactly as many segments as it is asked for, as long as there are that many left;
/// all that are left where it is asked for more; and one where it is asked for none. It counts as
/// one tick and changes nothing else. Once the whole curve is drawn, nothing changes.
pub proof fn law_tick_draws_what_it_is_asked_for(m: Model, wanted: int)
    requires
        m.wf(),
    ensures
        m.running() <==> m.head < m.total,
        m.head < m.total ==> {
            let t = ticked(m, wanted);
            &&& 1 <= wanted <= m.total - m.head ==> t.head == m.head + wanted
            &&& m.total - m.head < wanted ==> t.head == m.total
            &&& wanted < 1 ==> t.head == m.head + 1
            &&& t.tick == m.tick + 1
            &&& t == (Model { head: t.head, tick: t.tick, ..m })
        },
        m.head == m.total ==> ticked(m, wanted) == m,
{
}

/// Two ticks draw as many segments as one that is asked for both numbers at once.
pub proof fn law_ticks_add_up(m: Model, a: int, b: int)
    requires
        m.wf(),
        m.head < m.total,
        1 <= a,
        1 <= b,
    ensures
        ticked(ticked(m, a), b).head == ticked(m, a + b).head,
{
}

/// R and G go back to the beginning: nothing is drawn, no tick is counted, no frame is held and
/// none is marked as saved. G records from then on, R does not. The curve, the palette and the
/// canvas stay.
pub proof fn law_restart_keys(before: Model, key: Key, after: Model)
    requires
        key == Key::R || key == Key::G,
        key_effect(before, key, after),
    ensures
        after.head == 0,
        after.tick == 0,
        after.frames@.len() == 0,
        !after.done,
        after.recording == (key == Key::G),
        after.curve == before.curve,
        after.total == before.total,
        after.pal == before.pal,
        after.soft == before.soft,
        key_action(before, Key::R) == KeyAction::Restarted,
        key_action(before, Key::G) == KeyAction::RecordingStarted,
{
}

/// Starting again by itself leaves it open whether the animation is being recorded, and resets
/// the rest.
pub proof fn law_restart_resets_everything(before: Model, after: Model, recording: bool)
    requires
        restarted(before, after, recording),
    ensures
        after.head == 0,
        after.tick == 0,
        after.frames@.len() == 0,
        !after.done,
        after.recording == recording,
        after.curve == before.curve,
        after.total == before.total,
        after.pal == before.pal,
        after.soft == before.soft,
{
}

/// No other key changes the animation. S asks for the frames to be saved exactly where there are
/// some, and Esc for the program to end.
pub proof fn law_other_keys(before: Model, key: Key, after: Model)
    requires
        key != Key::R,
        key != Key::G,
        key_effect(before, key, after),
    ensures
        after == before,
        key == Key::S && before.frames@.len() > 0 ==> key_action(before, key) == KeyAction::Save,
        key == Key::S && before.frames@.len() == 0 ==> key_action(before, key)
            == KeyAction::NothingRecorded,
        key == Key::Escape ==> key_action(before, key) == KeyAction::Quit,
        key == Key::Other ==> key_action(before, key) == KeyAction::Ignored,
{
}

/// Every tick of a recording is recorded, and a recording is complete where the whole curve is
/// drawn.
pub proof fn law_recordings_miss_no_tick(m: Model)
    requires
        m.wf(),
    ensures
        m.captures() <==> m.recording,
        m.finishes() <==> m.recording && m.head == m.total,
{
    assert(m.tick % GIF_CAPTURE_EVERY == 0) by (nonlinear_arith)
        requires
            GIF_CAPTURE_EVERY == 1,
    ;
}

/// A captured frame shows every segment drawn so far. Wherever the brush touches the canvas on
/// the way from one point to the next, the pixel has the opaque colour of that segment, unless a
/// later segment that is drawn so far lies over it.
pub proof fn law_captured_frame_shows_every_segment(
    before: Model,
    after: Model,
    pixels: Seq<(i32, i32)>,
    colours: Seq<Rgb>,
    weight: int,
    s: int,
    x: int,
    y: int,
)
    requires
        frame_captured(before, after, pixels, colours, weight),
        after.soft.w == 1080,
        after.soft.h == 1080,
        0 <= s < before.head,
        0 <= x < 1080,
        0 <= y < 1080,
        on_thick_line(
            pixels[s].0 as int,
            pixels[s].1 as int,
            pixels[s + 1].0 as int,
            pixels[s + 1].1 as int,
            brush_half_width(weight),
            x,
            y,
        ),
        forall|j: int|
            s < j < before.head ==> !on_thick_line(
                (#[trigger] pixels[j]).0 as int,
                pixels[j].1 as int,
                pixels[j + 1].0 as int,
                pixels[j + 1].1 as int,
                brush_half_width(weight),
                x,
                y,
            ),
    ensures
        ({
            let o = (y * 1080 + x) * 4;
            let b = after.soft.buf@;
            (b[o], b[o + 1], b[o + 2]) == colours[s] && b[o + 3] == 255
        }),
{
    let hw = brush_half_width(weight);
    assert(after.soft.in_frame(x, y));
    assert forall|j: int| s < j < before.head implies !#[trigger] segment_covers(
        pixels,
        j,
        hw,
        x,
        y,
    ) by {
        let p = pixels[j];
    }
    law_last_segment_is_on_top(
        (0u8, 0u8, 0u8, 0u8),
        pixels,
        colours,
        hw,
        before.head as int,
        s,
        x,
        y,
    );
}

/// The drawing head is on the picture: where it is on the canvas, the point that the curve has
/// reached has the opaque colour of the newest segment.
pub proof fn law_drawing_head_is_on_the_picture(
    before: Model,
    after: Model,
    pixels: Seq<(i32, i32)>,
    colours: Seq<Rgb>,
    weight: int,
)
    requires
        frame_captured(before, after, pixels, colours, weight),
        after.soft.w == 1080,
        after.soft.h == 1080,
        0 < before.head,
        0 <= pixels[before.head as int].0 < 1080,
        0 <= pixels[before.head as int].1 < 1080,
    ensures
        ({
            let n = before.head as int;
            let o = (pixels[n].1 * 1080 + pixels[n].0) * 4;
            let b = after.soft.buf@;
            (b[o], b[o + 1], b[o + 2]) == colours[n - 1] && b[o + 3] == 255
        }),
{
    let n = before.head as int;
    let (p, q) = (pixels[n - 1], pixels[n]);
    lemma_thick_line_holds_its_ends(
        p.0 as int,
        p.1 as int,
        q.0 as int,
        q.1 as int,
        brush_half_width(weight),
    );
    law_captured_frame_shows_every_segment(
        before,
        after,
        pixels,
        colours,
        weight,
        n - 1,
        q.0 as int,
        q.1 as int,
    );
}

/// A captured frame shows nothing else: where no segment drawn so far touches the canvas, the
/// pixel is transparent black, whatever was there before.
pub proof fn law_captured_frame_is_blank_beside_the_curve(
    before: Model,
    after: Model,
    pixels: Seq<(i32, i32)>,
    colours: Seq<Rgb>,
    weight: int,
    x: int,
    y: int,
)
    requires
        frame_captured(before, after, pixels, colours, weight),
        after.soft.w == 1080,
        after.soft.h == 1080,
        0 <= x < 1080,
        0 <= y < 1080,
        forall|j: int|
            0 <= j < before.head ==> !on_thick_line(
                (#[trigger] pixels[j]).0 as int,
                pixels[j].1 as int,
                pixels[j + 1].0 as int,
                pixels[j + 1].1 as int,
                brush_half_width(weight),
                x,
                y,
            ),
    ensures
        ({
            let o = (y * 1080 + x) * 4;
            let b = after.soft.buf@;
            b[o] == 0 && b[o + 1] == 0 && b[o + 2] == 0 && b[o + 3] == 0
        }),
{
    let hw = brush_half_width(weight);
    assert(after.soft.in_frame(x, y));
    assert forall|j: int| 0 <= j < before.head implies !#[trigger] segment_covers(
        pixels,
        j,
        hw,
        x,
        y,
    ) by {
        let p = pixels[j];
    }
    law_uncovered_pixel_is_kept(
        (0u8, 0u8, 0u8, 0u8),
        pixels,
        colours,
        hw,
        before.head as int,
        x,
        y,
    );
}

/// Capturing a frame puts one frame behind those recorded before and changes nothing but the
/// frames and the canvas.
pub proof fn law_captured_frame_is_the_last(
    before: Model,
    after: Model,
    pixels: Seq<(i32, i32)>,
    colours: Seq<Rgb>,
    weight: int,
    i: int,
)
    requires
        frame_captured(before, after, pixels, colours, weight),
    ensures
        after.frames@.len() == before.frames@.len() + 1,
        0 <= i < before.frames@.len() ==> after.frames@[i] == before.frames@[i],
        after.head == before.head,
        after.tick == before.tick,
        after.total == before.total,
        after.curve == before.curve,
        after.pal == before.pal,
        after.recording == before.recording,
        after.done == before.done,
{
    if 0 <= i < before.frames@.len() {
        assert(after.frames@.drop_last()[i] == after.frames@[i]);
    }
}

/// The sum over a box of two by two pixels inside the canvas.
proof fn lemma_sum_of_four(canvas: &SoftCanvas, k: int, x: int, y: int)
    requires
        0 <= x,
        0 <= y,
        x + 1 < canvas.w,
        y + 1 < canvas.h,
    ensures
        ({
            let o = (y * canvas.w + x) * 4 + k;
            let u = ((y + 1) * canvas.w + x) * 4 + k;
            let b = canvas.buf@;
            canvas.box_sum(k, x, y, 2, 2) == b[o] + b[o + 4] + b[u] + b[u + 4]
        }),
{
    law_box_of_one_pixel(canvas, k, x, y);
    law_box_of_one_pixel(canvas, k, x + 1, y);
    law_box_of_one_pixel(canvas, k, x, y + 1);
    law_box_of_one_pixel(canvas, k, x + 1, y + 1);
    law_boxes_side_by_side_add_up(canvas, k, x, y, 1, 1, 1);
    law_boxes_side_by_side_add_up(canvas, k, x, y + 1, 1, 1, 1);
    law_boxes_below_each_other_add_up(canvas, k, x, y, 2, 1, 1);
}

/// One pixel of a frame stands for four pixels of the canvas: it holds the position of the
/// palette entry with the least squared distance from their average, each channel rounded down,
/// and of the first such entry where there are several.
pub proof fn law_frame_pixel_stands_for_four(
    before: Model,
    after: Model,
    pixels: Seq<(i32, i32)>,
    colours: Seq<Rgb>,
    weight: int,
    tx: int,
    ty: int,
    c: Rgb,
    i: int,
)
    requires
        frame_captured(before, after, pixels, colours, weight),
        after.soft.w == 1080,
        after.soft.h == 1080,
        before.pal@.len() == 256,
        0 <= tx < 540,
        0 <= ty < 540,
        ({
            let o = (2 * ty * 1080 + 2 * tx) * 4;
            let u = o + 4320;
            let b = after.soft.buf@;
            &&& 4 * c.0 <= b[o] + b[o + 4] + b[u] + b[u + 4] < 4 * c.0 + 4
            &&& 4 * c.1 <= b[o + 1] + b[o + 5] + b[u + 1] + b[u + 5] < 4 * c.1 + 4
            &&& 4 * c.2 <= b[o + 2] + b[o + 6] + b[u + 2] + b[u + 6] < 4 * c.2 + 4
        }),
        0 <= i < 256,
        forall|j: int|
            0 <= j < 256 ==> {
                let (p, q) = (before.pal@[i], #[trigger] before.pal@[j]);
                let of_p = (c.0 - p.0) * (c.0 - p.0) + (c.1 - p.1) * (c.1 - p.1) + (c.2 - p.2) * (
                c.2 - p.2);
                let of_q = (c.0 - q.0) * (c.0 - q.0) + (c.1 - q.1) * (c.1 - q.1) + (c.2 - q.2) * (
                c.2 - q.2);
                of_p <= of_q && (j < i ==> of_p < of_q)
            },
    ensures
        after.frames@.last()@.len() == 540 * 540,
        after.frames@.last()@[ty * 540 + tx] == i,
{
    let canvas = after.soft;
    let (x, y) = (tx * 2, ty * 2);
    lemma_sum_of_four(&canvas, 0, x, y);
    lemma_sum_of_four(&canvas, 1, x, y);
    lemma_sum_of_four(&canvas, 2, x, y);
    law_box_colour_is_the_mean(&canvas, x, y, 2, 2);
    assert(canvas.box_colour(x, y, 2, 2) == c);
    law_target_pixel_is_the_closest_to_its_box(
        &canvas,
        540,
        540,
        before.pal@,
        tx,
        ty,
        2,
        2,
        i,
    );
}

/// What is drawn is seen in the frame: where a segment covers the four canvas pixels that a
/// pixel of the frame stands for, and no later segment touches them, that pixel has the index of
/// the colour of the segment, if the palette holds that colour.
pub proof fn law_drawn_pixels_have_their_colour(
    before: Model,
    after: Model,
    pixels: Seq<(i32, i32)>,
    colours: Seq<Rgb>,
    weight: int,
    s: int,
    tx: int,
    ty: int,
    i: int,
)
    requires
        before.wf(),
        frame_captured(before, after, pixels, colours, weight),
        after.soft.w == 1080,
        after.soft.h == 1080,
        0 <= s < before.head,
        0 <= tx < 540,
        0 <= ty < 540,
        forall|x: int, y: int|
            2 * tx <= x <= 2 * tx + 1 && 2 * ty <= y <= 2 * ty + 1 ==> #[trigger] on_thick_line(
                pixels[s].0 as int,
                pixels[s].1 as int,
                pixels[s + 1].0 as int,
                pixels[s + 1].1 as int,
                brush_half_width(weight),
                x,
                y,
            ),
        forall|j: int, x: int, y: int|
            s < j < before.head && 2 * tx <= x <= 2 * tx + 1 && 2 * ty <= y <= 2 * ty + 1
                ==> !#[trigger] segment_covers(pixels, j, brush_half_width(weight), x, y),
        0 <= i < 256,
        before.pal@[i] == colours[s],
        forall|j: int| 0 <= j < i ==> #[trigger] before.pal@[j] != colours[s],
    ensures
        after.frames@.last()@[ty * 540 + tx] == i,
{
    let c = after.soft;
    let hw = brush_half_width(weight);
    let size = GIF_SIZE as int;
    lemma_frame_block_size();
    assert forall|a: int, b: int| 0 <= a < 2 && 0 <= b < 2 implies {
        let p = #[trigger] c.at(
            kept_below(tx * 2 + a, c.w as int),
            kept_below(ty * 2 + b, c.h as int),
        );
        (p.0, p.1, p.2) == colours[s]
    } by {
        let (x, y) = (tx * 2 + a, ty * 2 + b);
        assert(kept_below(x, c.w as int) == x && kept_below(y, c.h as int) == y);
        assert(c.in_frame(x, y));
        assert(on_thick_line(
            pixels[s].0 as int,
            pixels[s].1 as int,
            pixels[s + 1].0 as int,
            pixels[s + 1].1 as int,
            hw,
            x,
            y,
        ));
        law_last_segment_is_on_top(
            (0u8, 0u8, 0u8, 0u8),
            pixels,
            colours,
            hw,
            before.head as int,
            s,
            x,
            y,
        );
    }
    assert(c.box_is_uniform(colours[s], tx * 2, ty * 2, 2, 2));
    law_uniform_box_keeps_its_colour(&c, colours[s], tx * 2, ty * 2, 2, 2);
    law_palette_colour_is_found(before.pal@, i);
    vstd::arithmetic::div_mod::lemma_fundamental_div_mod_converse(ty * size + tx, size, ty, tx);
    assert(0 <= ty * size + tx < size * size) by (nonlinear_arith)
        requires
            0 <= tx < size,
            0 <= ty < size,
    ;
}

/// A complete recording is held at its end: its frames stay, and its last one follows 40 times
/// more. Where nothing was recorded nothing is held. Nothing but the frames changes.
pub proof fn law_last_frame_is_held(before: Model, after: Model, i: int)
    requires
        last_frame_held(before, after),
    ensures
        before.frames@.len() == 0 ==> after.frames@.len() == 0,
        before.frames@.len() > 0 ==> after.frames@.len() == before.frames@.len() + 40,
        0 <= i < before.frames@.len() ==> after.frames@[i] == before.frames@[i],
        before.frames@.len() <= i < after.frames@.len() ==> after.frames@[i]@
            == before.frames@[before.frames@.len() - 1]@,
        after == (Model { frames: after.frames, ..before }),
{
}

/// What recording a tick does. Outside of a recording nothing changes. Within one, a frame of
/// the current picture is put behind those recorded before; once the whole curve is drawn, it is
/// there 41 times. Nothing but the frames and the canvas changes.
pub proof fn law_recorded_tick(
    before: Model,
    after: Model,
    pixels: Seq<(i32, i32)>,
    colours: Seq<Rgb>,
    weight: int,
    i: int,
)
    requires
        before.wf(),
        tick_recorded(before, after, pixels, colours, weight),
    ensures
        !before.recording ==> after == before,
        before.recording ==> {
            let n = before.frames@.len() as int;
            &&& before.head < before.total ==> after.frames@.len() == n + 1
            &&& before.head == before.total ==> after.frames@.len() == n + 41
            &&& 0 <= i < n ==> after.frames@[i] == before.frames@[i]
            &&& n <= i < after.frames@.len() ==> after.frames@[i]@ == after.frames@[n]@
            &&& after == (Model { soft: after.soft, frames: after.frames, ..before })
            &&& exists|taken: Model|
                {
                    &&& #[trigger] frame_captured(before, taken, pixels, colours, weight)
                    &&& taken.soft == after.soft
                    &&& taken.frames@ == after.frames@.take(n + 1)
                }
        },
{
    law_recordings_miss_no_tick(before);
    let n = before.frames@.len() as int;
    let taken = choose|taken: Model| #[trigger]
        frame_taken(before, taken, pixels, colours, weight) && rounded_off(taken, after);
    if before.recording {
        assert(frame_captured(before, taken, pixels, colours, weight));
        law_captured_frame_is_the_last(before, taken, pixels, colours, weight, i);
        if before.head == before.total {
            assert(taken.finishes());
            law_last_frame_is_held(taken, after, i);
            law_last_frame_is_held(taken, after, n);
        }
        assert forall|k: int| 0 <= k < n + 1 implies taken.frames@[k] == after.frames@[k] by {
            if before.head == before.total {
                law_last_frame_is_held(taken, after, k);
            }
        }
        assert(taken.frames@ =~= after.frames@.take(n + 1));
    }
}

/// The line of text under the picture: that the frames have been saved, else how many frames
/// have been recorded, else how much of the curve is drawn; and which keys there are.
pub proof fn law_text_under_the_picture(m: Model, zoom: Seq<char>)
    ensures
        m.done ==> m.hud(zoom) == "Saved dragon_curve.gif"@,
        !m.done && m.recording ==> m.hud(zoom) == "REC  "@ + decimal(m.frames@.len())
            + " frames  zoom "@ + zoom + "x  |  [S] save  [R] restart"@,
        !m.done && !m.recording ==> m.hud(zoom) == decimal(m.head as nat) + "/"@ + decimal(
            m.total as nat,
        ) + " segs  zoom "@ + zoom + "x  |  [G] record  [R] restart  [Esc] quit"@,
{
}

} // verus!
