use dragon_curve::gif_stream::encode_gif;
use dragon_curve::model::{
    advance, auto_saved, capture_frame, encode_recording, finish_recording, hud_text, key_pressed,
    make_model, record_tick, reset, saved, Key, KeyAction, Model, GIF_SIZE, HOLD_FRAMES,
};
use dragon_curve::text::push_decimal;

fn hues() -> Vec<(u8, u8, u8)> {
    (0..255).map(|i| (i as u8, 255 - i as u8, 40)).collect()
}

fn scene(m: &Model) -> (Vec<(i32, i32)>, Vec<(u8, u8, u8)>) {
    let pixels = m.curve.pts.iter().map(|p| (540 + p.x as i32, 540 - p.y as i32)).collect();
    let colours = (0..m.total).map(|i| m.pal[1 + i % 255]).collect();
    (pixels, colours)
}

#[test]
fn a_new_animation() {
    let m = make_model(&hues());
    assert_eq!(m.total, (1 << 14) - 1);
    assert_eq!(m.curve.pts.len(), 1 << 14);
    assert_eq!((m.head, m.tick), (0, 0));
    assert!(!m.recording && !m.done && m.frames.is_empty());
    assert_eq!((m.soft.w, m.soft.h), (1080, 1080));
    assert!(m.soft.buf.iter().all(|b| *b == 0));
    assert_eq!(m.pal.len(), 256);
}

#[test]
fn ticks_move_the_head() {
    let mut m = make_model(&hues());
    assert!(advance(&mut m, 5));
    assert_eq!((m.head, m.tick), (5, 1));
    assert!(advance(&mut m, 0));
    assert_eq!((m.head, m.tick), (6, 2));
    assert!(advance(&mut m, usize::MAX));
    assert_eq!((m.head, m.tick), (m.total, 3));
    assert!(!advance(&mut m, 5));
    assert_eq!((m.head, m.tick), (m.total, 3));
}

#[test]
fn the_animation_ends() {
    let mut m = make_model(&hues());
    let mut ticks: usize = 0;
    while advance(&mut m, 0) {
        ticks += 1;
    }
    assert_eq!(ticks, m.total);
    assert_eq!(m.head, m.total);
}

#[test]
fn keys() {
    let mut m = make_model(&hues());
    assert_eq!(key_pressed(&mut m, Key::S), KeyAction::NothingRecorded);
    assert_eq!(key_pressed(&mut m, Key::Escape), KeyAction::Quit);
    assert_eq!(key_pressed(&mut m, Key::Other), KeyAction::Ignored);
    advance(&mut m, 10);
    assert_eq!(key_pressed(&mut m, Key::G), KeyAction::RecordingStarted);
    assert!(m.recording);
    assert_eq!((m.head, m.tick), (0, 0));
    assert_eq!(key_pressed(&mut m, Key::S), KeyAction::NothingRecorded);
    m.frames.push(vec![0; 540 * 540]);
    m.done = true;
    assert_eq!(key_pressed(&mut m, Key::S), KeyAction::Save);
    assert_eq!(m.frames.len(), 1);
    assert_eq!(key_pressed(&mut m, Key::R), KeyAction::Restarted);
    assert!(!m.recording && !m.done && m.frames.is_empty());
}

#[test]
fn reset_keeps_recording() {
    let mut m = make_model(&hues());
    key_pressed(&mut m, Key::G);
    advance(&mut m, 3);
    m.frames.push(vec![0; 540 * 540]);
    saved(&mut m);
    assert!(m.done);
    reset(&mut m);
    assert!(m.recording && !m.done && m.frames.is_empty());
    assert_eq!((m.head, m.tick), (0, 0));
}

#[test]
fn frames_are_taken_only_while_recording() {
    let mut m = make_model(&hues());
    let (pixels, colours) = scene(&m);
    advance(&mut m, 50);
    assert!(!capture_frame(&mut m, &pixels, &colours, 1));
    assert!(m.frames.is_empty());
    key_pressed(&mut m, Key::G);
    advance(&mut m, 50);
    assert!(capture_frame(&mut m, &pixels, &colours, 1));
    assert_eq!(m.frames.len(), 1);
    assert_eq!(m.frames[0].len(), 540 * 540);
    assert_eq!(m.frames[0], m.soft.to_indexed(GIF_SIZE as usize, GIF_SIZE as usize, &m.pal));
    assert_eq!(m.frames[0][0], 0);
    assert!(m.frames[0].iter().any(|i| *i != 0));
}

#[test]
fn frames_leave_no_trace() {
    let mut a = make_model(&hues());
    let mut b = make_model(&hues());
    let (pixels, colours) = scene(&a);
    key_pressed(&mut a, Key::G);
    key_pressed(&mut b, Key::G);
    advance(&mut a, 300);
    capture_frame(&mut a, &pixels, &colours, 4);
    key_pressed(&mut a, Key::G);
    advance(&mut a, 20);
    advance(&mut b, 20);
    capture_frame(&mut a, &pixels, &colours, 2);
    capture_frame(&mut b, &pixels, &colours, 2);
    assert_eq!(a.frames, b.frames);
}

#[test]
fn a_complete_recording_is_held_and_saved_once() {
    let mut m = make_model(&hues());
    let (pixels, colours) = scene(&m);
    key_pressed(&mut m, Key::G);
    while advance(&mut m, 6000) {
        assert!(capture_frame(&mut m, &pixels, &colours, 0));
        assert_eq!(m.frames.len(), m.tick);
        if m.head < m.total {
            assert!(!finish_recording(&mut m));
        }
    }
    let n = m.frames.len();
    assert_eq!(n, 3);
    assert!(finish_recording(&mut m));
    assert_eq!(m.frames.len(), n + HOLD_FRAMES);
    assert!(m.frames[n..].iter().all(|f| *f == m.frames[n - 1]));
    assert_ne!(m.frames[0], m.frames[n - 1]);
    auto_saved(&mut m);
    assert!(m.done && !m.recording);
    assert!(!finish_recording(&mut m));
    assert_eq!(m.frames.len(), n + HOLD_FRAMES);
}

#[test]
fn a_recording_saved_by_hand_is_saved_again_at_its_end() {
    let mut m = make_model(&hues());
    let (pixels, colours) = scene(&m);
    key_pressed(&mut m, Key::G);
    advance(&mut m, 6000);
    assert!(!record_tick(&mut m, &pixels, &colours, 0));
    assert_eq!(key_pressed(&mut m, Key::S), KeyAction::Save);
    saved(&mut m);
    assert!(m.done && m.recording);
    advance(&mut m, usize::MAX);
    assert!(record_tick(&mut m, &pixels, &colours, 0));
    assert_eq!(m.frames.len(), 2 + HOLD_FRAMES);
    assert!(m.frames[2..].iter().all(|f| *f == m.frames[1]));
    auto_saved(&mut m);
    assert!(!m.recording && !advance(&mut m, 1));
    assert!(!finish_recording(&mut m));
}

#[test]
fn a_tick_is_recorded_whole() {
    let mut a = make_model(&hues());
    let mut b = make_model(&hues());
    let (pixels, colours) = scene(&a);
    assert!(!record_tick(&mut a, &[], &[], 0));
    assert!(a.frames.is_empty());
    key_pressed(&mut a, Key::G);
    key_pressed(&mut b, Key::G);
    while advance(&mut a, 9000) {
        advance(&mut b, 9000);
        let save = record_tick(&mut a, &pixels, &colours, 1);
        capture_frame(&mut b, &pixels, &colours, 1);
        assert_eq!(save, finish_recording(&mut b));
        assert_eq!(save, a.head == a.total);
        assert_eq!(a.frames, b.frames);
    }
    assert_eq!(a.frames.len(), a.tick + HOLD_FRAMES);
}

#[test]
fn nothing_is_held_where_nothing_was_recorded() {
    let mut m = make_model(&hues());
    key_pressed(&mut m, Key::G);
    advance(&mut m, usize::MAX);
    assert!(finish_recording(&mut m));
    assert!(m.frames.is_empty());
}

#[test]
fn recordings_are_encoded() {
    let mut m = make_model(&hues());
    let (pixels, colours) = scene(&m);
    key_pressed(&mut m, Key::G);
    advance(&mut m, 100);
    capture_frame(&mut m, &pixels, &colours, 1);
    let bytes = encode_recording(&m).unwrap();
    assert_eq!(bytes, encode_gif(&m.frames, &m.pal, 540).unwrap());
    let mut decoder = gif::DecodeOptions::new().read_info(&bytes[..]).unwrap();
    let frame = decoder.read_next_frame().unwrap().unwrap();
    assert_eq!(&frame.buffer[..], &m.frames[0][..]);
}

#[test]
fn text_under_the_picture() {
    let mut m = make_model(&hues());
    advance(&mut m, 120);
    assert_eq!(
        hud_text(&m, "12.0"),
        "120/16383 segs  zoom 12.0x  |  [G] record  [R] restart  [Esc] quit"
    );
    key_pressed(&mut m, Key::G);
    assert_eq!(hud_text(&m, "1.5"), "REC  0 frames  zoom 1.5x  |  [S] save  [R] restart");
    saved(&mut m);
    assert_eq!(hud_text(&m, "1.5"), "Saved dragon_curve.gif");
}

#[test]
fn decimal_notation() {
    for n in [0usize, 7, 10, 99, 100, 90817, 1234567890, usize::MAX] {
        let mut s = String::new();
        push_decimal(&mut s, n);
        assert_eq!(s, format!("{}", n));
    }
}
