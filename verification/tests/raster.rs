use dragon_curve::canvas::SoftCanvas;
use dragon_curve::draw::can_draw_curve;

fn lit(c: &SoftCanvas) -> Vec<(usize, usize)> {
    let mut out = Vec::new();
    for y in 0..c.h {
        for x in 0..c.w {
            if c.buf[(y * c.w + x) * 4 + 3] == 255 {
                out.push((x, y));
            }
        }
    }
    out
}

#[test]
fn new_canvas_is_blank() {
    let c = SoftCanvas::new(3, 2);
    assert_eq!((c.w, c.h), (3, 2));
    assert_eq!(c.buf, vec![0u8; 24]);
    assert!(SoftCanvas::new(0, 5).buf.is_empty());
}

#[test]
fn put_sets_one_opaque_pixel() {
    let mut c = SoftCanvas::new(3, 2);
    c.put(1, 1, 10, 20, 30);
    let mut expected = vec![0u8; 24];
    expected[16..20].copy_from_slice(&[10, 20, 30, 255]);
    assert_eq!(c.buf, expected);
}

#[test]
fn put_ignores_what_is_off_the_canvas() {
    let mut c = SoftCanvas::new(3, 2);
    for (x, y) in [(-1, 0), (0, -1), (3, 0), (0, 2), (i32::MAX, 0), (0, i32::MIN)] {
        c.put(x, y, 1, 2, 3);
    }
    assert_eq!(c.buf, vec![0u8; 24]);
}

#[test]
fn clear_removes_everything() {
    let mut c = SoftCanvas::new(5, 5);
    c.line1(0, 0, 4, 4, 9, 9, 9);
    c.clear();
    assert_eq!(c.buf, vec![0u8; 100]);
    assert_eq!((c.w, c.h), (5, 5));
}

#[test]
fn flat_line() {
    let mut c = SoftCanvas::new(6, 3);
    c.line1(1, 1, 4, 1, 1, 2, 3);
    assert_eq!(lit(&c), vec![(1, 1), (2, 1), (3, 1), (4, 1)]);
}

#[test]
fn shallow_line_rounds_halves_away_from_its_start() {
    let mut c = SoftCanvas::new(5, 3);
    c.line1(0, 0, 4, 2, 1, 2, 3);
    assert_eq!(lit(&c), vec![(0, 0), (1, 1), (2, 1), (3, 2), (4, 2)]);
}

#[test]
fn steep_line_upwards() {
    let mut c = SoftCanvas::new(3, 6);
    c.line1(2, 5, 0, 0, 1, 2, 3);
    assert_eq!(lit(&c), vec![(0, 0), (0, 1), (1, 2), (1, 3), (2, 4), (2, 5)]);
}

#[test]
fn single_point_line() {
    let mut c = SoftCanvas::new(3, 3);
    c.line1(2, 1, 2, 1, 1, 2, 3);
    assert_eq!(lit(&c), vec![(2, 1)]);
}

#[test]
fn lines_in_all_directions_hold_their_ends_and_have_no_holes() {
    for x1 in 0..17i32 {
        for y1 in 0..17i32 {
            let mut c = SoftCanvas::new(17, 17);
            c.line1(8, 8, x1, y1, 1, 2, 3);
            let dots = lit(&c);
            let n = (x1 - 8).abs().max((y1 - 8).abs()) as usize;
            assert_eq!(dots.len(), n + 1);
            assert!(dots.contains(&(8, 8)) && dots.contains(&(x1 as usize, y1 as usize)));
            for k in 0..=n as i32 {
                let m = (n as i32).max(1);
                let i = (2 * k * (x1 - 8).abs() + m) / (2 * m);
                let j = (2 * k * (y1 - 8).abs() + m) / (2 * m);
                let p = (8 + (x1 - 8).signum() * i, 8 + (y1 - 8).signum() * j);
                assert!(dots.contains(&(p.0 as usize, p.1 as usize)));
            }
        }
    }
}

#[test]
fn line_is_clipped() {
    let mut c = SoftCanvas::new(3, 3);
    c.line1(-5, -5, 20, 20, 1, 2, 3);
    assert_eq!(lit(&c), vec![(0, 0), (1, 1), (2, 2)]);
}

#[test]
fn moved_line_is_the_moved_set_of_pixels() {
    let mut a = SoftCanvas::new(12, 12);
    let mut b = SoftCanvas::new(12, 12);
    a.line1(1, 1, 8, 4, 1, 2, 3);
    b.line1(3, 4, 10, 7, 1, 2, 3);
    let moved: Vec<(usize, usize)> = lit(&a).iter().map(|p| (p.0 + 2, p.1 + 3)).collect();
    assert_eq!(lit(&b), moved);
}

#[test]
fn brush_is_a_disc() {
    let mut c = SoftCanvas::new(7, 7);
    c.thick_line(3, 3, 3, 3, 1, 2, 3, 1);
    assert_eq!(
        lit(&c),
        vec![(2, 2), (3, 2), (4, 2), (2, 3), (3, 3), (4, 3), (2, 4), (3, 4), (4, 4)]
    );
    c.clear();
    c.thick_line(3, 3, 3, 3, 1, 2, 3, 2);
    let dots = lit(&c);
    assert_eq!(dots.len(), 21);
    assert!(!dots.contains(&(1, 1)) && dots.contains(&(1, 2)) && dots.contains(&(2, 1)));
}

#[test]
fn brush_widths() {
    let mut thin = SoftCanvas::new(20, 20);
    let mut zero = SoftCanvas::new(20, 20);
    let mut wide = SoftCanvas::new(20, 20);
    let mut none = SoftCanvas::new(20, 20);
    thin.line1(3, 4, 15, 9, 1, 2, 3);
    zero.thick_line(3, 4, 15, 9, 1, 2, 3, 0);
    wide.thick_line(3, 4, 15, 9, 1, 2, 3, 2);
    none.thick_line(3, 4, 15, 9, 1, 2, 3, -1);
    assert_eq!(thin.buf, zero.buf);
    assert!(lit(&none).is_empty());
    let broad = lit(&wide);
    assert!(lit(&thin).iter().all(|p| broad.contains(p)));
    assert!(broad.len() > lit(&thin).len());
}

#[test]
fn later_segments_are_on_top() {
    let mut c = SoftCanvas::new(5, 5);
    let pixels = [(0, 2), (4, 2), (2, 2), (2, 4)];
    let colours = [(10, 0, 0), (0, 20, 0), (0, 0, 30)];
    c.draw_curve_with_camera(&pixels, &colours, 3, 0);
    let at = |x: usize, y: usize| {
        let o = (y * 5 + x) * 4;
        (c.buf[o], c.buf[o + 1], c.buf[o + 2], c.buf[o + 3])
    };
    assert_eq!(at(1, 2), (10, 0, 0, 255));
    assert_eq!(at(3, 2), (0, 20, 0, 255));
    assert_eq!(at(2, 2), (0, 0, 30, 255));
    assert_eq!(at(2, 4), (0, 0, 30, 255));
    assert_eq!(at(0, 0), (0, 0, 0, 0));
}

#[test]
fn only_the_asked_segments_are_drawn() {
    let pixels = [(0, 0), (4, 0), (4, 4)];
    let colours = [(1, 1, 1), (2, 2, 2)];
    let mut c = SoftCanvas::new(5, 5);
    c.draw_curve_with_camera(&pixels, &colours, 0, 0);
    assert!(lit(&c).is_empty());
    c.draw_curve_with_camera(&pixels, &colours, 1, 0);
    assert_eq!(lit(&c).len(), 5);
    c.draw_curve_with_camera(&pixels, &colours, 99, 0);
    assert_eq!(lit(&c).len(), 9);
    let mut d = SoftCanvas::new(5, 5);
    d.draw_curve_with_camera(&[], &[], 7, 0);
    d.draw_curve_with_camera(&[(1, 1)], &[], 7, 0);
    assert!(lit(&d).is_empty());
}

#[test]
fn weight_is_kept_in_range() {
    let pixels = [(10, 10), (10, 10)];
    let colours = [(1, 1, 1)];
    let dots = |weight: i32| {
        let mut c = SoftCanvas::new(21, 21);
        c.draw_curve_with_camera(&pixels, &colours, 1, weight);
        lit(&c).len()
    };
    assert_eq!(dots(-3), 1);
    assert_eq!(dots(0), 1);
    assert_eq!(dots(1), 9);
    assert_eq!(dots(4), dots(1000));
    assert!(dots(3) < dots(4));
}

#[test]
fn a_longer_drawing_hides_a_shorter_one() {
    let pixels = [(0, 0), (6, 2), (1, 5), (6, 6)];
    let colours = [(1, 1, 1), (2, 2, 2), (3, 3, 3)];
    let mut twice = SoftCanvas::new(8, 8);
    let mut once = SoftCanvas::new(8, 8);
    twice.draw_curve_with_camera(&pixels, &colours, 2, 1);
    twice.draw_curve_with_camera(&pixels, &colours, 3, 1);
    once.draw_curve_with_camera(&pixels, &colours, 3, 1);
    assert_eq!(twice.buf, once.buf);
}

#[test]
fn points_at_the_rim_of_the_numbers() {
    let far = [(0, 0), (i32::MAX - 4, i32::MIN + 4), (i32::MAX, 0)];
    assert!(can_draw_curve(&far, 1, 4));
    assert!(!can_draw_curve(&far, 2, 1));
    assert!(!can_draw_curve(&far, 9, 99));
    assert!(can_draw_curve(&far, 2, 0));
    assert!(can_draw_curve(&far, 2, -7));
    assert!(can_draw_curve(&far, 0, 4));
    assert!(can_draw_curve(&[(i32::MIN, i32::MIN)], 5, 4));
    assert!(can_draw_curve(&[], 5, 4));
}

#[test]
fn ends_far_apart() {
    let mut c = SoftCanvas::new(3, 3);
    c.line1(-10000000, 1, 3, 1, 1, 2, 3);
    assert_eq!(lit(&c), vec![(0, 1), (1, 1), (2, 1)]);
}

#[test]
fn pixels_are_blank_or_opaque_in_a_colour_that_was_drawn() {
    let mut c = SoftCanvas::new(9, 7);
    let used = [[1, 2, 3], [4, 5, 6], [7, 8, 9], [10, 11, 12], [13, 14, 15]];
    let well_drawn = |c: &SoftCanvas, from: usize| {
        assert_eq!((c.w, c.h, c.buf.len()), (9, 7, 252));
        c.buf.chunks(4).all(|p| {
            let drawn = p[3] == 255 && used[from..].contains(&[p[0], p[1], p[2]]);
            p == [0, 0, 0, 0] || drawn
        })
    };
    c.put(8, 6, 1, 2, 3);
    c.line1(-3, 0, 20, 9, 4, 5, 6);
    assert!(well_drawn(&c, 0));
    c.clear();
    assert!(lit(&c).is_empty());
    c.thick_line(2, 2, 6, 4, 7, 8, 9, 2);
    c.draw_curve_with_camera(&[(0, 0), (5, 5), (12, 1)], &[(10, 11, 12), (13, 14, 15)], 2, 1);
    assert!(well_drawn(&c, 2));
    assert!(!lit(&c).is_empty());
}
