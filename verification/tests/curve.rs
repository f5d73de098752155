use dragon_curve::curve::{bounds, build_turns, fit_to_canvas, turns_to_points, Point};

fn xy(pts: &[Point]) -> Vec<(i64, i64)> {
    pts.iter().map(|p| (p.x, p.y)).collect()
}

#[test]
fn first_folds() {
    assert_eq!(build_turns(0), vec![1]);
    assert_eq!(build_turns(1), vec![1]);
    assert_eq!(build_turns(2), vec![1, 1, -1]);
    assert_eq!(build_turns(3), vec![1, 1, -1, 1, 1, -1, -1]);
    assert_eq!(build_turns(4), vec![1, 1, -1, 1, 1, -1, -1, 1, 1, 1, -1, -1, 1, -1, -1]);
}

#[test]
fn number_of_turns_doubles() {
    for order in 1..16usize {
        assert_eq!(build_turns(order).len(), (1usize << order) - 1);
    }
}

#[test]
fn one_more_fold_appends_the_way_back() {
    for order in 1..12usize {
        let low = build_turns(order);
        let high = build_turns(order + 1);
        let n = low.len();
        assert_eq!(&high[..n], &low[..]);
        assert_eq!(high[n], 1);
        let back: Vec<i8> = low.iter().rev().map(|t| -t).collect();
        assert_eq!(&high[n + 1..], &back[..]);
    }
}

#[test]
fn a_turn_depends_on_its_odd_part() {
    let turns = build_turns(10);
    for (i, t) in turns.iter().enumerate() {
        let mut k = i + 1;
        while k % 2 == 0 {
            k /= 2;
        }
        assert_eq!(*t, if k % 4 == 1 { 1 } else { -1 });
    }
}

#[test]
fn first_points() {
    let pts = turns_to_points(&build_turns(3));
    assert_eq!(
        xy(&pts),
        vec![(0, 0), (1, 0), (1, 1), (0, 1), (0, 2), (-1, 2), (-1, 1), (-2, 1)]
    );
}

#[test]
fn no_turns_give_the_start_alone() {
    assert_eq!(xy(&turns_to_points(&[])), vec![(0, 0)]);
}

#[test]
fn whatever_is_not_one_turns_right() {
    assert_eq!(xy(&turns_to_points(&[0, 5, -1])), vec![(0, 0), (1, 0), (1, -1), (0, -1)]);
}

#[test]
fn segments_are_units_at_right_angles() {
    let pts = turns_to_points(&build_turns(9));
    for i in 0..pts.len() - 1 {
        let d = (pts[i + 1].x - pts[i].x, pts[i + 1].y - pts[i].y);
        assert_eq!(d.0.abs() + d.1.abs(), 1);
        if i > 0 {
            let e = (pts[i].x - pts[i - 1].x, pts[i].y - pts[i - 1].y);
            assert_eq!(d.0 * e.0 + d.1 * e.1, 0);
        }
    }
}

#[test]
fn halves_are_congruent() {
    let pts = turns_to_points(&build_turns(8));
    let fold = pts.len() / 2;
    let f = pts[fold];
    for j in 0..fold {
        let a = (pts[fold - j].x - f.x, pts[fold - j].y - f.y);
        let b = (pts[fold + j].x - f.x, pts[fold + j].y - f.y);
        assert_eq!(b, (a.1, -a.0));
    }
}

#[test]
fn box_around_points() {
    let pts = turns_to_points(&build_turns(3));
    let b = bounds(&pts).unwrap();
    assert_eq!((b.min_x, b.max_x, b.min_y, b.max_y), (-2, 1, 0, 2));
    assert!(bounds(&[]).is_none());
}

#[test]
fn fitted_points_are_centred() {
    let pts = turns_to_points(&build_turns(3));
    let fitted = fit_to_canvas(&pts);
    assert_eq!(fitted.span, 3);
    assert_eq!(
        xy(&fitted.pts),
        vec![(1, -2), (3, -2), (3, 0), (1, 0), (1, 2), (-1, 2), (-1, 0), (-3, 0)]
    );
    let nothing = fit_to_canvas(&[]);
    assert_eq!(nothing.span, 0);
    assert!(nothing.pts.is_empty());
    let alone = fit_to_canvas(&[Point { x: 7, y: -5 }]);
    assert_eq!(alone.span, 0);
    assert_eq!(xy(&alone.pts), vec![(0, 0)]);
}

#[test]
fn fitted_curve_fills_the_drawable_part() {
    let fitted = fit_to_canvas(&turns_to_points(&build_turns(14)));
    let s = fitted.span;
    assert!(fitted.pts.iter().all(|p| p.x.abs() <= s && p.y.abs() <= s));
    let along_x = fitted.pts.iter().any(|p| p.x == s) && fitted.pts.iter().any(|p| p.x == -s);
    let along_y = fitted.pts.iter().any(|p| p.y == s) && fitted.pts.iter().any(|p| p.y == -s);
    assert!(along_x || along_y);
}

#[test]
fn fitting_agrees_with_single_precision() {
    let pts = turns_to_points(&build_turns(14));
    let b = bounds(&pts).unwrap();
    let fitted = fit_to_canvas(&pts);
    let scale = (1080.0f32 - 90.0 * 2.0) / fitted.span as f32;
    let cx = (b.min_x as f32 + b.max_x as f32) * 0.5;
    for (p, q) in pts.iter().zip(fitted.pts.iter()) {
        assert_eq!((p.x as f32 - cx) * scale, (q.x as f32 * 0.5) * scale);
    }
}

#[test]
fn no_segment_is_walked_twice() {
    let pts = xy(&turns_to_points(&build_turns(12)));
    let mut segments: Vec<((i64, i64), (i64, i64))> =
        pts.windows(2).map(|s| if s[0] < s[1] { (s[0], s[1]) } else { (s[1], s[0]) }).collect();
    let walked = segments.len();
    assert_eq!(walked, 4095);
    segments.sort();
    segments.dedup();
    assert_eq!(segments.len(), walked);
}

#[test]
fn every_other_point_is_a_turned_copy() {
    let pts = turns_to_points(&build_turns(10));
    for m in 0..pts.len() / 2 {
        let p = pts[m];
        assert_eq!((pts[2 * m].x, pts[2 * m].y), (p.x - p.y, p.x + p.y));
    }
}

#[test]
fn place_and_size_do_not_change_the_fitted_curve() {
    let pts = turns_to_points(&build_turns(6));
    let once = fit_to_canvas(&pts);
    let moved: Vec<Point> = pts.iter().map(|p| Point { x: 3 * p.x - 40, y: 3 * p.y + 7 }).collect();
    let of_moved = fit_to_canvas(&moved);
    assert_eq!(of_moved.span, 3 * once.span);
    let twice = fit_to_canvas(&once.pts);
    assert_eq!(twice.span, 2 * once.span);
    for i in 0..pts.len() {
        let p = once.pts[i];
        assert_eq!((of_moved.pts[i].x, of_moved.pts[i].y), (3 * p.x, 3 * p.y));
        assert_eq!((twice.pts[i].x, twice.pts[i].y), (2 * p.x, 2 * p.y));
    }
}
