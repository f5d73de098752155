use dragon_curve::canvas::SoftCanvas;
use dragon_curve::palette::{build_palette, palette_bytes};
use dragon_curve::quantise::nearest_index;

#[test]
fn nearest_takes_the_first_of_equals() {
    let pal = [(0, 0, 0), (10, 0, 0), (0, 10, 0), (10, 0, 0)];
    assert_eq!(nearest_index(&pal, (10, 0, 0)), 1);
    assert_eq!(nearest_index(&pal, (5, 5, 0)), 0);
    assert_eq!(nearest_index(&pal, (9, 9, 0)), 1);
    assert_eq!(nearest_index(&pal, (0, 200, 3)), 2);
    assert_eq!(nearest_index(&[], (1, 2, 3)), 0);
    assert_eq!(nearest_index(&[(255, 255, 255)], (0, 0, 0)), 0);
}

#[test]
fn boxes_are_averaged_and_rounded_down() {
    let mut c = SoftCanvas::new(4, 2);
    c.put(0, 0, 10, 20, 30);
    c.put(1, 0, 11, 21, 31);
    c.put(0, 1, 12, 22, 32);
    c.put(1, 1, 14, 24, 34);
    assert_eq!(c.box_average(0, 0, 2, 2), (11, 21, 31));
    assert_eq!(c.box_average(2, 0, 2, 2), (0, 0, 0));
    assert_eq!(c.box_average(1, 0, 2, 1), (5, 10, 15));
    let pal = [(0, 0, 0), (11, 21, 31), (12, 21, 31)];
    assert_eq!(c.to_indexed(2, 1, &pal), vec![1, 0]);
}

#[test]
fn enlarging_repeats_the_last_row_and_column() {
    let mut c = SoftCanvas::new(2, 1);
    c.put(0, 0, 100, 0, 0);
    c.put(1, 0, 200, 0, 0);
    let pal = [(0, 0, 0), (100, 0, 0), (200, 0, 0)];
    assert_eq!(c.to_indexed(4, 2, &pal), vec![1, 2, 2, 2, 1, 2, 2, 2]);
}

#[test]
fn left_over_columns_are_dropped() {
    let mut c = SoftCanvas::new(5, 1);
    c.put(4, 0, 200, 0, 0);
    c.put(1, 0, 100, 0, 0);
    let pal = [(0, 0, 0), (50, 0, 0), (200, 0, 0)];
    assert_eq!(c.to_indexed(2, 1, &pal), vec![1, 0]);
}

#[test]
fn background_is_index_zero() {
    let c = SoftCanvas::new(6, 4);
    let hues: Vec<(u8, u8, u8)> = (0..255).map(|i| (i as u8, 255, 1)).collect();
    let pal = build_palette(&hues);
    assert_eq!(c.to_indexed(3, 2, &pal), vec![0; 6]);
    assert_eq!(c.to_indexed(3, 2, &[]), vec![0; 6]);
}

#[test]
fn positions_beyond_a_byte_wrap_around() {
    let mut pal = vec![(9u8, 9u8, 9u8); 300];
    pal[258] = (0, 0, 0);
    let c = SoftCanvas::new(1, 1);
    assert_eq!(c.to_indexed(1, 1, &pal), vec![2]);
}

#[test]
fn palette_colours_are_found_again() {
    let pal: Vec<(u8, u8, u8)> = (0..256).map(|i| (i as u8, (255 - i) as u8, 7)).collect();
    for i in 0..256usize {
        let mut c = SoftCanvas::new(2, 2);
        for (x, y) in [(0, 0), (1, 0), (0, 1), (1, 1)] {
            c.put(x, y, pal[i].0, pal[i].1, pal[i].2);
        }
        assert_eq!(c.to_indexed(1, 1, &pal), vec![i as u8]);
    }
}

#[test]
fn same_pixels_same_indices() {
    let pal = [(0, 0, 0), (90, 0, 0), (180, 0, 0)];
    let mut a = SoftCanvas::new(8, 8);
    let mut b = SoftCanvas::new(8, 8);
    a.line1(0, 0, 7, 7, 1, 1, 1);
    a.clear();
    a.line1(0, 3, 7, 3, 180, 0, 0);
    b.line1(0, 3, 7, 3, 180, 0, 0);
    assert_eq!(a.to_indexed(4, 4, &pal), b.to_indexed(4, 4, &pal));
    assert_eq!(&b.to_indexed(4, 4, &pal)[4..8], &[1, 1, 1, 1]);
}

#[test]
fn palette_starts_with_black() {
    let hues: Vec<(u8, u8, u8)> = (0..255).map(|i| (i as u8, 1, 2)).collect();
    let pal = build_palette(&hues);
    assert_eq!(pal.len(), 256);
    assert_eq!(pal[0], (0, 0, 0));
    assert_eq!(&pal[1..], &hues[..]);
}

#[test]
fn palette_as_bytes() {
    assert_eq!(palette_bytes(&[(1, 2, 3), (4, 5, 6)]), vec![1, 2, 3, 4, 5, 6]);
    assert!(palette_bytes(&[]).is_empty());
}
