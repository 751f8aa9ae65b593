use softrender::raster::{fill, is_covered, line_pixels, right_side};

#[test]
fn right_side_sign() {
    assert!(right_side((0, 0), (4, 0), (1, 1)));
    assert!(!right_side((0, 0), (4, 0), (1, -1)));
    assert!(!right_side((0, 0), (4, 0), (2, 0)));
}

#[test]
fn right_side_extreme_coordinates() {
    let lo = i32::MIN;
    let hi = i32::MAX;
    assert!(right_side((lo, lo), (hi, lo), (lo, hi)));
    assert!(!right_side((lo, lo), (lo, hi), (hi, lo)));
}

#[test]
fn fill_small_triangle() {
    let covered = fill((0, 0), (4, 0), (0, 4));
    assert_eq!(covered, vec![(1, 1), (1, 2), (2, 1)]);
}

#[test]
fn fill_back_facing_is_empty() {
    assert!(fill((0, 0), (0, 4), (4, 0)).is_empty());
}

#[test]
fn fill_degenerate_is_empty() {
    assert!(fill((0, 0), (3, 3), (6, 6)).is_empty());
    assert!(fill((2, 2), (2, 2), (2, 2)).is_empty());
}

#[test]
fn fill_matches_edge_test_everywhere() {
    let tris = [
        ((1, 1), (9, 2), (3, 8)),
        ((-3, -2), (5, -1), (0, 6)),
        ((0, 0), (10, 0), (0, 10)),
        ((2, 7), (8, 3), (1, 1)),
    ];
    for &(a, b, c) in tris.iter() {
        let covered = fill(a, b, c);
        let mut expected = vec![];
        for x in -5..15 {
            for y in -5..15 {
                if is_covered(a, b, c, (x, y)) {
                    expected.push((x, y));
                }
            }
        }
        assert_eq!(covered, expected);
    }
}

#[test]
fn line_single_pixel() {
    assert_eq!(line_pixels((3, 4), (3, 4)), vec![(3, 4)]);
}

#[test]
fn line_horizontal_and_vertical() {
    assert_eq!(line_pixels((0, 2), (3, 2)), vec![(0, 2), (1, 2), (2, 2), (3, 2)]);
    assert_eq!(line_pixels((1, 3), (1, 0)), vec![(1, 3), (1, 2), (1, 1), (1, 0)]);
}

#[test]
fn line_rounds_halves_away_from_zero() {
    assert_eq!(
        line_pixels((0, 0), (4, 2)),
        vec![(0, 0), (1, 1), (2, 1), (3, 2), (4, 2)]
    );
    assert_eq!(
        line_pixels((0, 0), (-4, -2)),
        vec![(0, 0), (-1, -1), (-2, -1), (-3, -2), (-4, -2)]
    );
}

#[test]
fn line_steep() {
    assert_eq!(
        line_pixels((0, 0), (1, 3)),
        vec![(0, 0), (0, 1), (1, 2), (1, 3)]
    );
}

#[test]
fn line_diagonal_on_square_target() {
    for n in [2, 5, 20, 40] {
        let pixels = line_pixels((0, n - 1), (n - 1, 0));
        assert_eq!(pixels.len(), n as usize);
        for (k, p) in pixels.iter().enumerate() {
            let k = k as i32;
            assert_eq!(*p, (k, n - 1 - k));
        }
        assert_eq!(pixels[0], (0, n - 1));
        assert_eq!(pixels[pixels.len() - 1], (n - 1, 0));
    }
}

#[test]
fn line_long_extreme_ends() {
    let pixels = line_pixels((i32::MIN, 0), (i32::MIN + 6, 3));
    assert_eq!(pixels.len(), 7);
    assert_eq!(pixels[0], (i32::MIN, 0));
    assert_eq!(pixels[6], (i32::MIN + 6, 3));
}
