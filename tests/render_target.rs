use softrender::render_target::RenderTarget;

#[test]
fn new_target_is_filled() {
    let rt = RenderTarget::new((3, 2), 7u32);
    assert_eq!(rt.dimensions(), (3, 2));
    for y in 0..2 {
        for x in 0..3 {
            assert_eq!(rt.get_pixel(x, y), 7);
        }
    }
}

#[test]
fn empty_target_has_no_pixels() {
    let rt = RenderTarget::new((0, 5), 1u8);
    assert_eq!(rt.dimensions(), (0, 5));
    assert!(!rt.contains(0, 0));
}

#[test]
fn set_pixel_writes_row_major() {
    let mut rt = RenderTarget::new((4, 3), 0u32);
    assert!(rt.set_pixel(2, 1, 9));
    assert_eq!(rt.get_pixel(2, 1), 9);
    assert_eq!(rt.get_pixel(1, 2), 0);
    assert_eq!(rt.get_pixel(2, 0), 0);
}

#[test]
fn set_pixel_rejects_outside() {
    let mut rt = RenderTarget::new((4, 3), 0u32);
    assert!(!rt.set_pixel(4, 0, 9));
    assert!(!rt.set_pixel(0, 3, 9));
    for y in 0..3 {
        for x in 0..4 {
            assert_eq!(rt.get_pixel(x, y), 0);
        }
    }
}

#[test]
fn clear_overwrites_everything() {
    let mut rt = RenderTarget::new((3, 3), [0.0f32, 0.0, 0.0, 1.0]);
    rt.set_pixel(1, 1, [1.0, 0.0, 0.0, 1.0]);
    rt.clear([0.3, 0.3, 0.3, 1.0]);
    for y in 0..3 {
        for x in 0..3 {
            assert_eq!(rt.get_pixel(x, y), [0.3, 0.3, 0.3, 1.0]);
        }
    }
}

#[test]
fn contains_checks_signed_coordinates() {
    let rt = RenderTarget::new((5, 4), 0u8);
    assert!(rt.contains(0, 0));
    assert!(rt.contains(4, 3));
    assert!(!rt.contains(-1, 0));
    assert!(!rt.contains(0, -1));
    assert!(!rt.contains(5, 0));
    assert!(!rt.contains(0, 4));
    assert!(!rt.contains(i32::MIN, i32::MAX));
}
