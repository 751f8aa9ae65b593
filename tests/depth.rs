use softrender::depth::depth_test;
use softrender::render_target::RenderTarget;

#[test]
fn nearer_fragment_passes_and_is_stored() {
    let mut depth = RenderTarget::new((3, 3), 100u32);
    assert!(depth_test(&mut depth, 1, 2, 40));
    assert_eq!(depth.get_pixel(1, 2), 40);
    assert_eq!(depth.get_pixel(2, 1), 100);
}

#[test]
fn farther_or_equal_fragment_fails() {
    let mut depth = RenderTarget::new((3, 3), 100u32);
    assert!(!depth_test(&mut depth, 1, 1, 100));
    assert!(!depth_test(&mut depth, 1, 1, 200));
    assert_eq!(depth.get_pixel(1, 1), 100);
}

#[test]
fn fragment_outside_fails() {
    let mut depth = RenderTarget::new((3, 3), 100u32);
    assert!(!depth_test(&mut depth, -1, 0, 1));
    assert!(!depth_test(&mut depth, 0, 3, 1));
}

fn draw(color: &mut RenderTarget<char>, depth: &mut RenderTarget<u32>, key: u32, c: char) {
    if depth_test(depth, 2, 1, key) {
        color.set_pixel(2, 1, c);
    }
}

#[test]
fn draw_order_does_not_change_the_result() {
    let mut color_a = RenderTarget::new((4, 4), '.');
    let mut depth_a = RenderTarget::new((4, 4), 1000u32);
    draw(&mut color_a, &mut depth_a, 10, 'n');
    draw(&mut color_a, &mut depth_a, 20, 'f');

    let mut color_b = RenderTarget::new((4, 4), '.');
    let mut depth_b = RenderTarget::new((4, 4), 1000u32);
    draw(&mut color_b, &mut depth_b, 20, 'f');
    draw(&mut color_b, &mut depth_b, 10, 'n');

    for y in 0..4 {
        for x in 0..4 {
            assert_eq!(color_a.get_pixel(x, y), color_b.get_pixel(x, y));
            assert_eq!(depth_a.get_pixel(x, y), depth_b.get_pixel(x, y));
        }
    }
    assert_eq!(color_a.get_pixel(2, 1), 'n');
    assert_eq!(depth_a.get_pixel(2, 1), 10);
}
