use softrender::console::{mono_frame, pixels_for_terminal, rgb_frame, ConsoleOp};
use softrender::render_target::RenderTarget;

#[test]
fn terminal_cells_pair_into_pixels() {
    assert_eq!(pixels_for_terminal((80, 24)), (40, 24));
    assert_eq!(pixels_for_terminal((81, 1)), (40, 1));
    assert_eq!(pixels_for_terminal((0, 0)), (0, 0));
}

#[test]
fn rgb_frame_switches_color_only_on_change() {
    let mut cells = RenderTarget::new((3, 2), (0u8, 0u8, 0u8));
    cells.set_pixel(1, 0, (255, 0, 0));
    cells.set_pixel(2, 0, (255, 0, 0));
    cells.set_pixel(0, 1, (255, 0, 0));
    cells.set_pixel(2, 1, (0, 0, 9));
    assert_eq!(
        rgb_frame(&cells),
        vec![
            ConsoleOp::Background(0, 0, 0),
            ConsoleOp::Blank,
            ConsoleOp::Background(255, 0, 0),
            ConsoleOp::Blank,
            ConsoleOp::Blank,
            ConsoleOp::NextRow,
            ConsoleOp::Blank,
            ConsoleOp::Background(0, 0, 0),
            ConsoleOp::Blank,
            ConsoleOp::Background(0, 0, 9),
            ConsoleOp::Blank,
            ConsoleOp::ResetStyle,
        ]
    );
}

#[test]
fn rgb_frame_of_empty_target() {
    let cells = RenderTarget::new((0, 0), (0u8, 0u8, 0u8));
    assert_eq!(rgb_frame(&cells), vec![ConsoleOp::Background(0, 0, 0)]);
}

#[test]
fn mono_frame_blocks_and_blanks() {
    let mut lit = RenderTarget::new((2, 2), false);
    lit.set_pixel(0, 0, true);
    lit.set_pixel(1, 1, true);
    assert_eq!(
        mono_frame(&lit),
        vec![
            ConsoleOp::Block,
            ConsoleOp::Blank,
            ConsoleOp::NextRow,
            ConsoleOp::Blank,
            ConsoleOp::Block,
        ]
    );
}
