use vstd::prelude::*;
use crate::render_target::RenderTarget;

verus! {

/// A 24-bit color, one byte per channel.
pub type Rgb = (u8, u8, u8);

/// One step of drawing a frame on a text terminal, where each pixel is two
/// character cells wide.
#[derive(Clone, Copy, Debug, PartialEq, Eq, Structural)]
pub enum ConsoleOp {
    /// Switch the background color.
    Background(u8, u8, u8),
    /// A pixel drawn as blank cells in the current background color.
    Blank,
    /// A lit pixel drawn as full block characters.
    Block,
    /// Move to the start of the next row.
    NextRow,
    /// Restore the terminal's own colors.
    ResetStyle,
}

/// The terminal's pixel grid: each pixel takes two character cells.
pub fn pixels_for_terminal(size: (usize, usize)) -> (r: (usize, usize))
    ensures
        r == (size.0 / 2, size.1),
{
    (size.0 / 2, size.1)
}

/// The background color in force when the pixel at row-major position `i` is
/// drawn: black before the first pixel, then the color of the pixel before.
pub open spec fn color_before(cells: Seq<Rgb>, i: int) -> Rgb {
    if i == 0 {
        (0u8, 0u8, 0u8)
    } else {
        cells[i - 1]
    }
}

/// The pixel at row-major position `i` in color: a color switch only when
/// its color differs from the one in force.
pub open spec fn rgb_cell_ops(cells: Seq<Rgb>, i: int) -> Seq<ConsoleOp> {
    if cells[i] != color_before(cells, i) {
        seq![ConsoleOp::Background(cells[i].0, cells[i].1, cells[i].2), ConsoleOp::Blank]
    } else {
        seq![ConsoleOp::Blank]
    }
}

/// The first `x` pixels of row `y` in color.
pub open spec fn rgb_row_ops(cells: Seq<Rgb>, cols: nat, y: nat, x: nat) -> Seq<ConsoleOp>
    decreases x,
{
    if x == 0 {
        seq![]
    } else {
        rgb_row_ops(cells, cols, y, (x - 1) as nat) + rgb_cell_ops(cells, y * cols + x - 1)
    }
}

/// What follows row `y`: a line break, except after the last row, which is
/// followed by a color reset when `reset` holds and by nothing otherwise.
pub open spec fn row_end(rows: nat, y: nat, reset: bool) -> Seq<ConsoleOp> {
    if y + 1 == rows {
        if reset {
            seq![ConsoleOp::ResetStyle]
        } else {
            seq![]
        }
    } else {
        seq![ConsoleOp::NextRow]
    }
}

/// The first `y` rows in color.
pub open spec fn rgb_rows(cells: Seq<Rgb>, cols: nat, rows: nat, y: nat) -> Seq<ConsoleOp>
    decreases y,
{
    if y == 0 {
        seq![]
    } else {
        rgb_rows(cells, cols, rows, (y - 1) as nat) + rgb_row_ops(cells, cols, (y - 1) as nat, cols)
            + row_end(rows, (y - 1) as nat, true)
    }
}

/// A whole frame in color: black to start with, then every row.
pub open spec fn rgb_frame_ops(cells: Seq<Rgb>, cols: nat, rows: nat) -> Seq<ConsoleOp> {
    seq![ConsoleOp::Background(0, 0, 0)] + rgb_rows(cells, cols, rows, rows)
}

/// The first `x` pixels of row `y` in black and white.
pub open spec fn mono_row_ops(lit: Seq<bool>, cols: nat, y: nat, x: nat) -> Seq<ConsoleOp>
    decreases x,
{
    if x == 0 {
        seq![]
    } else {
        mono_row_ops(lit, cols, y, (x - 1) as nat) + seq![
            if lit[y * cols + x - 1] {
                ConsoleOp::Block
            } else {
                ConsoleOp::Blank
            },
        ]
    }
}

/// The first `y` rows in black and white.
pub open spec fn mono_rows(lit: Seq<bool>, cols: nat, rows: nat, y: nat) -> Seq<ConsoleOp>
    decreases y,
{
    if y == 0 {
        seq![]
    } else {
        mono_rows(lit, cols, rows, (y - 1) as nat) + mono_row_ops(lit, cols, (y - 1) as nat, cols)
            + row_end(rows, (y - 1) as nat, false)
    }
}

/// The steps that draw a frame of colored pixels on a terminal.
pub fn rgb_frame(cells: &RenderTarget<Rgb>) -> (r: Vec<ConsoleOp>)
    requires
        cells.shaped(),
    ensures
        r@ == rgb_frame_ops(cells@, cells.cols(), cells.rows()),
{
    let (width, height) = cells.dimensions();
    let ghost cols = cells.cols();
    let ghost rows = cells.rows();
    let mut out: Vec<ConsoleOp> = Vec::new();
    out.push(ConsoleOp::Background(0, 0, 0));
    let mut current: Rgb = (0, 0, 0);
    let mut y: usize = 0;
    while y < height
        invariant
            width == cols,
            height == rows,
            cols == cells.cols(),
            rows == cells.rows(),
            cells.shaped(),
            y <= height,
            out@ == seq![ConsoleOp::Background(0, 0, 0)] + rgb_rows(cells@, cols, rows, y as nat),
            current == color_before(cells@, y * cols),
        decreases height - y,
    {
        let ghost before_row = out@;
        let mut x: usize = 0;
        while x < width
            invariant
                width == cols,
                height == rows,
                cols == cells.cols(),
                rows == cells.rows(),
                cells.shaped(),
                y < height,
                x <= width,
                out@ == before_row + rgb_row_ops(cells@, cols, y as nat, x as nat),
                current == color_before(cells@, y * cols + x),
            decreases width - x,
        {
            let cell = cells.get_pixel(x, y);
            if cell.0 != current.0 || cell.1 != current.1 || cell.2 != current.2 {
                out.push(ConsoleOp::Background(cell.0, cell.1, cell.2));
                current = cell;
            }
            out.push(ConsoleOp::Blank);
            assert(out@ =~= before_row + rgb_row_ops(cells@, cols, y as nat, (x + 1) as nat));
            x = x + 1;
        }
        if y + 1 == height {
            out.push(ConsoleOp::ResetStyle);
        } else {
            out.push(ConsoleOp::NextRow);
        }
        assert((y + 1) * cols == y * cols + x) by (nonlinear_arith)
            requires
                x == cols,
        ;
        assert(out@ =~= seq![ConsoleOp::Background(0, 0, 0)] + rgb_rows(
            cells@,
            cols,
            rows,
            (y + 1) as nat,
        ));
        y = y + 1;
    }
    out
}

/// The steps that draw a black-and-white frame on a terminal: a block for
/// each lit pixel, a blank for each other.
pub fn mono_frame(lit: &RenderTarget<bool>) -> (r: Vec<ConsoleOp>)
    requires
        lit.shaped(),
    ensures
        r@ == mono_rows(lit@, lit.cols(), lit.rows(), lit.rows()),
{
    let (width, height) = lit.dimensions();
    let ghost cols = lit.cols();
    let ghost rows = lit.rows();
    let mut out: Vec<ConsoleOp> = Vec::new();
    let mut y: usize = 0;
    while y < height
        invariant
            width == cols,
            height == rows,
            cols == lit.cols(),
            rows == lit.rows(),
            lit.shaped(),
            y <= height,
            out@ == mono_rows(lit@, cols, rows, y as nat),
        decreases height - y,
    {
        let ghost before_row = out@;
        let mut x: usize = 0;
        while x < width
            invariant
                width == cols,
                height == rows,
                cols == lit.cols(),
                rows == lit.rows(),
                lit.shaped(),
                y < height,
                x <= width,
                out@ == before_row + mono_row_ops(lit@, cols, y as nat, x as nat),
            decreases width - x,
        {
            if lit.get_pixel(x, y) {
                out.push(ConsoleOp::Block);
            } else {
                out.push(ConsoleOp::Blank);
            }
            assert(out@ =~= before_row + mono_row_ops(lit@, cols, y as nat, (x + 1) as nat));
            x = x + 1;
        }
        if y + 1 != height {
            out.push(ConsoleOp::NextRow);
        }
        assert(out@ =~= mono_rows(lit@, cols, rows, (y + 1) as nat));
        y = y + 1;
    }
    out
}

} // verus!
