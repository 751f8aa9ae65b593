use vstd::prelude::*;
use crate::render_target::RenderTarget;

verus! {

/// Whether a fragment at `(x, y)` with depth `key` is nearer than what a
/// depth buffer of `cols` by `rows` holds there.
pub open spec fn nearer(depth: Seq<u32>, cols: nat, rows: nat, x: int, y: int, key: u32) -> bool {
    0 <= x < cols && 0 <= y < rows && key < depth[y * cols + x]
}

/// The color and depth buffers after one fragment of color `c` and depth
/// `key` is drawn at `(x, y)`: a nearer fragment replaces both, any other
/// leaves them as they are.
pub open spec fn resolve<C>(
    color: Seq<C>,
    depth: Seq<u32>,
    cols: nat,
    rows: nat,
    x: int,
    y: int,
    key: u32,
    c: C,
) -> (Seq<C>, Seq<u32>) {
    if nearer(depth, cols, rows, x, y, key) {
        (color.update(y * cols + x, c), depth.update(y * cols + x, key))
    } else {
        (color, depth)
    }
}

/// The depth test: when `key` is nearer than the depth stored at `(x, y)`,
/// stores it and returns `true`; otherwise, or outside the buffer, changes
/// nothing and returns `false`.
pub fn depth_test(depth: &mut RenderTarget<u32>, x: i32, y: i32, key: u32) -> (passed: bool)
    requires
        old(depth).shaped(),
    ensures
        passed == nearer(old(depth)@, old(depth).cols(), old(depth).rows(), x as int, y as int, key),
        final(depth).cols() == old(depth).cols(),
        final(depth).rows() == old(depth).rows(),
        final(depth).shaped(),
        final(depth)@ == (if passed {
            old(depth)@.update(old(depth).offset(x as int, y as int), key)
        } else {
            old(depth)@
        }),
{
    if !depth.contains(x, y) {
        return false;
    }
    let stored = depth.get_pixel(x as usize, y as usize);
    if key < stored {
        depth.set_pixel(x as usize, y as usize, key);
        true
    } else {
        false
    }
}

/// Two fragments at one pixel with different depths leave the same color and
/// depth buffers whichever is drawn first; where either is nearer than what
/// was stored, the pixel ends up with the color and depth of the nearer one.
pub proof fn lemma_draw_order_irrelevant<C>(
    color: Seq<C>,
    depth: Seq<u32>,
    cols: nat,
    rows: nat,
    x: int,
    y: int,
    k1: u32,
    c1: C,
    k2: u32,
    c2: C,
)
    requires
        k1 != k2,
        color.len() == cols * rows,
        depth.len() == cols * rows,
    ensures
        ({
            let (color_a, depth_a) = resolve(color, depth, cols, rows, x, y, k1, c1);
            let (color_b, depth_b) = resolve(color, depth, cols, rows, x, y, k2, c2);
            resolve(color_a, depth_a, cols, rows, x, y, k2, c2) == resolve(
                color_b,
                depth_b,
                cols,
                rows,
                x,
                y,
                k1,
                c1,
            )
        }),
        ({
            let (color_a, depth_a) = resolve(color, depth, cols, rows, x, y, k1, c1);
            let (color_f, depth_f) = resolve(color_a, depth_a, cols, rows, x, y, k2, c2);
            let i = y * cols + x;
            (nearer(depth, cols, rows, x, y, k1) || nearer(depth, cols, rows, x, y, k2)) ==> (
            color_f[i] == (if k1 < k2 {
                c1
            } else {
                c2
            }) && depth_f[i] == (if k1 < k2 {
                k1
            } else {
                k2
            }))
        }),
{
    let i = y * cols + x;
    if 0 <= x < cols && 0 <= y < rows {
        assert(0 <= i < cols * rows) by (nonlinear_arith)
            requires
                i == y * cols + x,
                0 <= x < cols,
                0 <= y < rows,
        ;
        let (color_a, depth_a) = resolve(color, depth, cols, rows, x, y, k1, c1);
        let (color_b, depth_b) = resolve(color, depth, cols, rows, x, y, k2, c2);
        let (color_ab, depth_ab) = resolve(color_a, depth_a, cols, rows, x, y, k2, c2);
        let (color_ba, depth_ba) = resolve(color_b, depth_b, cols, rows, x, y, k1, c1);
        assert(color_ab =~= color_ba);
        assert(depth_ab =~= depth_ba);
    }
}

} // verus!
