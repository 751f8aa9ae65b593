use vstd::prelude::*;

verus! {

/// A pixel position; `x` grows to the right, `y` grows downwards.
pub type Pixel = (i32, i32);

/// The z component of the cross product `(b - a) x (p - a)`: positive when
/// `p` lies to the right of the directed edge from `a` to `b` as it appears
/// on screen, with `y` pointing down.
pub open spec fn edge(a: Pixel, b: Pixel, p: Pixel) -> int {
    (b.0 - a.0) * (p.1 - a.1) - (b.1 - a.1) * (p.0 - a.0)
}

/// Twice the signed area of the triangle `a b c`; positive when its corners
/// run clockwise on screen, the front-facing winding.
pub open spec fn twice_area(a: Pixel, b: Pixel, c: Pixel) -> int {
    edge(a, b, c)
}

/// Whether `p` lies strictly on the positive side of all three edges of the
/// triangle `a b c`, taken in that winding order.
pub open spec fn covers(a: Pixel, b: Pixel, c: Pixel, p: Pixel) -> bool {
    edge(a, b, p) > 0 && edge(b, c, p) > 0 && edge(c, a, p) > 0
}

/// The least of three values.
pub open spec fn min3(a: int, b: int, c: int) -> int {
    if a <= b && a <= c {
        a
    } else if b <= c {
        b
    } else {
        c
    }
}

/// The greatest of three values.
pub open spec fn max3(a: int, b: int, c: int) -> int {
    if a >= b && a >= c {
        a
    } else if b >= c {
        b
    } else {
        c
    }
}

/// Whether `p` lies in the smallest pixel rectangle holding `a`, `b` and `c`.
pub open spec fn in_bounding_box(a: Pixel, b: Pixel, c: Pixel, p: Pixel) -> bool {
    min3(a.0 as int, b.0 as int, c.0 as int) <= p.0 <= max3(a.0 as int, b.0 as int, c.0 as int)
        && min3(a.1 as int, b.1 as int, c.1 as int) <= p.1 <= max3(
        a.1 as int,
        b.1 as int,
        c.1 as int,
    )
}

/// Strict order of pixels column by column, top to bottom within a column:
/// the order in which a triangle's bounding box is scanned.
pub open spec fn scan_before(p: Pixel, q: Pixel) -> bool {
    p.0 < q.0 || (p.0 == q.0 && p.1 < q.1)
}

/// The edge values with the first vertex moved to the origin: `(bx, by)`,
/// `(cx, cy)` and `(px, py)` are the other points relative to it.
proof fn lemma_relative_edges(bx: int, by: int, cx: int, cy: int, px: int, py: int)
    ensures
        (cx - bx) * (py - by) - (cy - by) * (px - bx) == (bx * cy - by * cx) - (cy * px - cx * py)
            - (bx * py - by * px),
        (0 - cx) * (py - cy) - (0 - cy) * (px - cx) == cy * px - cx * py,
        (cy * px - cx * py) * bx + (bx * py - by * px) * cx == (bx * cy - by * cx) * px,
        (cy * px - cx * py) * by + (bx * py - by * px) * cy == (bx * cy - by * cx) * py,
{
    assert((cx - bx) * (py - by) - (cy - by) * (px - bx) == (bx * cy - by * cx) - (cy * px - cx
        * py) - (bx * py - by * px)) by (nonlinear_arith);
    assert((0 - cx) * (py - cy) - (0 - cy) * (px - cx) == cy * px - cx * py) by (nonlinear_arith);
    assert((cy * px - cx * py) * bx + (bx * py - by * px) * cx == (bx * cy - by * cx) * px)
        by (nonlinear_arith);
    assert((cy * px - cx * py) * by + (bx * py - by * px) * cy == (bx * cy - by * cx) * py)
        by (nonlinear_arith);
}

/// Moving the origin back: weights that sum to `s` shift a weighted sum by
/// `s` times the offset.
proof fn lemma_shift_weights(u: int, v: int, w: int, o: int, b: int, c: int)
    ensures
        u * o + v * (b + o) + w * (c + o) == (u + v + w) * o + (v * b + w * c),
{
    assert(u * o + v * (b + o) + w * (c + o) == (u + v + w) * o + (v * b + w * c))
        by (nonlinear_arith);
}

/// Each coordinate of `p`, weighted by the area sum, is the edge-weighted sum
/// of the vertices' coordinates; the weights add up to the area sum.
proof fn lemma_edge_weights(a: Pixel, b: Pixel, c: Pixel, p: Pixel)
    ensures
        edge(a, b, p) + edge(b, c, p) + edge(c, a, p) == twice_area(a, b, c),
        edge(b, c, p) * a.0 + edge(c, a, p) * b.0 + edge(a, b, p) * c.0 == twice_area(a, b, c)
            * p.0,
        edge(b, c, p) * a.1 + edge(c, a, p) * b.1 + edge(a, b, p) * c.1 == twice_area(a, b, c)
            * p.1,
{
    let bx = b.0 - a.0;
    let by = b.1 - a.1;
    let cx = c.0 - a.0;
    let cy = c.1 - a.1;
    let px = p.0 - a.0;
    let py = p.1 - a.1;
    lemma_relative_edges(bx, by, cx, cy, px, py);
    let u = edge(b, c, p);
    let v = edge(c, a, p);
    let w = edge(a, b, p);
    let s = twice_area(a, b, c);
    assert(c.0 - b.0 == cx - bx && p.1 - b.1 == py - by && c.1 - b.1 == cy - by && p.0 - b.0 == px
        - bx);
    assert(u == (cx - bx) * (py - by) - (cy - by) * (px - bx));
    assert(a.0 - c.0 == 0 - cx && p.1 - c.1 == py - cy && a.1 - c.1 == 0 - cy && p.0 - c.0 == px
        - cx);
    assert(v == (0 - cx) * (py - cy) - (0 - cy) * (px - cx));
    assert(w == bx * py - by * px);
    assert(s == bx * cy - by * cx);
    assert(u + v + w == s);
    lemma_shift_weights(u, v, w, a.0 as int, bx, cx);
    lemma_shift_weights(u, v, w, a.1 as int, by, cy);
    assert(u * a.0 + v * b.0 + w * c.0 == s * a.0 + s * px);
    assert(u * a.1 + v * b.1 + w * c.1 == s * a.1 + s * py);
    vstd::arithmetic::mul::lemma_mul_is_distributive_add(s, a.0 as int, px);
    vstd::arithmetic::mul::lemma_mul_is_distributive_add(s, a.1 as int, py);
}

/// A value that is a positive-weighted mean of three values lies between
/// their least and their greatest.
proof fn lemma_weighted_mean_bounds(u: int, v: int, w: int, s: int, x0: int, x1: int, x2: int, q: int)
    requires
        u > 0,
        v > 0,
        w > 0,
        s == u + v + w,
        u * x0 + v * x1 + w * x2 == s * q,
    ensures
        min3(x0, x1, x2) <= q <= max3(x0, x1, x2),
{
    let m = min3(x0, x1, x2);
    let n = max3(x0, x1, x2);
    assert(s * m <= s * q) by (nonlinear_arith)
        requires
            u > 0,
            v > 0,
            w > 0,
            s == u + v + w,
            u * x0 + v * x1 + w * x2 == s * q,
            m <= x0,
            m <= x1,
            m <= x2,
    ;
    assert(s * q <= s * n) by (nonlinear_arith)
        requires
            u > 0,
            v > 0,
            w > 0,
            s == u + v + w,
            u * x0 + v * x1 + w * x2 == s * q,
            n >= x0,
            n >= x1,
            n >= x2,
    ;
    assert(m <= q) by (nonlinear_arith)
        requires
            s > 0,
            s * m <= s * q,
    ;
    assert(q <= n) by (nonlinear_arith)
        requires
            s > 0,
            s * q <= s * n,
    ;
}

/// A covered pixel lies in the triangle's bounding box, and only a triangle
/// of positive area covers any pixel.
pub proof fn lemma_covered_inside(a: Pixel, b: Pixel, c: Pixel, p: Pixel)
    requires
        covers(a, b, c, p),
    ensures
        in_bounding_box(a, b, c, p),
        twice_area(a, b, c) > 0,
{
    lemma_edge_weights(a, b, c, p);
    lemma_weighted_mean_bounds(
        edge(b, c, p),
        edge(c, a, p),
        edge(a, b, p),
        twice_area(a, b, c),
        a.0 as int,
        b.0 as int,
        c.0 as int,
        p.0 as int,
    );
    lemma_weighted_mean_bounds(
        edge(b, c, p),
        edge(c, a, p),
        edge(a, b, p),
        twice_area(a, b, c),
        a.1 as int,
        b.1 as int,
        c.1 as int,
        p.1 as int,
    );
}

/// A triangle with zero area, or wound the other way round, covers no pixel.
pub proof fn lemma_flat_or_back_facing_covers_nothing(a: Pixel, b: Pixel, c: Pixel)
    requires
        twice_area(a, b, c) <= 0,
    ensures
        forall|p: Pixel| !covers(a, b, c, p),
{
    assert forall|p: Pixel| !covers(a, b, c, p) by {
        lemma_edge_weights(a, b, c, p);
    }
}

/// Whether `p` is on the positive side of the directed edge from `a` to `b`.
pub fn right_side(a: Pixel, b: Pixel, p: Pixel) -> (r: bool)
    ensures
        r == (edge(a, b, p) > 0),
{
    let abx: i64 = b.0 as i64 - a.0 as i64;
    let aby: i64 = b.1 as i64 - a.1 as i64;
    let apx: i64 = p.0 as i64 - a.0 as i64;
    let apy: i64 = p.1 as i64 - a.1 as i64;
    let (abx, aby, apx, apy) = (abx as i128, aby as i128, apx as i128, apy as i128);
    assert(-0x1_0000_0000_0000_0000 <= abx * apy <= 0x1_0000_0000_0000_0000) by (nonlinear_arith)
        requires
            -0x1_0000_0000 <= abx <= 0x1_0000_0000,
            -0x1_0000_0000 <= apy <= 0x1_0000_0000,
    ;
    assert(-0x1_0000_0000_0000_0000 <= aby * apx <= 0x1_0000_0000_0000_0000) by (nonlinear_arith)
        requires
            -0x1_0000_0000 <= aby <= 0x1_0000_0000,
            -0x1_0000_0000 <= apx <= 0x1_0000_0000,
    ;
    let z: i128 = abx * apy - aby * apx;
    z > 0
}

/// Whether the triangle `a b c` covers `p`: the coverage test, which is also
/// the back-face test.
pub fn is_covered(a: Pixel, b: Pixel, c: Pixel, p: Pixel) -> (r: bool)
    ensures
        r == covers(a, b, c, p),
{
    right_side(a, b, p) && right_side(b, c, p) && right_side(c, a, p)
}

/// `s` lists exactly the pixels that the triangle `a b c` covers, each once,
/// in scan order.
pub open spec fn is_scan_fill(s: Seq<Pixel>, a: Pixel, b: Pixel, c: Pixel) -> bool {
    &&& forall|p: Pixel| s.contains(p) <==> covers(a, b, c, p)
    &&& forall|i: int, j: int| 0 <= i < j < s.len() ==> scan_before(s[i], s[j])
}

/// Whether `p` comes before the scan cursor at column `x`, row `y`.
spec fn precedes(p: Pixel, x: int, y: int) -> bool {
    p.0 < x || (p.0 == x && p.1 < y)
}

/// Appending `e` adds exactly `e` to what a sequence contains.
proof fn lemma_push_contains(s: Seq<Pixel>, e: Pixel)
    ensures
        forall|p: Pixel| #[trigger] s.push(e).contains(p) <==> (s.contains(p) || p == e),
{
    assert forall|p: Pixel| #[trigger] s.push(e).contains(p) <==> (s.contains(p) || p == e) by {
        if s.contains(p) {
            let i = choose|i: int| 0 <= i < s.len() && s[i] == p;
            assert(s.push(e)[i] == p);
        }
        if p == e {
            assert(s.push(e)[s.len() as int] == p);
        }
        if s.push(e).contains(p) && p != e {
            let i = choose|i: int| 0 <= i < s.len() + 1 && s.push(e)[i] == p;
            assert(i < s.len());
            assert(s[i] == p);
        }
    }
}

fn min_of(a: i32, b: i32, c: i32) -> (r: i32)
    ensures
        r == min3(a as int, b as int, c as int),
{
    if a <= b && a <= c {
        a
    } else if b <= c {
        b
    } else {
        c
    }
}

fn max_of(a: i32, b: i32, c: i32) -> (r: i32)
    ensures
        r == max3(a as int, b as int, c as int),
{
    if a >= b && a >= c {
        a
    } else if b >= c {
        b
    } else {
        c
    }
}

/// The pixels that the triangle `a b c` covers, found by testing every pixel
/// of its bounding box, column by column. A triangle of zero area, or one
/// wound the other way round, covers none.
pub fn fill(a: Pixel, b: Pixel, c: Pixel) -> (r: Vec<Pixel>)
    ensures
        is_scan_fill(r@, a, b, c),
        twice_area(a, b, c) <= 0 ==> r@.len() == 0,
{
    let left = min_of(a.0, b.0, c.0);
    let right = max_of(a.0, b.0, c.0);
    let top = min_of(a.1, b.1, c.1);
    let bottom = max_of(a.1, b.1, c.1);
    let mut out: Vec<Pixel> = Vec::new();
    let mut x: i64 = left as i64;
    while x <= right as i64
        invariant
            left <= x <= right as int + 1,
            left == min3(a.0 as int, b.0 as int, c.0 as int),
            right == max3(a.0 as int, b.0 as int, c.0 as int),
            top == min3(a.1 as int, b.1 as int, c.1 as int),
            bottom == max3(a.1 as int, b.1 as int, c.1 as int),
            forall|i: int| 0 <= i < out@.len() ==> covers(a, b, c, #[trigger] out@[i]) && precedes(
                out@[i],
                x as int,
                top as int,
            ),
            forall|i: int, j: int| 0 <= i < j < out@.len() ==> scan_before(out@[i], out@[j]),
            forall|p: Pixel|
                covers(a, b, c, p) && in_bounding_box(a, b, c, p) && precedes(p, x as int, top as int)
                    ==> #[trigger] out@.contains(p),
        decreases right as int + 1 - x,
    {
        let mut y: i64 = top as i64;
        while y <= bottom as i64
            invariant
                left <= x <= right,
                top <= y <= bottom as int + 1,
                left == min3(a.0 as int, b.0 as int, c.0 as int),
                right == max3(a.0 as int, b.0 as int, c.0 as int),
                top == min3(a.1 as int, b.1 as int, c.1 as int),
                bottom == max3(a.1 as int, b.1 as int, c.1 as int),
                forall|i: int|
                    0 <= i < out@.len() ==> covers(a, b, c, #[trigger] out@[i]) && precedes(
                        out@[i],
                        x as int,
                        y as int,
                    ),
                forall|i: int, j: int| 0 <= i < j < out@.len() ==> scan_before(out@[i], out@[j]),
                forall|p: Pixel|
                    covers(a, b, c, p) && in_bounding_box(a, b, c, p) && precedes(
                        p,
                        x as int,
                        y as int,
                    ) ==> #[trigger] out@.contains(p),
            decreases bottom as int + 1 - y,
        {
            let p: Pixel = (x as i32, y as i32);
            if is_covered(a, b, c, p) {
                let ghost before = out@;
                out.push(p);
                proof {
                    lemma_push_contains(before, p);
                }
            }
            y = y + 1;
        }
        x = x + 1;
    }
    proof {
        assert forall|p: Pixel| out@.contains(p) <==> covers(a, b, c, p) by {
            if covers(a, b, c, p) {
                lemma_covered_inside(a, b, c, p);
            }
            if out@.contains(p) {
                let i = choose|i: int| 0 <= i < out@.len() && out@[i] == p;
                assert(covers(a, b, c, out@[i]));
            }
        }
        if twice_area(a, b, c) <= 0 && out@.len() > 0 {
            lemma_flat_or_back_facing_covers_nothing(a, b, c);
            assert(covers(a, b, c, out@[0]));
        }
    }
    out
}

/// The absolute value.
pub open spec fn abs(n: int) -> int {
    if n < 0 {
        -n
    } else {
        n
    }
}

/// -1, 0 or 1, as `n` is negative, zero or positive.
pub open spec fn sign(n: int) -> int {
    if n > 0 {
        1
    } else if n < 0 {
        -1
    } else {
        0
    }
}

/// `n / d` rounded to the nearest integer, halves away from zero.
pub open spec fn round_div(n: int, d: int) -> int
    recommends
        d != 0,
{
    let m = (2 * abs(n) + abs(d)) / (2 * abs(d));
    if (n >= 0) == (d > 0) {
        m
    } else {
        -m
    }
}

/// Number of steps from `p` to `q` along the dominant axis.
pub open spec fn line_steps(p: Pixel, q: Pixel) -> nat {
    let dx = q.0 - p.0;
    let dy = q.1 - p.1;
    if abs(dx) >= abs(dy) {
        abs(dx) as nat
    } else {
        abs(dy) as nat
    }
}

/// The `k`-th pixel of the line from `p` to `q`: `k` steps along the
/// dominant axis, and on the other axis the step times the slope, rounded.
pub open spec fn line_point(p: Pixel, q: Pixel, k: int) -> (int, int) {
    let dx = q.0 - p.0;
    let dy = q.1 - p.1;
    if dx == 0 && dy == 0 {
        (p.0 as int, p.1 as int)
    } else if abs(dx) >= abs(dy) {
        let step = k * sign(dx);
        (p.0 + step, p.1 + round_div(step * dy, dx))
    } else {
        let step = k * sign(dy);
        (p.0 + round_div(step * dx, dy), p.1 + step)
    }
}

/// Stepping `k` of the `|d|` steps along the dominant axis moves the other
/// coordinate by an amount between zero and the whole minor difference `m`:
/// by nothing at the start, and by exactly `m` at the last step.
proof fn lemma_round_step(k: int, d: int, m: int)
    requires
        d != 0,
        0 <= k <= abs(d),
    ensures
        m >= 0 ==> 0 <= round_div(k * sign(d) * m, d) <= m,
        m < 0 ==> m <= round_div(k * sign(d) * m, d) <= 0,
        k == 0 ==> round_div(k * sign(d) * m, d) == 0,
        k == abs(d) ==> round_div(k * sign(d) * m, d) == m,
        k == abs(d) ==> k * sign(d) == d,
{
    let n = k * sign(d) * m;
    let a = k * abs(m);
    let b = abs(d);
    if d > 0 {
        assert(n == k * m);
    } else {
        assert(n == -(k * m)) by (nonlinear_arith)
            requires
                n == k * sign(d) * m,
                sign(d) == -1,
        ;
    }
    if m >= 0 {
        assert(k * m >= 0) by (nonlinear_arith)
            requires
                k >= 0,
                m >= 0,
        ;
        assert(a == k * m);
    } else {
        assert(k * m <= 0) by (nonlinear_arith)
            requires
                k >= 0,
                m < 0,
        ;
        assert(a == -(k * m)) by (nonlinear_arith)
            requires
                a == k * abs(m),
                abs(m) == -m,
        ;
    }
    assert(abs(n) == a);
    assert(a <= b * abs(m)) by (nonlinear_arith)
        requires
            a == k * abs(m),
            0 <= k <= b,
            abs(m) >= 0,
    ;
    let r0 = (2 * a + b) / (2 * b);
    vstd::arithmetic::div_mod::lemma_fundamental_div_mod(2 * a + b, 2 * b);
    vstd::arithmetic::div_mod::lemma_mod_bound(2 * a + b, 2 * b);
    assert(0 <= r0 <= abs(m)) by (nonlinear_arith)
        requires
            b > 0,
            a >= 0,
            a <= b * abs(m),
            2 * a + b == (2 * b) * r0 + (2 * a + b) % (2 * b),
            0 <= (2 * a + b) % (2 * b) < 2 * b,
    ;
    if k == 0 || m == 0 {
        assert(a == 0) by (nonlinear_arith)
            requires
                a == k * abs(m),
                k == 0 || m == 0,
                abs(m) == (if m < 0 { -m } else { m }),
        ;
        vstd::arithmetic::div_mod::lemma_fundamental_div_mod_converse(b, 2 * b, 0, b);
    }
    if k == b {
        assert(a == abs(m) * b) by (nonlinear_arith)
            requires
                a == k * abs(m),
                k == b,
        ;
        assert(2 * a + b == abs(m) * (2 * b) + b) by (nonlinear_arith)
            requires
                a == abs(m) * b,
        ;
        vstd::arithmetic::div_mod::lemma_fundamental_div_mod_converse(2 * a + b, 2 * b, abs(m), b);
        if d > 0 {
            assert(k * sign(d) == d);
        } else {
            assert(k * sign(d) == d) by (nonlinear_arith)
                requires
                    k == b,
                    b == -d,
                    sign(d) == -1,
            ;
        }
    }
    if k > 0 && m != 0 {
        // The sign of `n / d` is the sign of `m`.
        if m > 0 {
            assert(k * m > 0) by (nonlinear_arith)
                requires
                    k > 0,
                    m > 0,
            ;
        } else {
            assert(k * m < 0) by (nonlinear_arith)
                requires
                    k > 0,
                    m < 0,
            ;
        }
    }
}

/// Rounds `n / d` to the nearest integer, halves away from zero.
fn round_div_exec(n: i128, d: i128) -> (r: i128)
    requires
        d != 0,
        -0x1_0000_0000_0000_0000_0000 <= n <= 0x1_0000_0000_0000_0000_0000,
        -0x1_0000_0000_0000_0000_0000 <= d <= 0x1_0000_0000_0000_0000_0000,
    ensures
        r == round_div(n as int, d as int),
{
    let an: i128 = if n < 0 {
        -n
    } else {
        n
    };
    let ad: i128 = if d < 0 {
        -d
    } else {
        d
    };
    let m: i128 = (2 * an + ad) / (2 * ad);
    if (n >= 0) == (d > 0) {
        m
    } else {
        -m
    }
}

/// The pixels of the line from `p` to `q`, in the order they are painted:
/// `p` first, then one pixel per step along the dominant axis, ending at `q`.
/// A line whose ends coincide is a single pixel.
pub fn line_pixels(p: Pixel, q: Pixel) -> (r: Vec<Pixel>)
    ensures
        r@.len() == line_steps(p, q) + 1,
        forall|k: int|
            0 <= k < r@.len() ==> (#[trigger] r@[k].0 as int, r@[k].1 as int) == line_point(p, q, k),
        r@[0] == p,
        r@[r@.len() - 1] == q,
{
    let dx: i64 = q.0 as i64 - p.0 as i64;
    let dy: i64 = q.1 as i64 - p.1 as i64;
    let mut out: Vec<Pixel> = Vec::new();
    out.push(p);
    if dx == 0 && dy == 0 {
        return out;
    }
    let adx: i64 = if dx < 0 {
        -dx
    } else {
        dx
    };
    let ady: i64 = if dy < 0 {
        -dy
    } else {
        dy
    };
    // `d` is the difference along the dominant axis, `m` along the other.
    let x_major = adx >= ady;
    let (d, m, steps) = if x_major {
        (dx, dy, adx)
    } else {
        (dy, dx, ady)
    };
    let s: i64 = if d > 0 {
        1
    } else {
        -1
    };
    proof {
        lemma_round_step(0, d as int, m as int);
    }
    let mut k: i64 = 0;
    while k < steps
        invariant
            0 <= k <= steps,
            steps == abs(d as int),
            steps <= 0x1_0000_0000,
            abs(m as int) <= steps,
            d != 0,
            s == sign(d as int),
            dx == q.0 - p.0,
            dy == q.1 - p.1,
            x_major == (abs(dx as int) >= abs(dy as int)),
            x_major ==> d == dx && m == dy,
            !x_major ==> d == dy && m == dx,
            out@.len() == k + 1,
            out@[0] == p,
            forall|j: int|
                0 <= j < out@.len() ==> (#[trigger] out@[j].0 as int, out@[j].1 as int)
                    == line_point(p, q, j),
        decreases steps - k,
    {
        k = k + 1;
        assert(-0x1_0000_0000 <= k * s <= 0x1_0000_0000) by (nonlinear_arith)
            requires
                0 <= k <= 0x1_0000_0000,
                s == 1 || s == -1,
        ;
        let step: i64 = k * s;
        assert(-0x1_0000_0000_0000_0000 <= step * m <= 0x1_0000_0000_0000_0000)
            by (nonlinear_arith)
            requires
                -0x1_0000_0000 <= step <= 0x1_0000_0000,
                -0x1_0000_0000 <= m <= 0x1_0000_0000,
        ;
        let minor: i128 = round_div_exec(step as i128 * m as i128, d as i128);
        proof {
            lemma_round_step(k as int, d as int, m as int);
        }
        let e: Pixel = if x_major {
            ((p.0 as i64 + step) as i32, (p.1 as i64 + minor as i64) as i32)
        } else {
            ((p.0 as i64 + minor as i64) as i32, (p.1 as i64 + step) as i32)
        };
        out.push(e);
    }
    proof {
        lemma_round_step(steps as int, d as int, m as int);
        let last = out@[out@.len() - 1];
        assert((last.0 as int, last.1 as int) == line_point(p, q, steps as int));
        assert(last == q);
    }
    out
}

/// The line from `p` to `q` starts at `p` and, after its last step, reaches
/// `q`.
pub proof fn lemma_line_ends(p: Pixel, q: Pixel)
    ensures
        line_point(p, q, 0) == (p.0 as int, p.1 as int),
        line_point(p, q, line_steps(p, q) as int) == (q.0 as int, q.1 as int),
{
    let dx = q.0 - p.0;
    let dy = q.1 - p.1;
    if dx != 0 || dy != 0 {
        if abs(dx) >= abs(dy) {
            lemma_round_step(0, dx, dy);
            lemma_round_step(abs(dx), dx, dy);
        } else {
            lemma_round_step(0, dy, dx);
            lemma_round_step(abs(dy), dy, dx);
        }
    }
}

} // verus!
