use vstd::prelude::*;
use crate::raster::{
    Pixel, covers, is_scan_fill, line_steps, line_point, fill, line_pixels, twice_area,
    lemma_flat_or_back_facing_covers_nothing, lemma_line_ends,
};

verus! {

/// How a fragment's attributes come from the triangle's three vertices,
/// numbered 0, 1 and 2.
#[derive(Clone, Copy, Debug, PartialEq, Eq, Structural)]
pub enum Weighting {
    /// Inside the triangle: barycentric weights of all three vertices.
    Interior,
    /// The first pixel of an edge: that vertex's own attributes.
    Corner(usize),
    /// Further along the edge from one vertex to another: weights by the
    /// distance along it.
    Edge(usize, usize),
}

/// One pixel to be shaded, and how its attributes are to be interpolated.
#[derive(Clone, Copy, Debug, PartialEq, Eq, Structural)]
pub struct Fragment {
    pub x: i32,
    pub y: i32,
    pub weighting: Weighting,
}

/// The fragments that draw the edge from vertex `from` at `p` to vertex `to`
/// at `q`.
pub open spec fn stroke(p: Pixel, q: Pixel, from: usize, to: usize) -> Seq<Fragment> {
    Seq::new(
        line_steps(p, q) + 1,
        |k: int|
            Fragment {
                x: line_point(p, q, k).0 as i32,
                y: line_point(p, q, k).1 as i32,
                weighting: if k == 0 {
                    Weighting::Corner(from)
                } else {
                    Weighting::Edge(from, to)
                },
            },
    )
}

/// The three edges of the triangle `a b c`, in that order.
pub open spec fn outline(a: Pixel, b: Pixel, c: Pixel) -> Seq<Fragment> {
    stroke(a, b, 0, 1) + stroke(b, c, 1, 2) + stroke(c, a, 2, 0)
}

pub open spec fn pixel_of(f: Fragment) -> Pixel {
    (f.x, f.y)
}

/// `s` is the fill of the triangle `a b c`: its covered pixels in scan order,
/// each weighted as an interior point.
pub open spec fn is_interior_fill(s: Seq<Fragment>, a: Pixel, b: Pixel, c: Pixel) -> bool {
    &&& forall|i: int| 0 <= i < s.len() ==> #[trigger] s[i].weighting == Weighting::Interior
    &&& is_scan_fill(s.map_values(|f: Fragment| pixel_of(f)), a, b, c)
}

/// Appends the fragments of the edge from vertex `from` at `p` to vertex `to`
/// at `q`.
fn push_stroke(out: &mut Vec<Fragment>, p: Pixel, q: Pixel, from: usize, to: usize)
    ensures
        final(out)@ == old(out)@ + stroke(p, q, from, to),
{
    let pixels = line_pixels(p, q);
    let ghost start = out@;
    let mut k: usize = 0;
    while k < pixels.len()
        invariant
            k <= pixels@.len(),
            pixels@.len() == line_steps(p, q) + 1,
            forall|j: int|
                0 <= j < pixels@.len() ==> (#[trigger] pixels@[j].0 as int, pixels@[j].1 as int)
                    == line_point(p, q, j),
            out@ == start + stroke(p, q, from, to).take(k as int),
        decreases pixels@.len() - k,
    {
        let (x, y) = pixels[k];
        let weighting = if k == 0 {
            Weighting::Corner(from)
        } else {
            Weighting::Edge(from, to)
        };
        out.push(Fragment { x, y, weighting });
        proof {
            assert((pixels@[k as int].0 as int, pixels@[k as int].1 as int) == line_point(
                p,
                q,
                k as int,
            ));
            assert(stroke(p, q, from, to).take(k + 1) =~= stroke(p, q, from, to).take(
                k as int,
            ).push(stroke(p, q, from, to)[k as int]));
        }
        k = k + 1;
    }
    assert(stroke(p, q, from, to).take(k as int) =~= stroke(p, q, from, to));
}

/// The fragments that draw the triangle `a b c` (vertices 0, 1 and 2): its
/// fill followed by its three edges, or the edges alone for a wireframe.
/// The edges are drawn whatever the triangle's area or winding.
pub fn triangle_fragments(a: Pixel, b: Pixel, c: Pixel, wireframe: bool) -> (r: Vec<Fragment>)
    ensures
        wireframe ==> r@ == outline(a, b, c),
        !wireframe ==> r@.len() >= outline(a, b, c).len() && r@.skip(
            r@.len() - outline(a, b, c).len(),
        ) == outline(a, b, c) && is_interior_fill(
            r@.take(r@.len() - outline(a, b, c).len()),
            a,
            b,
            c,
        ),
{
    let mut out: Vec<Fragment> = Vec::new();
    if !wireframe {
        let covered = fill(a, b, c);
        let mut i: usize = 0;
        while i < covered.len()
            invariant
                i <= covered@.len(),
                out@.len() == i,
                forall|j: int|
                    0 <= j < i ==> #[trigger] out@[j] == (Fragment {
                        x: covered@[j].0,
                        y: covered@[j].1,
                        weighting: Weighting::Interior,
                    }),
            decreases covered@.len() - i,
        {
            let (x, y) = covered[i];
            out.push(Fragment { x, y, weighting: Weighting::Interior });
            i = i + 1;
        }
        assert(out@.map_values(|f: Fragment| pixel_of(f)) =~= covered@);
    }
    let ghost filled = out@;
    push_stroke(&mut out, a, b, 0, 1);
    push_stroke(&mut out, b, c, 1, 2);
    push_stroke(&mut out, c, a, 2, 0);
    assert(out@ =~= filled + outline(a, b, c));
    assert(out@.skip(filled.len() as int) =~= outline(a, b, c));
    assert(out@.take(filled.len() as int) =~= filled);
    out
}

/// An edge's fragments start at its first vertex, whose own attributes they
/// take there, and end at its second.
pub proof fn lemma_stroke_ends(p: Pixel, q: Pixel, from: usize, to: usize)
    ensures
        pixel_of(stroke(p, q, from, to)[0]) == p,
        stroke(p, q, from, to)[0].weighting == Weighting::Corner(from),
        pixel_of(stroke(p, q, from, to)[stroke(p, q, from, to).len() - 1]) == q,
{
    lemma_line_ends(p, q);
}

/// A triangle of zero area, or wound the other way round, is drawn as its
/// outline alone: the fill adds nothing, and each of the three edges still
/// runs from one vertex to the next.
pub proof fn lemma_flat_triangle_is_outline(s: Seq<Fragment>, a: Pixel, b: Pixel, c: Pixel)
    requires
        twice_area(a, b, c) <= 0,
        s.len() >= outline(a, b, c).len(),
        s.skip(s.len() - outline(a, b, c).len()) == outline(a, b, c),
        is_interior_fill(s.take(s.len() - outline(a, b, c).len()), a, b, c),
    ensures
        s == outline(a, b, c),
{
    let n = s.len() - outline(a, b, c).len();
    let filled = s.take(n).map_values(|f: Fragment| pixel_of(f));
    if n > 0 {
        lemma_flat_or_back_facing_covers_nothing(a, b, c);
        assert(filled.contains(filled[0]));
        assert(covers(a, b, c, filled[0]));
    }
    assert(s =~= s.take(n) + s.skip(n));
    assert(s =~= outline(a, b, c));
}

} // verus!
