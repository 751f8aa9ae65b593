use vstd::prelude::*;

verus! {

/// A `width` by `height` grid of pixels, stored row by row.
///
/// The same type serves as a color buffer and, with integer depth keys as
/// pixels, as a depth buffer.
pub struct RenderTarget<P> {
    width: usize,
    height: usize,
    pixels: Vec<P>,
}

impl<P> View for RenderTarget<P> {
    type V = Seq<P>;

    closed spec fn view(&self) -> Seq<P> {
        self.pixels@
    }
}

impl<P> RenderTarget<P> {
    /// Number of columns.
    pub closed spec fn cols(&self) -> nat {
        self.width as nat
    }

    /// Number of rows.
    pub closed spec fn rows(&self) -> nat {
        self.height as nat
    }

    /// The buffer holds exactly one pixel per cell.
    pub open spec fn shaped(&self) -> bool {
        self@.len() == self.cols() * self.rows()
    }

    /// Whether `(x, y)` names a pixel of this target.
    pub open spec fn in_bounds(&self, x: int, y: int) -> bool {
        0 <= x < self.cols() && 0 <= y < self.rows()
    }

    /// Position of pixel `(x, y)` in the row-major buffer.
    pub open spec fn offset(&self, x: int, y: int) -> int {
        y * self.cols() + x
    }

    /// The pixel at `(x, y)`.
    pub open spec fn at(&self, x: int, y: int) -> P {
        self@[self.offset(x, y)]
    }

}

impl<P: Copy> RenderTarget<P> {
    /// A `width` by `height` target whose every pixel is `fill`.
    pub fn new(dimensions: (usize, usize), fill: P) -> (r: RenderTarget<P>)
        requires
            dimensions.0 * dimensions.1 <= usize::MAX,
        ensures
            r.cols() == dimensions.0,
            r.rows() == dimensions.1,
            r.shaped(),
            r@ == Seq::new((dimensions.0 * dimensions.1) as nat, |i: int| fill),
    {
        let (width, height) = dimensions;
        let n: usize = width * height;
        let mut pixels: Vec<P> = Vec::with_capacity(n);
        let mut i: usize = 0;
        while i < n
            invariant
                i <= n,
                pixels@ == Seq::new(i as nat, |k: int| fill),
            decreases n - i,
        {
            pixels.push(fill);
            i += 1;
            assert(pixels@ =~= Seq::new(i as nat, |k: int| fill));
        }
        RenderTarget { width, height, pixels }
    }

    /// Overwrites every pixel with `fill`.
    pub fn clear(&mut self, fill: P)
        requires
            old(self).shaped(),
        ensures
            final(self).cols() == old(self).cols(),
            final(self).rows() == old(self).rows(),
            final(self).shaped(),
            final(self)@ == Seq::new(old(self)@.len(), |i: int| fill),
    {
        let n: usize = self.pixels.len();
        let mut i: usize = 0;
        while i < n
            invariant
                i <= n,
                n == old(self)@.len(),
                self.width == old(self).width,
                self.height == old(self).height,
                self.pixels@.len() == n,
                n == self.width * self.height,
                forall|k: int| 0 <= k < i ==> self.pixels@[k] == fill,
            decreases n - i,
        {
            self.pixels.set(i, fill);
            i += 1;
        }
        assert(self.pixels@ =~= Seq::new(n as nat, |k: int| fill));
    }

    /// Writes `color` at `(x, y)`; a pixel outside the target is rejected
    /// and nothing changes. Returns whether the write happened.
    pub fn set_pixel(&mut self, x: usize, y: usize, color: P) -> (written: bool)
        requires
            old(self).shaped(),
        ensures
            written == old(self).in_bounds(x as int, y as int),
            final(self).cols() == old(self).cols(),
            final(self).rows() == old(self).rows(),
            final(self).shaped(),
            final(self)@ == (if written {
                old(self)@.update(old(self).offset(x as int, y as int), color)
            } else {
                old(self)@
            }),
    {
        let n: usize = self.pixels.len();
        if x < self.width && y < self.height {
            proof {
                lemma_grid_offset(x as int, y as int, self.width as int, self.height as int);
            }
            let i: usize = y * self.width + x;
            self.pixels.set(i, color);
            true
        } else {
            false
        }
    }

    /// The pixel at `(x, y)`.
    pub fn get_pixel(&self, x: usize, y: usize) -> (r: P)
        requires
            self.shaped(),
            self.in_bounds(x as int, y as int),
        ensures
            r == self.at(x as int, y as int),
            0 <= self.offset(x as int, y as int) < self@.len(),
    {
        let n: usize = self.pixels.len();
        proof {
            lemma_grid_offset(x as int, y as int, self.width as int, self.height as int);
        }
        self.pixels[y * self.width + x]
    }
}

impl<P> RenderTarget<P> {
    /// `(width, height)`.
    pub fn dimensions(&self) -> (r: (usize, usize))
        ensures
            r.0 == self.cols(),
            r.1 == self.rows(),
    {
        (self.width, self.height)
    }

    /// Whether the signed pixel coordinates `(x, y)` fall inside the target.
    pub fn contains(&self, x: i32, y: i32) -> (r: bool)
        ensures
            r == self.in_bounds(x as int, y as int),
    {
        0 <= x && (x as usize) < self.width && 0 <= y && (y as usize) < self.height
    }
}

proof fn lemma_grid_offset(x: int, y: int, w: int, h: int)
    requires
        0 <= x < w,
        0 <= y < h,
    ensures
        0 <= y * w + x < w * h,
{
    assert(y * w + x < w * h) by (nonlinear_arith)
        requires
            0 <= x < w,
            0 <= y < h,
    ;
    assert(0 <= y * w) by (nonlinear_arith)
        requires
            0 <= y,
            0 <= w,
    ;
}

} // verus!
