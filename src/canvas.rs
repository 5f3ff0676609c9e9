use vstd::prelude::*;

use crate::error::Error;

verus! {

/// A dense width × height grid of pixels, stored row by row: the pixel at
/// column `x` of row `y` sits at `y * width + x`.
pub struct Canvas<C> {
    width: usize,
    height: usize,
    pixels: Vec<C>,
}

impl<C> Canvas<C> {
    pub closed spec fn spec_width(&self) -> nat {
        self.width as nat
    }

    pub closed spec fn spec_height(&self) -> nat {
        self.height as nat
    }

    /// The pixels in storage order: row 0 first, each row left to right.
    pub closed spec fn cells(&self) -> Seq<C> {
        self.pixels@
    }

    /// The grid has exactly one pixel per coordinate pair.
    pub open spec fn wf(&self) -> bool {
        &&& self.spec_width() * self.spec_height() <= usize::MAX
        &&& self.cells().len() == self.spec_width() * self.spec_height()
    }

    pub open spec fn in_bounds(&self, x: int, y: int) -> bool {
        0 <= x < self.spec_width() && 0 <= y < self.spec_height()
    }

    /// The pixel at column `x` of row `y`.
    pub open spec fn at(&self, x: int, y: int) -> C {
        self.cells()[y * self.spec_width() + x]
    }

    /// Width and height are machine-sized.
    pub proof fn lemma_dims_fit(&self)
        ensures
            self.spec_width() <= usize::MAX,
            self.spec_height() <= usize::MAX,
    {
    }

    pub fn width(&self) -> (r: usize)
        ensures
            r == self.spec_width(),
    {
        self.width
    }

    pub fn height(&self) -> (r: usize)
        ensures
            r == self.spec_height(),
    {
        self.height
    }

    /// The pixels in storage order.
    pub fn pixels(&self) -> (r: &Vec<C>)
        ensures
            r@ == self.cells(),
    {
        &self.pixels
    }
}

/// Where pixel (x, y) of a grid `width` wide is stored lies inside the grid.
proof fn lemma_offset_in_grid(x: int, y: int, width: int, height: int)
    requires
        0 <= x < width,
        0 <= y < height,
    ensures
        0 <= y * width + x < width * height,
{
    assert(y * width + x < width * height) by (nonlinear_arith)
        requires
            0 <= x < width,
            0 <= y < height,
    ;
    assert(0 <= y * width) by (nonlinear_arith)
        requires
            0 <= y,
            0 <= width,
    ;
}

/// Distinct in-bounds coordinates are stored at distinct offsets.
proof fn lemma_offset_injective(x1: int, y1: int, x2: int, y2: int, width: int)
    requires
        0 <= x1 < width,
        0 <= x2 < width,
        0 <= y1,
        0 <= y2,
        y1 * width + x1 == y2 * width + x2,
    ensures
        x1 == x2,
        y1 == y2,
{
    if y1 < y2 {
        assert(y1 * width + width <= y2 * width) by (nonlinear_arith)
            requires
                y1 < y2,
                0 <= width,
        ;
    } else if y2 < y1 {
        assert(y2 * width + width <= y1 * width) by (nonlinear_arith)
            requires
                y2 < y1,
                0 <= width,
        ;
    }
}

impl<C: Copy> Canvas<C> {
    /// A `width` × `height` grid with every pixel set to `background`.
    pub fn create(width: usize, height: usize, background: C) -> (r: Canvas<C>)
        requires
            width * height <= usize::MAX,
        ensures
            r.wf(),
            r.spec_width() == width,
            r.spec_height() == height,
            forall|x: int, y: int| r.in_bounds(x, y) ==> #[trigger] r.at(x, y) == background,
    {
        let n: usize = width * height;
        let mut pixels: Vec<C> = Vec::new();
        let mut i: usize = 0;
        while i < n
            invariant
                i <= n,
                pixels@.len() == i,
                forall|k: int| 0 <= k < i ==> pixels@[k] == background,
            decreases n - i,
        {
            pixels.push(background);
            i = i + 1;
        }
        let r = Canvas { width, height, pixels };
        assert forall|x: int, y: int| r.in_bounds(x, y) implies #[trigger] r.at(x, y)
            == background by {
            lemma_offset_in_grid(x, y, width as int, height as int);
        }
        r
    }

    /// Replaces the pixel at (x, y). Out-of-range coordinates leave the grid
    /// unchanged and give `IndexError`.
    pub fn write(&mut self, x: usize, y: usize, color: C) -> (r: Result<(), Error>)
        requires
            old(self).wf(),
        ensures
            final(self).wf(),
            final(self).spec_width() == old(self).spec_width(),
            final(self).spec_height() == old(self).spec_height(),
            old(self).in_bounds(x as int, y as int) ==> {
                &&& r is Ok
                &&& final(self).at(x as int, y as int) == color
                &&& forall|a: int, b: int|
                    final(self).in_bounds(a, b) && (a != x || b != y)
                        ==> #[trigger] final(self).at(a, b) == old(self).at(a, b)
            },
            !old(self).in_bounds(x as int, y as int) ==> r == Err::<(), Error>(Error::IndexError)
                && final(self).cells() == old(self).cells(),
    {
        if x >= self.width || y >= self.height {
            return Err(Error::IndexError);
        }
        proof {
            lemma_offset_in_grid(x as int, y as int, self.width as int, self.height as int);
        }
        let i: usize = y * self.width + x;
        self.pixels.set(i, color);
        proof {
            assert forall|a: int, b: int|
                self.in_bounds(a, b) && (a != x || b != y) implies #[trigger] self.at(a, b)
                == old(self).at(a, b) by {
                lemma_offset_in_grid(a, b, self.width as int, self.height as int);
                if b * self.width + a == i {
                    lemma_offset_injective(a, b, x as int, y as int, self.width as int);
                }
            }
        }
        Ok(())
    }

    /// The pixel at (x, y), or `IndexError` for out-of-range coordinates.
    pub fn pixel_at(&self, x: usize, y: usize) -> (r: Result<C, Error>)
        requires
            self.wf(),
        ensures
            self.in_bounds(x as int, y as int) ==> r == Ok::<C, Error>(self.at(x as int, y as int)),
            !self.in_bounds(x as int, y as int) ==> r == Err::<C, Error>(Error::IndexError),
    {
        if x >= self.width || y >= self.height {
            return Err(Error::IndexError);
        }
        proof {
            lemma_offset_in_grid(x as int, y as int, self.width as int, self.height as int);
        }
        Ok(self.pixels[y * self.width + x])
    }

    /// The grid of the given size whose pixels, row by row, are `pixels`.
    pub fn from_pixels(width: usize, height: usize, pixels: Vec<C>) -> (r: Canvas<C>)
        requires
            width * height <= usize::MAX,
            pixels@.len() == width * height,
        ensures
            r.wf(),
            r.spec_width() == width,
            r.spec_height() == height,
            r.cells() == pixels@,
    {
        Canvas { width, height, pixels }
    }

    /// A grid of the same size whose every pixel is `f` applied to the pixel
    /// at the same place here.
    pub fn map<D, F: Fn(C) -> D>(&self, f: F) -> (r: Canvas<D>)
        requires
            self.wf(),
            forall|c: C| #[trigger] f.requires((c,)),
        ensures
            r.wf(),
            r.spec_width() == self.spec_width(),
            r.spec_height() == self.spec_height(),
            forall|i: int|
                0 <= i < self.cells().len() ==> f.ensures((self.cells()[i],), #[trigger] r.cells()[i]),
    {
        let n: usize = self.pixels.len();
        let mut out: Vec<D> = Vec::new();
        let mut i: usize = 0;
        while i < n
            invariant
                n == self.pixels@.len(),
                i <= n,
                out@.len() == i,
                forall|c: C| #[trigger] f.requires((c,)),
                forall|k: int| 0 <= k < i ==> #[trigger] f.ensures((self.pixels@[k],), out@[k]),
            decreases n - i,
        {
            let d = f(self.pixels[i]);
            out.push(d);
            i = i + 1;
        }
        Canvas { width: self.width, height: self.height, pixels: out }
    }
}

} // verus!
