//! A single-channel brightness raster, stored row-major.

use vstd::prelude::*;

verus! {

/// A 2-D grid of 8-bit brightness samples (0 = black, 255 = white) with
/// explicit width and height, stored row-major: the sample at column `x` of
/// row `y` sits at index `y * width + x`.
///
/// Well-formed rasters keep `width * height` within `u32::MAX` so that a sum
/// over any sub-rectangle of samples fits comfortably in a `u64`.
#[derive(Debug)]
pub struct Raster {
    width: usize,
    height: usize,
    data: Vec<u8>,
}

impl View for Raster {
    type V = Seq<u8>;

    /// The samples in row-major order.
    closed spec fn view(&self) -> Seq<u8> {
        self.data@
    }
}

impl Raster {
    pub closed spec fn spec_width(&self) -> int {
        self.width as int
    }

    pub closed spec fn spec_height(&self) -> int {
        self.height as int
    }

    /// The stored samples exactly fill a `width * height` grid, and the grid
    /// is small enough that any sum of its samples fits in a `u64`.
    pub open spec fn wf(&self) -> bool {
        &&& self@.len() == self.spec_width() * self.spec_height()
        &&& self.spec_width() * self.spec_height() <= u32::MAX
    }

    /// A raster of the given dimensions with every sample equal to `fill`.
    pub fn new_filled(width: usize, height: usize, fill: u8) -> (r: Raster)
        requires
            width * height <= u32::MAX,
        ensures
            r.wf(),
            r.spec_width() == width,
            r.spec_height() == height,
            r@ == Seq::new((width * height) as nat, |i: int| fill),
    {
        let n = width * height;
        let mut data: Vec<u8> = Vec::new();
        let mut i: usize = 0;
        while i < n
            invariant
                i <= n,
                data@ =~= Seq::new(i as nat, |k: int| fill),
            decreases n - i,
        {
            data.push(fill);
            i = i + 1;
        }
        assert(data@ =~= Seq::new(n as nat, |k: int| fill));
        Raster { width, height, data }
    }

    /// Wraps an existing row-major sample buffer of the right length.
    pub fn from_data(width: usize, height: usize, data: Vec<u8>) -> (r: Raster)
        requires
            data@.len() == width * height,
            width * height <= u32::MAX,
        ensures
            r.wf(),
            r.spec_width() == width,
            r.spec_height() == height,
            r@ == data@,
    {
        Raster { width, height, data }
    }

    pub fn width(&self) -> (w: usize)
        ensures
            w == self.spec_width(),
    {
        self.width
    }

    pub fn height(&self) -> (h: usize)
        ensures
            h == self.spec_height(),
    {
        self.height
    }

    /// The raw row-major samples.
    pub fn samples(&self) -> (d: &Vec<u8>)
        ensures
            d@ == self@,
    {
        &self.data
    }

    proof fn lemma_index_in_range(&self, x: int, y: int)
        requires
            self.wf(),
            0 <= x < self.spec_width(),
            0 <= y < self.spec_height(),
        ensures
            0 <= y * self.spec_width() + x < self@.len(),
    {
        let w = self.spec_width();
        let h = self.spec_height();
        assert(y * w + x < w * h) by (nonlinear_arith)
            requires
                0 <= x < w,
                0 <= y < h,
        ;
        assert(0 <= y * w) by (nonlinear_arith)
            requires
                0 <= y,
                0 <= w,
        ;
    }

    /// The sample at column `x` of row `y`.
    pub fn get(&self, x: usize, y: usize) -> (v: u8)
        requires
            self.wf(),
            x < self.spec_width(),
            y < self.spec_height(),
        ensures
            v == self@[y * self.spec_width() + x],
    {
        proof {
            self.lemma_index_in_range(x as int, y as int);
        }
        self.data[y * self.width + x]
    }

    /// Overwrites the sample at column `x` of row `y`.
    pub fn set(&mut self, x: usize, y: usize, v: u8)
        requires
            old(self).wf(),
            x < old(self).spec_width(),
            y < old(self).spec_height(),
        ensures
            final(self).wf(),
            final(self).spec_width() == old(self).spec_width(),
            final(self).spec_height() == old(self).spec_height(),
            final(self)@ == old(self)@.update(y * old(self).spec_width() + x, v),
    {
        proof {
            self.lemma_index_in_range(x as int, y as int);
        }
        let i = y * self.width + x;
        self.data[i] = v;
    }
}

} // verus!
