use vstd::prelude::*;

use crate::RefineError;

verus! {

/// A W x H grid of booleans marking foreground pixels, stored row-major.
pub struct Mask {
    pub width: usize,
    pub height: usize,
    pub data: Vec<bool>,
}

/// A W x H grid of single-channel byte intensities, stored row-major.
pub struct GrayGrid {
    pub width: usize,
    pub height: usize,
    pub data: Vec<u8>,
}

/// A 4-byte RGBA display color.
#[derive(Clone, Copy, Debug, PartialEq, Eq, Structural)]
pub struct Color {
    pub r: u8,
    pub g: u8,
    pub b: u8,
    pub a: u8,
}

impl Mask {
    /// The storage holds exactly one boolean per pixel.
    pub open spec fn wf(self) -> bool {
        self.data@.len() == self.width * self.height
    }

    pub open spec fn in_bounds(self, x: int, y: int) -> bool {
        0 <= x < self.width && 0 <= y < self.height
    }

    /// The pixel at column `x`, row `y`.
    pub open spec fn at(self, x: int, y: int) -> bool {
        self.data@[y * self.width + x]
    }

    /// Builds a mask from a row-major boolean buffer; the buffer length
    /// must equal `width * height`, else the buffer is malformed.
    pub fn from_vec(width: usize, height: usize, data: Vec<bool>) -> (r: Result<Mask, RefineError>)
        ensures
            data@.len() == width * height ==> (r matches Ok(m) && m.width == width
                && m.height == height && m.data@ == data@ && m.wf()),
            data@.len() != width * height ==> r === Err(RefineError::DecodeFailure),
    {
        if width.checked_mul(height) == Some(data.len()) {
            Ok(Mask { width, height, data })
        } else {
            Err(RefineError::DecodeFailure)
        }
    }

    /// Reads one pixel.
    pub fn get(&self, x: usize, y: usize) -> (r: bool)
        requires
            self.wf(),
            self.in_bounds(x as int, y as int),
        ensures
            r == self.at(x as int, y as int),
    {
        let n = self.data.len();
        proof {
            lemma_grid_index(self.width as int, self.height as int, x as int, y as int);
        }
        self.data[y * self.width + x]
    }

    /// An all-background mask of the given dimensions.
    pub fn all_false(width: usize, height: usize) -> (r: Mask)
        requires
            width * height <= usize::MAX,
        ensures
            r.wf(),
            r.width == width,
            r.height == height,
            forall|x: int, y: int| r.in_bounds(x, y) ==> !r.at(x, y),
    {
        let n = width * height;
        let mut data: Vec<bool> = Vec::new();
        let mut i: usize = 0;
        while i < n
            invariant
                i <= n,
                data@.len() == i,
                forall|j: int| 0 <= j < i ==> !data@[j],
            decreases n - i,
        {
            data.push(false);
            i = i + 1;
        }
        let m = Mask { width, height, data };
        proof {
            assert forall|x: int, y: int| m.in_bounds(x, y) implies !m.at(x, y) by {
                lemma_grid_index(width as int, height as int, x, y);
            }
        }
        m
    }

    /// Writes one pixel.
    pub fn set(&mut self, x: usize, y: usize, v: bool)
        requires
            old(self).wf(),
            old(self).in_bounds(x as int, y as int),
        ensures
            final(self).wf(),
            final(self).width == old(self).width,
            final(self).height == old(self).height,
            final(self).data@ == old(self).data@.update(y as int * old(self).width + x as int, v),
            final(self).at(x as int, y as int) == v,
            forall|x2: int, y2: int|
                old(self).in_bounds(x2, y2) && !(x2 == x && y2 == y)
                    ==> final(self).at(x2, y2) == old(self).at(x2, y2),
    {
        let n = self.data.len();
        proof {
            lemma_grid_index(self.width as int, self.height as int, x as int, y as int);
        }
        let i = y * self.width + x;
        self.data.set(i, v);
        proof {
            assert forall|x2: int, y2: int|
                old(self).in_bounds(x2, y2) && !(x2 == x && y2 == y)
                    implies final(self).at(x2, y2) == old(self).at(x2, y2) by {
                lemma_grid_index(self.width as int, self.height as int, x2, y2);
                lemma_grid_index_injective(self.width as int, self.height as int, x as int, y as int, x2, y2);
            }
        }
    }
}

impl GrayGrid {
    pub open spec fn wf(self) -> bool {
        self.data@.len() == self.width * self.height
    }

    pub open spec fn in_bounds(self, x: int, y: int) -> bool {
        0 <= x < self.width && 0 <= y < self.height
    }

    /// The intensity at column `x`, row `y`.
    pub open spec fn at(self, x: int, y: int) -> u8 {
        self.data@[y * self.width + x]
    }

    /// Builds a grid from a row-major byte buffer; the buffer length
    /// must equal `width * height`, else the buffer is malformed.
    pub fn from_vec(width: usize, height: usize, data: Vec<u8>) -> (r: Result<GrayGrid, RefineError>)
        ensures
            data@.len() == width * height ==> (r matches Ok(g) && g.width == width
                && g.height == height && g.data@ == data@ && g.wf()),
            data@.len() != width * height ==> r === Err(RefineError::DecodeFailure),
    {
        if width.checked_mul(height) == Some(data.len()) {
            Ok(GrayGrid { width, height, data })
        } else {
            Err(RefineError::DecodeFailure)
        }
    }

    /// Reads one pixel.
    pub fn get(&self, x: usize, y: usize) -> (r: u8)
        requires
            self.wf(),
            self.in_bounds(x as int, y as int),
        ensures
            r == self.at(x as int, y as int),
    {
        let n = self.data.len();
        proof {
            lemma_grid_index(self.width as int, self.height as int, x as int, y as int);
        }
        self.data[y * self.width + x]
    }
}

/// A row-major index of an in-bounds pixel stays inside the storage.
pub proof fn lemma_grid_index(width: int, height: int, x: int, y: int)
    requires
        0 <= x < width,
        0 <= y < height,
    ensures
        0 <= y * width + x < width * height,
        y * width + x <= (height - 1) * width + (width - 1),
{
    assert(y * width + x < width * height) by (nonlinear_arith)
        requires 0 <= x < width && 0 <= y < height;
    assert(y * width + x <= (height - 1) * width + (width - 1)) by (nonlinear_arith)
        requires 0 <= x < width && 0 <= y < height;
}

/// Distinct in-bounds pixels have distinct row-major indices.
pub proof fn lemma_grid_index_injective(width: int, height: int, x1: int, y1: int, x2: int, y2: int)
    requires
        0 <= x1 < width,
        0 <= y1 < height,
        0 <= x2 < width,
        0 <= y2 < height,
        !(x1 == x2 && y1 == y2),
    ensures
        y1 * width + x1 != y2 * width + x2,
{
    assert(y1 * width + x1 != y2 * width + x2) by (nonlinear_arith)
        requires 0 <= x1 < width && 0 <= y1 < height && 0 <= x2 < width && 0 <= y2 < height
            && !(x1 == x2 && y1 == y2);
}

} // verus!
