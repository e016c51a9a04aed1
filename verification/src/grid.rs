//! The intensity grid and its boundary-extended accessors.
//!
//! A [`Grid`] stores 8-bit intensity samples in row-major order. Reads and
//! writes go through accessors that clamp the requested coordinate to the
//! nearest valid edge coordinate ("clamp-to-edge" extension), so any `i32`
//! coordinate, however far out of range, maps to a stored sample.

use vstd::pervasive::VecAdditionalExecFns;
use vstd::prelude::*;

verus! {

/// A 2-D array of 8-bit intensity samples, stored row-major:
/// the sample at column `x`, row `y` sits at index `y * width + x`.
pub struct Grid {
    pub width: usize,
    pub height: usize,
    pub data: Vec<u8>,
}

/// `v` clamped into `[0, hi]` (for `hi >= 0`).
pub open spec fn clamp_to(v: int, hi: int) -> int {
    if v < 0 {
        0
    } else if v > hi {
        hi
    } else {
        v
    }
}

impl Grid {
    /// Well-formedness: the backing vector holds exactly one sample per
    /// coordinate, and each dimension fits an `i32`, the coordinate type
    /// of the boundary-extended accessors.
    pub open spec fn wf(self) -> bool {
        &&& self.data@.len() == self.width * self.height
        &&& self.width <= i32::MAX
        &&& self.height <= i32::MAX
    }

    /// The stored sample at an in-range coordinate.
    pub open spec fn at(self, x: int, y: int) -> u8
        recommends
            self.wf(),
            0 <= x < self.width,
            0 <= y < self.height,
    {
        self.data@[y * self.width + x]
    }

    /// The sample any coordinate reads under clamp-to-edge extension.
    pub open spec fn sample(self, x: int, y: int) -> u8
        recommends
            self.wf(),
            self.width >= 1,
            self.height >= 1,
    {
        self.at(clamp_to(x, self.width - 1), clamp_to(y, self.height - 1))
    }

    /// Checked constructor: accepts exactly the raw parts that form a
    /// well-formed grid.
    pub fn new(width: usize, height: usize, data: Vec<u8>) -> (r: Option<Grid>)
        ensures
            r is Some <==> data@.len() == width * height && width <= i32::MAX && height
                <= i32::MAX,
            r matches Some(g) ==> g.wf() && g.width == width && g.height == height && g.data@
                == data@,
    {
        let fits: bool = width as u64 <= i32::MAX as u64 && height as u64 <= i32::MAX as u64;
        proof {
            if width <= i32::MAX && height <= i32::MAX {
                assert((width as u64) * (height as u64) <= u64::MAX) by (nonlinear_arith)
                    requires
                        width <= i32::MAX,
                        height <= i32::MAX,
                ;
            }
        }
        if fits && data.len() as u64 == width as u64 * height as u64 {
            Some(Grid { width, height, data })
        } else {
            None
        }
    }

    /// Boundary-extended read: clamps `x` into `[0, width-1]` and `y` into
    /// `[0, height-1]` (integer clamp, no wrap-around, no reflection) and
    /// returns the stored 8-bit sample there. Never fails: coordinates may
    /// be out of range by any amount.
    pub fn get_pixel_luma_extended(&self, x: i32, y: i32) -> (v: u8)
        requires
            self.wf(),
            self.width >= 1,
            self.height >= 1,
        ensures
            v == self.sample(x as int, y as int),
    {
        let cx: i32 = clamp_coord(x, self.width as i32 - 1);
        let cy: i32 = clamp_coord(y, self.height as i32 - 1);
        // Pins the sample count to a usize, so the index below fits one.
        let _len: usize = self.data.len();
        proof {
            assert((cy as int) * self.width + (cx as int) < self.width * self.height)
                by (nonlinear_arith)
                requires
                    0 <= cx < self.width,
                    0 <= cy < self.height,
            ;
        }
        let idx: usize = (cy as usize) * self.width + (cx as usize);
        self.data[idx]
    }

    /// Boundary-extended write: clamps the coordinate exactly as the read
    /// path does, then stores the 8-bit sample there. The filter driver
    /// only ever writes in-bounds coordinates, so the clamp is defensive.
    pub fn put_pixel_luma_extended(&mut self, x: i32, y: i32, v: u8)
        requires
            old(self).wf(),
            old(self).width >= 1,
            old(self).height >= 1,
        ensures
            final(self).width == old(self).width,
            final(self).height == old(self).height,
            final(self).wf(),
            final(self).data@ == old(self).data@.update(
                clamp_to(y as int, old(self).height - 1) * old(self).width + clamp_to(
                    x as int,
                    old(self).width - 1,
                ),
                v,
            ),
    {
        let cx: i32 = clamp_coord(x, self.width as i32 - 1);
        let cy: i32 = clamp_coord(y, self.height as i32 - 1);
        // Pins the sample count to a usize, so the index below fits one.
        let _len: usize = self.data.len();
        proof {
            assert((cy as int) * self.width + (cx as int) < self.width * self.height)
                by (nonlinear_arith)
                requires
                    0 <= cx < self.width,
                    0 <= cy < self.height,
            ;
        }
        let idx: usize = (cy as usize) * self.width + (cx as usize);
        self.data.set(idx, v);
    }
}

/// `v` clamped into `[0, hi]`: the executable form of [`clamp_to`].
pub fn clamp_coord(v: i32, hi: i32) -> (c: i32)
    requires
        hi >= 0,
    ensures
        c == clamp_to(v as int, hi as int),
        0 <= c <= hi,
{
    if v < 0 {
        0
    } else if v > hi {
        hi
    } else {
        v
    }
}

} // verus!
