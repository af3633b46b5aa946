//! The brush-radius ladder: a fixed sequence of nine radii, doubling from
//! one cell to 256 cells, addressed by a small index.

use vstd::prelude::*;

verus! {

/// The radius, in cells, at a ladder position.
pub open spec fn radius_of(i: int) -> int {
    if i <= 0 {
        1
    } else if i == 1 {
        2
    } else if i == 2 {
        4
    } else if i == 3 {
        8
    } else if i == 4 {
        16
    } else if i == 5 {
        32
    } else if i == 6 {
        64
    } else if i == 7 {
        128
    } else {
        256
    }
}

/// A position on the brush-radius ladder.
#[derive(Debug, Clone, Copy)]
pub struct RadiusId(u8);

impl RadiusId {
    /// The ladder position this id denotes.
    pub closed spec fn idx(self) -> int {
        self.0 as int
    }

    /// An id is valid while it addresses one of the nine rungs.
    pub open spec fn valid(self) -> bool {
        0 <= self.idx() < 9
    }

    /// Steps to the next larger radius, saturating at the largest rung.
    pub fn next_bigger(&mut self)
        requires
            old(self).valid(),
        ensures
            final(self).valid(),
            final(self).idx() == if old(self).idx() < 8 {
                old(self).idx() + 1
            } else {
                8int
            },
    {
        self.0 = if self.0 < 8 {
            self.0 + 1
        } else {
            8
        };
    }

    /// Steps to the next smaller radius, saturating at the smallest rung.
    pub fn next_smaller(&mut self)
        requires
            old(self).valid(),
        ensures
            final(self).valid(),
            final(self).idx() == if old(self).idx() > 0 {
                old(self).idx() - 1
            } else {
                0int
            },
    {
        self.0 = if self.0 > 0 {
            self.0 - 1
        } else {
            0
        };
    }

    /// The radius, in cells, that this id denotes.
    pub fn get(&self) -> (r: u16)
        requires
            self.valid(),
        ensures
            r as int == radius_of(self.idx()),
            1 <= r <= 256,
    {
        match self.0 {
            0 => 1,
            1 => 2,
            2 => 4,
            3 => 8,
            4 => 16,
            5 => 32,
            6 => 64,
            7 => 128,
            _ => 256,
        }
    }
}

impl Default for RadiusId {
    /// Starts in the middle of the ladder, at radius 8.
    fn default() -> (r: Self)
        ensures
            r.valid(),
            r.idx() == 3,
    {
        RadiusId(3)
    }
}

} // verus!
