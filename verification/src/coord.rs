//! Axial coordinates for a pointy-top hexagonal grid.
//!
//! A cell is addressed by a pair `(q, r)` of signed integers.  The distance
//! from the origin is the "cube length" `max(|q|, |r|, |q + r|)`, which is
//! also the in-bounds test for a hexagonal board of a given radius.

use vstd::prelude::*;

verus! {

/// One cell of the hexagonal grid, in axial coordinates.
#[derive(Clone, Copy, Debug, PartialEq, Eq, Structural)]
pub struct HexCoordinate {
    pub q: i32,
    pub r: i32,
}

impl View for HexCoordinate {
    type V = (int, int);

    open spec fn view(&self) -> (int, int) {
        (self.q as int, self.r as int)
    }
}

/// Absolute value of a mathematical integer.
pub open spec fn iabs(x: int) -> int {
    if x < 0 {
        -x
    } else {
        x
    }
}

/// Maximum of three mathematical integers.
pub open spec fn max3(a: int, b: int, c: int) -> int {
    if a >= b && a >= c {
        a
    } else if b >= c {
        b
    } else {
        c
    }
}

/// Distance of a coordinate from the origin, in hex steps.
pub open spec fn cube_len(p: (int, int)) -> int {
    max3(iabs(p.0), iabs(p.1), iabs(p.0 + p.1))
}

/// The `i`-th of the six unit neighbor offsets around `p`, for `0 <= i < 6`.
pub open spec fn neighbor_at(p: (int, int), i: int) -> (int, int) {
    if i == 0 {
        (p.0 + 1, p.1)
    } else if i == 1 {
        (p.0, p.1 + 1)
    } else if i == 2 {
        (p.0 - 1, p.1 + 1)
    } else if i == 3 {
        (p.0 - 1, p.1)
    } else if i == 4 {
        (p.0, p.1 - 1)
    } else {
        (p.0 + 1, p.1 - 1)
    }
}

/// Two coordinates are adjacent when one is a unit neighbor of the other.
pub open spec fn is_adjacent(a: (int, int), b: (int, int)) -> bool {
    exists|i: int| 0 <= i < 6 && b == neighbor_at(a, i)
}

impl HexCoordinate {
    /// Builds the coordinate `(q, r)`.
    pub fn new(q: i32, r: i32) -> (c: HexCoordinate)
        ensures
            c@ == (q as int, r as int),
    {
        HexCoordinate { q, r }
    }

    /// Distance from the origin: `max(|q|, |r|, |q + r|)`.
    pub fn cube_length(&self) -> (len: u64)
        ensures
            len as int == cube_len(self@),
    {
        let q64: i64 = self.q as i64;
        let r64: i64 = self.r as i64;
        let s64: i64 = q64 + r64;
        let aq: i64 = if q64 < 0 {
            -q64
        } else {
            q64
        };
        let ar: i64 = if r64 < 0 {
            -r64
        } else {
            r64
        };
        let asum: i64 = if s64 < 0 {
            -s64
        } else {
            s64
        };
        let m: i64 = if aq >= ar && aq >= asum {
            aq
        } else if ar >= asum {
            ar
        } else {
            asum
        };
        m as u64
    }

    /// The six immediate neighbors of this cell, in a fixed order.
    ///
    /// The bounds on `q` and `r` only keep the unit offsets from overflowing
    /// the machine integers; every cell of a board satisfies them.
    pub fn neighbors(&self) -> (nbrs: Vec<HexCoordinate>)
        requires
            i32::MIN < self.q < i32::MAX,
            i32::MIN < self.r < i32::MAX,
        ensures
            nbrs@.len() == 6,
            forall|i: int| 0 <= i < 6 ==> #[trigger] nbrs@[i]@ == neighbor_at(self@, i),
    {
        let mut nbrs: Vec<HexCoordinate> = Vec::new();
        nbrs.push(HexCoordinate { q: self.q + 1, r: self.r });
        nbrs.push(HexCoordinate { q: self.q, r: self.r + 1 });
        nbrs.push(HexCoordinate { q: self.q - 1, r: self.r + 1 });
        nbrs.push(HexCoordinate { q: self.q - 1, r: self.r });
        nbrs.push(HexCoordinate { q: self.q, r: self.r - 1 });
        nbrs.push(HexCoordinate { q: self.q + 1, r: self.r - 1 });
        nbrs
    }
}

} // verus!
