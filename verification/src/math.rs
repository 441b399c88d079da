//! Integer 3-D vectors and axis-aligned boxes used by the voxel pipeline.

use vstd::prelude::*;

verus! {

/// Names the three coordinate axes.
#[derive(Clone, Copy, Debug, PartialEq, Eq, Structural)]
pub enum Axis {
    X,
    Y,
    Z,
}

/// The extent of a vector along one axis.
pub open spec fn axis_extent(v: Vec3i, a: Axis) -> int {
    match a {
        Axis::X => v.x as int,
        Axis::Y => v.y as int,
        Axis::Z => v.z as int,
    }
}

/// A simple integer 3-D vector with non-negative coordinates.
#[derive(Clone, Copy, Debug, PartialEq, Eq, Structural)]
pub struct Vec3i {
    pub x: usize,
    pub y: usize,
    pub z: usize,
}

impl Vec3i {
    /// Number of cells of a dense grid of this size, as a mathematical integer.
    pub open spec fn spec_index_range(self) -> int {
        self.x * self.y * self.z
    }

    /// Component-wise `<=` (a partial order).
    pub open spec fn spec_le(self, o: Vec3i) -> bool {
        self.x <= o.x && self.y <= o.y && self.z <= o.z
    }

    /// Component-wise `<` .
    pub open spec fn spec_lt(self, o: Vec3i) -> bool {
        self.x < o.x && self.y < o.y && self.z < o.z
    }

    #[inline]
    pub fn new(x: usize, y: usize, z: usize) -> (r: Self)
        ensures
            r == (Vec3i { x, y, z }),
    {
        Self { x, y, z }
    }

    /// Same constructor under its historical name.
    #[inline]
    pub fn make(x: usize, y: usize, z: usize) -> (r: Self)
        ensures
            r == (Vec3i { x, y, z }),
    {
        Self { x, y, z }
    }

    #[inline]
    pub fn index_range(&self) -> (r: usize)
        requires
            self.x * self.y <= usize::MAX,
            self.x * self.y * self.z <= usize::MAX,
        ensures
            r == self.spec_index_range(),
    {
        self.x * self.y * self.z
    }

    #[inline]
    pub fn sum(&self) -> (r: usize)
        requires
            self.x + self.y + self.z <= usize::MAX,
        ensures
            r == self.x + self.y + self.z,
    {
        self.x + self.y + self.z
    }

    /// Component-wise minimum.
    #[inline]
    pub fn min(&self, o: Self) -> (r: Self)
        ensures
            r.x == if self.x <= o.x { self.x } else { o.x },
            r.y == if self.y <= o.y { self.y } else { o.y },
            r.z == if self.z <= o.z { self.z } else { o.z },
    {
        Self {
            x: if self.x <= o.x { self.x } else { o.x },
            y: if self.y <= o.y { self.y } else { o.y },
            z: if self.z <= o.z { self.z } else { o.z },
        }
    }

    /// Component-wise maximum.
    #[inline]
    pub fn max(&self, o: Self) -> (r: Self)
        ensures
            r.x == if self.x >= o.x { self.x } else { o.x },
            r.y == if self.y >= o.y { self.y } else { o.y },
            r.z == if self.z >= o.z { self.z } else { o.z },
    {
        Self {
            x: if self.x >= o.x { self.x } else { o.x },
            y: if self.y >= o.y { self.y } else { o.y },
            z: if self.z >= o.z { self.z } else { o.z },
        }
    }

    /// Component-wise `<=` as executable code.
    #[inline]
    pub fn le(&self, o: Self) -> (r: bool)
        ensures
            r == self.spec_le(o),
    {
        self.x <= o.x && self.y <= o.y && self.z <= o.z
    }

    /// Component-wise `<` as executable code.
    #[inline]
    pub fn lt(&self, o: Self) -> (r: bool)
        ensures
            r == self.spec_lt(o),
    {
        self.x < o.x && self.y < o.y && self.z < o.z
    }

    /// The axes of this vector in decreasing order of extent, resolved through
    /// the same three pairwise comparisons as the mask dispatch it replaces.
    pub fn order_axis(&self) -> (r: [Axis; 3])
        ensures
            r@[0] != r@[1] && r@[1] != r@[2] && r@[0] != r@[2],
            axis_extent(*self, r@[0]) >= axis_extent(*self, r@[1]),
            axis_extent(*self, r@[1]) >= axis_extent(*self, r@[2]),
            self.x != self.y && self.y != self.z && self.x != self.z ==> {
                &&& axis_extent(*self, r@[0]) > axis_extent(*self, r@[1])
                &&& axis_extent(*self, r@[1]) > axis_extent(*self, r@[2])
            },
    {
        let gx: bool = self.x > self.y;
        let gy: bool = self.y > self.z;
        let gz: bool = self.z > self.x;
        if gx && gy && !gz {
            [Axis::X, Axis::Y, Axis::Z]
        } else if gx && !gy && !gz {
            [Axis::X, Axis::Z, Axis::Y]
        } else if !gx && gy && !gz {
            [Axis::Y, Axis::X, Axis::Z]
        } else if !gx && gy && gz {
            [Axis::Y, Axis::Z, Axis::X]
        } else if gx && !gy && gz {
            [Axis::Z, Axis::X, Axis::Y]
        } else if !gx && !gy && gz {
            [Axis::Z, Axis::Y, Axis::X]
        } else {
            [Axis::X, Axis::Y, Axis::Z]
        }
    }
}

/// An axis-aligned box `[begin, end)` between two corner vectors.
#[derive(Clone, Copy, Debug, PartialEq, Eq, Structural)]
pub struct Box3i {
    pub begin: Vec3i,
    pub end: Vec3i,
}

impl Box3i {
    /// True when `cell` lies inside the half-open extent of the box.
    pub open spec fn spec_bounds(self, cell: Vec3i) -> bool {
        self.begin.spec_le(cell) && cell.spec_lt(self.end)
    }

    #[inline]
    pub fn new(begin: Vec3i, end: Vec3i) -> (r: Self)
        ensures
            r == (Box3i { begin, end }),
    {
        Self { begin, end }
    }

    #[inline]
    pub fn define(x1: usize, y1: usize, z1: usize, x2: usize, y2: usize, z2: usize) -> (r: Self)
        ensures
            r.begin == (Vec3i { x: x1, y: y1, z: z1 }),
            r.end == (Vec3i { x: x2, y: y2, z: z2 }),
    {
        let begin = Vec3i::new(x1, y1, z1);
        let end = Vec3i::new(x2, y2, z2);
        Self { begin, end }
    }

    /// Extent of the box along each axis.
    #[inline]
    pub fn size(&self) -> (r: Vec3i)
        requires
            self.begin.spec_le(self.end),
        ensures
            r.x == self.end.x - self.begin.x,
            r.y == self.end.y - self.begin.y,
            r.z == self.end.z - self.begin.z,
    {
        Vec3i::new(
            self.end.x - self.begin.x,
            self.end.y - self.begin.y,
            self.end.z - self.begin.z,
        )
    }

    /// Half-open containment: `begin <= point` on every axis and
    /// `point < end` on every axis.
    #[inline]
    pub fn contains(&self, point: Vec3i) -> (r: bool)
        ensures
            r == self.spec_bounds(point),
    {
        self.begin.le(point) && point.lt(self.end)
    }

    /// The same half-open containment test, under its historical name.
    #[inline]
    pub fn bounds(&self, cell: Vec3i) -> (r: bool)
        ensures
            r == self.spec_bounds(cell),
    {
        self.begin.le(cell) && cell.lt(self.end)
    }
}

} // verus!
