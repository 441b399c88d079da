//! Dense 3-D matrix with row-major storage: x fastest, then y, then z.

use vstd::prelude::*;
use crate::math::{Box3i, Vec3i};

verus! {

/// Linear index of cell `(x, y, z)` in a grid with extents `sx`, `sy`.
pub open spec fn idx_of(x: int, y: int, z: int, sx: int, sy: int) -> int {
    x + (y + z * sy) * sx
}

/// Bounds of the linear index, and of every partial sum the executable
/// indexing computes.
pub proof fn lemma_idx_bounds(x: int, y: int, z: int, sx: int, sy: int, sz: int)
    by (nonlinear_arith)
    requires
        0 <= x < sx,
        0 <= y < sy,
        0 <= z < sz,
    ensures
        0 <= z * sy,
        y + z * sy < sy * sz,
        sy * sz <= sx * sy * sz,
        0 <= idx_of(x, y, z, sx, sy),
        idx_of(x, y, z, sx, sy) < sx * sy * sz,
{
}

/// Two distinct in-bounds cells never share a linear index.
pub proof fn lemma_idx_injective(
    x1: int, y1: int, z1: int,
    x2: int, y2: int, z2: int,
    sx: int, sy: int,
)
    by (nonlinear_arith)
    requires
        0 <= x1 < sx,
        0 <= x2 < sx,
        0 <= y1 < sy,
        0 <= y2 < sy,
        0 <= z1,
        0 <= z2,
        x1 != x2 || y1 != y2 || z1 != z2,
    ensures
        idx_of(x1, y1, z1, sx, sy) != idx_of(x2, y2, z2, sx, sy),
{
}

/// A dense 3-D array of cells.
pub struct Matrix<T> {
    pub size: Vec3i,
    pub data: Vec<T>,
}

impl<T: Copy> Matrix<T> {
    /// The storage holds exactly one cell per grid position, and the grid
    /// size fits the machine.
    pub open spec fn wf(self) -> bool {
        &&& self.data@.len() == self.size.spec_index_range()
        &&& self.size.x * self.size.y <= usize::MAX
        &&& self.size.x * self.size.y * self.size.z <= usize::MAX
    }

    pub open spec fn in_bounds(self, x: int, y: int, z: int) -> bool {
        &&& 0 <= x < self.size.x
        &&& 0 <= y < self.size.y
        &&& 0 <= z < self.size.z
    }

    /// The value stored at an in-bounds cell.
    pub open spec fn cell(self, x: int, y: int, z: int) -> T {
        self.data@[idx_of(x, y, z, self.size.x as int, self.size.y as int)]
    }

    /// A fresh matrix with every cell set to `value`.
    pub fn new(size: Vec3i, value: T) -> (r: Self)
        requires
            size.x * size.y <= usize::MAX,
            size.x * size.y * size.z <= usize::MAX,
        ensures
            r.wf(),
            r.size == size,
            forall|i: int| 0 <= i < r.data@.len() ==> r.data@[i] == value,
    {
        let buffer_size = size.index_range();
        let mut buffer = Vec::<T>::with_capacity(buffer_size);
        let mut i: usize = 0;
        while i < buffer_size
            invariant
                i <= buffer_size,
                buffer@.len() == i,
                forall|j: int| 0 <= j < i ==> buffer@[j] == value,
            decreases buffer_size - i,
        {
            buffer.push(value);
            i = i + 1;
        }
        Self { size, data: buffer }
    }

    /// Linear index of an in-bounds cell.
    #[inline]
    pub fn index(&self, x: usize, y: usize, z: usize) -> (r: usize)
        requires
            self.wf(),
            self.in_bounds(x as int, y as int, z as int),
        ensures
            r == idx_of(x as int, y as int, z as int, self.size.x as int, self.size.y as int),
            r < self.data@.len(),
    {
        proof {
            lemma_idx_bounds(
                x as int, y as int, z as int,
                self.size.x as int, self.size.y as int, self.size.z as int,
            );
        }
        x + (y + z * self.size.y) * self.size.x
    }

    #[inline]
    pub fn get(&self, x: usize, y: usize, z: usize) -> (r: T)
        requires
            self.wf(),
            self.in_bounds(x as int, y as int, z as int),
        ensures
            r == self.cell(x as int, y as int, z as int),
    {
        let i = self.index(x, y, z);
        self.data[i]
    }

    #[inline]
    pub fn set(&mut self, x: usize, y: usize, z: usize, value: T)
        requires
            old(self).wf(),
            old(self).in_bounds(x as int, y as int, z as int),
        ensures
            final(self).wf(),
            final(self).size == old(self).size,
            final(self).cell(x as int, y as int, z as int) == value,
            forall|x2: int, y2: int, z2: int|
                old(self).in_bounds(x2, y2, z2) && (x2 != x || y2 != y || z2 != z)
                    ==> final(self).cell(x2, y2, z2) == old(self).cell(x2, y2, z2),
    {
        let index = self.index(x, y, z);
        self.data.set(index, value);
        proof {
            assert forall|x2: int, y2: int, z2: int|
                old(self).in_bounds(x2, y2, z2) && (x2 != x || y2 != y || z2 != z)
                    implies final(self).cell(x2, y2, z2) == old(self).cell(x2, y2, z2) by {
                lemma_idx_injective(
                    x as int, y as int, z as int, x2, y2, z2,
                    self.size.x as int, self.size.y as int,
                );
                lemma_idx_bounds(
                    x2, y2, z2,
                    self.size.x as int, self.size.y as int, self.size.z as int,
                );
            }
        }
    }

    /// Every cell coordinate, in canonical traversal order: z outermost,
    /// then y, with x changing fastest.  The position of each coordinate in
    /// the result equals its linear index.
    pub fn for_each(&self) -> (r: Vec<Vec3i>)
        ensures
            r@.len() == self.size.spec_index_range(),
            forall|k: int| 0 <= k < r@.len() ==> {
                &&& self.in_bounds(#[trigger] r@[k].x as int, r@[k].y as int, r@[k].z as int)
                &&& idx_of(
                    r@[k].x as int, r@[k].y as int, r@[k].z as int,
                    self.size.x as int, self.size.y as int,
                ) == k
            },
    {
        let sx = self.size.x;
        let sy = self.size.y;
        let sz = self.size.z;
        let mut r = Vec::<Vec3i>::new();
        let mut z: usize = 0;
        proof {
            assert((0 as int * sy as int) * sx as int == 0) by (nonlinear_arith);
        }
        while z < sz
            invariant
                z <= sz,
                r@.len() == (z * sy) * sx,
                forall|k: int| 0 <= k < r@.len() ==> {
                    &&& self.in_bounds(#[trigger] r@[k].x as int, r@[k].y as int, r@[k].z as int)
                    &&& idx_of(
                        r@[k].x as int, r@[k].y as int, r@[k].z as int,
                        self.size.x as int, self.size.y as int,
                    ) == k
                },
                sx == self.size.x && sy == self.size.y && sz == self.size.z,
            decreases sz - z,
        {
            let mut y: usize = 0;
            while y < sy
                invariant
                    y <= sy,
                    z < sz,
                    r@.len() == (y + z * sy) * sx,
                    forall|k: int| 0 <= k < r@.len() ==> {
                        &&& self.in_bounds(#[trigger] r@[k].x as int, r@[k].y as int, r@[k].z as int)
                        &&& idx_of(
                            r@[k].x as int, r@[k].y as int, r@[k].z as int,
                            self.size.x as int, self.size.y as int,
                        ) == k
                    },
                    sx == self.size.x && sy == self.size.y && sz == self.size.z,
                decreases sy - y,
            {
                let mut x: usize = 0;
                while x < sx
                    invariant
                        x <= sx,
                        y < sy,
                        z < sz,
                        r@.len() == x + (y + z * sy) * sx,
                        forall|k: int| 0 <= k < r@.len() ==> {
                            &&& self.in_bounds(
                                #[trigger] r@[k].x as int, r@[k].y as int, r@[k].z as int,
                            )
                            &&& idx_of(
                                r@[k].x as int, r@[k].y as int, r@[k].z as int,
                                self.size.x as int, self.size.y as int,
                            ) == k
                        },
                        sx == self.size.x && sy == self.size.y && sz == self.size.z,
                    decreases sx - x,
                {
                    r.push(Vec3i { x, y, z });
                    x = x + 1;
                }
                y = y + 1;
                proof {
                    assert((y + z * sy) * sx == sx + ((y - 1) + z * sy) * sx) by (nonlinear_arith);
                }
            }
            z = z + 1;
            proof {
                assert((z * sy) * sx == (sy + (z - 1) * sy) * sx) by (nonlinear_arith);
            }
        }
        proof {
            assert((sz * sy) * sx == sx * sy * sz) by (nonlinear_arith);
        }
        r
    }

    /// Cell coordinates inside `abox`, in the same canonical order restricted
    /// to the box.
    pub fn for_each_in_box(&self, abox: Box3i) -> (r: Vec<Vec3i>)
        requires
            abox.begin.spec_le(abox.end),
        ensures
            r@.len() == (abox.end.x - abox.begin.x)
                * (abox.end.y - abox.begin.y)
                * (abox.end.z - abox.begin.z),
            forall|k: int| 0 <= k < r@.len() ==> {
                &&& abox.spec_bounds(#[trigger] r@[k])
                &&& idx_of(
                    r@[k].x - abox.begin.x, r@[k].y - abox.begin.y, r@[k].z - abox.begin.z,
                    abox.end.x - abox.begin.x, abox.end.y - abox.begin.y,
                ) == k
            },
    {
        let ex: usize = abox.end.x - abox.begin.x;
        let ey: usize = abox.end.y - abox.begin.y;
        let ez: usize = abox.end.z - abox.begin.z;
        let mut r = Vec::<Vec3i>::new();
        let mut dz: usize = 0;
        proof {
            assert((0 as int * ey as int) * ex as int == 0) by (nonlinear_arith);
        }
        while dz < ez
            invariant
                dz <= ez,
                ex == abox.end.x - abox.begin.x,
                ey == abox.end.y - abox.begin.y,
                ez == abox.end.z - abox.begin.z,
                abox.begin.spec_le(abox.end),
                r@.len() == (dz * ey) * ex,
                forall|k: int| 0 <= k < r@.len() ==> {
                    &&& abox.spec_bounds(#[trigger] r@[k])
                    &&& idx_of(
                        r@[k].x - abox.begin.x, r@[k].y - abox.begin.y, r@[k].z - abox.begin.z,
                        ex as int, ey as int,
                    ) == k
                },
            decreases ez - dz,
        {
            let mut dy: usize = 0;
            while dy < ey
                invariant
                    dy <= ey,
                    dz < ez,
                    ex == abox.end.x - abox.begin.x,
                    ey == abox.end.y - abox.begin.y,
                    ez == abox.end.z - abox.begin.z,
                    abox.begin.spec_le(abox.end),
                    r@.len() == (dy + dz * ey) * ex,
                    forall|k: int| 0 <= k < r@.len() ==> {
                        &&& abox.spec_bounds(#[trigger] r@[k])
                        &&& idx_of(
                            r@[k].x - abox.begin.x, r@[k].y - abox.begin.y,
                            r@[k].z - abox.begin.z,
                            ex as int, ey as int,
                        ) == k
                    },
                decreases ey - dy,
            {
                let mut dx: usize = 0;
                while dx < ex
                    invariant
                        dx <= ex,
                        dy < ey,
                        dz < ez,
                        ex == abox.end.x - abox.begin.x,
                        ey == abox.end.y - abox.begin.y,
                        ez == abox.end.z - abox.begin.z,
                        abox.begin.spec_le(abox.end),
                        r@.len() == dx + (dy + dz * ey) * ex,
                        forall|k: int| 0 <= k < r@.len() ==> {
                            &&& abox.spec_bounds(#[trigger] r@[k])
                            &&& idx_of(
                                r@[k].x - abox.begin.x, r@[k].y - abox.begin.y,
                                r@[k].z - abox.begin.z,
                                ex as int, ey as int,
                            ) == k
                        },
                    decreases ex - dx,
                {
                    r.push(Vec3i {
                        x: abox.begin.x + dx,
                        y: abox.begin.y + dy,
                        z: abox.begin.z + dz,
                    });
                    dx = dx + 1;
                }
                dy = dy + 1;
                proof {
                    assert((dy + dz * ey) * ex == ex + ((dy - 1) + dz * ey) * ex)
                        by (nonlinear_arith);
                }
            }
            dz = dz + 1;
            proof {
                assert((dz * ey) * ex == (ey + (dz - 1) * ey) * ex) by (nonlinear_arith);
            }
        }
        proof {
            assert((ez * ey) * ex == ex * ey * ez) by (nonlinear_arith);
        }
        r
    }

    /// The six face-adjacent neighbour values of a cell, in the fixed order
    /// `(-x, +x, -y, +y, -z, +z)`, with `out_of_bound` where a neighbour
    /// falls outside the matrix.
    pub fn get_neighbors(&self, x: usize, y: usize, z: usize, out_of_bound: T) -> (r: Vec<T>)
        requires
            self.wf(),
            self.in_bounds(x as int, y as int, z as int),
        ensures
            r@.len() == 6,
            r@[0] == if x >= 1 { self.cell(x - 1, y as int, z as int) } else { out_of_bound },
            r@[1] == if x + 1 < self.size.x {
                self.cell(x + 1, y as int, z as int)
            } else {
                out_of_bound
            },
            r@[2] == if y >= 1 { self.cell(x as int, y - 1, z as int) } else { out_of_bound },
            r@[3] == if y + 1 < self.size.y {
                self.cell(x as int, y + 1, z as int)
            } else {
                out_of_bound
            },
            r@[4] == if z >= 1 { self.cell(x as int, y as int, z - 1) } else { out_of_bound },
            r@[5] == if z + 1 < self.size.z {
                self.cell(x as int, y as int, z + 1)
            } else {
                out_of_bound
            },
    {
        let mut r = Vec::<T>::new();
        r.push(if x > 0 { self.get(x - 1, y, z) } else { out_of_bound });
        r.push(if x < self.size.x - 1 { self.get(x + 1, y, z) } else { out_of_bound });
        r.push(if y > 0 { self.get(x, y - 1, z) } else { out_of_bound });
        r.push(if y < self.size.y - 1 { self.get(x, y + 1, z) } else { out_of_bound });
        r.push(if z > 0 { self.get(x, y, z - 1) } else { out_of_bound });
        r.push(if z < self.size.z - 1 { self.get(x, y, z + 1) } else { out_of_bound });
        r
    }
}

} // verus!
