//! Per-component morphology: bounding boxes, occupancy signatures, and the
//! box-cover model of each labeled component.

use vstd::prelude::*;
use vstd::arithmetic::div_mod::lemma_fundamental_div_mod_converse;
use crate::math::{Box3i, Vec3i};
use crate::matrix::{idx_of, Matrix};
use crate::schema::ModelData;

verus! {

/// Label assigned to each connected component; zero marks empty cells.
pub type Label = u32;

/// A component's 64-bit shape signature.
pub type Signature = u64;

/// Cell `c2` is visited strictly before cell `c` by the canonical traversal
/// (z outermost, then y, x fastest).
pub open spec fn scan_before(x2: int, y2: int, z2: int, x: int, y: int, z: int) -> bool {
    ||| z2 < z
    ||| (z2 == z && y2 < y)
    ||| (z2 == z && y2 == y && x2 < x)
}

/// The in-bounds cell `(x, y, z)` carries label `l`.
pub open spec fn labeled(m: Matrix<Label>, l: Label, x: int, y: int, z: int) -> bool {
    m.in_bounds(x, y, z) && m.cell(x, y, z) == l
}

/// The cell lies in the half-open extent of the box.
pub open spec fn cell_in_box(b: Box3i, x: int, y: int, z: int) -> bool {
    &&& b.begin.x <= x < b.end.x
    &&& b.begin.y <= y < b.end.y
    &&& b.begin.z <= z < b.end.z
}

/// The placeholder box of a label that has no cell.
pub open spec fn empty_box(m: Matrix<Label>) -> Box3i {
    Box3i { begin: m.size, end: Vec3i { x: 0, y: 0, z: 0 } }
}

/// Witnesses that the box is tight around label `l + 1`: a cell of the
/// label sits on each of its six faces.
pub open spec fn box_tight(m: Matrix<Label>, l: int, b: Box3i) -> bool {
    &&& exists|x2: int, y2: int, z2: int|
        #[trigger] labeled(m, (l + 1) as Label, x2, y2, z2) && x2 == b.begin.x
    &&& exists|x2: int, y2: int, z2: int|
        #[trigger] labeled(m, (l + 1) as Label, x2, y2, z2) && x2 == b.end.x - 1
    &&& exists|x2: int, y2: int, z2: int|
        #[trigger] labeled(m, (l + 1) as Label, x2, y2, z2) && y2 == b.begin.y
    &&& exists|x2: int, y2: int, z2: int|
        #[trigger] labeled(m, (l + 1) as Label, x2, y2, z2) && y2 == b.end.y - 1
    &&& exists|x2: int, y2: int, z2: int|
        #[trigger] labeled(m, (l + 1) as Label, x2, y2, z2) && z2 == b.begin.z
    &&& exists|x2: int, y2: int, z2: int|
        #[trigger] labeled(m, (l + 1) as Label, x2, y2, z2) && z2 == b.end.z - 1
}

/// Mid-scan shape of one label's box: it contains every already-visited
/// cell of the label; if any was visited, each face touches a visited cell
/// of the label, else the box is still the placeholder.
pub open spec fn box_inv(
    m: Matrix<Label>,
    l: int,
    b: Box3i,
    cx: int,
    cy: int,
    cz: int,
) -> bool {
    &&& forall|x2: int, y2: int, z2: int|
        #[trigger] labeled(m, (l + 1) as Label, x2, y2, z2)
            && scan_before(x2, y2, z2, cx, cy, cz)
            ==> cell_in_box(b, x2, y2, z2)
    &&& if exists|x2: int, y2: int, z2: int|
        #[trigger] labeled(m, (l + 1) as Label, x2, y2, z2)
            && scan_before(x2, y2, z2, cx, cy, cz) {
        &&& exists|x2: int, y2: int, z2: int|
            #[trigger] labeled(m, (l + 1) as Label, x2, y2, z2)
                && scan_before(x2, y2, z2, cx, cy, cz) && x2 == b.begin.x
        &&& exists|x2: int, y2: int, z2: int|
            #[trigger] labeled(m, (l + 1) as Label, x2, y2, z2)
                && scan_before(x2, y2, z2, cx, cy, cz) && x2 == b.end.x - 1
        &&& exists|x2: int, y2: int, z2: int|
            #[trigger] labeled(m, (l + 1) as Label, x2, y2, z2)
                && scan_before(x2, y2, z2, cx, cy, cz) && y2 == b.begin.y
        &&& exists|x2: int, y2: int, z2: int|
            #[trigger] labeled(m, (l + 1) as Label, x2, y2, z2)
                && scan_before(x2, y2, z2, cx, cy, cz) && y2 == b.end.y - 1
        &&& exists|x2: int, y2: int, z2: int|
            #[trigger] labeled(m, (l + 1) as Label, x2, y2, z2)
                && scan_before(x2, y2, z2, cx, cy, cz) && z2 == b.begin.z
        &&& exists|x2: int, y2: int, z2: int|
            #[trigger] labeled(m, (l + 1) as Label, x2, y2, z2)
                && scan_before(x2, y2, z2, cx, cy, cz) && z2 == b.end.z - 1
    } else {
        b == empty_box(m)
    }
}

/// The smallest half-open bounding box of each label `1 ..= labels_amount`.
/// Each box contains every cell of its label, and shrinking it by one cell
/// along any axis would lose one: a cell of the label sits on every face.
/// A label with no cell keeps the placeholder box.
pub fn find_bounding_boxes(matrix: &Matrix<Label>, labels_amount: usize) -> (r: Vec<Box3i>)
    requires
        matrix.wf(),
        labels_amount <= u32::MAX,
        forall|x: int, y: int, z: int| matrix.in_bounds(x, y, z)
            ==> #[trigger] matrix.cell(x, y, z) <= labels_amount,
    ensures
        r@.len() == labels_amount,
        forall|l: int| 0 <= l < labels_amount ==> {
            &&& forall|x2: int, y2: int, z2: int|
                #[trigger] labeled(*matrix, (l + 1) as Label, x2, y2, z2)
                    ==> cell_in_box(r@[l], x2, y2, z2)
            &&& if exists|x2: int, y2: int, z2: int|
                #[trigger] labeled(*matrix, (l + 1) as Label, x2, y2, z2) {
                box_tight(*matrix, l, r@[l])
            } else {
                r@[l] == empty_box(*matrix)
            }
        },
{
    let mut boxes = Vec::<Box3i>::new();
    let mut i: usize = 0;
    while i < labels_amount
        invariant
            i <= labels_amount,
            boxes@.len() == i,
            forall|l: int| 0 <= l < i ==> boxes@[l] == empty_box(*matrix),
        decreases labels_amount - i,
    {
        boxes.push(Box3i {
            begin: matrix.size,
            end: Vec3i { x: 0, y: 0, z: 0 },
        });
        i = i + 1;
    }

    let sx = matrix.size.x;
    let sy = matrix.size.y;
    let sz = matrix.size.z;
    let mut z: usize = 0;
    while z < sz
        invariant
            z <= sz,
            matrix.wf(),
            sx == matrix.size.x && sy == matrix.size.y && sz == matrix.size.z,
            boxes@.len() == labels_amount,
            labels_amount <= u32::MAX,
            forall|x2: int, y2: int, z2: int| matrix.in_bounds(x2, y2, z2)
                ==> #[trigger] matrix.cell(x2, y2, z2) <= labels_amount,
            forall|l: int| 0 <= l < labels_amount
                ==> box_inv(*matrix, l, #[trigger] boxes@[l], 0, 0, z as int),
        decreases sz - z,
    {
        let mut y: usize = 0;
        while y < sy
            invariant
                y <= sy,
                z < sz,
                matrix.wf(),
                sx == matrix.size.x && sy == matrix.size.y && sz == matrix.size.z,
                boxes@.len() == labels_amount,
                labels_amount <= u32::MAX,
                forall|x2: int, y2: int, z2: int| matrix.in_bounds(x2, y2, z2)
                    ==> #[trigger] matrix.cell(x2, y2, z2) <= labels_amount,
                forall|l: int| 0 <= l < labels_amount
                    ==> box_inv(*matrix, l, #[trigger] boxes@[l], 0, y as int, z as int),
            decreases sy - y,
        {
            let mut x: usize = 0;
            while x < sx
                invariant
                    x <= sx,
                    y < sy,
                    z < sz,
                    matrix.wf(),
                    sx == matrix.size.x && sy == matrix.size.y && sz == matrix.size.z,
                    boxes@.len() == labels_amount,
                    labels_amount <= u32::MAX,
                    forall|x2: int, y2: int, z2: int| matrix.in_bounds(x2, y2, z2)
                        ==> #[trigger] matrix.cell(x2, y2, z2) <= labels_amount,
                    forall|l: int| 0 <= l < labels_amount
                        ==> box_inv(*matrix, l, #[trigger] boxes@[l],
                            x as int, y as int, z as int),
                decreases sx - x,
            {
                let ghost cx = x as int;
                let ghost cy = y as int;
                let ghost cz = z as int;
                let ghost prev_boxes = boxes@;
                let label = matrix.get(x, y, z);
                if label > 0 {
                    let index = (label - 1) as usize;
                    let curr = Vec3i::new(x, y, z);
                    let curr_next = Vec3i::new(x + 1, y + 1, z + 1);
                    let abox = boxes[index];
                    let updated = Box3i::new(
                        abox.begin.min(curr),
                        abox.end.max(curr_next),
                    );
                    boxes.set(index, updated);
                }
                proof {
                    let m = *matrix;
                    assert forall|l: int| 0 <= l < labels_amount
                        implies box_inv(m, l, boxes@[l], cx + 1, cy, cz) by {
                        let lab = (l + 1) as Label;
                        assert(box_inv(m, l, prev_boxes[l], cx, cy, cz));
                        if label > 0 && l == label - 1 {
                            let b0 = prev_boxes[l];
                            let b1 = boxes@[l];
                            if exists|x2: int, y2: int, z2: int|
                                #[trigger] labeled(m, lab, x2, y2, z2)
                                    && scan_before(x2, y2, z2, cx, cy, cz) {
                                assert(b1.begin.x == b0.begin.x || b1.begin.x == cx);
                                assert(b1.begin.y == b0.begin.y || b1.begin.y == cy);
                                assert(b1.begin.z == b0.begin.z || b1.begin.z == cz);
                                assert(b1.end.x == b0.end.x || b1.end.x == cx + 1);
                                assert(b1.end.y == b0.end.y || b1.end.y == cy + 1);
                                assert(b1.end.z == b0.end.z || b1.end.z == cz + 1);
                                assert(labeled(m, lab, cx, cy, cz));
                                assert(cell_in_box(b1, cx, cy, cz));
                            } else {
                                assert(b0 == empty_box(m));
                                assert(b1.begin.x == cx && b1.begin.y == cy
                                    && b1.begin.z == cz);
                                assert(b1.end.x == cx + 1 && b1.end.y == cy + 1
                                    && b1.end.z == cz + 1);
                                assert(labeled(m, lab, cx, cy, cz));
                            }
                        } else {
                            assert(boxes@[l] == prev_boxes[l]);
                            assert(!labeled(m, lab, cx, cy, cz));
                        }
                    }
                }
                x = x + 1;
            }
            proof {
                let m = *matrix;
                assert forall|l: int| 0 <= l < labels_amount
                    implies box_inv(m, l, boxes@[l], 0, y as int + 1, z as int) by {
                    assert(box_inv(m, l, boxes@[l], sx as int, y as int, z as int));
                    assert(forall|x2: int, y2: int, z2: int|
                        labeled(m, (l + 1) as Label, x2, y2, z2)
                            ==> (scan_before(x2, y2, z2, sx as int, y as int, z as int)
                                <==> scan_before(x2, y2, z2, 0, y as int + 1, z as int)));
                }
            }
            y = y + 1;
        }
        proof {
            let m = *matrix;
            assert forall|l: int| 0 <= l < labels_amount
                implies box_inv(m, l, boxes@[l], 0, 0, z as int + 1) by {
                assert(box_inv(m, l, boxes@[l], 0, sy as int, z as int));
                assert(forall|x2: int, y2: int, z2: int|
                    labeled(m, (l + 1) as Label, x2, y2, z2)
                        ==> (scan_before(x2, y2, z2, 0, sy as int, z as int)
                            <==> scan_before(x2, y2, z2, 0, 0, z as int + 1)));
            }
        }
        z = z + 1;
    }
    proof {
        let m = *matrix;
        assert forall|l: int| 0 <= l < labels_amount
            implies box_inv(m, l, boxes@[l], 0, 0, m.size.z as int) by {
            assert(box_inv(m, l, boxes@[l], 0, 0, sz as int));
        }
        assert(forall|l: int, x2: int, y2: int, z2: int|
            #[trigger] labeled(m, (l + 1) as Label, x2, y2, z2)
                ==> scan_before(x2, y2, z2, 0, 0, m.size.z as int));
    }
    boxes
}

// ---------------------------------------------------------------------------
// Occupancy and signatures.
// ---------------------------------------------------------------------------

/// Coordinates, relative to a box of extents `ex`, `ey`, of the `k`-th cell
/// that the canonical traversal of the box visits.
pub open spec fn box_coord(k: int, ex: int, ey: int) -> (int, int, int) {
    (k % ex, (k / ex) % ey, (k / ex) / ey)
}

/// The occupancy bitmap of label `l` over `abox`: one bit per box cell, in
/// canonical traversal order, set where the cell carries the label.
pub open spec fn occupancy(m: Matrix<Label>, l: Label, abox: Box3i) -> Seq<bool> {
    Seq::new(
        ((abox.end.x - abox.begin.x) * (abox.end.y - abox.begin.y)
            * (abox.end.z - abox.begin.z)) as nat,
        |k: int| {
            let c = box_coord(k, abox.end.x - abox.begin.x, abox.end.y - abox.begin.y);
            m.cell(abox.begin.x + c.0, abox.begin.y + c.1, abox.begin.z + c.2) == l
        },
    )
}

/// Number of set bits of a bitmap.
pub open spec fn count_true(s: Seq<bool>) -> int
    decreases s.len(),
{
    if s.len() == 0 {
        0
    } else {
        count_true(s.drop_last()) + if s.last() {
            1int
        } else {
            0int
        }
    }
}

/// The 64-bit signature of an occupancy bitmap with the given box extents.
/// It names what the deterministic shape hash returns; equal extents and
/// equal bitmaps give equal signatures on every machine.
pub uninterp spec fn signature_of(ex: int, ey: int, ez: int, bits: Seq<bool>) -> Signature;

/// Relies on fxhash's `FxHasher64` (seeded at zero, so deterministic) and
/// bit-vec's `BitVec` hashing, which absorbs exactly the logical bit
/// sequence: the result is a function of the extents and bits alone.
#[verifier::external_body]
fn hash_signature(ex: usize, ey: usize, ez: usize, bits: &Vec<bool>) -> (r: Signature)
    ensures
        r == signature_of(ex as int, ey as int, ez as int, bits@),
{
    let mut bitvec = bit_vec::BitVec::from_elem(bits.len(), false);
    for (i, b) in bits.iter().enumerate() {
        if *b {
            bitvec.set(i, true);
        }
    }
    let mut state = fxhash::FxHasher64::default();
    std::hash::Hash::hash(&(ex, ey, ez), &mut state);
    std::hash::Hash::hash(&bitvec, &mut state);
    std::hash::Hasher::finish(&state)
}

/// The signature of a component, as a function of its box extents and its
/// occupancy bitmap.
pub open spec fn morph_of(m: Matrix<Label>, l: Label, abox: Box3i) -> Signature {
    signature_of(
        abox.end.x - abox.begin.x,
        abox.end.y - abox.begin.y,
        abox.end.z - abox.begin.z,
        occupancy(m, l, abox),
    )
}

/// Signature determinism: two components whose bounding boxes have equal
/// extents and whose occupancy bitmaps are equal share one signature,
/// whatever their labels and positions.
pub proof fn lemma_signature_deterministic(
    m1: Matrix<Label>, l1: Label, b1: Box3i,
    m2: Matrix<Label>, l2: Label, b2: Box3i,
)
    requires
        b1.end.x - b1.begin.x == b2.end.x - b2.begin.x,
        b1.end.y - b1.begin.y == b2.end.y - b2.begin.y,
        b1.end.z - b1.begin.z == b2.end.z - b2.begin.z,
        occupancy(m1, l1, b1) == occupancy(m2, l2, b2),
    ensures
        morph_of(m1, l1, b1) == morph_of(m2, l2, b2),
{
}

/// Component-wise bounds give a bound on the product of three extents.
proof fn lemma_product_le(a1: int, a2: int, a3: int, b1: int, b2: int, b3: int)
    by (nonlinear_arith)
    requires
        0 <= a1 <= b1,
        0 <= a2 <= b2,
        0 <= a3 <= b3,
    ensures
        (a1 * a2) * a3 <= (b1 * b2) * b3,
        (b1 * b2) * b3 == b1 * b2 * b3,
{
}

/// Links the canonical enumeration index of a box cell to its coordinates.
pub proof fn lemma_box_coord(k: int, dx: int, dy: int, dz: int, ex: int, ey: int)
    requires
        0 <= dx < ex,
        0 <= dy < ey,
        0 <= dz,
        k == idx_of(dx, dy, dz, ex, ey),
    ensures
        box_coord(k, ex, ey) == (dx, dy, dz),
{
    lemma_fundamental_div_mod_converse(k, ex, dy + dz * ey, dx);
    lemma_fundamental_div_mod_converse(dy + dz * ey, ey, dz, dy);
}

/// Find the far corner of a box of cells of `label` that starts at `from`:
/// first grow a line along x, then a plane along y, then a volume along z,
/// stopping each growth at the first cross-section that is not entirely of
/// the label.  Every cell of the returned half-open box carries the label.
pub fn group_box(matrix: &Matrix<Label>, label: Label, from: Vec3i, to: Vec3i) -> (r: Vec3i)
    requires
        matrix.wf(),
        matrix.in_bounds(from.x as int, from.y as int, from.z as int),
        to.x <= matrix.size.x,
        to.y <= matrix.size.y,
        to.z <= matrix.size.z,
        from.spec_lt(to),
        matrix.cell(from.x as int, from.y as int, from.z as int) == label,
    ensures
        from.x < r.x <= to.x,
        from.y < r.y <= to.y,
        from.z < r.z <= to.z,
        forall|xx: int, yy: int, zz: int|
            from.x <= xx < r.x && from.y <= yy < r.y && from.z <= zz < r.z
                ==> #[trigger] matrix.cell(xx, yy, zz) == label,
        r.x < to.x ==> matrix.cell(r.x as int, from.y as int, from.z as int) != label,
        r.y < to.y ==> exists|xx: int| from.x <= xx < to.x
            && #[trigger] matrix.cell(xx, r.y as int, from.z as int) != label,
        r.z < to.z ==> exists|xx: int, yy: int|
            from.x <= xx < to.x && from.y <= yy < to.y
                && #[trigger] matrix.cell(xx, yy, r.z as int) != label,
{
    // Grow a line along x.
    let mut ex: usize = to.x;
    let mut x: usize = from.x + 1;
    while x < ex
        invariant
            matrix.wf(),
            matrix.in_bounds(from.x as int, from.y as int, from.z as int),
            to.x <= matrix.size.x,
            from.spec_lt(to),
            from.x < x <= ex,
            ex <= to.x,
            ex < to.x ==> matrix.cell(ex as int, from.y as int, from.z as int) != label,
            forall|xx: int| from.x < xx < x
                ==> #[trigger] matrix.cell(xx, from.y as int, from.z as int) == label,
        decreases ex - x,
    {
        if matrix.get(x, from.y, from.z) != label {
            ex = x;
        } else {
            x = x + 1;
        }
    }

    // Grow a plane along y, checking whole rows of the original width.
    let mut ey: usize = to.y;
    let mut y: usize = from.y + 1;
    while y < ey
        invariant
            matrix.wf(),
            matrix.in_bounds(from.x as int, from.y as int, from.z as int),
            to.x <= matrix.size.x,
            to.y <= matrix.size.y,
            from.spec_lt(to),
            from.y < y <= ey,
            ey <= to.y,
            ey < to.y ==> exists|xx: int| from.x <= xx < to.x
                && #[trigger] matrix.cell(xx, ey as int, from.z as int) != label,
            forall|xx: int, yy: int| from.y < yy < y && from.x <= xx < to.x
                ==> #[trigger] matrix.cell(xx, yy, from.z as int) == label,
        decreases ey - y,
    {
        let mut ok = true;
        let mut xx: usize = from.x;
        while xx < to.x && ok
            invariant
                matrix.wf(),
                matrix.in_bounds(from.x as int, from.y as int, from.z as int),
                to.x <= matrix.size.x,
                to.y <= matrix.size.y,
                from.spec_lt(to),
                from.y < y < ey,
                ey <= to.y,
                from.x <= xx <= to.x,
                !ok ==> from.x as int <= xx < to.x
                    && matrix.cell(xx as int, y as int, from.z as int) != label,
                ok ==> forall|x3: int| from.x <= x3 < xx
                    ==> #[trigger] matrix.cell(x3, y as int, from.z as int) == label,
            decreases to.x - xx + (if ok { 1int } else { 0int }),
        {
            if matrix.get(xx, y, from.z) != label {
                ok = false;
            } else {
                xx = xx + 1;
            }
        }
        if ok {
            y = y + 1;
        } else {
            ey = y;
        }
    }

    // Grow a volume along z, checking whole cross-sections.
    let mut ez: usize = to.z;
    let mut z: usize = from.z + 1;
    while z < ez
        invariant
            matrix.wf(),
            matrix.in_bounds(from.x as int, from.y as int, from.z as int),
            to.x <= matrix.size.x,
            to.y <= matrix.size.y,
            to.z <= matrix.size.z,
            from.spec_lt(to),
            from.z < z <= ez,
            ez <= to.z,
            ez < to.z ==> exists|xx: int, yy: int|
                from.x <= xx < to.x && from.y <= yy < to.y
                    && #[trigger] matrix.cell(xx, yy, ez as int) != label,
            forall|xx: int, yy: int, zz: int|
                from.z < zz < z && from.y <= yy < to.y && from.x <= xx < to.x
                    ==> #[trigger] matrix.cell(xx, yy, zz) == label,
        decreases ez - z,
    {
        let mut ok = true;
        let mut yy: usize = from.y;
        while yy < to.y && ok
            invariant
                matrix.wf(),
                matrix.in_bounds(from.x as int, from.y as int, from.z as int),
                to.x <= matrix.size.x,
                to.y <= matrix.size.y,
                to.z <= matrix.size.z,
                from.spec_lt(to),
                from.z < z < ez,
                ez <= to.z,
                from.y <= yy <= to.y,
                !ok ==> exists|x3: int, y3: int|
                    from.x <= x3 < to.x && from.y <= y3 < to.y
                        && #[trigger] matrix.cell(x3, y3, z as int) != label,
                ok ==> forall|x3: int, y3: int|
                    from.y <= y3 < yy && from.x <= x3 < to.x
                        ==> #[trigger] matrix.cell(x3, y3, z as int) == label,
            decreases to.y - yy + (if ok { 1int } else { 0int }),
        {
            let mut ok_row = true;
            let mut xx: usize = from.x;
            while xx < to.x && ok_row
                invariant
                    matrix.wf(),
                    matrix.in_bounds(from.x as int, from.y as int, from.z as int),
                    to.x <= matrix.size.x,
                    to.y <= matrix.size.y,
                    to.z <= matrix.size.z,
                    from.spec_lt(to),
                    from.z < z < ez,
                    ez <= to.z,
                    from.y <= yy < to.y,
                    from.x <= xx <= to.x,
                    !ok_row ==> from.x as int <= xx < to.x
                        && matrix.cell(xx as int, yy as int, z as int) != label,
                    ok_row ==> forall|x3: int| from.x <= x3 < xx
                        ==> #[trigger] matrix.cell(x3, yy as int, z as int) == label,
                decreases to.x - xx + (if ok_row { 1int } else { 0int }),
            {
                if matrix.get(xx, yy, z) != label {
                    ok_row = false;
                } else {
                    xx = xx + 1;
                }
            }
            if ok_row {
                yy = yy + 1;
            } else {
                ok = false;
            }
        }
        if ok {
            z = z + 1;
        } else {
            ez = z;
        }
    }

    Vec3i::new(ex, ey, ez)
}

/// The box-cover model of label `label` inside its bounding box: a list of
/// half-open boxes, in coordinates relative to the box origin.  Every cell
/// of every returned box carries the label, and every cell of the label
/// inside `abox` lies in some returned box.
pub fn generate_model(matrix: &Matrix<Label>, label: Label, abox: Box3i) -> (r: ModelData)
    requires
        matrix.wf(),
        abox.begin.spec_le(abox.end),
        abox.end.x <= matrix.size.x,
        abox.end.y <= matrix.size.y,
        abox.end.z <= matrix.size.z,
    ensures
        forall|k: int| 0 <= k < r.0@.len() ==> {
            &&& (#[trigger] r.0@[k]).begin.spec_lt(r.0@[k].end)
            &&& r.0@[k].end.x + abox.begin.x <= abox.end.x
            &&& r.0@[k].end.y + abox.begin.y <= abox.end.y
            &&& r.0@[k].end.z + abox.begin.z <= abox.end.z
        },
        forall|k: int, xx: int, yy: int, zz: int|
            0 <= k < r.0@.len() && cell_in_box(#[trigger] r.0@[k], xx, yy, zz)
                ==> #[trigger] matrix.cell(
                    xx + abox.begin.x, yy + abox.begin.y, zz + abox.begin.z,
                ) == label,
        forall|xx: int, yy: int, zz: int|
            cell_in_box(abox, xx, yy, zz) && #[trigger] matrix.cell(xx, yy, zz) == label
                ==> exists|k: int| 0 <= k < r.0@.len()
                    && cell_in_box(#[trigger] r.0@[k],
                        xx - abox.begin.x, yy - abox.begin.y, zz - abox.begin.z),
{
    let mut boxes = Vec::<Box3i>::new();
    let bx = abox.begin.x;
    let by = abox.begin.y;
    let bz = abox.begin.z;
    let ghost m = *matrix;
    let mut z: usize = bz;
    while z < abox.end.z
        invariant
            matrix.wf(),
            m == *matrix,
            abox.begin.spec_le(abox.end),
            abox.end.x <= matrix.size.x,
            abox.end.y <= matrix.size.y,
            abox.end.z <= matrix.size.z,
            bx == abox.begin.x && by == abox.begin.y && bz == abox.begin.z,
            bz <= z <= abox.end.z,
            model_boxes_ok(m, label, abox, boxes@),
            forall|xx: int, yy: int, zz: int|
                cell_in_box(abox, xx, yy, zz) && #[trigger] m.cell(xx, yy, zz) == label
                    && scan_before(xx, yy, zz, bx as int, by as int, z as int)
                    ==> exists|k: int| 0 <= k < boxes@.len()
                        && cell_in_box(#[trigger] boxes@[k],
                            xx - abox.begin.x, yy - abox.begin.y, zz - abox.begin.z),
        decreases abox.end.z - z,
    {
        let mut y: usize = by;
        while y < abox.end.y
            invariant
                matrix.wf(),
                m == *matrix,
                abox.begin.spec_le(abox.end),
                abox.end.x <= matrix.size.x,
                abox.end.y <= matrix.size.y,
                abox.end.z <= matrix.size.z,
                bx == abox.begin.x && by == abox.begin.y && bz == abox.begin.z,
                bz <= z < abox.end.z,
                by <= y <= abox.end.y,
                model_boxes_ok(m, label, abox, boxes@),
                forall|xx: int, yy: int, zz: int|
                    cell_in_box(abox, xx, yy, zz) && #[trigger] m.cell(xx, yy, zz) == label
                        && scan_before(xx, yy, zz, bx as int, y as int, z as int)
                        ==> exists|k: int| 0 <= k < boxes@.len()
                            && cell_in_box(#[trigger] boxes@[k],
                                xx - abox.begin.x, yy - abox.begin.y, zz - abox.begin.z),
            decreases abox.end.y - y,
        {
            let mut x: usize = bx;
            while x < abox.end.x
                invariant
                    matrix.wf(),
                    m == *matrix,
                    abox.begin.spec_le(abox.end),
                    abox.end.x <= matrix.size.x,
                    abox.end.y <= matrix.size.y,
                    abox.end.z <= matrix.size.z,
                    bx == abox.begin.x && by == abox.begin.y && bz == abox.begin.z,
                    bz <= z < abox.end.z,
                    by <= y < abox.end.y,
                    bx <= x <= abox.end.x,
                    model_boxes_ok(m, label, abox, boxes@),
                    forall|xx: int, yy: int, zz: int|
                        cell_in_box(abox, xx, yy, zz)
                            && #[trigger] m.cell(xx, yy, zz) == label
                            && scan_before(xx, yy, zz, x as int, y as int, z as int)
                            ==> exists|k: int| 0 <= k < boxes@.len()
                                && cell_in_box(#[trigger] boxes@[k],
                                    xx - abox.begin.x, yy - abox.begin.y,
                                    zz - abox.begin.z),
                decreases abox.end.x - x,
            {
                let ghost prev_boxes = boxes@;
                if matrix.get(x, y, z) == label {
                    let rel = Vec3i::new(x - bx, y - by, z - bz);
                    let mut covered = false;
                    let mut k: usize = 0;
                    let nb = boxes.len();
                    while k < nb && !covered
                        invariant
                            nb == boxes@.len(),
                            k <= nb,
                            covered ==> exists|k2: int| 0 <= k2 < boxes@.len()
                                && cell_in_box(#[trigger] boxes@[k2],
                                    rel.x as int, rel.y as int, rel.z as int),
                        decreases nb - k + (if covered { 0int } else { 1int }),
                    {
                        if boxes[k].bounds(rel) {
                            covered = true;
                        } else {
                            k = k + 1;
                        }
                    }
                    if !covered {
                        let begin = Vec3i::new(x, y, z);
                        let end = group_box(matrix, label, begin, abox.end);
                        let new_box = Box3i::new(
                            Vec3i::new(x - bx, y - by, z - bz),
                            Vec3i::new(end.x - bx, end.y - by, end.z - bz),
                        );
                        boxes.push(new_box);
                        proof {
                            assert(cell_in_box(boxes@[boxes@.len() - 1],
                                rel.x as int, rel.y as int, rel.z as int));
                            assert forall|k2: int, xx: int, yy: int, zz: int|
                                0 <= k2 < boxes@.len()
                                    && cell_in_box(#[trigger] boxes@[k2], xx, yy, zz)
                                implies #[trigger] m.cell(
                                    xx + abox.begin.x, yy + abox.begin.y,
                                    zz + abox.begin.z,
                                ) == label by {
                                if k2 < prev_boxes.len() {
                                    assert(boxes@[k2] == prev_boxes[k2]);
                                } else {
                                    assert(boxes@[k2] == new_box);
                                    assert(matrix.cell(
                                        xx + abox.begin.x, yy + abox.begin.y,
                                        zz + abox.begin.z,
                                    ) == label);
                                }
                            }
                        }
                    }
                    proof {
                        assert(exists|k2: int| 0 <= k2 < boxes@.len()
                            && cell_in_box(#[trigger] boxes@[k2],
                                rel.x as int, rel.y as int, rel.z as int));
                    }
                }
                proof {
                    assert forall|xx: int, yy: int, zz: int|
                        cell_in_box(abox, xx, yy, zz)
                            && #[trigger] m.cell(xx, yy, zz) == label
                            && scan_before(xx, yy, zz, x as int + 1, y as int, z as int)
                        implies exists|k2: int| 0 <= k2 < boxes@.len()
                            && cell_in_box(#[trigger] boxes@[k2],
                                xx - abox.begin.x, yy - abox.begin.y,
                                zz - abox.begin.z) by {
                        if scan_before(xx, yy, zz, x as int, y as int, z as int) {
                            let k2 = choose|k2: int| 0 <= k2 < prev_boxes.len()
                                && cell_in_box(#[trigger] prev_boxes[k2],
                                    xx - abox.begin.x, yy - abox.begin.y,
                                    zz - abox.begin.z);
                            assert(boxes@[k2] == prev_boxes[k2]);
                        } else {
                            assert(xx == x as int && yy == y as int && zz == z as int);
                        }
                    }
                }
                x = x + 1;
            }
            y = y + 1;
        }
        z = z + 1;
    }
    let r = ModelData(boxes);
    proof {
        assert forall|xx: int, yy: int, zz: int|
            cell_in_box(abox, xx, yy, zz) && #[trigger] matrix.cell(xx, yy, zz) == label
            implies exists|k: int| 0 <= k < r.0@.len()
                && cell_in_box(#[trigger] r.0@[k],
                    xx - abox.begin.x, yy - abox.begin.y, zz - abox.begin.z) by {
            assert(scan_before(xx, yy, zz, bx as int, by as int, z as int));
            assert(m.cell(xx, yy, zz) == label);
            let k2 = choose|k2: int| 0 <= k2 < r.0@.len()
                && cell_in_box(#[trigger] r.0@[k2],
                    xx - abox.begin.x, yy - abox.begin.y, zz - abox.begin.z);
            assert(0 <= k2 < r.0@.len()
                && cell_in_box(r.0@[k2],
                    xx - abox.begin.x, yy - abox.begin.y, zz - abox.begin.z));
        }
    }
    r
}

/// Every box of the cover lies inside the bounding box and holds only cells
/// of the label.
pub open spec fn model_boxes_ok(
    m: Matrix<Label>,
    label: Label,
    abox: Box3i,
    boxes: Seq<Box3i>,
) -> bool {
    &&& forall|k: int| 0 <= k < boxes.len() ==> {
        &&& (#[trigger] boxes[k]).begin.spec_lt(boxes[k].end)
        &&& boxes[k].end.x + abox.begin.x <= abox.end.x
        &&& boxes[k].end.y + abox.begin.y <= abox.end.y
        &&& boxes[k].end.z + abox.begin.z <= abox.end.z
    }
    &&& forall|k: int, xx: int, yy: int, zz: int|
        0 <= k < boxes.len() && cell_in_box(#[trigger] boxes[k], xx, yy, zz)
            ==> #[trigger] m.cell(xx + abox.begin.x, yy + abox.begin.y, zz + abox.begin.z)
                == label
}

/// The shape signature and volume of label `label` within its bounding box:
/// the signature of the box extents and occupancy bitmap, and the number of
/// cells of the label inside the box.
pub fn generate_morph(matrix: &Matrix<Label>, label: Label, abox: Box3i)
    -> (r: (Signature, usize))
    requires
        matrix.wf(),
        abox.begin.spec_le(abox.end),
        abox.end.x <= matrix.size.x,
        abox.end.y <= matrix.size.y,
        abox.end.z <= matrix.size.z,
    ensures
        r.0 == morph_of(*matrix, label, abox),
        r.1 == count_true(occupancy(*matrix, label, abox)),
{
    let ghost occ = occupancy(*matrix, label, abox);
    let ex: usize = abox.end.x - abox.begin.x;
    let ey: usize = abox.end.y - abox.begin.y;
    let ez: usize = abox.end.z - abox.begin.z;
    proof {
        lemma_product_le(
            ex as int, ey as int, ez as int,
            matrix.size.x as int, matrix.size.y as int, matrix.size.z as int,
        );
    }
    let mut bits = Vec::<bool>::new();
    let mut volume: usize = 0;
    let mut dz: usize = 0;
    proof {
        assert(forall|a: int| #[trigger] (0 * a) == 0) by (nonlinear_arith);
    }
    while dz < ez
        invariant
            dz <= ez,
            matrix.wf(),
            abox.begin.spec_le(abox.end),
            abox.end.x <= matrix.size.x,
            abox.end.y <= matrix.size.y,
            abox.end.z <= matrix.size.z,
            ex == abox.end.x - abox.begin.x,
            ey == abox.end.y - abox.begin.y,
            ez == abox.end.z - abox.begin.z,
            occ == occupancy(*matrix, label, abox),
            occ.len() == (ex * ey) * ez,
            occ.len() <= usize::MAX,
            bits@.len() == (dz * ey) * ex,
            bits@ == occ.subrange(0, bits@.len() as int),
            volume == count_true(bits@),
            volume <= bits@.len(),
        decreases ez - dz,
    {
        let mut dy: usize = 0;
        proof {
            assert(forall|a: int| #[trigger] (0 * a) == 0) by (nonlinear_arith);
        }
        while dy < ey
            invariant
                dy <= ey,
                dz < ez,
                matrix.wf(),
                abox.begin.spec_le(abox.end),
                abox.end.x <= matrix.size.x,
                abox.end.y <= matrix.size.y,
                abox.end.z <= matrix.size.z,
                ex == abox.end.x - abox.begin.x,
                ey == abox.end.y - abox.begin.y,
                ez == abox.end.z - abox.begin.z,
                occ == occupancy(*matrix, label, abox),
                occ.len() == (ex * ey) * ez,
                occ.len() <= usize::MAX,
                bits@.len() == dy * ex + (dz * ey) * ex,
                bits@ == occ.subrange(0, bits@.len() as int),
                volume == count_true(bits@),
                volume <= bits@.len(),
            decreases ey - dy,
        {
            let mut dx: usize = 0;
            while dx < ex
                invariant
                    dx <= ex,
                    dy < ey,
                    dz < ez,
                    matrix.wf(),
                    abox.begin.spec_le(abox.end),
                    abox.end.x <= matrix.size.x,
                    abox.end.y <= matrix.size.y,
                    abox.end.z <= matrix.size.z,
                    ex == abox.end.x - abox.begin.x,
                    ey == abox.end.y - abox.begin.y,
                    ez == abox.end.z - abox.begin.z,
                    occ == occupancy(*matrix, label, abox),
                    occ.len() == (ex * ey) * ez,
                    occ.len() <= usize::MAX,
                    bits@.len() == dx + dy * ex + (dz * ey) * ex,
                    bits@ == occ.subrange(0, bits@.len() as int),
                    volume == count_true(bits@),
                    volume <= bits@.len(),
                decreases ex - dx,
            {
                proof {
                    crate::matrix::lemma_idx_bounds(
                        dx as int, dy as int, dz as int, ex as int, ey as int, ez as int,
                    );
                    assert(bits@.len() == idx_of(dx as int, dy as int, dz as int,
                        ex as int, ey as int)) by (nonlinear_arith)
                        requires
                            bits@.len() == dx + dy * ex + (dz * ey) * ex,
                            ex == abox.end.x - abox.begin.x,
                            ey == abox.end.y - abox.begin.y,
                    ;
                    lemma_box_coord(
                        bits@.len() as int, dx as int, dy as int, dz as int,
                        ex as int, ey as int,
                    );
                }
                let hit = matrix.get(abox.begin.x + dx, abox.begin.y + dy, abox.begin.z + dz)
                    == label;
                let ghost prev_bits = bits@;
                bits.push(hit);
                if hit {
                    volume = volume + 1;
                }
                proof {
                    assert(occ[prev_bits.len() as int] == hit);
                    assert(bits@ =~= occ.subrange(0, bits@.len() as int));
                    assert(bits@.drop_last() == prev_bits);
                }
                dx = dx + 1;
            }
            dy = dy + 1;
            proof {
                assert(dy * ex == ex + (dy - 1) * ex) by (nonlinear_arith);
            }
        }
        dz = dz + 1;
        proof {
            assert((dz * ey) * ex == ey * ex + ((dz - 1) * ey) * ex) by (nonlinear_arith);
        }
    }
    proof {
        assert((ez * ey) * ex == (ex * ey) * ez) by (nonlinear_arith);
        assert(occ.subrange(0, occ.len() as int) =~= occ);
    }
    let signature = hash_signature(ex, ey, ez, &bits);
    (signature, volume)
}

} // verus!
