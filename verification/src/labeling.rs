//! Two-pass 6-connected component labeling over a value matrix, built on a
//! verified disjoint-set of provisional labels.

use vstd::prelude::*;
use crate::math::Vec3i;
use crate::matrix::{idx_of, Matrix};
use crate::morphology::Label;

verus! {

/// The parent array is a forest where every parent index is at most its
/// child, slot zero is its own parent, and no chain leaves `1..len` once it
/// starts there.
pub open spec fn uf_wf(p: Seq<u32>) -> bool {
    &&& p.len() >= 1
    &&& forall|i: int| 0 <= i < p.len() ==> (#[trigger] p[i]) <= i
    &&& forall|i: int| 1 <= i < p.len() ==> (#[trigger] p[i]) >= 1
}

/// The representative of `x`: follow parents until a fixed point.
pub open spec fn root_of(p: Seq<u32>, x: int) -> int
    decreases x,
        when uf_wf(p) && 0 <= x < p.len()
{
    if p[x] == x {
        x
    } else {
        root_of(p, p[x] as int)
    }
}

/// A representative is a root, and it never exceeds its element.
pub proof fn lemma_root_props(p: Seq<u32>, x: int)
    requires
        uf_wf(p),
        0 <= x < p.len(),
    ensures
        0 <= root_of(p, x) <= x,
        x >= 1 ==> root_of(p, x) >= 1,
        p[root_of(p, x)] == root_of(p, x),
    decreases x,
{
    if p[x] != x {
        lemma_root_props(p, p[x] as int);
    }
}

/// Appending a fresh element does not change any existing representative.
proof fn lemma_root_push(p: Seq<u32>, x: int)
    requires
        uf_wf(p),
        p.len() < u32::MAX,
        0 <= x < p.len(),
    ensures
        uf_wf(p.push(p.len() as u32)),
        root_of(p.push(p.len() as u32), x) == root_of(p, x),
    decreases x,
{
    assert(p.push(p.len() as u32)[p.len() as int] == p.len() as u32);
    if p[x] != x {
        lemma_root_push(p, p[x] as int);
    }
}

/// Redirecting the root `r` to a smaller root `r2` maps every old
/// representative `r` to `r2` and keeps all others.
proof fn lemma_root_update(p: Seq<u32>, r: int, r2: int, x: int)
    requires
        uf_wf(p),
        0 <= x < p.len(),
        1 <= r < p.len(),
        1 <= r2 < r,
        p[r] == r,
        p[r2] == r2,
    ensures
        uf_wf(p.update(r, r2 as u32)),
        root_of(p.update(r, r2 as u32), x)
            == if root_of(p, x) == r { r2 } else { root_of(p, x) },
    decreases x,
{
    let q = p.update(r, r2 as u32);
    lemma_root_props(p, x);
    if x == r {
        lemma_root_below(p, r, r2, r2);
    } else {
        if p[x] == x {
        } else {
            lemma_root_update(p, r, r2, p[x] as int);
        }
    }
}

/// An element strictly below the redirected root keeps its representative.
proof fn lemma_root_below(p: Seq<u32>, r: int, r2: int, y: int)
    requires
        uf_wf(p),
        1 <= r < p.len(),
        1 <= r2 < r,
        p[r] == r,
        p[r2] == r2,
        0 <= y < r,
    ensures
        root_of(p.update(r, r2 as u32), y) == root_of(p, y),
    decreases y,
{
    if p[y] != y {
        lemma_root_below(p, r, r2, p[y] as int);
    }
}

// ---------------------------------------------------------------------------
// 6-connected paths.
// ---------------------------------------------------------------------------

/// Two cells share a face.
pub open spec fn adjacent(x1: int, y1: int, z1: int, x2: int, y2: int, z2: int) -> bool {
    ||| (y1 == y2 && z1 == z2 && (x1 == x2 + 1 || x2 == x1 + 1))
    ||| (x1 == x2 && z1 == z2 && (y1 == y2 + 1 || y2 == y1 + 1))
    ||| (x1 == x2 && y1 == y2 && (z1 == z2 + 1 || z2 == z1 + 1))
}

/// A 6-connected path of in-bounds cells that all carry the same non-empty
/// value.
pub open spec fn path_ok(m: Matrix<u16>, empty: u16, p: Seq<(int, int, int)>) -> bool {
    &&& p.len() >= 1
    &&& forall|i: int| 0 <= i < p.len() ==> m.in_bounds((#[trigger] p[i]).0, p[i].1, p[i].2)
    &&& forall|i: int| 0 <= i < p.len()
        ==> m.cell((#[trigger] p[i]).0, p[i].1, p[i].2) == m.cell(p[0].0, p[0].1, p[0].2)
    &&& m.cell(p[0].0, p[0].1, p[0].2) != empty
    &&& forall|i: int| 0 <= i < p.len() - 1
        ==> adjacent(
            (#[trigger] p[i]).0, p[i].1, p[i].2,
            p[i + 1].0, p[i + 1].1, p[i + 1].2,
        )
}

/// There is a monochromatic 6-connected path from one cell to the other.
#[verifier::opaque]
pub open spec fn connected(
    m: Matrix<u16>,
    empty: u16,
    x1: int, y1: int, z1: int,
    x2: int, y2: int, z2: int,
) -> bool {
    exists|p: Seq<(int, int, int)>|
        path_ok(m, empty, p) && p[0] == (x1, y1, z1) && p.last() == (x2, y2, z2)
}

/// A non-empty cell is connected to itself.
pub proof fn lemma_connected_refl(m: Matrix<u16>, empty: u16, x: int, y: int, z: int)
    requires
        m.in_bounds(x, y, z),
        m.cell(x, y, z) != empty,
    ensures
        connected(m, empty, x, y, z, x, y, z),
{
    reveal(connected);
    let p: Seq<(int, int, int)> = seq![(x, y, z)];
    assert(path_ok(m, empty, p) && p[0] == (x, y, z) && p.last() == (x, y, z));
}

/// Face-adjacent cells of one non-empty value are connected.
pub proof fn lemma_connected_step(
    m: Matrix<u16>,
    empty: u16,
    x1: int, y1: int, z1: int,
    x2: int, y2: int, z2: int,
)
    requires
        m.in_bounds(x1, y1, z1),
        m.in_bounds(x2, y2, z2),
        adjacent(x1, y1, z1, x2, y2, z2),
        m.cell(x1, y1, z1) == m.cell(x2, y2, z2),
        m.cell(x1, y1, z1) != empty,
    ensures
        connected(m, empty, x1, y1, z1, x2, y2, z2),
{
    reveal(connected);
    let p: Seq<(int, int, int)> = seq![(x1, y1, z1), (x2, y2, z2)];
    assert(path_ok(m, empty, p) && p[0] == (x1, y1, z1) && p.last() == (x2, y2, z2));
}

/// Connectivity composes.
pub proof fn lemma_connected_trans(
    m: Matrix<u16>,
    empty: u16,
    x1: int, y1: int, z1: int,
    x2: int, y2: int, z2: int,
    x3: int, y3: int, z3: int,
)
    requires
        connected(m, empty, x1, y1, z1, x2, y2, z2),
        connected(m, empty, x2, y2, z2, x3, y3, z3),
    ensures
        connected(m, empty, x1, y1, z1, x3, y3, z3),
{
    reveal(connected);
    let p1 = choose|p: Seq<(int, int, int)>|
        path_ok(m, empty, p) && p[0] == (x1, y1, z1) && p.last() == (x2, y2, z2);
    let p2 = choose|p: Seq<(int, int, int)>|
        path_ok(m, empty, p) && p[0] == (x2, y2, z2) && p.last() == (x3, y3, z3);
    if p2.len() == 1 {
        assert(path_ok(m, empty, p1) && p1[0] == (x1, y1, z1) && p1.last() == (x3, y3, z3));
    } else {
        let q = p1 + p2.subrange(1, p2.len() as int);
        assert(q.len() == p1.len() + p2.len() - 1);
        assert(q[0] == p1[0]);
        assert(q.last() == p2.last());
        assert(m.cell(p2[0].0, p2[0].1, p2[0].2) == m.cell(q[0].0, q[0].1, q[0].2));
        assert forall|i: int| 0 <= i < q.len() - 1
            implies adjacent(
                (#[trigger] q[i]).0, q[i].1, q[i].2,
                q[i + 1].0, q[i + 1].1, q[i + 1].2,
            ) by {
            if i < p1.len() - 1 {
                assert(q[i] == p1[i] && q[i + 1] == p1[i + 1]);
            } else if i == p1.len() - 1 {
                assert(q[i] == p1.last() && q[i + 1] == p2[1]);
                assert(adjacent(p2[0].0, p2[0].1, p2[0].2, p2[1].0, p2[1].1, p2[1].2));
            } else {
                let j = i - p1.len() + 1;
                assert(q[i] == p2[j] && q[i + 1] == p2[j + 1]);
                assert(adjacent(p2[j].0, p2[j].1, p2[j].2, p2[j + 1].0, p2[j + 1].1, p2[j + 1].2));
            }
        }
        assert(path_ok(m, empty, q) && q[0] == (x1, y1, z1) && q.last() == (x3, y3, z3));
    }
}

/// Connectivity is symmetric: the reversed path connects back.
pub proof fn lemma_connected_sym(
    m: Matrix<u16>,
    empty: u16,
    x1: int, y1: int, z1: int,
    x2: int, y2: int, z2: int,
)
    requires
        connected(m, empty, x1, y1, z1, x2, y2, z2),
    ensures
        connected(m, empty, x2, y2, z2, x1, y1, z1),
{
    reveal(connected);
    let p = choose|p: Seq<(int, int, int)>|
        path_ok(m, empty, p) && p[0] == (x1, y1, z1) && p.last() == (x2, y2, z2);
    let n = p.len() as int;
    let q = Seq::new(p.len(), |i: int| p[n - 1 - i]);
    assert(q[0] == p[n - 1] && q.last() == p[0]);
    assert(m.cell(q[0].0, q[0].1, q[0].2) == m.cell(p[0].0, p[0].1, p[0].2));
    assert forall|i: int| 0 <= i < q.len() - 1
        implies adjacent(
            (#[trigger] q[i]).0, q[i].1, q[i].2,
            q[i + 1].0, q[i + 1].1, q[i + 1].2,
        ) by {
        assert(q[i] == p[n - 1 - i] && q[i + 1] == p[n - 2 - i]);
        assert(adjacent(
            p[n - 2 - i].0, p[n - 2 - i].1, p[n - 2 - i].2,
            p[n - 1 - i].0, p[n - 1 - i].1, p[n - 1 - i].2,
        ));
    }
    assert(path_ok(m, empty, q) && q[0] == (x2, y2, z2) && q.last() == (x1, y1, z1));
}

/// Along any monochromatic path, consecutive cells' labels share a
/// representative, so the whole path does.
pub proof fn lemma_path_root(
    m: Matrix<u16>,
    empty: u16,
    lm: Matrix<Label>,
    uf: Seq<u32>,
    p: Seq<(int, int, int)>,
)
    requires
        uf_wf(uf),
        lm.size == m.size,
        forall|x: int, y: int, z: int| m.in_bounds(x, y, z) && m.cell(x, y, z) != empty
            ==> 1 <= #[trigger] lm.cell(x, y, z) < uf.len(),
        forall|x1: int, y1: int, z1: int, x2: int, y2: int, z2: int|
            m.in_bounds(x1, y1, z1) && m.in_bounds(x2, y2, z2)
                && adjacent(x1, y1, z1, x2, y2, z2)
                && #[trigger] m.cell(x1, y1, z1) == #[trigger] m.cell(x2, y2, z2)
                && m.cell(x1, y1, z1) != empty
                ==> root_of(uf, lm.cell(x1, y1, z1) as int)
                    == root_of(uf, lm.cell(x2, y2, z2) as int),
        path_ok(m, empty, p),
    ensures
        root_of(uf, lm.cell(p[0].0, p[0].1, p[0].2) as int)
            == root_of(uf, lm.cell(p.last().0, p.last().1, p.last().2) as int),
    decreases p.len(),
{
    if p.len() > 1 {
        let q = p.drop_last();
        assert(forall|i: int| 0 <= i < q.len() ==> q[i] == p[i]);
        assert(path_ok(m, empty, q));
        lemma_path_root(m, empty, lm, uf, q);
        let a = p[p.len() - 2];
        let b = p.last();
        assert(adjacent(a.0, a.1, a.2, b.0, b.1, b.2));
        assert(m.cell(a.0, a.1, a.2) == m.cell(b.0, b.1, b.2));
        assert(q.last() == a);
    }
}

/// A disjoint-set over provisional labels `1 ..< len`; slot zero is unused.
pub struct DisjointSet {
    pub parent: Vec<u32>,
}

impl DisjointSet {
    pub open spec fn wf(self) -> bool {
        uf_wf(self.parent@)
    }

    pub open spec fn len(self) -> int {
        self.parent@.len() as int
    }

    /// The representative of label `x`.
    pub open spec fn root(self, x: int) -> int {
        root_of(self.parent@, x)
    }

    /// An empty set: no label yet.
    pub fn new() -> (r: Self)
        ensures
            r.wf(),
            r.len() == 1,
    {
        let mut parent = Vec::<u32>::new();
        parent.push(0);
        Self { parent }
    }

    /// Add the next label as its own singleton class.
    pub fn push(&mut self)
        requires
            old(self).wf(),
            old(self).len() < u32::MAX,
        ensures
            final(self).wf(),
            final(self).len() == old(self).len() + 1,
            forall|x: int| 0 <= x < old(self).len()
                ==> final(self).root(x) == old(self).root(x),
            final(self).root(old(self).len()) == old(self).len(),
    {
        let n = self.parent.len();
        self.parent.push(n as u32);
        proof {
            assert forall|x: int| 0 <= x < old(self).len()
                implies final(self).root(x) == old(self).root(x) by {
                lemma_root_push(old(self).parent@, x);
            }
            lemma_root_push(old(self).parent@, 0);
        }
    }

    /// The representative of `x`.
    pub fn find(&self, x: u32) -> (r: u32)
        requires
            self.wf(),
            0 <= x < self.len(),
        ensures
            r == self.root(x as int),
    {
        let mut cur = x;
        while self.parent[cur as usize] != cur
            invariant
                self.wf(),
                0 <= cur < self.len(),
                self.root(cur as int) == self.root(x as int),
            decreases cur,
        {
            cur = self.parent[cur as usize];
        }
        cur
    }

    /// Merge the classes of `a` and `b`; the smaller representative wins.
    /// Every class keeps or merges its representative: the new
    /// representative of `x` is the smaller of the two old ones where `x`
    /// was in either class, and unchanged otherwise.
    pub fn link(&mut self, a: u32, b: u32)
        requires
            old(self).wf(),
            1 <= a < old(self).len(),
            1 <= b < old(self).len(),
        ensures
            final(self).wf(),
            final(self).len() == old(self).len(),
            forall|x: int| 0 <= x < old(self).len()
                ==> final(self).root(x) == (
                    if old(self).root(x) == old(self).root(a as int)
                        || old(self).root(x) == old(self).root(b as int) {
                        if old(self).root(a as int) <= old(self).root(b as int) {
                            old(self).root(a as int)
                        } else {
                            old(self).root(b as int)
                        }
                    } else {
                        old(self).root(x)
                    }
                ),
    {
        let ra = self.find(a);
        let rb = self.find(b);
        proof {
            lemma_root_props(self.parent@, a as int);
            lemma_root_props(self.parent@, b as int);
        }
        if ra < rb {
            self.parent.set(rb as usize, ra);
            proof {
                assert forall|x: int| 0 <= x < old(self).len()
                    implies final(self).root(x) == (
                        if old(self).root(x) == rb as int || old(self).root(x) == ra as int {
                            ra as int
                        } else {
                            old(self).root(x)
                        }
                    ) by {
                    lemma_root_update(old(self).parent@, rb as int, ra as int, x);
                }
            }
        } else if rb < ra {
            self.parent.set(ra as usize, rb);
            proof {
                assert forall|x: int| 0 <= x < old(self).len()
                    implies final(self).root(x) == (
                        if old(self).root(x) == ra as int || old(self).root(x) == rb as int {
                            rb as int
                        } else {
                            old(self).root(x)
                        }
                    ) by {
                    lemma_root_update(old(self).parent@, ra as int, rb as int, x);
                }
            }
        }
    }
}

// ---------------------------------------------------------------------------
// Two-pass labeling.
// ---------------------------------------------------------------------------

/// Some in-bounds cell carries label `d`.
pub open spec fn label_used(lm: Matrix<Label>, d: int) -> bool {
    exists|x: int, y: int, z: int|
        lm.in_bounds(x, y, z) && #[trigger] lm.cell(x, y, z) == d
}

/// Some cell strictly earlier in the canonical scan carries label `d`.
pub open spec fn label_before(lm: Matrix<Label>, d: int, x: int, y: int, z: int) -> bool {
    exists|x2: int, y2: int, z2: int| {
        &&& lm.in_bounds(x2, y2, z2)
        &&& #[trigger] lm.cell(x2, y2, z2) == d
        &&& crate::morphology::scan_before(x2, y2, z2, x, y, z)
    }
}

/// Labels are numbered in first-appearance scan order: wherever a cell
/// carries a label, every smaller label already occurs strictly earlier
/// in the canonical scan.
pub open spec fn labels_in_scan_order(lm: Matrix<Label>) -> bool {
    forall|x: int, y: int, z: int, d: int|
        lm.in_bounds(x, y, z) && 1 <= d < lm.cell(x, y, z)
            ==> #[trigger] label_before(lm, d, x, y, z)
}

/// Some slot of `1 ..< remap.len()` maps to `d`.
pub open spec fn remap_hits(remap: Seq<u32>, d: int) -> bool {
    exists|l: int| 1 <= l < remap.len() && #[trigger] remap[l] == d
}

/// Mid-scan state of the first pass, at traversal position `(cx, cy, cz)`
/// with `cur` the next fresh provisional label: visited cells are labeled
/// exactly where they are non-empty, with labels below `cur`; each label
/// records its creation cell and value; values are constant on disjoint-set
/// classes; and the labels of visited face-adjacent equal-valued cells
/// share a representative.
pub open spec fn first_pass_inv(
    m: Matrix<u16>,
    empty: u16,
    lm: Matrix<Label>,
    uf: DisjointSet,
    pv: Seq<u16>,
    created: Seq<(int, int, int)>,
    cur: int,
    cx: int,
    cy: int,
    cz: int,
) -> bool {
    &&& lm.wf()
    &&& lm.size == m.size
    &&& uf.wf()
    &&& uf.len() == cur
    &&& pv.len() == cur
    &&& created.len() == cur
    &&& cur >= 1
    &&& forall|x: int, y: int, z: int|
        m.in_bounds(x, y, z) && crate::morphology::scan_before(x, y, z, cx, cy, cz)
            ==> ((#[trigger] lm.cell(x, y, z) == 0) <==> m.cell(x, y, z) == empty)
    &&& forall|x: int, y: int, z: int|
        m.in_bounds(x, y, z) && !crate::morphology::scan_before(x, y, z, cx, cy, cz)
            ==> #[trigger] lm.cell(x, y, z) == 0
    &&& forall|x: int, y: int, z: int|
        m.in_bounds(x, y, z) ==> #[trigger] lm.cell(x, y, z) < cur
    &&& forall|l: int| 1 <= l < cur ==> {
        &&& m.in_bounds((#[trigger] created[l]).0, created[l].1, created[l].2)
        &&& crate::morphology::scan_before(
            created[l].0, created[l].1, created[l].2, cx, cy, cz,
        )
        &&& lm.cell(created[l].0, created[l].1, created[l].2) == l
        &&& m.cell(created[l].0, created[l].1, created[l].2) != empty
    }
    &&& forall|x: int, y: int, z: int|
        m.in_bounds(x, y, z) && crate::morphology::scan_before(x, y, z, cx, cy, cz)
            && m.cell(x, y, z) != empty
            ==> pv[#[trigger] lm.cell(x, y, z) as int] == m.cell(x, y, z)
    &&& forall|l1: int, l2: int| 1 <= l1 < l2 < cur
        ==> crate::morphology::scan_before(
            (#[trigger] created[l1]).0, created[l1].1, created[l1].2,
            (#[trigger] created[l2]).0, created[l2].1, created[l2].2,
        )
    &&& forall|x: int, y: int, z: int|
        m.in_bounds(x, y, z) && crate::morphology::scan_before(x, y, z, cx, cy, cz)
            && m.cell(x, y, z) != empty
            ==> !crate::morphology::scan_before(
                x, y, z,
                created[#[trigger] lm.cell(x, y, z) as int].0,
                created[lm.cell(x, y, z) as int].1,
                created[lm.cell(x, y, z) as int].2,
            )
    &&& forall|l: int| 1 <= l < cur ==> #[trigger] pv[l] == pv[uf.root(l)]
    &&& forall|x1: int, y1: int, z1: int, x2: int, y2: int, z2: int|
        m.in_bounds(x1, y1, z1) && m.in_bounds(x2, y2, z2)
            && crate::morphology::scan_before(x1, y1, z1, cx, cy, cz)
            && crate::morphology::scan_before(x2, y2, z2, cx, cy, cz)
            && adjacent(x1, y1, z1, x2, y2, z2)
            && #[trigger] m.cell(x1, y1, z1) == #[trigger] m.cell(x2, y2, z2)
            && m.cell(x1, y1, z1) != empty
            ==> uf.root(lm.cell(x1, y1, z1) as int) == uf.root(lm.cell(x2, y2, z2) as int)
    &&& forall|x1: int, y1: int, z1: int, x2: int, y2: int, z2: int|
        m.in_bounds(x1, y1, z1) && m.in_bounds(x2, y2, z2)
            && crate::morphology::scan_before(x1, y1, z1, cx, cy, cz)
            && crate::morphology::scan_before(x2, y2, z2, cx, cy, cz)
            && #[trigger] m.cell(x1, y1, z1) != empty
            && #[trigger] m.cell(x2, y2, z2) != empty
            && uf.root(lm.cell(x1, y1, z1) as int) == uf.root(lm.cell(x2, y2, z2) as int)
            ==> connected(m, empty, x1, y1, z1, x2, y2, z2)
}

/// The labeling `lm` with dense value map `values` is a correct
/// 6-connected component labeling of `m`: empty cells get zero, non-empty
/// cells get a label in `1 ..= K` with `K == values.len()`, every such
/// label occurs, each label maps to its component's source value, and
/// cells joined by a monochromatic path share a label.
pub open spec fn labeling_ok(
    m: Matrix<u16>,
    empty: u16,
    lm: Matrix<Label>,
    values: Seq<u16>,
) -> bool {
    &&& lm.wf()
    &&& lm.size == m.size
    &&& values.len() <= m.size.spec_index_range()
    &&& forall|x: int, y: int, z: int| m.in_bounds(x, y, z)
        ==> ((#[trigger] lm.cell(x, y, z) == 0) <==> m.cell(x, y, z) == empty)
    &&& forall|x: int, y: int, z: int|
        m.in_bounds(x, y, z) && m.cell(x, y, z) != empty
            ==> 1 <= #[trigger] lm.cell(x, y, z) <= values.len()
    &&& forall|d: int| 1 <= d <= values.len() ==> #[trigger] label_used(lm, d)
    &&& forall|x: int, y: int, z: int|
        m.in_bounds(x, y, z) && m.cell(x, y, z) != empty
            ==> values[#[trigger] lm.cell(x, y, z) as int - 1] == m.cell(x, y, z)
    &&& forall|x1: int, y1: int, z1: int, x2: int, y2: int, z2: int|
        #[trigger] connected(m, empty, x1, y1, z1, x2, y2, z2)
            ==> lm.cell(x1, y1, z1) == lm.cell(x2, y2, z2)
    &&& forall|x1: int, y1: int, z1: int, x2: int, y2: int, z2: int|
        #![trigger lm.cell(x1, y1, z1), lm.cell(x2, y2, z2)]
        m.in_bounds(x1, y1, z1) && m.in_bounds(x2, y2, z2)
            && m.cell(x1, y1, z1) != empty && m.cell(x2, y2, z2) != empty
            && lm.cell(x1, y1, z1) == lm.cell(x2, y2, z2)
            ==> connected(m, empty, x1, y1, z1, x2, y2, z2)
}

impl Matrix<u16> {
    /// Two-pass 6-connected component labeling.  Returns the label matrix
    /// and the dense map from label (less one) to the component's source
    /// value.  Empty cells get label zero; non-empty cells get labels
    /// `1 ..= K` where `K` is the number of values returned, every such
    /// label occurs, and cells joined by a monochromatic 6-connected path
    /// share a label.
    #[verifier::loop_isolation(false)]
    #[verifier::rlimit(100)]
    pub fn connected_component_labeling(&self, empty: u16) -> (r: (Matrix<Label>, Vec<u16>))
        requires
            self.wf(),
            self.size.spec_index_range() < u32::MAX,
        ensures
            labeling_ok(*self, empty, r.0, r.1@),
            r.0.wf(),
            r.0.size == self.size,
            r.1@.len() <= self.size.spec_index_range(),
            forall|x: int, y: int, z: int| self.in_bounds(x, y, z)
                ==> ((#[trigger] r.0.cell(x, y, z) == 0) <==> self.cell(x, y, z) == empty),
            forall|x: int, y: int, z: int|
                self.in_bounds(x, y, z) && self.cell(x, y, z) != empty
                    ==> 1 <= #[trigger] r.0.cell(x, y, z) <= r.1@.len(),
            forall|d: int| 1 <= d <= r.1@.len() ==> #[trigger] label_used(r.0, d),
            forall|x: int, y: int, z: int|
                self.in_bounds(x, y, z) && self.cell(x, y, z) != empty
                    ==> r.1@[#[trigger] r.0.cell(x, y, z) as int - 1] == self.cell(x, y, z),
            forall|x1: int, y1: int, z1: int, x2: int, y2: int, z2: int|
                #[trigger] connected(*self, empty, x1, y1, z1, x2, y2, z2)
                    ==> r.0.cell(x1, y1, z1) == r.0.cell(x2, y2, z2),
            forall|x1: int, y1: int, z1: int, x2: int, y2: int, z2: int|
                #![trigger r.0.cell(x1, y1, z1), r.0.cell(x2, y2, z2)]
                self.in_bounds(x1, y1, z1) && self.in_bounds(x2, y2, z2)
                    && self.cell(x1, y1, z1) != empty && self.cell(x2, y2, z2) != empty
                    && r.0.cell(x1, y1, z1) == r.0.cell(x2, y2, z2)
                    ==> connected(*self, empty, x1, y1, z1, x2, y2, z2),
            labels_in_scan_order(r.0),
    {
        let m = self;
        let sx = m.size.x;
        let sy = m.size.y;
        let sz = m.size.z;
        let (mut lm, uf, prov_value, current, created) = first_pass(self, empty);
        proof {
            assert(forall|x: int, y: int, z: int| m.in_bounds(x, y, z)
                ==> crate::morphology::scan_before(x, y, z, 0, 0, sz as int));
        }
        let (remap, values, label_count) = compact_labels(&uf, &prov_value, current);

        // Rewrite every cell through the compaction.
        let ghost lm0 = lm;
        let mut z: usize = 0;
        while z < sz
            invariant
                z <= sz,
                lm.wf(),
                lm.size == m.size,
                forall|x2: int, y2: int, z2: int|
                    m.in_bounds(x2, y2, z2)
                        && crate::morphology::scan_before(x2, y2, z2, 0, 0, z as int)
                        ==> #[trigger] lm.cell(x2, y2, z2) == (
                            if lm0.cell(x2, y2, z2) == 0 {
                                0u32
                            } else {
                                remap@[lm0.cell(x2, y2, z2) as int]
                            }
                        ),
                forall|x2: int, y2: int, z2: int|
                    m.in_bounds(x2, y2, z2)
                        && !crate::morphology::scan_before(x2, y2, z2, 0, 0, z as int)
                        ==> #[trigger] lm.cell(x2, y2, z2) == lm0.cell(x2, y2, z2),
            decreases sz - z,
        {
            let mut y: usize = 0;
            while y < sy
                invariant
                    y <= sy,
                    lm.wf(),
                    lm.size == m.size,
                    forall|x2: int, y2: int, z2: int|
                        m.in_bounds(x2, y2, z2)
                            && crate::morphology::scan_before(x2, y2, z2, 0, y as int, z as int)
                            ==> #[trigger] lm.cell(x2, y2, z2) == (
                                if lm0.cell(x2, y2, z2) == 0 {
                                    0u32
                                } else {
                                    remap@[lm0.cell(x2, y2, z2) as int]
                                }
                            ),
                    forall|x2: int, y2: int, z2: int|
                        m.in_bounds(x2, y2, z2)
                            && !crate::morphology::scan_before(x2, y2, z2, 0, y as int, z as int)
                            ==> #[trigger] lm.cell(x2, y2, z2) == lm0.cell(x2, y2, z2),
                decreases sy - y,
            {
                let mut x: usize = 0;
                while x < sx
                    invariant
                        x <= sx,
                        lm.wf(),
                        lm.size == m.size,
                        forall|x2: int, y2: int, z2: int|
                            m.in_bounds(x2, y2, z2)
                                && crate::morphology::scan_before(
                                    x2, y2, z2, x as int, y as int, z as int,
                                )
                                ==> #[trigger] lm.cell(x2, y2, z2) == (
                                    if lm0.cell(x2, y2, z2) == 0 {
                                        0u32
                                    } else {
                                        remap@[lm0.cell(x2, y2, z2) as int]
                                    }
                                ),
                        forall|x2: int, y2: int, z2: int|
                            m.in_bounds(x2, y2, z2)
                                && !crate::morphology::scan_before(
                                    x2, y2, z2, x as int, y as int, z as int,
                                )
                                ==> #[trigger] lm.cell(x2, y2, z2) == lm0.cell(x2, y2, z2),
                    decreases sx - x,
                {
                    let lab = lm.get(x, y, z);
                    if lab > 0 {
                        let newl = remap[lab as usize];
                        lm.set(x, y, z, newl);
                    }
                    x = x + 1;
                }
                y = y + 1;
            }
            z = z + 1;
        }

        proof {
            assert(forall|x2: int, y2: int, z2: int| m.in_bounds(x2, y2, z2)
                ==> crate::morphology::scan_before(x2, y2, z2, 0, 0, sz as int));
            assert(first_pass_inv(*m, empty, lm0, uf, prov_value@, created@,
                current as int, 0, 0, sz as int));
            assert forall|d: int| 1 <= d <= values@.len()
                implies #[trigger] label_used(lm, d) by {
                assert(remap_hits(remap@, d));
                let lw = choose|l2: int| 1 <= l2 < remap@.len()
                    && #[trigger] remap@[l2] == d;
                let c = created@[lw];
                assert(lm0.cell(c.0, c.1, c.2) == lw);
                assert(lm.cell(c.0, c.1, c.2) == d);
            }
            assert forall|x1: int, y1: int, z1: int, x2: int, y2: int, z2: int|
                #[trigger] connected(*m, empty, x1, y1, z1, x2, y2, z2)
                implies lm.cell(x1, y1, z1) == lm.cell(x2, y2, z2) by {
                reveal(connected);
                let p = choose|p: Seq<(int, int, int)>|
                    path_ok(*m, empty, p) && p[0] == (x1, y1, z1)
                        && p.last() == (x2, y2, z2);
                assert(m.in_bounds(x1, y1, z1) && m.cell(x1, y1, z1) != empty);
                assert(m.in_bounds(x2, y2, z2) && m.cell(x2, y2, z2) != empty);
                lemma_path_root(*m, empty, lm0, uf.parent@, p);
                assert(remap@[lm0.cell(x1, y1, z1) as int]
                    == remap@[lm0.cell(x2, y2, z2) as int]);
            }
            // Cells that share a final label are joined by a path: their
            // provisional labels share a representative.
            assert forall|x1: int, y1: int, z1: int, x2: int, y2: int, z2: int|
                #![trigger lm.cell(x1, y1, z1), lm.cell(x2, y2, z2)]
                m.in_bounds(x1, y1, z1) && m.in_bounds(x2, y2, z2)
                    && m.cell(x1, y1, z1) != empty && m.cell(x2, y2, z2) != empty
                    && lm.cell(x1, y1, z1) == lm.cell(x2, y2, z2)
                implies connected(*m, empty, x1, y1, z1, x2, y2, z2) by {
                let l1 = lm0.cell(x1, y1, z1) as int;
                let l2 = lm0.cell(x2, y2, z2) as int;
                assert(lm.cell(x1, y1, z1) == remap@[l1]);
                assert(lm.cell(x2, y2, z2) == remap@[l2]);
                assert(uf.root(l1) == uf.root(l2));
                assert(crate::morphology::scan_before(x1, y1, z1, 0, 0, sz as int));
                assert(crate::morphology::scan_before(x2, y2, z2, 0, 0, sz as int));
                assert(connected(*m, empty, x1, y1, z1, x2, y2, z2));
            }
            // Labels are numbered in first-appearance scan order: every
            // smaller label already occurs strictly earlier in the scan.
            assert forall|x: int, y: int, z: int, d: int|
                lm.in_bounds(x, y, z) && 1 <= d < lm.cell(x, y, z)
                implies #[trigger] label_before(lm, d, x, y, z) by {
                assert(m.in_bounds(x, y, z));
                assert(m.cell(x, y, z) != empty);
                let lc = lm0.cell(x, y, z) as int;
                lemma_root_props(uf.parent@, lc);
                let rc = uf.root(lc);
                assert(uf.root(rc) == rc);
                assert(remap@[rc] == remap@[lc]);
                assert(remap_hits(remap@, d));
                let ld = choose|l2: int| 1 <= l2 < remap@.len()
                    && #[trigger] remap@[l2] == d;
                lemma_root_props(uf.parent@, ld);
                let rd = uf.root(ld);
                assert(uf.root(rd) == rd);
                assert(remap@[rd] == d);
                assert(rd < rc) by {
                    if rd == rc {
                        assert(remap@[rd] == remap@[rc]);
                    } else if rc < rd {
                        assert(remap@[rc] < remap@[rd]);
                    }
                }
                let w = created@[rd];
                let cc = created@[lc];
                assert(lm0.cell(w.0, w.1, w.2) == rd);
                assert(lm.cell(w.0, w.1, w.2) == remap@[rd]);
                assert(crate::morphology::scan_before(
                    w.0, w.1, w.2, created@[rc].0, created@[rc].1, created@[rc].2,
                ));
                assert(!crate::morphology::scan_before(x, y, z, cc.0, cc.1, cc.2));
                if rc < lc {
                    assert(crate::morphology::scan_before(
                        created@[rc].0, created@[rc].1, created@[rc].2, cc.0, cc.1, cc.2,
                    ));
                }
                assert(crate::morphology::scan_before(w.0, w.1, w.2, x, y, z));
                assert(lm.in_bounds(w.0, w.1, w.2) && lm.cell(w.0, w.1, w.2) == d
                    && crate::morphology::scan_before(w.0, w.1, w.2, x, y, z));
            }
            assert(labels_in_scan_order(lm));
        }
        (lm, values)
    }
}


/// First pass of the labeling: provisional labels with a disjoint-set of
/// merges, each label's creation cell and source value recorded.
#[verifier::loop_isolation(false)]
#[verifier::rlimit(100)]
fn first_pass(m: &Matrix<u16>, empty: u16)
    -> (r: (Matrix<Label>, DisjointSet, Vec<u16>, u32, Ghost<Seq<(int, int, int)>>))
    requires
        m.wf(),
        m.size.spec_index_range() < u32::MAX,
    ensures
        ({
            let (lm, uf, prov_value, current, created) = r;
            &&& uf.len() == current as int
            &&& current as int <= 1 + m.size.spec_index_range()
            &&& first_pass_inv(*m, empty, lm, uf, prov_value@, created@,
                current as int, 0, 0, m.size.z as int)
        }),
{
    let sx = m.size.x;
    let sy = m.size.y;
    let sz = m.size.z;
    let mut lm = Matrix::<Label>::new(m.size, 0);
    let mut uf = DisjointSet::new();
    let mut prov_value = Vec::<u16>::new();
    prov_value.push(empty);
    let mut current: u32 = 1;
    let ghost mut created: Seq<(int, int, int)> = seq![(0int, 0int, 0int)];

    // First pass: provisional labels with a disjoint-set of merges.
    proof {
        assert forall|x: int, y: int, z: int| m.in_bounds(x, y, z)
            implies #[trigger] lm.cell(x, y, z) == 0 by {
            crate::matrix::lemma_idx_bounds(x, y, z, sx as int, sy as int, sz as int);
        }
    }
    let mut z: usize = 0;
    while z < sz
        invariant
            z <= sz,
            uf.len() == current as int,
            current as int <= 1 + idx_of(0, 0, z as int, sx as int, sy as int),
            first_pass_inv(*m, empty, lm, uf, prov_value@, created,
                current as int, 0, 0, z as int),
        decreases sz - z,
    {
        proof {
            assert(idx_of(0, 0, z as int, sx as int, sy as int)
                <= sx as int * sy as int * sz as int) by (nonlinear_arith)
                requires
                    0 <= z as int <= sz as int,
                    0 <= sx as int,
                    0 <= sy as int,
            ;
        }
        let mut y: usize = 0;
        while y < sy
            invariant
                y <= sy,
                uf.len() == current as int,
                current as int <= 1 + idx_of(0, y as int, z as int, sx as int, sy as int),
                first_pass_inv(*m, empty, lm, uf, prov_value@, created,
                    current as int, 0, y as int, z as int),
            decreases sy - y,
        {
            let mut x: usize = 0;
            while x < sx
                invariant
                    x <= sx,
                    uf.len() == current as int,
                    current as int
                        <= 1 + idx_of(x as int, y as int, z as int, sx as int, sy as int),
                    first_pass_inv(*m, empty, lm, uf, prov_value@, created,
                        current as int, x as int, y as int, z as int),
                decreases sx - x,
            {
                proof {
                    crate::matrix::lemma_idx_bounds(
                        x as int, y as int, z as int, sx as int, sy as int, sz as int,
                    );
                }
                let gc = absorb_cell(
                    m, empty, &mut lm, &mut uf, &mut prov_value, &mut current,
                    Ghost(created), x, y, z,
                );
                proof {
                    created = gc@;
                }
                x = x + 1;
            }
            proof {
                assert(idx_of(sx as int, y as int, z as int, sx as int, sy as int)
                    == idx_of(0, y as int + 1, z as int, sx as int, sy as int))
                    by (nonlinear_arith);
            }
            y = y + 1;
        }
        proof {
            assert(idx_of(0, sy as int, z as int, sx as int, sy as int)
                == idx_of(0, 0, z as int + 1, sx as int, sy as int)) by (nonlinear_arith);
        }
        z = z + 1;
    }
    proof {
        assert(idx_of(0, 0, sz as int, sx as int, sy as int)
            == sx as int * sy as int * sz as int) by (nonlinear_arith);
        assert(forall|x: int, y: int, z: int| m.in_bounds(x, y, z)
            ==> crate::morphology::scan_before(x, y, z, 0, 0, sz as int));
    }

    (lm, uf, prov_value, current, Ghost(created))
}


/// Absorb one non-empty cell into the provisional labeling: inherit the
/// smallest matching neighbour label and merge the adjacent classes, or
/// open a fresh label.
#[verifier::loop_isolation(false)]
#[verifier::rlimit(100)]
fn absorb_cell(
    m: &Matrix<u16>,
    empty: u16,
    lm: &mut Matrix<Label>,
    uf: &mut DisjointSet,
    prov_value: &mut Vec<u16>,
    current: &mut u32,
    Ghost(created): Ghost<Seq<(int, int, int)>>,
    x: usize,
    y: usize,
    z: usize,
) -> (gc: Ghost<Seq<(int, int, int)>>)
    requires
        m.wf(),
        m.size.spec_index_range() < u32::MAX,
        m.in_bounds(x as int, y as int, z as int),
        first_pass_inv(*m, empty, *old(lm), *old(uf), old(prov_value)@, created,
            *old(current) as int, x as int, y as int, z as int),
        old(uf).len() == *old(current) as int,
        *old(current) as int <= 1 + idx_of(x as int, y as int, z as int,
            m.size.x as int, m.size.y as int),
    ensures
        first_pass_inv(*m, empty, *final(lm), *final(uf), final(prov_value)@, gc@,
            *final(current) as int, x as int + 1, y as int, z as int),
        final(uf).len() == *final(current) as int,
        *final(current) as int <= 2 + idx_of(x as int, y as int, z as int,
            m.size.x as int, m.size.y as int),
{
    let ghost mut created = created;
    proof {
        crate::matrix::lemma_idx_bounds(
            x as int, y as int, z as int,
            m.size.x as int, m.size.y as int, m.size.z as int,
        );
    }
    let ghost current_g = *current;
    let ghost uf_pre = *uf;
    let ghost lm_pre = *lm;
    let v = m.get(x, y, z);
    if v != empty {
        let same_x = x > 0 && m.get(x - 1, y, z) == v;
        let same_y = y > 0 && m.get(x, y - 1, z) == v;
        let same_z = z > 0 && m.get(x, y, z - 1) == v;
        if same_x || same_y || same_z {
            absorb_merge(m, empty, lm, uf, prov_value, Ghost(created),
                Ghost(current_g), x, y, z, v, same_x, same_y, same_z);
        } else {
            // No matching neighbour: a fresh label.
            lm.set(x, y, z, *current);
            uf.push();
            prov_value.push(v);
            proof {
                created = created.push((x as int, y as int, z as int));
                assert forall|l: int| 1 <= l < current_g as int + 1
                    implies #[trigger] prov_value@[l]
                        == prov_value@[uf.root(l)] by {
                    if l < current_g as int {
                        lemma_root_props(uf_pre.parent@, l);
                        assert(uf.root(l) == uf_pre.root(l));
                    } else {
                        assert(uf.root(l) == l);
                    }
                }
                assert forall|x1: int, y1: int, z1: int, x2: int, y2: int, z2: int|
                    m.in_bounds(x1, y1, z1) && m.in_bounds(x2, y2, z2)
                        && crate::morphology::scan_before(x1, y1, z1,
                            x as int + 1, y as int, z as int)
                        && crate::morphology::scan_before(x2, y2, z2,
                            x as int + 1, y as int, z as int)
                        && #[trigger] m.cell(x1, y1, z1) != empty
                        && #[trigger] m.cell(x2, y2, z2) != empty
                        && uf.root(lm.cell(x1, y1, z1) as int)
                            == uf.root(lm.cell(x2, y2, z2) as int)
                    implies connected(*m, empty, x1, y1, z1, x2, y2, z2) by {
                    let c1_cur = x1 == x as int && y1 == y as int && z1 == z as int;
                    let c2_cur = x2 == x as int && y2 == y as int && z2 == z as int;
                    if c1_cur && c2_cur {
                        lemma_connected_refl(*m, empty, x as int, y as int, z as int);
                    } else if c1_cur || c2_cur {
                        let lo = if c1_cur {
                            lm.cell(x2, y2, z2) as int
                        } else {
                            lm.cell(x1, y1, z1) as int
                        };
                        lemma_root_props(uf_pre.parent@, lo);
                        assert(uf.root(lo) == uf_pre.root(lo));
                        assert(uf.root(lo) < current_g as int);
                        assert(uf.root(current_g as int) == current_g as int);
                        assert(false);
                    } else {
                        assert(connected(*m, empty, x1, y1, z1, x2, y2, z2));
                    }
                }
            }
            *current = *current + 1;
        }
    }
    Ghost(created)
}


/// Absorb a cell with at least one matching neighbour: inherit the
/// smallest adjacent label and merge the adjacent classes.
#[verifier::spinoff_prover]
#[verifier::rlimit(100)]
fn absorb_merge(
    m: &Matrix<u16>,
    empty: u16,
    lm: &mut Matrix<Label>,
    uf: &mut DisjointSet,
    prov_value: &Vec<u16>,
    Ghost(created): Ghost<Seq<(int, int, int)>>,
    Ghost(current_g): Ghost<u32>,
    x: usize,
    y: usize,
    z: usize,
    v: u16,
    same_x: bool,
    same_y: bool,
    same_z: bool,
) 
    requires
        m.wf(),
        m.in_bounds(x as int, y as int, z as int),
        v == m.cell(x as int, y as int, z as int),
        v != empty,
        same_x <==> (x >= 1 && m.cell(x as int - 1, y as int, z as int) == v),
        same_y <==> (y >= 1 && m.cell(x as int, y as int - 1, z as int) == v),
        same_z <==> (z >= 1 && m.cell(x as int, y as int, z as int - 1) == v),
        same_x || same_y || same_z,
        first_pass_inv(*m, empty, *old(lm), *old(uf), prov_value@, created,
            current_g as int, x as int, y as int, z as int),
        old(uf).len() == current_g as int,
    ensures
        first_pass_inv(*m, empty, *final(lm), *final(uf), prov_value@, created,
            current_g as int, x as int + 1, y as int, z as int),
        final(uf).len() == current_g as int,
{
    let ghost uf_pre = *uf;
    let ghost lm_pre = *lm;
    // Inherit the smallest adjacent label and merge
    // the classes of all adjacent labels.
    let mut mn: u32 = 0;
    let mut first: u32 = 0;
    if same_x {
        let lx = lm.get(x - 1, y, z);
        mn = lx;
        first = lx;
    }
    if same_y {
        let ly = lm.get(x, y - 1, z);
        if mn == 0 {
            mn = ly;
            first = ly;
        } else {
            if ly < mn {
                mn = ly;
            }
            uf.link(first, ly);
        }
    }
    if same_z {
        let lz = lm.get(x, y, z - 1);
        if mn == 0 {
            mn = lz;
            first = lz;
        } else {
            if lz < mn {
                mn = lz;
            }
            uf.link(first, lz);
        }
    }
    lm.set(x, y, z, mn);
    proof {
        assert(1 <= mn < current_g);
        assert(prov_value@[mn as int] == v);
        if same_x {
            assert(uf.root(lm.cell(x as int, y as int, z as int) as int)
                == uf.root(lm.cell(x as int - 1, y as int, z as int) as int));
        }
        if same_y {
            assert(uf.root(lm.cell(x as int, y as int, z as int) as int)
                == uf.root(lm.cell(x as int, y as int - 1, z as int) as int));
        }
        if same_z {
            assert(uf.root(lm.cell(x as int, y as int, z as int) as int)
                == uf.root(lm.cell(x as int, y as int, z as int - 1) as int));
        }
        assert forall|l1: int, l2: int|
            1 <= l1 < current_g && 1 <= l2 < current_g
                && uf_pre.root(l1) == uf_pre.root(l2)
            implies uf.root(l1) == uf.root(l2) by {}
        assert forall|l: int| 1 <= l < current_g
            implies #[trigger] prov_value@[l]
                == prov_value@[uf.root(l)] by {
            lemma_root_props(uf_pre.parent@, l);
            lemma_root_props(uf.parent@, l);
        }
        // Connectivity: each matching neighbour touches this cell.
        let gx = x as int;
        let gy = y as int;
        let gz = z as int;
        if same_x {
            lemma_connected_step(*m, empty, gx - 1, gy, gz, gx, gy, gz);
        }
        if same_y {
            lemma_connected_step(*m, empty, gx, gy - 1, gz, gx, gy, gz);
        }
        if same_z {
            lemma_connected_step(*m, empty, gx, gy, gz - 1, gx, gy, gz);
        }
        // The classes merged into this cell's class are exactly
        // those of the matching neighbours.
        assert forall|l: int| 1 <= l < current_g
            implies ((#[trigger] uf.root(l) == uf.root(mn as int)) <==> (
                (same_x && uf_pre.root(l)
                    == uf_pre.root(lm_pre.cell(gx - 1, gy, gz) as int))
                || (same_y && uf_pre.root(l)
                    == uf_pre.root(lm_pre.cell(gx, gy - 1, gz) as int))
                || (same_z && uf_pre.root(l)
                    == uf_pre.root(lm_pre.cell(gx, gy, gz - 1) as int))
            )) by {}
        // A visited cell of the merged class connects to this cell.
        assert forall|x1: int, y1: int, z1: int|
            m.in_bounds(x1, y1, z1)
                && crate::morphology::scan_before(x1, y1, z1, gx, gy, gz)
                && #[trigger] m.cell(x1, y1, z1) != empty
                && uf.root(lm.cell(x1, y1, z1) as int) == uf.root(mn as int)
            implies connected(*m, empty, x1, y1, z1, gx, gy, gz) by {
            if same_x && uf_pre.root(lm_pre.cell(x1, y1, z1) as int)
                == uf_pre.root(lm_pre.cell(gx - 1, gy, gz) as int) {
                assert(connected(*m, empty, x1, y1, z1, gx - 1, gy, gz));
                lemma_connected_trans(*m, empty, x1, y1, z1,
                    gx - 1, gy, gz, gx, gy, gz);
            } else if same_y && uf_pre.root(lm_pre.cell(x1, y1, z1) as int)
                == uf_pre.root(lm_pre.cell(gx, gy - 1, gz) as int) {
                assert(connected(*m, empty, x1, y1, z1, gx, gy - 1, gz));
                lemma_connected_trans(*m, empty, x1, y1, z1,
                    gx, gy - 1, gz, gx, gy, gz);
            } else {
                assert(same_z && uf_pre.root(lm_pre.cell(x1, y1, z1) as int)
                    == uf_pre.root(lm_pre.cell(gx, gy, gz - 1) as int));
                assert(connected(*m, empty, x1, y1, z1, gx, gy, gz - 1));
                lemma_connected_trans(*m, empty, x1, y1, z1,
                    gx, gy, gz - 1, gx, gy, gz);
            }
        }
        // The invariant at the next scan position.
        assert forall|x1: int, y1: int, z1: int, x2: int, y2: int, z2: int|
            m.in_bounds(x1, y1, z1) && m.in_bounds(x2, y2, z2)
                && crate::morphology::scan_before(x1, y1, z1, gx + 1, gy, gz)
                && crate::morphology::scan_before(x2, y2, z2, gx + 1, gy, gz)
                && #[trigger] m.cell(x1, y1, z1) != empty
                && #[trigger] m.cell(x2, y2, z2) != empty
                && uf.root(lm.cell(x1, y1, z1) as int)
                    == uf.root(lm.cell(x2, y2, z2) as int)
            implies connected(*m, empty, x1, y1, z1, x2, y2, z2) by {
            let c1_cur = x1 == gx && y1 == gy && z1 == gz;
            let c2_cur = x2 == gx && y2 == gy && z2 == gz;
            if c1_cur && c2_cur {
                lemma_connected_refl(*m, empty, gx, gy, gz);
            } else if c2_cur {
                assert(connected(*m, empty, x1, y1, z1, gx, gy, gz));
            } else if c1_cur {
                assert(connected(*m, empty, x2, y2, z2, gx, gy, gz));
                lemma_connected_sym(*m, empty, x2, y2, z2, gx, gy, gz);
            } else {
                if uf_pre.root(lm_pre.cell(x1, y1, z1) as int)
                    == uf_pre.root(lm_pre.cell(x2, y2, z2) as int) {
                    assert(connected(*m, empty, x1, y1, z1, x2, y2, z2));
                } else {
                    assert(uf.root(lm.cell(x1, y1, z1) as int)
                        == uf.root(mn as int));
                    assert(connected(*m, empty, x1, y1, z1, gx, gy, gz));
                    assert(connected(*m, empty, x2, y2, z2, gx, gy, gz));
                    lemma_connected_sym(*m, empty, x2, y2, z2, gx, gy, gz);
                    lemma_connected_trans(*m, empty, x1, y1, z1,
                        gx, gy, gz, x2, y2, z2);
                }
            }
        }
    }

}

/// Second pass of the labeling: compact the representatives, in increasing
/// order, into dense final labels, collecting each class's source value.
#[verifier::loop_isolation(false)]
#[verifier::rlimit(100)]
fn compact_labels(uf: &DisjointSet, prov_value: &Vec<u16>, current: u32)
    -> (r: (Vec<u32>, Vec<u16>, u32))
    requires
        uf.wf(),
        uf.len() == current as int,
        prov_value@.len() == current as int,
        current >= 1,
        forall|l2: int| 1 <= l2 < current as int
            ==> #[trigger] prov_value@[l2] == prov_value@[uf.root(l2)],
    ensures
        ({
            let (remap, values, label_count) = r;
            &&& remap@.len() == current as int
            &&& values@.len() == label_count as int
            &&& label_count < current
            &&& forall|l2: int| 1 <= l2 < current as int
                ==> 1 <= #[trigger] remap@[l2] <= label_count
            &&& forall|l2: int| 1 <= l2 < current as int
                ==> #[trigger] remap@[l2] == remap@[uf.root(l2)]
            &&& forall|l1: int, l2: int|
                1 <= l1 < current as int && 1 <= l2 < current as int
                    ==> ((#[trigger] remap@[l1] == #[trigger] remap@[l2])
                        <==> uf.root(l1) == uf.root(l2))
            &&& forall|l2: int| 1 <= l2 < current as int
                ==> values@[#[trigger] remap@[l2] as int - 1] == prov_value@[l2]
            &&& forall|d: int| 1 <= d <= label_count ==> #[trigger] remap_hits(remap@, d)
            &&& forall|l1: int, l2: int|
                1 <= l1 < current as int && 1 <= l2 < current as int
                    && uf.root(l1) == l1 && uf.root(l2) == l2 && l1 < l2
                    ==> #[trigger] remap@[l1] < #[trigger] remap@[l2]
        }),
{
    let mut remap = Vec::<u32>::new();
    remap.push(0);
    let mut values = Vec::<u16>::new();
    let mut label_count: u32 = 0;
    let mut l: u32 = 1;
    while l < current
        invariant
            1 <= l <= current,
            remap@.len() == l as int,
            values@.len() == label_count as int,
            label_count < l,
            forall|l2: int| 1 <= l2 < l as int
                ==> 1 <= #[trigger] remap@[l2] <= label_count,
            forall|l2: int| 1 <= l2 < l as int
                ==> #[trigger] remap@[l2] == remap@[uf.root(l2)],
            forall|l1: int, l2: int|
                1 <= l1 < l as int && 1 <= l2 < l as int
                    ==> ((#[trigger] remap@[l1] == #[trigger] remap@[l2])
                        <==> uf.root(l1) == uf.root(l2)),
            forall|l2: int| 1 <= l2 < l as int
                ==> values@[#[trigger] remap@[l2] as int - 1] == prov_value@[l2],
            forall|d: int| 1 <= d <= label_count ==> #[trigger] remap_hits(remap@, d),
            forall|l1: int, l2: int|
                1 <= l1 < l as int && 1 <= l2 < l as int
                    && uf.root(l1) == l1 && uf.root(l2) == l2 && l1 < l2
                    ==> #[trigger] remap@[l1] < #[trigger] remap@[l2],
        decreases current - l,
    {
        let r = uf.find(l);
        proof {
            lemma_root_props(uf.parent@, l as int);
        }
        if r == l {
            let ghost remap_pre = remap@;
            label_count = label_count + 1;
            remap.push(label_count);
            values.push(prov_value[l as usize]);
            proof {
                assert(remap@[l as int] == label_count);
                assert forall|l2: int| 1 <= l2 < l as int + 1
                    implies #[trigger] remap@[l2] == remap@[uf.root(l2)] by {
                    lemma_root_props(uf.parent@, l2);
                }
                assert forall|l1: int, l2: int|
                    1 <= l1 < l as int + 1 && 1 <= l2 < l as int + 1
                    implies ((#[trigger] remap@[l1] == #[trigger] remap@[l2])
                        <==> uf.root(l1) == uf.root(l2)) by {
                    lemma_root_props(uf.parent@, l1);
                    lemma_root_props(uf.parent@, l2);
                }
                assert forall|d: int| 1 <= d <= label_count
                    implies #[trigger] remap_hits(remap@, d) by {
                    if d < label_count as int {
                        assert(remap_hits(remap_pre, d));
                        let w = choose|l2: int| 1 <= l2 < remap_pre.len()
                            && #[trigger] remap_pre[l2] == d;
                        assert(remap@[w] == d);
                    } else {
                        assert(remap@[l as int] == d);
                    }
                }
            }
        } else {
            let ghost remap_pre = remap@;
            let rv = remap[r as usize];
            remap.push(rv);
            proof {
                assert(uf.root(r as int) == uf.root(l as int));
                assert forall|d: int| 1 <= d <= label_count
                    implies #[trigger] remap_hits(remap@, d) by {
                    assert(remap_hits(remap_pre, d));
                    let w = choose|l2: int| 1 <= l2 < remap_pre.len()
                        && #[trigger] remap_pre[l2] == d;
                    assert(remap@[w] == d);
                }
                assert forall|l2: int| 1 <= l2 < l as int + 1
                    implies #[trigger] remap@[l2] == remap@[uf.root(l2)] by {
                    lemma_root_props(uf.parent@, l2);
                }
                assert forall|l1: int, l2: int|
                    1 <= l1 < l as int + 1 && 1 <= l2 < l as int + 1
                    implies ((#[trigger] remap@[l1] == #[trigger] remap@[l2])
                        <==> uf.root(l1) == uf.root(l2)) by {
                    lemma_root_props(uf.parent@, l1);
                    lemma_root_props(uf.parent@, l2);
                }
            }
        }
        l = l + 1;
    }

    (remap, values, label_count)
}

} // verus!
