//! Adjacency between labeled components: a directed graph over labels,
//! with an edge wherever the face-contact count reaches a threshold.  The
//! graph itself is a petgraph compressed-sparse-row graph, used through
//! trusted wrappers; node `i` stands for label `i + 1`.

use vstd::prelude::*;
use crate::matrix::{idx_of, lemma_idx_bounds, lemma_idx_injective, Matrix};
use crate::morphology::{box_coord, Label};

verus! {

#[verifier::external_type_specification]
#[verifier::external_body]
#[verifier::reject_recursive_types(N)]
#[verifier::reject_recursive_types(E)]
#[verifier::reject_recursive_types(Ty)]
#[verifier::reject_recursive_types(Ix)]
pub struct ExCsr<N, E, Ty, Ix>(petgraph::csr::Csr<N, E, Ty, Ix>);

#[verifier::external_type_specification]
#[verifier::external_body]
pub struct ExDirected(petgraph::Directed);

/// The directed graph over component labels.
pub type LabelGraph = petgraph::csr::Csr<(), (), petgraph::Directed, u32>;

/// The edges a compressed-sparse-row graph holds, as pairs of node indices.
pub uninterp spec fn csr_edges(g: LabelGraph) -> Set<(u32, u32)>;

/// The number of nodes of a compressed-sparse-row graph.
pub uninterp spec fn csr_node_count(g: LabelGraph) -> nat;

/// Relies on petgraph's `Csr::with_nodes`: `n` nodes and no edge.
#[verifier::external_body]
pub fn csr_with_nodes(n: usize) -> (g: LabelGraph)
    ensures
        csr_node_count(g) == n,
        csr_edges(g) == Set::<(u32, u32)>::empty(),
{
    petgraph::csr::Csr::with_nodes(n)
}

/// Relies on petgraph's `Csr::add_edge`: inserts the directed edge, keeps
/// every other edge and the node count, and reports whether the edge was
/// new.  Panics on out-of-range nodes, which the precondition excludes.
#[verifier::external_body]
pub fn csr_add_edge(g: &mut LabelGraph, a: u32, b: u32) -> (r: bool)
    requires
        (a as nat) < csr_node_count(*old(g)),
        (b as nat) < csr_node_count(*old(g)),
    ensures
        csr_node_count(*final(g)) == csr_node_count(*old(g)),
        csr_edges(*final(g)) == csr_edges(*old(g)).insert((a, b)),
        r == !csr_edges(*old(g)).contains((a, b)),
{
    g.add_edge(a, b, ())
}

/// Relies on petgraph's `Csr::neighbors_slice`: the out-neighbours of `a`,
/// in strictly increasing order, exactly the targets of edges from `a`.
#[verifier::external_body]
pub fn csr_neighbors(g: &LabelGraph, a: u32) -> (r: Vec<u32>)
    requires
        (a as nat) < csr_node_count(*g),
    ensures
        forall|i: int, j: int| 0 <= i < j < r@.len() ==> r@[i] < r@[j],
        forall|i: int| 0 <= i < r@.len()
            ==> csr_edges(*g).contains((a, #[trigger] r@[i])),
        forall|i: int| 0 <= i < r@.len() ==> ((#[trigger] r@[i]) as nat) < csr_node_count(*g),
        forall|b: u32| #[trigger] csr_edges(*g).contains((a, b)) ==> r@.contains(b),
{
    g.neighbors_slice(a).to_vec()
}

// ---------------------------------------------------------------------------
// Adjacency counting.
// ---------------------------------------------------------------------------

/// How many of the first `d` face directions (in the order -x, +x, -y, +y,
/// -z, +z) lead from cell `(x, y, z)` of label `l1` to an in-bounds
/// neighbour of label `l2`.
pub open spec fn cell_adj_partial(
    m: Matrix<Label>,
    l1: Label,
    l2: Label,
    x: int,
    y: int,
    z: int,
    d: int,
) -> int
    decreases d,
{
    if d <= 0 || m.cell(x, y, z) != l1 {
        0
    } else {
        let hit: int = if d == 1 {
            if m.in_bounds(x - 1, y, z) && m.cell(x - 1, y, z) == l2 { 1 } else { 0 }
        } else if d == 2 {
            if m.in_bounds(x + 1, y, z) && m.cell(x + 1, y, z) == l2 { 1 } else { 0 }
        } else if d == 3 {
            if m.in_bounds(x, y - 1, z) && m.cell(x, y - 1, z) == l2 { 1 } else { 0 }
        } else if d == 4 {
            if m.in_bounds(x, y + 1, z) && m.cell(x, y + 1, z) == l2 { 1 } else { 0 }
        } else if d == 5 {
            if m.in_bounds(x, y, z - 1) && m.cell(x, y, z - 1) == l2 { 1 } else { 0 }
        } else if d == 6 {
            if m.in_bounds(x, y, z + 1) && m.cell(x, y, z + 1) == l2 { 1 } else { 0 }
        } else {
            0
        };
        cell_adj_partial(m, l1, l2, x, y, z, d - 1) + hit
    }
}

/// The contribution of one cell to the adjacency count of `(l1, l2)`.
pub open spec fn cell_adj_count(
    m: Matrix<Label>, l1: Label, l2: Label, x: int, y: int, z: int,
) -> int {
    cell_adj_partial(m, l1, l2, x, y, z, 6)
}

/// The adjacency count of `(l1, l2)` over the first `k` cells in canonical
/// order.
pub open spec fn adj_count_upto(m: Matrix<Label>, l1: Label, l2: Label, k: int) -> int
    decreases k,
{
    if k <= 0 {
        0
    } else {
        let c = box_coord(k - 1, m.size.x as int, m.size.y as int);
        adj_count_upto(m, l1, l2, k - 1) + cell_adj_count(m, l1, l2, c.0, c.1, c.2)
    }
}

/// The total face-contact count from cells of `l1` to neighbours of `l2`.
pub open spec fn adj_count(m: Matrix<Label>, l1: Label, l2: Label) -> int {
    adj_count_upto(m, l1, l2, m.size.spec_index_range())
}

/// The connectivity graph holds the directed edge `l1 -> l2` (as nodes
/// `l1 - 1`, `l2 - 1`) exactly when both labels are assigned, differ, and
/// their face-contact count reaches the threshold.
pub open spec fn graph_matches(
    g: LabelGraph,
    m: Matrix<Label>,
    labels_amount: int,
    threshold: int,
) -> bool {
    &&& csr_node_count(g) == labels_amount
    &&& forall|a: u32, b: u32| #[trigger] csr_edges(g).contains((a, b))
        <==> ((a as int) < labels_amount && (b as int) < labels_amount && a != b
            && adj_count(m, (a + 1) as Label, (b + 1) as Label) >= threshold)
}

/// Index of the ordered label pair `(l1, l2)` in the dense count table of
/// a grid with `labels_amount` labels.
fn pair_index(l1: u32, l2: u32, labels_amount: usize) -> (e: usize)
    requires
        1 <= l1 as int <= labels_amount,
        1 <= l2 as int <= labels_amount,
        (labels_amount + 1) * (labels_amount + 1) <= usize::MAX,
    ensures
        e == idx_of(l2 as int, l1 as int, 0, labels_amount + 1, labels_amount + 1),
        e < (labels_amount + 1) * (labels_amount + 1),
{
    proof {
        assert(labels_amount + 1 <= (labels_amount + 1) * (labels_amount + 1))
            by (nonlinear_arith);
    }
    let kp = labels_amount + 1;
    proof {
        lemma_idx_bounds(l2 as int, l1 as int, 0, kp as int, kp as int, 1);
        assert(kp as int * kp as int * 1 == kp as int * kp as int) by (nonlinear_arith);
    }
    (l2 as usize) + (l1 as usize) * kp
}

/// Analyze the matrix and build the connectivity graph: a directed edge
/// `l1 -> l2` (on nodes `l1 - 1`, `l2 - 1`) for every ordered pair of
/// distinct labels whose total face-contact count over the whole matrix
/// reaches `threshold`.
#[verifier::loop_isolation(false)]
#[verifier::rlimit(100)]
pub fn find_connections(matrix: &Matrix<Label>, labels_amount: usize, threshold: usize)
    -> (g: LabelGraph)
    requires
        matrix.wf(),
        matrix.size.spec_index_range() < u32::MAX,
        labels_amount < u32::MAX,
        (labels_amount + 1) * (labels_amount + 1) <= usize::MAX,
        forall|x: int, y: int, z: int| matrix.in_bounds(x, y, z)
            ==> #[trigger] matrix.cell(x, y, z) <= labels_amount,
    ensures
        graph_matches(g, *matrix, labels_amount as int, threshold as int),
{
    let m = matrix;
    let sx = m.size.x;
    let sy = m.size.y;
    let sz = m.size.z;
    proof {
        assert(labels_amount + 1 <= (labels_amount + 1) * (labels_amount + 1))
            by (nonlinear_arith);
    }
    let kp: usize = labels_amount + 1;

    // Count face contacts for every ordered pair of labels.
    let table_size = kp * kp;
    let mut counts = Vec::<u64>::new();
    let mut i: usize = 0;
    while i < table_size
        invariant
            i <= table_size,
            counts@.len() == i,
            forall|e: int| 0 <= e < i ==> counts@[e] == 0,
        decreases table_size - i,
    {
        counts.push(0);
        i = i + 1;
    }
    proof {
        assert(idx_of(0, 0, 0, sx as int, sy as int) == 0) by (nonlinear_arith);
        assert forall|l1: int, l2: int| 1 <= l1 <= labels_amount && 1 <= l2 <= labels_amount
            implies #[trigger] counts@[idx_of(l2, l1, 0, kp as int, kp as int)] as int
                == adj_count_upto(*m, l1 as Label, l2 as Label, 0) by {
            lemma_idx_bounds(l2, l1, 0, kp as int, kp as int, 1);
            assert(kp as int * kp as int * 1 == kp as int * kp as int) by (nonlinear_arith);
        }
    }

    let mut z: usize = 0;
    while z < sz
        invariant
            z <= sz,
            counts@.len() == table_size,
            forall|l1: int, l2: int| 1 <= l1 <= labels_amount && 1 <= l2 <= labels_amount
                ==> #[trigger] counts@[idx_of(l2, l1, 0, kp as int, kp as int)] as int
                    == adj_count_upto(*m, l1 as Label, l2 as Label,
                        idx_of(0, 0, z as int, sx as int, sy as int)),
        decreases sz - z,
    {
        let mut y: usize = 0;
        while y < sy
            invariant
                y <= sy,
                z < sz,
                counts@.len() == table_size,
                forall|l1: int, l2: int| 1 <= l1 <= labels_amount && 1 <= l2 <= labels_amount
                    ==> #[trigger] counts@[idx_of(l2, l1, 0, kp as int, kp as int)] as int
                        == adj_count_upto(*m, l1 as Label, l2 as Label,
                            idx_of(0, y as int, z as int, sx as int, sy as int)),
            decreases sy - y,
        {
            let mut x: usize = 0;
            while x < sx
                invariant
                    x <= sx,
                    y < sy,
                    z < sz,
                    counts@.len() == table_size,
                    forall|l1: int, l2: int|
                        1 <= l1 <= labels_amount && 1 <= l2 <= labels_amount
                            ==> #[trigger] counts@[idx_of(l2, l1, 0, kp as int, kp as int)]
                                as int
                                == adj_count_upto(*m, l1 as Label, l2 as Label,
                                    idx_of(x as int, y as int, z as int, sx as int, sy as int)),
                decreases sx - x,
            {
                let ghost k = idx_of(x as int, y as int, z as int, sx as int, sy as int);
                proof {
                    lemma_idx_bounds(x as int, y as int, z as int,
                        sx as int, sy as int, sz as int);
                }
                let l1 = m.get(x, y, z);
                let nbrs = m.get_neighbors(x, y, z, 0);
                let mut d: usize = 0;
                while d < 6
                    invariant
                        d <= 6,
                        x < sx,
                        y < sy,
                        z < sz,
                        counts@.len() == table_size,
                        l1 == m.cell(x as int, y as int, z as int),
                        nbrs@.len() == 6,
                        forall|l1p: int, l2p: int|
                            1 <= l1p <= labels_amount && 1 <= l2p <= labels_amount
                                ==> #[trigger] counts@[
                                    idx_of(l2p, l1p, 0, kp as int, kp as int)
                                ] as int
                                    == adj_count_upto(*m, l1p as Label, l2p as Label, k)
                                        + cell_adj_partial(*m, l1p as Label, l2p as Label,
                                            x as int, y as int, z as int, d as int),
                    decreases 6 - d,
                {
                    let nl = nbrs[d];
                    if l1 > 0 && nl > 0 {
                        let e = pair_index(l1, nl, labels_amount);
                        proof {
                            lemma_adj_count_bound(*m, l1, nl, k);
                            lemma_cell_adj_bound(*m, l1, nl,
                                x as int, y as int, z as int, d as int);
                            assert(k < sx as int * sy as int * sz as int);
                            assert(counts@[e as int] < u64::MAX);
                        }
                        let c0 = counts[e];
                        counts.set(e, c0 + 1);
                        proof {
                            assert forall|l1p: int, l2p: int|
                                1 <= l1p <= labels_amount && 1 <= l2p <= labels_amount
                                implies #[trigger] counts@[
                                    idx_of(l2p, l1p, 0, kp as int, kp as int)
                                ] as int
                                    == adj_count_upto(*m, l1p as Label, l2p as Label, k)
                                        + cell_adj_partial(*m, l1p as Label, l2p as Label,
                                            x as int, y as int, z as int, d as int + 1) by {
                                lemma_idx_bounds(l2p, l1p, 0, kp as int, kp as int, 1);
                                if l1p != l1 as int || l2p != nl as int {
                                    lemma_idx_injective(l2p, l1p, 0, nl as int, l1 as int, 0,
                                        kp as int, kp as int);
                                }
                            }
                        }
                    } else {
                        proof {
                            assert forall|l1p: int, l2p: int|
                                1 <= l1p <= labels_amount && 1 <= l2p <= labels_amount
                                implies #[trigger] counts@[
                                    idx_of(l2p, l1p, 0, kp as int, kp as int)
                                ] as int
                                    == adj_count_upto(*m, l1p as Label, l2p as Label, k)
                                        + cell_adj_partial(*m, l1p as Label, l2p as Label,
                                            x as int, y as int, z as int, d as int + 1) by {
                            }
                        }
                    }
                    d = d + 1;
                }
                proof {
                    crate::morphology::lemma_box_coord(k, x as int, y as int, z as int,
                        sx as int, sy as int);
                    assert forall|l1p: int, l2p: int|
                        1 <= l1p <= labels_amount && 1 <= l2p <= labels_amount
                        implies #[trigger] counts@[idx_of(l2p, l1p, 0, kp as int, kp as int)]
                            as int
                            == adj_count_upto(*m, l1p as Label, l2p as Label, k + 1) by {
                        assert(adj_count_upto(*m, l1p as Label, l2p as Label, k + 1)
                            == adj_count_upto(*m, l1p as Label, l2p as Label, k)
                                + cell_adj_count(*m, l1p as Label, l2p as Label,
                                    x as int, y as int, z as int));
                    }
                }
                x = x + 1;
            }
            proof {
                assert(idx_of(sx as int, y as int, z as int, sx as int, sy as int)
                    == idx_of(0, y as int + 1, z as int, sx as int, sy as int))
                    by (nonlinear_arith);
            }
            y = y + 1;
        }
        proof {
            assert(idx_of(0, sy as int, z as int, sx as int, sy as int)
                == idx_of(0, 0, z as int + 1, sx as int, sy as int)) by (nonlinear_arith);
        }
        z = z + 1;
    }
    proof {
        assert(idx_of(0, 0, sz as int, sx as int, sy as int)
            == sx as int * sy as int * sz as int) by (nonlinear_arith);
    }

    // Add an edge for every pair at or above the threshold.
    let mut g = csr_with_nodes(labels_amount);
    let mut l1: usize = 1;
    while l1 <= labels_amount
        invariant
            1 <= l1 <= labels_amount + 1,
            csr_node_count(g) == labels_amount,
            forall|a: u32, b: u32| #[trigger] csr_edges(g).contains((a, b))
                <==> ((a as int) < labels_amount && (b as int) < labels_amount && a != b
                    && adj_count(*m, (a + 1) as Label, (b + 1) as Label) >= threshold as int
                    && a as int + 1 < l1 as int),
        decreases labels_amount + 1 - l1,
    {
        let mut l2: usize = 1;
        while l2 <= labels_amount
            invariant
                1 <= l2 <= labels_amount + 1,
                1 <= l1 <= labels_amount,
                csr_node_count(g) == labels_amount,
                forall|a: u32, b: u32| #[trigger] csr_edges(g).contains((a, b))
                    <==> ((a as int) < labels_amount && (b as int) < labels_amount && a != b
                        && adj_count(*m, (a + 1) as Label, (b + 1) as Label)
                            >= threshold as int
                        && (a as int + 1 < l1 as int
                            || (a as int + 1 == l1 as int && b as int + 1 < l2 as int))),
            decreases labels_amount + 1 - l2,
        {
            proof {
                lemma_idx_bounds(l2 as int, l1 as int, 0, kp as int, kp as int, 1);
                assert(kp as int * kp as int * 1 == kp as int * kp as int)
                    by (nonlinear_arith);
            }
            if l1 != l2 {
                let e = pair_index(l1 as u32, l2 as u32, labels_amount);
                if counts[e] >= threshold as u64 {
                    csr_add_edge(&mut g, (l1 - 1) as u32, (l2 - 1) as u32);
                }
            }
            l2 = l2 + 1;
        }
        l1 = l1 + 1;
    }
    g
}

/// Transpose the connectivity graph, to look inputs up per component.
#[verifier::loop_isolation(false)]
pub fn reverse_graph(graph: &LabelGraph, labels_amount: usize) -> (r: LabelGraph)
    requires
        csr_node_count(*graph) == labels_amount,
    ensures
        csr_node_count(r) == labels_amount,
        forall|a: u32, b: u32| #[trigger] csr_edges(r).contains((a, b))
            <==> (csr_edges(*graph).contains((b, a)) && (b as int) < labels_amount),
{
    let mut reversed = csr_with_nodes(labels_amount);
    let mut a: usize = 0;
    while a < labels_amount
        invariant
            a <= labels_amount,
            csr_node_count(reversed) == labels_amount,
            forall|u: u32, v: u32| #[trigger] csr_edges(reversed).contains((u, v))
                <==> (csr_edges(*graph).contains((v, u)) && (v as int) < a as int),
        decreases labels_amount - a,
    {
        let nb = csr_neighbors(graph, a as u32);
        let n = nb.len();
        let mut j: usize = 0;
        while j < n
            invariant
                j <= n,
                a < labels_amount,
                n == nb@.len(),
                csr_node_count(reversed) == labels_amount,
                forall|u: u32, v: u32| #[trigger] csr_edges(reversed).contains((u, v))
                    <==> (csr_edges(*graph).contains((v, u))
                        && ((v as int) < a as int
                            || (v as int == a as int
                                && exists|i: int| 0 <= i < j && #[trigger] nb@[i] == u))),
            decreases n - j,
        {
            let target = nb[j];
            proof {
                assert(csr_edges(*graph).contains((a as u32, target)));
            }
            csr_add_edge(&mut reversed, target, a as u32);
            proof {
                assert forall|u: u32, v: u32| #[trigger] csr_edges(reversed).contains((u, v))
                    implies (csr_edges(*graph).contains((v, u))
                        && ((v as int) < a as int
                            || (v as int == a as int
                                && exists|i: int| 0 <= i < j + 1 && #[trigger] nb@[i] == u)))
                    by {
                    if u == target && v == a as u32 {
                        assert(nb@[j as int] == u);
                    }
                }
            }
            j = j + 1;
        }
        proof {
            assert forall|u: u32, v: u32|
                (csr_edges(*graph).contains((v, u)) && (v as int) < a as int + 1)
                implies #[trigger] csr_edges(reversed).contains((u, v)) by {
                if v as int == a as int {
                    assert(nb@.contains(u));
                    let i = choose|i: int| 0 <= i < nb@.len() && nb@[i] == u;
                    assert(nb@[i] == u);
                }
            }
        }
        a = a + 1;
    }
    reversed
}

/// Counts are monotone in the number of cells considered, and bounded by
/// six contacts per cell.
proof fn lemma_adj_count_bound(m: Matrix<Label>, l1: Label, l2: Label, k: int)
    requires
        k >= 0,
    ensures
        0 <= adj_count_upto(m, l1, l2, k) <= 6 * k,
    decreases k,
{
    if k > 0 {
        lemma_adj_count_bound(m, l1, l2, k - 1);
        let c = box_coord(k - 1, m.size.x as int, m.size.y as int);
        lemma_cell_adj_bound(m, l1, l2, c.0, c.1, c.2, 6);
    }
}

proof fn lemma_cell_adj_bound(
    m: Matrix<Label>, l1: Label, l2: Label, x: int, y: int, z: int, d: int,
)
    ensures
        0 <= cell_adj_partial(m, l1, l2, x, y, z, d) <= if d >= 0 { d } else { 0 },
    decreases d,
{
    if d > 0 {
        lemma_cell_adj_bound(m, l1, l2, x, y, z, d - 1);
    }
}

} // verus!
