//! Per-component records and the matrix analysis that produces them:
//! labeling, connectivity, bounding boxes, signatures, and deduplicated
//! box-cover models.

use vstd::prelude::*;
use crate::math::Box3i;
use crate::math::Vec3i;
use crate::matrix::Matrix;
use crate::morphology::{
    box_tight, cell_in_box, count_true, empty_box, find_bounding_boxes, generate_model,
    generate_morph, labeled, model_boxes_ok, morph_of, occupancy, Label, Signature,
};
use crate::connectivity::{find_connections, graph_matches, LabelGraph};
use crate::labeling::labeling_ok;
use crate::schema::ModelData;

verus! {

/// Everything the analysis knows about one labeled component.
#[derive(Clone, Copy, Debug)]
pub struct ComponentData<T> {
    pub label: Label,
    pub value: T,
    pub position: Vec3i,
    pub volume: usize,
    pub signature: Signature,
}

impl<T> ComponentData<T> {
    /// Bundle the analysis results of one component.
    pub fn new(label: Label, value: T, position: Vec3i, volume: usize, signature: Signature)
        -> (r: Self)
        ensures
            r.label == label,
            r.value == value,
            r.position == position,
            r.volume == volume,
            r.signature == signature,
    {
        Self { label, value, position, volume, signature }
    }
}

impl Default for ComponentData<u16> {
    fn default() -> (r: Self)
        ensures
            r.label == 0,
            r.value == 0u16,
            r.position == (Vec3i { x: 0, y: 0, z: 0 }),
            r.volume == 0,
            r.signature == 0u64,
    {
        Self {
            label: 0,
            value: 0,
            position: Vec3i { x: 0, y: 0, z: 0 },
            volume: 0,
            signature: 0,
        }
    }
}

/// The box is the tight bounding box of label `l + 1`, or the placeholder
/// where the label has no cell.
pub open spec fn bbox_ok(lm: Matrix<Label>, l: int, b: Box3i) -> bool {
    &&& forall|x2: int, y2: int, z2: int|
        #[trigger] labeled(lm, (l + 1) as Label, x2, y2, z2)
            ==> cell_in_box(b, x2, y2, z2)
    &&& if exists|x2: int, y2: int, z2: int|
        #[trigger] labeled(lm, (l + 1) as Label, x2, y2, z2) {
        box_tight(lm, l, b)
    } else {
        b == empty_box(lm)
    }
}

/// The record of component `i` matches the labeled matrix: its bounding
/// box exists with the record's position as origin, and volume and
/// signature are those of its occupancy.
pub open spec fn component_ok(lm: Matrix<Label>, i: int, c: ComponentData<u16>) -> bool {
    exists|b: Box3i| {
        &&& #[trigger] bbox_ok(lm, i, b)
        &&& c.position == b.begin
        &&& c.volume == count_true(occupancy(lm, (i + 1) as Label, b))
        &&& c.signature == morph_of(lm, (i + 1) as Label, b)
    }
}

/// The result of analysing a value matrix.
pub struct ParsedMatrix {
    /// Directed adjacency between labels, above the contact threshold.
    pub graph: LabelGraph,
    /// One record per label, in label order.
    pub components: Vec<ComponentData<u16>>,
    /// Deduplicated box-cover models.
    pub models: Vec<ModelData>,
    /// For each component, the index of its model in `models`.
    pub model_of: Vec<u32>,
    /// The labeled matrix.
    pub labels: Matrix<Label>,
    /// The source value of each label, in label order.
    pub values: Vec<u16>,
}

impl ParsedMatrix {
    /// The analysis results all describe `m` with empty value `empty` and
    /// the given contact threshold.
    pub open spec fn matches(self, m: Matrix<u16>, empty: u16, threshold: int) -> bool {
        let kk = self.values@.len() as int;
        &&& labeling_ok(m, empty, self.labels, self.values@)
        &&& graph_matches(self.graph, self.labels, kk, threshold)
        &&& self.components@.len() == kk
        &&& self.model_of@.len() == kk
        &&& forall|i: int| 0 <= i < kk ==> {
            &&& (#[trigger] self.components@[i]).label == i + 1
            &&& self.components@[i].value == self.values@[i]
            &&& component_ok(self.labels, i, self.components@[i])
        }
        &&& forall|i: int| 0 <= i < kk
            ==> (#[trigger] self.model_of@[i]) < self.models@.len()
        &&& forall|i: int, j: int| 0 <= i < kk && 0 <= j < kk
            ==> ((#[trigger] self.model_of@[i] == #[trigger] self.model_of@[j])
                <==> self.components@[i].signature == self.components@[j].signature)
    }
}

/// Analyse the matrix: label its 6-connected components, find their
/// adjacency graph, bounding boxes, volumes and signatures, and build one
/// box-cover model per distinct signature.
#[verifier::loop_isolation(false)]
#[verifier::rlimit(100)]
pub fn parse_matrix(matrix: &Matrix<u16>, empty: u16, threshold: usize) -> (r: ParsedMatrix)
    requires
        matrix.wf(),
        matrix.size.spec_index_range() < u32::MAX,
        (matrix.size.spec_index_range() + 1) * (matrix.size.spec_index_range() + 1)
            <= usize::MAX,
    ensures
        r.matches(*matrix, empty, threshold as int),
{
    let (labels, values) = matrix.connected_component_labeling(empty);
    let labels_amount = values.len();
    proof {
        assert((labels_amount + 1) * (labels_amount + 1) <= usize::MAX) by (nonlinear_arith)
            requires
                0 <= labels_amount as int,
                labels_amount as int <= matrix.size.spec_index_range(),
                (matrix.size.spec_index_range() + 1) * (matrix.size.spec_index_range() + 1)
                    <= usize::MAX,
        ;
        assert forall|x: int, y: int, z: int| labels.in_bounds(x, y, z)
            implies #[trigger] labels.cell(x, y, z) <= labels_amount by {
            if matrix.cell(x, y, z) != empty {
                assert(1 <= labels.cell(x, y, z) <= labels_amount);
            } else {
                assert(labels.cell(x, y, z) == 0);
            }
        }
    }
    let graph = find_connections(&labels, labels_amount, threshold);
    let boxes = find_bounding_boxes(&labels, labels_amount);

    proof {
        assert(forall|l: int| 0 <= l < labels_amount
            ==> bbox_ok(labels, l, #[trigger] boxes@[l]));
    }
    let (components, models, model_of) = analyze_components(
        &labels, &values, &boxes,
    );

    ParsedMatrix { graph, components, models, model_of, labels, values }
}


/// Per-label records and deduplicated models, from the labeled matrix, the
/// value map and the bounding boxes.
#[verifier::loop_isolation(false)]
#[verifier::rlimit(100)]
fn analyze_components(labels: &Matrix<Label>, values: &Vec<u16>, boxes: &Vec<Box3i>)
    -> (r: (Vec<ComponentData<u16>>, Vec<ModelData>, Vec<u32>))
    requires
        labels.wf(),
        boxes@.len() == values@.len(),
        values@.len() <= u32::MAX,
        labels.size.spec_index_range() < u32::MAX,
        forall|l: int| 0 <= l < values@.len()
            ==> bbox_ok(*labels, l, #[trigger] boxes@[l]),
        forall|d: int| 1 <= d <= values@.len()
            ==> #[trigger] crate::labeling::label_used(*labels, d),
    ensures
        ({
            let (components, models, model_of) = r;
            let kk = values@.len() as int;
            &&& components@.len() == kk
            &&& model_of@.len() == kk
            &&& forall|i: int| 0 <= i < kk ==> {
                &&& (#[trigger] components@[i]).label == i + 1
                &&& components@[i].value == values@[i]
                &&& component_ok(*labels, i, components@[i])
            }
            &&& forall|i: int| 0 <= i < kk
                ==> (#[trigger] model_of@[i]) < models@.len()
            &&& forall|i: int, j: int| 0 <= i < kk && 0 <= j < kk
                ==> ((#[trigger] model_of@[i] == #[trigger] model_of@[j])
                    <==> components@[i].signature == components@[j].signature)
        }),
{
    let labels_amount = values.len();
    let mut components = Vec::<ComponentData<u16>>::new();
    let mut models = Vec::<ModelData>::new();
    let mut model_of = Vec::<u32>::new();
    let mut sig_index = Vec::<(Signature, u32)>::new();

    let mut i: usize = 0;
    while i < labels_amount
        invariant
            i <= labels_amount,
            components@.len() == i,
            model_of@.len() == i,
            sig_index@.len() == models@.len(),
            models@.len() <= i,
            models@.len() <= u32::MAX,
            forall|k: int| 0 <= k < i ==> {
                &&& (#[trigger] components@[k]).label == k + 1
                &&& components@[k].value == values@[k]
                &&& component_ok(*labels, k, components@[k])
            },
            forall|k: int| 0 <= k < i
                ==> (#[trigger] model_of@[k]) < models@.len(),
            forall|k: int, j: int| 0 <= k < i && 0 <= j < i
                ==> ((#[trigger] model_of@[k] == #[trigger] model_of@[j])
                    <==> components@[k].signature == components@[j].signature),
            forall|s: int| 0 <= s < sig_index@.len() ==> {
                &&& (#[trigger] sig_index@[s]).1 == s
                &&& exists|k: int| 0 <= k < i && #[trigger] components@[k].signature
                    == sig_index@[s].0 && model_of@[k] == s
            },
            forall|s1: int, s2: int|
                0 <= s1 < sig_index@.len() && 0 <= s2 < sig_index@.len() && s1 != s2
                    ==> (#[trigger] sig_index@[s1]).0 != (#[trigger] sig_index@[s2]).0,
            forall|k: int| 0 <= k < i
                ==> (#[trigger] components@[k]).signature
                    == sig_index@[model_of@[k] as int].0,
        decreases labels_amount - i,
    {
        let ghost entry_comps = components@;
        let ghost entry_sigs = sig_index@;
        let abox = boxes[i];
        let label = (i + 1) as Label;
        let c = component_record(labels, i, values[i], abox);
        components.push(c);
        let signature = c.signature;

        // Reuse the model of an earlier component with the same signature.
        let mut found: bool = false;
        let mut index: u32 = 0;
        let ns = sig_index.len();
        let mut s: usize = 0;
        while s < ns && !found
            invariant
                s <= ns,
                found ==> (index as int) < sig_index@.len()
                    && sig_index@[index as int].0 == signature
                    && sig_index@[index as int].1 == index,
                !found ==> forall|t: int| 0 <= t < s
                    ==> (#[trigger] sig_index@[t]).0 != signature,
            decreases ns - s + (if found { 0int } else { 1int }),
        {
            if sig_index[s].0 == signature {
                found = true;
                index = sig_index[s].1;
            } else {
                s = s + 1;
            }
        }
        if found {
            model_of.push(index);
        } else {
            let model = generate_model(labels, label, abox);
            let new_index = models.len() as u32;
            models.push(model);
            sig_index.push((signature, new_index));
            model_of.push(new_index);
        }
        proof {
            let k = i as int;
            assert(component_ok(*labels, k, components@[k]));
            assert(components@[k].signature == sig_index@[model_of@[k] as int].0);
            assert forall|t: int| 0 <= t < sig_index@.len() implies {
                &&& (#[trigger] sig_index@[t]).1 == t
                &&& exists|k2: int| 0 <= k2 < i + 1 && #[trigger] components@[k2].signature
                    == sig_index@[t].0 && model_of@[k2] == t
            } by {
                if t < entry_sigs.len() {
                    assert(sig_index@[t] == entry_sigs[t]);
                    let k2 = choose|k2: int| 0 <= k2 < i
                        && #[trigger] entry_comps[k2].signature == entry_sigs[t].0
                        && model_of@.subrange(0, i as int)[k2] == t;
                    assert(components@[k2] == entry_comps[k2]);
                    assert(components@[k2].signature == sig_index@[t].0
                        && model_of@[k2] == t);
                } else {
                    assert(components@[k].signature == sig_index@[t].0
                        && model_of@[k] == t);
                }
            }
            assert forall|k2: int, j2: int| 0 <= k2 < i + 1 && 0 <= j2 < i + 1
                implies ((#[trigger] model_of@[k2] == #[trigger] model_of@[j2])
                    <==> components@[k2].signature == components@[j2].signature) by {
                assert(components@[k2].signature == sig_index@[model_of@[k2] as int].0);
                assert(components@[j2].signature == sig_index@[model_of@[j2] as int].0);
                if components@[k2].signature == components@[j2].signature
                    && model_of@[k2] != model_of@[j2] {
                    assert(sig_index@[model_of@[k2] as int].0
                        == sig_index@[model_of@[j2] as int].0);
                    assert(false);
                }
            }
        }
        i = i + 1;
    }

    (components, models, model_of)
}


/// The analysis record of one component: its bounding box origin, volume
/// and shape signature.
#[verifier::rlimit(100)]
fn component_record(labels: &Matrix<Label>, i: usize, value: u16, abox: Box3i)
    -> (c: ComponentData<u16>)
    requires
        labels.wf(),
        (i as int) < u32::MAX,
        bbox_ok(*labels, i as int, abox),
        crate::labeling::label_used(*labels, i as int + 1),
    ensures
        c.label == i + 1,
        c.value == value,
        component_ok(*labels, i as int, c),
        abox.begin.spec_le(abox.end),
        abox.end.x <= labels.size.x,
        abox.end.y <= labels.size.y,
        abox.end.z <= labels.size.z,
{
    proof {
        let (ux, uy, uz) = choose|x: int, y: int, z: int|
            labels.in_bounds(x, y, z) && #[trigger] labels.cell(x, y, z) == i as int + 1;
        assert(labeled(*labels, (i + 1) as Label, ux, uy, uz));
        assert(box_tight(*labels, i as int, abox));
        assert(cell_in_box(abox, ux, uy, uz));
        let (fx, fy, fz) = choose|x2: int, y2: int, z2: int|
            #[trigger] labeled(*labels, (i as int + 1) as Label, x2, y2, z2)
                && x2 == abox.end.x - 1;
        let (gx, gy, gz) = choose|x2: int, y2: int, z2: int|
            #[trigger] labeled(*labels, (i as int + 1) as Label, x2, y2, z2)
                && y2 == abox.end.y - 1;
        let (hx, hy, hz) = choose|x2: int, y2: int, z2: int|
            #[trigger] labeled(*labels, (i as int + 1) as Label, x2, y2, z2)
                && z2 == abox.end.z - 1;
        assert(labels.in_bounds(fx, fy, fz));
        assert(labels.in_bounds(gx, gy, gz));
        assert(labels.in_bounds(hx, hy, hz));
        assert(abox.begin.spec_le(abox.end));
        assert(abox.end.x <= labels.size.x);
        assert(abox.end.y <= labels.size.y);
        assert(abox.end.z <= labels.size.z);
    }
    let (signature, volume) = generate_morph(labels, (i + 1) as Label, abox);
    let c = ComponentData::new((i + 1) as Label, value, abox.begin, volume, signature);
    proof {
        assert(bbox_ok(*labels, i as int, abox) && c.position == abox.begin
            && c.volume == count_true(occupancy(*labels, (i as int + 1) as Label, abox))
            && c.signature == morph_of(*labels, (i as int + 1) as Label, abox));
    }
    c
}

} // verus!
