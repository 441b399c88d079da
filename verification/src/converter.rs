//! From analysed components to a circuit schema: classify each component
//! by its source value and volume, lay out wires and components, resolve
//! pins through the connectivity graph, and share models by signature.

use vstd::prelude::*;
use crate::circuit::{Channel, Data, Operator, NB_CHANNELS};
use crate::connectivity::{csr_edges, csr_neighbors, csr_node_count, reverse_graph, LabelGraph};
use crate::matrix::Matrix;
use crate::parser::{parse_matrix, ParsedMatrix};
use crate::schema::{CompData, CompType, ModelAttr, ModelData, Schema, WireData};

verus! {

/// What a component's source value classifies it as.
#[derive(Clone, Copy, Debug, PartialEq, Eq, Structural)]
pub enum ElemType {
    Empty,
    Wire(Channel),
    Fixed(Data),
    Gate(Operator),
    Mux,
    Demux(Data),
    Bus,
    Input,
}

/// The default classifier table: values 1 to 16 are wire channels, 17 to
/// 24 the eight gate operators in order, 25 a mux, 26 a demux with mask
/// one, 27 a fixed source whose word is the volume less four (zero for
/// smaller components, truncated to the word width for larger ones), 28 a
/// bus, 29 the keyboard input; anything else is empty and dropped.
pub open spec fn spec_match_index(value: int, volume: int) -> ElemType {
    if 1 <= value <= 16 {
        ElemType::Wire((value - 1) as Channel)
    } else if value == 17 {
        ElemType::Gate(Operator::Or)
    } else if value == 18 {
        ElemType::Gate(Operator::And)
    } else if value == 19 {
        ElemType::Gate(Operator::Nor)
    } else if value == 20 {
        ElemType::Gate(Operator::Nand)
    } else if value == 21 {
        ElemType::Gate(Operator::Add)
    } else if value == 22 {
        ElemType::Gate(Operator::Mul)
    } else if value == 23 {
        ElemType::Gate(Operator::Min)
    } else if value == 24 {
        ElemType::Gate(Operator::Max)
    } else if value == 25 {
        ElemType::Mux
    } else if value == 26 {
        ElemType::Demux(1u16)
    } else if value == 27 {
        ElemType::Fixed(if volume >= 4 { ((volume - 4) % 0x10000) as Data } else { 0u16 })
    } else if value == 28 {
        ElemType::Bus
    } else if value == 29 {
        ElemType::Input
    } else {
        ElemType::Empty
    }
}

/// Map a source value and a component volume to a schema element kind.
pub fn match_index(value: usize, volume: usize) -> (r: ElemType)
    ensures
        r == spec_match_index(value as int, volume as int),
{
    if 1 <= value && value <= 16 {
        ElemType::Wire((value - 1) as Channel)
    } else if value == 17 {
        ElemType::Gate(Operator::Or)
    } else if value == 18 {
        ElemType::Gate(Operator::And)
    } else if value == 19 {
        ElemType::Gate(Operator::Nor)
    } else if value == 20 {
        ElemType::Gate(Operator::Nand)
    } else if value == 21 {
        ElemType::Gate(Operator::Add)
    } else if value == 22 {
        ElemType::Gate(Operator::Mul)
    } else if value == 23 {
        ElemType::Gate(Operator::Min)
    } else if value == 24 {
        ElemType::Gate(Operator::Max)
    } else if value == 25 {
        ElemType::Mux
    } else if value == 26 {
        ElemType::Demux(1)
    } else if value == 27 {
        ElemType::Fixed(if volume >= 4 { ((volume - 4) % 0x10000) as Data } else { 0 })
    } else if value == 28 {
        ElemType::Bus
    } else if value == 29 {
        ElemType::Input
    } else {
        ElemType::Empty
    }
}

/// The element becomes a wire of the schema.
pub open spec fn is_wire(k: ElemType) -> bool {
    match k {
        ElemType::Wire(_) => true,
        _ => false,
    }
}

/// The element becomes a component of the schema.
pub open spec fn is_comp(k: ElemType) -> bool {
    match k {
        ElemType::Wire(_) => false,
        ElemType::Empty => false,
        _ => true,
    }
}

/// The channel of a wire element.
pub open spec fn wire_channel(k: ElemType) -> Channel {
    match k {
        ElemType::Wire(c) => c,
        _ => 0u8,
    }
}

/// The schema component kind of a non-wire element.
pub open spec fn comp_type_of(k: ElemType) -> CompType {
    match k {
        ElemType::Fixed(d) => CompType::Fixed(d),
        ElemType::Gate(op) => CompType::Gate(op),
        ElemType::Mux => CompType::Mux,
        ElemType::Demux(d) => CompType::Demux(d),
        ElemType::Input => CompType::Input,
        _ => CompType::Bus,
    }
}

/// How many of the first `n` elements are wires.
pub open spec fn wire_count(kinds: Seq<ElemType>, n: int) -> int
    decreases n,
{
    if n <= 0 {
        0
    } else {
        wire_count(kinds, n - 1) + if is_wire(kinds[n - 1]) {
            1int
        } else {
            0int
        }
    }
}

/// How many of the first `n` elements are components.
pub open spec fn comp_count(kinds: Seq<ElemType>, n: int) -> int
    decreases n,
{
    if n <= 0 {
        0
    } else {
        comp_count(kinds, n - 1) + if is_comp(kinds[n - 1]) {
            1int
        } else {
            0int
        }
    }
}

/// The classification of every analysed component.
pub open spec fn kinds_of(p: ParsedMatrix) -> Seq<ElemType> {
    Seq::new(
        p.components@.len(),
        |i: int| spec_match_index(
            p.components@[i].value as int, p.components@[i].volume as int,
        ),
    )
}

proof fn lemma_wire_count_mono(kinds: Seq<ElemType>, a: int, b: int)
    requires
        0 <= a <= b <= kinds.len(),
    ensures
        wire_count(kinds, a) <= wire_count(kinds, b),
        a < b && is_wire(kinds[a]) ==> wire_count(kinds, a) < wire_count(kinds, b),
        0 <= wire_count(kinds, a) <= a,
    decreases b,
{
    if b > 0 && a < b {
        lemma_wire_count_mono(kinds, a, b - 1);
    } else if b > 0 {
        lemma_wire_count_mono(kinds, a - 1, b - 1);
    }
}

proof fn lemma_comp_count_mono(kinds: Seq<ElemType>, a: int, b: int)
    requires
        0 <= a <= b <= kinds.len(),
    ensures
        comp_count(kinds, a) <= comp_count(kinds, b),
        a < b && is_comp(kinds[a]) ==> comp_count(kinds, a) < comp_count(kinds, b),
        0 <= comp_count(kinds, a) <= a,
    decreases b,
{
    if b > 0 && a < b {
        lemma_comp_count_mono(kinds, a, b - 1);
    } else if b > 0 {
        lemma_comp_count_mono(kinds, a - 1, b - 1);
    }
}

/// Structural bookkeeping the builder relies on.
pub open spec fn parsed_wf(p: ParsedMatrix) -> bool {
    let kk = p.values@.len() as int;
    &&& p.components@.len() == kk
    &&& p.model_of@.len() == kk
    &&& kk <= u32::MAX
    &&& forall|i: int| 0 <= i < kk ==> (#[trigger] p.model_of@[i]) < p.models@.len()
    &&& csr_node_count(p.graph) == kk
    &&& forall|a: u32, b: u32| #[trigger] csr_edges(p.graph).contains((a, b))
        ==> (a as int) < kk && (b as int) < kk
}


/// The pin list holds exactly the wire indices of the wire elements
/// adjacent to element `k` in the graph: sources of edges into `k` for
/// the input side, targets of edges out of `k` for the output side.
#[verifier::opaque]
pub open spec fn pins_ok(
    pins: Seq<u32>,
    kinds: Seq<ElemType>,
    g: LabelGraph,
    k: int,
    incoming: bool,
) -> bool {
    forall|w: u32| pins.contains(w) <==> exists|n: int| {
        &&& 0 <= n < kinds.len()
        &&& is_wire(#[trigger] kinds[n])
        &&& wire_count(kinds, n) == w
        &&& (if incoming {
            csr_edges(g).contains((n as u32, k as u32))
        } else {
            csr_edges(g).contains((k as u32, n as u32))
        })
    }
}

/// The schema lays the parsed components out per the classifier: wires and
/// components appear in element order, each with its element's model and
/// position; a component's pins hold exactly the wire indices of the wire
/// elements adjacent to it in the connectivity graph.
pub open spec fn schema_matches(r: Schema, p: ParsedMatrix) -> bool {
    let kinds = kinds_of(p);
    let kk = p.components@.len() as int;
    &&& r.models@.len() == p.models@.len()
    &&& forall|i: int| 0 <= i < r.models@.len()
        ==> (#[trigger] r.models@[i]).0@ == p.models@[i].0@
    &&& r.wires@.len() == wire_count(kinds, kk)
    &&& forall|i: int| 0 <= i < kk && is_wire(#[trigger] kinds[i])
        ==> r.wires@[wire_count(kinds, i)] == (WireData {
            channel: wire_channel(kinds[i]),
            model_attr: ModelAttr {
                position: p.components@[i].position,
                index: p.model_of@[i],
            },
        })
    &&& r.comps@.len() == comp_count(kinds, kk)
    &&& forall|i: int| 0 <= i < kk && is_comp(#[trigger] kinds[i]) ==> {
        let c = r.comps@[comp_count(kinds, i)];
        &&& c.comp_type == comp_type_of(kinds[i])
        &&& c.model_attr == (ModelAttr {
            position: p.components@[i].position,
            index: p.model_of@[i],
        })
        &&& pins_ok(c.pins_out@, kinds, p.graph, i, false)
        &&& pins_ok(c.pins_in@, kinds, p.graph, i, true)
    }
}

/// A plain copy of a model's box list.
fn copy_model(model: &ModelData) -> (r: ModelData)
    ensures
        r.0@ == model.0@,
{
    let mut boxes = Vec::new();
    let n = model.0.len();
    let mut i: usize = 0;
    while i < n
        invariant
            i <= n,
            n == model.0@.len(),
            boxes@ =~= model.0@.subrange(0, i as int),
        decreases n - i,
    {
        boxes.push(model.0[i]);
        proof {
            assert(boxes@ =~= model.0@.subrange(0, i + 1));
        }
        i = i + 1;
    }
    proof {
        assert(model.0@.subrange(0, n as int) =~= model.0@);
    }
    ModelData(boxes)
}

/// The wire indices, via `wire_of`, of the wire elements among `nbrs`.
fn filter_wire_pins(nbrs: &Vec<u32>, kinds: &Vec<ElemType>, wire_of: &Vec<u32>)
    -> (r: Vec<u32>)
    requires
        kinds@.len() == wire_of@.len(),
        forall|j: int| 0 <= j < nbrs@.len() ==> (#[trigger] nbrs@[j]) < kinds@.len(),
    ensures
        forall|w: u32| r@.contains(w) <==> exists|j: int| {
            &&& 0 <= j < nbrs@.len()
            &&& is_wire(kinds@[(#[trigger] nbrs@[j]) as int])
            &&& wire_of@[nbrs@[j] as int] == w
        },
{
    let mut r = Vec::<u32>::new();
    let n = nbrs.len();
    let mut j: usize = 0;
    while j < n
        invariant
            j <= n,
            n == nbrs@.len(),
            kinds@.len() == wire_of@.len(),
            forall|t: int| 0 <= t < nbrs@.len() ==> (#[trigger] nbrs@[t]) < kinds@.len(),
            forall|w: u32| r@.contains(w) <==> exists|t: int| {
                &&& 0 <= t < j
                &&& is_wire(kinds@[(#[trigger] nbrs@[t]) as int])
                &&& wire_of@[nbrs@[t] as int] == w
            },
        decreases n - j,
    {
        let e = nbrs[j] as usize;
        let keep = match kinds[e] {
            ElemType::Wire(_) => true,
            _ => false,
        };
        let ghost before = r@;
        if keep {
            r.push(wire_of[e]);
        }
        proof {
            assert forall|w: u32| r@.contains(w) implies exists|t: int| {
                &&& 0 <= t < j + 1
                &&& is_wire(kinds@[(#[trigger] nbrs@[t]) as int])
                &&& wire_of@[nbrs@[t] as int] == w
            } by {
                if before.contains(w) {
                    let t = choose|t: int| 0 <= t < j
                        && is_wire(kinds@[(#[trigger] nbrs@[t]) as int])
                        && wire_of@[nbrs@[t] as int] == w;
                    assert(is_wire(kinds@[nbrs@[t] as int]) && wire_of@[nbrs@[t] as int] == w);
                } else {
                    let idx = choose|idx: int| 0 <= idx < r@.len() && r@[idx] == w;
                    assert(r@[r@.len() - 1] == w);
                    assert(is_wire(kinds@[nbrs@[j as int] as int]));
                }
            }
            assert forall|w: u32| (exists|t: int| {
                &&& 0 <= t < j + 1
                &&& is_wire(kinds@[(#[trigger] nbrs@[t]) as int])
                &&& wire_of@[nbrs@[t] as int] == w
            }) implies r@.contains(w) by {
                let t = choose|t: int| 0 <= t < j + 1
                    && is_wire(kinds@[(#[trigger] nbrs@[t]) as int])
                    && wire_of@[nbrs@[t] as int] == w;
                if t < j {
                    assert(before.contains(w));
                    let idx = choose|idx: int| 0 <= idx < before.len() && before[idx] == w;
                    assert(r@[idx] == w);
                } else {
                    assert(keep);
                    assert(r@[r@.len() - 1] == w);
                }
            }
        }
        j = j + 1;
    }
    r
}

/// The wire pins of element `i` on one side: the wire indices of the wire
/// elements adjacent to it in the base graph, read through `g`, which is
/// either the base graph itself (outputs) or its transpose (inputs).
fn resolve_pins(
    g: &LabelGraph,
    kinds_v: &Vec<ElemType>,
    wire_of: &Vec<u32>,
    i: usize,
    Ghost(kinds): Ghost<Seq<ElemType>>,
    Ghost(base): Ghost<LabelGraph>,
    Ghost(incoming): Ghost<bool>,
) -> (pins: Vec<u32>)
    requires
        kinds_v@.len() == kinds.len(),
        wire_of@.len() == kinds.len(),
        kinds.len() <= u32::MAX,
        (i as int) < kinds.len(),
        forall|k: int| 0 <= k < kinds.len() ==> kinds_v@[k] == kinds[k],
        forall|k: int| 0 <= k < kinds.len() && is_wire(#[trigger] kinds[k])
            ==> wire_of@[k] == wire_count(kinds, k),
        csr_node_count(*g) == kinds.len(),
        !incoming ==> *g == base,
        incoming ==> forall|a: u32, b: u32| #[trigger] csr_edges(*g).contains((a, b))
            <==> (csr_edges(base).contains((b, a)) && (b as int) < kinds.len()),
    ensures
        pins_ok(pins@, kinds, base, i as int, incoming),
        forall|j: int| 0 <= j < pins@.len()
            ==> (#[trigger] pins@[j]) < wire_count(kinds, kinds.len() as int),
{
    let nbrs = csr_neighbors(g, i as u32);
    let pins = filter_wire_pins(&nbrs, kinds_v, wire_of);
    proof {
        reveal(pins_ok);
        assert forall|w: u32| pins@.contains(w) implies exists|n: int| {
            &&& 0 <= n < kinds.len()
            &&& is_wire(#[trigger] kinds[n])
            &&& wire_count(kinds, n) == w
            &&& (if incoming {
                csr_edges(base).contains((n as u32, i as u32))
            } else {
                csr_edges(base).contains((i as u32, n as u32))
            })
        } by {
            assert(exists|j: int| 0 <= j < nbrs@.len()
                && is_wire(kinds_v@[(#[trigger] nbrs@[j]) as int])
                && wire_of@[nbrs@[j] as int] == w);
            let j = choose|j: int| 0 <= j < nbrs@.len()
                && is_wire(kinds_v@[(#[trigger] nbrs@[j]) as int])
                && wire_of@[nbrs@[j] as int] == w;
            let n = nbrs@[j] as int;
            assert(0 <= j < nbrs@.len());
            assert(0 <= n < kinds.len());
            assert(is_wire(kinds_v@[n]));
            assert(kinds_v@[n] == kinds[n]);
            assert(wire_of@[n] == w);
            assert(csr_edges(*g).contains((i as u32, nbrs@[j])));
            assert(is_wire(kinds[n]) && wire_count(kinds, n) == w);
        }
        assert forall|w: u32| (exists|n: int| {
            &&& 0 <= n < kinds.len()
            &&& is_wire(#[trigger] kinds[n])
            &&& wire_count(kinds, n) == w
            &&& (if incoming {
                csr_edges(base).contains((n as u32, i as u32))
            } else {
                csr_edges(base).contains((i as u32, n as u32))
            })
        }) implies pins@.contains(w) by {
            let n = choose|n: int| 0 <= n < kinds.len() && is_wire(#[trigger] kinds[n])
                && wire_count(kinds, n) == w
                && (if incoming {
                    csr_edges(base).contains((n as u32, i as u32))
                } else {
                    csr_edges(base).contains((i as u32, n as u32))
                });
            assert(csr_edges(*g).contains((i as u32, n as u32)));
            assert(nbrs@.contains(n as u32));
            let j = choose|j: int| 0 <= j < nbrs@.len() && nbrs@[j] == n as u32;
            assert(is_wire(kinds_v@[nbrs@[j] as int]) && wire_of@[nbrs@[j] as int] == w);
        }
        assert forall|j: int| 0 <= j < pins@.len()
            implies (#[trigger] pins@[j]) < wire_count(kinds, kinds.len() as int) by {
            assert(pins@.contains(pins@[j]));
            let n = choose|n: int| 0 <= n < kinds.len() && is_wire(#[trigger] kinds[n])
                && wire_count(kinds, n) == pins@[j]
                && (if incoming {
                    csr_edges(base).contains((n as u32, i as u32))
                } else {
                    csr_edges(base).contains((i as u32, n as u32))
                });
            lemma_wire_count_mono(kinds, n, kinds.len() as int);
        }
    }
    pins
}

/// Lay a parsed matrix out as a schema.
#[verifier::loop_isolation(false)]
#[verifier::rlimit(100)]
pub fn build_schema(parsed: &ParsedMatrix) -> (r: Schema)
    requires
        parsed_wf(*parsed),
    ensures
        schema_matches(r, *parsed),
        r.spec_valid(),
{
    let ghost kinds = kinds_of(*parsed);
    let kk = parsed.components.len();

    // Classify every element.
    let mut kinds_v = Vec::<ElemType>::new();
    let mut i: usize = 0;
    while i < kk
        invariant
            i <= kk,
            kinds_v@.len() == i,
            forall|k: int| 0 <= k < i ==> kinds_v@[k] == kinds[k],
        decreases kk - i,
    {
        let c = &parsed.components[i];
        kinds_v.push(match_index(c.value as usize, c.volume));
        i = i + 1;
    }

    // Copy the models.
    let mut models = Vec::<ModelData>::new();
    let nm = parsed.models.len();
    let mut i: usize = 0;
    while i < nm
        invariant
            i <= nm,
            models@.len() == i,
            forall|k: int| 0 <= k < i ==> (#[trigger] models@[k]).0@ == parsed.models@[k].0@,
        decreases nm - i,
    {
        models.push(copy_model(&parsed.models[i]));
        i = i + 1;
    }

    // Lay out the wires, recording each wire element's wire index.
    let mut wires = Vec::<WireData>::new();
    let mut wire_of = Vec::<u32>::new();
    let mut i: usize = 0;
    while i < kk
        invariant
            i <= kk,
            wire_of@.len() == i,
            wires@.len() == wire_count(kinds, i as int),
            forall|w: int| 0 <= w < wires@.len()
                ==> (#[trigger] wires@[w]).channel < NB_CHANNELS
                    && wires@[w].model_attr.index < parsed.models@.len(),
            forall|k: int| 0 <= k < i && is_wire(#[trigger] kinds[k]) ==> {
                &&& wire_of@[k] == wire_count(kinds, k)
                &&& wires@[wire_count(kinds, k)] == (WireData {
                    channel: wire_channel(kinds[k]),
                    model_attr: ModelAttr {
                        position: parsed.components@[k].position,
                        index: parsed.model_of@[k],
                    },
                })
            },
        decreases kk - i,
    {
        proof {
            lemma_wire_count_mono(kinds, i as int, kk as int);
        }
        match kinds_v[i] {
            ElemType::Wire(c) => {
                wire_of.push(wires.len() as u32);
                wires.push(WireData {
                    channel: c,
                    model_attr: ModelAttr {
                        position: parsed.components[i].position,
                        index: parsed.model_of[i],
                    },
                });
            },
            _ => {
                wire_of.push(0);
            },
        }
        proof {
            assert forall|k: int| 0 <= k < i + 1 && is_wire(#[trigger] kinds[k])
                implies wire_of@[k] == wire_count(kinds, k)
                    && wires@[wire_count(kinds, k)] == (WireData {
                        channel: wire_channel(kinds[k]),
                        model_attr: ModelAttr {
                            position: parsed.components@[k].position,
                            index: parsed.model_of@[k],
                        },
                    }) by {
                lemma_wire_count_mono(kinds, k, i as int);
            }
        }
        i = i + 1;
    }
    let nb_wires = wires.len();
    proof {
        lemma_wire_count_mono(kinds, 0, kk as int);
    }

    // Lay out the components, resolving pins through the graph.
    let comps = build_comps(parsed, &kinds_v, &wire_of, nb_wires, Ghost(kinds));

    let r = Schema { wires, comps, models };
    proof {
        assert(r.spec_valid());
    }
    r
}

/// Lay out the schema components of the parsed matrix, resolving each
/// component's pins through the connectivity graph and its transpose.
#[verifier::loop_isolation(false)]
#[verifier::rlimit(100)]
fn build_comps(
    parsed: &ParsedMatrix,
    kinds_v: &Vec<ElemType>,
    wire_of: &Vec<u32>,
    nb_wires: usize,
    Ghost(kinds): Ghost<Seq<ElemType>>,
) -> (comps: Vec<CompData>)
    requires
        parsed_wf(*parsed),
        kinds_v@.len() == kinds.len(),
        wire_of@.len() == kinds.len(),
        kinds.len() == parsed.components@.len(),
        forall|k: int| 0 <= k < kinds.len() ==> kinds_v@[k] == kinds[k],
        forall|k: int| 0 <= k < kinds.len() && is_wire(#[trigger] kinds[k])
            ==> wire_of@[k] == wire_count(kinds, k),
        nb_wires == wire_count(kinds, kinds.len() as int),
    ensures
        comps@.len() == comp_count(kinds, kinds.len() as int),
        forall|k: int| 0 <= k < kinds.len() && is_comp(#[trigger] kinds[k]) ==> {
            let c = comps@[comp_count(kinds, k)];
            &&& c.comp_type == comp_type_of(kinds[k])
            &&& c.model_attr == (ModelAttr {
                position: parsed.components@[k].position,
                index: parsed.model_of@[k],
            })
            &&& pins_ok(c.pins_out@, kinds, parsed.graph, k, false)
            &&& pins_ok(c.pins_in@, kinds, parsed.graph, k, true)
        },
        forall|ci: int| 0 <= ci < comps@.len() ==> {
            &&& (#[trigger] comps@[ci]).model_attr.index < parsed.models@.len()
            &&& forall|j: int| 0 <= j < comps@[ci].pins_out@.len()
                ==> (#[trigger] comps@[ci].pins_out@[j]) < nb_wires
            &&& forall|j: int| 0 <= j < comps@[ci].pins_in@.len()
                ==> (#[trigger] comps@[ci].pins_in@[j]) < nb_wires
        },
{
    let kk = parsed.components.len();
    let rev = reverse_graph(&parsed.graph, kk);
    let mut comps = Vec::<CompData>::new();
    let mut i: usize = 0;
    while i < kk
        invariant
            i <= kk,
            comps@.len() == comp_count(kinds, i as int),
            forall|ci: int| 0 <= ci < comps@.len() ==> {
                &&& (#[trigger] comps@[ci]).model_attr.index < parsed.models@.len()
                &&& forall|j: int| 0 <= j < comps@[ci].pins_out@.len()
                    ==> (#[trigger] comps@[ci].pins_out@[j]) < nb_wires
                &&& forall|j: int| 0 <= j < comps@[ci].pins_in@.len()
                    ==> (#[trigger] comps@[ci].pins_in@[j]) < nb_wires
            },
            forall|k: int| 0 <= k < i && is_comp(#[trigger] kinds[k]) ==> {
                let c = comps@[comp_count(kinds, k)];
                &&& c.comp_type == comp_type_of(kinds[k])
                &&& c.model_attr == (ModelAttr {
                    position: parsed.components@[k].position,
                    index: parsed.model_of@[k],
                })
                &&& pins_ok(c.pins_out@, kinds, parsed.graph, k, false)
                &&& pins_ok(c.pins_in@, kinds, parsed.graph, k, true)
            },
        decreases kk - i,
    {
        proof {
            lemma_comp_count_mono(kinds, i as int, kk as int);
        }
        let kind = kinds_v[i];
        let keep = match kind {
            ElemType::Wire(_) => false,
            ElemType::Empty => false,
            _ => true,
        };
        if keep {
            let comp_type = match kind {
                ElemType::Fixed(d) => CompType::Fixed(d),
                ElemType::Gate(op) => CompType::Gate(op),
                ElemType::Mux => CompType::Mux,
                ElemType::Demux(d) => CompType::Demux(d),
                ElemType::Input => CompType::Input,
                _ => CompType::Bus,
            };
            let pins_out = resolve_pins(&parsed.graph, kinds_v, wire_of, i,
                Ghost(kinds), Ghost(parsed.graph), Ghost(false));
            let pins_in = resolve_pins(&rev, kinds_v, wire_of, i,
                Ghost(kinds), Ghost(parsed.graph), Ghost(true));
            comps.push(CompData {
                comp_type,
                pins_in,
                pins_out,
                model_attr: ModelAttr {
                    position: parsed.components[i].position,
                    index: parsed.model_of[i],
                },
            });
        }
        proof {
            assert forall|k: int| 0 <= k < i + 1 && is_comp(#[trigger] kinds[k])
                implies {
                    let c = comps@[comp_count(kinds, k)];
                    &&& comp_count(kinds, k) < comps@.len()
                    &&& c.comp_type == comp_type_of(kinds[k])
                    &&& c.model_attr == (ModelAttr {
                        position: parsed.components@[k].position,
                        index: parsed.model_of@[k],
                    })
                    &&& pins_ok(c.pins_out@, kinds, parsed.graph, k, false)
                    &&& pins_ok(c.pins_in@, kinds, parsed.graph, k, true)
                } by {
                lemma_comp_count_mono(kinds, k, i as int);
            }
        }
        i = i + 1;
    }
    comps
}

/// Compile a voxel value matrix into a verified circuit schema.
pub fn convert_matrix_to_schema(matrix: &Matrix<u16>, empty: u16, threshold: usize)
    -> (r: Schema)
    requires
        matrix.wf(),
        matrix.size.spec_index_range() < u32::MAX,
        (matrix.size.spec_index_range() + 1) * (matrix.size.spec_index_range() + 1)
            <= usize::MAX,
    ensures
        r.spec_valid(),
        exists|p: ParsedMatrix| #[trigger] p.matches(*matrix, empty, threshold as int)
            && schema_matches(r, p),
{
    let parsed = parse_matrix(matrix, empty, threshold);
    proof {
        assert(parsed_wf(parsed));
    }
    let r = build_schema(&parsed);
    proof {
        assert(parsed.matches(*matrix, empty, threshold as int) && schema_matches(r, parsed));
    }
    r
}

} // verus!
