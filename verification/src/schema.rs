//! Persisted circuit schema: wires, components, geometric models, and the
//! validity check run before a circuit is built.

use vstd::prelude::*;
use crate::math::{Box3i, Vec3i};
use crate::circuit::{Channel, Data, Operator, NB_CHANNELS};

verus! {

/// Index into the schema's wire or model lists.
pub type Index = u32;

/// Geometric description of a component: an exact cover of its cells by
/// boxes, relative to the component's bounding-box origin.
#[derive(Clone, Debug)]
pub struct ModelData(pub Vec<Box3i>);

/// Where a schema element sits in the voxel grid and which model renders it.
#[derive(Clone, Copy, Debug, PartialEq, Eq, Structural)]
pub struct ModelAttr {
    pub position: Vec3i,
    pub index: Index,
}

/// A wire of the schema: its channel and its model reference.
#[derive(Clone, Copy, Debug, PartialEq, Eq, Structural)]
pub struct WireData {
    pub channel: Channel,
    pub model_attr: ModelAttr,
}

/// The kind of a schema component.
#[derive(Clone, Copy, Debug, PartialEq, Eq, Structural)]
pub enum CompType {
    Bus,
    Mux,
    Demux(Data),
    Fixed(Data),
    Gate(Operator),
    Input,
}

/// A component of the schema with its pin lists, which index into the
/// schema's wire list.
#[derive(Clone, Debug)]
pub struct CompData {
    pub comp_type: CompType,
    pub pins_in: Vec<Index>,
    pub pins_out: Vec<Index>,
    pub model_attr: ModelAttr,
}

/// The persisted output of compilation.
#[derive(Clone, Debug)]
pub struct Schema {
    pub wires: Vec<WireData>,
    pub comps: Vec<CompData>,
    pub models: Vec<ModelData>,
}

/// A fault found by `Schema::verify`, with the position of the faulty item.
#[derive(Clone, Copy, Debug, PartialEq, Eq, Structural)]
pub enum Error {
    WireChannel(usize, Channel),
    WireModel(usize, Index),
    CompModel(usize, Index),
    PinIn(usize, usize),
    PinOut(usize, usize),
}

impl Default for Schema {
    fn default() -> (r: Self)
        ensures
            r.wires@.len() == 0,
            r.comps@.len() == 0,
            r.models@.len() == 0,
    {
        Self { wires: Vec::new(), comps: Vec::new(), models: Vec::new() }
    }
}

impl Schema {
    /// Faults of wire `i`: an out-of-range channel, then a dangling model
    /// reference.
    pub open spec fn wire_errors(self, i: int) -> Seq<Error> {
        let w = self.wires@[i];
        let channel_part: Seq<Error> = if w.channel as int >= NB_CHANNELS {
            seq![Error::WireChannel(i as usize, w.channel)]
        } else {
            Seq::empty()
        };
        let model_part: Seq<Error> = if w.model_attr.index as int >= self.models@.len() {
            seq![Error::WireModel(i as usize, w.model_attr.index)]
        } else {
            Seq::empty()
        };
        channel_part + model_part
    }

    /// Faults of the first `n` wires, in order.
    pub open spec fn wires_errors_upto(self, n: int) -> Seq<Error>
        decreases n,
    {
        if n <= 0 {
            Seq::empty()
        } else {
            self.wires_errors_upto(n - 1) + self.wire_errors(n - 1)
        }
    }

    /// Faults of the first `n` pins of the list `pins` of component `i`:
    /// a pin is faulty when it is not an index into the wire list.
    pub open spec fn pin_errors_upto(self, pins: Seq<Index>, i: int, is_in: bool, n: int)
        -> Seq<Error>
        decreases n,
    {
        if n <= 0 {
            Seq::empty()
        } else {
            let rest = self.pin_errors_upto(pins, i, is_in, n - 1);
            let p = pins[n - 1] as int;
            if p >= self.wires@.len() {
                rest + seq![
                    if is_in {
                        Error::PinIn(i as usize, pins[n - 1] as usize)
                    } else {
                        Error::PinOut(i as usize, pins[n - 1] as usize)
                    },
                ]
            } else {
                rest
            }
        }
    }

    /// Faults of component `i`: a dangling model reference, then its faulty
    /// input pins, then its faulty output pins.
    pub open spec fn comp_errors(self, i: int) -> Seq<Error> {
        let c = self.comps@[i];
        let model_part: Seq<Error> = if c.model_attr.index as int >= self.models@.len() {
            seq![Error::CompModel(i as usize, c.model_attr.index)]
        } else {
            Seq::empty()
        };
        model_part
            + self.pin_errors_upto(c.pins_in@, i, true, c.pins_in@.len() as int)
            + self.pin_errors_upto(c.pins_out@, i, false, c.pins_out@.len() as int)
    }

    /// Faults of the first `n` components, in order.
    pub open spec fn comps_errors_upto(self, n: int) -> Seq<Error>
        decreases n,
    {
        if n <= 0 {
            Seq::empty()
        } else {
            self.comps_errors_upto(n - 1) + self.comp_errors(n - 1)
        }
    }

    /// Every fault of the schema: all wire faults, then all component faults.
    pub open spec fn spec_errors(self) -> Seq<Error> {
        self.wires_errors_upto(self.wires@.len() as int)
            + self.comps_errors_upto(self.comps@.len() as int)
    }

    /// The schema is fit to build a circuit: every wire channel is in range,
    /// every model reference exists, and every pin refers to a wire.
    pub open spec fn spec_valid(self) -> bool {
        &&& forall|i: int| 0 <= i < self.wires@.len() ==> {
            &&& (#[trigger] self.wires@[i]).channel < NB_CHANNELS
            &&& self.wires@[i].model_attr.index < self.models@.len()
        }
        &&& forall|i: int| 0 <= i < self.comps@.len() ==> {
            &&& (#[trigger] self.comps@[i]).model_attr.index < self.models@.len()
            &&& forall|j: int| 0 <= j < self.comps@[i].pins_in@.len()
                ==> (#[trigger] self.comps@[i].pins_in@[j]) < self.wires@.len()
            &&& forall|j: int| 0 <= j < self.comps@[i].pins_out@.len()
                ==> (#[trigger] self.comps@[i].pins_out@[j]) < self.wires@.len()
        }
    }

    /// Check the schema, collecting every fault; `Ok` exactly when none.
    pub fn verify(&self) -> (r: Result<(), Vec<Error>>)
        ensures
            match r {
                Ok(()) => self.spec_errors() == Seq::<Error>::empty() && self.spec_valid(),
                Err(errors) => errors@ == self.spec_errors() && errors@.len() > 0
                    && !self.spec_valid(),
            },
    {
        let mut errors = Vec::<Error>::new();
        let nb_wires = self.wires.len();
        let nb_models = self.models.len();

        let mut i: usize = 0;
        while i < nb_wires
            invariant
                i <= nb_wires,
                nb_wires == self.wires@.len(),
                nb_models == self.models@.len(),
                errors@ == self.wires_errors_upto(i as int),
                errors@.len() == 0 ==> forall|k: int| 0 <= k < i ==> {
                    &&& (#[trigger] self.wires@[k]).channel < NB_CHANNELS
                    &&& self.wires@[k].model_attr.index < self.models@.len()
                },
            decreases nb_wires - i,
        {
            let w = &self.wires[i];
            if w.channel as usize >= NB_CHANNELS {
                errors.push(Error::WireChannel(i, w.channel));
            }
            if w.model_attr.index as usize >= nb_models {
                errors.push(Error::WireModel(i, w.model_attr.index));
            }
            proof {
                assert(errors@ =~= self.wires_errors_upto(i as int) + self.wire_errors(i as int));
            }
            i = i + 1;
        }

        let ghost all_wire_errors = self.wires_errors_upto(self.wires@.len() as int);
        let mut i: usize = 0;
        while i < self.comps.len()
            invariant
                i <= self.comps@.len(),
                nb_wires == self.wires@.len(),
                nb_models == self.models@.len(),
                all_wire_errors == self.wires_errors_upto(self.wires@.len() as int),
                errors@ == all_wire_errors + self.comps_errors_upto(i as int),
                errors@.len() == 0 ==> forall|k: int| 0 <= k < self.wires@.len() ==> {
                    &&& (#[trigger] self.wires@[k]).channel < NB_CHANNELS
                    &&& self.wires@[k].model_attr.index < self.models@.len()
                },
                errors@.len() == 0 ==> forall|k: int| 0 <= k < i ==> {
                    &&& (#[trigger] self.comps@[k]).model_attr.index < self.models@.len()
                    &&& forall|j: int| 0 <= j < self.comps@[k].pins_in@.len()
                        ==> (#[trigger] self.comps@[k].pins_in@[j]) < self.wires@.len()
                    &&& forall|j: int| 0 <= j < self.comps@[k].pins_out@.len()
                        ==> (#[trigger] self.comps@[k].pins_out@[j]) < self.wires@.len()
                },
            decreases self.comps@.len() - i,
        {
            let ghost before = errors@;
            let c = &self.comps[i];
            if c.model_attr.index as usize >= nb_models {
                errors.push(Error::CompModel(i, c.model_attr.index));
            }
            let mut j: usize = 0;
            while j < c.pins_in.len()
                invariant
                    j <= c.pins_in@.len(),
                    nb_wires == self.wires@.len(),
                    nb_models == self.models@.len(),
                    c == &self.comps@[i as int],
                    i < self.comps@.len(),
                    errors@ == before
                        + (if c.model_attr.index as int >= self.models@.len() {
                            seq![Error::CompModel(i as usize, c.model_attr.index)]
                        } else {
                            Seq::<Error>::empty()
                        })
                        + self.pin_errors_upto(c.pins_in@, i as int, true, j as int),
                    errors@.len() == 0 ==> before.len() == 0,
                    errors@.len() == 0 ==> forall|k: int| 0 <= k < j
                        ==> (#[trigger] c.pins_in@[k]) < self.wires@.len(),
                decreases c.pins_in@.len() - j,
            {
                let p = c.pins_in[j] as usize;
                if p >= nb_wires {
                    errors.push(Error::PinIn(i, p));
                }
                proof {
                    assert(errors@ =~= before
                        + (if c.model_attr.index as int >= self.models@.len() {
                            seq![Error::CompModel(i as usize, c.model_attr.index)]
                        } else {
                            Seq::<Error>::empty()
                        })
                        + self.pin_errors_upto(c.pins_in@, i as int, true, j + 1));
                }
                j = j + 1;
            }
            let ghost after_in = errors@;
            let mut j: usize = 0;
            while j < c.pins_out.len()
                invariant
                    j <= c.pins_out@.len(),
                    nb_wires == self.wires@.len(),
                    nb_models == self.models@.len(),
                    c == &self.comps@[i as int],
                    i < self.comps@.len(),
                    errors@ == after_in
                        + self.pin_errors_upto(c.pins_out@, i as int, false, j as int),
                    errors@.len() == 0 ==> after_in.len() == 0,
                    errors@.len() == 0 ==> forall|k: int| 0 <= k < j
                        ==> (#[trigger] c.pins_out@[k]) < self.wires@.len(),
                decreases c.pins_out@.len() - j,
            {
                let p = c.pins_out[j] as usize;
                if p >= nb_wires {
                    errors.push(Error::PinOut(i, p));
                }
                proof {
                    assert(errors@ =~= after_in
                        + self.pin_errors_upto(c.pins_out@, i as int, false, j + 1));
                }
                j = j + 1;
            }
            proof {
                assert(errors@ =~= all_wire_errors
                    + self.comps_errors_upto(i as int) + self.comp_errors(i as int));
            }
            i = i + 1;
        }

        proof {
            assert(errors@ =~= self.spec_errors());
            if errors@.len() > 0 {
                self.lemma_invalid_of_errors();
            }
        }
        if errors.is_empty() {
            Ok(())
        } else {
            Err(errors)
        }
    }

    /// A schema whose fault list is not empty fails some validity condition.
    proof fn lemma_invalid_of_errors(self)
        requires
            self.spec_errors().len() > 0,
        ensures
            !self.spec_valid(),
    {
        if self.spec_valid() {
            self.lemma_wires_errors_empty(self.wires@.len() as int);
            self.lemma_comps_errors_empty(self.comps@.len() as int);
        }
    }

    proof fn lemma_wires_errors_empty(self, n: int)
        requires
            self.spec_valid(),
            n <= self.wires@.len(),
        ensures
            self.wires_errors_upto(n).len() == 0,
        decreases n,
    {
        if n > 0 {
            self.lemma_wires_errors_empty(n - 1);
        }
    }

    proof fn lemma_comps_errors_empty(self, n: int)
        requires
            self.spec_valid(),
            n <= self.comps@.len(),
        ensures
            self.comps_errors_upto(n).len() == 0,
        decreases n,
    {
        if n > 0 {
            self.lemma_comps_errors_empty(n - 1);
            self.lemma_pin_errors_empty(
                self.comps@[n - 1].pins_in@, n - 1, true,
                self.comps@[n - 1].pins_in@.len() as int,
            );
            self.lemma_pin_errors_empty(
                self.comps@[n - 1].pins_out@, n - 1, false,
                self.comps@[n - 1].pins_out@.len() as int,
            );
        }
    }

    proof fn lemma_pin_errors_empty(self, pins: Seq<Index>, i: int, is_in: bool, n: int)
        requires
            n <= pins.len(),
            forall|j: int| 0 <= j < pins.len() ==> (#[trigger] pins[j]) < self.wires@.len(),
        ensures
            self.pin_errors_upto(pins, i, is_in, n).len() == 0,
        decreases n,
    {
        if n > 0 {
            self.lemma_pin_errors_empty(pins, i, is_in, n - 1);
        }
    }
}

} // verus!
