//! Schema persistence: a length-prefixed little-endian byte encoding of a
//! schema, with a verified serializer and a deserializer whose every
//! success re-encodes to exactly the input bytes.

use vstd::prelude::*;
use crate::circuit::Operator;
use crate::importer::{read_u16, read_u32, read_u64, LoadError};
use crate::math::{Box3i, Vec3i};
use crate::schema::{CompData, CompType, ModelAttr, ModelData, Schema, WireData};

verus! {

// ---------------------------------------------------------------------------
// The encoding, as a specification.
// ---------------------------------------------------------------------------

pub open spec fn enc_u8(v: u8) -> Seq<u8> {
    seq![v]
}

pub open spec fn enc_u16(v: u16) -> Seq<u8> {
    seq![(v % 0x100) as u8, (v / 0x100) as u8]
}

pub open spec fn enc_u32(v: u32) -> Seq<u8> {
    seq![
        (v % 0x100) as u8,
        ((v / 0x100) % 0x100) as u8,
        ((v / 0x10000) % 0x100) as u8,
        (v / 0x1000000) as u8,
    ]
}

pub open spec fn enc_u64(v: u64) -> Seq<u8> {
    enc_u32((v % 0x100000000) as u32) + enc_u32((v / 0x100000000) as u32)
}

/// A model position and model index: three 64-bit coordinates and a
/// 32-bit index.
pub open spec fn enc_attr(a: ModelAttr) -> Seq<u8> {
    enc_u64(a.position.x as u64) + enc_u64(a.position.y as u64) + enc_u64(a.position.z as u64)
        + enc_u32(a.index)
}

pub open spec fn enc_wire(w: WireData) -> Seq<u8> {
    enc_u8(w.channel) + enc_attr(w.model_attr)
}

pub open spec fn enc_wires(ws: Seq<WireData>, n: int) -> Seq<u8>
    decreases n,
{
    if n <= 0 {
        Seq::empty()
    } else {
        enc_wires(ws, n - 1) + enc_wire(ws[n - 1])
    }
}

/// The code of a gate operator.
pub open spec fn op_code(op: Operator) -> u8 {
    match op {
        Operator::Or => 0u8,
        Operator::And => 1u8,
        Operator::Nor => 2u8,
        Operator::Nand => 3u8,
        Operator::Add => 4u8,
        Operator::Mul => 5u8,
        Operator::Min => 6u8,
        Operator::Max => 7u8,
    }
}

/// A component kind: a tag byte, then a 16-bit word for demux and fixed
/// kinds, or the operator code for a gate.
pub open spec fn enc_kind(k: CompType) -> Seq<u8> {
    match k {
        CompType::Bus => seq![0u8],
        CompType::Mux => seq![1u8],
        CompType::Demux(d) => seq![2u8] + enc_u16(d),
        CompType::Fixed(d) => seq![3u8] + enc_u16(d),
        CompType::Gate(op) => seq![4u8, op_code(op)],
        CompType::Input => seq![5u8],
    }
}

pub open spec fn enc_pins(ps: Seq<u32>, n: int) -> Seq<u8>
    decreases n,
{
    if n <= 0 {
        Seq::empty()
    } else {
        enc_pins(ps, n - 1) + enc_u32(ps[n - 1])
    }
}

/// A pin list: a 32-bit count, then the pins.
pub open spec fn enc_pin_list(ps: Seq<u32>) -> Seq<u8> {
    enc_u32(ps.len() as u32) + enc_pins(ps, ps.len() as int)
}

pub open spec fn enc_comp(c: CompData) -> Seq<u8> {
    enc_kind(c.comp_type) + enc_pin_list(c.pins_in@) + enc_pin_list(c.pins_out@)
        + enc_attr(c.model_attr)
}

pub open spec fn enc_comps(cs: Seq<CompData>, n: int) -> Seq<u8>
    decreases n,
{
    if n <= 0 {
        Seq::empty()
    } else {
        enc_comps(cs, n - 1) + enc_comp(cs[n - 1])
    }
}

pub open spec fn enc_box(b: Box3i) -> Seq<u8> {
    enc_u64(b.begin.x as u64) + enc_u64(b.begin.y as u64) + enc_u64(b.begin.z as u64)
        + enc_u64(b.end.x as u64) + enc_u64(b.end.y as u64) + enc_u64(b.end.z as u64)
}

pub open spec fn enc_boxes(bs: Seq<Box3i>, n: int) -> Seq<u8>
    decreases n,
{
    if n <= 0 {
        Seq::empty()
    } else {
        enc_boxes(bs, n - 1) + enc_box(bs[n - 1])
    }
}

/// A model: a 64-bit box count, then the boxes.
pub open spec fn enc_model(m: ModelData) -> Seq<u8> {
    enc_u64(m.0@.len() as u64) + enc_boxes(m.0@, m.0@.len() as int)
}

pub open spec fn enc_models(ms: Seq<ModelData>, n: int) -> Seq<u8>
    decreases n,
{
    if n <= 0 {
        Seq::empty()
    } else {
        enc_models(ms, n - 1) + enc_model(ms[n - 1])
    }
}

/// The persisted form of a schema: a 64-bit count and the wires, then the
/// components, then the models, all little-endian.
pub open spec fn schema_bytes(s: Schema) -> Seq<u8> {
    enc_u64(s.wires@.len() as u64) + enc_wires(s.wires@, s.wires@.len() as int)
        + enc_u64(s.comps@.len() as u64) + enc_comps(s.comps@, s.comps@.len() as int)
        + enc_u64(s.models@.len() as u64) + enc_models(s.models@, s.models@.len() as int)
}

/// The machine limit the format imposes: every pin count must fit its
/// 32-bit length field.
pub open spec fn encodable(s: Schema) -> bool {
    forall|i: int| 0 <= i < s.comps@.len() ==> {
        &&& (#[trigger] s.comps@[i]).pins_in@.len() <= u32::MAX
        &&& s.comps@[i].pins_out@.len() <= u32::MAX
    }
}

// ---------------------------------------------------------------------------
// Serialization.
// ---------------------------------------------------------------------------

fn push_u8(out: &mut Vec<u8>, v: u8)
    ensures
        final(out)@ == old(out)@ + enc_u8(v),
{
    out.push(v);
    proof {
        assert(out@ =~= old(out)@ + enc_u8(v));
    }
}

fn push_u16(out: &mut Vec<u8>, v: u16)
    ensures
        final(out)@ == old(out)@ + enc_u16(v),
{
    out.push((v % 0x100) as u8);
    out.push((v / 0x100) as u8);
    proof {
        assert(out@ =~= old(out)@ + enc_u16(v));
    }
}

fn push_u32(out: &mut Vec<u8>, v: u32)
    ensures
        final(out)@ == old(out)@ + enc_u32(v),
{
    out.push((v % 0x100) as u8);
    out.push(((v / 0x100) % 0x100) as u8);
    out.push(((v / 0x10000) % 0x100) as u8);
    out.push((v / 0x1000000) as u8);
    proof {
        assert(out@ =~= old(out)@ + enc_u32(v));
    }
}

fn push_u64(out: &mut Vec<u8>, v: u64)
    ensures
        final(out)@ == old(out)@ + enc_u64(v),
{
    push_u32(out, (v % 0x100000000) as u32);
    push_u32(out, (v / 0x100000000) as u32);
    proof {
        assert(out@ =~= old(out)@ + enc_u64(v));
    }
}

fn push_attr(out: &mut Vec<u8>, a: &ModelAttr)
    ensures
        final(out)@ == old(out)@ + enc_attr(*a),
{
    push_u64(out, a.position.x as u64);
    push_u64(out, a.position.y as u64);
    push_u64(out, a.position.z as u64);
    push_u32(out, a.index);
    proof {
        assert(out@ =~= old(out)@ + enc_attr(*a));
    }
}

fn push_pin_list(out: &mut Vec<u8>, ps: &Vec<u32>)
    requires
        ps@.len() <= u32::MAX,
    ensures
        final(out)@ == old(out)@ + enc_pin_list(ps@),
{
    push_u32(out, ps.len() as u32);
    let n = ps.len();
    let mut i: usize = 0;
    while i < n
        invariant
            i <= n,
            n == ps@.len(),
            out@ == old(out)@ + enc_u32(ps@.len() as u32) + enc_pins(ps@, i as int),
        decreases n - i,
    {
        push_u32(out, ps[i]);
        proof {
            assert(out@ =~= old(out)@ + enc_u32(ps@.len() as u32)
                + enc_pins(ps@, i as int + 1));
        }
        i = i + 1;
    }
    proof {
        assert(out@ =~= old(out)@ + enc_pin_list(ps@));
    }
}

fn push_kind(out: &mut Vec<u8>, k: &CompType)
    ensures
        final(out)@ == old(out)@ + enc_kind(*k),
{
    match k {
        CompType::Bus => {
            push_u8(out, 0);
        },
        CompType::Mux => {
            push_u8(out, 1);
        },
        CompType::Demux(d) => {
            push_u8(out, 2);
            push_u16(out, *d);
        },
        CompType::Fixed(d) => {
            push_u8(out, 3);
            push_u16(out, *d);
        },
        CompType::Gate(op) => {
            push_u8(out, 4);
            let code: u8 = match op {
                Operator::Or => 0,
                Operator::And => 1,
                Operator::Nor => 2,
                Operator::Nand => 3,
                Operator::Add => 4,
                Operator::Mul => 5,
                Operator::Min => 6,
                Operator::Max => 7,
            };
            push_u8(out, code);
        },
        CompType::Input => {
            push_u8(out, 5);
        },
    }
    proof {
        assert(out@ =~= old(out)@ + enc_kind(*k));
    }
}

fn push_box(out: &mut Vec<u8>, b: &Box3i)
    ensures
        final(out)@ == old(out)@ + enc_box(*b),
{
    push_u64(out, b.begin.x as u64);
    push_u64(out, b.begin.y as u64);
    push_u64(out, b.begin.z as u64);
    push_u64(out, b.end.x as u64);
    push_u64(out, b.end.y as u64);
    push_u64(out, b.end.z as u64);
    proof {
        assert(out@ =~= old(out)@ + enc_box(*b));
    }
}

fn push_model(out: &mut Vec<u8>, m: &ModelData)
    ensures
        final(out)@ == old(out)@ + enc_model(*m),
{
    push_u64(out, m.0.len() as u64);
    let n = m.0.len();
    let mut i: usize = 0;
    while i < n
        invariant
            i <= n,
            n == m.0@.len(),
            out@ == old(out)@ + enc_u64(m.0@.len() as u64) + enc_boxes(m.0@, i as int),
        decreases n - i,
    {
        push_box(out, &m.0[i]);
        proof {
            assert(out@ =~= old(out)@ + enc_u64(m.0@.len() as u64)
                + enc_boxes(m.0@, i as int + 1));
        }
        i = i + 1;
    }
    proof {
        assert(out@ =~= old(out)@ + enc_model(*m));
    }
}

/// Encode a schema as its persisted bytes.
pub fn serialize_schema(s: &Schema) -> (r: Vec<u8>)
    requires
        encodable(*s),
    ensures
        r@ == schema_bytes(*s),
{
    let mut out = Vec::<u8>::new();

    push_u64(&mut out, s.wires.len() as u64);
    let ghost part1 = enc_u64(s.wires@.len() as u64);
    let nw = s.wires.len();
    let mut i: usize = 0;
    while i < nw
        invariant
            i <= nw,
            nw == s.wires@.len(),
            out@ == part1 + enc_wires(s.wires@, i as int),
        decreases nw - i,
    {
        let w = &s.wires[i];
        push_u8(&mut out, w.channel);
        push_attr(&mut out, &w.model_attr);
        proof {
            assert(out@ =~= part1 + enc_wires(s.wires@, i as int + 1));
        }
        i = i + 1;
    }

    push_u64(&mut out, s.comps.len() as u64);
    let ghost part2 = part1 + enc_wires(s.wires@, s.wires@.len() as int)
        + enc_u64(s.comps@.len() as u64);
    proof {
        assert(out@ =~= part2);
    }
    let nc = s.comps.len();
    let mut i: usize = 0;
    while i < nc
        invariant
            i <= nc,
            nc == s.comps@.len(),
            encodable(*s),
            out@ == part2 + enc_comps(s.comps@, i as int),
        decreases nc - i,
    {
        let c = &s.comps[i];
        push_kind(&mut out, &c.comp_type);
        push_pin_list(&mut out, &c.pins_in);
        push_pin_list(&mut out, &c.pins_out);
        push_attr(&mut out, &c.model_attr);
        proof {
            assert(out@ =~= part2 + enc_comps(s.comps@, i as int + 1));
        }
        i = i + 1;
    }

    push_u64(&mut out, s.models.len() as u64);
    let ghost part3 = part2 + enc_comps(s.comps@, s.comps@.len() as int)
        + enc_u64(s.models@.len() as u64);
    proof {
        assert(out@ =~= part3);
    }
    let nm = s.models.len();
    let mut i: usize = 0;
    while i < nm
        invariant
            i <= nm,
            nm == s.models@.len(),
            out@ == part3 + enc_models(s.models@, i as int),
        decreases nm - i,
    {
        push_model(&mut out, &s.models[i]);
        proof {
            assert(out@ =~= part3 + enc_models(s.models@, i as int + 1));
        }
        i = i + 1;
    }
    proof {
        assert(out@ =~= schema_bytes(*s));
    }
    out
}

// ---------------------------------------------------------------------------
// Deserialization.
// ---------------------------------------------------------------------------

/// Bytes remaining from `off`, when `off` is within the buffer.
fn remaining(buffer: &Vec<u8>, off: usize) -> (r: usize)
    requires
        off <= buffer@.len(),
    ensures
        r == buffer@.len() - off,
{
    buffer.len() - off
}

/// Compare two byte strings.
fn bytes_eq(a: &Vec<u8>, b: &Vec<u8>) -> (r: bool)
    ensures
        r <==> a@ == b@,
{
    if a.len() != b.len() {
        proof {
            assert(a@ != b@);
        }
        return false;
    }
    let n = a.len();
    let mut i: usize = 0;
    while i < n
        invariant
            i <= n,
            n == a@.len(),
            n == b@.len(),
            forall|k: int| 0 <= k < i ==> a@[k] == b@[k],
        decreases n - i,
    {
        if a[i] != b[i] {
            return false;
        }
        i = i + 1;
    }
    proof {
        assert(a@ =~= b@);
    }
    true
}

/// Decode the persisted bytes back into a schema.  On success the schema
/// is checked against the bytes: it re-encodes to exactly the input, so
/// any two successful decodes of one byte string agree on the persisted
/// form.  A short input fails with the missing and present byte counts.
#[verifier::loop_isolation(false)]
pub fn deserialize_schema(buffer: &Vec<u8>) -> (r: Result<Schema, LoadError>)
    ensures
        match r {
            Ok(s) => encodable(s) && schema_bytes(s) == buffer@,
            Err(e) => match e {
                LoadError::Insufficient(needed, got) => got < needed,
                _ => true,
            },
        },
{
    let _blen = buffer.len();
    let mut off: usize = 0;

    // Wires.
    if remaining(buffer, off) < 8 {
        return Err(LoadError::Insufficient(8, remaining(buffer, off)));
    }
    let nw64 = read_u64(buffer, off);
    off = off + 8;
    if nw64 > usize::MAX as u64 {
        return Err(LoadError::Malformed);
    }
    let nw = nw64 as usize;
    let mut wires = Vec::<WireData>::new();
    let mut i: usize = 0;
    while i < nw
        invariant
            off <= buffer@.len(),
        decreases nw - i,
    {
        if remaining(buffer, off) < 29 {
            return Err(LoadError::Insufficient(29, remaining(buffer, off)));
        }
        let channel = buffer[off];
        let attr = match read_attr(buffer, off + 1) {
            Ok(a) => a,
            Err(e) => {
                return Err(e);
            },
        };
        wires.push(WireData { channel, model_attr: attr });
        off = off + 29;
        i = i + 1;
    }

    // Components.
    if remaining(buffer, off) < 8 {
        return Err(LoadError::Insufficient(8, remaining(buffer, off)));
    }
    let nc64 = read_u64(buffer, off);
    off = off + 8;
    if nc64 > usize::MAX as u64 {
        return Err(LoadError::Malformed);
    }
    let nc = nc64 as usize;
    let mut comps = Vec::<CompData>::new();
    let mut i: usize = 0;
    while i < nc
        invariant
            off <= buffer@.len(),
            forall|k: int| 0 <= k < comps@.len() ==> {
                &&& (#[trigger] comps@[k]).pins_in@.len() <= u32::MAX
                &&& comps@[k].pins_out@.len() <= u32::MAX
            },
        decreases nc - i,
    {
        if remaining(buffer, off) < 1 {
            return Err(LoadError::Insufficient(1, remaining(buffer, off)));
        }
        let tag = buffer[off];
        off = off + 1;
        let comp_type = if tag == 0 {
            CompType::Bus
        } else if tag == 1 {
            CompType::Mux
        } else if tag == 2 || tag == 3 {
            if remaining(buffer, off) < 2 {
                return Err(LoadError::Insufficient(2, remaining(buffer, off)));
            }
            let d = read_u16(buffer, off);
            off = off + 2;
            if tag == 2 {
                CompType::Demux(d)
            } else {
                CompType::Fixed(d)
            }
        } else if tag == 4 {
            if remaining(buffer, off) < 1 {
                return Err(LoadError::Insufficient(1, remaining(buffer, off)));
            }
            let code = buffer[off];
            off = off + 1;
            let op = if code == 0 {
                Operator::Or
            } else if code == 1 {
                Operator::And
            } else if code == 2 {
                Operator::Nor
            } else if code == 3 {
                Operator::Nand
            } else if code == 4 {
                Operator::Add
            } else if code == 5 {
                Operator::Mul
            } else if code == 6 {
                Operator::Min
            } else if code == 7 {
                Operator::Max
            } else {
                return Err(LoadError::Malformed);
            };
            CompType::Gate(op)
        } else if tag == 5 {
            CompType::Input
        } else {
            return Err(LoadError::Malformed);
        };
        let pins_in = match read_pin_list(buffer, &mut off) {
            Ok(p) => p,
            Err(e) => {
                return Err(e);
            },
        };
        let pins_out = match read_pin_list(buffer, &mut off) {
            Ok(p) => p,
            Err(e) => {
                return Err(e);
            },
        };
        if remaining(buffer, off) < 28 {
            return Err(LoadError::Insufficient(28, remaining(buffer, off)));
        }
        let model_attr = match read_attr(buffer, off) {
            Ok(a) => a,
            Err(e) => {
                return Err(e);
            },
        };
        off = off + 28;
        comps.push(CompData { comp_type, pins_in, pins_out, model_attr });
        i = i + 1;
    }

    // Models.
    if remaining(buffer, off) < 8 {
        return Err(LoadError::Insufficient(8, remaining(buffer, off)));
    }
    let nm64 = read_u64(buffer, off);
    off = off + 8;
    if nm64 > usize::MAX as u64 {
        return Err(LoadError::Malformed);
    }
    let nm = nm64 as usize;
    let mut models = Vec::<ModelData>::new();
    let mut i: usize = 0;
    while i < nm
        invariant
            off <= buffer@.len(),
        decreases nm - i,
    {
        if remaining(buffer, off) < 8 {
            return Err(LoadError::Insufficient(8, remaining(buffer, off)));
        }
        let nb64 = read_u64(buffer, off);
        off = off + 8;
        if nb64 > usize::MAX as u64 {
            return Err(LoadError::Malformed);
        }
        let nb = nb64 as usize;
        let mut boxes = Vec::<Box3i>::new();
        let mut j: usize = 0;
        while j < nb
            invariant
                off <= buffer@.len(),
            decreases nb - j,
        {
            if remaining(buffer, off) < 48 {
                return Err(LoadError::Insufficient(48, remaining(buffer, off)));
            }
            let begin = match read_u64_triple(buffer, off) {
                Ok(v) => v,
                Err(e) => {
                    return Err(e);
                },
            };
            let end = match read_u64_triple(buffer, off + 24) {
                Ok(v) => v,
                Err(e) => {
                    return Err(e);
                },
            };
            boxes.push(Box3i { begin, end });
            off = off + 48;
            j = j + 1;
        }
        models.push(ModelData(boxes));
        i = i + 1;
    }

    // Check the decode against the bytes: the schema must re-encode to
    // exactly the input.
    let s = Schema { wires, comps, models };
    let again = serialize_schema(&s);
    if bytes_eq(&again, buffer) {
        Ok(s)
    } else {
        Err(LoadError::Malformed)
    }
}

/// Read a model attribute: three coordinates that must fit the machine
/// word, then the model index.
fn read_attr(buffer: &Vec<u8>, off: usize) -> (r: Result<ModelAttr, LoadError>)
    requires
        off + 28 <= buffer@.len(),
    ensures
        match r {
            Ok(_) => true,
            Err(e) => e == LoadError::Malformed,
        },
{
    let _blen = buffer.len();
    let position = match read_u64_triple(buffer, off) {
        Ok(v) => v,
        Err(e) => {
            return Err(e);
        },
    };
    let index = read_u32(buffer, off + 24);
    Ok(ModelAttr { position, index })
}

/// Read three 64-bit words as machine-sized coordinates.
fn read_u64_triple(buffer: &Vec<u8>, off: usize) -> (r: Result<Vec3i, LoadError>)
    requires
        off + 24 <= buffer@.len(),
    ensures
        match r {
            Ok(_) => true,
            Err(e) => e == LoadError::Malformed,
        },
{
    let _n = buffer.len();
    let x = read_u64(buffer, off);
    let y = read_u64(buffer, off + 8);
    let z = read_u64(buffer, off + 16);
    if x > usize::MAX as u64 || y > usize::MAX as u64 || z > usize::MAX as u64 {
        return Err(LoadError::Malformed);
    }
    Ok(Vec3i { x: x as usize, y: y as usize, z: z as usize })
}

/// Read a pin list: a 32-bit count, then the pins, advancing the cursor.
#[verifier::loop_isolation(false)]
fn read_pin_list(buffer: &Vec<u8>, off: &mut usize) -> (r: Result<Vec<u32>, LoadError>)
    requires
        *old(off) <= buffer@.len(),
    ensures
        *final(off) <= buffer@.len(),
        match r {
            Ok(p) => p@.len() <= u32::MAX,
            Err(e) => match e {
                LoadError::Insufficient(needed, got) => got < needed,
                _ => true,
            },
        },
{
    let _blen = buffer.len();
    if remaining(buffer, *off) < 4 {
        return Err(LoadError::Insufficient(4, remaining(buffer, *off)));
    }
    let n = read_u32(buffer, *off) as usize;
    *off = *off + 4;
    let mut pins = Vec::<u32>::new();
    let mut i: usize = 0;
    while i < n
        invariant
            *off <= buffer@.len(),
            pins@.len() == i,
            i <= n,
            n <= u32::MAX,
        decreases n - i,
    {
        if remaining(buffer, *off) < 4 {
            return Err(LoadError::Insufficient(4, remaining(buffer, *off)));
        }
        pins.push(read_u32(buffer, *off));
        *off = *off + 4;
        i = i + 1;
    }
    Ok(pins)
}

} // verus!
