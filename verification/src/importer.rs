//! Reading little-endian scalars and voxel-container headers from raw
//! bytes, and importing an indexed voxel payload as a circuit schema.

use vstd::prelude::*;
use crate::math::Vec3i;
use crate::matrix::Matrix;
use crate::converter::convert_matrix_to_schema;
use crate::schema::Schema;

verus! {

/// A fault while reading raw bytes.
#[derive(Clone, Copy, Debug, PartialEq, Eq, Structural)]
pub enum LoadError {
    ReadFile,
    Insufficient(usize, usize),
    Malformed,
}

/// A fault while importing a voxel container.
#[derive(Clone, Copy, Debug, PartialEq, Eq, Structural)]
pub enum ImportError {
    File,
    Header(usize, usize),
    Content,
    Matrix,
    Schema,
}

/// The little-endian 16-bit word at byte offset `i`.
pub open spec fn le16(b: Seq<u8>, i: int) -> int {
    b[i] + b[i + 1] * 0x100
}

/// The little-endian 32-bit word at byte offset `i`.
pub open spec fn le32(b: Seq<u8>, i: int) -> int {
    b[i] + b[i + 1] * 0x100 + b[i + 2] * 0x10000 + b[i + 3] * 0x1000000
}

/// The little-endian 64-bit word at byte offset `i`.
pub open spec fn le64(b: Seq<u8>, i: int) -> int {
    le32(b, i) + le32(b, i + 4) * 0x100000000
}

/// Read a little-endian 16-bit word.
pub fn read_u16(buffer: &Vec<u8>, index: usize) -> (r: u16)
    requires
        index + 2 <= buffer@.len(),
    ensures
        r == le16(buffer@, index as int),
{
    let _n = buffer.len();
    (buffer[index] as u16) + (buffer[index + 1] as u16) * 0x100
}

/// Read a little-endian 32-bit word.
pub fn read_u32(buffer: &Vec<u8>, index: usize) -> (r: u32)
    requires
        index + 4 <= buffer@.len(),
    ensures
        r == le32(buffer@, index as int),
{
    let _n = buffer.len();
    (buffer[index] as u32)
        + (buffer[index + 1] as u32) * 0x100
        + (buffer[index + 2] as u32) * 0x10000
        + (buffer[index + 3] as u32) * 0x1000000
}

/// Read a little-endian 64-bit word.
pub fn read_u64(buffer: &Vec<u8>, index: usize) -> (r: u64)
    requires
        index + 8 <= buffer@.len(),
    ensures
        r == le64(buffer@, index as int),
{
    let _n = buffer.len();
    let lo = read_u32(buffer, index);
    let hi = read_u32(buffer, index + 4);
    (lo as u64) + (hi as u64) * 0x100000000
}

/// Relies on std's `str::from_utf8` and `to_string`: bytes below 0x80 are
/// valid UTF-8 and decode one character per byte, with equal code points.
#[verifier::external_body]
pub fn read_string(buffer: &Vec<u8>, index: usize, length: usize) -> (r: String)
    requires
        index + length <= buffer@.len(),
        forall|k: int| index <= k < index + length ==> buffer@[k] < 0x80,
    ensures
        r@.len() == length,
        forall|k: int| 0 <= k < length
            ==> (#[trigger] r@[k]) as u32 == buffer@[index + k] as u32,
{
    std::str::from_utf8(&buffer[index..index + length]).unwrap().to_string()
}

/// Read a vector of three bytes.
pub fn read_vec3i_from_u8s(buffer: &Vec<u8>, index: usize) -> (r: Vec3i)
    requires
        index + 3 <= buffer@.len(),
    ensures
        r.x == buffer@[index as int],
        r.y == buffer@[index as int + 1],
        r.z == buffer@[index as int + 2],
{
    let _n = buffer.len();
    Vec3i::new(
        buffer[index] as usize,
        buffer[index + 1] as usize,
        buffer[index + 2] as usize,
    )
}

/// Read a vector of three little-endian 16-bit words.
pub fn read_vec3i_from_u16s(buffer: &Vec<u8>, index: usize) -> (r: Vec3i)
    requires
        index + 6 <= buffer@.len(),
    ensures
        r.x == le16(buffer@, index as int),
        r.y == le16(buffer@, index as int + 2),
        r.z == le16(buffer@, index as int + 4),
{
    let _n = buffer.len();
    Vec3i::new(
        read_u16(buffer, index) as usize,
        read_u16(buffer, index + 2) as usize,
        read_u16(buffer, index + 4) as usize,
    )
}

/// Read a vector of three little-endian 32-bit words.
pub fn read_vec3i_from_u32s(buffer: &Vec<u8>, index: usize) -> (r: Vec3i)
    requires
        index + 12 <= buffer@.len(),
    ensures
        r.x == le32(buffer@, index as int),
        r.y == le32(buffer@, index as int + 4),
        r.z == le32(buffer@, index as int + 8),
{
    let _n = buffer.len();
    Vec3i::new(
        read_u32(buffer, index) as usize,
        read_u32(buffer, index + 4) as usize,
        read_u32(buffer, index + 8) as usize,
    )
}

/// Read a vector of three little-endian 64-bit words; each must fit the
/// machine's word size.
pub fn read_vec3i_from_u64s(buffer: &Vec<u8>, index: usize) -> (r: Vec3i)
    requires
        index + 24 <= buffer@.len(),
        le64(buffer@, index as int) <= usize::MAX,
        le64(buffer@, index as int + 8) <= usize::MAX,
        le64(buffer@, index as int + 16) <= usize::MAX,
    ensures
        r.x == le64(buffer@, index as int),
        r.y == le64(buffer@, index as int + 8),
        r.z == le64(buffer@, index as int + 16),
{
    let _n = buffer.len();
    Vec3i::new(
        read_u64(buffer, index) as usize,
        read_u64(buffer, index + 8) as usize,
        read_u64(buffer, index + 16) as usize,
    )
}

/// One voxel of up to four colour channels.
#[derive(Clone, Copy, Debug, PartialEq, Eq, Structural)]
pub struct Voxel<T> {
    pub r: T,
    pub g: T,
    pub b: T,
    pub a: T,
}

impl<T> Voxel<T> {
    pub fn new(r: T, g: T, b: T, a: T) -> (v: Self)
        ensures
            v == (Voxel { r, g, b, a }),
    {
        Self { r, g, b, a }
    }
}

/// Number of bytes of a voxel container header.
pub const HEADER_SIZE: usize = 24;

/// The header of a voxel container file.
#[derive(Debug)]
pub struct XRawHeader {
    pub magic_number: String,
    pub color_channel_data_type: usize,
    pub color_channels_amount: usize,
    pub bits_per_channel: usize,
    pub bits_per_index: usize,
    pub dimensions: Vec3i,
    pub palette_colors_amount: usize,
}

impl XRawHeader {
    /// Parse the header from the start of the raw file bytes.  Fails with
    /// the needed and present byte counts exactly when the buffer is
    /// shorter than a header, and with a content fault exactly when the
    /// magic bytes are not plain characters.
    pub fn load(buffer: &Vec<u8>) -> (r: Result<XRawHeader, ImportError>)
        ensures
            match r {
                Ok(h) => {
                    &&& buffer@.len() >= HEADER_SIZE
                    &&& forall|t: int| 0 <= t < 4 ==> (#[trigger] buffer@[t]) < 0x80
                    &&& h.magic_number@.len() == 4
                    &&& forall|t: int| 0 <= t < 4
                        ==> (#[trigger] h.magic_number@[t]) as u32 == buffer@[t] as u32
                    &&& h.color_channel_data_type == buffer@[4]
                    &&& h.color_channels_amount == buffer@[5]
                    &&& h.bits_per_channel == buffer@[6]
                    &&& h.bits_per_index == buffer@[7]
                    &&& h.dimensions.x == le32(buffer@, 8)
                    &&& h.dimensions.y == le32(buffer@, 12)
                    &&& h.dimensions.z == le32(buffer@, 16)
                    &&& h.palette_colors_amount == le32(buffer@, 20)
                },
                Err(e) => if buffer@.len() < HEADER_SIZE {
                    e == ImportError::Header(HEADER_SIZE, buffer@.len() as usize)
                } else {
                    &&& e == ImportError::Content
                    &&& exists|t: int| 0 <= t < 4 && (#[trigger] buffer@[t]) >= 0x80
                },
            },
    {
        if buffer.len() < HEADER_SIZE {
            return Err(ImportError::Header(HEADER_SIZE, buffer.len()));
        }
        let mut k: usize = 0;
        while k < 4
            invariant
                k <= 4,
                buffer@.len() >= HEADER_SIZE,
                forall|t: int| 0 <= t < k ==> (#[trigger] buffer@[t]) < 0x80,
            decreases 4 - k,
        {
            if buffer[k] >= 0x80 {
                return Err(ImportError::Content);
            }
            k = k + 1;
        }
        let magic_number = read_string(buffer, 0, 4);
        Ok(XRawHeader {
            magic_number,
            color_channel_data_type: buffer[4] as usize,
            color_channels_amount: buffer[5] as usize,
            bits_per_channel: buffer[6] as usize,
            bits_per_index: buffer[7] as usize,
            dimensions: read_vec3i_from_u32s(buffer, 8),
            palette_colors_amount: read_u32(buffer, 20) as usize,
        })
    }
}

/// The matrix read from a voxel container, by payload layout.
pub enum XRawMatrix {
    Ind8(Matrix<u8>),
    Ind16(Matrix<u16>),
    Vox8(Matrix<Voxel<u8>>),
    Vox16(Matrix<Voxel<u16>>),
    Vox32(Matrix<Voxel<u32>>),
}

/// Load a matrix of 8-bit palette indices from the payload bytes.
pub fn load_matrix_u8(buffer: &Vec<u8>, size: Vec3i) -> (r: Matrix<u8>)
    requires
        size.x * size.y <= usize::MAX,
        size.x * size.y * size.z <= usize::MAX,
        size.spec_index_range() <= buffer@.len(),
    ensures
        r.wf(),
        r.size == size,
        forall|i: int| 0 <= i < r.data@.len() ==> r.data@[i] == buffer@[i],
{
    let n = size.index_range();
    let mut data = Vec::<u8>::new();
    let mut i: usize = 0;
    while i < n
        invariant
            i <= n,
            n == size.spec_index_range(),
            n <= buffer@.len(),
            data@.len() == i,
            forall|k: int| 0 <= k < i ==> data@[k] == buffer@[k],
        decreases n - i,
    {
        data.push(buffer[i]);
        i = i + 1;
    }
    Matrix { size, data }
}

/// Load a matrix of 16-bit palette indices from the payload bytes.
pub fn load_matrix_u16(buffer: &Vec<u8>, size: Vec3i) -> (r: Matrix<u16>)
    requires
        size.x * size.y <= usize::MAX,
        size.x * size.y * size.z <= usize::MAX,
        size.spec_index_range() * 2 <= buffer@.len(),
    ensures
        r.wf(),
        r.size == size,
        forall|i: int| 0 <= i < r.data@.len() ==> r.data@[i] == le16(buffer@, 2 * i),
{
    let _nb = buffer.len();
    let n = size.index_range();
    let mut data = Vec::<u16>::new();
    let mut i: usize = 0;
    while i < n
        invariant
            i <= n,
            n == size.spec_index_range(),
            n * 2 <= buffer@.len(),
            buffer@.len() <= usize::MAX,
            data@.len() == i,
            forall|k: int| 0 <= k < i ==> data@[k] == le16(buffer@, 2 * k),
        decreases n - i,
    {
        data.push(read_u16(buffer, 2 * i));
        i = i + 1;
    }
    Matrix { size, data }
}

/// Widen an 8-bit index matrix to the 16-bit values the compiler takes.
pub fn widen_matrix(m: &Matrix<u8>) -> (r: Matrix<u16>)
    requires
        m.wf(),
    ensures
        r.wf(),
        r.size == m.size,
        forall|i: int| 0 <= i < r.data@.len() ==> r.data@[i] == m.data@[i],
{
    let n = m.data.len();
    let mut data = Vec::<u16>::new();
    let mut i: usize = 0;
    while i < n
        invariant
            i <= n,
            n == m.data@.len(),
            data@.len() == i,
            forall|k: int| 0 <= k < i ==> data@[k] == m.data@[k],
        decreases n - i,
    {
        data.push(m.data[i] as u16);
        i = i + 1;
    }
    Matrix { size: m.size, data }
}

/// Number of face-shared cells that confirm a junction between components.
pub const THRESHOLD: usize = 3;

/// A whole header is present and its magic bytes are plain characters.
pub open spec fn header_readable(b: Seq<u8>) -> bool {
    &&& b.len() >= HEADER_SIZE
    &&& forall|t: int| 0 <= t < 4 ==> (#[trigger] b[t]) < 0x80
}

/// The grid dimensions the header declares.
pub open spec fn spec_dims(b: Seq<u8>) -> Vec3i {
    Vec3i { x: le32(b, 8) as usize, y: le32(b, 12) as usize, z: le32(b, 16) as usize }
}

/// The number of grid cells the header declares.
pub open spec fn spec_cells(b: Seq<u8>) -> int {
    spec_dims(b).spec_index_range()
}

/// The declared grid fits the machine word, the label space, and the
/// connectivity count table.
pub open spec fn grid_fits(b: Seq<u8>) -> bool {
    &&& spec_dims(b).x <= 0xffff
    &&& spec_dims(b).y <= 0xffff
    &&& spec_dims(b).z <= 0xffff
    &&& spec_dims(b).x * spec_dims(b).y <= usize::MAX
    &&& spec_cells(b) < 0xffffffff
    &&& (spec_cells(b) + 1) * (spec_cells(b) + 1) <= usize::MAX
}

/// The payload holds one byte per declared cell.
pub open spec fn indexed8_payload_ok(b: Seq<u8>) -> bool {
    b.len() - HEADER_SIZE >= spec_cells(b)
}

/// The payload holds one 16-bit word per declared cell.
pub open spec fn indexed16_payload_ok(b: Seq<u8>) -> bool {
    (b.len() - HEADER_SIZE) / 2 >= spec_cells(b)
}

/// The value matrix of an 8-bit indexed payload: one cell per payload
/// byte in order, widened to the compiler's value type.
pub open spec fn indexed8_matrix(m: Matrix<u16>, b: Seq<u8>) -> bool {
    &&& m.wf()
    &&& m.size == spec_dims(b)
    &&& forall|i: int| 0 <= i < m.data@.len()
        ==> (#[trigger] m.data@[i]) == b[HEADER_SIZE + i]
}

/// The value matrix of a 16-bit indexed payload: one cell per
/// little-endian payload word in order.
pub open spec fn indexed16_matrix(m: Matrix<u16>, b: Seq<u8>) -> bool {
    &&& m.wf()
    &&& m.size == spec_dims(b)
    &&& forall|i: int| 0 <= i < m.data@.len()
        ==> (#[trigger] m.data@[i]) == le16(b, HEADER_SIZE + 2 * i)
}

/// Import a voxel container, given its raw bytes, as a circuit schema.
/// An indexed payload (8 or 16 bits per index, per the header) is read
/// into a value matrix pinned to the payload bytes, then labeled,
/// analysed and compiled with the default classifier; a direct-colour
/// payload yields the empty schema.  The returned schema always passes
/// `verify`.  Each fault comes exactly on its own condition: a short or
/// unreadable header, a grid that does not fit, or a short payload.
pub fn load_xraw_file(buffer: &Vec<u8>, threshold: usize) -> (r: Result<Schema, ImportError>)
    ensures
        match r {
            Ok(s) => {
                &&& s.spec_valid()
                &&& header_readable(buffer@)
                &&& grid_fits(buffer@)
                &&& if buffer@[7] == 8 {
                    &&& indexed8_payload_ok(buffer@)
                    &&& exists|m: Matrix<u16>, p: crate::parser::ParsedMatrix|
                        #![trigger indexed8_matrix(m, buffer@), p.matches(m, 0u16, threshold as int)]
                    {
                        &&& indexed8_matrix(m, buffer@)
                        &&& p.matches(m, 0u16, threshold as int)
                        &&& crate::converter::schema_matches(s, p)
                    }
                } else if buffer@[7] == 16 {
                    &&& indexed16_payload_ok(buffer@)
                    &&& exists|m: Matrix<u16>, p: crate::parser::ParsedMatrix|
                        #![trigger indexed16_matrix(m, buffer@), p.matches(m, 0xffffu16, threshold as int)]
                    {
                        &&& indexed16_matrix(m, buffer@)
                        &&& p.matches(m, 0xffffu16, threshold as int)
                        &&& crate::converter::schema_matches(s, p)
                    }
                } else {
                    s.wires@.len() == 0 && s.comps@.len() == 0 && s.models@.len() == 0
                }
            },
            Err(e) => if buffer@.len() < HEADER_SIZE {
                e == ImportError::Header(HEADER_SIZE, buffer@.len() as usize)
            } else if !header_readable(buffer@) {
                e == ImportError::Content
            } else if !grid_fits(buffer@) {
                e == ImportError::Matrix
            } else if buffer@[7] == 8 {
                e == ImportError::Matrix && !indexed8_payload_ok(buffer@)
            } else if buffer@[7] == 16 {
                e == ImportError::Matrix && !indexed16_payload_ok(buffer@)
            } else {
                false
            },
        },
{
    let header = match XRawHeader::load(buffer) {
        Ok(h) => h,
        Err(e) => {
            return Err(e);
        },
    };
    let dims = header.dimensions;
    proof {
        assert(dims == spec_dims(buffer@));
    }

    // The grid must fit the machine and the label space.
    if dims.x > 0xffff || dims.y > 0xffff || dims.z > 0xffff {
        return Err(ImportError::Matrix);
    }
    proof {
        assert(dims.x as int * dims.y as int <= 0xffff * 0xffff) by (nonlinear_arith)
            requires
                0 <= dims.x as int <= 0xffff,
                0 <= dims.y as int <= 0xffff,
        ;
        assert((dims.x as int * dims.y as int) * dims.z as int <= 0xffffffffffff)
            by (nonlinear_arith)
            requires
                0 <= dims.x as int * dims.y as int <= 0xffff * 0xffff,
                0 <= dims.z as int <= 0xffff,
        ;
    }
    let xy64 = (dims.x as u64) * (dims.y as u64);
    let cells64 = xy64 * (dims.z as u64);
    if xy64 > usize::MAX as u64 || cells64 >= 0xffffffff || cells64 > usize::MAX as u64 {
        return Err(ImportError::Matrix);
    }
    let cells = cells64 as usize;
    let c64 = cells64 + 1;
    proof {
        assert(c64 * c64 <= 0xffffffffu64 * 0xffffffffu64) by (nonlinear_arith)
            requires
                0 < c64 <= 0xffffffffu64,
        ;
    }
    if c64 * c64 > usize::MAX as u64 {
        return Err(ImportError::Matrix);
    }
    proof {
        assert(cells == dims.spec_index_range());
        assert((cells + 1) * (cells + 1) <= usize::MAX);
    }

    let payload_start = HEADER_SIZE;
    if header.bits_per_index == 8 {
        if buffer.len() < payload_start || buffer.len() - payload_start < cells {
            return Err(ImportError::Matrix);
        }
        let payload = copy_tail(buffer, payload_start);
        let m8 = load_matrix_u8(&payload, dims);
        let m16 = widen_matrix(&m8);
        let s = convert_matrix_to_schema(&m16, 0, threshold);
        proof {
            assert forall|i: int| 0 <= i < m16.data@.len()
                implies (#[trigger] m16.data@[i]) == buffer@[HEADER_SIZE + i] by {
                assert(m16.data@[i] == m8.data@[i]);
                assert(m8.data@[i] == payload@[i]);
            }
            assert(indexed8_matrix(m16, buffer@));
            let p = choose|p: crate::parser::ParsedMatrix|
                #[trigger] p.matches(m16, 0u16, threshold as int)
                    && crate::converter::schema_matches(s, p);
            assert(indexed8_matrix(m16, buffer@) && p.matches(m16, 0u16, threshold as int)
                && crate::converter::schema_matches(s, p));
        }
        Ok(s)
    } else if header.bits_per_index == 16 {
        if buffer.len() < payload_start
            || (buffer.len() - payload_start) / 2 < cells {
            return Err(ImportError::Matrix);
        }
        let payload = copy_tail(buffer, payload_start);
        proof {
            assert(cells * 2 <= payload@.len()) by (nonlinear_arith)
                requires
                    0 <= cells,
                    payload@.len() >= 0,
                    (payload@.len() as int) / 2 >= cells,
            ;
        }
        let m16 = load_matrix_u16(&payload, dims);
        let s = convert_matrix_to_schema(&m16, 0xffff, threshold);
        proof {
            assert forall|i: int| 0 <= i < m16.data@.len()
                implies (#[trigger] m16.data@[i]) == le16(buffer@, HEADER_SIZE + 2 * i) by {
                assert(m16.data@[i] == le16(payload@, 2 * i));
                assert(payload@[2 * i] == buffer@[HEADER_SIZE + 2 * i]);
                assert(payload@[2 * i + 1] == buffer@[HEADER_SIZE + 2 * i + 1]);
            }
            assert(indexed16_matrix(m16, buffer@));
            let p = choose|p: crate::parser::ParsedMatrix|
                #[trigger] p.matches(m16, 0xffffu16, threshold as int)
                    && crate::converter::schema_matches(s, p);
            assert(indexed16_matrix(m16, buffer@)
                && p.matches(m16, 0xffffu16, threshold as int)
                && crate::converter::schema_matches(s, p));
        }
        Ok(s)
    } else {
        // Direct-colour payloads carry no circuit information: the schema
        // is empty.
        Ok(Schema::default())
    }
}

/// The bytes from `start` to the end of the buffer.
fn copy_tail(buffer: &Vec<u8>, start: usize) -> (r: Vec<u8>)
    requires
        start <= buffer@.len(),
    ensures
        r@.len() == buffer@.len() - start,
        forall|i: int| 0 <= i < r@.len() ==> r@[i] == buffer@[start + i],
{
    let n = buffer.len();
    let mut r = Vec::<u8>::new();
    let mut i: usize = start;
    while i < n
        invariant
            start <= i <= n,
            n == buffer@.len(),
            r@.len() == i - start,
            forall|k: int| 0 <= k < r@.len() ==> r@[k] == buffer@[start + k],
        decreases n - i,
    {
        r.push(buffer[i]);
        i = i + 1;
    }
    r
}

} // verus!
