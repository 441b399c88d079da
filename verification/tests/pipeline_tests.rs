//! Tests for the compilation pipeline: labeling, bounding boxes,
//! signatures, models, connectivity, classification, schema building,
//! verification, and the raw-byte importer.

use voxel_logic::circuit::Operator;
use voxel_logic::connectivity::{csr_neighbors, find_connections, reverse_graph};
use voxel_logic::converter::{convert_matrix_to_schema, match_index, ElemType};
use voxel_logic::importer::{
    load_matrix_u16, load_matrix_u8, load_xraw_file, read_string, read_u16, read_u32, read_u64,
    read_vec3i_from_u16s, read_vec3i_from_u32s, read_vec3i_from_u64s, read_vec3i_from_u8s,
    ImportError, XRawHeader,
};
use voxel_logic::math::{Box3i, Vec3i};
use voxel_logic::matrix::Matrix;
use voxel_logic::morphology::{find_bounding_boxes, generate_model, generate_morph, group_box};
use voxel_logic::parser::parse_matrix;
use voxel_logic::schema::{CompData, CompType, Error, ModelAttr, ModelData, Schema, WireData};

fn matrix_from(size: Vec3i, cells: &[u16]) -> Matrix<u16> {
    let mut m = Matrix::new(size, 0u16);
    assert_eq!(cells.len(), size.x * size.y * size.z);
    m.data = cells.to_vec();
    m
}

fn label_matrix_from(size: Vec3i, cells: &[u32]) -> Matrix<u32> {
    let mut m = Matrix::new(size, 0u32);
    assert_eq!(cells.len(), size.x * size.y * size.z);
    m.data = cells.to_vec();
    m
}

#[test]
fn vec3i_and_box3i_basics() {
    let a = Vec3i::new(1, 5, 2);
    let b = Vec3i::make(3, 4, 2);
    assert_eq!(a.min(b), Vec3i::new(1, 4, 2));
    assert_eq!(a.max(b), Vec3i::new(3, 5, 2));
    assert_eq!(a.sum(), 8);
    assert_eq!(b.index_range(), 24);
    assert!(a.le(Vec3i::new(1, 5, 2)));
    assert!(!a.lt(Vec3i::new(2, 6, 2)));

    let bx = Box3i::define(1, 1, 1, 3, 3, 3);
    assert_eq!(bx.size(), Vec3i::new(2, 2, 2));
    assert!(bx.contains(Vec3i::new(2, 2, 2)));
    assert!(!bx.contains(Vec3i::new(3, 3, 3)));
    assert!(bx.bounds(Vec3i::new(2, 2, 2)));
    assert!(!bx.bounds(Vec3i::new(3, 3, 3)));
}

#[test]
fn matrix_accessors_and_neighbors() {
    let mut m = Matrix::new(Vec3i::new(2, 2, 2), 0u16);
    m.set(1, 0, 0, 7);
    m.set(0, 1, 1, 9);
    assert_eq!(m.get(1, 0, 0), 7);
    assert_eq!(m.get(0, 1, 1), 9);
    assert_eq!(m.index(1, 1, 1), 7);
    let order = m.for_each();
    assert_eq!(order.len(), 8);
    assert_eq!(order[0], Vec3i::new(0, 0, 0));
    assert_eq!(order[1], Vec3i::new(1, 0, 0));
    assert_eq!(order[2], Vec3i::new(0, 1, 0));
    assert_eq!(order[7], Vec3i::new(1, 1, 1));
    let in_box = m.for_each_in_box(Box3i::define(1, 0, 0, 2, 2, 1));
    assert_eq!(in_box.len(), 2);
    assert_eq!(in_box[0], Vec3i::new(1, 0, 0));
    assert_eq!(in_box[1], Vec3i::new(1, 1, 0));
    let nb = m.get_neighbors(0, 0, 0, 0xFFFF);
    assert_eq!(nb, vec![0xFFFF, 7, 0xFFFF, 0, 0xFFFF, 0]);
}

#[test]
fn labeling_assigns_dense_labels() {
    // Two components of one value separated by an empty cell, plus one of
    // another value: labels form a dense range in scan order.
    let m = matrix_from(Vec3i::new(5, 1, 1), &[5, 5, 0, 5, 7]);
    let (labels, values) = m.connected_component_labeling(0);
    assert_eq!(values, vec![5, 5, 7]);
    assert_eq!(labels.data, vec![1, 1, 0, 2, 3]);
}

#[test]
fn labeling_joins_across_rows() {
    // An L-shape connects through a corner; a diagonal does not.
    let m = matrix_from(Vec3i::new(2, 2, 1), &[5, 0, 5, 5]);
    let (labels, values) = m.connected_component_labeling(0);
    assert_eq!(values, vec![5]);
    assert_eq!(labels.data, vec![1, 0, 1, 1]);

    let diag = matrix_from(Vec3i::new(2, 2, 1), &[5, 0, 0, 5]);
    let (labels2, values2) = diag.connected_component_labeling(0);
    assert_eq!(values2, vec![5, 5]);
    assert_eq!(labels2.data, vec![1, 0, 0, 2]);
}

#[test]
fn labeling_merges_provisional_labels() {
    // A U-shape forces two provisional labels that merge into one.
    let m = matrix_from(Vec3i::new(3, 2, 1), &[5, 0, 5, 5, 5, 5]);
    let (labels, values) = m.connected_component_labeling(0);
    assert_eq!(values, vec![5]);
    assert_eq!(labels.data, vec![1, 0, 1, 1, 1, 1]);
}

#[test]
fn bounding_boxes_are_tight() {
    let m = label_matrix_from(Vec3i::new(4, 3, 1), &[0, 1, 1, 0, 0, 1, 0, 0, 0, 0, 0, 0]);
    let boxes = find_bounding_boxes(&m, 1);
    assert_eq!(boxes.len(), 1);
    assert_eq!(boxes[0].begin, Vec3i::new(1, 0, 0));
    assert_eq!(boxes[0].end, Vec3i::new(3, 2, 1));
}

#[test]
fn signatures_depend_on_shape_alone() {
    // Two components with the same shape at different positions share a
    // signature; a different shape gives another one.
    let m = matrix_from(
        Vec3i::new(7, 1, 1),
        &[4, 4, 0, 9, 9, 0, 9],
    );
    let (labels, values) = m.connected_component_labeling(0);
    assert_eq!(values, vec![4, 9, 9]);
    let boxes = find_bounding_boxes(&labels, 3);
    let (sig1, vol1) = generate_morph(&labels, 1, boxes[0]);
    let (sig2, vol2) = generate_morph(&labels, 2, boxes[1]);
    let (sig3, vol3) = generate_morph(&labels, 3, boxes[2]);
    assert_eq!(vol1, 2);
    assert_eq!(vol2, 2);
    assert_eq!(vol3, 1);
    assert_eq!(sig1, sig2);
    assert_ne!(sig1, sig3);
}

#[test]
fn model_covers_component_with_boxes() {
    let m = label_matrix_from(Vec3i::new(3, 2, 1), &[1, 1, 0, 1, 1, 0]);
    let boxes = find_bounding_boxes(&m, 1);
    let end = group_box(&m, 1, Vec3i::new(0, 0, 0), boxes[0].end);
    assert_eq!(end, Vec3i::new(2, 2, 1));
    let model = generate_model(&m, 1, boxes[0]);
    assert_eq!(model.0.len(), 1);
    assert_eq!(model.0[0].begin, Vec3i::new(0, 0, 0));
    assert_eq!(model.0[0].end, Vec3i::new(2, 2, 1));
}

#[test]
fn connections_respect_threshold() {
    // Components 1 and 2 share three faces, component 3 only one.
    let m = matrix_from(
        Vec3i::new(2, 4, 1),
        &[1, 2, 1, 2, 1, 2, 3, 2],
    );
    let (labels, values) = m.connected_component_labeling(0);
    assert_eq!(values, vec![1, 2, 3]);
    let graph = find_connections(&labels, 3, 3);
    assert_eq!(csr_neighbors(&graph, 0), vec![1]);
    assert_eq!(csr_neighbors(&graph, 1), vec![0]);
    assert_eq!(csr_neighbors(&graph, 2), Vec::<u32>::new());

    let rev = reverse_graph(&graph, 3);
    assert_eq!(csr_neighbors(&rev, 0), vec![1]);
    assert_eq!(csr_neighbors(&rev, 1), vec![0]);
}

#[test]
fn classifier_table() {
    assert_eq!(match_index(1, 10), ElemType::Wire(0));
    assert_eq!(match_index(16, 10), ElemType::Wire(15));
    assert_eq!(match_index(17, 10), ElemType::Gate(Operator::Or));
    assert_eq!(match_index(24, 10), ElemType::Gate(Operator::Max));
    assert_eq!(match_index(25, 10), ElemType::Mux);
    assert_eq!(match_index(26, 10), ElemType::Demux(1));
    assert_eq!(match_index(27, 10), ElemType::Fixed(6));
    assert_eq!(match_index(27, 3), ElemType::Fixed(0));
    assert_eq!(match_index(28, 10), ElemType::Bus);
    assert_eq!(match_index(29, 10), ElemType::Input);
    assert_eq!(match_index(0, 10), ElemType::Empty);
    assert_eq!(match_index(42, 10), ElemType::Empty);
}

#[test]
fn compiles_wire_and_gate() {
    // A channel-0 wire column touching a gate column on three faces.
    let m = matrix_from(
        Vec3i::new(2, 3, 1),
        &[1, 17, 1, 17, 1, 17],
    );
    let schema = convert_matrix_to_schema(&m, 0, 3);
    assert!(schema.verify().is_ok());
    assert_eq!(schema.wires.len(), 1);
    assert_eq!(schema.wires[0].channel, 0);
    assert_eq!(schema.comps.len(), 1);
    assert!(matches!(schema.comps[0].comp_type, CompType::Gate(Operator::Or)));
    assert_eq!(schema.comps[0].pins_in, vec![0]);
    assert_eq!(schema.comps[0].pins_out, vec![0]);
    // Both components share one model index space.
    assert_eq!(schema.models.len(), 1);
}

#[test]
fn parse_matrix_shares_models_by_signature() {
    let m = matrix_from(Vec3i::new(5, 1, 1), &[1, 0, 2, 0, 17]);
    let parsed = parse_matrix(&m, 0, 3);
    assert_eq!(parsed.values, vec![1, 2, 17]);
    assert_eq!(parsed.components.len(), 3);
    assert_eq!(parsed.models.len(), 1);
    assert_eq!(parsed.model_of, vec![0, 0, 0]);
    assert_eq!(parsed.components[0].volume, 1);
    assert_eq!(parsed.components[1].position, Vec3i::new(2, 0, 0));
}

#[test]
fn verify_catches_dangling_pin() {
    let schema = Schema {
        wires: vec![WireData {
            channel: 0,
            model_attr: ModelAttr { position: Vec3i::new(0, 0, 0), index: 0 },
        }],
        comps: vec![CompData {
            comp_type: CompType::Gate(Operator::Or),
            pins_in: vec![0, 7],
            pins_out: vec![],
            model_attr: ModelAttr { position: Vec3i::new(0, 0, 0), index: 0 },
        }],
        models: vec![ModelData(vec![])],
    };
    let errors = schema.verify().unwrap_err();
    assert_eq!(errors, vec![Error::PinIn(0, 7)]);
}

#[test]
fn verify_reports_every_fault() {
    let schema = Schema {
        wires: vec![WireData {
            channel: 16,
            model_attr: ModelAttr { position: Vec3i::new(0, 0, 0), index: 3 },
        }],
        comps: vec![CompData {
            comp_type: CompType::Mux,
            pins_in: vec![9],
            pins_out: vec![8],
            model_attr: ModelAttr { position: Vec3i::new(0, 0, 0), index: 5 },
        }],
        models: vec![],
    };
    let errors = schema.verify().unwrap_err();
    assert_eq!(
        errors,
        vec![
            Error::WireChannel(0, 16),
            Error::WireModel(0, 3),
            Error::CompModel(0, 5),
            Error::PinIn(0, 9),
            Error::PinOut(0, 8),
        ]
    );
}

#[test]
fn readers_decode_little_endian() {
    let b = vec![0x11u8, 0x22, 0x33, 0x44, 0x55, 0x66, 0x77, 0x88, 0x01, 0x02];
    assert_eq!(read_u16(&b, 0), 0x2211);
    assert_eq!(read_u32(&b, 2), 0x66554433);
    assert_eq!(read_u64(&b, 1), 0x0188776655443322);
    assert_eq!(read_vec3i_from_u8s(&b, 0), Vec3i::new(0x11, 0x22, 0x33));
    assert_eq!(
        read_vec3i_from_u16s(&b, 0),
        Vec3i::new(0x2211, 0x4433, 0x6655)
    );
    let wide = vec![
        1, 0, 0, 0, 2, 0, 0, 0, 3, 0, 0, 0, //
        4, 0, 0, 0, 0, 0, 0, 0, 5, 0, 0, 0, 0, 0, 0, 0, 6, 0, 0, 0, 0, 0, 0, 0,
    ];
    assert_eq!(read_vec3i_from_u32s(&wide, 0), Vec3i::new(1, 2, 3));
    assert_eq!(read_vec3i_from_u64s(&wide, 12), Vec3i::new(4, 5, 6));
    let text = vec![b'X', b'R', b'A', b'W'];
    assert_eq!(read_string(&text, 0, 4), "XRAW");
}

fn xraw_bytes(dims: (u32, u32, u32), bits_per_index: u8, payload: &[u8]) -> Vec<u8> {
    let mut b = Vec::new();
    b.extend_from_slice(b"XRAW");
    b.push(0); // channel data type
    b.push(4); // channel count
    b.push(8); // bits per channel
    b.push(bits_per_index);
    b.extend_from_slice(&dims.0.to_le_bytes());
    b.extend_from_slice(&dims.1.to_le_bytes());
    b.extend_from_slice(&dims.2.to_le_bytes());
    b.extend_from_slice(&256u32.to_le_bytes());
    b.extend_from_slice(payload);
    b
}

#[test]
fn header_round_trip_and_short_read() {
    let bytes = xraw_bytes((2, 3, 1), 8, &[0; 6]);
    let header = XRawHeader::load(&bytes).unwrap();
    assert_eq!(header.magic_number, "XRAW");
    assert_eq!(header.bits_per_index, 8);
    assert_eq!(header.dimensions, Vec3i::new(2, 3, 1));
    assert_eq!(header.palette_colors_amount, 256);

    let short = vec![1u8, 2, 3];
    assert_eq!(
        XRawHeader::load(&short).unwrap_err(),
        ImportError::Header(24, 3)
    );
}

#[test]
fn payload_loaders_fill_matrices() {
    let m8 = load_matrix_u8(&vec![1, 2, 3, 4, 5, 6], Vec3i::new(3, 2, 1));
    assert_eq!(m8.get(0, 0, 0), 1);
    assert_eq!(m8.get(2, 1, 0), 6);
    let m16 = load_matrix_u16(&vec![1, 0, 2, 0, 0xFF, 0xFF, 3, 0], Vec3i::new(2, 2, 1));
    assert_eq!(m16.get(0, 0, 0), 1);
    assert_eq!(m16.get(0, 1, 0), 0xFFFF);
}

#[test]
fn imports_indexed_container_to_valid_schema() {
    let payload = [1u8, 17, 1, 17, 1, 17];
    let bytes = xraw_bytes((2, 3, 1), 8, &payload);
    let schema = load_xraw_file(&bytes, 3).unwrap();
    assert!(schema.verify().is_ok());
    assert_eq!(schema.wires.len(), 1);
    assert_eq!(schema.comps.len(), 1);

    let truncated = xraw_bytes((2, 3, 1), 8, &[1u8, 2]);
    assert_eq!(load_xraw_file(&truncated, 3).unwrap_err(), ImportError::Matrix);
}

#[test]
fn header_rejects_unreadable_magic() {
    let mut bytes = xraw_bytes((1, 1, 1), 8, &[1u8]);
    bytes[0] = 0x80;
    assert_eq!(XRawHeader::load(&bytes).unwrap_err(), ImportError::Content);
}

#[test]
fn direct_colour_payload_yields_empty_schema() {
    // A payload of raw colour voxels carries no circuit: the import
    // succeeds with an empty, valid schema.
    let bytes = xraw_bytes((1, 1, 1), 0, &[0u8; 4]);
    let schema = load_xraw_file(&bytes, 3).unwrap();
    assert!(schema.verify().is_ok());
    assert_eq!(schema.wires.len(), 0);
    assert_eq!(schema.comps.len(), 0);
    assert_eq!(schema.models.len(), 0);
}
