//! Round-trip tests for schema persistence: serialization followed by
//! deserialization preserves the schema and its verification verdict.

use voxel_logic::circuit::Operator;
use voxel_logic::codec::{deserialize_schema, serialize_schema};
use voxel_logic::converter::convert_matrix_to_schema;
use voxel_logic::importer::LoadError;
use voxel_logic::math::{Box3i, Vec3i};
use voxel_logic::matrix::Matrix;
use voxel_logic::schema::{CompData, CompType, ModelAttr, ModelData, Schema, WireData};

fn sample_schema() -> Schema {
    Schema {
        wires: vec![
            WireData {
                channel: 3,
                model_attr: ModelAttr { position: Vec3i::new(1, 2, 3), index: 0 },
            },
            WireData {
                channel: 0,
                model_attr: ModelAttr { position: Vec3i::new(4, 0, 0), index: 1 },
            },
        ],
        comps: vec![CompData {
            comp_type: CompType::Gate(Operator::Nand),
            pins_in: vec![0, 1],
            pins_out: vec![1],
            model_attr: ModelAttr { position: Vec3i::new(7, 7, 7), index: 1 },
        }],
        models: vec![
            ModelData(vec![Box3i::define(0, 0, 0, 1, 1, 1)]),
            ModelData(vec![Box3i::define(0, 0, 0, 2, 1, 1), Box3i::define(0, 1, 0, 1, 2, 1)]),
        ],
    }
}

fn assert_schemas_equal(a: &Schema, b: &Schema) {
    assert_eq!(a.wires, b.wires);
    assert_eq!(a.comps.len(), b.comps.len());
    for (ca, cb) in a.comps.iter().zip(b.comps.iter()) {
        assert_eq!(ca.comp_type, cb.comp_type);
        assert_eq!(ca.pins_in, cb.pins_in);
        assert_eq!(ca.pins_out, cb.pins_out);
        assert_eq!(ca.model_attr, cb.model_attr);
    }
    assert_eq!(a.models.len(), b.models.len());
    for (ma, mb) in a.models.iter().zip(b.models.iter()) {
        assert_eq!(ma.0, mb.0);
    }
}

#[test]
fn round_trip_preserves_schema_and_verdict() {
    let schema = sample_schema();
    let bytes = serialize_schema(&schema);
    let back = deserialize_schema(&bytes).unwrap();
    assert_schemas_equal(&schema, &back);
    assert_eq!(schema.verify(), back.verify());
}

#[test]
fn round_trip_preserves_faults_of_invalid_schema() {
    // Verification idempotence holds for schemas that fail too: the fault
    // list survives the trip.
    let mut schema = sample_schema();
    schema.comps[0].pins_in = vec![0, 9];
    schema.wires[1].channel = 40;
    let bytes = serialize_schema(&schema);
    let back = deserialize_schema(&bytes).unwrap();
    assert_schemas_equal(&schema, &back);
    assert_eq!(schema.verify().unwrap_err(), back.verify().unwrap_err());
}

#[test]
fn round_trip_of_compiled_schema() {
    let mut m = Matrix::new(Vec3i::new(2, 3, 1), 0u16);
    m.data = vec![1, 17, 1, 17, 1, 17];
    let schema = convert_matrix_to_schema(&m, 0, 3);
    let bytes = serialize_schema(&schema);
    let back = deserialize_schema(&bytes).unwrap();
    assert_schemas_equal(&schema, &back);
    assert!(back.verify().is_ok());
}

#[test]
fn truncated_bytes_are_rejected() {
    let bytes = serialize_schema(&sample_schema());
    let cut = bytes[..bytes.len() - 3].to_vec();
    match deserialize_schema(&cut).unwrap_err() {
        LoadError::Insufficient(needed, got) => assert!(got < needed),
        other => panic!("unexpected {:?}", other),
    }
    assert!(matches!(
        deserialize_schema(&vec![1, 2, 3]).unwrap_err(),
        LoadError::Insufficient(8, 3)
    ));
}

#[test]
fn corrupted_tag_is_rejected() {
    let mut bytes = serialize_schema(&sample_schema());
    // The component tag byte follows the wire section.
    let tag_offset = 8 + 29 * 2 + 8;
    bytes[tag_offset] = 9;
    assert!(matches!(
        deserialize_schema(&bytes).unwrap_err(),
        LoadError::Malformed
    ));
}
