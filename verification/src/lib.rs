//! Voxel logic circuits: compile a 3-D voxel model into a circuit schema and
//! simulate it with a two-phase tick/tock schedule.

pub mod math;
pub mod matrix;
pub mod circuit;
pub mod schema;
pub mod morphology;
pub mod labeling;
pub mod connectivity;
pub mod parser;
pub mod converter;
pub mod importer;
pub mod codec;
