//! Wire-level tooling for bus captures: checksum discovery, Modbus RTU
//! reassembly, and the device catalogues that give captured bytes a meaning.

pub mod algorithms;
pub mod bits;
pub mod catalog;
pub mod columns;
pub mod contents;
pub mod decode;
pub mod detect;
pub mod document;
pub mod edit;
pub mod evidence;
pub mod fields;
pub mod frame;
pub mod header;
pub mod json;
pub mod keyed;
pub mod manifest;
pub mod migrate;
pub mod mirror;
pub mod model;
pub mod modbus_rtu_stream;
pub mod mux;
pub mod notes;
pub mod number;
pub mod order;
pub mod parse;
pub mod protocol;
pub mod recover;
pub mod sampling;
pub mod scan;
pub mod solve;
pub mod spec;
pub mod specification;
pub mod text;
pub mod tunnel;
pub mod validate;
pub mod value;
pub mod version;
pub mod writes;
