//! Static analysis and optimization toolkit for a small three-address
//! intermediate representation: control-flow-graph construction, local
//! dead-code elimination, and a constant-propagation dataflow analysis
//! over a three-point lattice.

pub mod ast;
pub mod basic_block;
pub mod bril;
pub mod bril_parse;
pub mod cfg;
pub mod dce;
pub mod df;
pub mod report;
pub mod smap;
pub mod text;
