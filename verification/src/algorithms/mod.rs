//! The two cycle analyses over a finished graph: the cycle-edge finder
//! (`path_edges`) and the enumeration of simple cycles
//! (`johnson_simple_cycles`), with what is proved of the enumeration
//! (`blocking`, `passing`, `enumeration`).
pub mod blocking;
pub mod enumeration;
pub mod johnson_simple_cycles;
pub mod passing;
pub mod path_edges;
