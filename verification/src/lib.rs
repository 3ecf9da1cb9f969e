//! A rope of knots on the integer lattice: the head is driven by movement
//! commands, every other knot follows the one before it, and the places the
//! tail comes to are recorded.

pub mod instruction;
pub mod parser;
pub mod position;
pub mod recorder;
pub mod rope;
pub mod simulation;
