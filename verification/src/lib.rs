//! Wave-function-collapse generation: adjacency rules inferred from a
//! sample grid drive a constraint-propagation, collapse and retry engine
//! that synthesizes a larger grid, everywhere locally consistent with the
//! rules.

pub mod enums;
pub mod grid;
pub mod prop;
mod random;
pub mod rules;
pub mod state;
