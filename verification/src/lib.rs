//! Exhaustive backtracking over N-queens placements with bit-register
//! conflict tests, together with a few small data types.

pub mod alc;
pub mod census;
pub mod counters;
pub mod dlink;
pub mod engine;
pub mod machine;
pub mod nn;
pub mod placement;
pub mod registers;
pub mod trail;
