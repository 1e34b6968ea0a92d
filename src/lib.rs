//! Competitive-programming building blocks: a succinct bit dictionary with
//! rank and select, binary-search bounds over sorted slices, and a rerooting
//! tree fold.
pub mod bound;
pub mod rerooting;
pub mod succint_bit_vector;
