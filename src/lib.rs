//! An ownership-tracked value store: bindings of scalars and owned buffers,
//! moves, copies, clones, scoped borrows, and the rules that keep them safe;
//! together with small verified functions that pass strings by value and by
//! reference, and the decision logic of a number-guessing game.

pub mod store;
pub mod laws;
pub mod ownership;
pub mod references;
pub mod guessing;
pub mod control_flow;
