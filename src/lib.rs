//! Timetable search: the encoding of a schedule as a genome, the conflict-aware
//! fitness evaluator, and the operators that build, mutate and recombine genomes.

pub mod model;
pub mod fitness;
pub mod operators;
