//! Reading and evaluating the inputs of NNUE chess evaluation networks.
pub mod accumulator;
pub mod features;
pub mod parser;
pub mod types;
