//! Per-key minimum, maximum, sum and count of fixed-point readings held in a
//! byte buffer of `key;value` lines.
pub mod hashmap;
pub mod parser;
pub mod stats;
pub mod worker;
