#![verifier::loop_isolation(false)]

pub mod arith;
pub mod big_int;
pub mod div;
pub mod format;
pub mod laws;
pub mod machine_int;
pub mod model;
pub mod mul;
pub mod numeral;
pub mod parse;
pub mod power;
pub mod shift;

pub use crate::big_int::{one, ten, two, zero, Base, BigInt, BigIntError, CHUNK_BITS};
pub use crate::machine_int::Int;
