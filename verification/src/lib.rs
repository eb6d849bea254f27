//! Two Turing machines over the alphabet of binary digits, run by the
//! `turing_machine_rs` engine: one reverses a binary string, the other adds two
//! binary numbers. The transition tables, the validation of the arguments and
//! the reading of the final tape are verified here; the machines' results are
//! proved against the step semantics of the engine.

pub mod digits;
pub mod machine;
pub mod reverse_string;
pub mod binary_add;
pub mod adder;
