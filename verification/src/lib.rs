//! Optimization and encoding backend of an arithmetic-circuit compiler.
//!
//! The crate flattens a hierarchical circuit graph into a list of R1CS
//! constraints over a prime field, simplifies the list by eliminating
//! derivable signals through equality and linear substitution, renumbers the
//! surviving signals into a contiguous witness map, and serializes the result
//! into a section-framed binary artifact.

use vstd::prelude::*;

pub mod algebra;
pub mod bytes;
pub mod clusters;
pub mod dag;
pub mod field;
pub mod include_logic;
pub mod log_writer;
pub mod porting;
pub mod r1cs_writer;
pub mod simplifier;
pub mod solver;
pub mod string_util;

verus! {

/// How a run of the backend is configured by the caller.
pub struct ExecutionConfig {
    pub sym: String,
    pub json_constraints: String,
    pub no_rounds: usize,
    pub flag_s: bool,
    pub flag_f: bool,
    pub flag_p: bool,
    pub flag_old_heuristics: bool,
    pub flag_verbose: bool,
    pub inspect_constraints_flag: bool,
    pub sym_flag: bool,
    pub json_substitution_flag: bool,
    pub json_constraint_flag: bool,
    pub prime: Vec<u8>,
}

} // verus!
