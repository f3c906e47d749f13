//! bfc: an optimising compiler for BF.
//!
//! BF source is parsed into an AST (`bfir`), improved by peephole passes
//! (`peephole`), partly run at compile time (`execution`), and handed to a
//! code generator together with the state that compile-time execution reached.
//! `ir` and `optimize` hold the smaller flat IR that the compiler started
//! from, and `prototype` its very first parser and optimiser.
//!
//! The `soundness` modules prove that each peephole pass, and the whole
//! optimiser, keep what a program does under compile-time execution;
//! `size` and `ir_size` prove
//! that neither optimiser makes a program bigger; `peephole_laws`,
//! `optimize_laws`, `idempotence` and `idempotent_passes` hold the other
//! promises of the passes, `parse_laws` that parsing keeps exactly the
//! commands of the source, and `reach` that the cell analysis bounds what a
//! run reaches. `shell` says what a finished shell command amounts to.
pub mod bfir;
pub mod bounds;
pub mod cell_scan;
pub mod codegen;
pub mod diagnostics;
pub mod execution;
pub mod idempotence;
pub mod idempotent_passes;
pub mod ir;
pub mod ir_size;
pub mod names;
pub mod optimize;
pub mod optimize_laws;
pub mod parse_laws;
pub mod pass_names;
pub mod peephole;
pub mod peephole_laws;
pub mod prototype;
pub mod reach;
pub mod shell;
pub mod size;
pub mod soundness;
pub mod soundness_annotate;
pub mod soundness_clobber;
pub mod soundness_filters;
pub mod soundness_multiply;
pub mod soundness_optimize;
pub mod soundness_sort;
