//! Passes that make the use of physical pointers in shader modules valid.
//!
//! [`lower_physical_nulls`] does away with null constants of physical pointer types
//! and with addresses that are not 64 bits wide. [`strip_logical_alignment`] gives an
//! alignment to the loads, stores and copies of physical pointers, and takes it off
//! those of logical ones. What holds of a module after them stands in [`lower_laws`]
//! and [`strip_laws`], and what they make of each value and instruction in
//! [`lower_effects`] and [`strip_effects`].

pub mod alignment;
pub mod checks;
pub mod collections;
pub mod context;
pub mod edit;
pub mod ir;
pub mod lists;
pub mod lower_effects;
pub mod lower_laws;
pub mod lower_physical_nulls;
pub mod lowerer;
pub mod lowering;
pub mod memory_access;
pub mod memory_access_laws;
pub mod null_uses;
pub mod places;
pub mod reach;
pub mod rewrite;
pub mod spirv;
pub mod strip_effects;
pub mod strip_laws;
pub mod strip_logical_alignment;
pub mod types;
pub mod use_lowerer;
pub mod well_formed;
pub mod well_known;
