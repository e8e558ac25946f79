//! Verified core of a zero-knowledge checker for Prolog-style policy proofs.
pub mod params;
pub mod field;
pub mod text;
pub mod hashing;
pub mod codec;
pub mod data;
pub mod predicates;
pub mod node;
pub mod guard;
pub mod batch;
pub mod laws;
pub mod templates;
pub mod prolog;
pub mod goal_encoding;
pub mod builtin;
pub mod sig_pairs;
pub mod fact_check;
pub mod dot_exists;
pub mod sig_check;
pub mod rule_rows;
pub mod rows_compress;
pub mod tree_hash;
pub mod circuit_values;
