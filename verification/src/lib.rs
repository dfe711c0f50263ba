//! Approximate suffix-prefix overlaps and inclusions between sequences.
//!
//! A query sequence is searched backwards through a full-text index of all
//! sequences, under a filter policy that bounds the errors spent so far.
//! Every hit becomes a candidate; a candidate whose exact error count stays
//! within the configured rate becomes a solution in external coordinates.

pub mod filter;
pub mod index;
pub mod prepare;
pub mod search;
pub mod structs;
pub mod useful;
pub mod verification;
