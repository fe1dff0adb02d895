//! Algebra of half-open integer spans: canonical disjoint span sets with
//! union, intersection, overlap thresholding and gap coalescing.
//!
//! The ordered domain is fixed to `i64`, which carries timestamps and
//! coordinates alike; contracts over a caller-supplied ordered type would
//! have to rest on derived comparison impls that the verifier does not read.
//!
//! Under half-open semantics an end meeting a start is no overlap, so a
//! canonical span set may hold touching spans (`end == next start`): sets are
//! kept pairwise disjoint as point sets, with `end <= next start`, never
//! fused across a touching boundary.

pub mod span;
pub mod mergeiter;
pub mod points;
pub mod vecspet;
pub mod overlapping;
