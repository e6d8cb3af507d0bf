//! Spatial correspondence between a regular longitude/latitude grid and a set
//! of named polygonal regions, and streaming per-region min/max aggregation of
//! gridded variables.
//!
//! The crate verifies the decision and arithmetic logic of both pipeline
//! stages: candidate selection and assignment decisions of the index builder,
//! the assignment-file line format and its loader, and the chunked extrema
//! computation of the aggregation engine.  File readers, threads and the
//! floating-point geometry predicates live outside the library and hand it
//! plain values.

pub mod codec;
pub mod dump;
pub mod geom;
pub mod index;
pub mod store;
