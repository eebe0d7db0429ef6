//! Timeline authoring and a region index that answers "which cuts are active
//! at time t" by binary search, together with shading-language attribute
//! parsers, mesh vertex indexing and GPU error types.
pub mod edit;
pub mod gpu;
pub mod index;
pub mod laws;
pub mod model;
pub mod runner;
pub mod ssl;
