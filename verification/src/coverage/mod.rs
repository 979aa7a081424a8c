//! The spec-coverage engine: claims from test code and classification
//! from per-page sidecars resolve into one state per block of every
//! measured page.

pub mod model;
pub mod sidecar;
pub mod resolve;
pub mod rollup;
pub mod legacy;
pub mod report;
pub mod codecov;
pub mod laws;
pub mod claims;
