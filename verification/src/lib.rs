use vstd::prelude::*;

pub mod text;
pub mod model;
pub mod coverage;
pub mod search;
pub mod theme;
pub mod aggregate;
pub mod diff;
pub mod render;
pub mod site;
pub mod serve;
pub mod overlay;
pub mod dashboard;

verus! {

} // verus!
