use vstd::prelude::*;

pub mod activity;
pub mod config;
pub mod icon;
pub mod placement;
pub mod quota;
pub mod renewal;
pub mod statusline;
pub mod text;
pub mod usage;

verus! {

} // verus!
