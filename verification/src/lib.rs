//! Verified core of a two-pane file manager: a model of file-system paths,
//! directory listings and their order, size rendering, and the state that each
//! pane and the shared clipboard go through as the user works.
use vstd::prelude::*;

pub mod app;
pub mod fs;
pub mod order;
pub mod pane;
pub mod path;
pub mod text;

verus! {
} // verus!
