//! Public API surface extraction over a resolved namespace tree.
//!
//! A [`DefStore`] holds definitions addressed by index; [`extract_surface`]
//! walks it from a set of module roots and collects every definition that is
//! reachable through a chain of public containers into a [`SurfaceMap`].
use vstd::prelude::*;

pub mod model;
pub mod surface_map;
pub mod walk;
pub mod interface;
pub mod laws;

pub use model::{is_public, DefKind, DefStore, Definition, Violation, Visibility};
pub use surface_map::{SurfaceEntry, SurfaceMap};
pub use walk::extract_surface;
pub use interface::{CompilerInterface, CrateCandidate, Introduction};
