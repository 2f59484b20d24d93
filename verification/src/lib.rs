//! Windowed sparse containers over unsigned integer keys.
//!
//! Two containers share one storage discipline, a contiguous backing window
//! of slots addressed by key: [`USet`], a presence-only bitmap set, and
//! [`UMap`], a value-carrying sparse map with a sliding base offset.  Both
//! trade memory for constant-time membership and support positional (rank)
//! access and the usual set algebra computed directly over the windows.

pub mod umap;
pub mod uset;

pub use umap::UMap;
pub use umap::UMapIter;
pub use uset::USet;
pub use uset::USetIter;

use vstd::prelude::*;

verus! {

/// Error raised when accommodating a key would require a window whose
/// size cannot be represented: arithmetic on `key + 1` would wrap.
#[derive(Clone, Copy, PartialEq, Eq, Structural, Debug)]
pub struct CapacityOverflow;

} // verus!
