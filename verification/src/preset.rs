//! Summary information about an open preset.

use vstd::prelude::*;

verus! {

/// Summary information about a preset.
///
/// A lightweight struct containing only essential preset metadata,
/// useful for listing presets without loading full specifications.
#[derive(Clone, Debug)]
pub struct PresetInfo {
    /// Unique identifier of the preset.
    pub id: String,
    /// User-defined name of the preset, if set.
    pub name: Option<String>,
    /// Whether the preset is currently running.
    pub running: bool,
}

} // verus!
