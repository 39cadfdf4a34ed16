//! Scene-hook protocol: attach a callback to an in-flight scene load and run
//! it exactly once per entity once the load has fully materialized, with an
//! optional reload/teardown state machine on top.
//!
//! The library models the two collaborators the protocol talks to — the
//! entity store (`world`) and the asset-instance registry (`registry`) — as
//! plain data with exact contracts, so the dispatch and reload logic can be
//! verified end to end. A host adapter drives the same logic against a real
//! engine.

pub mod hook;
pub mod reload;
pub mod registry;
pub mod world;

use vstd::prelude::*;

use crate::world::{Store, spec_scene_hooked};

verus! {

/// Convenience gate: whether any scene carrying the marker component has
/// been loaded and its hook has run. Downstream systems poll this before
/// touching what the hook set up.
pub struct HookedSceneState {
    /// The marker component that singles the scene's carrier out.
    pub marker: u64,
}

impl HookedSceneState {
    /// Whether some entity carries the marker and is tagged hooked.
    pub fn is_loaded(&self, store: &Store) -> (r: bool)
        ensures
            r == spec_scene_hooked(store@, self.marker),
    {
        store.any_hooked_with(self.marker)
    }
}

/// Whether a scene marked with `marker` has been loaded and its hook ran.
pub fn is_scene_hooked(marker: u64, store: &Store) -> (r: bool)
    ensures
        r == spec_scene_hooked(store@, marker),
{
    let state = HookedSceneState { marker };
    state.is_loaded(store)
}

} // verus!
