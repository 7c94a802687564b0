//! Arachne engine core: an archetype entity store, its frame schedule
//! and scheduling helpers, asset containers and formats (bundles, PNG images, atlases,
//! OBJ faces, JSON), and audio (WAV, the mixer's channel table, output
//! backends), with their behaviour stated and proved in Verus.

use vstd::prelude::*;

pub mod animation;
pub mod asset;
pub mod audio;
pub mod ecs;
pub mod text;

verus! {

} // verus!
