//! Logic of the LX Audiolabs plugins.

use vstd::prelude::*;

pub mod aether;
pub mod aether_vault;
pub mod autoeq;
pub mod document;
pub mod editor;
pub mod equilibrium;
pub mod equilibrium_engine;
pub mod equilibrium_snapshot;
pub mod equilibrium_vault;
pub mod hold;
pub mod lucent_engine;
pub mod lucent_snapshot;
pub mod masking;
pub mod meridian_engine;
pub mod meridian_preset;
pub mod number;
pub mod peaks;
pub mod path;
pub mod pending;
pub mod registry;
pub mod relay;
pub mod relay_state;
pub mod resonance;
pub mod ring;
pub mod single;
pub mod snap;
pub mod snapshot;
pub mod text;
pub mod vault;

verus! {

} // verus!
