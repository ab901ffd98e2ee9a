//! Backend data-provider for a desktop-shell UI.
//!
//! The library holds the verified core: interpretation of external tool
//! output, backend-fallback orchestration, a freshness-bounded telemetry
//! cache, hierarchical icon lookup, and the desktop-entry catalog.
//! Reading files, spawning tools and the UI wiring live outside it; they
//! hand the library plain values and take plain values back.

use vstd::prelude::*;

pub mod audio;
pub mod catalog;
pub mod cache;
pub mod chain;
pub mod files;
pub mod host;
pub mod icons;
pub mod media;
pub mod network;
pub mod probe;
pub mod sort;
pub mod text;

verus! {

/// A volume request is capped at this percentage before it is handed to
/// any audio backend; the lower bound is not clamped (zero is valid).
pub const MAX_VOLUME_PERCENT: u32 = 150;

/// Clamp a requested volume to the range the audio backends accept.
pub fn clamp_volume(requested: u32) -> (clamped: u32)
    ensures
        clamped == if requested > MAX_VOLUME_PERCENT {
            MAX_VOLUME_PERCENT as int
        } else {
            requested as int
        },
        clamped <= MAX_VOLUME_PERCENT,
{
    if requested > MAX_VOLUME_PERCENT {
        MAX_VOLUME_PERCENT
    } else {
        requested
    }
}

} // verus!
