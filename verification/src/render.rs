//! Rendering decisions that do not depend on colour arithmetic.

pub mod gradient;
pub mod lighting;

use vstd::prelude::*;

verus! {

/// How the heightmap is drawn.
#[derive(Clone, Copy, PartialEq, Eq, Structural, Debug)]
pub enum ViewMode {
    /// Hillshaded colour map (the default).
    Terrain,
    /// Raw height as grey levels.
    Grayscale,
}

/// Flow data blended over the heightmap.
#[derive(Clone, Copy, PartialEq, Eq, Structural, Debug)]
pub enum OverlayMode {
    Off,
    /// Blue-white discharge map.
    Discharge,
    /// Red/green momentum map.
    Momentum,
}

/// The overlay after the key for `pressed` is hit: the key turns its own
/// overlay off when it is on, and on (replacing any other) otherwise.
pub open spec fn toggled(current: OverlayMode, pressed: OverlayMode) -> OverlayMode {
    if current == pressed {
        OverlayMode::Off
    } else {
        pressed
    }
}

/// The overlay after the key for `pressed` is hit.
pub fn toggle_overlay(current: OverlayMode, pressed: OverlayMode) -> (next: OverlayMode)
    ensures
        next == toggled(current, pressed),
{
    if current == pressed {
        OverlayMode::Off
    } else {
        pressed
    }
}

/// Overlay keys are mutually exclusive toggles: after a key the overlay is
/// that key's or none, and hitting the same key twice from no overlay comes
/// back to no overlay.
pub proof fn lemma_toggle(current: OverlayMode, pressed: OverlayMode)
    requires
        pressed != OverlayMode::Off,
    ensures
        toggled(current, pressed) == pressed || toggled(current, pressed) == OverlayMode::Off,
        toggled(toggled(OverlayMode::Off, pressed), pressed) == OverlayMode::Off,
        toggled(current, pressed) == OverlayMode::Off <==> current == pressed,
{
}

} // verus!
