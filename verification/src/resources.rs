//! Display settings shared between the user interface and the renderer.

use vstd::prelude::*;

verus! {

/// Which render layers are visible.
pub struct RenderMode {
    pub show_3d: bool,
    pub show_contours: bool,
    pub show_rivers: bool,
}

impl Default for RenderMode {
    /// Every layer visible.
    fn default() -> (r: Self)
        ensures
            r.show_3d,
            r.show_contours,
            r.show_rivers,
    {
        Self { show_3d: true, show_contours: true, show_rivers: true }
    }
}

/// Which intermediate or final view is shown.
#[derive(Clone, Copy, PartialEq, Eq, Structural, Debug, Hash)]
pub enum ViewKind {
    Final,
    DrainageField,
    CompressedNorm,
    ProcessedNoise,
    InitialNoise,
}

/// The active view.
pub struct ViewMode {
    pub kind: ViewKind,
}

impl Default for ViewMode {
    /// The final, eroded terrain.
    fn default() -> (r: Self)
        ensures
            r.kind == ViewKind::Final,
    {
        Self { kind: ViewKind::Final }
    }
}

/// Set to request a terrain regeneration.
pub struct RegenerateRequest(pub bool);

impl Default for RegenerateRequest {
    /// No regeneration requested.
    fn default() -> (r: Self)
        ensures
            !r.0,
    {
        Self(false)
    }
}

} // verus!
