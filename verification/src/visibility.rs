//! Which layers and views are visible for the current settings.

use vstd::prelude::*;
use crate::resources::{RenderMode, ViewKind, ViewMode};

verus! {

/// Contour lines are shown only in the final view, when enabled.
pub fn contours_visible(render_mode: &RenderMode, view_mode: &ViewMode) -> (show: bool)
    ensures
        show == (render_mode.show_contours && view_mode.kind == ViewKind::Final),
{
    render_mode.show_contours && view_mode.kind == ViewKind::Final
}

/// Rivers are shown only in the final view, when enabled.
pub fn rivers_visible(render_mode: &RenderMode, view_mode: &ViewMode) -> (show: bool)
    ensures
        show == (render_mode.show_rivers && view_mode.kind == ViewKind::Final),
{
    render_mode.show_rivers && view_mode.kind == ViewKind::Final
}

/// The final background image is shown in the final view when the terrain
/// layer is enabled.
pub fn background_visible(render_mode: &RenderMode, view_mode: &ViewMode) -> (show: bool)
    ensures
        show == (render_mode.show_3d && view_mode.kind == ViewKind::Final),
{
    render_mode.show_3d && view_mode.kind == ViewKind::Final
}

/// An intermediate-view image is shown when its kind is the active view and
/// the terrain layer is enabled.
pub fn view_sprite_visible(render_mode: &RenderMode, view_mode: &ViewMode, kind: ViewKind) -> (show:
    bool)
    ensures
        show == (render_mode.show_3d && kind == view_mode.kind),
{
    render_mode.show_3d && kind == view_mode.kind
}

/// Only one terrain image is visible at a time, and none when the terrain
/// layer is off: two visible intermediate views are of the same kind, an
/// intermediate view is never visible beside the background unless it is
/// the final view itself, and with `show_3d` off nothing is visible.
pub proof fn lemma_one_view_visible(
    render_mode: RenderMode,
    view_mode: ViewMode,
    k1: ViewKind,
    k2: ViewKind,
)
    ensures
        (render_mode.show_3d && k1 == view_mode.kind) && (render_mode.show_3d && k2
            == view_mode.kind) ==> k1 == k2,
        (render_mode.show_3d && view_mode.kind == ViewKind::Final) && (render_mode.show_3d && k1
            == view_mode.kind) ==> k1 == ViewKind::Final,
        !render_mode.show_3d ==> !(render_mode.show_3d && view_mode.kind == ViewKind::Final) && !(
        render_mode.show_3d && k1 == view_mode.kind),
{
}

} // verus!
