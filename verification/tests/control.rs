use simple_hydrology::control::{Command, ErosionAction, SimControl};
use simple_hydrology::render::{OverlayMode, ViewMode};

#[test]
fn starts_paused_in_terrain_view() {
    let s = SimControl::new(1000, true);
    assert!(s.paused);
    assert_eq!(s.view_mode, ViewMode::Terrain);
    assert_eq!(s.view_overlay, OverlayMode::Off);
    assert_eq!(s.frame_count, 0);
    assert!(!s.finished);
}

#[test]
fn keys_change_view_and_overlay() {
    let mut s = SimControl::new(1000, true);
    assert!(s.apply(Command::GrayscaleView, false));
    assert_eq!(s.view_mode, ViewMode::Grayscale);
    s.apply(Command::TerrainView, false);
    assert_eq!(s.view_mode, ViewMode::Terrain);
    s.apply(Command::ToggleDischarge, false);
    assert_eq!(s.view_overlay, OverlayMode::Discharge);
    s.apply(Command::ToggleMomentum, false);
    assert_eq!(s.view_overlay, OverlayMode::Momentum);
    s.apply(Command::ToggleMomentum, false);
    assert_eq!(s.view_overlay, OverlayMode::Off);
    s.apply(Command::ToggleDischarge, true);
    assert_eq!(s.view_overlay, OverlayMode::Discharge);
    s.apply(Command::ClearOverlay, false);
    assert_eq!(s.view_overlay, OverlayMode::Off);
}

#[test]
fn pause_and_mode_refused_during_background_run() {
    let mut s = SimControl::new(1000, false);
    assert!(!s.apply(Command::TogglePause, true));
    assert!(s.paused);
    assert!(!s.apply(Command::TogglePreview, true));
    assert!(!s.live_preview);
    assert!(s.apply(Command::TogglePause, false));
    assert!(!s.paused);
}

#[test]
fn switching_to_fast_mode_clears_finished() {
    let mut s = SimControl::new(2, true);
    s.burst_done();
    assert!(s.finished);
    s.apply(Command::TogglePreview, false);
    assert!(!s.live_preview);
    assert!(!s.finished);
    s.apply(Command::TogglePreview, false);
    assert!(s.live_preview);
}

#[test]
fn erosion_actions() {
    let mut s = SimControl::new(10, true);
    assert_eq!(s.erosion_action(true, false), ErosionAction::PollBurst);
    assert_eq!(s.erosion_action(false, true), ErosionAction::Idle);
    s.apply(Command::TogglePause, false);
    assert_eq!(s.erosion_action(false, true), ErosionAction::LiveStep);
    s.apply(Command::TogglePreview, false);
    assert_eq!(s.erosion_action(false, true), ErosionAction::StartBurst(10));
    assert_eq!(s.erosion_action(false, false), ErosionAction::Idle);
    s.frame_count = 12;
    assert_eq!(s.erosion_action(false, true), ErosionAction::StartBurst(0));
}

#[test]
fn live_steps_stop_at_target() {
    let mut s = SimControl::new(2, true);
    s.paused = false;
    assert!(!s.live_step_done());
    assert_eq!(s.frame_count, 1);
    assert!(!s.paused);
    assert!(s.live_step_done());
    assert_eq!(s.frame_count, 2);
    assert!(s.paused && s.finished);
}

#[test]
fn background_run_finishes_all_steps() {
    let mut s = SimControl::new(500, false);
    s.frame_count = 123;
    s.burst_done();
    assert_eq!(s.frame_count, 500);
    assert!(s.paused && s.finished);
}
