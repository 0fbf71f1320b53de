//! Decisions of the interactive simulation: how key presses change the
//! view and run state, and what the erosion step does each frame.
//!
//! The application performs the actions (running erosion, spawning and
//! polling the background run) and reports the events back.

use vstd::prelude::*;
use crate::render::{toggled, toggle_overlay, OverlayMode, ViewMode};

verus! {

/// A key command of the simulation window.
#[derive(Clone, Copy, PartialEq, Eq, Structural, Debug)]
pub enum Command {
    /// P: pause or resume.
    TogglePause,
    /// B: hillshaded terrain view.
    TerrainView,
    /// G: grayscale height view.
    GrayscaleView,
    /// M: discharge overlay on or off.
    ToggleDischarge,
    /// N: momentum overlay on or off.
    ToggleMomentum,
    /// Escape: no overlay.
    ClearOverlay,
    /// R: live preview or fast background run.
    TogglePreview,
}

/// What the erosion step does this frame.
#[derive(Clone, Copy, PartialEq, Eq, Structural, Debug)]
pub enum ErosionAction {
    /// A background run is in progress: only poll it.
    PollBurst,
    /// Nothing to do (paused, or the world is away).
    Idle,
    /// Run one erosion cycle on the main thread.
    LiveStep,
    /// Hand the world to a background run of this many cycles.
    StartBurst(u64),
}

/// Run and view state of the simulation.
#[derive(Clone, Copy, PartialEq, Eq, Structural, Debug)]
pub struct SimControl {
    pub paused: bool,
    pub view_mode: ViewMode,
    pub view_overlay: OverlayMode,
    pub frame_count: u64,
    pub target_steps: u64,
    pub live_preview: bool,
    pub finished: bool,
}

/// The state after a command; while a background run holds the world,
/// pausing and switching modes are refused.
pub open spec fn after_command(s: SimControl, cmd: Command, burst_running: bool) -> SimControl {
    match cmd {
        Command::TogglePause => if burst_running {
            s
        } else {
            SimControl { paused: !s.paused, ..s }
        },
        Command::TerrainView => SimControl { view_mode: ViewMode::Terrain, ..s },
        Command::GrayscaleView => SimControl { view_mode: ViewMode::Grayscale, ..s },
        Command::ToggleDischarge => SimControl {
            view_overlay: toggled(s.view_overlay, OverlayMode::Discharge),
            ..s
        },
        Command::ToggleMomentum => SimControl {
            view_overlay: toggled(s.view_overlay, OverlayMode::Momentum),
            ..s
        },
        Command::ClearOverlay => SimControl { view_overlay: OverlayMode::Off, ..s },
        Command::TogglePreview => if burst_running {
            s
        } else if s.live_preview {
            SimControl { live_preview: false, finished: false, ..s }
        } else {
            SimControl { live_preview: true, ..s }
        },
    }
}

impl SimControl {
    /// A paused simulation at step 0 with the terrain view and no overlay.
    pub fn new(target_steps: u64, live_preview: bool) -> (s: Self)
        ensures
            s.paused,
            s.view_mode == ViewMode::Terrain,
            s.view_overlay == OverlayMode::Off,
            s.frame_count == 0,
            s.target_steps == target_steps,
            s.live_preview == live_preview,
            !s.finished,
    {
        SimControl {
            paused: true,
            view_mode: ViewMode::Terrain,
            view_overlay: OverlayMode::Off,
            frame_count: 0,
            target_steps,
            live_preview,
            finished: false,
        }
    }

    /// Apply a key command.  `burst_running` is whether a background run
    /// currently holds the world.  Returns whether the command took effect.
    pub fn apply(&mut self, cmd: Command, burst_running: bool) -> (done: bool)
        ensures
            *final(self) == after_command(*old(self), cmd, burst_running),
            done == !(burst_running && (cmd == Command::TogglePause || cmd
                == Command::TogglePreview)),
            done ==> (cmd == Command::TogglePause <==> final(self).paused != old(self).paused),
            done ==> (cmd == Command::TogglePreview <==> final(self).live_preview != old(
                self,
            ).live_preview),
            cmd == Command::TerrainView ==> final(self).view_mode == ViewMode::Terrain,
            cmd == Command::GrayscaleView ==> final(self).view_mode == ViewMode::Grayscale,
            cmd == Command::ClearOverlay ==> final(self).view_overlay == OverlayMode::Off,
            final(self).frame_count == old(self).frame_count,
            final(self).target_steps == old(self).target_steps,
    {
        match cmd {
            Command::TogglePause => {
                if burst_running {
                    return false;
                }
                self.paused = !self.paused;
            },
            Command::TerrainView => {
                self.view_mode = ViewMode::Terrain;
            },
            Command::GrayscaleView => {
                self.view_mode = ViewMode::Grayscale;
            },
            Command::ToggleDischarge => {
                self.view_overlay = toggle_overlay(self.view_overlay, OverlayMode::Discharge);
            },
            Command::ToggleMomentum => {
                self.view_overlay = toggle_overlay(self.view_overlay, OverlayMode::Momentum);
            },
            Command::ClearOverlay => {
                self.view_overlay = OverlayMode::Off;
            },
            Command::TogglePreview => {
                if burst_running {
                    return false;
                }
                self.live_preview = !self.live_preview;
                if !self.live_preview {
                    self.finished = false;
                }
            },
        }
        true
    }

    /// What the erosion step does this frame: poll a pending background
    /// run; otherwise nothing while paused; one live cycle in preview mode;
    /// else hand the world, when present, to a background run of the
    /// remaining steps.
    pub fn erosion_action(&self, burst_pending: bool, world_present: bool) -> (a: ErosionAction)
        ensures
            a == if burst_pending {
                ErosionAction::PollBurst
            } else if self.paused {
                ErosionAction::Idle
            } else if self.live_preview {
                ErosionAction::LiveStep
            } else if !world_present {
                ErosionAction::Idle
            } else {
                ErosionAction::StartBurst(
                    if self.target_steps >= self.frame_count {
                        (self.target_steps - self.frame_count) as u64
                    } else {
                        0
                    },
                )
            },
    {
        if burst_pending {
            ErosionAction::PollBurst
        } else if self.paused {
            ErosionAction::Idle
        } else if self.live_preview {
            ErosionAction::LiveStep
        } else if !world_present {
            ErosionAction::Idle
        } else {
            ErosionAction::StartBurst(self.target_steps.saturating_sub(self.frame_count))
        }
    }

    /// Count a live cycle; reaching the target pauses and finishes the run.
    /// Returns whether the target was reached.
    pub fn live_step_done(&mut self) -> (reached: bool)
        requires
            old(self).frame_count < u64::MAX,
        ensures
            final(self).frame_count == old(self).frame_count + 1,
            reached == (final(self).frame_count >= old(self).target_steps),
            final(self).paused == (old(self).paused || reached),
            final(self).finished == (old(self).finished || reached),
            final(self).view_mode == old(self).view_mode,
            final(self).view_overlay == old(self).view_overlay,
            final(self).target_steps == old(self).target_steps,
            final(self).live_preview == old(self).live_preview,
    {
        self.frame_count = self.frame_count + 1;
        if self.frame_count >= self.target_steps {
            self.paused = true;
            self.finished = true;
            true
        } else {
            false
        }
    }

    /// A background run handed the world back: all steps are done and the
    /// simulation is paused and finished.
    pub fn burst_done(&mut self)
        ensures
            final(self).frame_count == old(self).target_steps,
            final(self).paused,
            final(self).finished,
            final(self).view_mode == old(self).view_mode,
            final(self).view_overlay == old(self).view_overlay,
            final(self).target_steps == old(self).target_steps,
            final(self).live_preview == old(self).live_preview,
    {
        self.frame_count = self.target_steps;
        self.paused = true;
        self.finished = true;
    }
}

/// Without a background run, pause and preview are toggles: one press
/// flips the flag, a second press gives the state back; the other commands
/// leave both flags alone.
pub proof fn lemma_toggles_flip(s: SimControl, cmd: Command)
    ensures
        after_command(s, Command::TogglePause, false).paused == !s.paused,
        after_command(after_command(s, Command::TogglePause, false), Command::TogglePause, false)
            == s,
        after_command(s, Command::TogglePreview, false).live_preview == !s.live_preview,
        cmd != Command::TogglePause ==> after_command(s, cmd, false).paused == s.paused,
        cmd != Command::TogglePreview ==> after_command(s, cmd, false).live_preview
            == s.live_preview,
{
}

/// While a background run holds the world, no command changes the run
/// state (pause, mode, step count, finished flag); and no command ever
/// changes the step count or the target.
pub proof fn lemma_commands_keep_run_state(s: SimControl, cmd: Command, burst_running: bool)
    ensures
        after_command(s, cmd, burst_running).frame_count == s.frame_count,
        after_command(s, cmd, burst_running).target_steps == s.target_steps,
        burst_running ==> {
            &&& after_command(s, cmd, burst_running).paused == s.paused
            &&& after_command(s, cmd, burst_running).live_preview == s.live_preview
            &&& after_command(s, cmd, burst_running).finished == s.finished
        },
{
}

} // verus!
