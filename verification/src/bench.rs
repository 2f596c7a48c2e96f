//! The deterministic camera benchmark state machine.
//!
//! On a trigger key press while idle, the controller records the start
//! time, derives how many frames to dwell at each viewpoint from the
//! current frame delta (about two seconds of frames, never fewer than 30),
//! and then drives the camera through the three presets at fixed frame
//! boundaries. When the last boundary is reached it reports the average
//! per-frame CPU cost and returns to idle. Re-triggering while a run is in
//! progress is ignored.
//!
//! Time is carried as integer microseconds measured from one fixed origin;
//! the caller reads the clock and the frame delta and hands both in, so
//! every decision made here is a pure function of its arguments.

use crate::camera::Preset;
use vstd::prelude::*;

verus! {

/// Benchmark controller state: idle, or mid-run with the start timestamp,
/// the number of frames rendered so far, and the dwell length per step.
#[derive(Clone, Copy, Debug, PartialEq, Eq, Structural)]
pub enum BenchState {
    Idle,
    Running { started_at_us: u64, current_frame: u32, frames_per_step: u32 },
}

/// What one benchmark frame asks of the rest of the update step: an
/// optional camera teleport, the dwell length announced when a run begins,
/// and the average per-frame cost (microseconds) reported when one ends.
#[derive(Clone, Copy, Debug, PartialEq, Eq)]
pub struct BenchOutcome {
    pub goto: Option<Preset>,
    pub started: Option<u32>,
    pub average_us: Option<u64>,
}

/// Dwell length per viewpoint: enough frames to span about two seconds at
/// the given frame delta (rounded to the nearest frame count), floored at
/// 30 so extremely high frame rates still produce a stable sample.
pub open spec fn spec_frames_per_step(delta_us: int) -> int {
    let raw = (4_000_000 + delta_us) / (2 * delta_us);
    if raw < 30 {
        30
    } else {
        raw
    }
}

/// Validity of a controller state: a run always dwells at least 30 and at
/// most 2_000_000 frames per step, and the frame counter never passes the
/// final step boundary.
pub open spec fn bench_inv(st: BenchState) -> bool {
    match st {
        BenchState::Idle => true,
        BenchState::Running { started_at_us, current_frame, frames_per_step } => 30
            <= frames_per_step <= 2_000_000 && current_frame <= 3 * frames_per_step,
    }
}

/// The transition function of the controller, stated as mathematics: from
/// the previous state, whether the trigger key was pressed this frame,
/// whether a unique host camera exists, the clock reading and the frame
/// delta, to the next state and the frame's outcome.
pub open spec fn spec_benchmark(
    st: BenchState,
    trigger: bool,
    camera_present: bool,
    now_us: u64,
    delta_us: u32,
) -> (BenchState, BenchOutcome) {
    let starting = trigger && st is Idle;
    let st1 = if starting {
        BenchState::Running {
            started_at_us: now_us,
            current_frame: 0,
            frames_per_step: spec_frames_per_step(delta_us as int) as u32,
        }
    } else {
        st
    };
    let started = if starting {
        Some(spec_frames_per_step(delta_us as int) as u32)
    } else {
        None::<u32>
    };
    match st1 {
        BenchState::Idle => (
            st1,
            BenchOutcome { goto: None, started: None, average_us: None },
        ),
        BenchState::Running { started_at_us, current_frame, frames_per_step } => {
            if !camera_present {
                (st1, BenchOutcome { goto: None, started, average_us: None })
            } else if current_frame == 0 {
                (
                    BenchState::Running { started_at_us, current_frame: 1, frames_per_step },
                    BenchOutcome { goto: Some(Preset::One), started, average_us: None },
                )
            } else if current_frame == frames_per_step {
                (
                    BenchState::Running {
                        started_at_us,
                        current_frame: (current_frame + 1) as u32,
                        frames_per_step,
                    },
                    BenchOutcome { goto: Some(Preset::Two), started, average_us: None },
                )
            } else if current_frame == 2 * frames_per_step {
                (
                    BenchState::Running {
                        started_at_us,
                        current_frame: (current_frame + 1) as u32,
                        frames_per_step,
                    },
                    BenchOutcome { goto: Some(Preset::Three), started, average_us: None },
                )
            } else if current_frame == 3 * frames_per_step {
                (
                    BenchState::Idle,
                    BenchOutcome {
                        goto: Some(Preset::One),
                        started,
                        average_us: Some(
                            (((now_us - started_at_us) as int) / (current_frame as int)) as u64,
                        ),
                    },
                )
            } else {
                (
                    BenchState::Running {
                        started_at_us,
                        current_frame: (current_frame + 1) as u32,
                        frames_per_step,
                    },
                    BenchOutcome { goto: None, started, average_us: None },
                )
            }
        },
    }
}

/// Computes the dwell length per viewpoint for the given frame delta.
pub fn frames_per_step(delta_us: u32) -> (r: u32)
    requires
        delta_us >= 1,
    ensures
        r == spec_frames_per_step(delta_us as int),
        30 <= r <= 2_000_000,
{
    let num: u64 = 4_000_000u64 + delta_us as u64;
    let den: u64 = 2u64 * delta_us as u64;
    let raw: u64 = num / den;
    assert(raw <= 2_000_000) by {
        assert(num / den <= 2_000_000) by (nonlinear_arith)
            requires
                num == 4_000_000 + delta_us,
                den == 2 * delta_us,
                delta_us >= 1,
        ;
    };
    let raw32: u32 = raw as u32;
    if raw32 < 30 {
        30
    } else {
        raw32
    }
}

/// One frame of the benchmark controller. Mirrors `spec_benchmark`
/// exactly; see that function for the transition rules.
pub fn benchmark(
    st: &mut BenchState,
    trigger: bool,
    camera_present: bool,
    now_us: u64,
    delta_us: u32,
) -> (outcome: BenchOutcome)
    requires
        bench_inv(*old(st)),
        delta_us >= 1,
        *old(st) matches BenchState::Running { started_at_us, .. } ==> started_at_us <= now_us,
    ensures
        (*final(st), outcome) == spec_benchmark(*old(st), trigger, camera_present, now_us, delta_us),
        bench_inv(*final(st)),
{
    let mut started: Option<u32> = None;
    if trigger && matches!(*st, BenchState::Idle) {
        let fps = frames_per_step(delta_us);
        *st = BenchState::Running { started_at_us: now_us, current_frame: 0, frames_per_step: fps };
        started = Some(fps);
    }
    match *st {
        BenchState::Idle => BenchOutcome { goto: None, started: None, average_us: None },
        BenchState::Running { started_at_us, current_frame, frames_per_step } => {
            if !camera_present {
                BenchOutcome { goto: None, started, average_us: None }
            } else if current_frame == 0 {
                *st = BenchState::Running { started_at_us, current_frame: 1, frames_per_step };
                BenchOutcome { goto: Some(Preset::One), started, average_us: None }
            } else if current_frame == frames_per_step {
                *st = BenchState::Running {
                    started_at_us,
                    current_frame: current_frame + 1,
                    frames_per_step,
                };
                BenchOutcome { goto: Some(Preset::Two), started, average_us: None }
            } else if current_frame == 2 * frames_per_step {
                *st = BenchState::Running {
                    started_at_us,
                    current_frame: current_frame + 1,
                    frames_per_step,
                };
                BenchOutcome { goto: Some(Preset::Three), started, average_us: None }
            } else if current_frame == 3 * frames_per_step {
                let elapsed_us: u64 = now_us - started_at_us;
                let average_us: u64 = elapsed_us / current_frame as u64;
                *st = BenchState::Idle;
                BenchOutcome { goto: Some(Preset::One), started, average_us: Some(average_us) }
            } else {
                *st = BenchState::Running {
                    started_at_us,
                    current_frame: current_frame + 1,
                    frames_per_step,
                };
                BenchOutcome { goto: None, started, average_us: None }
            }
        },
    }
}

/// Re-triggering the benchmark while a run is in progress is ignored: with
/// the controller mid-run, a frame with the trigger key pressed behaves
/// exactly like one without it, so the start time, frame counter and dwell
/// length are unaffected by the press.
pub proof fn lemma_retrigger_ignored(
    st: BenchState,
    camera_present: bool,
    now_us: u64,
    delta_us: u32,
)
    requires
        st is Running,
    ensures
        spec_benchmark(st, true, camera_present, now_us, delta_us) == spec_benchmark(
            st,
            false,
            camera_present,
            now_us,
            delta_us,
        ),
{
}

} // verus!
