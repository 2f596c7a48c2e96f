//! Benchmark state machine and input router behaviour.

use scene_bench::bench::{benchmark, frames_per_step, BenchState};
use scene_bench::camera::{input, preset_pose, teleport, Pose, Preset};

const DELTA_60FPS_US: u32 = 16_667;

#[test]
fn frames_per_step_spans_two_seconds() {
    // 1/60 s frame delta: two seconds is 120 frames.
    assert_eq!(frames_per_step(DELTA_60FPS_US), 120);
    assert_eq!(frames_per_step(16_666), 120);
    // 1/30 s frame delta: 60 frames.
    assert_eq!(frames_per_step(33_333), 60);
}

#[test]
fn frames_per_step_floors_at_thirty() {
    // A 200 ms frame delta would give only 10 frames for two seconds;
    // the floor keeps the sample stable.
    assert_eq!(frames_per_step(200_000), 30);
    assert_eq!(frames_per_step(1_000_000), 30);
}

#[test]
fn full_benchmark_run_at_sixty_fps() {
    let mut st = BenchState::Idle;
    let mut cam = Pose { x: 0, y: 0, z: 0, qx: 0, qy: 0, qz: 0, qw: 0 };
    let mut now: u64 = 1_000_000;

    // Frame 0: trigger. The run starts with 120 frames per step and the
    // camera goes to preset 1.
    let out = benchmark(&mut st, true, true, now, DELTA_60FPS_US);
    assert_eq!(out.started, Some(120));
    assert_eq!(out.goto, Some(Preset::One));
    if let Some(p) = out.goto {
        teleport(&mut cam, p);
    }
    assert_eq!(cam, preset_pose(Preset::One));

    let mut finished = false;
    for frame in 1..=360u32 {
        now += DELTA_60FPS_US as u64;
        let out = benchmark(&mut st, false, true, now, DELTA_60FPS_US);
        if let Some(p) = out.goto {
            teleport(&mut cam, p);
        }
        match frame {
            120 => {
                assert_eq!(out.goto, Some(Preset::Two));
                assert_eq!(cam, preset_pose(Preset::Two));
            }
            240 => {
                assert_eq!(out.goto, Some(Preset::Three));
                assert_eq!(cam, preset_pose(Preset::Three));
            }
            360 => {
                assert_eq!(out.goto, Some(Preset::One));
                assert_eq!(cam, preset_pose(Preset::One));
                let avg = out.average_us.expect("a finished run reports its average");
                // 360 frames of 16_667 us each.
                assert_eq!(avg, 16_667);
                assert_eq!(st, BenchState::Idle);
                finished = true;
            }
            _ => {
                assert_eq!(out.goto, None, "no teleport between boundaries (frame {frame})");
                assert_eq!(out.average_us, None);
            }
        }
    }
    assert!(finished);
}

#[test]
fn retrigger_while_running_is_ignored() {
    let mut st = BenchState::Idle;
    let mut now: u64 = 0;
    benchmark(&mut st, true, true, now, DELTA_60FPS_US);

    // Two copies of the running state, stepped with and without the
    // trigger key held: identical outcomes.
    let mut with_trigger = st;
    let mut without_trigger = st;
    for _ in 0..5 {
        now += DELTA_60FPS_US as u64;
        let a = benchmark(&mut with_trigger, true, true, now, DELTA_60FPS_US);
        let b = benchmark(&mut without_trigger, false, true, now, DELTA_60FPS_US);
        assert_eq!(a, b);
        assert_eq!(with_trigger, without_trigger);
    }
    match with_trigger {
        BenchState::Running { started_at_us, current_frame, frames_per_step } => {
            assert_eq!(started_at_us, 0, "start time unchanged by re-trigger");
            assert_eq!(current_frame, 6);
            assert_eq!(frames_per_step, 120);
        }
        BenchState::Idle => panic!("the run must still be in progress"),
    }
}

#[test]
fn missing_camera_stalls_the_frame_counter() {
    let mut st = BenchState::Idle;
    // Trigger with no camera: the run still starts...
    let out = benchmark(&mut st, true, false, 50, DELTA_60FPS_US);
    assert_eq!(out.started, Some(120));
    assert_eq!(out.goto, None);
    // ...but frames do not advance until a camera exists.
    let out = benchmark(&mut st, false, false, 100, DELTA_60FPS_US);
    assert_eq!(out.goto, None);
    assert_eq!(
        st,
        BenchState::Running { started_at_us: 50, current_frame: 0, frames_per_step: 120 }
    );
    // Once the camera appears, frame 0 sends it to preset 1.
    let out = benchmark(&mut st, false, true, 150, DELTA_60FPS_US);
    assert_eq!(out.goto, Some(Preset::One));
}

#[test]
fn trigger_while_idle_only() {
    let mut st = BenchState::Idle;
    let out = benchmark(&mut st, false, true, 0, DELTA_60FPS_US);
    assert_eq!(out.started, None);
    assert_eq!(out.goto, None);
    assert_eq!(st, BenchState::Idle);
}

#[test]
fn input_teleports_to_presets() {
    let a = input(true, false, true, false, false);
    assert_eq!(a.goto, Some(Preset::One));
    assert!(!a.log);
    let a = input(true, false, false, true, false);
    assert_eq!(a.goto, Some(Preset::Two));
    let a = input(true, false, false, false, true);
    assert_eq!(a.goto, Some(Preset::Three));
    let a = input(true, false, false, false, false);
    assert_eq!(a.goto, None);
}

#[test]
fn input_highest_preset_key_wins() {
    // Several keys in one frame: the last write (highest preset) wins.
    let a = input(true, false, true, true, true);
    assert_eq!(a.goto, Some(Preset::Three));
    let a = input(true, false, true, true, false);
    assert_eq!(a.goto, Some(Preset::Two));
}

#[test]
fn input_logs_pose_on_request() {
    let a = input(true, true, false, false, false);
    assert!(a.log);
    assert_eq!(a.goto, None);
}

#[test]
fn input_does_nothing_without_camera() {
    let a = input(false, true, true, true, true);
    assert!(!a.log);
    assert_eq!(a.goto, None);
}

#[test]
fn presets_are_distinct_authored_poses() {
    let p1 = preset_pose(Preset::One);
    let p2 = preset_pose(Preset::Two);
    let p3 = preset_pose(Preset::Three);
    assert_ne!(p1, p2);
    assert_ne!(p2, p3);
    assert_ne!(p1, p3);
    // The initial host camera pose is preset 1's position.
    assert_eq!(p1.x, -10_500_000);
    assert_eq!(p1.y, 1_700_000);
    assert_eq!(p1.z, -1_000_000);
}

#[test]
fn frames_per_step_handles_extreme_deltas() {
    // Fastest representable frame: two seconds is two million frames.
    assert_eq!(frames_per_step(1), 2_000_000);
    // Absurdly slow frame: still 30 frames per step.
    assert_eq!(frames_per_step(u32::MAX), 30);
}
