//! Camera poses, the three fixed viewpoint presets, and the per-frame
//! keyboard input router.
//!
//! A pose is stored in fixed-point micro-units (one unit = 1e-6 of the
//! engine's world unit): a translation vector and an orientation
//! quaternion. The presets are immutable authored values; nothing in the
//! library computes on the coordinates, it only selects and assigns them.

use vstd::prelude::*;

verus! {

/// A camera pose: translation (x, y, z) and orientation quaternion
/// (qx, qy, qz, qw), all in fixed-point micro-units.
#[derive(Clone, Copy, Debug, PartialEq, Eq, Structural)]
pub struct Pose {
    pub x: i64,
    pub y: i64,
    pub z: i64,
    pub qx: i64,
    pub qy: i64,
    pub qz: i64,
    pub qw: i64,
}

/// One of the three statically authored camera viewpoints.
#[derive(Clone, Copy, Debug, PartialEq, Eq, Structural)]
pub enum Preset {
    One,
    Two,
    Three,
}

/// The authored pose of each preset.
pub open spec fn spec_preset_pose(p: Preset) -> Pose {
    match p {
        Preset::One => Pose {
            x: -10_500_000i64,
            y: 1_700_000i64,
            z: -1_000_000i64,
            qx: -56_789i64,
            qy: 737_227i64,
            qz: -62_455i64,
            qw: -670_351i64,
        },
        Preset::Two => Pose {
            x: 11_901_049i64,
            y: 6_906_011i64,
            z: -4_561_092i64,
            qx: -6_663i64,
            qy: -866_181i64,
            qz: 11_553i64,
            qw: -499_552i64,
        },
        Preset::Three => Pose {
            x: 19_087_378i64,
            y: 1_491_303i64,
            z: -2_734_924i64,
            qx: 17_712i64,
            qy: 788_991i64,
            qz: -22_770i64,
            qw: 613_727i64,
        },
    }
}

/// Returns the authored pose of a preset.
pub fn preset_pose(p: Preset) -> (r: Pose)
    ensures
        r == spec_preset_pose(p),
{
    match p {
        Preset::One => Pose {
            x: -10_500_000,
            y: 1_700_000,
            z: -1_000_000,
            qx: -56_789,
            qy: 737_227,
            qz: -62_455,
            qw: -670_351,
        },
        Preset::Two => Pose {
            x: 11_901_049,
            y: 6_906_011,
            z: -4_561_092,
            qx: -6_663,
            qy: -866_181,
            qz: 11_553,
            qw: -499_552,
        },
        Preset::Three => Pose {
            x: 19_087_378,
            y: 1_491_303,
            z: -2_734_924,
            qx: 17_712,
            qy: 788_991,
            qz: -22_770,
            qw: 613_727,
        },
    }
}

/// Sets the camera pose to the given preset's pose.
pub fn teleport(cam: &mut Pose, p: Preset)
    ensures
        *final(cam) == spec_preset_pose(p),
{
    *cam = preset_pose(p);
}

/// What the input router asks of the rest of the frame: whether to log the
/// current camera pose, and which preset (if any) to teleport to.
#[derive(Clone, Copy, Debug, PartialEq, Eq)]
pub struct InputAction {
    pub log: bool,
    pub goto: Option<Preset>,
}

/// Per-frame input routing: maps the edge-triggered key presses of one
/// frame to a camera action. When no unique camera exists the router does
/// nothing (fail-soft). When several preset keys are pressed in the same
/// frame the highest-numbered preset wins, mirroring last-writer-wins
/// assignment order.
pub fn input(
    camera_present: bool,
    log_key: bool,
    key1: bool,
    key2: bool,
    key3: bool,
) -> (a: InputAction)
    ensures
        a.log == (camera_present && log_key),
        a.goto == (if !camera_present {
            Option::<Preset>::None
        } else if key3 {
            Some(Preset::Three)
        } else if key2 {
            Some(Preset::Two)
        } else if key1 {
            Some(Preset::One)
        } else {
            None
        }),
{
    if !camera_present {
        return InputAction { log: false, goto: None };
    }
    let mut goto: Option<Preset> = None;
    if key1 {
        goto = Some(Preset::One);
    }
    if key2 {
        goto = Some(Preset::Two);
    }
    if key3 {
        goto = Some(Preset::Three);
    }
    InputAction { log: log_key, goto }
}

} // verus!
