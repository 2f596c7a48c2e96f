//! Verified core of a scene-viewer application: normalization of freshly
//! streamed-in asset scene graphs (material convention fix, removal of
//! asset-embedded lights and cameras), a deterministic camera benchmark
//! state machine, and the keyboard-to-camera input router.
//!
//! The surrounding engine (windowing, rendering, asset decoding) supplies
//! the entity hierarchy and the per-frame inputs; this crate holds the
//! decisions and mutations that are worth proving.

pub mod bench;
pub mod camera;
pub mod scene;
