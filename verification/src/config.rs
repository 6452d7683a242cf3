//! The application's settings, as read from `config.toml`.  These are the
//! integer and text settings; the floating-point ones (stroke weights,
//! durations) are read and kept by the application.

use vstd::prelude::*;

verus! {

/// Size and quality of the texture the grids are drawn into.
pub struct RenderConfig {
    pub texture_width: u32,
    pub texture_height: u32,
    pub texture_samples: u32,
    pub arc_resolution: u32,
}

/// Size of the window.
pub struct WindowConfig {
    pub width: u32,
    pub height: u32,
}

/// Frame output limits.
pub struct OutputConfig {
    pub frame_limit: u32,
    pub jpeg_quality: u8,
}

/// Frame recorder limits.
pub struct FrameRecorderConfig {
    pub frame_limit: u32,
    pub jpeg_quality: u8,
}

/// Tempo.
pub struct SpeedConfig {
    pub bpm: u32,
}

/// Where the project file is read and the frames are written.
pub struct PathConfig {
    pub project_file: String,
    pub output_directory: String,
}

/// The port OSC commands arrive on.
pub struct OscConfig {
    pub rx_port: u16,
}

/// Kinds of change made to the running application.
pub enum EventType {
    GlyphChange(String),
    TransitionTrigger,
    GridTransform,
    ParameterUpdate,
}

} // verus!
