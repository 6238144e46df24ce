//! Verified core of an ASCII camera: colour quantisation, frame geometry,
//! character rendering, the `.ascicam` recording format, terminal UI strings,
//! the camera's controls and picker, the `ffmpeg` command line and reports,
//! HTML screenshots and the streaming server's request logic.

pub mod text;
pub mod color;
pub mod render;
pub mod recording;
pub mod frame;
pub mod ui;
pub mod capture;
pub mod app;
pub mod serve;
pub mod screenshot;
