//! Configuration sections and their default values.

use std::path::PathBuf;
use vstd::prelude::*;

verus! {

/// `std::path::PathBuf`, carried through as an opaque value.
#[verifier::external_type_specification]
#[verifier::external_body]
pub struct ExPathBuf(PathBuf);

/// General settings.
#[derive(Debug, Clone)]
pub struct GeneralConfig {
    /// Target tick rate in Hz.
    pub tick_rate: u32,
    /// Dry-run mode: log actions without sending inputs.
    pub dry_run: bool,
}

/// Model locations and execution settings.
#[derive(Debug)]
pub struct ModelConfig {
    /// Path to the YOLO ONNX model.
    pub yolo_path: PathBuf,
    /// Path to the RepVIT ONNX model.
    pub repvit_path: PathBuf,
    /// Use the CUDA execution provider.
    pub use_cuda: bool,
    /// CUDA device id.
    pub cuda_device_id: i32,
}

/// Capture resolution.
#[derive(Debug, Clone)]
pub struct ScreenConfig {
    /// Capture width.
    pub width: u32,
    /// Capture height.
    pub height: u32,
}

/// Default tick rate: 60 Hz.
pub fn default_tick_rate() -> (r: u32)
    ensures
        r == 60,
{
    60
}

/// Default capture width: 384 pixels.
pub fn default_width() -> (r: u32)
    ensures
        r == 384,
{
    384
}

/// Default capture height: 288 pixels.
pub fn default_height() -> (r: u32)
    ensures
        r == 288,
{
    288
}

/// Default path smoothing method: `"catmull"`.
pub fn default_smooth_method() -> (r: String)
    ensures
        r@ == "catmull"@,
{
    "catmull".to_owned()
}

/// Path smoothing method.
#[derive(Debug, Clone, Copy, PartialEq, Eq, Structural)]
pub enum SmoothMethod {
    /// String pulling through the portals between areas.
    Funnel,
    /// Catmull-Rom interpolation through area centres.
    CatmullRom,
}

impl SmoothMethod {
    /// The method a configured name selects: `"funnel"` selects the funnel
    /// algorithm, any other name Catmull-Rom interpolation.
    pub fn from_name(name: &str) -> (m: SmoothMethod)
        ensures
            m == (if name@ == "funnel"@ {
                SmoothMethod::Funnel
            } else {
                SmoothMethod::CatmullRom
            }),
    {
        if name.to_owned() == "funnel".to_owned() {
            SmoothMethod::Funnel
        } else {
            SmoothMethod::CatmullRom
        }
    }
}

} // verus!
