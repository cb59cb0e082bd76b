//! The application's modes and choices, its saved configuration, and the
//! progress of a background compression.
use vstd::prelude::*;

verus! {

/// The workspace shown.
#[derive(Clone, Copy, Debug, PartialEq, Eq, Structural)]
pub enum AppMode {
    Edit,
    Preview,
    Create,
    Particleex,
}

/// The editing tool selected.
#[derive(Clone, Copy, Debug, PartialEq, Eq, Structural)]
pub enum EditTool {
    Speed,
    Size,
    Color,
    Transform,
    Trim,
    Compress,
}

/// The emitter preset selected in the creator.
#[derive(Clone, Copy, Debug, PartialEq, Eq, Structural)]
pub enum CreatorPreset {
    Fireworks,
    Fountain,
    Spiral,
    Explosion,
    Snow,
    Custom,
}

/// The configuration saved between runs: the interface language.
pub struct AppConfig {
    pub lang: String,
}

impl Default for AppConfig {
    /// The configuration of a first run: `en_US`.
    fn default() -> (r: Self)
        ensures
            r.lang@ == seq!['e', 'n', '_', 'U', 'S'],
    {
        proof {
            reveal_strlit("en_US");
        }
        AppConfig { lang: "en_US".to_owned() }
    }
}

/// How far a background compression has come, and how it ended.
pub struct CompressProgress {
    pub total_frames: u32,
    pub current_frame: u32,
    pub is_done: bool,
    pub error: Option<String>,
}

} // verus!
