//! Verified core of the Nebula particle tools: the `.nbl` container and frame
//! codecs, the particle playback state, and the deterministic helpers of the
//! editors and command compilers.
pub mod bytes;
pub mod header;
pub mod frame;
pub mod container;
pub mod chunk;
pub mod state;
pub mod player;
pub mod encode;
pub mod edit;
pub mod stream;
pub mod editor;
pub mod text;
pub mod particleex;
pub mod compile;
pub mod timeline;
pub mod i18n;
pub mod settings;
