//! Screen colour engine: gamma ramps, the display engine's backoff ladder,
//! the profile store and the hotkey table.

pub mod color;
pub mod text;
pub mod profiles;
pub mod engine;
pub mod system;
