//! What the tools share about the windowing system: its records, keys and the overlay.

pub mod input;
pub mod overlay;
pub mod win32;
