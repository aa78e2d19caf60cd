//! Screen-reading and control logic of the Midnight Run minigame tools.

pub mod blobs;
pub mod double;
pub mod order;
pub mod pixels;
pub mod platform;
pub mod single;
pub mod text;
pub mod tools;
