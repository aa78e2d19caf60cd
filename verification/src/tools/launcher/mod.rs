//! Starting a minigame: finding its frame, clicking PLAY and finding the play zone.

pub mod detect;
pub mod flow;
pub mod geometry;
pub mod log;
