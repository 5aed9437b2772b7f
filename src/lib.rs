//! The core of a feed-to-chat notifier: the per-feed polling schedule, the
//! classification of failed sends, the packing of updates into messages, the
//! per-subscriber delivery state machine and the dead-feed accounting.

pub mod classify;
pub mod format;
pub mod schedule;
pub mod delivery;
pub mod downtime;
pub mod render;
pub mod orchestrate;
