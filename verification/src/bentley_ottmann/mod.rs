//! Plane sweep over segments.

pub mod event;
pub mod events_queue_key;
pub mod sweep_line_key;
pub mod events_registry;
pub mod base;
pub mod sweep;
