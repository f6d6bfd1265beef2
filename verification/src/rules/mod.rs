//! The rules that find what to recommend. Each adds its findings behind those already there.

pub mod cache_miss;
pub mod cost_per_task;
pub mod diversity;
pub mod efficiency;
pub mod idle_context;
pub mod night_owl;
pub mod output_waste;
pub mod premium;
pub mod runaway;
pub mod short_sessions;
pub mod spend_spike;
pub mod workspaces;
