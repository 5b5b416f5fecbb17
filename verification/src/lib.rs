//! Watches the helper processes that a ChatGPT or Codex host starts.
//!
//! A scan tells from a snapshot which helpers belong to a running host, which have lost theirs,
//! and which only look like helpers. What a host was seen to start may be ended, together with
//! everything below it; nothing else may. The library decides; what it decides on is handed in,
//! and what it asks for is done by its caller.
pub mod board;
pub mod classify;
pub mod config;
pub mod decimal;
pub mod dialog;
pub mod guardian;
pub mod listing;
pub mod model;
pub mod sample;
pub mod scan;
pub mod selection;
pub mod state;
pub mod terminal;
pub mod terminate;
pub mod text;
pub mod tree;
pub mod watch;
pub mod wide;
pub mod window;

pub use config::Config;
pub use guardian::{Guardian, Paths};
pub use listing::{
    find_entry, format_duration, format_entry, idle_seconds, is_attention, process_age_seconds,
};
pub use model::{BatchTerminationResult, Category, Entry, ProcessInfo, Status};
pub use wide::to_wide;
