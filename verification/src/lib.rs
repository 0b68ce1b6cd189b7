pub mod api;
pub mod builds;
pub mod error;
pub mod legendary;
pub mod notify;
pub mod pinned;
pub mod search;
pub mod settings;
pub mod sorting;
pub mod sync;
pub mod text;
pub mod timers;
pub mod todos;
pub mod views;
