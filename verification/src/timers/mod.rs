pub mod engine;
pub mod schedule;
pub mod feed;
