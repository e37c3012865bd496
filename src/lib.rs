//! A bounded, deduplicating packet buffer with per-destination time
//! indexing, together with a few small independent utilities.
pub mod router;
pub mod task_manager;
pub mod spreadsheet;
pub mod text;
pub mod food_ratings;
