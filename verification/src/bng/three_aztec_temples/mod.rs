pub mod actions;
pub mod models;
pub mod boards;
pub mod reels;
pub mod game;
pub mod spin_record;
