pub mod actions;
pub mod models;
pub mod split;
pub mod intake;
pub mod pipeline;
