pub mod enjoygaming;
pub mod hacksaw;
pub mod octoplay;
