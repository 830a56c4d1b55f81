pub mod convert;
pub mod fugaso;
pub mod tallies;
pub mod bonus_table;
