pub mod gladius_death_or_glory;
