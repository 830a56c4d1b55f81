pub mod jocker_twenty;
