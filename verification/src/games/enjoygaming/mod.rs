pub mod grand_lightning;
