pub mod amazons;
