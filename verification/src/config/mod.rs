pub mod tags;
pub mod obligations;
