pub mod obligations;
pub mod lint;
