pub mod plan;
pub mod read;
pub mod module_card;
pub mod describe;
pub mod list;
pub mod pack;
pub mod session;
