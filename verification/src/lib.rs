pub mod text;
pub mod order;
pub mod error;
pub mod repo;
pub mod index;
pub mod config;
pub mod overlay;
pub mod json;
pub mod facts;
pub mod query;
pub mod policy;
pub mod sorting;
