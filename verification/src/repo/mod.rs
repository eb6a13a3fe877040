pub mod path;
pub mod prefix;
pub mod diff_source;
pub mod diff;
