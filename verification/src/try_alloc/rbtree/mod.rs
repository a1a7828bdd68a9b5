pub mod key;
pub mod map;
