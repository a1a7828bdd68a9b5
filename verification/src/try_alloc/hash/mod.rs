pub mod hasher;
pub mod map;
pub mod seed;
pub mod set;
