//! The drivers: each feeds a bound chain from one kind of source.
pub mod vec;
pub mod iter;
pub mod channels;
