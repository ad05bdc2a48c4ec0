//! A configuration management library: resources describe a desired state of
//! the target system, and a `Reality` gathers them, without duplicates and in
//! dependency order, before they are verified and realized.
pub mod fs;
pub mod meta;
pub mod resource;
pub mod run;
pub mod util;

pub use crate::meta::Reality;
