//! Date resolution, random-date sampling and a popularity counter store
//! for a daily comic strip published since 1978-06-19.

pub mod date;
pub mod sampler;
pub mod store;
pub mod url;
