//! Small parts that the others share: configuration, errors, formatting,
//! paths, the environment, and stand-ins for tests.

pub mod config;
pub mod error;
pub mod format;
pub mod fs;
pub mod term;
pub mod test;
