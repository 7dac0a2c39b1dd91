//! Checks password-store file names against the path rules of a
//! `passlint.toml` configuration.

pub mod config;
pub mod glob;
pub mod host;
pub mod laws;
pub mod loaded;
pub mod order;
pub mod path;
pub mod pattern;
pub mod text;
