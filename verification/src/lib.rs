//! A workspace of version-controlled repositories: where a repository
//! URL is cloned to, and which local checkout a name stands for.

pub mod cli;
pub mod command;
pub mod config;
pub mod error;
pub mod locator;
pub mod normalize;
pub mod path;
pub mod resolve;
pub mod scan;
pub mod select;
pub mod text;

pub use crate::config::Config;
pub use crate::error::Error;
