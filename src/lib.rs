//! Declarative password configuration: character-set resolution, constraint
//! validation and the ordering-pattern language.

pub mod utils;
pub mod pattern;
pub mod error;
pub mod config;
pub mod generators;
pub mod getpass;
