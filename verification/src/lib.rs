//! Verified core of an Arch Linux package toolkit: dependency parsing, version comparison,
//! dependency-graph resolution and the configuration and validation logic of the AUR client.
pub mod aur;
pub mod cache;
pub mod client;
pub mod deps;
pub mod env;
pub mod error;
pub mod properties;
pub mod text;
pub mod types;
