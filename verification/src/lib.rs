//! Minecraft log deobfuscation: mapping parsers, stack-trace engines, the
//! mapping cache and the engine facade.
pub mod api;
pub mod cache;
pub mod capi;
pub mod config;
pub mod deobfuscator;
pub mod error;
pub mod facade;
pub mod launcher;
pub mod listing;
pub mod mapping;
pub mod text;

pub use facade::{DeobfuscateOutput, Spinyarn};
