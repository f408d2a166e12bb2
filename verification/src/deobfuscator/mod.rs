pub mod engine;
pub mod pattern;
pub mod vanilla;

pub use engine::{DeobfuscateResult, LineEngine};
pub use vanilla::VanillaEngine;
