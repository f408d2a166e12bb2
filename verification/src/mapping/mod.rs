pub mod dispatcher;
pub mod download;
pub mod tiny_v2;
pub mod vanilla;

pub use tiny_v2::{parse, parse_checked, Mappings, TinyV2ParseError};
