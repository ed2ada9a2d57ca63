//! Simplified/Traditional Chinese conversion with dictionary-driven greedy
//! longest-match lookup.

mod config;
pub mod model;
mod keys;
pub mod bloom;
mod dict;
mod text;
pub mod parse;
mod tables;
pub mod dict_data;
mod converter;
mod analysis;

pub use config::{ConvertConfig, ConvertType};
pub use converter::{convert, convert_to, STConverter};
pub use analysis::{STConvertNormalizer, STConvertTokenFilter, STConvertTokenizer, Token};
