pub mod error;
pub mod matcher;
pub mod parser;

pub use error::PatternError;
pub use matcher::{match_all_patterns, match_pattern, CompiledPattern, PatternMatches, PatternToken};
pub use parser::parse_pattern;
