pub mod args;
pub mod content;
pub mod output;
pub mod pattern;
pub mod pattern_text;
