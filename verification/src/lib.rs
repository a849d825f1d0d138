//! A string calculator: sums a delimited list of integers.
//!
//! The input is either a comma/newline separated list of numbers, or a
//! `//<sep>\n`-headed list using a single custom separator character.
//! Tokens are trimmed of spaces and parsed as signed 64-bit integers;
//! negative numbers are collected and reported as an error, and values
//! above 1000 are clamped to zero before summation.

mod calc;
mod laws;
mod model;
mod parse;

pub use calc::add;
pub use calc::add_post;
pub use calc::check_consecutive_separators;
pub use calc::check_negatives;
pub use calc::handle_custom_separator;
pub use calc::handle_default_seperator;
pub use calc::normalize_numbers;
pub use calc::result_model;
pub use calc::tokenizer;
pub use calc::AddError;
