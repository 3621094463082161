//! A speculative data-parallel lexer for CSS.
//!
//! The crate couples a restartable CSS tokenizer with a speculation
//! framework: the input is cut into partitions, a boundary predictor
//! guesses where the token at each cut begins, the partitions are lexed
//! independently, and a validation pass repairs every wrong guess, so
//! that the stitched output equals the sequential token stream.

pub mod driver;
pub mod lexer;
pub mod model;
pub mod speculate;

pub use driver::next_token_start;
pub use driver::spec_tokenize;
pub use driver::LOOKBACK;
pub use lexer::preprocess;
pub use lexer::tokenize;
pub use lexer::Node;
pub use lexer::NumericValue;
pub use lexer::SourceLocation;
pub use lexer::Token;
pub use lexer::Tokenizer;
pub use speculate::specfold;
pub use speculate::speculate;
pub use speculate::SpecStats;
