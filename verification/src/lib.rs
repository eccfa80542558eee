//! Core of a streaming markdown parser.
//!
//! The tokenizer engine turns codes into well-nested `Enter`/`Exit` events
//! with the help of pluggable state functions, which it can run
//! speculatively and undo.  The document driver resolves containers line by
//! line and feeds the rest of each line to a child tokenizer as flow, whose
//! events are spliced into those of the document at the end.  Resolvers
//! turn attention sequences and labels into emphasis, strong, links and
//! images afterwards.

pub mod attempt;
pub mod construct;
pub mod event;
pub mod feed;
pub mod parser;
pub mod state;
pub mod subtokenize;
pub mod token;
pub mod tokenizer;
pub mod util;
