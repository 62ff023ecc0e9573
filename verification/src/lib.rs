//! Abbreviation expansion for an interactive shell.
//!
//! While a command line is typed, short words are replaced by longer
//! snippets. Given the line on both sides of the cursor and an ordered list
//! of rules, this library decides which bytes of the line are replaced and
//! by what, and writes the decision out as a fragment for the shell to
//! evaluate.
//!
//! The way from the line to the fragment:
//!
//! - `expand::segment` finds the command that is being typed;
//! - `expand::split` cuts it into arguments, honouring quotes and
//!   backslashes;
//! - `config` tries the rules in order, each with its context
//!   (`config::abbrev::Context`) and its trigger
//!   (`config::abbrev::Trigger`);
//! - `expand` plans the replacement for the first rule that applies;
//! - `expand::emit` writes the plan out.
//!
//! Offsets count bytes of UTF-8 text throughout. `text` holds what is
//! needed to cut strings at such offsets, and `expand::characters` relates
//! the work on bytes to the characters of the text.

pub mod config;
pub mod expand;
pub mod opt;
pub mod text;
