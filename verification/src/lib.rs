//! A library for a build-retry tool: run a build command, look in its error
//! output for a "type length limit exceeded" diagnostic carrying a suggested
//! new limit, rewrite the limit directive in a source file, and try again.
//!
//! The modules hold the verified core: the directive grammar and extraction
//! of the suggested value (`directive`), the in-place rewriting of a file's
//! directive text (`patch`), the retry state machine and target-file
//! resolution (`control`), and the splitting of a command line into tokens
//! (`command`). Laws relating extraction and patching are proved in `laws`.

pub mod directive;
pub mod patch;
pub mod control;
pub mod command;
pub mod laws;
