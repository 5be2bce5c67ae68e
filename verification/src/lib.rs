//! A build step that finds the imports a source file is missing.
//!
//! The file is compiled again and again. After each attempt the compiler's
//! diagnostics are read for the paths that they suggest to import; of the
//! paths that end in the same identifier one is accepted and the others are
//! excluded; what was accepted is handed to the next attempt. The run ends
//! when the compiler succeeds, when an attempt brings nothing new, or when
//! the attempts are used up.
//!
//! - [`text`]: the patterns that messages and paths are matched against.
//! - [`wire`]: the diagnostics as the compiler writes them, one JSON value
//!   to a line.
//! - [`diagnostic`]: a diagnostic, and the candidates that it suggests.
//! - [`choice`]: the choice among candidates that end alike.
//! - [`candidates`]: the sets of accepted and of excluded candidates.
//! - [`driver`]: the run, from one attempt to the next.
//! - [`channel`]: what passes between a build and the builds that it starts.

pub mod candidates;
pub mod channel;
pub mod choice;
pub mod diagnostic;
pub mod driver;
pub mod text;
pub mod wire;
