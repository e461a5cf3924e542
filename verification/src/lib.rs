//! A verified core for a `sleep`-style utility: command-line arguments are
//! parsed into a list of duration tokens and an optional progress flag, and
//! the tokens are summed into a single millisecond count.

pub mod cli;
pub mod interval;
pub mod number;

pub use cli::CliError;
pub use interval::{parse_interval, InvalidTimeInterval};

use vstd::prelude::*;

verus! {

/// The parsed command line: one or more duration tokens and the progress flag.
#[derive(Debug, PartialEq, Eq)]
pub struct Args {
    /// The duration tokens, in the order they were given.
    pub number: Vec<String>,
    /// Whether a progress indicator was requested.
    pub progress: bool,
}

} // verus!
