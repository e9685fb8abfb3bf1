//! The options of a run.

use vstd::prelude::*;

verus! {

/// The test length used when none is given, in seconds.
pub const DEFAULT_DURATION: u64 = 10;

/// The options of a run: how long each of the download and upload tests
/// lasts, whether the interactive screen is shown, and the file (`.json` or
/// `.csv`) that the result is saved to, if any.
pub struct Cli {
    pub duration: u64,
    pub tui: bool,
    pub output: Option<String>,
}

} // verus!
