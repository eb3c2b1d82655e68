//! The command-line options and the mode they select.
use vstd::prelude::*;

verus! {

/// The options of a run: where the configuration lies, which diffs to show, and how much.
pub struct Args {
    /// Path to the configuration file; the default one where none is given.
    pub config_loc: Option<String>,
    /// Show only the diffs of tests.
    pub tests_only: bool,
    /// Show only the diffs of parameters.
    pub params_only: bool,
    /// Show unchanged items too.
    pub include_unchanged: bool,
    /// Show the output that could not be read.
    pub print_source_on_parse_error: bool,
}

/// Which diffs to show.
#[derive(Clone, Copy, Debug, PartialEq, Eq, Structural)]
pub enum Mode {
    All,
    Params,
    Tests,
}

/// The mode that the two flags select: tests alone, parameters alone, else both.
pub open spec fn mode_of(tests_only: bool, params_only: bool) -> Mode {
    if tests_only && !params_only {
        Mode::Tests
    } else if !tests_only && params_only {
        Mode::Params
    } else {
        Mode::All
    }
}

impl Args {
    /// The mode that the flags select (see `mode_of`).
    pub fn mode(&self) -> (m: Mode)
        ensures
            m == mode_of(self.tests_only, self.params_only),
    {
        match (self.tests_only, self.params_only) {
            (true, false) => Mode::Tests,
            (false, true) => Mode::Params,
            _ => Mode::All,
        }
    }
}

} // verus!
