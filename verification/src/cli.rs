//! The command line: the commands and options the tool takes.
use vstd::prelude::*;

verus! {

/// The parsed command line.
#[derive(Debug, Clone)]
pub struct Cli {
    /// Project root directory (the current directory where absent).
    pub root: Option<String>,
    /// Show skipped files and diagnostics.
    pub verbose: bool,
    pub command: Command,
}

/// What the tool is asked to do.
#[derive(Debug, Clone)]
pub enum Command {
    /// Initialize the index in the current directory.
    Init,
    /// Start the tool server on standard input and output.
    Serve,
    /// Show the state of the index.
    Status,
    /// Re-index one file, or the whole project.
    Reindex { path: Option<String> },
    /// Search the index for symbols.
    Query { query: String, max_results: usize },
    /// Show a map of the project's symbols.
    MapOverview { max_chars: usize },
    /// Install or remove the git hooks.
    Hooks { action: HooksAction },
    /// Show or write the configuration.
    Config { action: ConfigAction },
}

#[derive(Debug, Clone, Copy, PartialEq, Eq, Structural)]
pub enum HooksAction {
    Install,
    Uninstall,
}

#[derive(Debug, Clone, Copy, PartialEq, Eq, Structural)]
pub enum ConfigAction {
    Show,
    Init,
}

impl Cli {
    /// The log level to start with: `debug` when verbose, else the configured one.
    pub fn log_level<'a>(&self, configured: &'a str) -> (r: &'a str)
        ensures
            self.verbose ==> r@ == "debug"@,
            !self.verbose ==> r@ == configured@,
    {
        if self.verbose {
            "debug"
        } else {
            configured
        }
    }
}

} // verus!
