use vstd::prelude::*;

verus! {

/// The command-line options that a front end hands to the library: which
/// command to run and whether to print verbose information.
#[derive(Debug)]
pub struct CliArgs {
    pub command: Option<Command>,
    pub verbose: bool,
}

/// The commands that a front end can ask for.
#[derive(Debug)]
pub enum Command {
    /// Run the source file in interpreter mode. `memory_available` is the
    /// tape length in cells (bytes) and must be positive.
    Run { file: String, memory_available: usize },
}

} // verus!
