//! The commands the tool understands, and the default among them.

use vstd::prelude::*;

verus! {

/// What the tool is asked to do with today's plan.
#[derive(Debug, Clone, Copy, PartialEq, Eq, Structural)]
pub enum Command {
    /// Edit the plan in the editor.
    Edit,
    /// Send the plan to standard output.
    View,
}

/// The parsed command line: the chosen command, if one was given.
#[derive(Debug)]
pub struct Options {
    command: Option<Command>,
}

impl Options {
    /// The command that was chosen.
    pub closed spec fn chosen(self) -> Option<Command> {
        self.command
    }

    /// Wraps a chosen command, or none.
    pub fn new(command: Option<Command>) -> (r: Options)
        ensures
            r.chosen() == command,
    {
        Options { command }
    }

    /// The command to run: the chosen one, or `Edit` when none was given.
    pub fn command(self) -> (r: Command)
        ensures
            r == match self.chosen() {
                Some(c) => c,
                None => Command::Edit,
            },
    {
        match self.command {
            Some(c) => c,
            None => Command::Edit,
        }
    }
}

} // verus!
