//! The options of the command line, as plain values.

pub mod cmd;
pub mod input;
pub mod output;

use crate::cli::cmd::Command;
use vstd::prelude::*;

verus! {

/// One call of the program: the command that it is to run.
#[derive(Debug, Clone)]
pub struct App {
    command: Command,
}

impl App {
    /// The command of the call.
    pub closed spec fn spec_command(&self) -> Command {
        self.command
    }

    /// The call that runs `command`.
    pub fn new(command: Command) -> (r: App)
        ensures
            r.spec_command() == command,
    {
        App { command }
    }

    /// The command of the call.
    pub fn command(&self) -> (r: &Command)
        ensures
            *r == self.spec_command(),
    {
        &self.command
    }
}

} // verus!
