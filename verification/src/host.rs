//! Executing commands: what is asked of whoever runs them, and what comes
//! back.

use vstd::prelude::*;
use crate::variables::Variable;

verus! {

/// Runs commands and writes to the console. The library decides what to run
/// and what to make of the outcome; an implementation of this trait does the
/// running, by whatever shell the platform has. Nothing is assumed of what
/// an implementation returns.
pub trait Host {
    /// Executes a command line in the given directory with the given
    /// variables. `Err` says why the command could not be run at all.
    fn execute(&self, cmdline: &str, working_dir: &str, env_vars: &[Variable]) -> Result<
        ExecutionResult,
        String,
    >;

    /// Writes a line to standard output.
    fn println(&self, message: &str);

    /// Writes a line to standard error.
    fn eprintln(&self, message: &str);
}

/// The result of executing a command.
#[derive(Debug, Clone, Copy, PartialEq, Eq, Structural)]
pub struct ExecutionResult {
    /// Whether the command ran and ended well.
    pub success: bool,
    /// The exit code, where the command ended with one.
    pub exit_code: Option<i32>,
}

impl ExecutionResult {
    /// The result of a command that ended well, with exit code 0.
    pub fn success() -> (r: Self)
        ensures
            r.success,
            r.exit_code == Some(0i32),
    {
        ExecutionResult { success: true, exit_code: Some(0) }
    }

    /// The result of a command that failed, with its exit code if it
    /// ended with one.
    pub fn failure(exit_code: Option<i32>) -> (r: Self)
        ensures
            !r.success,
            r.exit_code == exit_code,
    {
        ExecutionResult { success: false, exit_code }
    }
}

} // verus!
