//! What a run is asked to do.

use vstd::prelude::*;
use crate::color_modes::ColorModes;
use crate::text::{chars_of, find_char, first_index_of};
use crate::variables::Variable;

verus! {

/// The options of a run.
#[derive(Debug, Clone, PartialEq, Eq)]
pub struct RunArgs {
    /// Names of the jobs to run.
    pub jobs: Vec<String>,
    /// Show the steps to execute without executing them.
    pub dry_run: bool,
    /// Go on with the next job after a job failed.
    pub keep_going: bool,
    /// Execute the commands of a step one by one instead of side by side.
    pub sequential: bool,
    /// Names of the packages to run jobs for.
    pub package: Vec<String>,
    /// Variables defined on the command line.
    pub variable: Vec<Variable>,
    /// The file to send log output to.
    pub log_file: Option<String>,
    /// The number of log files to retain.
    pub log_file_retention_count: usize,
    /// When to colorize output.
    pub color: ColorModes,
}

impl RunArgs {
    /// The variables defined on the command line.
    pub fn variables(&self) -> (r: &[Variable])
        ensures
            r@ == self.variable@,
    {
        self.variable.as_slice()
    }
}

impl Default for RunArgs {
    fn default() -> (r: Self)
        ensures
            r.jobs@.len() == 0,
            !r.dry_run,
            !r.keep_going,
            !r.sequential,
            r.package@.len() == 0,
            r.variable@.len() == 0,
            r.log_file is None,
            r.log_file_retention_count == 0,
            r.color == ColorModes::Auto,
    {
        RunArgs {
            jobs: Vec::new(),
            dry_run: false,
            keep_going: false,
            sequential: false,
            package: Vec::new(),
            variable: Vec::new(),
            log_file: None,
            log_file_retention_count: 0,
            color: ColorModes::Auto,
        }
    }
}

/// Why a text is no variable definition.
#[derive(Debug, Clone, PartialEq, Eq)]
pub enum KeyValueError {
    /// The text holds no `=`.
    NoEquals { text: String },
}

impl KeyValueError {
    /// The error in words.
    pub open spec fn message_text(&self) -> Seq<char> {
        match self {
            KeyValueError::NoEquals { text } => "invalid KEY=value: no '=' found in `"@ + text@
                + "`"@,
        }
    }

    /// The error in words.
    pub fn message(&self) -> (r: String)
        ensures
            r@ == self.message_text(),
    {
        match self {
            KeyValueError::NoEquals { text } => "invalid KEY=value: no '=' found in `".to_owned().concat(
                text.as_str(),
            ).concat("`"),
        }
    }
}

/// Parses a variable definition of the form `KEY=VALUE`: the name is what
/// stands before the first `=`, the value all that follows it.
pub fn parse_key_val(s: &str) -> (r: Result<Variable, KeyValueError>)
    ensures
        match r {
            Ok(variable) => exists|at: int| #[trigger]
                first_index_of(s@, '=', at) && variable.name@ == s@.subrange(0, at)
                    && variable.value@ == s@.subrange(at + 1, s@.len() as int),
            Err(KeyValueError::NoEquals { text }) => !s@.contains('=') && text@ == s@,
        },
{
    let chars = chars_of(s);
    let end = chars.len();
    match find_char(&chars, '=') {
        Some(at) => {
            let name = s.substring_char(0, at).to_owned();
            let value = s.substring_char(at + 1, end).to_owned();
            assert(first_index_of(s@, '=', at as int));
            Ok(Variable::new(name, value))
        },
        None => Err(KeyValueError::NoEquals { text: s.to_owned() }),
    }
}

} // verus!
