//! Steps: one command each, with what governs its execution.

use vstd::prelude::*;
use crate::expression::{Conditional, ContinueOnError};
use crate::step_id::StepId;
use crate::variables::Variable;

verus! {

/// One command of a job: either the bare command line, or the command with
/// what governs its execution.
#[derive(Debug, Clone, PartialEq, Eq)]
pub enum Step {
    /// A command that always runs, once, and whose failure ends the job.
    Simple(String),
    Extended {
        /// The command line, handed to the shell as it is.
        command: String,
        /// What to show in place of the command line.
        name: Option<String>,
        /// A name for the step, unique within its job.
        id: Option<StepId>,
        /// Whether the step runs.
        conditional: Conditional,
        /// Whether the job goes on after this step failed.
        continue_on_error: ContinueOnError,
        /// Whether the step runs once for each package.
        per_package: bool,
        /// The modifier expression a package has to meet.
        modifiers: Option<String>,
        /// Where to run the command, in place of the default.
        working_directory: Option<String>,
        /// Variables of this step.
        variables: Vec<Variable>,
    },
}

impl Step {
    /// The command line.
    pub open spec fn command_text(&self) -> Seq<char> {
        match self {
            Step::Simple(command) => command@,
            Step::Extended { command, .. } => command@,
        }
    }

    /// The name to show: the custom name, or else the command line.
    pub open spec fn label(&self) -> Seq<char> {
        match self {
            Step::Simple(command) => command@,
            Step::Extended { command, name, .. } => match name {
                Some(name) => name@,
                None => command@,
            },
        }
    }

    /// The step's identifier, if it has one.
    pub open spec fn identifier(&self) -> Option<Seq<char>> {
        match self {
            Step::Simple(_) => None,
            Step::Extended { id, .. } => match id {
                Some(id) => Some(id@),
                None => None,
            },
        }
    }

    /// The condition under which the step runs; `true` for a bare command.
    pub open spec fn condition(&self) -> Conditional {
        match self {
            Step::Simple(_) => Conditional::Bool(true),
            Step::Extended { conditional, .. } => *conditional,
        }
    }

    /// Whether a failure of the step lets the job go on; `false` for a bare
    /// command.
    pub open spec fn tolerance(&self) -> ContinueOnError {
        match self {
            Step::Simple(_) => ContinueOnError::Bool(false),
            Step::Extended { continue_on_error, .. } => *continue_on_error,
        }
    }

    /// Whether it is said what the step's condition and its tolerance of
    /// failure come to: neither is an expression with `^`.
    pub open spec fn certain(&self) -> bool {
        self.condition().certain() && self.tolerance().certain()
    }

    /// Whether the step is declared to run once per package.
    pub open spec fn is_per_package(&self) -> bool {
        match self {
            Step::Simple(_) => false,
            Step::Extended { per_package, .. } => *per_package,
        }
    }

    /// The modifier expression, if the step has one.
    pub open spec fn modifier_text(&self) -> Option<Seq<char>> {
        match self {
            Step::Simple(_) => None,
            Step::Extended { modifiers, .. } => match modifiers {
                Some(text) => Some(text@),
                None => None,
            },
        }
    }

    /// The directory the step asks for, if any.
    pub open spec fn directory(&self) -> Option<Seq<char>> {
        match self {
            Step::Simple(_) => None,
            Step::Extended { working_directory, .. } => match working_directory {
                Some(text) => Some(text@),
                None => None,
            },
        }
    }

    /// The step's own variables; none for a bare command.
    pub open spec fn own_variables(&self) -> Seq<Variable> {
        match self {
            Step::Simple(_) => Seq::empty(),
            Step::Extended { variables, .. } => variables@,
        }
    }

    /// The command line to execute.
    pub fn command(&self) -> (r: &str)
        ensures
            r@ == self.command_text(),
    {
        match self {
            Step::Simple(command) => command.as_str(),
            Step::Extended { command, .. } => command.as_str(),
        }
    }

    /// The name to show for this step: the custom name if there is one,
    /// otherwise the command line itself.
    pub fn name(&self) -> (r: &str)
        ensures
            r@ == self.label(),
    {
        match self {
            Step::Simple(command) => command.as_str(),
            Step::Extended { command, name, .. } => match name {
                Some(name) => name.as_str(),
                None => command.as_str(),
            },
        }
    }

    /// The same as [`Step::name`].
    pub fn display_name(&self) -> (r: &str)
        ensures
            r@ == self.label(),
    {
        self.name()
    }

    /// The step's identifier, if it has one.
    pub fn id(&self) -> (r: Option<&StepId>)
        ensures
            match r {
                Some(id) => self.identifier() == Some(id@),
                None => self.identifier() is None,
            },
    {
        match self {
            Step::Simple(_) => None,
            Step::Extended { id, .. } => id.as_ref(),
        }
    }

    /// The condition under which the step runs.
    pub fn conditional(&self) -> (r: &Conditional)
        ensures
            *r == self.condition(),
    {
        match self {
            Step::Simple(_) => &Conditional::Bool(true),
            Step::Extended { conditional, .. } => conditional,
        }
    }

    /// Whether a failure of this step lets the job go on.
    pub fn continue_on_error(&self) -> (r: &ContinueOnError)
        ensures
            *r == self.tolerance(),
    {
        match self {
            Step::Simple(_) => &ContinueOnError::Bool(false),
            Step::Extended { continue_on_error, .. } => continue_on_error,
        }
    }

    /// Whether the step runs once for each package.
    pub fn per_package(&self) -> (r: bool)
        ensures
            r == self.is_per_package(),
    {
        match self {
            Step::Simple(_) => false,
            Step::Extended { per_package, .. } => *per_package,
        }
    }

    /// The modifier expression of this step, if any.
    pub fn modifiers_expr(&self) -> (r: Option<&str>)
        ensures
            match r {
                Some(text) => self.modifier_text() == Some(text@),
                None => self.modifier_text() is None,
            },
    {
        match self {
            Step::Simple(_) => None,
            Step::Extended { modifiers, .. } => match modifiers {
                Some(text) => Some(text.as_str()),
                None => None,
            },
        }
    }

    /// The working directory this step asks for, if any.
    pub fn working_directory(&self) -> (r: Option<&str>)
        ensures
            match r {
                Some(text) => self.directory() == Some(text@),
                None => self.directory() is None,
            },
    {
        match self {
            Step::Simple(_) => None,
            Step::Extended { working_directory, .. } => match working_directory {
                Some(text) => Some(text.as_str()),
                None => None,
            },
        }
    }

    /// The variables of this step.
    pub fn variables(&self) -> (r: &[Variable])
        ensures
            r@ == self.own_variables(),
    {
        match self {
            Step::Simple(_) => {
                let none: &[Variable] = &[];
                assert(none@ =~= Seq::<Variable>::empty());
                none
            },
            Step::Extended { variables, .. } => variables.as_slice(),
        }
    }
}

impl From<String> for Step {
    fn from(s: String) -> (r: Self) {
        Step::Simple(s)
    }
}

impl vstd::std_specs::convert::FromSpecImpl<String> for Step {
    open spec fn obeys_from_spec() -> bool {
        true
    }

    open spec fn from_spec(s: String) -> Self {
        Step::Simple(s)
    }
}

impl From<&str> for Step {
    fn from(s: &str) -> (r: Self)
        ensures
            r matches Step::Simple(command) && command@ == s@,
    {
        Step::Simple(s.to_owned())
    }
}

impl vstd::std_specs::convert::FromSpecImpl<&str> for Step {
    open spec fn obeys_from_spec() -> bool {
        false
    }

    open spec fn from_spec(s: &str) -> Self {
        arbitrary()
    }
}

} // verus!
