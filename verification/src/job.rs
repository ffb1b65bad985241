//! Jobs: ordered steps with dependencies and conditions.

use vstd::prelude::*;
use crate::expression::{Conditional, ContinueOnError};
use crate::job_id::JobId;
use crate::step::Step;
use crate::variables::Variable;

verus! {

/// A named, ordered sequence of steps.
#[derive(Debug, Clone, PartialEq, Eq)]
pub struct Job {
    /// The name under which the job is defined and asked for.
    pub id: JobId,
    /// What to show in place of the identifier.
    pub name: Option<String>,
    /// The steps, in the order in which they run.
    pub steps: Vec<Step>,
    /// The jobs that have to complete before this one.
    pub needs: Vec<JobId>,
    /// Whether the job runs.
    pub conditional: Conditional,
    /// Whether the run goes on to the next job after this one failed.
    pub continue_on_error: ContinueOnError,
    /// Variables of this job.
    pub variables: Vec<Variable>,
}

/// A job has no steps.
#[derive(Debug, Clone, PartialEq, Eq)]
pub struct NoSteps {
    /// The job at fault.
    pub job: JobId,
}

impl NoSteps {
    /// The error in words.
    pub fn message(&self) -> (r: String)
        ensures
            r@ == "Job '"@ + self.job@ + "' has no steps defined"@,
    {
        "Job '".to_owned().concat(self.job.as_str()).concat("' has no steps defined")
    }
}

impl Job {
    /// The name to show: the custom name, or else the identifier.
    pub open spec fn label(&self) -> Seq<char> {
        match self.name {
            Some(name) => name@,
            None => self.id@,
        }
    }

    /// Whether it is said what the conditions come to on which running the
    /// job depends: neither the job's condition nor a condition of one of
    /// its steps is an expression with `^`.
    pub open spec fn plan_certain(&self) -> bool {
        &&& self.conditional.certain()
        &&& forall|k: int| 0 <= k < self.steps@.len() ==> (#[trigger] self.steps@[k]).certain()
    }

    /// Whether it is said what every condition of the job comes to: what
    /// running it depends on, and whether its failure is tolerated.
    pub open spec fn certain(&self) -> bool {
        self.plan_certain() && self.continue_on_error.certain()
    }

    /// A job of the given steps that needs nothing, always runs, and whose
    /// failure ends the run.
    pub fn new(id: JobId, steps: Vec<Step>) -> (r: Self)
        ensures
            r.id == id,
            r.name is None,
            r.steps == steps,
            r.needs@.len() == 0,
            r.conditional == Conditional::Bool(true),
            r.continue_on_error == ContinueOnError::Bool(false),
            r.variables@.len() == 0,
    {
        Job {
            id,
            name: None,
            steps,
            needs: Vec::new(),
            conditional: Conditional::Bool(true),
            continue_on_error: ContinueOnError::Bool(false),
            variables: Vec::new(),
        }
    }

    /// Checks that the job has something to run: at least one step.
    pub fn validate(&self) -> (r: Result<(), NoSteps>)
        ensures
            r is Ok <==> self.steps@.len() > 0,
            r matches Err(e) ==> e.job@ == self.id@,
    {
        if self.steps.len() == 0 {
            return Err(NoSteps { job: self.id.clone() });
        }
        Ok(())
    }

    /// The custom display name, if any.
    pub fn name(&self) -> (r: Option<&str>)
        ensures
            match r {
                Some(text) => self.name matches Some(name) && name@ == text@,
                None => self.name is None,
            },
    {
        match &self.name {
            Some(name) => Some(name.as_str()),
            None => None,
        }
    }

    /// The name to show for this job.
    pub fn display_name(&self) -> (r: &str)
        ensures
            r@ == self.label(),
    {
        match &self.name {
            Some(name) => name.as_str(),
            None => self.id.as_str(),
        }
    }

    /// The jobs that have to complete before this one.
    pub fn needs(&self) -> (r: &Vec<JobId>)
        ensures
            *r == self.needs,
    {
        &self.needs
    }

    /// The steps, in order.
    pub fn steps(&self) -> (r: &Vec<Step>)
        ensures
            *r == self.steps,
    {
        &self.steps
    }

    /// Whether the job runs.
    pub fn conditional(&self) -> (r: &Conditional)
        ensures
            *r == self.conditional,
    {
        &self.conditional
    }

    /// Whether the run goes on after this job failed.
    pub fn continue_on_error(&self) -> (r: &ContinueOnError)
        ensures
            *r == self.continue_on_error,
    {
        &self.continue_on_error
    }

    /// The variables of this job.
    pub fn variables(&self) -> (r: &[Variable])
        ensures
            r@ == self.variables@,
    {
        self.variables.as_slice()
    }
}

} // verus!
