//! Planning: what runs, where, and with which variables.
//!
//! For each step of a job the plan says which packages take part, whether
//! the step is dispatched once for the workspace or once per package, and
//! for each dispatch the command, the directory, the variables and whether a
//! failure is tolerated. Conditions are evaluated while the plan is made, so
//! that an error in one shows before anything is executed.
//!
//! What a condition comes to is said for every condition but an expression
//! with `^` in it, whose value may differ between machines. Where a plan
//! depends on such an expression, each function says what holds whatever
//! the expression comes to, and says the rest for the conditions that are
//! certain.

use vstd::prelude::*;
use crate::args::RunArgs;
use crate::config::Config;
use crate::expression::{Conditional, ExpressionError, Failure};
use crate::job::Job;
use crate::modifier_expression;
use crate::modifier_expression::ParseError;
use crate::package::Package;
use crate::step::Step;
use crate::variables::{
    assemble, bindings, flatten, flattened, Layers, Purpose, Sources, Variable,
};

verus! {


/// What holds for a whole run.
#[derive(Debug, Clone, PartialEq, Eq)]
pub struct Settings {
    /// The variables taken over from the process environment.
    pub environment: Vec<Variable>,
    /// The variables of the workspace configuration.
    pub workspace_variables: Vec<Variable>,
    /// The variables given on the command line.
    pub command_line: Vec<Variable>,
    /// The root directory of the workspace.
    pub workspace_root: String,
    /// Whether steps are only planned, not executed.
    pub dry_run: bool,
    /// Whether the run goes on to the next job after a job failed.
    pub keep_going: bool,
}

/// A copy of a list of variables.
pub fn clone_variables(list: &[Variable]) -> (r: Vec<Variable>)
    ensures
        r@ == list@,
{
    let mut r: Vec<Variable> = Vec::new();
    let mut i: usize = 0;
    while i < list.len()
        invariant
            i <= list@.len(),
            r@ == list@.take(i as int),
        decreases list@.len() - i,
    {
        r.push(list[i].clone());
        assert(list@.take(i + 1) =~= list@.take(i as int).push(list@[i as int]));
        i += 1;
    }
    assert(list@.take(i as int) =~= list@);
    r
}

impl Settings {
    /// The settings of a run: what was asked for on the command line, the
    /// variables of the workspace, and the environment as it was taken over.
    pub fn new(args: &RunArgs, cfg: &Config, environment: Vec<Variable>, workspace_root: String) -> (r:
        Self)
        ensures
            r.environment == environment,
            r.workspace_variables@ == cfg.workspace_variables(),
            r.command_line@ == args.variable@,
            r.workspace_root == workspace_root,
            r.dry_run == args.dry_run,
            r.keep_going == args.keep_going,
    {
        Settings {
            environment,
            workspace_variables: clone_variables(cfg.variables()),
            command_line: clone_variables(args.variables()),
            workspace_root,
            dry_run: args.dry_run,
            keep_going: args.keep_going,
        }
    }
}

/// What was being evaluated when an error came up.
#[derive(Debug, Clone, Copy, PartialEq, Eq, Structural)]
pub enum Stage {
    JobCondition,
    JobContinueOnError,
    StepCondition,
    StepModifiers,
    StepContinueOnError,
}

/// The error underneath a [`RunError`].
#[derive(Debug, Clone, PartialEq, Eq)]
pub enum Cause {
    Expression(ExpressionError),
    Modifiers(ParseError),
}

/// An evaluation error, with the place it came up at: the stage, the
/// position of the step within its job, and the position of the package
/// within the packages of the run, where there is one.
#[derive(Debug, Clone, PartialEq, Eq)]
pub struct RunError {
    pub stage: Stage,
    pub step: Option<usize>,
    pub package: Option<usize>,
    pub cause: Cause,
}

impl Stage {
    /// What was being evaluated, in words.
    pub open spec fn text(self) -> Seq<char> {
        match self {
            Stage::JobCondition => "condition of the job"@,
            Stage::JobContinueOnError => "continue_on_error of the job"@,
            Stage::StepCondition => "condition of the step"@,
            Stage::StepModifiers => "modifiers of the step"@,
            Stage::StepContinueOnError => "continue_on_error of the step"@,
        }
    }

    /// What was being evaluated, in words.
    pub fn name(self) -> (r: &'static str)
        ensures
            r@ == self.text(),
    {
        match self {
            Stage::JobCondition => "condition of the job",
            Stage::JobContinueOnError => "continue_on_error of the job",
            Stage::StepCondition => "condition of the step",
            Stage::StepModifiers => "modifiers of the step",
            Stage::StepContinueOnError => "continue_on_error of the step",
        }
    }
}

impl Cause {
    /// The error underneath, in words.
    pub open spec fn message_text(&self) -> Seq<char> {
        match self {
            Cause::Expression(e) => e.message_text(),
            Cause::Modifiers(e) => e.message_text(),
        }
    }

    /// The error underneath, in words.
    pub fn message(&self) -> (r: String)
        ensures
            r@ == self.message_text(),
    {
        match self {
            Cause::Expression(e) => e.message(),
            Cause::Modifiers(e) => e.message(),
        }
    }
}

impl RunError {
    /// The place the error came up at: the job, and the step and the
    /// package where the error names them and they exist.
    pub open spec fn place_text(&self, job: Job, packages: Seq<Package>) -> Seq<char> {
        "job '"@ + job.label() + "'"@ + (match self.step {
            Some(at) if at < job.steps@.len() => ", step '"@ + job.steps@[at as int].label() + "'"@,
            _ => Seq::empty(),
        }) + (match self.package {
            Some(at) if at < packages.len() => ", package '"@ + packages[at as int].name@ + "'"@,
            _ => Seq::empty(),
        })
    }

    /// The modifier expression that an error is about: that of the step
    /// the error names, where the error came of modifiers and the step
    /// exists and has one.
    pub open spec fn modifiers_at_fault(&self, job: Job) -> Option<Seq<char>> {
        match (self.cause, self.step) {
            (Cause::Modifiers(_), Some(at)) if at < job.steps@.len() => job.steps@[at as int].modifier_text(),
            _ => None,
        }
    }

    /// What went wrong, in words: the error underneath, after the text of
    /// the modifier expression where the error is about one. An error of a
    /// condition names the expression itself.
    pub open spec fn cause_text(&self, job: Job) -> Seq<char> {
        match self.modifiers_at_fault(job) {
            Some(text) => "Failed to evaluate modifiers expression '"@ + text + "': "@
                + self.cause.message_text(),
            None => self.cause.message_text(),
        }
    }

    /// The error in words, for the job and the packages it came up with.
    pub open spec fn message_text(&self, job: Job, packages: Seq<Package>) -> Seq<char> {
        "unable to evaluate the "@ + self.stage.text() + " ("@ + self.place_text(job, packages)
            + "): "@ + self.cause_text(job)
    }

    /// The modifier expression that the error is about, if it is about one.
    fn modifiers_in_question<'a>(&self, job: &'a Job) -> (r: Option<&'a str>)
        ensures
            match r {
                Some(text) => self.modifiers_at_fault(*job) == Some(text@),
                None => self.modifiers_at_fault(*job) is None,
            },
    {
        match (&self.cause, self.step) {
            (Cause::Modifiers(_), Some(at)) => {
                if at < job.steps.len() {
                    job.steps[at].modifiers_expr()
                } else {
                    None
                }
            },
            _ => None,
        }
    }

    /// The error in words, for the job and the packages it came up with.
    pub fn message(&self, job: &Job, packages: &[Package]) -> (r: String)
        ensures
            r@ == self.message_text(*job, packages@),
    {
        let mut place = "job '".to_owned().concat(job.display_name()).concat("'");
        let ghost head = place@;
        let ghost mut step_part = Seq::<char>::empty();
        match self.step {
            Some(at) => {
                if at < job.steps.len() {
                    place = place.concat(", step '").concat(job.steps[at].name()).concat("'");
                    proof {
                        step_part = ", step '"@ + job.steps@[at as int].label() + "'"@;
                    }
                }
            },
            None => {},
        }
        assert(place@ =~= head + step_part);
        let ghost mut package_part = Seq::<char>::empty();
        match self.package {
            Some(at) => {
                if at < packages.len() {
                    place = place.concat(", package '").concat(packages[at].name.as_str()).concat(
                        "'",
                    );
                    proof {
                        package_part = ", package '"@ + packages@[at as int].name@ + "'"@;
                    }
                }
            },
            None => {},
        }
        assert(place@ =~= head + step_part + package_part);
        assert(place@ =~= self.place_text(*job, packages@));
        let cause = match self.modifiers_in_question(job) {
            Some(text) => {
                let cause = "Failed to evaluate modifiers expression '".to_owned().concat(
                    text,
                ).concat("': ").concat(self.cause.message().as_str());
                assert(cause@ =~= self.cause_text(*job));
                cause
            },
            None => self.cause.message(),
        };
        let r = "unable to evaluate the ".to_owned().concat(self.stage.name()).concat(" (").concat(
            place.as_str(),
        ).concat("): ").concat(cause.as_str());
        assert(r@ =~= self.message_text(*job, packages@));
        r
    }
}

/// What is pinned of a [`Cause`].
pub enum CauseView {
    Expression(Failure),
    Modifiers(modifier_expression::Fault),
}

/// What is pinned of a [`RunError`].
pub struct Fault {
    pub stage: Stage,
    pub step: Option<usize>,
    pub package: Option<usize>,
    pub cause: CauseView,
}

impl View for Cause {
    type V = CauseView;

    open spec fn view(&self) -> CauseView {
        match self {
            Cause::Expression(e) => CauseView::Expression(e@),
            Cause::Modifiers(e) => CauseView::Modifiers(e@),
        }
    }
}

impl View for RunError {
    type V = Fault;

    open spec fn view(&self) -> Fault {
        Fault { stage: self.stage, step: self.step, package: self.package, cause: self.cause@ }
    }
}

/// Whether the executable result `r` is the outcome `model`.
pub open spec fn agrees<T>(r: Result<T, RunError>, model: Result<T, Fault>) -> bool {
    match model {
        Ok(value) => r == Ok::<T, RunError>(value),
        Err(fault) => r matches Err(e) && e@ == fault,
    }
}

/// The variable lists for a job, a step's own variables and a package's.
pub open spec fn layers(
    settings: Settings,
    job: Job,
    step: Seq<Variable>,
    package: Seq<Variable>,
) -> Layers {
    Layers {
        environment: settings.environment@,
        workspace: settings.workspace_variables@,
        job: job.variables@,
        step: step,
        package: package,
        command_line: settings.command_line@,
    }
}

/// The variables of an optional package.
pub open spec fn variables_of(packages: Seq<Package>, package: Option<usize>) -> Seq<Variable> {
    match package {
        Some(at) => packages[at as int].variables@,
        None => Seq::empty(),
    }
}

/// A failed expression as the fault of a stage.
pub open spec fn staged(
    verdict: Result<bool, Failure>,
    stage: Stage,
    step: Option<usize>,
    package: Option<usize>,
) -> Result<bool, Fault> {
    match verdict {
        Ok(b) => Ok(b),
        Err(failure) => Err(
            Fault { stage, step, package, cause: CauseView::Expression(failure) },
        ),
    }
}

/// Whether the job's condition holds for a package, or, with `None`, for the
/// workspace as such.
pub open spec fn job_applies(
    settings: Settings,
    job: Job,
    packages: Seq<Package>,
    package: Option<usize>,
) -> Result<bool, Fault> {
    staged(
        job.conditional.verdict(
            bindings(
                layers(settings, job, Seq::empty(), variables_of(packages, package)).assembled(
                    Purpose::JobCondition,
                ),
            ),
        ),
        Stage::JobCondition,
        None,
        package,
    )
}

/// For each of the first `upto` packages, whether the job's condition holds
/// for it; the first package whose condition cannot be evaluated gives the
/// fault.
pub open spec fn eligibility(settings: Settings, job: Job, packages: Seq<Package>, upto: int) -> Result<
    Seq<bool>,
    Fault,
>
    decreases upto,
{
    if upto <= 0 {
        Ok(Seq::empty())
    } else {
        match eligibility(settings, job, packages, upto - 1) {
            Err(fault) => Err(fault),
            Ok(before) => match job_applies(settings, job, packages, Some((upto - 1) as usize)) {
                Err(fault) => Err(fault),
                Ok(b) => Ok(before.push(b)),
            },
        }
    }
}

/// Whether a job that is eligible for a package runs step `step` for it: the
/// step's condition has to hold, and then its modifier expression, if it has
/// one, over the flags the package declares.
pub open spec fn participates(
    settings: Settings,
    job: Job,
    step: usize,
    packages: Seq<Package>,
    package: usize,
) -> Result<bool, Fault> {
    let the_step = job.steps@[step as int];
    let the_package = packages[package as int];
    match staged(
        the_step.condition().verdict(
            bindings(
                layers(settings, job, Seq::empty(), the_package.variables@).assembled(
                    Purpose::StepCondition,
                ),
            ),
        ),
        Stage::StepCondition,
        Some(step),
        Some(package),
    ) {
        Err(fault) => Err(fault),
        Ok(false) => Ok(false),
        Ok(true) => match the_step.modifier_text() {
            None => Ok(true),
            Some(text) => match modifier_expression::evaluation(
                text,
                modifier_expression::flag_set(the_package.config.flags()),
            ) {
                Ok(b) => Ok(b),
                Err(fault) => Err(
                    Fault {
                        stage: Stage::StepModifiers,
                        step: Some(step),
                        package: Some(package),
                        cause: CauseView::Modifiers(fault),
                    },
                ),
            },
        },
    }
}

/// The packages among the first `upto` that step `step` runs for, in order;
/// the first package for which this cannot be decided gives the fault.
pub open spec fn selection(
    settings: Settings,
    job: Job,
    step: usize,
    packages: Seq<Package>,
    eligible: Seq<bool>,
    upto: int,
) -> Result<Seq<usize>, Fault>
    decreases upto,
{
    if upto <= 0 {
        Ok(Seq::empty())
    } else {
        match selection(settings, job, step, packages, eligible, upto - 1) {
            Err(fault) => Err(fault),
            Ok(before) => if !eligible[upto - 1] {
                Ok(before)
            } else {
                match participates(settings, job, step, packages, (upto - 1) as usize) {
                    Err(fault) => Err(fault),
                    Ok(true) => Ok(before.push((upto - 1) as usize)),
                    Ok(false) => Ok(before),
                }
            },
        }
    }
}

/// The variable lists of a job, as they are held.
pub(crate) fn sources<'a>(
    settings: &'a Settings,
    job: &'a Job,
    step: &'a [Variable],
    package: &'a [Variable],
) -> (r: Sources<'a>)
    ensures
        r@ == layers(*settings, *job, step@, package@),
{
    Sources {
        environment: settings.environment.as_slice(),
        workspace: settings.workspace_variables.as_slice(),
        job: job.variables.as_slice(),
        step,
        package,
        command_line: settings.command_line.as_slice(),
    }
}

/// The variables of the package at `package`, or none.
fn package_variables<'a>(packages: &'a [Package], package: Option<usize>) -> (r: &'a [Variable])
    requires
        package matches Some(at) ==> at < packages@.len(),
    ensures
        r@ == variables_of(packages@, package),
{
    match package {
        Some(at) => packages[at].variables.as_slice(),
        None => {
            let none: &[Variable] = &[];
            assert(none@ =~= Seq::<Variable>::empty());
            none
        },
    }
}

/// Puts an expression's verdict under the stage it was asked for at.
pub(crate) fn stage_result(
    r: Result<bool, ExpressionError>,
    stage: Stage,
    step: Option<usize>,
    package: Option<usize>,
) -> (staged_result: Result<bool, RunError>)
    ensures
        match r {
            Ok(b) => staged_result == Ok::<bool, RunError>(b),
            Err(e) => staged_result == Err::<bool, RunError>(
                RunError { stage, step, package, cause: Cause::Expression(e) },
            ),
        },
{
    match r {
        Ok(b) => Ok(b),
        Err(e) => Err(RunError { stage, step, package, cause: Cause::Expression(e) }),
    }
}

/// Evaluates the job's condition for a package, or, with `None`, for the
/// workspace as such.
pub fn check_job_condition(
    settings: &Settings,
    job: &Job,
    packages: &[Package],
    package: Option<usize>,
) -> (r: Result<bool, RunError>)
    requires
        package matches Some(at) ==> at < packages@.len(),
    ensures
        job.conditional.certain() ==> agrees(r, job_applies(*settings, *job, packages@, package)),
        r matches Err(e) ==> e.stage == Stage::JobCondition && e.step is None && e.package
            == package && e.cause is Expression,
{
    let none: &[Variable] = &[];
    assert(none@ =~= Seq::<Variable>::empty());
    let from = sources(settings, job, none, package_variables(packages, package));
    let variables = assemble(Purpose::JobCondition, &from);
    let verdict = job.conditional.evaluate(&variables);
    stage_result(verdict, Stage::JobCondition, None, package)
}

/// Evaluates the job's condition for every package.
pub fn eligible_packages(settings: &Settings, job: &Job, packages: &[Package]) -> (r: Result<
    Vec<bool>,
    RunError,
>)
    ensures
        job.conditional.certain() ==> match eligibility(
            *settings,
            *job,
            packages@,
            packages@.len() as int,
        ) {
            Ok(flags) => r matches Ok(eligible) && eligible@ == flags,
            Err(fault) => r matches Err(e) && e@ == fault,
        },
        r matches Ok(eligible) ==> eligible@.len() == packages@.len(),
        r matches Err(e) ==> e.stage == Stage::JobCondition && e.step is None && (
        e.package matches Some(at) && at < packages@.len()) && e.cause is Expression,
{
    let mut eligible: Vec<bool> = Vec::new();
    let mut i: usize = 0;
    while i < packages.len()
        invariant
            i <= packages@.len(),
            eligible@.len() == i,
            job.conditional.certain() ==> eligibility(*settings, *job, packages@, i as int)
                == Ok::<Seq<bool>, Fault>(eligible@),
        decreases packages@.len() - i,
    {
        match check_job_condition(settings, job, packages, Some(i)) {
            Ok(b) => {
                eligible.push(b);
            },
            Err(e) => {
                proof {
                    if job.conditional.certain() {
                        lemma_eligibility_fault(
                            *settings,
                            *job,
                            packages@,
                            i + 1,
                            packages@.len() as int,
                        );
                    }
                }
                return Err(e);
            },
        }
        i += 1;
    }
    Ok(eligible)
}

/// A fault among the first packages stays the fault when more are looked at.
pub proof fn lemma_eligibility_fault(
    settings: Settings,
    job: Job,
    packages: Seq<Package>,
    upto: int,
    all: int,
)
    requires
        0 <= upto <= all,
        eligibility(settings, job, packages, upto) is Err,
    ensures
        eligibility(settings, job, packages, all) == eligibility(settings, job, packages, upto),
    decreases all - upto,
{
    if upto < all {
        lemma_eligibility_fault(settings, job, packages, upto, all - 1);
    }
}

/// A fault among the first packages stays the fault when more are looked at.
pub proof fn lemma_selection_fault(
    settings: Settings,
    job: Job,
    step: usize,
    packages: Seq<Package>,
    eligible: Seq<bool>,
    upto: int,
    all: int,
)
    requires
        0 <= upto <= all,
        selection(settings, job, step, packages, eligible, upto) is Err,
    ensures
        selection(settings, job, step, packages, eligible, all) == selection(
            settings,
            job,
            step,
            packages,
            eligible,
            upto,
        ),
    decreases all - upto,
{
    if upto < all {
        lemma_selection_fault(settings, job, step, packages, eligible, upto, all - 1);
    }
}

/// Decides whether step `step` of a job runs for a package that the job is
/// eligible for.
pub fn check_participation(
    settings: &Settings,
    job: &Job,
    step: usize,
    packages: &[Package],
    package: usize,
) -> (r: Result<bool, RunError>)
    requires
        step < job.steps@.len(),
        package < packages@.len(),
    ensures
        job.steps@[step as int].condition().certain() ==> agrees(
            r,
            participates(*settings, *job, step, packages@, package),
        ),
        r matches Err(e) ==> e.step == Some(step) && e.package == Some(package),
{
    let the_step = &job.steps[step];
    let the_package = &packages[package];
    let none: &[Variable] = &[];
    assert(none@ =~= Seq::<Variable>::empty());
    let from = sources(settings, job, none, the_package.variables.as_slice());
    let variables = assemble(Purpose::StepCondition, &from);
    let verdict = the_step.conditional().evaluate(&variables);
    let runs = stage_result(verdict, Stage::StepCondition, Some(step), Some(package))?;
    if !runs {
        return Ok(false);
    }
    match the_step.modifiers_expr() {
        None => Ok(true),
        Some(text) => match modifier_expression::evaluate(text, the_package.config.declared()) {
            Ok(b) => Ok(b),
            Err(e) => Err(
                RunError {
                    stage: Stage::StepModifiers,
                    step: Some(step),
                    package: Some(package),
                    cause: Cause::Modifiers(e),
                },
            ),
        },
    }
}

/// Works out the packages that step `step` runs for.
pub fn select_for_step(
    settings: &Settings,
    job: &Job,
    step: usize,
    packages: &[Package],
    eligible: &[bool],
) -> (r: Result<Vec<usize>, RunError>)
    requires
        step < job.steps@.len(),
        eligible@.len() == packages@.len(),
    ensures
        job.steps@[step as int].condition().certain() ==> match selection(
            *settings,
            *job,
            step,
            packages@,
            eligible@,
            packages@.len() as int,
        ) {
            Ok(chosen) => r matches Ok(list) && list@ == chosen,
            Err(fault) => r matches Err(e) && e@ == fault,
        },
        r matches Ok(list) ==> list@.len() <= packages@.len() && forall|k: int|
            0 <= k < list@.len() ==> #[trigger] list@[k] < packages@.len(),
        r matches Err(e) ==> e.step == Some(step) && (e.package matches Some(at) && at
            < packages@.len()),
{
    let mut chosen: Vec<usize> = Vec::new();
    let mut i: usize = 0;
    while i < packages.len()
        invariant
            step < job.steps@.len(),
            eligible@.len() == packages@.len(),
            i <= packages@.len(),
            chosen@.len() <= i,
            forall|k: int| 0 <= k < chosen@.len() ==> #[trigger] chosen@[k] < i,
            job.steps@[step as int].condition().certain() ==> selection(
                *settings,
                *job,
                step,
                packages@,
                eligible@,
                i as int,
            ) == Ok::<Seq<usize>, Fault>(chosen@),
        decreases packages@.len() - i,
    {
        if eligible[i] {
            match check_participation(settings, job, step, packages, i) {
                Ok(true) => {
                    chosen.push(i);
                },
                Ok(false) => {},
                Err(e) => {
                    proof {
                        if job.steps@[step as int].condition().certain() {
                            lemma_selection_fault(
                                *settings,
                                *job,
                                step,
                                packages@,
                                eligible@,
                                i + 1,
                                packages@.len() as int,
                            );
                        }
                    }
                    return Err(e);
                },
            }
        }
        i += 1;
    }
    Ok(chosen)
}


/// Where a command is dispatched to.
#[derive(Debug, Clone, Copy, PartialEq, Eq, Structural)]
pub enum Target {
    /// Once, for the workspace as a whole.
    Workspace,
    /// For the package at this position among the packages of the run.
    Package(usize),
}

/// One command to execute.
#[derive(Debug, Clone, PartialEq, Eq)]
pub struct Dispatch {
    /// The position of the step within its job.
    pub step: usize,
    /// What the command is run for.
    pub target: Target,
    /// The command line, for the shell.
    pub command: String,
    /// The directory to run the command in.
    pub working_directory: String,
    /// The variables that say what the command is run for: `CI_JOB` with
    /// the job's identifier and, for a package, `CI_PACKAGE_NAME` with the
    /// package's name.
    pub identity: Vec<Variable>,
    /// The variables to run the command with, one entry per name.
    pub environment: Vec<Variable>,
    /// Whether the job goes on if the command fails.
    pub continue_on_error: bool,
}

/// The names and values of a variable list, as texts.
pub open spec fn named(variables: Seq<Variable>) -> Seq<(Seq<char>, Seq<char>)> {
    variables.map_values(|v: Variable| (v.name@, v.value@))
}

/// What a [`Dispatch`] says.
pub struct DispatchView {
    pub step: usize,
    pub target: Target,
    pub command: Seq<char>,
    pub working_directory: Seq<char>,
    pub identity: Seq<(Seq<char>, Seq<char>)>,
    pub environment: Seq<Variable>,
    pub continue_on_error: bool,
}

impl View for Dispatch {
    type V = DispatchView;

    open spec fn view(&self) -> DispatchView {
        DispatchView {
            step: self.step,
            target: self.target,
            command: self.command@,
            working_directory: self.working_directory@,
            identity: named(self.identity@),
            environment: self.environment@,
            continue_on_error: self.continue_on_error,
        }
    }
}

/// What a list of dispatches says.
pub open spec fn views(list: Seq<Dispatch>) -> Seq<DispatchView> {
    list.map_values(|d: Dispatch| d@)
}

/// The package of a target, if it is one.
pub open spec fn package_of(target: Target) -> Option<usize> {
    match target {
        Target::Workspace => None,
        Target::Package(at) => Some(at),
    }
}

/// The variable lists for dispatching step `step` to `target`.
pub open spec fn dispatch_layers(
    settings: Settings,
    job: Job,
    step: usize,
    packages: Seq<Package>,
    target: Target,
) -> Layers {
    layers(
        settings,
        job,
        job.steps@[step as int].own_variables(),
        variables_of(packages, package_of(target)),
    )
}

/// The variables that say what a command is run for: `CI_JOB` with the
/// job's identifier and, for a package, `CI_PACKAGE_NAME` with the
/// package's name.
pub open spec fn identity_of(job: Job, packages: Seq<Package>, target: Target) -> Seq<
    (Seq<char>, Seq<char>),
> {
    match target {
        Target::Workspace => seq![("CI_JOB"@, job.id@)],
        Target::Package(at) => seq![
            ("CI_JOB"@, job.id@),
            ("CI_PACKAGE_NAME"@, packages[at as int].name@),
        ],
    }
}

/// The dispatch of step `step` to `target`, where a failure of it is
/// tolerated or not as `tolerated` says: the step's command, in the
/// directory the step asks for or else that of the target, with the
/// variables that say what it is run for and the variables for execution,
/// one entry for each name. A package's variables take part only where the
/// step is declared per package.
pub open spec fn dispatch_with(
    settings: Settings,
    job: Job,
    step: usize,
    packages: Seq<Package>,
    target: Target,
    tolerated: bool,
) -> DispatchView {
    let the_step = job.steps@[step as int];
    let per_package = the_step.is_per_package();
    let from = dispatch_layers(settings, job, step, packages, target);
    DispatchView {
        step,
        target,
        command: the_step.command_text(),
        working_directory: match the_step.directory() {
            Some(directory) => directory,
            None => match target {
                Target::Workspace => settings.workspace_root@,
                Target::Package(at) => packages[at as int].root@,
            },
        },
        identity: identity_of(job, packages, target),
        environment: flattened(from.assembled(Purpose::StepExecution { per_package })),
        continue_on_error: tolerated,
    }
}

/// The dispatch of step `step` to `target`, with the step's tolerance of
/// failure as it is evaluated for the target; an error in that is the
/// fault.
pub open spec fn dispatch_of(
    settings: Settings,
    job: Job,
    step: usize,
    packages: Seq<Package>,
    target: Target,
) -> Result<DispatchView, Fault> {
    let the_step = job.steps@[step as int];
    let per_package = the_step.is_per_package();
    let from = dispatch_layers(settings, job, step, packages, target);
    match the_step.tolerance().verdict(
        bindings(from.assembled(Purpose::StepContinueOnError { per_package })),
    ) {
        Err(failure) => Err(
            Fault {
                stage: Stage::StepContinueOnError,
                step: Some(step),
                package: package_of(target),
                cause: CauseView::Expression(failure),
            },
        ),
        Ok(tolerated) => Ok(dispatch_with(settings, job, step, packages, target, tolerated)),
    }
}

/// Whether `list` has the shape of a plan of step `step`: at most one
/// dispatch for each package, or one alone; each for a package of the run
/// or for the workspace, and each the dispatch of the step to its target,
/// whatever its tolerance of failure.
pub open spec fn plan_shaped(
    settings: Settings,
    job: Job,
    step: usize,
    packages: Seq<Package>,
    list: Seq<DispatchView>,
) -> bool {
    &&& list.len() <= packages.len() || list.len() == 1
    &&& forall|i: int|
        0 <= i < list.len() ==> {
            &&& ((#[trigger] list[i]).target matches Target::Package(at) ==> at < packages.len())
            &&& list[i] == dispatch_with(
                settings,
                job,
                step,
                packages,
                list[i].target,
                list[i].continue_on_error,
            )
        }
}

/// The dispatches of step `step` to the first `upto` of the packages
/// `chosen`; the first that cannot be made gives the fault.
pub open spec fn dispatches(
    settings: Settings,
    job: Job,
    step: usize,
    packages: Seq<Package>,
    chosen: Seq<usize>,
    upto: int,
) -> Result<Seq<DispatchView>, Fault>
    decreases upto,
{
    if upto <= 0 {
        Ok(Seq::empty())
    } else {
        match dispatches(settings, job, step, packages, chosen, upto - 1) {
            Err(fault) => Err(fault),
            Ok(before) => match dispatch_of(
                settings,
                job,
                step,
                packages,
                Target::Package(chosen[upto - 1]),
            ) {
                Err(fault) => Err(fault),
                Ok(dispatch) => Ok(before.push(dispatch)),
            },
        }
    }
}

/// The plan for step `step`. Where the step runs for every package of the
/// run and is not declared per package, it is dispatched once, for the
/// workspace; otherwise once for each package it runs for, which is not at
/// all where it runs for none. A run without packages is a run for the
/// workspace alone.
pub open spec fn plan(
    settings: Settings,
    job: Job,
    step: usize,
    packages: Seq<Package>,
    eligible: Seq<bool>,
) -> Result<Seq<DispatchView>, Fault> {
    match selection(settings, job, step, packages, eligible, packages.len() as int) {
        Err(fault) => Err(fault),
        Ok(chosen) => if chosen.len() != packages.len() || job.steps@[step as int].is_per_package() {
            dispatches(settings, job, step, packages, chosen, chosen.len() as int)
        } else {
            match dispatch_of(settings, job, step, packages, Target::Workspace) {
                Err(fault) => Err(fault),
                Ok(dispatch) => Ok(seq![dispatch]),
            }
        },
    }
}

/// A fault among the first dispatches stays the fault when more are made.
pub proof fn lemma_dispatches_fault(
    settings: Settings,
    job: Job,
    step: usize,
    packages: Seq<Package>,
    chosen: Seq<usize>,
    upto: int,
    all: int,
)
    requires
        0 <= upto <= all,
        dispatches(settings, job, step, packages, chosen, upto) is Err,
    ensures
        dispatches(settings, job, step, packages, chosen, all) == dispatches(
            settings,
            job,
            step,
            packages,
            chosen,
            upto,
        ),
    decreases all - upto,
{
    if upto < all {
        lemma_dispatches_fault(settings, job, step, packages, chosen, upto, all - 1);
    }
}

/// A step that sets no condition of its own: it has no condition and no
/// modifier expression, it is not declared per package, and whether a
/// failure of it is tolerated is fixed. A bare command is such a step.
pub open spec fn unconditional(step: Step) -> bool {
    &&& step.condition() == Conditional::Bool(true)
    &&& step.modifier_text() is None
    &&& step.tolerance() is Bool
    &&& !step.is_per_package()
}

proof fn lemma_unconditional_selection(
    settings: Settings,
    job: Job,
    step: usize,
    packages: Seq<Package>,
    eligible: Seq<bool>,
    upto: int,
)
    requires
        step < job.steps@.len(),
        unconditional(job.steps@[step as int]),
        0 <= upto <= packages.len(),
        eligible.len() == packages.len(),
        forall|i: int| 0 <= i < eligible.len() ==> eligible[i],
    ensures
        selection(settings, job, step, packages, eligible, upto) matches Ok(chosen)
            && chosen.len() == upto,
    decreases upto,
{
    if upto > 0 {
        lemma_unconditional_selection(settings, job, step, packages, eligible, upto - 1);
        assert(participates(settings, job, step, packages, (upto - 1) as usize) == Ok::<
            bool,
            Fault,
        >(true));
    }
}

/// A step that sets no condition of its own, in a job that is eligible for
/// every package of the run, is dispatched exactly once: for the workspace,
/// with the step's command, and this whatever the number of packages.
pub proof fn lemma_unconditional_step_runs_once(
    settings: Settings,
    job: Job,
    step: usize,
    packages: Seq<Package>,
    eligible: Seq<bool>,
)
    requires
        step < job.steps@.len(),
        unconditional(job.steps@[step as int]),
        eligible.len() == packages.len(),
        forall|i: int| 0 <= i < eligible.len() ==> eligible[i],
    ensures
        plan(settings, job, step, packages, eligible) matches Ok(dispatches) && dispatches.len()
            == 1 && dispatches[0].target == Target::Workspace && dispatches[0].command
            == job.steps@[step as int].command_text(),
{
    lemma_unconditional_selection(settings, job, step, packages, eligible, packages.len() as int);
}

proof fn lemma_selection_skips(
    settings: Settings,
    job: Job,
    step: usize,
    packages: Seq<Package>,
    eligible: Seq<bool>,
    upto: int,
)
    requires
        0 <= upto <= eligible.len(),
        forall|i: int| 0 <= i < upto ==> !eligible[i],
    ensures
        selection(settings, job, step, packages, eligible, upto) == Ok::<Seq<usize>, Fault>(
            Seq::empty(),
        ),
    decreases upto,
{
    if upto > 0 {
        lemma_selection_skips(settings, job, step, packages, eligible, upto - 1);
    }
}

/// A modifier expression that cannot be evaluated is an error of the plan,
/// in a dry run as in any other: where a step without a condition has such
/// an expression, the plan of the step fails at the first package that the
/// job is eligible for, with the fault of the expression.
pub proof fn lemma_malformed_modifiers_fail_the_plan(
    settings: Settings,
    job: Job,
    step: usize,
    packages: Seq<Package>,
    eligible: Seq<bool>,
    first: usize,
)
    requires
        step < job.steps@.len(),
        eligible.len() == packages.len(),
        first < packages.len(),
        eligible[first as int],
        forall|i: int| 0 <= i < first ==> !eligible[i],
        job.steps@[step as int].condition() == Conditional::Bool(true),
        job.steps@[step as int].modifier_text() matches Some(text)
            && modifier_expression::evaluation(
            text,
            modifier_expression::flag_set(packages[first as int].config.flags()),
        ) is Err,
    ensures
        plan(settings, job, step, packages, eligible) matches Err(fault) && fault.stage
            == Stage::StepModifiers && fault.step == Some(step) && fault.package == Some(first)
            && (fault.cause matches CauseView::Modifiers(inner) && Err::<
            bool,
            modifier_expression::Fault,
        >(inner) == modifier_expression::evaluation(
            job.steps@[step as int].modifier_text()->0,
            modifier_expression::flag_set(packages[first as int].config.flags()),
        )),
{
    lemma_selection_skips(settings, job, step, packages, eligible, first as int);
    assert(selection(settings, job, step, packages, eligible, first + 1) is Err);
    lemma_selection_fault(
        settings,
        job,
        step,
        packages,
        eligible,
        first + 1,
        packages.len() as int,
    );
}

/// A job without a condition is eligible for every package.
pub proof fn lemma_job_without_condition_is_eligible(
    settings: Settings,
    job: Job,
    packages: Seq<Package>,
    upto: int,
)
    requires
        job.conditional == Conditional::Bool(true),
        0 <= upto <= packages.len(),
    ensures
        eligibility(settings, job, packages, upto) matches Ok(flags) && flags.len() == upto && (
        forall|i: int| 0 <= i < flags.len() ==> flags[i]),
    decreases upto,
{
    if upto > 0 {
        lemma_job_without_condition_is_eligible(settings, job, packages, upto - 1);
    }
}

/// A plan has at most one dispatch for each package, or the one for the
/// workspace.
pub proof fn lemma_plan_size(
    settings: Settings,
    job: Job,
    step: usize,
    packages: Seq<Package>,
    eligible: Seq<bool>,
)
    ensures
        plan(settings, job, step, packages, eligible) matches Ok(p) ==> p.len() <= packages.len()
            || p.len() == 1,
{
    match selection(settings, job, step, packages, eligible, packages.len() as int) {
        Err(_) => {},
        Ok(chosen) => {
            lemma_selection_size(settings, job, step, packages, eligible, packages.len() as int);
            lemma_dispatches_size(settings, job, step, packages, chosen, chosen.len() as int);
        },
    }
}

proof fn lemma_selection_size(
    settings: Settings,
    job: Job,
    step: usize,
    packages: Seq<Package>,
    eligible: Seq<bool>,
    upto: int,
)
    requires
        0 <= upto,
    ensures
        selection(settings, job, step, packages, eligible, upto) matches Ok(chosen)
            ==> chosen.len() <= upto,
    decreases upto,
{
    if upto > 0 {
        lemma_selection_size(settings, job, step, packages, eligible, upto - 1);
    }
}

proof fn lemma_dispatches_size(
    settings: Settings,
    job: Job,
    step: usize,
    packages: Seq<Package>,
    chosen: Seq<usize>,
    upto: int,
)
    requires
        0 <= upto,
    ensures
        dispatches(settings, job, step, packages, chosen, upto) matches Ok(list) ==> list.len()
            == upto,
    decreases upto,
{
    if upto > 0 {
        lemma_dispatches_size(settings, job, step, packages, chosen, upto - 1);
    }
}

/// Makes the dispatch of step `step` to `target`.
pub fn make_dispatch(
    settings: &Settings,
    job: &Job,
    step: usize,
    packages: &[Package],
    target: Target,
) -> (r: Result<Dispatch, RunError>)
    requires
        step < job.steps@.len(),
        target matches Target::Package(at) ==> at < packages@.len(),
    ensures
        job.steps@[step as int].tolerance().certain() ==> match dispatch_of(
            *settings,
            *job,
            step,
            packages@,
            target,
        ) {
            Ok(model) => r matches Ok(dispatch) && dispatch@ == model,
            Err(fault) => r matches Err(e) && e@ == fault,
        },
        match r {
            Ok(dispatch) => dispatch@ == dispatch_with(
                *settings,
                *job,
                step,
                packages@,
                target,
                dispatch.continue_on_error,
            ),
            Err(e) => e.stage == Stage::StepContinueOnError && e.step == Some(step) && e.package
                == package_of(target) && e.cause is Expression,
        },
{
    let the_step = &job.steps[step];
    let per_package = the_step.per_package();
    let package = match target {
        Target::Workspace => None,
        Target::Package(at) => Some(at),
    };
    let from = sources(settings, job, the_step.variables(), package_variables(packages, package));
    let deciding = assemble(Purpose::StepContinueOnError { per_package }, &from);
    let tolerated = match the_step.continue_on_error().evaluate(&deciding) {
        Ok(b) => b,
        Err(e) => {
            return Err(
                RunError {
                    stage: Stage::StepContinueOnError,
                    step: Some(step),
                    package,
                    cause: Cause::Expression(e),
                },
            );
        },
    };
    let running = assemble(Purpose::StepExecution { per_package }, &from);
    let environment = flatten(running.as_slice());
    let working_directory = match the_step.working_directory() {
        Some(directory) => directory.to_owned(),
        None => match target {
            Target::Workspace => settings.workspace_root.clone(),
            Target::Package(at) => packages[at].root.clone(),
        },
    };
    let mut identity: Vec<Variable> = Vec::new();
    identity.push(Variable::new("CI_JOB".to_owned(), job.id.as_str().to_owned()));
    match target {
        Target::Workspace => {},
        Target::Package(at) => {
            identity.push(Variable::new("CI_PACKAGE_NAME".to_owned(), packages[at].name.clone()));
        },
    }
    assert(named(identity@) =~= identity_of(*job, packages@, target));
    Ok(
        Dispatch {
            step,
            target,
            command: the_step.command().to_owned(),
            working_directory,
            identity,
            environment,
            continue_on_error: tolerated,
        },
    )
}

/// The variables to hand to the host with the command of a dispatch: those
/// that say what the command is run for, and then the variables for
/// execution. The host reads them in this order, so a variable for
/// execution takes the place of one of the first kind that has its name.
pub fn command_variables(dispatch: &Dispatch) -> (variables: Vec<Variable>)
    ensures
        variables@ == dispatch.identity@ + dispatch.environment@,
{
    let mut variables = clone_variables(dispatch.identity.as_slice());
    let ghost head = variables@;
    let mut i: usize = 0;
    assert(variables@ =~= head + dispatch.environment@.take(0));
    while i < dispatch.environment.len()
        invariant
            i <= dispatch.environment@.len(),
            head == dispatch.identity@,
            variables@ == head + dispatch.environment@.take(i as int),
        decreases dispatch.environment@.len() - i,
    {
        variables.push(dispatch.environment[i].clone());
        assert(variables@ =~= head + dispatch.environment@.take(i + 1));
        i += 1;
    }
    assert(dispatch.environment@.take(i as int) =~= dispatch.environment@);
    variables
}

/// Works out the plan for step `step` of a job: the dispatches to make, in
/// the order of the packages, or the first evaluation error.
pub fn plan_step(
    settings: &Settings,
    job: &Job,
    step: usize,
    packages: &[Package],
    eligible: &[bool],
) -> (r: Result<Vec<Dispatch>, RunError>)
    requires
        step < job.steps@.len(),
        eligible@.len() == packages@.len(),
    ensures
        job.steps@[step as int].certain() ==> match plan(
            *settings,
            *job,
            step,
            packages@,
            eligible@,
        ) {
            Ok(model) => r matches Ok(list) && views(list@) == model,
            Err(fault) => r matches Err(e) && e@ == fault,
        },
        match r {
            Ok(list) => plan_shaped(*settings, *job, step, packages@, views(list@)),
            Err(e) => e.step == Some(step),
        },
{
    let ghost sure = job.steps@[step as int].certain();
    let chosen = select_for_step(settings, job, step, packages, eligible)?;
    let mut list: Vec<Dispatch> = Vec::new();
    assert(views(list@) =~= Seq::<DispatchView>::empty());
    if chosen.len() != packages.len() || job.steps[step].per_package() {
        let mut k: usize = 0;
        while k < chosen.len()
            invariant
                step < job.steps@.len(),
                k <= chosen@.len(),
                chosen@.len() <= packages@.len(),
                sure == job.steps@[step as int].certain(),
                sure ==> selection(
                    *settings,
                    *job,
                    step,
                    packages@,
                    eligible@,
                    packages@.len() as int,
                ) == Ok::<Seq<usize>, Fault>(chosen@),
                chosen@.len() != packages@.len() || job.steps@[step as int].is_per_package(),
                forall|e: int| 0 <= e < chosen@.len() ==> #[trigger] chosen@[e] < packages@.len(),
                sure ==> dispatches(*settings, *job, step, packages@, chosen@, k as int) == Ok::<
                    Seq<DispatchView>,
                    Fault,
                >(views(list@)),
                list@.len() == k,
                plan_shaped(*settings, *job, step, packages@, views(list@)),
            decreases chosen@.len() - k,
        {
            let ghost before = views(list@);
            match make_dispatch(settings, job, step, packages, Target::Package(chosen[k])) {
                Ok(dispatch) => {
                    list.push(dispatch);
                    assert(views(list@) =~= before.push(dispatch@));
                },
                Err(e) => {
                    proof {
                        if sure {
                            lemma_dispatches_fault(
                                *settings,
                                *job,
                                step,
                                packages@,
                                chosen@,
                                k + 1,
                                chosen@.len() as int,
                            );
                        }
                    }
                    return Err(e);
                },
            }
            k += 1;
        }
    } else {
        let dispatch = make_dispatch(settings, job, step, packages, Target::Workspace)?;
        list.push(dispatch);
        assert(views(list@) =~= seq![dispatch@]);
    }
    Ok(list)
}

/// The dispatches of a plan are for steps of the job and packages of the
/// run.
pub proof fn lemma_plan_targets(
    settings: Settings,
    job: Job,
    step: usize,
    packages: Seq<Package>,
    eligible: Seq<bool>,
)
    requires
        step < job.steps@.len(),
        packages.len() <= usize::MAX,
    ensures
        plan(settings, job, step, packages, eligible) matches Ok(list) ==> forall|i: int|
            0 <= i < list.len() ==> (#[trigger] list[i]).step == step && (
            list[i].target matches Target::Package(at) ==> at < packages.len()),
{
    match selection(settings, job, step, packages, eligible, packages.len() as int) {
        Err(_) => {},
        Ok(chosen) => {
            lemma_selection_bounds(settings, job, step, packages, eligible, packages.len() as int);
            lemma_dispatches_targets(settings, job, step, packages, chosen, chosen.len() as int);
        },
    }
}

proof fn lemma_selection_bounds(
    settings: Settings,
    job: Job,
    step: usize,
    packages: Seq<Package>,
    eligible: Seq<bool>,
    upto: int,
)
    requires
        0 <= upto <= usize::MAX,
    ensures
        selection(settings, job, step, packages, eligible, upto) matches Ok(chosen) ==> forall|
            k: int,
        |
            0 <= k < chosen.len() ==> #[trigger] chosen[k] < upto,
    decreases upto,
{
    if upto > 0 {
        lemma_selection_bounds(settings, job, step, packages, eligible, upto - 1);
    }
}

proof fn lemma_dispatches_targets(
    settings: Settings,
    job: Job,
    step: usize,
    packages: Seq<Package>,
    chosen: Seq<usize>,
    upto: int,
)
    requires
        0 <= upto <= chosen.len(),
    ensures
        dispatches(settings, job, step, packages, chosen, upto) matches Ok(list) ==> list.len()
            == upto && forall|i: int|
            0 <= i < upto ==> (#[trigger] list[i]).step == step && list[i].target
                == Target::Package(chosen[i]),
    decreases upto,
{
    if upto > 0 {
        lemma_dispatches_targets(settings, job, step, packages, chosen, upto - 1);
    }
}

} // verus!
