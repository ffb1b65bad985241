//! The state of a job while it is run.
//!
//! A job is run step by step, in declared order. Executing the commands of a
//! step is left to the caller, who may run them one by one or many at a
//! time, and reports back what came of each. [`JobRun`] keeps the state of
//! the job in between and decides how it goes on: [`advanced`] and
//! [`recorded`] say how. Where a condition is an expression with `^`, whose
//! value is not said, [`can_open`] and [`can_follow`] say what holds
//! whatever it comes to.

use vstd::prelude::*;
use crate::host::ExecutionResult;
use crate::job::Job;
use crate::job_result::JobResult;
use crate::package::Package;
use crate::expression::Conditional;
use crate::plan::{
    check_job_condition, eligibility, eligible_packages, job_applies,
    lemma_job_without_condition_is_eligible, lemma_unconditional_step_runs_once, plan,
    plan_shaped, plan_step, unconditional, views, Dispatch, DispatchView, Fault, RunError,
    Settings, Stage,
};

verus! {

/// How far a job has come.
#[derive(Debug, Clone, Copy, PartialEq, Eq, Structural)]
pub enum Status {
    /// Steps are left to run.
    Running,
    /// Every step has run, and no failure ended the job.
    Completed,
    /// A failure that was not tolerated, or an evaluation error, ended the
    /// job.
    Failed,
    /// The job's condition holds for nothing; no step was run.
    Skipped,
}

/// What the caller is to do next for a job.
#[derive(Debug, Clone, PartialEq, Eq)]
pub enum Action {
    /// Execute these commands, in any order or at the same time, and report
    /// what came of each with [`JobRun::record`].
    Execute(Vec<Dispatch>),
    /// A dry run: these commands would be executed. Nothing is to be
    /// reported back.
    Planned(Vec<Dispatch>),
    /// The job has ended.
    Finished,
}

/// A command with what came of executing it.
#[derive(Debug, Clone, PartialEq, Eq)]
pub struct Finished {
    pub dispatch: Dispatch,
    pub result: ExecutionResult,
}

/// The number of commands among `finished` that failed.
pub open spec fn failed(finished: Seq<Finished>) -> nat
    decreases finished.len(),
{
    if finished.len() == 0 {
        0
    } else {
        failed(finished.drop_last()) + if finished.last().result.success {
            0nat
        } else {
            1nat
        }
    }
}

/// Whether a command among `finished` failed whose failure is not
/// tolerated.
pub open spec fn any_fatal(finished: Seq<Finished>) -> bool {
    exists|i: int|
        0 <= i < finished.len() && !(#[trigger] finished[i]).result.success
            && !finished[i].dispatch.continue_on_error
}

/// The number of dispatches a step can have at most: one for each package,
/// or the one for the workspace.
pub open spec fn width(packages: nat) -> nat {
    if packages == 0 {
        1
    } else {
        packages
    }
}

/// How a job opens: for which packages it is eligible, and whether there is
/// anything to run it for. With no package at all the job's condition is
/// evaluated once, without package variables.
pub open spec fn opening(settings: Settings, job: Job, packages: Seq<Package>) -> Result<
    (Seq<bool>, Status),
    Fault,
> {
    if packages.len() == 0 {
        match job_applies(settings, job, packages, None) {
            Err(fault) => Err(fault),
            Ok(applies) => Ok(
                (
                    Seq::empty(),
                    if applies {
                        Status::Running
                    } else {
                        Status::Skipped
                    },
                ),
            ),
        }
    } else {
        match eligibility(settings, job, packages, packages.len() as int) {
            Err(fault) => Err(fault),
            Ok(flags) => Ok(
                (
                    flags,
                    if flags.contains(true) {
                        Status::Running
                    } else {
                        Status::Skipped
                    },
                ),
            ),
        }
    }
}

/// What an [`Action`] says.
pub enum ActionView {
    Execute(Seq<DispatchView>),
    Planned(Seq<DispatchView>),
    Finished,
}

impl View for Action {
    type V = ActionView;

    open spec fn view(&self) -> ActionView {
        match self {
            Action::Execute(list) => ActionView::Execute(views(list@)),
            Action::Planned(list) => ActionView::Planned(views(list@)),
            Action::Finished => ActionView::Finished,
        }
    }
}

/// What a [`JobRun`] says.
pub struct RunState {
    pub eligible: Seq<bool>,
    pub step_count: nat,
    pub width: nat,
    pub cursor: nat,
    pub awaiting: Option<nat>,
    pub steps: nat,
    pub failures: nat,
    pub status: Status,
    pub error: Option<Fault>,
}

/// The state in which a job opens: `Skipped` where its condition holds for
/// nothing, `Failed` with one failure where the condition cannot be
/// evaluated, and otherwise `Running`, with its first step next.
pub open spec fn opened(settings: Settings, job: Job, packages: Seq<Package>) -> RunState {
    match opening(settings, job, packages) {
        Ok((flags, status)) => RunState {
            eligible: flags,
            step_count: job.steps@.len(),
            width: width(packages.len()),
            cursor: 0,
            awaiting: None,
            steps: 0,
            failures: 0,
            status,
            error: None,
        },
        Err(fault) => RunState {
            eligible: Seq::empty(),
            step_count: job.steps@.len(),
            width: width(packages.len()),
            cursor: 0,
            awaiting: None,
            steps: 0,
            failures: 1,
            status: Status::Failed,
            error: Some(fault),
        },
    }
}

/// What comes next in `state`, and the state after it.
///
/// A job that has ended stays as it is. A running job with no step left is
/// `Completed`. Otherwise the next step is planned: in a dry run its
/// dispatches are counted and handed back as `Planned`, and the job moves
/// on; else they are handed back as `Execute`, and the job waits for them.
/// An evaluation error ends the job as `Failed`, with one failure more.
pub open spec fn advanced(
    state: RunState,
    settings: Settings,
    job: Job,
    packages: Seq<Package>,
) -> (RunState, ActionView) {
    if state.status != Status::Running {
        (state, ActionView::Finished)
    } else if state.cursor >= job.steps@.len() {
        (RunState { status: Status::Completed, ..state }, ActionView::Finished)
    } else {
        match plan(settings, job, state.cursor as usize, packages, state.eligible) {
            Err(fault) => (
                RunState {
                    status: Status::Failed,
                    failures: state.failures + 1,
                    error: Some(fault),
                    ..state
                },
                ActionView::Finished,
            ),
            Ok(model) => if settings.dry_run {
                (
                    RunState {
                        steps: state.steps + model.len(),
                        cursor: state.cursor + 1,
                        ..state
                    },
                    ActionView::Planned(model),
                )
            } else {
                (RunState { awaiting: Some(model.len()), ..state }, ActionView::Execute(model))
            },
        }
    }
}

/// The state after the commands of the step in hand have come to
/// `finished`: each counts as executed, and each that failed as a failure.
/// The job goes on with the next step unless one failed whose failure is not
/// tolerated: then it is `Failed`.
pub open spec fn recorded(state: RunState, finished: Seq<Finished>) -> RunState {
    RunState {
        steps: state.steps + finished.len(),
        failures: state.failures + failed(finished),
        cursor: state.cursor + 1,
        awaiting: None,
        status: if any_fatal(finished) {
            Status::Failed
        } else {
            state.status
        },
        ..state
    }
}

/// The state in which a dry run of a job ends, from `state` on: step after
/// step is planned and counted, until none is left or one cannot be planned.
pub open spec fn planned_through(
    state: RunState,
    settings: Settings,
    job: Job,
    packages: Seq<Package>,
) -> RunState
    decreases job.steps@.len() - state.cursor,
{
    let (after, action) = advanced(state, settings, job, packages);
    if settings.dry_run && action is Planned {
        planned_through(after, settings, job, packages)
    } else {
        after
    }
}

/// The dispatches of the commands that `finished` reports on, in its order.
pub open spec fn reported(finished: Seq<Finished>) -> Seq<DispatchView> {
    Seq::new(finished.len(), |i: int| finished[i].dispatch@)
}

/// Whether `after` and `action` can follow `state` when a job is taken one
/// step further, whatever planning the step that is next comes to: a job
/// that has ended stays as it is; a running job with no step left is
/// `Completed`; otherwise an error ends the job as `Failed` with one
/// failure more, or a list in the shape of a plan of the step is handed
/// out: in a dry run counted, else waited for.
pub open spec fn can_follow(
    state: RunState,
    after: RunState,
    action: ActionView,
    settings: Settings,
    job: Job,
    packages: Seq<Package>,
) -> bool {
    if state.status != Status::Running {
        after == state && action == ActionView::Finished
    } else if state.cursor >= job.steps@.len() {
        after == (RunState { status: Status::Completed, ..state }) && action
            == ActionView::Finished
    } else {
        match action {
            ActionView::Finished => (after.error matches Some(fault) && fault.step == Some(
                state.cursor as usize,
            )) && after == (RunState {
                status: Status::Failed,
                failures: state.failures + 1,
                error: after.error,
                ..state
            }),
            ActionView::Planned(list) => settings.dry_run && plan_shaped(
                settings,
                job,
                state.cursor as usize,
                packages,
                list,
            ) && after == (RunState {
                steps: state.steps + list.len(),
                cursor: state.cursor + 1,
                ..state
            }),
            ActionView::Execute(list) => !settings.dry_run && plan_shaped(
                settings,
                job,
                state.cursor as usize,
                packages,
                list,
            ) && after == (RunState { awaiting: Some(list.len()), ..state }),
        }
    }
}

/// Whether a job can open in `state`, whatever evaluating its condition
/// comes to: with nothing counted and its first step next, and `Failed`
/// with one failure exactly where the condition could not be evaluated.
pub open spec fn can_open(state: RunState, job: Job, packages: Seq<Package>) -> bool {
    &&& state.step_count == job.steps@.len()
    &&& state.width == width(packages.len())
    &&& state.cursor == 0
    &&& state.steps == 0
    &&& state.awaiting is None
    &&& match state.error {
        Some(fault) => state.status == Status::Failed && state.failures == 1 && fault.stage
            == Stage::JobCondition && fault.step is None,
        None => state.failures == 0 && (state.status == Status::Skipped || (state.status
            == Status::Running && state.eligible.len() == packages.len() && (packages.len() == 0
            || state.eligible.contains(true)))),
    }
}

/// The state that a job comes to, from `state` on, where the commands of
/// the steps that are executed come to `reports`: one report for each such
/// step, in the order of the steps. Step after step is planned; a step that
/// is handed out for execution is recorded with the first report that is
/// left. Where the reports run out, the job waits for the next one.
pub open spec fn played(
    state: RunState,
    settings: Settings,
    job: Job,
    packages: Seq<Package>,
    reports: Seq<Seq<Finished>>,
) -> RunState
    decreases job.steps@.len() - state.cursor,
{
    let (after, action) = advanced(state, settings, job, packages);
    match action {
        ActionView::Finished => after,
        ActionView::Planned(_) => played(after, settings, job, packages, reports),
        ActionView::Execute(_) => if reports.len() == 0 {
            after
        } else {
            played(
                recorded(after, reports.first()),
                settings,
                job,
                packages,
                reports.drop_first(),
            )
        },
    }
}

/// Whether `reports` answer what a job hands out from `state` on: each step
/// that is handed out for execution has its report, on exactly the
/// dispatches that were handed out and in their order, and when the job has
/// ended no report is left.
pub open spec fn answered(
    state: RunState,
    settings: Settings,
    job: Job,
    packages: Seq<Package>,
    reports: Seq<Seq<Finished>>,
) -> bool
    decreases job.steps@.len() - state.cursor,
{
    let (after, action) = advanced(state, settings, job, packages);
    match action {
        ActionView::Finished => reports.len() == 0,
        ActionView::Planned(_) => answered(after, settings, job, packages, reports),
        ActionView::Execute(model) => reports.len() > 0 && reported(reports.first()) == model
            && answered(
            recorded(after, reports.first()),
            settings,
            job,
            packages,
            reports.drop_first(),
        ),
    }
}

/// A job that does not open as running has ended as it opened: nothing is
/// handed out, and no report changes it.
pub proof fn lemma_unopened_job_stays(
    settings: Settings,
    job: Job,
    packages: Seq<Package>,
    reports: Seq<Seq<Finished>>,
)
    requires
        opened(settings, job, packages).status != Status::Running,
    ensures
        played(opened(settings, job, packages), settings, job, packages, reports) == opened(
            settings,
            job,
            packages,
        ),
        answered(opened(settings, job, packages), settings, job, packages, reports)
            <==> reports.len() == 0,
{
}

/// A job whose condition holds for no package ends `Skipped`, without a
/// failure and without a step, whatever the mode of the run.
pub proof fn lemma_job_for_nothing_is_skipped(
    settings: Settings,
    job: Job,
    packages: Seq<Package>,
    reports: Seq<Seq<Finished>>,
)
    requires
        opening(settings, job, packages) matches Ok((_, status)) && status == Status::Skipped,
    ensures
        played(opened(settings, job, packages), settings, job, packages, reports).status
            == Status::Skipped,
        played(opened(settings, job, packages), settings, job, packages, reports).failures == 0,
        played(opened(settings, job, packages), settings, job, packages, reports).steps == 0,
        advanced(opened(settings, job, packages), settings, job, packages).1
            == ActionView::Finished,
{
}

/// In a dry run no report is waited for: the job ends as planning it
/// through says, and only the empty list of reports answers it.
pub proof fn lemma_dry_run_plays_as_planned(
    state: RunState,
    settings: Settings,
    job: Job,
    packages: Seq<Package>,
    reports: Seq<Seq<Finished>>,
)
    requires
        settings.dry_run,
    ensures
        played(state, settings, job, packages, reports) == planned_through(
            state,
            settings,
            job,
            packages,
        ),
        answered(state, settings, job, packages, reports) <==> reports.len() == 0,
    decreases job.steps@.len() - state.cursor,
{
    let (after, action) = advanced(state, settings, job, packages);
    if action is Planned {
        lemma_dry_run_plays_as_planned(after, settings, job, packages, reports);
    }
}

/// The state in which a dry run of a job ends.
pub open spec fn dry_outcome(settings: Settings, job: Job, packages: Seq<Package>) -> RunState {
    planned_through(opened(settings, job, packages), settings, job, packages)
}

/// An evaluation error is raised before anything is executed, in a dry
/// run as in any other: a job whose condition cannot be evaluated opens as
/// `Failed` with that error, and where the step that comes next for a
/// running job cannot be planned the job ends `Failed` with the error of
/// the plan and one failure more, whatever would be reported.
pub proof fn lemma_evaluation_errors_end_the_job(
    state: RunState,
    settings: Settings,
    job: Job,
    packages: Seq<Package>,
    reports: Seq<Seq<Finished>>,
)
    ensures
        opening(settings, job, packages) matches Err(fault) ==> {
            let end = played(opened(settings, job, packages), settings, job, packages, reports);
            end == opened(settings, job, packages) && end.status == Status::Failed && end.error
                == Some(fault) && end.failures == 1 && end.steps == 0
        },
        state.status == Status::Running && state.cursor < job.steps@.len() ==> (plan(
            settings,
            job,
            state.cursor as usize,
            packages,
            state.eligible,
        ) matches Err(fault) ==> {
            let end = played(state, settings, job, packages, reports);
            end.status == Status::Failed && end.error == Some(fault) && end.failures
                == state.failures + 1 && end.steps == state.steps && end == planned_through(
                state,
                settings,
                job,
                packages,
            )
        }),
{
}

/// A job without steps that opens as running is `Completed` at once:
/// nothing is handed out, and nothing is counted.
pub proof fn lemma_job_without_steps_completes(
    settings: Settings,
    job: Job,
    packages: Seq<Package>,
    reports: Seq<Seq<Finished>>,
)
    requires
        job.steps@.len() == 0,
        opened(settings, job, packages).status == Status::Running,
    ensures
        played(opened(settings, job, packages), settings, job, packages, reports) == (RunState {
            status: Status::Completed,
            ..opened(settings, job, packages)
        }),
        answered(opened(settings, job, packages), settings, job, packages, reports)
            <==> reports.len() == 0,
{
}

/// A failure that is not tolerated ends the job where it stands: with the
/// report of such a failure for the step in hand the job is `Failed`, the
/// steps after it are never handed out, and no later report counts.
pub proof fn lemma_fatal_failure_ends_play(
    state: RunState,
    settings: Settings,
    job: Job,
    packages: Seq<Package>,
    reports: Seq<Seq<Finished>>,
)
    requires
        advanced(state, settings, job, packages).1 is Execute,
        reports.len() > 0,
        any_fatal(reports.first()),
    ensures
        played(state, settings, job, packages, reports) == recorded(
            advanced(state, settings, job, packages).0,
            reports.first(),
        ),
        played(state, settings, job, packages, reports).status == Status::Failed,
        played(state, settings, job, packages, reports).cursor == state.cursor + 1,
        answered(state, settings, job, packages, reports) ==> reports.len() == 1,
{
    let after = advanced(state, settings, job, packages).0;
    let then = recorded(after, reports.first());
    assert(played(then, settings, job, packages, reports.drop_first()) == then);
    assert(answered(then, settings, job, packages, reports.drop_first())
        <==> reports.drop_first().len() == 0);
}

proof fn lemma_unconditional_steps_from(
    state: RunState,
    settings: Settings,
    job: Job,
    packages: Seq<Package>,
)
    requires
        settings.dry_run,
        forall|k: int| 0 <= k < job.steps@.len() ==> unconditional(#[trigger] job.steps@[k]),
        state.status == Status::Running,
        state.cursor <= job.steps@.len(),
        state.eligible.len() == packages.len(),
        forall|i: int| 0 <= i < state.eligible.len() ==> state.eligible[i],
    ensures
        planned_through(state, settings, job, packages) == (RunState {
            status: Status::Completed,
            steps: (state.steps + job.steps@.len() - state.cursor) as nat,
            cursor: job.steps@.len(),
            ..state
        }),
    decreases job.steps@.len() - state.cursor,
{
    if state.cursor < job.steps@.len() {
        let step = state.cursor as usize;
        assert(unconditional(job.steps@[step as int]));
        lemma_unconditional_step_runs_once(settings, job, step, packages, state.eligible);
        let (after, action) = advanced(state, settings, job, packages);
        lemma_unconditional_steps_from(after, settings, job, packages);
    }
}

/// A dry run of a job without a condition, whose steps set no conditions
/// of their own, plans every step once, whatever the number of packages:
/// the job ends `Completed` with as many steps counted as it has, and
/// without a failure.
pub proof fn lemma_dry_run_counts_every_step(
    settings: Settings,
    job: Job,
    packages: Seq<Package>,
)
    requires
        settings.dry_run,
        job.conditional == Conditional::Bool(true),
        forall|k: int| 0 <= k < job.steps@.len() ==> unconditional(#[trigger] job.steps@[k]),
    ensures
        dry_outcome(settings, job, packages).status == Status::Completed,
        dry_outcome(settings, job, packages).steps == job.steps@.len(),
        dry_outcome(settings, job, packages).failures == 0,
        dry_outcome(settings, job, packages).error is None,
{
    lemma_job_without_condition_is_eligible(settings, job, packages, packages.len() as int);
    let first = opened(settings, job, packages);
    if packages.len() > 0 {
        let flags = eligibility(settings, job, packages, packages.len() as int)->Ok_0;
        assert(flags[0]);
        assert(flags.contains(true));
    }
    assert(first.status == Status::Running);
    assert(first.eligible.len() == packages.len());
    lemma_unconditional_steps_from(first, settings, job, packages);
}

/// In a dry run nothing is ever handed out for execution.
pub proof fn lemma_dry_run_executes_nothing(
    state: RunState,
    settings: Settings,
    job: Job,
    packages: Seq<Package>,
)
    requires
        settings.dry_run,
    ensures
        !(advanced(state, settings, job, packages).1 is Execute),
        advanced(state, settings, job, packages).0.awaiting == state.awaiting,
{
}

/// A job that has ended stays as it is, and nothing more is planned for it.
pub proof fn lemma_ended_job_stays(
    state: RunState,
    settings: Settings,
    job: Job,
    packages: Seq<Package>,
)
    requires
        state.status != Status::Running,
    ensures
        advanced(state, settings, job, packages) == (state, ActionView::Finished),
{
}

/// A step whose failures are all tolerated lets the job go on: the failures
/// are counted, and what comes next is the plan of the following step.
pub proof fn lemma_tolerated_failures_go_on(
    state: RunState,
    finished: Seq<Finished>,
    settings: Settings,
    job: Job,
    packages: Seq<Package>,
)
    requires
        state.status == Status::Running,
        !any_fatal(finished),
        state.cursor + 1 < job.steps@.len(),
        state.cursor + 1 <= usize::MAX,
    ensures
        recorded(state, finished).status == Status::Running,
        recorded(state, finished).failures == state.failures + failed(finished),
        match plan(settings, job, (state.cursor + 1) as usize, packages, state.eligible) {
            Ok(model) => advanced(recorded(state, finished), settings, job, packages).1 == if settings.dry_run {
                ActionView::Planned(model)
            } else {
                ActionView::Execute(model)
            },
            Err(_) => advanced(recorded(state, finished), settings, job, packages).1
                == ActionView::Finished,
        },
{
}

/// A failure that is not tolerated ends the job: it is `Failed`, and no
/// step that is left is planned any more.
pub proof fn lemma_fatal_failure_ends_job(
    state: RunState,
    finished: Seq<Finished>,
    settings: Settings,
    job: Job,
    packages: Seq<Package>,
)
    requires
        any_fatal(finished),
    ensures
        recorded(state, finished).status == Status::Failed,
        failed(finished) >= 1,
        advanced(recorded(state, finished), settings, job, packages) == (
            recorded(state, finished),
            ActionView::Finished,
        ),
{
    lemma_fatal_is_failed(finished);
}

/// A fatal failure is a failure.
proof fn lemma_fatal_is_failed(finished: Seq<Finished>)
    requires
        any_fatal(finished),
    ensures
        failed(finished) >= 1,
    decreases finished.len(),
{
    let at = choose|at: int|
        0 <= at < finished.len() && !(#[trigger] finished[at]).result.success
            && !finished[at].dispatch.continue_on_error;
    if at < finished.len() - 1 {
        let front = finished.drop_last();
        assert(!front[at].result.success && !front[at].dispatch.continue_on_error);
        lemma_fatal_is_failed(front);
    }
}

/// The state of one job while it is run.
#[derive(Debug, Clone, PartialEq, Eq)]
pub struct JobRun {
    /// For each package of the run, whether the job's condition holds for it.
    pub eligible: Vec<bool>,
    /// The number of steps the job has.
    pub step_count: usize,
    /// The number of dispatches a step can have at most.
    pub width: usize,
    /// The position of the step that comes next.
    pub cursor: usize,
    /// The number of commands handed out for execution and not reported yet.
    pub awaiting: Option<usize>,
    /// The number of commands executed so far, or in a dry run planned.
    pub steps: usize,
    /// The number of failures so far.
    pub failures: usize,
    /// How far the job has come.
    pub status: Status,
    /// The evaluation error that ended the job, if one did.
    pub error: Option<RunError>,
}

impl View for JobRun {
    type V = RunState;

    open spec fn view(&self) -> RunState {
        RunState {
            eligible: self.eligible@,
            step_count: self.step_count as nat,
            width: self.width as nat,
            cursor: self.cursor as nat,
            awaiting: match self.awaiting {
                Some(n) => Some(n as nat),
                None => None,
            },
            steps: self.steps as nat,
            failures: self.failures as nat,
            status: self.status,
            error: match self.error {
                Some(e) => Some(e@),
                None => None,
            },
        }
    }
}

impl JobRun {
    /// What holds of the state between any two calls.
    pub open spec fn wf(&self) -> bool {
        &&& self.width >= 1
        &&& self.step_count * self.width < usize::MAX
        &&& self.cursor <= self.step_count
        &&& self.steps <= self.cursor * self.width
        &&& self.failures <= self.steps + 1
        &&& (self.error is Some ==> self.status == Status::Failed)
        &&& (self.status == Status::Failed ==> self.failures >= 1)
        &&& (self.awaiting matches Some(n) ==> n <= self.width && self.status == Status::Running
            && self.cursor < self.step_count && self.failures <= self.steps)
        &&& (self.status == Status::Running ==> self.failures <= self.steps)
    }

    /// Whether the state belongs to this job and these packages.
    pub open spec fn fits(&self, job: Job, packages: Seq<Package>) -> bool {
        &&& self.step_count == job.steps@.len()
        &&& self.width == width(packages.len())
        &&& (self.status == Status::Running ==> self.eligible@.len() == packages.len())
    }

    /// Whether the counters of a run of `job` for `packages` can be held:
    /// [`JobRun::start`] asks for this.
    pub fn has_room(job: &Job, packages: &[Package]) -> (r: bool)
        ensures
            r == (job.steps@.len() * width(packages@.len()) < usize::MAX),
    {
        let count = packages.len();
        let width: usize = if count == 0 {
            1
        } else {
            count
        };
        match job.steps.len().checked_mul(width) {
            Some(product) => product < usize::MAX,
            None => false,
        }
    }

    /// Opens a job: evaluates its condition for every package.
    ///
    /// The job is `Skipped` where the condition holds for no package,
    /// `Failed` where it cannot be evaluated, and otherwise `Running`, with
    /// its first step next.
    ///
    /// Where the job's condition is an expression with `^`, how it opens
    /// depends on what evaluating it comes to; [`can_open`] holds in any
    /// case.
    pub fn start(settings: &Settings, job: &Job, packages: &[Package]) -> (run: Self)
        requires
            job.steps@.len() * width(packages@.len()) < usize::MAX,
        ensures
            run.wf(),
            run.fits(*job, packages@),
            can_open(run@, *job, packages@),
            job.conditional.certain() ==> run@ == opened(*settings, *job, packages@),
    {
        let count = packages.len();
        let step_count = job.steps.len();
        let width: usize = if count == 0 {
            1
        } else {
            count
        };
        let opened = if count == 0 {
            match check_job_condition(settings, job, packages, None) {
                Ok(applies) => Ok((Vec::new(), applies)),
                Err(e) => Err(e),
            }
        } else {
            match eligible_packages(settings, job, packages) {
                Ok(eligible) => {
                    let any = contains_true(&eligible);
                    Ok((eligible, any))
                },
                Err(e) => Err(e),
            }
        };
        assert(0 * width == 0);
        match opened {
            Ok((eligible, any)) => JobRun {
                eligible,
                step_count,
                width,
                cursor: 0,
                awaiting: None,
                steps: 0,
                failures: 0,
                status: if any {
                    Status::Running
                } else {
                    Status::Skipped
                },
                error: None,
            },
            Err(e) => JobRun {
                eligible: Vec::new(),
                step_count,
                width,
                cursor: 0,
                awaiting: None,
                steps: 0,
                failures: 1,
                status: Status::Failed,
                error: Some(e),
            },
        }
    }

    /// Decides what comes next for the job.
    ///
    /// A job that has ended stays as it is. A running job with no step left
    /// is `Completed`. Otherwise the next step is planned: in a dry run its
    /// dispatches are counted and handed back as `Planned`, and the job moves
    /// on; else they are handed back as `Execute`, and the job waits for
    /// [`JobRun::record`]. An evaluation error ends the job as `Failed`, with
    /// one failure more and the error kept.
    ///
    /// Where a condition of the step that is next is an expression with
    /// `^`, the plan depends on what evaluating it comes to; [`can_follow`]
    /// holds in any case.
    pub fn next(&mut self, settings: &Settings, job: &Job, packages: &[Package]) -> (action: Action)
        requires
            old(self).wf(),
            old(self).fits(*job, packages@),
            old(self).awaiting is None,
        ensures
            final(self).wf(),
            final(self).fits(*job, packages@),
            can_follow(old(self)@, final(self)@, action@, *settings, *job, packages@),
            (old(self).cursor < job.steps@.len() ==> job.steps@[old(self).cursor as int].certain())
                ==> final(self)@ == advanced(old(self)@, *settings, *job, packages@).0 && action@
                == advanced(old(self)@, *settings, *job, packages@).1,
            settings.dry_run ==> !(action is Execute),
    {
        match self.status {
            Status::Running => {},
            _ => {
                return Action::Finished;
            },
        }
        if self.cursor == job.steps.len() {
            self.status = Status::Completed;
            return Action::Finished;
        }
        proof {
            lemma_room(self.cursor as int, self.step_count as int, self.width as int);
        }
        let list = match plan_step(settings, job, self.cursor, packages, self.eligible.as_slice()) {
            Ok(list) => list,
            Err(e) => {
                self.status = Status::Failed;
                self.failures = self.failures + 1;
                self.error = Some(e);
                return Action::Finished;
            },
        };
        proof {
            assert(views(list@).len() == list@.len());
            assert(list@.len() <= self.width);
            lemma_room(self.cursor as int, self.step_count as int, self.width as int);
        }
        if settings.dry_run {
            self.steps = self.steps + list.len();
            self.cursor = self.cursor + 1;
            Action::Planned(list)
        } else {
            self.awaiting = Some(list.len());
            Action::Execute(list)
        }
    }

    /// Takes in what came of the commands of the step in hand.
    ///
    /// Each command counts as executed, and each that failed as a failure.
    /// The job goes on with the next step unless a command failed whose
    /// failure is not tolerated: then the steps that are left are given up,
    /// and the job is `Failed`. The order of `finished` does not matter.
    pub fn record(&mut self, finished: &[Finished])
        requires
            old(self).wf(),
            old(self).awaiting == Some(finished@.len() as usize),
        ensures
            final(self).wf(),
            final(self)@ == recorded(old(self)@, finished@),
    {
        let mut failures: usize = 0;
        let mut fatal = false;
        let mut i: usize = 0;
        while i < finished.len()
            invariant
                i <= finished@.len(),
                failures == failed(finished@.take(i as int)),
                failures <= i,
                fatal == any_fatal(finished@.take(i as int)),
            decreases finished@.len() - i,
        {
            let entry = &finished[i];
            proof {
                let now = finished@.take(i + 1);
                let before = finished@.take(i as int);
                assert(now.drop_last() =~= before);
                assert(now.last() == finished@[i as int]);
                if any_fatal(before) {
                    let at = choose|at: int|
                        0 <= at < before.len() && !(#[trigger] before[at]).result.success
                            && !before[at].dispatch.continue_on_error;
                    assert(now[at] == before[at]);
                }
                if any_fatal(now) && !any_fatal(before) {
                    let at = choose|at: int|
                        0 <= at < now.len() && !(#[trigger] now[at]).result.success
                            && !now[at].dispatch.continue_on_error;
                    if at < i {
                        assert(before[at] == now[at]);
                    }
                }
                if !entry.result.success && !entry.dispatch.continue_on_error {
                    assert(!now[i as int].result.success);
                }
            }
            if !entry.result.success {
                failures = failures + 1;
                if !entry.dispatch.continue_on_error {
                    fatal = true;
                }
            }
            i += 1;
        }
        proof {
            assert(finished@.take(i as int) =~= finished@);
            lemma_room(self.cursor as int, self.step_count as int, self.width as int);
            if any_fatal(finished@) {
                lemma_fatal_is_failed(finished@);
            }
        }
        self.steps = self.steps + finished.len();
        self.failures = self.failures + failures;
        self.cursor = self.cursor + 1;
        self.awaiting = None;
        if fatal {
            self.status = Status::Failed;
        }
    }

    /// The outcome of the job, for the summary.
    pub fn finish(&self, name: String, packages: usize, dry_run: bool) -> (r: JobResult)
        ensures
            r.name == name,
            r.packages == packages,
            r.steps == self.steps,
            r.failures == self.failures,
            r.dry_run == dry_run,
    {
        JobResult::new(name, packages, self.steps, self.failures, dry_run)
    }
}

/// One step more fits where the job's steps all fit.
proof fn lemma_room(cursor: int, step_count: int, width: int)
    requires
        0 <= cursor < step_count,
        1 <= width,
    ensures
        cursor * width + width <= step_count * width,
        (cursor + 1) * width == cursor * width + width,
        0 <= cursor * width,
{
    assert(cursor * width + width == (cursor + 1) * width) by (nonlinear_arith);
    assert((cursor + 1) * width <= step_count * width) by (nonlinear_arith)
        requires
            cursor + 1 <= step_count,
            1 <= width,
    ;
    assert(0 <= cursor * width) by (nonlinear_arith)
        requires
            0 <= cursor,
            1 <= width,
    ;
}

/// Whether a flag of `flags` is set.
fn contains_true(flags: &Vec<bool>) -> (r: bool)
    ensures
        r == flags@.contains(true),
{
    let mut i: usize = 0;
    while i < flags.len()
        invariant
            i <= flags@.len(),
            forall|k: int| 0 <= k < i ==> !flags@[k],
        decreases flags@.len() - i,
    {
        if flags[i] {
            return true;
        }
        i += 1;
    }
    false
}

/// Taking one entry out of a list takes its failure out of the count.
proof fn lemma_failed_remove(finished: Seq<Finished>, at: int)
    requires
        0 <= at < finished.len(),
    ensures
        failed(finished) == failed(finished.remove(at)) + if finished[at].result.success {
            0nat
        } else {
            1nat
        },
    decreases finished.len(),
{
    let rest = finished.remove(at);
    if at == finished.len() - 1 {
        assert(rest =~= finished.drop_last());
    } else {
        assert(rest.drop_last() =~= finished.drop_last().remove(at));
        assert(rest.last() == finished.last());
        lemma_failed_remove(finished.drop_last(), at);
    }
}

/// What a step's commands come to does not depend on the order in which
/// they are reported: two reports of the same outcomes, in whatever order,
/// count the same failures and agree on whether one of them is fatal. So a
/// job ends the same whether its commands ran one by one or side by side.
pub proof fn lemma_order_of_reports(a: Seq<Finished>, b: Seq<Finished>)
    requires
        a.to_multiset() == b.to_multiset(),
    ensures
        failed(a) == failed(b),
        any_fatal(a) == any_fatal(b),
    decreases a.len(),
{
    vstd::seq_lib::to_multiset_len(a);
    vstd::seq_lib::to_multiset_len(b);
    if a.len() == 0 {
        assert(b.len() == 0);
    } else {
        let x = a.last();
        let front = a.drop_last();
        assert(a =~= front.push(x));
        vstd::seq_lib::to_multiset_build(front, x);
        vstd::seq_lib::to_multiset_contains(a, x);
        vstd::seq_lib::to_multiset_contains(b, x);
        assert(a[a.len() - 1] == x);
        assert(a.contains(x));
        assert(b.contains(x));
        let at = choose|at: int| 0 <= at < b.len() && b[at] == x;
        let rest = b.remove(at);
        vstd::seq_lib::to_multiset_remove(b, at);
        assert(front.to_multiset() =~= a.to_multiset().remove(x));
        assert(rest.to_multiset() =~= b.to_multiset().remove(x));
        lemma_order_of_reports(front, rest);
        lemma_failed_remove(b, at);
        if any_fatal(a) {
            let i = choose|i: int|
                0 <= i < a.len() && !(#[trigger] a[i]).result.success
                    && !a[i].dispatch.continue_on_error;
            if i < front.len() {
                assert(front[i] == a[i]);
                assert(any_fatal(front));
                let j = choose|j: int|
                    0 <= j < rest.len() && !(#[trigger] rest[j]).result.success
                        && !rest[j].dispatch.continue_on_error;
                let k = if j < at {
                    j
                } else {
                    j + 1
                };
                assert(b[k] == rest[j]);
            } else {
                assert(b[at] == a[i]);
            }
            assert(any_fatal(b));
        }
        if any_fatal(b) {
            let j = choose|j: int|
                0 <= j < b.len() && !(#[trigger] b[j]).result.success
                    && !b[j].dispatch.continue_on_error;
            if j == at {
                assert(a[a.len() - 1] == b[j]);
            } else {
                let k = if j < at {
                    j
                } else {
                    j - 1
                };
                assert(rest[k] == b[j]);
                assert(any_fatal(rest));
                let i = choose|i: int|
                    0 <= i < front.len() && !(#[trigger] front[i]).result.success
                        && !front[i].dispatch.continue_on_error;
                assert(a[i] == front[i]);
            }
            assert(any_fatal(a));
        }
    }
}

/// A job ends the same in whatever order the outcomes of a step are
/// reported: the counts and the verdict after two reports of the same
/// outcomes are the same.
pub proof fn lemma_recorded_in_any_order(state: RunState, a: Seq<Finished>, b: Seq<Finished>)
    requires
        a.to_multiset() == b.to_multiset(),
    ensures
        recorded(state, a) == recorded(state, b),
{
    lemma_order_of_reports(a, b);
    vstd::seq_lib::to_multiset_len(a);
    vstd::seq_lib::to_multiset_len(b);
}

} // verus!
