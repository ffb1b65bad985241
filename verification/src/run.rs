//! Running jobs on a host.
//!
//! [`run_job`] runs one job to its end and [`run_jobs`] a whole run, with
//! the commands executed by a [`Host`], one after the other. What is run is
//! decided by the plan of each step; what a failure does, by the state of
//! the job and, between jobs, by whether the failure of the job is
//! tolerated. How a job and a run end is said for every job whose
//! conditions are certain: fixed, or expressions without `^`.

use vstd::prelude::*;
use crate::host::{ExecutionResult, Host};
use crate::job::Job;
use crate::job_result::{print_summary, sums_up, totals_fit, JobResult, Summary};
use crate::job_run::{
    answered, dry_outcome, lemma_dry_run_plays_as_planned, opened, planned_through, played,
    reported, width, Action, Finished, JobRun, RunState, Status,
};
use crate::package::Package;
use crate::plan::{
    agrees, command_variables, layers, sources, stage_result, staged, views, Dispatch,
    DispatchView, Fault, RunError, Settings, Stage, Target,
};
use crate::variables::{assemble, bindings, Purpose, Variable};

verus! {

/// Whether a failure of the job lets the run go on to the next job: where
/// the job says so, or the run is set to keep going. The job's answer is
/// evaluated in any case, so that an error in it shows.
pub open spec fn tolerance(settings: Settings, job: Job) -> Result<bool, Fault> {
    match staged(
        job.continue_on_error.verdict(
            bindings(
                layers(settings, job, Seq::empty(), Seq::empty()).assembled(
                    Purpose::JobContinueOnError,
                ),
            ),
        ),
        Stage::JobContinueOnError,
        None,
        None,
    ) {
        Ok(tolerated) => Ok(tolerated || settings.keep_going),
        Err(fault) => Err(fault),
    }
}

/// Evaluates, before a job is run, whether its failure would let the run go
/// on.
pub fn tolerates_failure(settings: &Settings, job: &Job) -> (r: Result<bool, RunError>)
    ensures
        job.continue_on_error.certain() ==> agrees(r, tolerance(*settings, *job)),
        match r {
            Ok(tolerated) => settings.keep_going ==> tolerated,
            Err(e) => e.stage == Stage::JobContinueOnError && e.step is None && e.package is None
                && e.cause is Expression,
        },
{
    let none: &[Variable] = &[];
    assert(none@ =~= Seq::<Variable>::empty());
    let from = sources(settings, job, none, none);
    let variables = assemble(Purpose::JobContinueOnError, &from);
    let verdict = job.continue_on_error.evaluate(&variables);
    let tolerated = stage_result(verdict, Stage::JobContinueOnError, None, None)?;
    Ok(tolerated || settings.keep_going)
}

/// How a run goes on after a job.
#[derive(Debug, Clone, Copy, PartialEq, Eq, Structural)]
pub enum Verdict {
    /// Go on with the next job.
    Proceed,
    /// Give up the jobs that are left; the job's failure ends the run.
    Abort,
}

/// Decides how the run goes on after a job that ended with `status`: a
/// failed job whose failure is not tolerated ends the run.
pub fn after_job(status: Status, tolerated: bool) -> (r: Verdict)
    ensures
        r == if status == Status::Failed && !tolerated {
            Verdict::Abort
        } else {
            Verdict::Proceed
        },
{
    match status {
        Status::Failed => if tolerated {
            Verdict::Proceed
        } else {
            Verdict::Abort
        },
        _ => Verdict::Proceed,
    }
}

/// The line that says which step is dispatched, and for which package.
pub open spec fn announced(job: Job, dispatch: DispatchView, packages: Seq<Package>) -> Seq<char> {
    "["@ + job.label() + "] "@ + job.steps@[dispatch.step as int].label() + match dispatch.target {
        Target::Workspace => Seq::empty(),
        Target::Package(at) => " ("@ + packages[at as int].name@ + ")"@,
    }
}

/// The line that says which step is dispatched, and for which package.
pub fn announcement(job: &Job, dispatch: &Dispatch, packages: &[Package]) -> (line: String)
    requires
        dispatch.step < job.steps@.len(),
        dispatch.target matches Target::Package(at) ==> at < packages@.len(),
    ensures
        line@ == announced(*job, dispatch@, packages@),
{
    let line = "[".to_owned().concat(job.display_name()).concat("] ").concat(
        job.steps[dispatch.step].name(),
    );
    match dispatch.target {
        Target::Workspace => {
            assert(line@ + Seq::<char>::empty() =~= line@);
            line
        },
        Target::Package(at) => {
            let with_package = line.concat(" (").concat(packages[at].name.as_str()).concat(")");
            assert(with_package@ =~= announced(*job, dispatch@, packages@));
            with_package
        },
    }
}

/// Executes the commands of a plan one after the other, in the order of the
/// plan, each announced on standard output. A command that cannot be run at
/// all counts as failed, and the reason goes to standard error.
pub fn execute_plan<H: Host>(host: &H, job: &Job, packages: &[Package], plan: Vec<Dispatch>) -> (finished:
    Vec<Finished>)
    requires
        forall|i: int|
            0 <= i < plan@.len() ==> (#[trigger] plan@[i]).step < job.steps@.len() && (
            plan@[i].target matches Target::Package(at) ==> at < packages@.len()),
    ensures
        finished@.len() == plan@.len(),
        forall|i: int| 0 <= i < plan@.len() ==> (#[trigger] finished@[i]).dispatch == plan@[i],
{
    let mut finished: Vec<Finished> = Vec::new();
    let mut plan = plan;
    let ghost whole = plan@;
    let mut reversed: Vec<Dispatch> = Vec::new();
    while plan.len() > 0
        invariant
            plan@.len() + reversed@.len() == whole.len(),
            forall|i: int| 0 <= i < plan@.len() ==> plan@[i] == whole[i],
            forall|i: int|
                0 <= i < reversed@.len() ==> reversed@[i] == whole[whole.len() - 1 - i],
        decreases plan@.len(),
    {
        match plan.pop() {
            Some(dispatch) => {
                reversed.push(dispatch);
            },
            None => {},
        }
    }
    while reversed.len() > 0
        invariant
            finished@.len() + reversed@.len() == whole.len(),
            forall|i: int|
                0 <= i < reversed@.len() ==> reversed@[i] == whole[whole.len() - 1 - i],
            forall|i: int| 0 <= i < finished@.len() ==> (#[trigger] finished@[i]).dispatch == whole[i],
            forall|i: int|
                0 <= i < whole.len() ==> (#[trigger] whole[i]).step < job.steps@.len() && (
                whole[i].target matches Target::Package(at) ==> at < packages@.len()),
        decreases reversed@.len(),
    {
        match reversed.pop() {
            Some(dispatch) => {
                assert(dispatch == whole[finished@.len() as int]);
                host.println(announcement(job, &dispatch, packages).as_str());
                let result = match host.execute(
                    dispatch.command.as_str(),
                    dispatch.working_directory.as_str(),
                    command_variables(&dispatch).as_slice(),
                ) {
                    Ok(result) => result,
                    Err(reason) => {
                        host.eprintln(reason.as_str());
                        ExecutionResult::failure(None)
                    },
                };
                finished.push(Finished { dispatch, result });
            },
            None => {},
        }
    }
    finished
}

/// Whether a job that is run from its opening ends in `end`: there are
/// reports, one for each step that is handed out for execution and on
/// exactly the commands handed out, with which the job comes from its
/// opening to `end`, and `end` is no longer running.
pub open spec fn ends_in(settings: Settings, job: Job, packages: Seq<Package>, end: RunState) -> bool {
    &&& end.status != Status::Running
    &&& exists|reports: Seq<Seq<Finished>>| #[trigger]
        answered(opened(settings, job, packages), settings, job, packages, reports) && end
            == played(opened(settings, job, packages), settings, job, packages, reports)
}

/// Runs a job to its end, with the commands of each step executed by
/// `host` one after the other.
///
/// The job opens as [`opened`] says, and where it does not open as running
/// it has ended: `Skipped` where its condition holds for no package,
/// `Failed` where the condition cannot be evaluated. Otherwise step after
/// step is planned, its commands are executed and what came of them is
/// recorded, as [`played`] says of the host's reports, until the job is
/// `Completed` or `Failed`. In a dry run nothing is executed, each step that
/// is planned is announced on standard output, and the job ends as
/// [`planned_through`] says.
///
/// Where a condition of the job is an expression with `^`, what it comes
/// to is not said: the job still runs to its end in this way, on whatever
/// the evaluations come to.
pub fn run_job<H: Host>(host: &H, settings: &Settings, job: &Job, packages: &[Package]) -> (run:
    JobRun)
    requires
        job.steps@.len() * width(packages@.len()) < usize::MAX,
    ensures
        run.wf(),
        run.fits(*job, packages@),
        run.awaiting is None,
        run.status != Status::Running,
        run.status == Status::Skipped ==> run.steps == 0 && run.failures == 0,
        job.plan_certain() ==> ends_in(*settings, *job, packages@, run@),
        job.conditional.certain() && opened(*settings, *job, packages@).status
            != Status::Running ==> run@ == opened(*settings, *job, packages@),
        job.plan_certain() && settings.dry_run ==> run@ == dry_outcome(
            *settings,
            *job,
            packages@,
        ),
{
    let ghost sure = job.plan_certain();
    let mut run = JobRun::start(settings, job, packages);
    let ghost first = run@;
    let ghost mut trace: Seq<Seq<Finished>> = Seq::empty();
    proof {
        assert forall|rest: Seq<Seq<Finished>>|
            played(first, *settings, *job, packages@, trace + rest) == #[trigger] played(
                run@,
                *settings,
                *job,
                packages@,
                rest,
            ) by {
            assert(trace + rest =~= rest);
        }
        assert forall|rest: Seq<Seq<Finished>>|
            answered(first, *settings, *job, packages@, trace + rest) == #[trigger] answered(
                run@,
                *settings,
                *job,
                packages@,
                rest,
            ) by {
            assert(trace + rest =~= rest);
        }
    }
    loop
        invariant_except_break
            sure ==> forall|rest: Seq<Seq<Finished>>|
                played(first, *settings, *job, packages@, trace + rest) == #[trigger] played(
                    run@,
                    *settings,
                    *job,
                    packages@,
                    rest,
                ),
            sure ==> forall|rest: Seq<Seq<Finished>>|
                answered(first, *settings, *job, packages@, trace + rest) == #[trigger] answered(
                    run@,
                    *settings,
                    *job,
                    packages@,
                    rest,
                ),
        invariant
            run.wf(),
            run.fits(*job, packages@),
            run.awaiting is None,
            sure == job.plan_certain(),
            job.conditional.certain() ==> first == opened(*settings, *job, packages@),
            first.status != Status::Running ==> run@ == first,
            run.status == Status::Skipped ==> run.steps == 0 && run.failures == 0,
        ensures
            run.wf(),
            run.fits(*job, packages@),
            run.awaiting is None,
            run.status != Status::Running,
            first.status != Status::Running ==> run@ == first,
            run.status == Status::Skipped ==> run.steps == 0 && run.failures == 0,
            sure ==> answered(first, *settings, *job, packages@, trace),
            sure ==> run@ == played(first, *settings, *job, packages@, trace),
        decreases run.step_count - run.cursor,
    {
        let ghost before = run@;
        let ghost so_far = trace;
        proof {
            if sure && before.cursor < job.steps@.len() {
                assert(job.steps@[before.cursor as int].certain());
            }
        }
        let action = run.next(settings, job, packages);
        match action {
            Action::Execute(plan) => {
                proof {
                    assert forall|i: int| 0 <= i < plan@.len() implies (#[trigger] plan@[i]).step
                        < job.steps@.len() && (plan@[i].target matches Target::Package(at) ==> at
                        < packages@.len()) by {
                        assert(views(plan@)[i] == plan@[i]@);
                    }
                }
                let ghost handed = views(plan@);
                let finished = execute_plan(host, job, packages, plan);
                run.record(finished.as_slice());
                proof {
                    let report = finished@;
                    assert(reported(report) =~= handed);
                    trace = so_far.push(report);
                    if sure {
                        assert forall|rest: Seq<Seq<Finished>>|
                            played(first, *settings, *job, packages@, trace + rest)
                                == #[trigger] played(run@, *settings, *job, packages@, rest) by {
                            let longer = seq![report] + rest;
                            assert(longer.first() == report);
                            assert(longer.drop_first() =~= rest);
                            assert(trace + rest =~= so_far + longer);
                            assert(played(first, *settings, *job, packages@, so_far + longer)
                                == played(before, *settings, *job, packages@, longer));
                        }
                        assert forall|rest: Seq<Seq<Finished>>|
                            answered(first, *settings, *job, packages@, trace + rest)
                                == #[trigger] answered(run@, *settings, *job, packages@, rest) by {
                            let longer = seq![report] + rest;
                            assert(longer.first() == report);
                            assert(longer.drop_first() =~= rest);
                            assert(trace + rest =~= so_far + longer);
                            assert(answered(first, *settings, *job, packages@, so_far + longer)
                                == answered(before, *settings, *job, packages@, longer));
                        }
                    }
                }
            },
            Action::Planned(plan) => {
                proof {
                    assert forall|i: int| 0 <= i < plan@.len() implies (#[trigger] plan@[i]).step
                        < job.steps@.len() && (plan@[i].target matches Target::Package(at) ==> at
                        < packages@.len()) by {
                        assert(views(plan@)[i] == plan@[i]@);
                    }
                }
                let mut i: usize = 0;
                while i < plan.len()
                    invariant
                        i <= plan@.len(),
                        forall|k: int|
                            0 <= k < plan@.len() ==> (#[trigger] plan@[k]).step < job.steps@.len()
                                && (plan@[k].target matches Target::Package(at) ==> at
                                < packages@.len()),
                    decreases plan@.len() - i,
                {
                    host.println(announcement(job, &plan[i], packages).as_str());
                    i += 1;
                }
                proof {
                    if sure {
                        assert forall|rest: Seq<Seq<Finished>>|
                            played(first, *settings, *job, packages@, trace + rest)
                                == #[trigger] played(run@, *settings, *job, packages@, rest) by {
                            assert(played(first, *settings, *job, packages@, so_far + rest)
                                == played(before, *settings, *job, packages@, rest));
                        }
                        assert forall|rest: Seq<Seq<Finished>>|
                            answered(first, *settings, *job, packages@, trace + rest)
                                == #[trigger] answered(run@, *settings, *job, packages@, rest) by {
                            assert(answered(first, *settings, *job, packages@, so_far + rest)
                                == answered(before, *settings, *job, packages@, rest));
                        }
                    }
                }
            },
            Action::Finished => {
                proof {
                    if sure {
                        let none = Seq::<Seq<Finished>>::empty();
                        assert(trace + none =~= trace);
                        assert(played(first, *settings, *job, packages@, trace + none) == played(
                            before,
                            *settings,
                            *job,
                            packages@,
                            none,
                        ));
                        assert(answered(first, *settings, *job, packages@, trace + none)
                            == answered(before, *settings, *job, packages@, none));
                    }
                }
                break ;
            },
        }
    }
    proof {
        if sure && settings.dry_run {
            lemma_dry_run_plays_as_planned(first, *settings, *job, packages@, trace);
        }
    }
    run
}

/// What came of a run.
#[derive(Debug, Clone, PartialEq, Eq)]
pub struct RunReport {
    /// The outcome of each job that was run, in the order of the run.
    pub results: Vec<JobResult>,
    /// How each job that was run ended, in the order of the run.
    pub statuses: Vec<Status>,
    /// The position of the job that ended the run before its time, if one
    /// did.
    pub stopped_at: Option<usize>,
    /// The evaluation error that ended the run, if one did.
    pub error: Option<RunError>,
    /// The sums over the outcomes, as they were printed; `None` where a sum
    /// is too large to be held.
    pub summary: Option<Summary>,
}

impl RunReport {
    /// Whether the run went through without a failure.
    pub fn success(&self) -> (r: bool)
        ensures
            r == (self.stopped_at is None && (self.summary matches Some(summary)
                && summary.success)),
    {
        match (&self.stopped_at, &self.summary) {
            (None, Some(summary)) => summary.success,
            _ => false,
        }
    }
}

/// What an optional error says.
pub open spec fn fault_of(error: Option<RunError>) -> Option<Fault> {
    match error {
        Some(e) => Some(e@),
        None => None,
    }
}

/// What the outcome of a job that was run says in any case, whatever its
/// conditions came to: the name the job is shown under, the number of
/// packages and the mode of the run; that the job has ended; that a failed
/// job has a failure, and a skipped job neither a step nor a failure.
pub open spec fn outcome_of_job(
    result: JobResult,
    status: Status,
    settings: Settings,
    job: Job,
    packages: Seq<Package>,
) -> bool {
    &&& result.name@ == job.label()
    &&& result.packages == packages.len()
    &&& result.dry_run == settings.dry_run
    &&& status != Status::Running
    &&& (status == Status::Failed ==> result.failures >= 1)
    &&& (status == Status::Skipped ==> result.steps == 0 && result.failures == 0)
}

/// Whether a job that was run ended with these counts, this status and
/// this error: they are those of a state that the job ends in, from its
/// opening, on what came of its commands.
pub open spec fn job_ended(
    result: JobResult,
    status: Status,
    error: Option<Fault>,
    settings: Settings,
    job: Job,
    packages: Seq<Package>,
) -> bool {
    exists|end: RunState| #[trigger]
        ends_in(settings, job, packages, end) && end.steps == result.steps && end.failures
            == result.failures && end.status == status && end.error == error
}

/// What the outcome of a job says whose conditions hold no `^`: beyond
/// [`outcome_of_job`], the counts and the status with which the job ended,
/// from its opening, on what came of its commands. In a dry run these are
/// what planning the job comes to. A job is run only where it could be
/// evaluated whether its failure is tolerated.
pub open spec fn reports_job(
    result: JobResult,
    status: Status,
    settings: Settings,
    job: Job,
    packages: Seq<Package>,
) -> bool {
    &&& outcome_of_job(result, status, settings, job, packages)
    &&& tolerance(settings, job) is Ok
    &&& exists|error: Option<Fault>| #[trigger]
        job_ended(result, status, error, settings, job, packages)
    &&& (opened(settings, job, packages).status != Status::Running ==> status == opened(
        settings,
        job,
        packages,
    ).status && result.steps == 0 && result.failures == opened(settings, job, packages).failures)
    &&& (settings.dry_run ==> result.steps == dry_outcome(settings, job, packages).steps
        && result.failures == dry_outcome(settings, job, packages).failures && status
        == dry_outcome(settings, job, packages).status)
}

/// Whether a job that ended with `status` ends the run: it failed, and its
/// failure is not tolerated.
pub open spec fn ends_run(settings: Settings, job: Job, status: Status) -> bool {
    status == Status::Failed && tolerance(settings, job) == Ok::<bool, Fault>(false)
}

/// How a run can have ended at job `at`, whatever the conditions came to:
/// before the job was run, on an error in evaluating whether its failure is
/// tolerated; or with the job the last that was run, on its failure, in a
/// run that is not set to keep going.
pub open spec fn stop_shaped(
    settings: Settings,
    at: usize,
    results: Seq<JobResult>,
    statuses: Seq<Status>,
    error: Option<RunError>,
) -> bool {
    ||| results.len() == at && (error matches Some(e) && e.stage == Stage::JobContinueOnError
        && e.step is None && e.package is None)
    ||| results.len() == at + 1 && statuses.len() == at + 1 && statuses[at as int]
        == Status::Failed && !settings.keep_going
}

/// How a run ended at job `at`, a job whose conditions hold no `^`: on an
/// error in evaluating whether the job's failure is tolerated, before the
/// job was run, with that error; or on the job's failure, which is not
/// tolerated, with the job the last that was run and with the evaluation
/// error that ended the job, if one did.
pub open spec fn stopped_by(
    settings: Settings,
    job: Job,
    packages: Seq<Package>,
    at: usize,
    results: Seq<JobResult>,
    statuses: Seq<Status>,
    error: Option<RunError>,
) -> bool {
    match tolerance(settings, job) {
        Err(fault) => results.len() == at && (error matches Some(e) && e@ == fault),
        Ok(_) => {
            &&& results.len() == at + 1
            &&& statuses.len() == at + 1
            &&& ends_run(settings, job, statuses[at as int])
            &&& results[at as int].failures >= 1
            &&& job_ended(
                results[at as int],
                statuses[at as int],
                fault_of(error),
                settings,
                job,
                packages,
            )
            &&& (settings.dry_run ==> fault_of(error) == dry_outcome(settings, job, packages).error)
        },
    }
}

/// Whether a dry run ends with this job: whether its failure is tolerated
/// cannot be evaluated, or planning it fails and the failure is not
/// tolerated.
pub open spec fn dry_run_ends_with(settings: Settings, job: Job, packages: Seq<Package>) -> bool {
    tolerance(settings, job) is Err || ends_run(
        settings,
        job,
        dry_outcome(settings, job, packages).status,
    )
}

/// What running one job of a run comes to where the job's conditions hold
/// no `^`.
pub open spec fn ran_one(
    r: Result<(JobResult, Status, Verdict, Option<RunError>), RunError>,
    settings: Settings,
    job: Job,
    packages: Seq<Package>,
) -> bool {
    match r {
        Err(e) => tolerance(settings, job) matches Err(fault) && e@ == fault,
        Ok((result, status, verdict, error)) => {
            &&& reports_job(result, status, settings, job, packages)
            &&& job_ended(result, status, fault_of(error), settings, job, packages)
            &&& (settings.dry_run ==> fault_of(error) == dry_outcome(settings, job, packages).error)
            &&& verdict == if ends_run(settings, job, status) {
                Verdict::Abort
            } else {
                Verdict::Proceed
            }
        },
    }
}

/// Runs one job of a run, after its heading, and says how the job ended and
/// how the run goes on: it ends where the job failed and the failure is not
/// tolerated.
fn run_one<H: Host>(host: &H, settings: &Settings, job: &Job, packages: &[Package]) -> (r: Result<
    (JobResult, Status, Verdict, Option<RunError>),
    RunError,
>)
    requires
        job.steps@.len() * width(packages@.len()) < usize::MAX,
    ensures
        job.certain() ==> ran_one(r, *settings, *job, packages@),
        match r {
            Err(e) => e.stage == Stage::JobContinueOnError && e.step is None && e.package is None,
            Ok((result, status, verdict, error)) => {
                &&& outcome_of_job(result, status, *settings, *job, packages@)
                &&& (verdict == Verdict::Abort ==> status == Status::Failed && !settings.keep_going)
            },
        },
{
    let name = job.display_name();
    host.println("== Job: ".to_owned().concat(name).concat(" ==").as_str());
    let tolerated = tolerates_failure(settings, job)?;
    let run = run_job(host, settings, job, packages);
    let result = run.finish(name.to_owned(), packages.len(), settings.dry_run);
    let verdict = after_job(run.status, tolerated);
    match (verdict, run.status) {
        (Verdict::Proceed, Status::Failed) => {
            host.eprintln(
                "Job '".to_owned().concat(name).concat("' failed but continuing").as_str(),
            );
        },
        _ => {},
    }
    proof {
        if job.certain() {
            assert(ends_in(*settings, *job, packages@, run@));
            assert(fault_of(run.error) == run@.error);
            assert(job_ended(result, run.status, fault_of(run.error), *settings, *job, packages@));
        }
    }
    Ok((result, run.status, verdict, run.error))
}

/// Runs jobs one after the other, in the given order, with the commands
/// executed by `host`, and prints the summary at the end.
///
/// Before a job is run it is evaluated whether its failure would be
/// tolerated; an error in that ends the run, before the job. A job that
/// fails ends the run unless its failure is tolerated, and no job after it
/// is run. In either case the summary of the jobs run so far is still
/// printed. The outcome of every job that was run is in the report, with
/// the status in which the job ended, the failed one included, and the
/// summary holds the sums over these outcomes.
///
/// Of a job with a condition that holds `^` it is not said what the
/// condition comes to: for such a job the report says what holds in any
/// case.
pub fn run_jobs<H: Host>(host: &H, settings: &Settings, jobs: &[&Job], packages: &[Package]) -> (report:
    RunReport)
    requires
        forall|i: int|
            0 <= i < jobs@.len() ==> (#[trigger] jobs@[i]).steps@.len() * width(packages@.len())
                < usize::MAX,
    ensures
        report.results@.len() <= jobs@.len(),
        report.statuses@.len() == report.results@.len(),
        forall|i: int|
            0 <= i < report.results@.len() ==> outcome_of_job(
                #[trigger] report.results@[i],
                report.statuses@[i],
                *settings,
                *jobs@[i],
                packages@,
            ),
        forall|i: int|
            0 <= i < report.results@.len() && jobs@[i].certain() ==> reports_job(
                #[trigger] report.results@[i],
                report.statuses@[i],
                *settings,
                *jobs@[i],
                packages@,
            ),
        forall|i: int|
            0 <= i < report.results@.len() && jobs@[i].certain() && ends_run(
                *settings,
                *jobs@[i],
                #[trigger] report.statuses@[i],
            ) ==> report.stopped_at == Some(i as usize),
        match report.stopped_at {
            None => report.results@.len() == jobs@.len() && report.error is None,
            Some(at) => at < jobs@.len() && stop_shaped(
                *settings,
                at,
                report.results@,
                report.statuses@,
                report.error,
            ) && (jobs@[at as int].certain() ==> stopped_by(
                *settings,
                *jobs@[at as int],
                packages@,
                at,
                report.results@,
                report.statuses@,
                report.error,
            )),
        },
        settings.dry_run && (forall|i: int| 0 <= i < jobs@.len() ==> (#[trigger] jobs@[i]).certain())
            ==> match report.stopped_at {
            None => forall|i: int|
                0 <= i < jobs@.len() ==> !dry_run_ends_with(
                    *settings,
                    *#[trigger] jobs@[i],
                    packages@,
                ),
            Some(at) => dry_run_ends_with(*settings, *jobs@[at as int], packages@) && forall|
                i: int,
            |
                0 <= i < at ==> !dry_run_ends_with(*settings, *#[trigger] jobs@[i], packages@),
        },
        report.summary is Some <==> totals_fit(report.results@),
        report.summary matches Some(summary) ==> sums_up(summary, report.results@),
{
    let mut results: Vec<JobResult> = Vec::new();
    let mut statuses: Vec<Status> = Vec::new();
    let mut stopped_at: Option<usize> = None;
    let mut error: Option<RunError> = None;
    let mut i: usize = 0;
    while i < jobs.len()
        invariant_except_break
            results@.len() == i,
            stopped_at is None,
            error is None,
            forall|k: int|
                0 <= k < results@.len() && jobs@[k].certain() ==> !ends_run(
                    *settings,
                    *jobs@[k],
                    #[trigger] statuses@[k],
                ),
        invariant
            i <= jobs@.len(),
            statuses@.len() == results@.len(),
            forall|k: int|
                0 <= k < jobs@.len() ==> (#[trigger] jobs@[k]).steps@.len() * width(
                    packages@.len(),
                ) < usize::MAX,
            forall|k: int|
                0 <= k < results@.len() ==> outcome_of_job(
                    #[trigger] results@[k],
                    statuses@[k],
                    *settings,
                    *jobs@[k],
                    packages@,
                ),
            forall|k: int|
                0 <= k < results@.len() && jobs@[k].certain() ==> reports_job(
                    #[trigger] results@[k],
                    statuses@[k],
                    *settings,
                    *jobs@[k],
                    packages@,
                ),
        ensures
            results@.len() <= jobs@.len(),
            forall|k: int|
                0 <= k < results@.len() && jobs@[k].certain() && ends_run(
                    *settings,
                    *jobs@[k],
                    #[trigger] statuses@[k],
                ) ==> stopped_at == Some(k as usize),
            match stopped_at {
                None => results@.len() == jobs@.len() && error is None,
                Some(at) => at < jobs@.len() && stop_shaped(
                    *settings,
                    at,
                    results@,
                    statuses@,
                    error,
                ) && (jobs@[at as int].certain() ==> stopped_by(
                    *settings,
                    *jobs@[at as int],
                    packages@,
                    at,
                    results@,
                    statuses@,
                    error,
                )),
            },
        decreases jobs@.len() - i,
    {
        match run_one(host, settings, jobs[i], packages) {
            Err(e) => {
                stopped_at = Some(i);
                error = Some(e);
                break ;
            },
            Ok((result, status, verdict, job_error)) => {
                let ghost before = results@;
                let ghost before_statuses = statuses@;
                results.push(result);
                statuses.push(status);
                assert forall|k: int| 0 <= k < results@.len() implies outcome_of_job(
                    #[trigger] results@[k],
                    statuses@[k],
                    *settings,
                    *jobs@[k],
                    packages@,
                ) by {
                    if k < i {
                        assert(results@[k] == before[k]);
                        assert(statuses@[k] == before_statuses[k]);
                    }
                }
                assert forall|k: int|
                    0 <= k < results@.len() && jobs@[k].certain() implies reports_job(
                    #[trigger] results@[k],
                    statuses@[k],
                    *settings,
                    *jobs@[k],
                    packages@,
                ) by {
                    if k < i {
                        assert(results@[k] == before[k]);
                        assert(statuses@[k] == before_statuses[k]);
                    }
                }
                assert forall|k: int| 0 <= k < i && jobs@[k].certain() implies !ends_run(
                    *settings,
                    *jobs@[k],
                    #[trigger] statuses@[k],
                ) by {
                    assert(statuses@[k] == before_statuses[k]);
                }
                match verdict {
                    Verdict::Abort => {
                        stopped_at = Some(i);
                        error = job_error;
                        break ;
                    },
                    Verdict::Proceed => {},
                }
            },
        }
        i += 1;
    }
    let summary = print_summary(results.as_slice(), host);
    proof {
        if settings.dry_run && (forall|k: int| 0 <= k < jobs@.len() ==> (#[trigger] jobs@[k]).certain()) {
            assert forall|k: int| 0 <= k < results@.len() implies (dry_run_ends_with(
                *settings,
                *#[trigger] jobs@[k],
                packages@,
            ) <==> stopped_at == Some(k as usize)) by {
                assert(jobs@[k].certain());
                assert(reports_job(results@[k], statuses@[k], *settings, *jobs@[k], packages@));
            }
            match stopped_at {
                Some(at) => {
                    assert(jobs@[at as int].certain());
                },
                None => {},
            }
        }
    }
    RunReport { results, statuses, stopped_at, error, summary }
}

} // verus!
