//! Job outcomes and the summary of a run.

use vstd::prelude::*;
use crate::host::Host;
use crate::text::{decimal, decimal_text, pad_right, padded, texts};

verus! {

/// The outcome of one job: made once, when the job has finished, and not
/// changed afterwards.
#[derive(Debug, Clone, PartialEq, Eq)]
pub struct JobResult {
    /// The name the job is shown under.
    pub name: String,
    /// The number of packages the job was run for.
    pub packages: usize,
    /// The number of steps that were executed, or in a dry run planned.
    pub steps: usize,
    /// The number of failures.
    pub failures: usize,
    /// Whether this was a dry run.
    pub dry_run: bool,
}

impl JobResult {
    /// The outcome with the given counts.
    pub fn new(name: String, packages: usize, steps: usize, failures: usize, dry_run: bool) -> (r:
        Self)
        ensures
            r.name == name,
            r.packages == packages,
            r.steps == steps,
            r.failures == failures,
            r.dry_run == dry_run,
    {
        JobResult { name, packages, steps, failures, dry_run }
    }

    /// Whether the job is reported as OK: it had no failure.
    pub fn is_ok(&self) -> (r: bool)
        ensures
            r == (self.failures == 0),
    {
        self.failures == 0
    }
}

/// The sums over a list of outcomes.
pub struct Totals {
    pub jobs: nat,
    pub packages: nat,
    pub steps: nat,
    pub failures: nat,
}

/// The sums over `results`: jobs are counted; packages, steps and failures
/// are added up. The steps of a job are the commands that were executed for
/// it, or in a dry run planned, for whatever packages.
pub open spec fn totals(results: Seq<JobResult>) -> Totals
    decreases results.len(),
{
    if results.len() == 0 {
        Totals { jobs: 0, packages: 0, steps: 0, failures: 0 }
    } else {
        let before = totals(results.drop_last());
        let last = results.last();
        Totals {
            jobs: before.jobs + 1,
            packages: before.packages + last.packages as nat,
            steps: before.steps + last.steps as nat,
            failures: before.failures + last.failures as nat,
        }
    }
}

/// Whether every sum over `results` can be held.
pub open spec fn totals_fit(results: Seq<JobResult>) -> bool {
    let t = totals(results);
    t.jobs <= usize::MAX && t.packages <= usize::MAX && t.steps <= usize::MAX && t.failures
        <= usize::MAX
}

/// The summary of a run.
#[derive(Debug, Clone, Copy, PartialEq, Eq, Structural)]
pub struct Summary {
    pub total_jobs: usize,
    pub total_packages: usize,
    pub total_steps: usize,
    pub total_failures: usize,
    /// The verdict of the run: `true` for SUCCESS, `false` for FAILURE.
    pub success: bool,
}

/// Whether `summary` holds the sums over `results`, with the verdict
/// SUCCESS exactly where no failure was counted.
pub open spec fn sums_up(summary: Summary, results: Seq<JobResult>) -> bool {
    &&& summary.total_jobs == totals(results).jobs
    &&& summary.total_packages == totals(results).packages
    &&& summary.total_steps == totals(results).steps
    &&& summary.total_failures == totals(results).failures
    &&& summary.success == (totals(results).failures == 0)
}

/// The sums only grow along a list of outcomes.
pub proof fn lemma_totals_grow(results: Seq<JobResult>, upto: int)
    requires
        0 <= upto <= results.len(),
    ensures
        totals(results.take(upto)).jobs <= totals(results).jobs,
        totals(results.take(upto)).packages <= totals(results).packages,
        totals(results.take(upto)).steps <= totals(results).steps,
        totals(results.take(upto)).failures <= totals(results).failures,
    decreases results.len(),
{
    if upto == results.len() {
        assert(results.take(upto) =~= results);
    } else {
        let front = results.drop_last();
        assert(front.take(upto) =~= results.take(upto));
        lemma_totals_grow(front, upto);
    }
}

/// A run has failures exactly when one of its jobs has.
pub proof fn lemma_failures_come_from_jobs(results: Seq<JobResult>)
    ensures
        totals(results).failures > 0 <==> exists|i: int|
            0 <= i < results.len() && (#[trigger] results[i]).failures > 0,
    decreases results.len(),
{
    if results.len() > 0 {
        let front = results.drop_last();
        lemma_failures_come_from_jobs(front);
        if totals(results).failures > 0 {
            if results.last().failures > 0 {
                assert(results[results.len() - 1].failures > 0);
            } else {
                let i = choose|i: int| 0 <= i < front.len() && (#[trigger] front[i]).failures > 0;
                assert(results[i].failures > 0);
            }
        }
        if exists|i: int| 0 <= i < results.len() && (#[trigger] results[i]).failures > 0 {
            let i = choose|i: int| 0 <= i < results.len() && (#[trigger] results[i]).failures > 0;
            if i < front.len() {
                assert(front[i].failures > 0);
            }
        }
    }
}

/// Sums up the outcomes of a run.
///
/// The verdict is SUCCESS exactly when no job had a failure. `None` where a
/// sum is too large to be held.
pub fn summarize(results: &[JobResult]) -> (r: Option<Summary>)
    ensures
        r is Some <==> totals_fit(results@),
        r matches Some(summary) ==> {
            &&& sums_up(summary, results@)
            &&& !summary.success <==> exists|i: int|
                0 <= i < results@.len() && (#[trigger] results@[i]).failures > 0
        },
{
    let mut total_jobs: usize = 0;
    let mut total_packages: usize = 0;
    let mut total_steps: usize = 0;
    let mut total_failures: usize = 0;
    let mut i: usize = 0;
    while i < results.len()
        invariant
            i <= results@.len(),
            total_jobs == totals(results@.take(i as int)).jobs,
            total_packages == totals(results@.take(i as int)).packages,
            total_steps == totals(results@.take(i as int)).steps,
            total_failures == totals(results@.take(i as int)).failures,
        decreases results@.len() - i,
    {
        let r = &results[i];
        proof {
            assert(results@.take(i + 1).drop_last() =~= results@.take(i as int));
            lemma_totals_grow(results@, i + 1);
        }
        total_jobs = match total_jobs.checked_add(1) {
            Some(sum) => sum,
            None => {
                return None;
            },
        };
        total_packages = match total_packages.checked_add(r.packages) {
            Some(sum) => sum,
            None => {
                return None;
            },
        };
        total_steps = match total_steps.checked_add(r.steps) {
            Some(sum) => sum,
            None => {
                return None;
            },
        };
        total_failures = match total_failures.checked_add(r.failures) {
            Some(sum) => sum,
            None => {
                return None;
            },
        };
        i += 1;
    }
    proof {
        assert(results@.take(i as int) =~= results@);
        lemma_failures_come_from_jobs(results@);
    }
    Some(
        Summary {
            total_jobs,
            total_packages,
            total_steps,
            total_failures,
            success: total_failures == 0,
        },
    )
}

/// The line of the summary for one job.
pub open spec fn job_line(r: JobResult) -> Seq<char> {
    "  Job "@ + padded(r.name@, 15) + " status="@ + (if r.failures == 0 {
        "OK"@
    } else {
        "FAIL"@
    }) + " packages="@ + decimal_text(r.packages as nat) + " steps="@ + decimal_text(r.steps as nat)
        + " failures="@ + decimal_text(r.failures as nat) + " mode="@ + (if r.dry_run {
        "dry-run"@
    } else {
        "run"@
    })
}

/// The line of the summary with the sums.
pub open spec fn totals_line(summary: Summary) -> Seq<char> {
    "  Total jobs="@ + decimal_text(summary.total_jobs as nat) + " packages="@ + decimal_text(
        summary.total_packages as nat,
    ) + " steps="@ + decimal_text(summary.total_steps as nat) + " failures="@ + decimal_text(
        summary.total_failures as nat,
    )
}

/// The line of the summary with the verdict.
pub open spec fn verdict_line(summary: Summary) -> Seq<char> {
    if summary.success {
        "Overall: SUCCESS"@
    } else {
        "Overall: FAILURE"@
    }
}

/// The lines for the first `upto` jobs.
pub open spec fn job_lines(results: Seq<JobResult>, upto: int) -> Seq<Seq<char>>
    decreases upto,
{
    if upto <= 0 {
        Seq::empty()
    } else {
        job_lines(results, upto - 1).push(job_line(results[upto - 1]))
    }
}

/// The summary as it is printed: a heading, a line for each job, the sums
/// and the verdict.
pub open spec fn summary_text(results: Seq<JobResult>, summary: Summary) -> Seq<Seq<char>> {
    seq!["\nSummary:"@] + job_lines(results, results.len() as int) + seq![
        totals_line(summary),
        verdict_line(summary),
    ]
}

/// The line of the summary for one job.
pub fn format_job(r: &JobResult) -> (line: String)
    ensures
        line@ == job_line(*r),
{
    let status = if r.failures == 0 {
        "OK"
    } else {
        "FAIL"
    };
    let mode = if r.dry_run {
        "dry-run"
    } else {
        "run"
    };
    let line = "  Job ".to_owned().concat(pad_right(r.name.as_str(), 15).as_str()).concat(
        " status=",
    ).concat(status).concat(" packages=").concat(decimal(r.packages).as_str()).concat(
        " steps=",
    ).concat(decimal(r.steps).as_str()).concat(" failures=").concat(
        decimal(r.failures).as_str(),
    ).concat(" mode=").concat(mode);
    assert(line@ =~= job_line(*r));
    line
}

/// The summary as it is printed.
pub fn summary_lines(results: &[JobResult], summary: &Summary) -> (lines: Vec<String>)
    ensures
        texts(lines@) == summary_text(results@, *summary),
{
    let mut lines: Vec<String> = Vec::new();
    lines.push("\nSummary:".to_owned());
    let ghost head = texts(lines@);
    assert(head =~= seq!["\nSummary:"@]);
    let mut i: usize = 0;
    assert(texts(lines@) =~= head + job_lines(results@, 0));
    while i < results.len()
        invariant
            i <= results@.len(),
            texts(lines@) == head + job_lines(results@, i as int),
        decreases results@.len() - i,
    {
        let ghost before = texts(lines@);
        lines.push(format_job(&results[i]));
        assert(texts(lines@) =~= before.push(job_line(results@[i as int])));
        assert(head + job_lines(results@, i as int).push(job_line(results@[i as int])) =~= (head
            + job_lines(results@, i as int)).push(job_line(results@[i as int])));
        i += 1;
    }
    let ghost body = texts(lines@);
    let totals = "  Total jobs=".to_owned().concat(decimal(summary.total_jobs).as_str()).concat(
        " packages=",
    ).concat(decimal(summary.total_packages).as_str()).concat(" steps=").concat(
        decimal(summary.total_steps).as_str(),
    ).concat(" failures=").concat(decimal(summary.total_failures).as_str());
    assert(totals@ =~= totals_line(*summary));
    lines.push(totals);
    let verdict = if summary.success {
        "Overall: SUCCESS"
    } else {
        "Overall: FAILURE"
    };
    lines.push(verdict.to_owned());
    assert(texts(lines@) =~= body + seq![totals_line(*summary), verdict_line(*summary)]);
    lines
}

/// Prints the summary of a run on `host`: a heading, a line for each job
/// with its status and counts, the sums, and the verdict. Hands back the
/// sums. Where a sum is too large to be held, the heading and the lines of
/// the jobs are still printed, without sums and verdict, and `None` is
/// handed back.
pub fn print_summary<H: Host>(results: &[JobResult], host: &H) -> (r: Option<Summary>)
    ensures
        r is Some <==> totals_fit(results@),
        r matches Some(summary) ==> sums_up(summary, results@),
{
    match summarize(results) {
        Some(summary) => {
            let lines = summary_lines(results, &summary);
            let mut i: usize = 0;
            while i < lines.len()
                invariant
                    i <= lines@.len(),
                decreases lines@.len() - i,
            {
                host.println(lines[i].as_str());
                i += 1;
            }
            Some(summary)
        },
        None => {
            host.println("\nSummary:");
            let mut i: usize = 0;
            while i < results.len()
                invariant
                    i <= results@.len(),
                decreases results@.len() - i,
            {
                host.println(format_job(&results[i]).as_str());
                i += 1;
            }
            None
        },
    }
}

} // verus!
