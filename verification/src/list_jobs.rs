//! Listing the jobs that are defined.

use vstd::prelude::*;
use crate::text::texts;
use crate::config::Config;
use crate::job::Job;
use crate::step::Step;

verus! {

/// How jobs are to be listed.
#[derive(Debug, Clone, Copy, PartialEq, Eq, Structural)]
pub struct ListJobArgs {
    /// Show the steps defined for each job.
    pub show_steps: bool,
}

/// The line for a step: its identifier, or else its name, indented.
pub open spec fn step_line(step: Step) -> Seq<char> {
    "  "@ + match step.identifier() {
        Some(id) => id,
        None => step.label(),
    }
}

/// The lines for the first `upto` steps of a job.
pub open spec fn step_lines(job: Job, upto: int) -> Seq<Seq<char>>
    decreases upto,
{
    if upto <= 0 {
        Seq::empty()
    } else {
        step_lines(job, upto - 1).push(step_line(job.steps@[upto - 1]))
    }
}

/// The lines for a job: its identifier, and below it its steps if they are
/// to be shown.
pub open spec fn job_lines(job: Job, show_steps: bool) -> Seq<Seq<char>> {
    seq![job.id@] + if show_steps {
        step_lines(job, job.steps@.len() as int)
    } else {
        Seq::empty()
    }
}

/// The lines for the first `upto` jobs.
pub open spec fn listing(jobs: Seq<Job>, show_steps: bool, upto: int) -> Seq<Seq<char>>
    decreases upto,
{
    if upto <= 0 {
        Seq::empty()
    } else {
        listing(jobs, show_steps, upto - 1) + job_lines(jobs[upto - 1], show_steps)
    }
}

/// The lines that list the jobs of a configuration, in the order in which
/// they are defined; a single line that says so where there is none.
pub fn list_jobs(args: &ListJobArgs, cfg: &Config) -> (lines: Vec<String>)
    ensures
        texts(lines@) == if cfg.graph()@.len() == 0 {
            seq!["No jobs defined in the workspace configuration."@]
        } else {
            listing(cfg.graph()@, args.show_steps, cfg.graph()@.len() as int)
        },
{
    let mut lines: Vec<String> = Vec::new();
    let jobs = cfg.jobs().jobs();
    if jobs.len() == 0 {
        lines.push("No jobs defined in the workspace configuration.".to_owned());
        assert(texts(lines@) =~= seq!["No jobs defined in the workspace configuration."@]);
        return lines;
    }
    let mut i: usize = 0;
    assert(texts(lines@) =~= listing(jobs@, args.show_steps, 0));
    while i < jobs.len()
        invariant
            i <= jobs@.len(),
            texts(lines@) == listing(jobs@, args.show_steps, i as int),
        decreases jobs@.len() - i,
    {
        let job = &jobs[i];
        let ghost before = texts(lines@);
        lines.push(job.id.as_str().to_owned());
        assert(texts(lines@) =~= before + seq![job.id@]);
        if args.show_steps {
            let ghost head = texts(lines@);
            let mut k: usize = 0;
            assert(texts(lines@) =~= head + step_lines(*job, 0));
            while k < job.steps.len()
                invariant
                    k <= job.steps@.len(),
                    texts(lines@) == head + step_lines(*job, k as int),
                decreases job.steps@.len() - k,
            {
                let step = &job.steps[k];
                let shown = match step.id() {
                    Some(id) => id.as_str(),
                    None => step.name(),
                };
                let ghost so_far = texts(lines@);
                lines.push("  ".to_owned().concat(shown));
                proof {
                    assert(texts(lines@) =~= so_far.push(step_line(*step)));
                    assert(head + step_lines(*job, k as int).push(step_line(*step)) =~= (head
                        + step_lines(*job, k as int)).push(step_line(*step)));
                }
                k += 1;
            }
            assert(before + (seq![job.id@] + step_lines(*job, job.steps@.len() as int)) =~= (before
                + seq![job.id@]) + step_lines(*job, job.steps@.len() as int));
        } else {
            assert(seq![job.id@] + Seq::<Seq<char>>::empty() =~= seq![job.id@]);
        }
        i += 1;
    }
    lines
}

} // verus!
