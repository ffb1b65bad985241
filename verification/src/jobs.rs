//! The job graph: all jobs of a workspace with their dependencies.
//!
//! A graph is built once, from the jobs as they were configured, and is
//! read-only afterwards. Building it checks that no two jobs share a name,
//! that every dependency names a job, that no job has two steps with one
//! identifier, and that no job depends on itself, directly or through other
//! jobs.

use vstd::prelude::*;
use crate::graph;
use crate::job::Job;
use crate::job_id::JobId;
use crate::step_id::StepId;
use crate::text::{join, joined, texts};

verus! {

/// Some job is named `id`.
pub open spec fn declares(jobs: Seq<Job>, id: Seq<char>) -> bool {
    exists|i: int| 0 <= i < jobs.len() && (#[trigger] jobs[i]).id@ == id
}

/// `job` names `id` among its needs.
pub open spec fn lists(job: Job, id: Seq<char>) -> bool {
    exists|k: int| 0 <= k < job.needs@.len() && (#[trigger] job.needs@[k])@ == id
}

/// The job named `a` needs the job named `b`.
pub open spec fn depends(jobs: Seq<Job>, a: Seq<char>, b: Seq<char>) -> bool {
    exists|i: int| 0 <= i < jobs.len() && (#[trigger] jobs[i]).id@ == a && lists(jobs[i], b)
}

/// `p` follows needs: it begins with a job, and each job of it needs the
/// next.
pub open spec fn is_chain(jobs: Seq<Job>, p: Seq<Seq<char>>) -> bool {
    &&& p.len() >= 1
    &&& declares(jobs, p[0])
    &&& forall|k: int| 0 <= k < p.len() - 1 ==> depends(jobs, #[trigger] p[k], p[k + 1])
}

/// `p` is a chain of needs that comes back to the job it began with.
pub open spec fn is_cycle(jobs: Seq<Job>, p: Seq<Seq<char>>) -> bool {
    is_chain(jobs, p) && p.len() >= 2 && p.first() == p.last()
}

/// The job named `a` needs the job named `b`, directly or through other
/// jobs.
pub open spec fn needs_transitively(jobs: Seq<Job>, a: Seq<char>, b: Seq<char>) -> bool {
    exists|p: Seq<Seq<char>>| #[trigger]
        is_chain(jobs, p) && p.len() >= 2 && p.first() == a && p.last() == b
}

/// Job `i` has the name of an earlier job.
pub open spec fn repeats_id(jobs: Seq<Job>, i: int) -> bool {
    exists|j: int| 0 <= j < i && (#[trigger] jobs[j]).id@ == jobs[i].id@
}

/// Need `k` of job `i` names no job.
pub open spec fn unknown_need(jobs: Seq<Job>, i: int, k: int) -> bool {
    0 <= k < jobs[i].needs@.len() && !declares(jobs, jobs[i].needs@[k]@)
}

/// Step `b` of `job` has the identifier of an earlier step.
pub open spec fn repeated_step(job: Job, b: int) -> bool {
    &&& 0 <= b < job.steps@.len()
    &&& job.steps@[b].identifier() is Some
    &&& exists|a: int| 0 <= a < b && (#[trigger] job.steps@[a]).identifier() == job.steps@[b].identifier()
}

/// Job `i` has a name of its own, needs only jobs that exist, and has no
/// step identifier twice.
pub open spec fn clean(jobs: Seq<Job>, i: int) -> bool {
    &&& !repeats_id(jobs, i)
    &&& forall|k: int| !unknown_need(jobs, i, k)
    &&& forall|b: int| !repeated_step(jobs[i], b)
}

/// Every job is clean, and no chain of needs comes back to where it began.
pub open spec fn sound(jobs: Seq<Job>) -> bool {
    &&& forall|i: int| 0 <= i < jobs.len() ==> clean(jobs, i)
    &&& forall|p: Seq<Seq<char>>| !is_cycle(jobs, p)
}

/// The names of a list of identifiers.
pub open spec fn names(ids: Seq<JobId>) -> Seq<Seq<char>> {
    ids.map_values(|id: JobId| id@)
}

/// The names of a list of borrowed identifiers.
pub open spec fn names_of(ids: Seq<&JobId>) -> Seq<Seq<char>> {
    ids.map_values(|id: &JobId| id@)
}

/// For each job, whether `wanted` holds its name.
pub open spec fn marked(jobs: Seq<Job>, wanted: Set<Seq<char>>) -> Seq<bool> {
    Seq::new(jobs.len(), |a: int| wanted.contains(jobs[a].id@))
}

/// Why a list of jobs is no job graph.
#[derive(Debug, Clone, PartialEq, Eq)]
pub enum GraphError {
    /// Two jobs are named `job`.
    DuplicateJob { job: JobId },
    /// `job` needs `need`, and there is no job of that name.
    UnknownNeed { job: JobId, need: JobId },
    /// Two steps of `job` have the identifier `step`.
    DuplicateStepId { job: JobId, step: StepId },
    /// The jobs of `path` need each other in a circle: each needs the next,
    /// and the last is the first again.
    Cycle { path: Vec<JobId> },
}

/// Copies of the names of a list of identifiers.
pub fn names_as_strings(ids: &Vec<JobId>) -> (r: Vec<String>)
    ensures
        texts(r@) == names(ids@),
{
    let mut r: Vec<String> = Vec::new();
    let mut i: usize = 0;
    while i < ids.len()
        invariant
            i <= ids@.len(),
            r@.len() == i,
            forall|k: int| 0 <= k < i ==> (#[trigger] r@[k])@ == ids@[k]@,
        decreases ids@.len() - i,
    {
        r.push(ids[i].as_str().to_owned());
        i += 1;
    }
    assert(texts(r@) =~= names(ids@));
    r
}

impl GraphError {
    /// The error in words; a cycle is spelled `a -> b -> c -> a`.
    pub open spec fn message_text(&self) -> Seq<char> {
        match self {
            GraphError::DuplicateJob { job } => "job '"@ + job@ + "' is defined twice"@,
            GraphError::UnknownNeed { job, need } => "job '"@ + job@ + "' needs job '"@ + need@
                + "', but there is no '"@ + need@ + "' job"@,
            GraphError::DuplicateStepId { job, step } => "duplicate step id '"@ + step@
                + "' found in job '"@ + job@ + "'"@,
            GraphError::Cycle { path } => "circular dependency detected: "@ + joined(
                names(path@),
                " -> "@,
                path@.len() as int,
            ),
        }
    }

    /// The error in words.
    pub fn message(&self) -> (r: String)
        ensures
            r@ == self.message_text(),
    {
        match self {
            GraphError::DuplicateJob { job } => "job '".to_owned().concat(job.as_str()).concat(
                "' is defined twice",
            ),
            GraphError::UnknownNeed { job, need } => {
                let r = "job '".to_owned().concat(job.as_str()).concat("' needs job '").concat(
                    need.as_str(),
                ).concat("', but there is no '").concat(need.as_str()).concat("' job");
                assert(r@ =~= self.message_text());
                r
            },
            GraphError::DuplicateStepId { job, step } => {
                let r = "duplicate step id '".to_owned().concat(step.as_str()).concat(
                    "' found in job '",
                ).concat(job.as_str()).concat("'");
                assert(r@ =~= self.message_text());
                r
            },
            GraphError::Cycle { path } => {
                let spelled = names_as_strings(path);
                assert(texts(spelled@).len() == names(path@).len());
                assert(spelled@.len() == path@.len());
                "circular dependency detected: ".to_owned().concat(
                    join(spelled.as_slice(), " -> ").as_str(),
                )
            },
        }
    }
}

/// How `error` answers for `jobs`: it names the first job that is not clean,
/// and of that job the first thing wrong, name before needs before steps; or,
/// with every job clean, a cycle.
pub open spec fn reports(jobs: Seq<Job>, error: GraphError) -> bool {
    match error {
        GraphError::DuplicateJob { job } => exists|i: int|
            {
                &&& 0 <= i < jobs.len()
                &&& forall|h: int| 0 <= h < i ==> clean(jobs, h)
                &&& #[trigger] repeats_id(jobs, i)
                &&& job@ == jobs[i].id@
            },
        GraphError::UnknownNeed { job, need } => exists|i: int, k: int|
            {
                &&& 0 <= i < jobs.len()
                &&& forall|h: int| 0 <= h < i ==> clean(jobs, h)
                &&& !repeats_id(jobs, i)
                &&& #[trigger] unknown_need(jobs, i, k)
                &&& forall|e: int| 0 <= e < k ==> !unknown_need(jobs, i, e)
                &&& job@ == jobs[i].id@
                &&& need@ == jobs[i].needs@[k]@
            },
        GraphError::DuplicateStepId { job, step } => exists|i: int, b: int|
            {
                &&& 0 <= i < jobs.len()
                &&& forall|h: int| 0 <= h < i ==> clean(jobs, h)
                &&& !repeats_id(jobs, i)
                &&& forall|k: int| !unknown_need(jobs, i, k)
                &&& #[trigger] repeated_step(jobs[i], b)
                &&& forall|e: int| 0 <= e < b ==> !repeated_step(jobs[i], e)
                &&& job@ == jobs[i].id@
                &&& Some(step@) == jobs[i].steps@[b].identifier()
            },
        GraphError::Cycle { path } => {
            &&& forall|i: int| 0 <= i < jobs.len() ==> clean(jobs, i)
            &&& is_cycle(jobs, names(path@))
            &&& names(path@).drop_last().no_duplicates()
        },
    }
}

/// An error that [`reports`] for `jobs` shows that they are not sound.
pub proof fn lemma_reported_unsound(jobs: Seq<Job>, error: GraphError)
    requires
        reports(jobs, error),
    ensures
        !sound(jobs),
{
    match error {
        GraphError::DuplicateJob { job } => {
            let i = choose|i: int|
                {
                    &&& 0 <= i < jobs.len()
                    &&& forall|h: int| 0 <= h < i ==> clean(jobs, h)
                    &&& #[trigger] repeats_id(jobs, i)
                    &&& job@ == jobs[i].id@
                };
            assert(!clean(jobs, i));
        },
        GraphError::UnknownNeed { job, need } => {
            let (i, k) = choose|i: int, k: int|
                {
                    &&& 0 <= i < jobs.len()
                    &&& forall|h: int| 0 <= h < i ==> clean(jobs, h)
                    &&& !repeats_id(jobs, i)
                    &&& #[trigger] unknown_need(jobs, i, k)
                    &&& forall|e: int| 0 <= e < k ==> !unknown_need(jobs, i, e)
                    &&& job@ == jobs[i].id@
                    &&& need@ == jobs[i].needs@[k]@
                };
            assert(!clean(jobs, i));
        },
        GraphError::DuplicateStepId { job, step } => {
            let (i, b) = choose|i: int, b: int|
                {
                    &&& 0 <= i < jobs.len()
                    &&& forall|h: int| 0 <= h < i ==> clean(jobs, h)
                    &&& !repeats_id(jobs, i)
                    &&& forall|k: int| !unknown_need(jobs, i, k)
                    &&& #[trigger] repeated_step(jobs[i], b)
                    &&& forall|e: int| 0 <= e < b ==> !repeated_step(jobs[i], e)
                    &&& job@ == jobs[i].id@
                    &&& Some(step@) == jobs[i].steps@[b].identifier()
                };
            assert(!clean(jobs, i));
        },
        GraphError::Cycle { path } => {
            assert(is_cycle(jobs, names(path@)));
        },
    }
}

/// Where three jobs need each other in a circle, each of them only the
/// next, and whatever else is needed by a job is one of the three, a path
/// that follows needs back to where it began, without passing a job twice,
/// is that circle: it begins with one of the three, goes on as they need
/// each other, and ends with the job it began with. A job that only leads
/// to the circle is not on the path.
pub proof fn lemma_circle_of_three(
    jobs: Seq<Job>,
    path: Seq<Seq<char>>,
    a: Seq<char>,
    b: Seq<char>,
    c: Seq<char>,
)
    requires
        a != b && b != c && a != c,
        forall|x: Seq<char>, y: Seq<char>| #[trigger]
            depends(jobs, x, y) ==> (y == a || y == b || y == c) && (x == a ==> y == b) && (x
                == b ==> y == c) && (x == c ==> y == a),
        is_cycle(jobs, path),
        path.drop_last().no_duplicates(),
    ensures
        path == seq![a, b, c, a] || path == seq![b, c, a, b] || path == seq![c, a, b, c],
{
    let n = path.len();
    assert(depends(jobs, path[n - 2], path[n - 2 + 1]));
    assert(path[0] == a || path[0] == b || path[0] == c);
    assert(depends(jobs, path[0], path[0int + 1]));
    if n >= 3 {
        assert(depends(jobs, path[1], path[1int + 1]));
    }
    if n >= 4 {
        assert(depends(jobs, path[2], path[2int + 1]));
    }
    if n >= 5 {
        let front = path.drop_last();
        assert(front[0] == path[0] && front[3] == path[3]);
        assert(front[0] != front[3]);
    }
    assert(n == 4);
    assert(path[3] == path[0]);
    if path[0] == a {
        assert(path =~= seq![a, b, c, a]);
    } else if path[0] == b {
        assert(path =~= seq![b, c, a, b]);
    } else {
        assert(path =~= seq![c, a, b, c]);
    }
}

/// Three jobs that need each other in a circle are no job graph. Where
/// every job is clean, each of the three needs only the next and whatever
/// else is needed by a job is one of the three, the error that answers for
/// the jobs is that circle, with exactly the three jobs in the order in
/// which they need each other and the first one again at the end.
pub proof fn lemma_circle_of_three_is_reported(
    jobs: Seq<Job>,
    error: GraphError,
    a: Seq<char>,
    b: Seq<char>,
    c: Seq<char>,
)
    requires
        a != b && b != c && a != c,
        depends(jobs, a, b) && depends(jobs, b, c) && depends(jobs, c, a),
        forall|x: Seq<char>, y: Seq<char>| #[trigger]
            depends(jobs, x, y) ==> (y == a || y == b || y == c) && (x == a ==> y == b) && (x
                == b ==> y == c) && (x == c ==> y == a),
        forall|i: int| 0 <= i < jobs.len() ==> clean(jobs, i),
        reports(jobs, error),
    ensures
        !sound(jobs),
        error matches GraphError::Cycle { path } && (names(path@) == seq![a, b, c, a] || names(
            path@,
        ) == seq![b, c, a, b] || names(path@) == seq![c, a, b, c]),
{
    lemma_reported_unsound(jobs, error);
    match error {
        GraphError::DuplicateJob { job } => {
            let i = choose|i: int|
                {
                    &&& 0 <= i < jobs.len()
                    &&& forall|h: int| 0 <= h < i ==> clean(jobs, h)
                    &&& #[trigger] repeats_id(jobs, i)
                    &&& job@ == jobs[i].id@
                };
            assert(clean(jobs, i));
        },
        GraphError::UnknownNeed { job, need } => {
            let (i, k) = choose|i: int, k: int|
                {
                    &&& 0 <= i < jobs.len()
                    &&& forall|h: int| 0 <= h < i ==> clean(jobs, h)
                    &&& !repeats_id(jobs, i)
                    &&& #[trigger] unknown_need(jobs, i, k)
                    &&& forall|e: int| 0 <= e < k ==> !unknown_need(jobs, i, e)
                    &&& job@ == jobs[i].id@
                    &&& need@ == jobs[i].needs@[k]@
                };
            assert(clean(jobs, i));
        },
        GraphError::DuplicateStepId { job, step } => {
            let (i, b) = choose|i: int, b: int|
                {
                    &&& 0 <= i < jobs.len()
                    &&& forall|h: int| 0 <= h < i ==> clean(jobs, h)
                    &&& !repeats_id(jobs, i)
                    &&& forall|k: int| !unknown_need(jobs, i, k)
                    &&& #[trigger] repeated_step(jobs[i], b)
                    &&& forall|e: int| 0 <= e < b ==> !repeated_step(jobs[i], e)
                    &&& job@ == jobs[i].id@
                    &&& Some(step@) == jobs[i].steps@[b].identifier()
                };
            assert(clean(jobs, i));
        },
        GraphError::Cycle { path } => {
            lemma_circle_of_three(jobs, names(path@), a, b, c);
        },
    }
}

/// The position of the first job named `id`.
pub fn find_job(jobs: &Vec<Job>, id: &JobId) -> (r: Option<usize>)
    ensures
        match r {
            Some(i) => i < jobs@.len() && jobs@[i as int].id@ == id@ && forall|j: int|
                0 <= j < i ==> (#[trigger] jobs@[j]).id@ != id@,
            None => !declares(jobs@, id@),
        },
{
    let mut i: usize = 0;
    while i < jobs.len()
        invariant
            i <= jobs@.len(),
            forall|j: int| 0 <= j < i ==> (#[trigger] jobs@[j]).id@ != id@,
        decreases jobs@.len() - i,
    {
        if jobs[i].id == *id {
            return Some(i);
        }
        i += 1;
    }
    None
}

/// The first step of `job` whose identifier an earlier step has, with that
/// identifier.
fn find_repeated_step(job: &Job) -> (r: Option<(usize, StepId)>)
    ensures
        match r {
            Some((b, id)) => repeated_step(*job, b as int) && Some(id@)
                == job.steps@[b as int].identifier() && forall|e: int|
                0 <= e < b ==> !repeated_step(*job, e),
            None => forall|b: int| !repeated_step(*job, b),
        },
{
    let mut b: usize = 0;
    while b < job.steps.len()
        invariant
            b <= job.steps@.len(),
            forall|e: int| 0 <= e < b ==> !repeated_step(*job, e),
        decreases job.steps@.len() - b,
    {
        match job.steps[b].id() {
            Some(id) => {
                let mut a: usize = 0;
                while a < b
                    invariant
                        a <= b < job.steps@.len(),
                        job.steps@[b as int].identifier() == Some(id@),
                        forall|e: int| 0 <= e < b ==> !repeated_step(*job, e),
                        forall|e: int|
                            0 <= e < a ==> (#[trigger] job.steps@[e]).identifier()
                                != job.steps@[b as int].identifier(),
                    decreases b - a,
                {
                    match job.steps[a].id() {
                        Some(earlier) => {
                            if *earlier == *id {
                                assert(job.steps@[a as int].identifier()
                                    == job.steps@[b as int].identifier());
                                return Some((b, id.clone()));
                            }
                        },
                        None => {},
                    }
                    a += 1;
                }
            },
            None => {},
        }
        b += 1;
    }
    None
}

/// What ties the dependency lists `edges` to the jobs they were made from:
/// list `i` holds the positions of the jobs that job `i` needs.
pub open spec fn linked(jobs: Seq<Job>, edges: Seq<Vec<usize>>) -> bool {
    &&& edges.len() == jobs.len()
    &&& graph::well_formed(edges)
    &&& forall|i: int, j: int|
        0 <= i < jobs.len() && 0 <= j < jobs.len() ==> (#[trigger] graph::edge(edges, i, j)
            <==> lists(jobs[i], jobs[j].id@))
}

/// List `deps` holds a position for each of the first `count` needs of
/// `job`, and nothing else.
spec fn gathered(jobs: Seq<Job>, job: Job, deps: Seq<usize>, count: int) -> bool {
    &&& deps.no_duplicates()
    &&& forall|q: int|
        0 <= q < deps.len() ==> #[trigger] deps[q] < jobs.len() && lists(
            job,
            jobs[deps[q] as int].id@,
        )
    &&& forall|k: int|
        0 <= k < count ==> exists|q: int|
            0 <= q < deps.len() && jobs[#[trigger] deps[q] as int].id@ == (
            #[trigger] job.needs@[k])@
}

/// Checks job `i` and resolves its needs to positions.
fn resolve_job(jobs: &Vec<Job>, i: usize) -> (r: Result<Vec<usize>, GraphError>)
    requires
        i < jobs@.len(),
        forall|h: int| 0 <= h < i ==> clean(jobs@, h),
    ensures
        match r {
            Ok(deps) => clean(jobs@, i as int) && gathered(
                jobs@,
                jobs@[i as int],
                deps@,
                jobs@[i as int].needs@.len() as int,
            ),
            Err(error) => reports(jobs@, error) && !(error is Cycle),
        },
{
    let job = &jobs[i];
    match find_job(jobs, &job.id) {
        Some(first) => {
            if first < i {
                assert(repeats_id(jobs@, i as int));
                return Err(GraphError::DuplicateJob { job: job.id.clone() });
            }
        },
        None => {},
    }
    assert(!repeats_id(jobs@, i as int));
    let mut deps: Vec<usize> = Vec::new();
    let mut k: usize = 0;
    while k < job.needs.len()
        invariant
            i < jobs@.len(),
            *job == jobs@[i as int],
            k <= job.needs@.len(),
            forall|h: int| 0 <= h < i ==> clean(jobs@, h),
            !repeats_id(jobs@, i as int),
            forall|e: int| 0 <= e < k ==> !unknown_need(jobs@, i as int, e),
            gathered(jobs@, *job, deps@, k as int),
        decreases job.needs@.len() - k,
    {
        let need = &job.needs[k];
        match find_job(jobs, need) {
            Some(at) => {
                let ghost before = deps@;
                assert(declares(jobs@, need@));
                if graph::position(&deps, at).is_none() {
                    deps.push(at);
                    proof {
                        assert(deps@[deps@.len() - 1] == at);
                        assert forall|e: int| 0 <= e < k implies exists|q: int|
                            0 <= q < deps@.len() && jobs@[#[trigger] deps@[q] as int].id@ == (
                            #[trigger] job.needs@[e])@ by {
                            let q = choose|q: int|
                                0 <= q < before.len() && jobs@[#[trigger] before[q] as int].id@
                                    == job.needs@[e]@;
                            assert(deps@[q] == before[q]);
                        }
                    }
                } else {
                    let ghost q = choose|q: int| 0 <= q < deps@.len() && deps@[q] == at;
                    assert(jobs@[deps@[q] as int].id@ == job.needs@[k as int]@);
                }
            },
            None => {
                assert(unknown_need(jobs@, i as int, k as int));
                return Err(GraphError::UnknownNeed { job: job.id.clone(), need: need.clone() });
            },
        }
        k += 1;
    }
    assert(forall|e: int| !unknown_need(jobs@, i as int, e));
    match find_repeated_step(job) {
        Some((b, step)) => {
            assert(repeated_step(jobs@[i as int], b as int));
            Err(GraphError::DuplicateStepId { job: job.id.clone(), step })
        },
        None => Ok(deps),
    }
}

/// Checks every job by itself and resolves all needs to positions.
fn resolve(jobs: &Vec<Job>) -> (r: Result<Vec<Vec<usize>>, GraphError>)
    ensures
        match r {
            Ok(edges) => linked(jobs@, edges@) && forall|i: int|
                0 <= i < jobs@.len() ==> clean(jobs@, i),
            Err(error) => reports(jobs@, error) && !(error is Cycle),
        },
{
    let mut edges: Vec<Vec<usize>> = Vec::new();
    let mut i: usize = 0;
    while i < jobs.len()
        invariant
            i <= jobs@.len(),
            edges@.len() == i,
            forall|h: int| 0 <= h < i ==> clean(jobs@, h),
            forall|h: int|
                0 <= h < i ==> gathered(
                    jobs@,
                    jobs@[h],
                    (#[trigger] edges@[h])@,
                    jobs@[h].needs@.len() as int,
                ),
        decreases jobs@.len() - i,
    {
        let deps = resolve_job(jobs, i)?;
        edges.push(deps);
        i += 1;
    }
    proof {
        lemma_clean_distinct(jobs@);
        assert forall|a: int, k: int|
            0 <= a < edges@.len() && 0 <= k < edges@[a]@.len() implies #[trigger] edges@[a]@[k]
            < edges@.len() by {
            assert(gathered(jobs@, jobs@[a], edges@[a]@, jobs@[a].needs@.len() as int));
        }
        assert forall|a: int| 0 <= a < edges@.len() implies (#[trigger] edges@[a])@.no_duplicates() by {
            assert(gathered(jobs@, jobs@[a], edges@[a]@, jobs@[a].needs@.len() as int));
        }
        assert forall|a: int, b: int|
            0 <= a < jobs@.len() && 0 <= b < jobs@.len() implies (#[trigger] graph::edge(
            edges@,
            a,
            b,
        ) <==> lists(jobs@[a], jobs@[b].id@)) by {
            assert(gathered(jobs@, jobs@[a], edges@[a]@, jobs@[a].needs@.len() as int));
            if graph::edge(edges@, a, b) {
                let q = choose|q: int| 0 <= q < edges@[a]@.len() && #[trigger] edges@[a]@[q] == b;
                assert(lists(jobs@[a], jobs@[edges@[a]@[q] as int].id@));
            }
            if lists(jobs@[a], jobs@[b].id@) {
                let k = choose|k: int|
                    0 <= k < jobs@[a].needs@.len() && (#[trigger] jobs@[a].needs@[k])@
                        == jobs@[b].id@;
                let q = choose|q: int|
                    0 <= q < edges@[a]@.len() && jobs@[#[trigger] edges@[a]@[q] as int].id@
                        == jobs@[a].needs@[k]@;
                let other = edges@[a]@[q] as int;
                assert(jobs@[other].id@ == jobs@[b].id@);
                assert(other == b);
            }
        }
    }
    Ok(edges)
}

/// Clean jobs have names of their own.
pub proof fn lemma_clean_distinct(jobs: Seq<Job>)
    requires
        forall|i: int| 0 <= i < jobs.len() ==> clean(jobs, i),
    ensures
        forall|i: int, j: int|
            0 <= i < jobs.len() && 0 <= j < jobs.len() && (#[trigger] jobs[i]).id@ == (
            #[trigger] jobs[j]).id@ ==> i == j,
{
    assert forall|i: int, j: int|
        0 <= i < jobs.len() && 0 <= j < jobs.len() && (#[trigger] jobs[i]).id@ == (
        #[trigger] jobs[j]).id@ implies i == j by {
        if i < j {
            assert(clean(jobs, j));
            assert(repeats_id(jobs, j));
        } else if j < i {
            assert(clean(jobs, i));
            assert(repeats_id(jobs, i));
        }
    }
}

/// The positions of the jobs that a chain names.
spec fn positions(jobs: Seq<Job>, p: Seq<Seq<char>>) -> Seq<usize> {
    Seq::new(p.len(), |k: int| position_of(jobs, p[k]) as usize)
}

/// The position of the job named `id`.
pub open spec fn position_of(jobs: Seq<Job>, id: Seq<char>) -> int {
    choose|i: int| 0 <= i < jobs.len() && (#[trigger] jobs[i]).id@ == id
}

/// Every job of a chain exists.
proof fn lemma_chain_declared(jobs: Seq<Job>, p: Seq<Seq<char>>, k: int)
    requires
        forall|i: int| 0 <= i < jobs.len() ==> clean(jobs, i),
        is_chain(jobs, p),
        0 <= k < p.len(),
    ensures
        declares(jobs, p[k]),
    decreases k,
{
    if k > 0 {
        assert(depends(jobs, p[k - 1], p[k - 1 + 1]));
        let i = choose|i: int|
            0 <= i < jobs.len() && (#[trigger] jobs[i]).id@ == p[k - 1] && lists(jobs[i], p[k]);
        let e = choose|e: int| 0 <= e < jobs[i].needs@.len() && (#[trigger] jobs[i].needs@[e])@ == p[k];
        assert(clean(jobs, i));
        assert(!unknown_need(jobs, i, e));
    }
}

/// A chain of needs is a walk through the dependency lists.
proof fn lemma_chain_walk(jobs: Seq<Job>, edges: Seq<Vec<usize>>, p: Seq<Seq<char>>)
    requires
        jobs.len() <= usize::MAX,
        forall|i: int| 0 <= i < jobs.len() ==> clean(jobs, i),
        linked(jobs, edges),
        is_chain(jobs, p),
    ensures
        graph::is_walk(edges, positions(jobs, p)),
        positions(jobs, p).len() == p.len(),
        forall|k: int|
            0 <= k < p.len() ==> 0 <= #[trigger] positions(jobs, p)[k] < jobs.len() && jobs[positions(
                jobs,
                p,
            )[k] as int].id@ == p[k],
{
    let w = positions(jobs, p);
    lemma_clean_distinct(jobs);
    assert forall|k: int| 0 <= k < p.len() implies 0 <= #[trigger] w[k] < jobs.len()
        && jobs[w[k] as int].id@ == p[k] by {
        lemma_chain_declared(jobs, p, k);
        let at = position_of(jobs, p[k]);
        assert(0 <= at < jobs.len() && jobs[at].id@ == p[k]);
        assert(w[k] == at as usize);
    }
    assert forall|k: int| 0 <= k < w.len() - 1 implies graph::edge(
        edges,
        #[trigger] w[k] as int,
        w[k + 1] as int,
    ) by {
        assert(depends(jobs, p[k], p[k + 1]));
        let i = choose|i: int|
            0 <= i < jobs.len() && (#[trigger] jobs[i]).id@ == p[k] && lists(jobs[i], p[k + 1]);
        assert(jobs[w[k] as int].id@ == p[k]);
        assert(i == w[k]);
        assert(jobs[w[k + 1] as int].id@ == p[k + 1]);
        assert(graph::edge(edges, w[k] as int, w[k + 1] as int));
    }
}

/// A walk through the dependency lists is a chain of needs.
proof fn lemma_walk_chain(jobs: Seq<Job>, edges: Seq<Vec<usize>>, w: Seq<usize>)
    requires
        linked(jobs, edges),
        graph::is_walk(edges, w),
    ensures
        forall|k: int| 0 <= k < w.len() ==> #[trigger] w[k] < jobs.len(),
        is_chain(jobs, Seq::new(w.len(), |k: int| jobs[w[k] as int].id@)),
{
    let p = Seq::new(w.len(), |k: int| jobs[w[k] as int].id@);
    lemma_walk_bounded(edges, w, w.len() - 1);
    assert forall|k: int| 0 <= k < p.len() - 1 implies depends(jobs, #[trigger] p[k], p[k + 1]) by {
        assert(graph::edge(edges, w[k] as int, w[k + 1] as int));
        assert(w[k] < jobs.len() && w[k + 1] < jobs.len());
        assert(lists(jobs[w[k] as int], jobs[w[k + 1] as int].id@));
    }
    assert(jobs[w[0] as int].id@ == p[0]);
}

/// Every node of a walk is a node of the graph.
proof fn lemma_walk_bounded(edges: Seq<Vec<usize>>, w: Seq<usize>, upto: int)
    requires
        graph::well_formed(edges),
        graph::is_walk(edges, w),
        0 <= upto < w.len(),
    ensures
        forall|k: int| 0 <= k <= upto ==> #[trigger] w[k] < edges.len(),
    decreases upto,
{
    if upto > 0 {
        lemma_walk_bounded(edges, w, upto - 1);
        assert(graph::edge(edges, w[upto - 1] as int, w[upto - 1 + 1] as int));
    }
}

/// The jobs of a workspace, checked, in the order in which they were given.
#[derive(Debug)]
pub struct Jobs {
    jobs: Vec<Job>,
    edges: Vec<Vec<usize>>,
}

impl View for Jobs {
    type V = Seq<Job>;

    closed spec fn view(&self) -> Seq<Job> {
        self.jobs@
    }
}

impl Jobs {
    /// What every graph that [`Jobs::new`] hands out meets.
    pub closed spec fn wf(&self) -> bool {
        &&& forall|i: int| 0 <= i < self.jobs@.len() ==> clean(self.jobs@, i)
        &&& linked(self.jobs@, self.edges@)
        &&& graph::schedulable(self.edges@)
    }

    /// A graph is sound: its jobs are clean, and no job needs itself,
    /// directly or through other jobs.
    pub proof fn lemma_sound(&self)
        requires
            self.wf(),
        ensures
            sound(self@),
    {
        graph::lemma_schedulable_acyclic(self.edges@);
        assert(self.jobs@.len() == self.jobs.len());
        assert forall|p: Seq<Seq<char>>| !is_cycle(self@, p) by {
            if is_cycle(self@, p) {
                lemma_chain_walk(self.jobs@, self.edges@, p);
                let w = positions(self.jobs@, p);
                assert(w.first() == w.last()) by {
                    assert(w[0] == position_of(self.jobs@, p[0]) as usize);
                    assert(w[w.len() - 1] == position_of(self.jobs@, p[p.len() - 1]) as usize);
                }
                assert(graph::is_cycle(self.edges@, w));
            }
        }
    }

    /// Checks `jobs` and makes the graph of them.
    ///
    /// `Ok` exactly when the jobs are sound. Otherwise the error names the
    /// first job at fault and what is wrong with it, or, where every job is
    /// fine by itself, a cycle of needs: each job of the path once, in the
    /// order in which they need each other, and the first one again at the
    /// end.
    pub fn new(jobs: Vec<Job>) -> (r: Result<Jobs, GraphError>)
        ensures
            r is Ok <==> sound(jobs@),
            match r {
                Ok(graph) => graph.wf() && graph@ == jobs@,
                Err(error) => reports(jobs@, error),
            },
    {
        let edges = match resolve(&jobs) {
            Ok(edges) => edges,
            Err(error) => {
                proof {
                    lemma_reported_unsound(jobs@, error);
                }
                return Err(error);
            },
        };
        match graph::find_cycle(&edges) {
            Some(cycle) => {
                let mut path: Vec<JobId> = Vec::new();
                let mut k: usize = 0;
                proof {
                    lemma_walk_chain(jobs@, edges@, cycle@);
                }
                while k < cycle.len()
                    invariant
                        k <= cycle@.len(),
                        forall|e: int| 0 <= e < cycle@.len() ==> #[trigger] cycle@[e] < jobs@.len(),
                        path@.len() == k,
                        forall|e: int|
                            0 <= e < k ==> (#[trigger] path@[e])@ == jobs@[cycle@[e] as int].id@,
                    decreases cycle@.len() - k,
                {
                    path.push(jobs[cycle[k]].id.clone());
                    k += 1;
                }
                proof {
                    let p = Seq::new(cycle@.len(), |e: int| jobs@[cycle@[e] as int].id@);
                    assert(names(path@) =~= p);
                    lemma_clean_distinct(jobs@);
                    assert(p.drop_last().no_duplicates()) by {
                        let front = cycle@.drop_last();
                        assert forall|a: int, b: int|
                            0 <= a < p.len() - 1 && 0 <= b < p.len() - 1 && a != b implies p.drop_last()[a]
                            != p.drop_last()[b] by {
                            assert(front[a] == cycle@[a]);
                            assert(front[b] == cycle@[b]);
                            assert(front[a] != front[b]);
                        }
                    }
                    let error = GraphError::Cycle { path };
                    assert(reports(jobs@, error));
                    lemma_reported_unsound(jobs@, error);
                }
                Err(GraphError::Cycle { path })
            },
            None => {
                let graph = Jobs { jobs, edges };
                proof {
                    graph.lemma_sound();
                }
                Ok(graph)
            },
        }
    }

    /// Whether no job is defined.
    pub fn is_empty(&self) -> (r: bool)
        ensures
            r == (self@.len() == 0),
    {
        self.jobs.len() == 0
    }

    /// The number of jobs.
    pub fn len(&self) -> (r: usize)
        ensures
            r == self@.len(),
    {
        self.jobs.len()
    }

    /// The jobs, in the order in which they were given.
    pub fn jobs(&self) -> (r: &Vec<Job>)
        ensures
            r@ == self@,
    {
        &self.jobs
    }

    /// The job named `id`, if there is one.
    pub fn get_job(&self, id: &JobId) -> (r: Option<&Job>)
        ensures
            match r {
                Some(job) => job.id@ == id@ && exists|i: int|
                    0 <= i < self@.len() && #[trigger] self@[i] == *job,
                None => !declares(self@, id@),
            },
    {
        match find_job(&self.jobs, id) {
            Some(i) => {
                assert(self@[i as int] == self.jobs@[i as int]);
                Some(&self.jobs[i])
            },
            None => None,
        }
    }

    /// The order in which the jobs of `wanted` are put: the jobs that need
    /// none of the others first, in the order of the graph; then, as job
    /// after job of the order is settled, the jobs that needed it last, in
    /// the order of the graph. A job needs another where a chain of needs
    /// leads from it to the other, through whatever jobs.
    pub closed spec fn sorted(&self, wanted: Set<Seq<char>>) -> Seq<Seq<char>> {
        graph::dependency_order(self.edges@, marked(self.jobs@, wanted)).map_values(
            |a: usize| self.jobs@[a as int].id@,
        )
    }

    /// The order depends on which jobs are wanted, and on nothing else: two
    /// sets that hold the same jobs are put in the same order.
    pub proof fn lemma_sorted_by_jobs(&self, a: Set<Seq<char>>, b: Set<Seq<char>>)
        requires
            forall|id: Seq<char>| declares(self@, id) ==> (a.contains(id) <==> b.contains(id)),
        ensures
            self.sorted(a) == self.sorted(b),
    {
        assert(marked(self.jobs@, a) =~= marked(self.jobs@, b)) by {
            assert forall|i: int| 0 <= i < self.jobs@.len() implies marked(self.jobs@, a)[i]
                == marked(self.jobs@, b)[i] by {
                assert(declares(self@, self.jobs@[i].id@));
            }
        }
    }

    /// Orders the jobs that `jobs_to_sort` names so that each comes after
    /// the jobs among them that it needs, directly or through other jobs,
    /// named or not.
    ///
    /// Each named job occurs once; names that no job has are left out. Jobs
    /// that need none of the others come first, in the order of the graph;
    /// the rest follow as their needs are met.
    pub fn topological_sort(&self, jobs_to_sort: &Vec<JobId>) -> (order: Vec<&JobId>)
        requires
            self.wf(),
        ensures
            names_of(order@) == self.sorted(names(jobs_to_sort@).to_set()),
            names_of(order@).no_duplicates(),
            forall|id: Seq<char>| #[trigger]
                names_of(order@).contains(id) <==> names(jobs_to_sort@).contains(id) && declares(
                    self@,
                    id,
                ),
            needs_come_first(self@, names_of(order@)),
            respects_needs(self@, names_of(order@)),
    {
        let n = self.jobs.len();
        let mut wanted = graph::no_marks(n);
        let mut k: usize = 0;
        while k < jobs_to_sort.len()
            invariant
                self.wf(),
                n == self.jobs@.len(),
                wanted@.len() == n,
                k <= jobs_to_sort@.len(),
                forall|a: int|
                    0 <= a < n ==> (#[trigger] wanted@[a] <==> exists|e: int|
                        0 <= e < k && (#[trigger] jobs_to_sort@[e])@ == self.jobs@[a].id@),
            decreases jobs_to_sort@.len() - k,
        {
            match find_job(&self.jobs, &jobs_to_sort[k]) {
                Some(at) => {
                    let ghost before = wanted@;
                    wanted.set(at, true);
                    proof {
                        lemma_clean_distinct(self.jobs@);
                        assert forall|a: int| 0 <= a < n implies (#[trigger] wanted@[a] <==> exists|
                            e: int,
                        |
                            0 <= e < k + 1 && (#[trigger] jobs_to_sort@[e])@
                                == self.jobs@[a].id@) by {
                            if a == at {
                                assert(jobs_to_sort@[k as int]@ == self.jobs@[a].id@);
                            } else if before[a] {
                                let e = choose|e: int|
                                    0 <= e < k && (#[trigger] jobs_to_sort@[e])@
                                        == self.jobs@[a].id@;
                                assert(jobs_to_sort@[e]@ == self.jobs@[a].id@);
                            } else if exists|e: int|
                                0 <= e < k + 1 && (#[trigger] jobs_to_sort@[e])@
                                    == self.jobs@[a].id@ {
                                let e = choose|e: int|
                                    0 <= e < k + 1 && (#[trigger] jobs_to_sort@[e])@
                                        == self.jobs@[a].id@;
                                if e == k {
                                    assert(self.jobs@[at as int].id@ == self.jobs@[a].id@);
                                } else {
                                    assert(jobs_to_sort@[e]@ == self.jobs@[a].id@);
                                }
                            }
                        }
                    }
                },
                None => {
                    proof {
                        assert forall|a: int| 0 <= a < n implies (#[trigger] wanted@[a] <==> exists|
                            e: int,
                        |
                            0 <= e < k + 1 && (#[trigger] jobs_to_sort@[e])@
                                == self.jobs@[a].id@) by {
                            if wanted@[a] {
                                let e = choose|e: int|
                                    0 <= e < k && (#[trigger] jobs_to_sort@[e])@
                                        == self.jobs@[a].id@;
                                assert(jobs_to_sort@[e]@ == self.jobs@[a].id@);
                            } else if exists|e: int|
                                0 <= e < k + 1 && (#[trigger] jobs_to_sort@[e])@
                                    == self.jobs@[a].id@ {
                                let e = choose|e: int|
                                    0 <= e < k + 1 && (#[trigger] jobs_to_sort@[e])@
                                        == self.jobs@[a].id@;
                                if e == k {
                                    assert(declares(self.jobs@, jobs_to_sort@[k as int]@));
                                } else {
                                    assert(jobs_to_sort@[e]@ == self.jobs@[a].id@);
                                }
                            }
                        }
                    }
                },
            }
            k += 1;
        }
        let sorted = graph::topological_order(&self.edges, &wanted);
        proof {
            assert forall|q: int| 0 <= q < sorted@.len() implies #[trigger] sorted@[q]
                < self.jobs@.len() by {
                assert(sorted@.contains(sorted@[q]));
            }
            let asked = names(jobs_to_sort@);
            assert(wanted@ =~= marked(self.jobs@, asked.to_set())) by {
                assert forall|a: int| 0 <= a < n implies wanted@[a] == asked.to_set().contains(
                    self.jobs@[a].id@,
                ) by {
                    if wanted@[a] {
                        let e = choose|e: int|
                            0 <= e < jobs_to_sort@.len() && (#[trigger] jobs_to_sort@[e])@
                                == self.jobs@[a].id@;
                        assert(asked[e] == self.jobs@[a].id@);
                    }
                    if asked.contains(self.jobs@[a].id@) {
                        let e = choose|e: int| 0 <= e < asked.len() && asked[e] == self.jobs@[a].id@;
                        assert(jobs_to_sort@[e]@ == self.jobs@[a].id@);
                    }
                }
            }
        }
        let order = self.ids_at(&sorted);
        proof {
            let ids = names_of(order@);
            lemma_clean_distinct(self.jobs@);
            assert forall|q: int| 0 <= q < ids.len() implies #[trigger] ids[q]
                == self.jobs@[sorted@[q] as int].id@ by {
                assert(names_of(order@)[q] == self.jobs@[sorted@[q] as int].id@);
            }
            assert(ids =~= self.sorted(names(jobs_to_sort@).to_set()));
            assert(ids.no_duplicates()) by {
                assert forall|q: int, r: int|
                    0 <= q < ids.len() && 0 <= r < ids.len() && q != r implies ids[q] != ids[r] by {
                    assert(sorted@[q] != sorted@[r]);
                    assert(ids[q] == self.jobs@[sorted@[q] as int].id@);
                    assert(ids[r] == self.jobs@[sorted@[r] as int].id@);
                }
            }
            assert forall|id: Seq<char>| #[trigger] ids.contains(id) implies names(
                jobs_to_sort@,
            ).contains(id) && declares(self@, id) by {
                let q = choose|q: int| 0 <= q < ids.len() && ids[q] == id;
                let a = sorted@[q];
                assert(sorted@.contains(a));
                assert(wanted@[a as int]);
                let e = choose|e: int|
                    0 <= e < jobs_to_sort@.len() && (#[trigger] jobs_to_sort@[e])@
                        == self.jobs@[a as int].id@;
                assert(names(jobs_to_sort@)[e] == id);
                assert(self.jobs@[a as int].id@ == id);
            }
            assert forall|id: Seq<char>|
                names(jobs_to_sort@).contains(id) && declares(self@, id) implies #[trigger] ids.contains(
                id,
            ) by {
                let e = choose|e: int|
                    0 <= e < jobs_to_sort@.len() && names(jobs_to_sort@)[e] == id;
                let a = choose|a: int| 0 <= a < self.jobs@.len() && (#[trigger] self.jobs@[a]).id@ == id;
                assert(jobs_to_sort@[e]@ == self.jobs@[a].id@);
                assert(wanted@[a]);
                assert(sorted@.contains(a as usize));
                let q = choose|q: int| 0 <= q < sorted@.len() && sorted@[q] == a as usize;
                assert(ids[q] == id);
            }
            assert forall|q: int, r: int|
                0 <= q < ids.len() && 0 <= r < ids.len() && #[trigger] needs_transitively(
                    self@,
                    ids[q],
                    ids[r],
                ) implies r < q by {
                let p = choose|p: Seq<Seq<char>>| #[trigger]
                    is_chain(self@, p) && p.len() >= 2 && p.first() == ids[q] && p.last()
                        == ids[r];
                lemma_chain_walk(self.jobs@, self.edges@, p);
                let w = positions(self.jobs@, p);
                assert(ids[q] == self.jobs@[sorted@[q] as int].id@);
                assert(ids[r] == self.jobs@[sorted@[r] as int].id@);
                assert(self.jobs@[w[0] as int].id@ == p[0]);
                assert(self.jobs@[w[p.len() - 1] as int].id@ == p[p.len() - 1]);
                assert(w.first() == sorted@[q]);
                assert(w.last() == sorted@[r]);
                assert(graph::reaches(self.edges@, sorted@[q] as int, sorted@[r] as int));
            }
            lemma_direct_needs_come_first(self@, ids);
        }
        order
    }

    /// The identifiers of the jobs at the given positions.
    fn ids_at(&self, positions: &Vec<usize>) -> (ids: Vec<&JobId>)
        requires
            forall|q: int| 0 <= q < positions@.len() ==> #[trigger] positions@[q] < self.jobs@.len(),
        ensures
            ids@.len() == positions@.len(),
            forall|q: int|
                0 <= q < ids@.len() ==> (#[trigger] names_of(ids@)[q]) == self.jobs@[positions@[q] as int].id@,
            names_of(ids@).len() == positions@.len(),
    {
        let mut ids: Vec<&JobId> = Vec::new();
        let mut q: usize = 0;
        while q < positions.len()
            invariant
                q <= positions@.len(),
                ids@.len() == q,
                forall|e: int|
                    0 <= e < positions@.len() ==> #[trigger] positions@[e] < self.jobs@.len(),
                forall|e: int| 0 <= e < q ==> (#[trigger] ids@[e])@ == self.jobs@[positions@[e] as int].id@,
            decreases positions@.len() - q,
        {
            ids.push(&self.jobs[positions[q]].id);
            q += 1;
        }
        assert forall|e: int| 0 <= e < ids@.len() implies (#[trigger] names_of(ids@)[e])
            == self.jobs@[positions@[e] as int].id@ by {
            assert(ids@[e]@ == self.jobs@[positions@[e] as int].id@);
        }
        ids
    }

    /// What the job named `id` needs, in the order in which it is collected:
    /// the jobs it lists, then what each of these in turn adds. Nothing
    /// where there is no such job.
    pub closed spec fn needs_in_order(&self, id: Seq<char>) -> Seq<Seq<char>> {
        if declares(self.jobs@, id) {
            graph::collected(self.edges@, position_of(self.jobs@, id)).map_values(
                |a: usize| self.jobs@[a as int].id@,
            )
        } else {
            Seq::empty()
        }
    }

    /// Everything the job named `job_id` needs, directly or through other
    /// jobs: direct needs first, each job once. Empty where the job needs
    /// nothing, and where there is no such job.
    pub fn get_transitive_needs(&self, job_id: &JobId) -> (needs: Vec<&JobId>)
        requires
            self.wf(),
        ensures
            names_of(needs@) == self.needs_in_order(job_id@),
            names_of(needs@).no_duplicates(),
            forall|id: Seq<char>| #[trigger]
                names_of(needs@).contains(id) <==> needs_transitively(self@, job_id@, id),
            (forall|id: Seq<char>| !depends(self@, job_id@, id)) ==> needs@.len() == 0,
    {
        let at = match find_job(&self.jobs, job_id) {
            Some(at) => at,
            None => {
                let none: Vec<&JobId> = Vec::new();
                assert(names_of(none@) =~= self.needs_in_order(job_id@));
                assert forall|id: Seq<char>| !needs_transitively(self@, job_id@, id) by {
                    if needs_transitively(self@, job_id@, id) {
                        let p = choose|p: Seq<Seq<char>>| #[trigger]
                            is_chain(self@, p) && p.len() >= 2 && p.first() == job_id@ && p.last()
                                == id;
                        assert(declares(self@, p[0]));
                    }
                }
                return none;
            },
        };
        let found = graph::dependencies(&self.edges, at);
        proof {
            assert forall|q: int| 0 <= q < found@.len() implies #[trigger] found@[q]
                < self.jobs@.len() by {
                assert(found@.contains(found@[q]));
                let w = choose|w: Seq<usize>| #[trigger]
                    graph::is_walk(self.edges@, w) && w.len() >= 2 && w.first() == at as int
                        && w.last() == found@[q] as int;
                lemma_walk_bounded(self.edges@, w, w.len() - 1);
            }
        }
        let needs = self.ids_at(&found);
        proof {
            let ids = names_of(needs@);
            lemma_clean_distinct(self.jobs@);
            assert(self.jobs@.len() == self.jobs.len());
            assert(declares(self.jobs@, job_id@));
            assert(position_of(self.jobs@, job_id@) == at);
            assert(ids =~= self.needs_in_order(job_id@)) by {
                assert forall|q: int| 0 <= q < ids.len() implies ids[q]
                    == self.needs_in_order(job_id@)[q] by {
                    assert(names_of(needs@)[q] == self.jobs@[found@[q] as int].id@);
                }
            }
            assert forall|q: int| 0 <= q < ids.len() implies #[trigger] ids[q]
                == self.jobs@[found@[q] as int].id@ by {
                assert(names_of(needs@)[q] == self.jobs@[found@[q] as int].id@);
            }
            assert(ids.no_duplicates()) by {
                assert forall|q: int, r: int|
                    0 <= q < ids.len() && 0 <= r < ids.len() && q != r implies ids[q] != ids[r] by {
                    assert(found@[q] != found@[r]);
                    assert(ids[q] == self.jobs@[found@[q] as int].id@);
                    assert(ids[r] == self.jobs@[found@[r] as int].id@);
                }
            }
            assert forall|id: Seq<char>| #[trigger] ids.contains(id) implies needs_transitively(
                self@,
                job_id@,
                id,
            ) by {
                let q = choose|q: int| 0 <= q < ids.len() && ids[q] == id;
                assert(found@.contains(found@[q]));
                let w = choose|w: Seq<usize>| #[trigger]
                    graph::is_walk(self.edges@, w) && w.len() >= 2 && w.first() == at as int
                        && w.last() == found@[q] as int;
                lemma_walk_chain(self.jobs@, self.edges@, w);
                let p = Seq::new(w.len(), |k: int| self.jobs@[w[k] as int].id@);
                assert(p.first() == job_id@);
                assert(p.last() == id);
            }
            assert forall|id: Seq<char>|
                needs_transitively(self@, job_id@, id) implies #[trigger] ids.contains(id) by {
                let p = choose|p: Seq<Seq<char>>| #[trigger]
                    is_chain(self@, p) && p.len() >= 2 && p.first() == job_id@ && p.last() == id;
                lemma_chain_walk(self.jobs@, self.edges@, p);
                let w = positions(self.jobs@, p);
                assert(w.first() == at as int) by {
                    assert(self.jobs@[w[0] as int].id@ == p[0]);
                }
                let last = w[w.len() - 1];
                assert(w.last() == last as int);
                assert(graph::reaches(self.edges@, at as int, last as int));
                assert(found@.contains(last));
                let q = choose|q: int| 0 <= q < found@.len() && found@[q] == last;
                assert(self.jobs@[w[p.len() - 1] as int].id@ == p[p.len() - 1]);
                assert(ids[q] == id);
            }
            if forall|id: Seq<char>| !depends(self@, job_id@, id) {
                if self.edges@[at as int]@.len() > 0 {
                    let b = self.edges@[at as int]@[0];
                    assert(graph::edge(self.edges@, at as int, b as int));
                    assert(lists(self.jobs@[at as int], self.jobs@[b as int].id@));
                    assert(depends(self@, job_id@, self.jobs@[b as int].id@));
                }
            }
        }
        needs
    }
}

impl Default for Jobs {
    fn default() -> (r: Self)
        ensures
            r.wf(),
            r@.len() == 0,
    {
        let graph = Jobs { jobs: Vec::new(), edges: Vec::new() };
        proof {
            let nothing = Seq::<usize>::empty();
            assert(graph::is_schedule(graph.edges@, nothing));
            assert(graph::covers(nothing, 0));
        }
        graph
    }
}

/// Wherever a job of `order` needs another job of `order`, directly or
/// through other jobs, of `order` or not, the other comes earlier.
pub open spec fn needs_come_first(jobs: Seq<Job>, order: Seq<Seq<char>>) -> bool {
    forall|q: int, r: int|
        0 <= q < order.len() && 0 <= r < order.len() && #[trigger] needs_transitively(
            jobs,
            order[q],
            order[r],
        ) ==> r < q
}

/// An order in which everything that a job needs comes before it has, in
/// particular, what the job itself lists before it.
pub proof fn lemma_direct_needs_come_first(jobs: Seq<Job>, order: Seq<Seq<char>>)
    requires
        needs_come_first(jobs, order),
    ensures
        respects_needs(jobs, order),
{
    assert forall|q: int, r: int|
        0 <= q < order.len() && 0 <= r < order.len() && #[trigger] depends(
            jobs,
            order[q],
            order[r],
        ) implies r < q by {
        let p = seq![order[q], order[r]];
        let i = choose|i: int|
            0 <= i < jobs.len() && (#[trigger] jobs[i]).id@ == order[q] && lists(jobs[i], order[r]);
        assert(declares(jobs, p[0]));
        assert(is_chain(jobs, p));
        assert(p.first() == order[q] && p.last() == order[r]);
        assert(needs_transitively(jobs, order[q], order[r]));
    }
}

/// Wherever a job of `order` lists another job of `order` among its needs,
/// the other comes earlier.
pub open spec fn respects_needs(jobs: Seq<Job>, order: Seq<Seq<char>>) -> bool {
    forall|q: int, r: int|
        0 <= q < order.len() && 0 <= r < order.len() && #[trigger] depends(jobs, order[q], order[r])
            ==> r < q
}

/// In an order that respects needs, a job comes after everything it needs
/// through jobs of the order: where a chain of needs runs within the order,
/// its last job stands before its first.
pub proof fn lemma_transitive_needs_come_first(
    jobs: Seq<Job>,
    order: Seq<Seq<char>>,
    p: Seq<Seq<char>>,
)
    requires
        respects_needs(jobs, order),
        is_chain(jobs, p),
        p.len() >= 2,
        forall|k: int| 0 <= k < p.len() ==> order.contains(#[trigger] p[k]),
    ensures
        exists|q: int, r: int|
            0 <= r < q < order.len() && #[trigger] order[q] == p.first() && #[trigger] order[r]
                == p.last(),
    decreases p.len(),
{
    let last = p.len() - 1;
    assert(order.contains(p[last]));
    assert(order.contains(p[last - 1]));
    let r = choose|r: int| 0 <= r < order.len() && order[r] == p[last];
    let m = choose|m: int| 0 <= m < order.len() && order[m] == p[last - 1];
    assert(depends(jobs, p[last - 1], p[last - 1 + 1]));
    assert(depends(jobs, order[m], order[r]));
    if p.len() == 2 {
        assert(order[m] == p.first() && order[r] == p.last());
    } else {
        let front = p.drop_last();
        assert(is_chain(jobs, front)) by {
            assert(front[0] == p[0]);
            assert forall|k: int| 0 <= k < front.len() - 1 implies depends(
                jobs,
                #[trigger] front[k],
                front[k + 1],
            ) by {
                assert(front[k] == p[k] && front[k + 1] == p[k + 1]);
            }
        }
        assert forall|k: int| 0 <= k < front.len() implies order.contains(#[trigger] front[k]) by {
            assert(front[k] == p[k]);
        }
        lemma_transitive_needs_come_first(jobs, order, front);
        let (q, mid) = choose|q: int, mid: int|
            0 <= mid < q < order.len() && #[trigger] order[q] == front.first() && #[trigger] order[mid]
                == front.last();
        assert(depends(jobs, order[mid], order[r]));
        assert(order[q] == p.first() && order[r] == p.last());
    }
}

/// What a job needs through a job it needs, it needs itself: collecting the
/// needs of the needs adds nothing.
pub proof fn lemma_needs_of_needs(jobs: Seq<Job>, a: Seq<char>, b: Seq<char>, c: Seq<char>)
    requires
        needs_transitively(jobs, a, b),
        needs_transitively(jobs, b, c),
    ensures
        needs_transitively(jobs, a, c),
{
    let p = choose|p: Seq<Seq<char>>| #[trigger]
        is_chain(jobs, p) && p.len() >= 2 && p.first() == a && p.last() == b;
    let q = choose|q: Seq<Seq<char>>| #[trigger]
        is_chain(jobs, q) && q.len() >= 2 && q.first() == b && q.last() == c;
    let joined = p + q.subrange(1, q.len() as int);
    assert(is_chain(jobs, joined)) by {
        assert(joined[0] == p[0]);
        assert forall|k: int| 0 <= k < joined.len() - 1 implies depends(
            jobs,
            #[trigger] joined[k],
            joined[k + 1],
        ) by {
            if k < p.len() - 1 {
                assert(joined[k] == p[k] && joined[k + 1] == p[k + 1]);
            } else {
                let e = k - (p.len() - 1);
                assert(joined[k] == q[e]) by {
                    if k == p.len() - 1 {
                        assert(joined[k] == p[k]);
                    }
                }
                assert(joined[k + 1] == q[e + 1]);
            }
        }
    }
    assert(joined.first() == a);
    assert(joined.last() == c);
}

/// The jobs of `wanted` with everything they need, directly or through
/// other jobs.
pub open spec fn with_needs(jobs: Seq<Job>, wanted: Set<Seq<char>>) -> Set<Seq<char>> {
    Set::new(
        |id: Seq<char>|
            wanted.contains(id) || exists|a: Seq<char>|
                wanted.contains(a) && #[trigger] needs_transitively(jobs, a, id),
    )
}

/// Adding needs is idempotent: a set that holds its needs gains nothing
/// when they are added again.
pub proof fn lemma_with_needs_idempotent(jobs: Seq<Job>, wanted: Set<Seq<char>>)
    ensures
        with_needs(jobs, with_needs(jobs, wanted)) == with_needs(jobs, wanted),
{
    let once = with_needs(jobs, wanted);
    let twice = with_needs(jobs, once);
    assert forall|id: Seq<char>| twice.contains(id) implies once.contains(id) by {
        if !once.contains(id) {
            let b = choose|b: Seq<char>| once.contains(b) && #[trigger] needs_transitively(jobs, b, id);
            if !wanted.contains(b) {
                let a = choose|a: Seq<char>|
                    wanted.contains(a) && #[trigger] needs_transitively(jobs, a, b);
                lemma_needs_of_needs(jobs, a, b, id);
            }
        }
    }
    assert(twice =~= once);
}


/// What a job of sound jobs needs, through however many jobs, is a job.
pub proof fn lemma_needs_declared(jobs: Seq<Job>, a: Seq<char>, b: Seq<char>)
    requires
        sound(jobs),
        needs_transitively(jobs, a, b),
    ensures
        declares(jobs, a),
        declares(jobs, b),
{
    let p = choose|p: Seq<Seq<char>>| #[trigger]
        is_chain(jobs, p) && p.len() >= 2 && p.first() == a && p.last() == b;
    lemma_chain_declared(jobs, p, p.len() - 1);
}

/// Where an order holds a set of jobs with all their needs and respects
/// needs, every job of it comes after everything it needs, directly or
/// through other jobs.
pub proof fn lemma_needs_precede(
    jobs: Seq<Job>,
    wanted: Set<Seq<char>>,
    order: Seq<Seq<char>>,
    a: Seq<char>,
    b: Seq<char>,
)
    requires
        forall|id: Seq<char>| #[trigger] order.contains(id) <==> with_needs(jobs, wanted).contains(id),
        respects_needs(jobs, order),
        order.contains(a),
        needs_transitively(jobs, a, b),
    ensures
        exists|q: int, r: int|
            0 <= r < q < order.len() && #[trigger] order[q] == a && #[trigger] order[r] == b,
{
    let p = choose|p: Seq<Seq<char>>| #[trigger]
        is_chain(jobs, p) && p.len() >= 2 && p.first() == a && p.last() == b;
    assert forall|k: int| 0 <= k < p.len() implies order.contains(#[trigger] p[k]) by {
        if k > 0 {
            let front = p.take(k + 1);
            assert(is_chain(jobs, front)) by {
                assert(front[0] == p[0]);
                assert forall|e: int| 0 <= e < front.len() - 1 implies depends(
                    jobs,
                    #[trigger] front[e],
                    front[e + 1],
                ) by {
                    assert(front[e] == p[e] && front[e + 1] == p[e + 1]);
                }
            }
            assert(front.first() == a && front.last() == p[k]);
            assert(needs_transitively(jobs, a, p[k]));
            assert(with_needs(jobs, wanted).contains(a));
            if !wanted.contains(a) {
                let w = choose|w: Seq<char>|
                    wanted.contains(w) && #[trigger] needs_transitively(jobs, w, a);
                lemma_needs_of_needs(jobs, w, a, p[k]);
            }
            assert(with_needs(jobs, wanted).contains(p[k]));
        }
    }
    lemma_transitive_needs_come_first(jobs, order, p);
}

} // verus!
