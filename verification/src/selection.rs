//! Which jobs a run takes in, and in which order.

use vstd::prelude::*;
use crate::text::{join, joined, texts};
use crate::args::RunArgs;
use crate::config::Config;
use crate::job::Job;
use crate::job_id::JobId;
use crate::jobs::{
    declares, lemma_needs_declared, names, names_of, needs_come_first, needs_transitively,
    respects_needs, with_needs,
};

verus! {

/// Why no jobs could be selected.
#[derive(Debug, Clone, PartialEq, Eq)]
pub enum SelectError {
    /// The configuration defines no job.
    NoJobsDefined,
    /// These names were asked for, and no job has them.
    UnknownJobs { names: Vec<String> },
}

impl SelectError {
    /// The error in words.
    pub open spec fn message_text(&self) -> Seq<char> {
        match self {
            SelectError::NoJobsDefined => "no jobs are defined in configuration"@,
            SelectError::UnknownJobs { names } => "invalid jobs specified: "@ + joined(
                texts(names@),
                ", "@,
                names@.len() as int,
            ),
        }
    }

    /// The error in words.
    pub fn message(&self) -> (r: String)
        ensures
            r@ == self.message_text(),
    {
        match self {
            SelectError::NoJobsDefined => "no jobs are defined in configuration".to_owned(),
            SelectError::UnknownJobs { names } => "invalid jobs specified: ".to_owned().concat(
                join(names.as_slice(), ", ").as_str(),
            ),
        }
    }
}

/// The names among the first `upto` of `asked` that no job has.
pub open spec fn unknown_names(asked: Seq<String>, jobs: Seq<Job>, upto: int) -> Seq<Seq<char>>
    decreases upto,
{
    if upto <= 0 {
        Seq::empty()
    } else if declares(jobs, asked[upto - 1]@) {
        unknown_names(asked, jobs, upto - 1)
    } else {
        unknown_names(asked, jobs, upto - 1).push(asked[upto - 1]@)
    }
}

/// The jobs that a run is asked for: those named, or with none named the
/// default jobs, or with no default jobs all jobs.
pub open spec fn requested(asked: Seq<String>, config: Config) -> Set<Seq<char>> {
    if asked.len() > 0 {
        Set::new(|id: Seq<char>| texts(asked).contains(id))
    } else if config.defaults().len() > 0 {
        Set::new(|id: Seq<char>| names(config.defaults()).contains(id))
    } else {
        Set::new(|id: Seq<char>| declares(config.graph()@, id))
    }
}

/// Some entry of `list` is named `id`.
pub open spec fn includes(list: Seq<JobId>, id: Seq<char>) -> bool {
    exists|k: int| 0 <= k < list.len() && (#[trigger] list[k])@ == id
}

/// `id` is the job named `a` or something that job needs.
pub open spec fn reached(jobs: Seq<Job>, a: Seq<char>, id: Seq<char>) -> bool {
    a == id || needs_transitively(jobs, a, id)
}

/// `id` is reached from one of the first `upto` entries of `wanted`.
pub open spec fn covered(jobs: Seq<Job>, wanted: Seq<JobId>, upto: int, id: Seq<char>) -> bool {
    exists|e: int| 0 <= e < upto && e < wanted.len() && #[trigger] reached(jobs, wanted[e]@, id)
}

proof fn lemma_includes_names(list: Seq<JobId>, id: Seq<char>)
    ensures
        names(list).contains(id) <==> includes(list, id),
{
    if names(list).contains(id) {
        let k = choose|k: int| 0 <= k < names(list).len() && names(list)[k] == id;
        assert(list[k]@ == id);
    }
    if includes(list, id) {
        let k = choose|k: int| 0 <= k < list.len() && (#[trigger] list[k])@ == id;
        assert(names(list)[k] == id);
    }
}

proof fn lemma_includes_push(list: Seq<JobId>, x: JobId, id: Seq<char>)
    ensures
        includes(list.push(x), id) <==> includes(list, id) || x@ == id,
{
    let longer = list.push(x);
    if includes(longer, id) {
        let k = choose|k: int| 0 <= k < longer.len() && (#[trigger] longer[k])@ == id;
        if k < list.len() {
            assert(list[k]@ == id);
        }
    }
    if includes(list, id) {
        let k = choose|k: int| 0 <= k < list.len() && (#[trigger] list[k])@ == id;
        assert(longer[k]@ == id);
    }
    if x@ == id {
        assert(longer[list.len() as int]@ == id);
    }
}

/// Appends copies of the identifiers `more` to `all`.
fn append_ids(all: &mut Vec<JobId>, more: &Vec<&JobId>)
    ensures
        forall|id: Seq<char>|
            includes(final(all)@, id) <==> includes(old(all)@, id) || names_of(more@).contains(id),
{
    let mut k: usize = 0;
    while k < more.len()
        invariant
            k <= more@.len(),
            forall|id: Seq<char>|
                includes(all@, id) <==> includes(old(all)@, id) || exists|e: int|
                    0 <= e < k && #[trigger] names_of(more@)[e] == id,
        decreases more@.len() - k,
    {
        let ghost before = all@;
        let copy = more[k].clone();
        all.push(copy);
        proof {
            assert(names_of(more@)[k as int] == copy@);
            assert forall|id: Seq<char>|
                includes(all@, id) <==> includes(old(all)@, id) || exists|e: int|
                    0 <= e < k + 1 && #[trigger] names_of(more@)[e] == id by {
                lemma_includes_push(before, copy, id);
                if exists|e: int| 0 <= e < k + 1 && #[trigger] names_of(more@)[e] == id {
                    let e = choose|e: int| 0 <= e < k + 1 && #[trigger] names_of(more@)[e] == id;
                    if e < k {
                        assert(names_of(more@)[e] == id);
                    }
                }
                if includes(before, id) && !includes(old(all)@, id) {
                    let e = choose|e: int| 0 <= e < k && #[trigger] names_of(more@)[e] == id;
                    assert(names_of(more@)[e] == id);
                }
            }
        }
        k += 1;
    }
    proof {
        assert forall|id: Seq<char>|
            includes(all@, id) <==> includes(old(all)@, id) || names_of(more@).contains(id) by {
            if names_of(more@).contains(id) {
                let e = choose|e: int| 0 <= e < names_of(more@).len() && names_of(more@)[e] == id;
                assert(names_of(more@)[e] == id);
            }
            if exists|e: int| 0 <= e < k && #[trigger] names_of(more@)[e] == id {
                let e = choose|e: int| 0 <= e < k && #[trigger] names_of(more@)[e] == id;
                assert(names_of(more@).contains(id));
            }
        }
    }
}

/// The identifiers of the jobs that are asked for by the names `asked`, or
/// the names among them that no job has.
fn named_jobs(asked: &Vec<String>, cfg: &Config) -> (r: Result<Vec<JobId>, Vec<String>>)
    requires
        cfg.wf(),
        asked@.len() > 0,
    ensures
        match r {
            Ok(wanted) => {
                &&& unknown_names(asked@, cfg.graph()@, asked@.len() as int).len() == 0
                &&& forall|id: Seq<char>| includes(wanted@, id) <==> texts(asked@).contains(id)
            },
            Err(unknown) => {
                &&& unknown@.len() > 0
                &&& texts(unknown@) == unknown_names(asked@, cfg.graph()@, asked@.len() as int)
            },
        },
{
    let graph = cfg.jobs();
    let ghost jobs = graph@;
    let mut wanted: Vec<JobId> = Vec::new();
    let mut unknown: Vec<String> = Vec::new();
    let mut i: usize = 0;
    assert(texts(unknown@) =~= unknown_names(asked@, jobs, 0));
    while i < asked.len()
        invariant
            i <= asked@.len(),
            jobs == graph@,
            texts(unknown@) == unknown_names(asked@, jobs, i as int),
            forall|id: Seq<char>|
                #![trigger includes(wanted@, id)]
                includes(wanted@, id) <==> declares(jobs, id) && exists|e: int|
                    0 <= e < i && (#[trigger] asked@[e])@ == id,
        decreases asked@.len() - i,
    {
        let name = &asked[i];
        let id = JobId::new(name.clone());
        let ghost before = wanted@;
        let ghost missing = unknown@;
        assert(id@ == asked@[i as int]@);
        if graph.get_job(&id).is_some() {
            wanted.push(id);
            proof {
                assert forall|other: Seq<char>|
                    #![trigger includes(wanted@, other)]
                    includes(wanted@, other) <==> declares(jobs, other) && exists|e: int|
                        0 <= e < i + 1 && (#[trigger] asked@[e])@ == other by {
                    lemma_includes_push(before, id, other);
                    assert(declares(jobs, id@));
                    if includes(before, other) {
                        let e = choose|e: int| 0 <= e < i && (#[trigger] asked@[e])@ == other;
                        assert(asked@[e]@ == other);
                    }
                    if other == id@ {
                        assert(asked@[i as int]@ == other);
                    }
                    if exists|e: int| 0 <= e < i + 1 && (#[trigger] asked@[e])@ == other {
                        let e = choose|e: int| 0 <= e < i + 1 && (#[trigger] asked@[e])@ == other;
                        if e < i {
                            assert(asked@[e]@ == other);
                        }
                    }
                }
            }
        } else {
            unknown.push(name.clone());
            proof {
                assert(texts(unknown@) =~= texts(missing).push(name@));
                assert forall|other: Seq<char>|
                    #![trigger includes(wanted@, other)]
                    includes(wanted@, other) <==> declares(jobs, other) && exists|e: int|
                        0 <= e < i + 1 && (#[trigger] asked@[e])@ == other by {
                    assert(!declares(jobs, id@));
                    if includes(wanted@, other) {
                        let e = choose|e: int| 0 <= e < i && (#[trigger] asked@[e])@ == other;
                        assert(asked@[e]@ == other);
                    }
                    if declares(jobs, other) && exists|e: int|
                        0 <= e < i + 1 && (#[trigger] asked@[e])@ == other {
                        let e = choose|e: int| 0 <= e < i + 1 && (#[trigger] asked@[e])@ == other;
                        if e < i {
                            assert(asked@[e]@ == other);
                            assert(includes(wanted@, other));
                        }
                    }
                }
            }
        }
        i += 1;
    }
    if unknown.len() > 0 {
        return Err(unknown);
    }
    proof {
        lemma_all_known(asked@, jobs, asked@.len() as int);
        assert forall|id: Seq<char>| includes(wanted@, id) <==> texts(asked@).contains(id) by {
            if includes(wanted@, id) {
                let e = choose|e: int| 0 <= e < i && (#[trigger] asked@[e])@ == id;
                assert(texts(asked@)[e] == id);
            }
            if texts(asked@).contains(id) {
                let e = choose|e: int| 0 <= e < texts(asked@).len() && texts(asked@)[e] == id;
                assert(asked@[e]@ == id);
                assert(declares(jobs, asked@[e]@));
            }
        }
    }
    Ok(wanted)
}

/// Copies of the identifiers of all jobs.
fn all_jobs(cfg: &Config) -> (wanted: Vec<JobId>)
    ensures
        forall|id: Seq<char>| includes(wanted@, id) <==> declares(cfg.graph()@, id),
{
    let all = cfg.jobs().jobs();
    let mut wanted: Vec<JobId> = Vec::new();
    let mut i: usize = 0;
    while i < all.len()
        invariant
            i <= all@.len(),
            wanted@.len() == i,
            forall|k: int| 0 <= k < i ==> (#[trigger] wanted@[k])@ == all@[k].id@,
        decreases all@.len() - i,
    {
        wanted.push(all[i].id.clone());
        i += 1;
    }
    proof {
        assert forall|id: Seq<char>| includes(wanted@, id) <==> declares(cfg.graph()@, id) by {
            if includes(wanted@, id) {
                let k = choose|k: int| 0 <= k < wanted@.len() && (#[trigger] wanted@[k])@ == id;
                assert(all@[k].id@ == id);
            }
            if declares(cfg.graph()@, id) {
                let k = choose|k: int| 0 <= k < all@.len() && (#[trigger] all@[k]).id@ == id;
                assert(wanted@[k]@ == id);
            }
        }
    }
    wanted
}

/// Copies of the identifiers `ids`.
fn copy_ids(ids: &Vec<JobId>) -> (wanted: Vec<JobId>)
    ensures
        forall|id: Seq<char>| includes(wanted@, id) <==> names(ids@).contains(id),
{
    let mut wanted: Vec<JobId> = Vec::new();
    let mut i: usize = 0;
    while i < ids.len()
        invariant
            i <= ids@.len(),
            wanted@.len() == i,
            forall|k: int| 0 <= k < i ==> (#[trigger] wanted@[k])@ == ids@[k]@,
        decreases ids@.len() - i,
    {
        wanted.push(ids[i].clone());
        i += 1;
    }
    proof {
        assert forall|id: Seq<char>| includes(wanted@, id) <==> names(ids@).contains(id) by {
            lemma_includes_names(ids@, id);
            if includes(wanted@, id) {
                let k = choose|k: int| 0 <= k < wanted@.len() && (#[trigger] wanted@[k])@ == id;
                assert(ids@[k]@ == id);
            }
            if includes(ids@, id) {
                let k = choose|k: int| 0 <= k < ids@.len() && (#[trigger] ids@[k])@ == id;
                assert(wanted@[k]@ == id);
            }
        }
    }
    wanted
}

/// Selects the jobs of a run and puts them in the order to run them in.
///
/// These are the jobs asked for together with everything they need,
/// directly or through other jobs, each once, every job after the jobs it
/// needs. With no job named the default jobs are taken, and with no default
/// jobs all jobs. Names that no job has are an error that lists them all.
pub fn select_jobs<'a>(args: &RunArgs, cfg: &'a Config) -> (r: Result<Vec<&'a JobId>, SelectError>)
    requires
        cfg.wf(),
    ensures
        match r {
            Err(SelectError::NoJobsDefined) => cfg.graph()@.len() == 0,
            Err(SelectError::UnknownJobs { names }) => {
                &&& cfg.graph()@.len() > 0
                &&& names@.len() > 0
                &&& texts(names@) == unknown_names(args.jobs@, cfg.graph()@, args.jobs@.len() as int)
            },
            Ok(order) => {
                &&& cfg.graph()@.len() > 0
                &&& unknown_names(args.jobs@, cfg.graph()@, args.jobs@.len() as int).len() == 0
                &&& names_of(order@) == cfg.graph().sorted(
                    with_needs(cfg.graph()@, requested(args.jobs@, *cfg)),
                )
                &&& names_of(order@).no_duplicates()
                &&& forall|id: Seq<char>| #[trigger]
                    names_of(order@).contains(id) <==> with_needs(
                        cfg.graph()@,
                        requested(args.jobs@, *cfg),
                    ).contains(id)
                &&& needs_come_first(cfg.graph()@, names_of(order@))
                &&& respects_needs(cfg.graph()@, names_of(order@))
            },
        },
{
    let graph = cfg.jobs();
    if graph.is_empty() {
        return Err(SelectError::NoJobsDefined);
    }
    let ghost jobs = graph@;
    let ghost want = requested(args.jobs@, *cfg);
    let wanted = if args.jobs.len() > 0 {
        match named_jobs(&args.jobs, cfg) {
            Ok(wanted) => wanted,
            Err(names) => {
                return Err(SelectError::UnknownJobs { names });
            },
        }
    } else {
        assert(unknown_names(args.jobs@, jobs, 0) =~= Seq::<Seq<char>>::empty());
        if cfg.default_jobs().len() > 0 {
            copy_ids(cfg.default_jobs())
        } else {
            all_jobs(cfg)
        }
    };
    assert(forall|id: Seq<char>| want.contains(id) <==> includes(wanted@, id));
    let mut all: Vec<JobId> = Vec::new();
    let mut i: usize = 0;
    while i < wanted.len()
        invariant
            i <= wanted@.len(),
            graph.wf(),
            jobs == graph@,
            forall|id: Seq<char>| includes(all@, id) <==> covered(jobs, wanted@, i as int, id),
        decreases wanted@.len() - i,
    {
        let job = &wanted[i];
        let ghost before = all@;
        all.push(job.clone());
        let ghost with_job = all@;
        let needs = graph.get_transitive_needs(job);
        append_ids(&mut all, &needs);
        proof {
            assert forall|id: Seq<char>| includes(all@, id) <==> covered(
                jobs,
                wanted@,
                i + 1,
                id,
            ) by {
                lemma_includes_push(before, with_job[before.len() as int], id);
                assert(with_job =~= before.push(with_job[before.len() as int]));
                assert(with_job[before.len() as int]@ == job@);
                if includes(before, id) {
                    let e = choose|e: int|
                        0 <= e < i && e < wanted@.len() && #[trigger] reached(jobs, wanted@[e]@, id);
                    assert(reached(jobs, wanted@[e]@, id));
                }
                if job@ == id || names_of(needs@).contains(id) {
                    assert(reached(jobs, wanted@[i as int]@, id));
                }
                if covered(jobs, wanted@, i + 1, id) {
                    let e = choose|e: int|
                        0 <= e < i + 1 && e < wanted@.len() && #[trigger] reached(
                            jobs,
                            wanted@[e]@,
                            id,
                        );
                    if e < i {
                        assert(covered(jobs, wanted@, i as int, id));
                    }
                }
            }
        }
        i += 1;
    }
    let order = graph.topological_sort(&all);
    proof {
        graph.lemma_sound();
        let closed = with_needs(jobs, want);
        assert forall|id: Seq<char>| want.contains(id) implies declares(jobs, id) by {
            if args.jobs@.len() > 0 {
                let e = choose|e: int| 0 <= e < texts(args.jobs@).len() && texts(args.jobs@)[e] == id;
                lemma_all_known(args.jobs@, jobs, args.jobs@.len() as int);
                assert(declares(jobs, args.jobs@[e]@));
            } else if cfg.defaults().len() > 0 {
                let k = choose|k: int|
                    0 <= k < names(cfg.defaults()).len() && names(cfg.defaults())[k] == id;
                assert(declares(jobs, cfg.defaults()[k]@));
            }
        }
        assert forall|id: Seq<char>| #[trigger]
            names_of(order@).contains(id) <==> closed.contains(id) by {
            lemma_includes_names(all@, id);
            if closed.contains(id) {
                if want.contains(id) {
                    let e = choose|e: int| 0 <= e < wanted@.len() && (#[trigger] wanted@[e])@ == id;
                    assert(reached(jobs, wanted@[e]@, id));
                } else {
                    let a = choose|a: Seq<char>|
                        want.contains(a) && #[trigger] needs_transitively(jobs, a, id);
                    lemma_needs_declared(jobs, a, id);
                    let e = choose|e: int| 0 <= e < wanted@.len() && (#[trigger] wanted@[e])@ == a;
                    assert(reached(jobs, wanted@[e]@, id));
                }
                assert(covered(jobs, wanted@, wanted@.len() as int, id));
            }
            if names_of(order@).contains(id) {
                assert(covered(jobs, wanted@, wanted@.len() as int, id));
                let e = choose|e: int|
                    0 <= e < wanted@.len() && e < wanted@.len() && #[trigger] reached(
                        jobs,
                        wanted@[e]@,
                        id,
                    );
                assert(includes(wanted@, wanted@[e]@));
                assert(want.contains(wanted@[e]@));
            }
        }
        assert forall|id: Seq<char>| declares(jobs, id) implies (names(all@).to_set().contains(id)
            <==> closed.contains(id)) by {
            lemma_includes_names(all@, id);
            if closed.contains(id) {
                assert(names_of(order@).contains(id));
            }
            if names(all@).contains(id) {
                assert(names_of(order@).contains(id));
            }
        }
        graph.lemma_sorted_by_jobs(names(all@).to_set(), closed);
    }
    Ok(order)
}

/// Where no name is unknown, every name is a job's.
proof fn lemma_all_known(asked: Seq<String>, jobs: Seq<Job>, upto: int)
    requires
        0 <= upto <= asked.len(),
        unknown_names(asked, jobs, upto).len() == 0,
    ensures
        forall|e: int| 0 <= e < upto ==> declares(jobs, (#[trigger] asked[e])@),
    decreases upto,
{
    if upto > 0 {
        if declares(jobs, asked[upto - 1]@) {
            lemma_all_known(asked, jobs, upto - 1);
        }
    }
}

} // verus!
