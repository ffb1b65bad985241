//! Dependency graphs over node indices.
//!
//! A graph of `n` nodes is a list of `n` adjacency lists: `g[a]` holds the
//! nodes that `a` depends on. This module finds dependency cycles, orders a
//! subset of the nodes so that dependencies come first, and collects what a
//! node depends on, directly or not.

use vstd::prelude::*;

verus! {

/// `a` depends directly on `b`.
pub open spec fn edge(g: Seq<Vec<usize>>, a: int, b: int) -> bool {
    0 <= a < g.len() && exists|k: int| 0 <= k < g[a]@.len() && #[trigger] g[a]@[k] == b
}

/// Every dependency is a node of the graph, and no list names a node twice.
pub open spec fn well_formed(g: Seq<Vec<usize>>) -> bool {
    &&& forall|a: int, k: int|
        0 <= a < g.len() && 0 <= k < g[a]@.len() ==> #[trigger] g[a]@[k] < g.len()
    &&& forall|a: int| 0 <= a < g.len() ==> (#[trigger] g[a])@.no_duplicates()
}

/// `p` follows dependencies: each node of it depends directly on the next.
pub open spec fn is_walk(g: Seq<Vec<usize>>, p: Seq<usize>) -> bool {
    &&& p.len() >= 1
    &&& p[0] < g.len()
    &&& forall|k: int| 0 <= k < p.len() - 1 ==> edge(g, #[trigger] p[k] as int, p[k + 1] as int)
}

/// `p` is a walk that comes back to where it began.
pub open spec fn is_cycle(g: Seq<Vec<usize>>, p: Seq<usize>) -> bool {
    is_walk(g, p) && p.len() >= 2 && p.first() == p.last()
}

/// No walk comes back to where it began.
pub open spec fn acyclic(g: Seq<Vec<usize>>) -> bool {
    forall|p: Seq<usize>| !is_cycle(g, p)
}

/// `a` depends on `b` through one or more direct dependencies.
pub open spec fn reaches(g: Seq<Vec<usize>>, a: int, b: int) -> bool {
    exists|p: Seq<usize>| #[trigger] is_walk(g, p) && p.len() >= 2 && p.first() == a && p.last() == b
}

/// `order` lists nodes without repeats, each after everything it depends on.
pub open spec fn is_schedule(g: Seq<Vec<usize>>, order: Seq<usize>) -> bool {
    &&& order.no_duplicates()
    &&& forall|q: int| 0 <= q < order.len() ==> #[trigger] order[q] < g.len()
    &&& forall|q: int, b: int|
        0 <= q < order.len() && #[trigger] edge(g, order[q] as int, b) ==> exists|r: int|
            0 <= r < q && #[trigger] order[r] == b
}

/// `order` holds each of the first `n` nodes.
pub open spec fn covers(order: Seq<usize>, n: nat) -> bool {
    forall|a: usize| a < n ==> #[trigger] order.contains(a)
}

/// The whole graph can be put in dependency order.
pub open spec fn schedulable(g: Seq<Vec<usize>>) -> bool {
    exists|order: Seq<usize>| #[trigger] is_schedule(g, order) && covers(order, g.len())
}

/// Along a walk inside a schedule, positions in the schedule strictly fall.
pub proof fn lemma_walk_descends(g: Seq<Vec<usize>>, order: Seq<usize>, p: Seq<usize>, q: int)
    requires
        is_schedule(g, order),
        is_walk(g, p),
        0 <= q < order.len(),
        order[q] == p.first(),
    ensures
        exists|r: int| 0 <= r <= q - (p.len() - 1) && #[trigger] order[r] == p.last(),
    decreases p.len(),
{
    if p.len() == 1 {
        assert(order[q] == p.last());
    } else {
        let rest = p.subrange(1, p.len() as int);
        assert(edge(g, p[0] as int, p[1] as int));
        let r = choose|r: int| 0 <= r < q && #[trigger] order[r] == p[1];
        assert(rest[0] == p[1]);
        assert(is_walk(g, rest)) by {
            assert forall|k: int| 0 <= k < rest.len() - 1 implies edge(
                g,
                #[trigger] rest[k] as int,
                rest[k + 1] as int,
            ) by {
                assert(rest[k] == p[k + 1]);
                assert(rest[k + 1] == p[k + 2]);
            }
        }
        lemma_walk_descends(g, order, rest, r);
        assert(rest.last() == p.last());
    }
}

/// A graph that can be put in dependency order has no cycle.
pub proof fn lemma_schedulable_acyclic(g: Seq<Vec<usize>>)
    requires
        schedulable(g),
    ensures
        acyclic(g),
{
    let order = choose|order: Seq<usize>| #[trigger] is_schedule(g, order) && covers(order, g.len());
    assert forall|p: Seq<usize>| !is_cycle(g, p) by {
        if is_cycle(g, p) {
            assert(order.contains(p[0]));
            let q = choose|q: int| 0 <= q < order.len() && order[q] == p[0];
            lemma_walk_descends(g, order, p, q);
            let r = choose|r: int| 0 <= r <= q - (p.len() - 1) && #[trigger] order[r] == p.last();
            assert(order[r] == order[q]);
            assert(r != q);
        }
    }
}

/// The number of nodes not yet marked.
pub open spec fn unmarked(marks: Seq<bool>) -> nat
    decreases marks.len(),
{
    if marks.len() == 0 {
        0
    } else {
        unmarked(marks.drop_last()) + if marks.last() {
            0nat
        } else {
            1nat
        }
    }
}

proof fn lemma_unmarked_mark(marks: Seq<bool>, i: int)
    requires
        0 <= i < marks.len(),
        !marks[i],
    ensures
        unmarked(marks.update(i, true)) + 1 == unmarked(marks),
    decreases marks.len(),
{
    let after = marks.update(i, true);
    if i == marks.len() - 1 {
        assert(after.drop_last() =~= marks.drop_last());
    } else {
        assert(after.drop_last() =~= marks.drop_last().update(i, true));
        lemma_unmarked_mark(marks.drop_last(), i);
    }
}

/// What holds throughout a depth-first search: `path` is the walk from the
/// root to the node in hand, `done` the nodes that are finished, in the order
/// they finished, and a node is marked exactly when it is on one of the two.
pub open spec fn searching(
    g: Seq<Vec<usize>>,
    marks: Seq<bool>,
    path: Seq<usize>,
    done: Seq<usize>,
) -> bool {
    &&& marks.len() == g.len()
    &&& path.no_duplicates()
    &&& forall|k: int| 0 <= k < path.len() ==> #[trigger] path[k] < g.len() && marks[path[k] as int]
    &&& forall|k: int|
        0 <= k < path.len() - 1 ==> edge(g, #[trigger] path[k] as int, path[k + 1] as int)
    &&& is_schedule(g, done)
    &&& forall|q: int|
        0 <= q < done.len() ==> marks[#[trigger] done[q] as int] && !path.contains(done[q])
    &&& forall|j: usize|
        j < g.len() && #[trigger] marks[j as int] ==> path.contains(j) || done.contains(j)
}

/// The position of `x` in `path`, if it is there.
pub fn position(path: &Vec<usize>, x: usize) -> (r: Option<usize>)
    ensures
        match r {
            Some(i) => i < path@.len() && path@[i as int] == x,
            None => !path@.contains(x),
        },
{
    let mut i: usize = 0;
    while i < path.len()
        invariant
            i <= path@.len(),
            forall|k: int| 0 <= k < i ==> path@[k] != x,
        decreases path@.len() - i,
    {
        if path[i] == x {
            return Some(i);
        }
        i += 1;
    }
    None
}

/// The part of `path` from position `from` on, followed by `back`.
fn close_cycle(path: &Vec<usize>, from: usize, back: usize) -> (cycle: Vec<usize>)
    requires
        from < path@.len(),
    ensures
        cycle@ == path@.subrange(from as int, path@.len() as int).push(back),
{
    let mut cycle: Vec<usize> = Vec::new();
    let mut i: usize = from;
    while i < path.len()
        invariant
            from <= i <= path@.len(),
            cycle@ == path@.subrange(from as int, i as int),
        decreases path@.len() - i,
    {
        cycle.push(path[i]);
        i += 1;
        assert(path@.subrange(from as int, i as int) =~= path@.subrange(from as int, i - 1).push(
            path@[i - 1],
        ));
    }
    cycle.push(back);
    cycle
}

/// The work that is left on the path of a search: for each node of it the
/// dependencies not yet looked at, and the node itself.
pub open spec fn pending(g: Seq<Vec<usize>>, path: Seq<usize>, cursors: Seq<usize>) -> nat
    decreases path.len(),
{
    if path.len() == 0 {
        0
    } else {
        pending(g, path.drop_last(), cursors.drop_last()) + (g[path.last() as int]@.len()
            - cursors.last()) as nat + 1
    }
}

/// Of each node on the path, the dependencies that have been looked at are
/// finished, but for the last one looked at where that is the next node of
/// the path.
pub open spec fn explored(
    g: Seq<Vec<usize>>,
    path: Seq<usize>,
    cursors: Seq<usize>,
    done: Seq<usize>,
) -> bool {
    &&& cursors.len() == path.len()
    &&& forall|i: int|
        0 <= i < path.len() ==> (#[trigger] cursors[i]) <= g[path[i] as int]@.len()
    &&& forall|i: int, e: int|
        0 <= i < path.len() && 0 <= e < cursors[i] ==> done.contains(
            #[trigger] g[path[i] as int]@[e],
        ) || (i + 1 < path.len() && e == cursors[i] - 1 && path[i + 1] == g[path[i] as int]@[e])
}

/// `n` marks, none set.
pub fn no_marks(n: usize) -> (marks: Vec<bool>)
    ensures
        marks@.len() == n,
        forall|j: int| 0 <= j < n ==> !marks@[j],
{
    let mut marks: Vec<bool> = Vec::new();
    while marks.len() < n
        invariant
            marks@.len() <= n,
            forall|j: int| 0 <= j < marks@.len() ==> !marks@[j],
        decreases n - marks@.len(),
    {
        marks.push(false);
    }
    marks
}

/// Looks for a dependency cycle, depth first, with the path from the root
/// of the search to the node in hand kept on a stack of its own.
///
/// `None` exactly when the graph has no cycle, and then it can be put in
/// dependency order. Otherwise a cycle: a walk that ends on the node it began
/// with and visits no other node twice.
pub fn find_cycle(g: &Vec<Vec<usize>>) -> (r: Option<Vec<usize>>)
    requires
        well_formed(g@),
    ensures
        r is None <==> acyclic(g@),
        r is None ==> schedulable(g@),
        r matches Some(cycle) ==> is_cycle(g@, cycle@) && cycle@.drop_last().no_duplicates(),
{
    let n = g.len();
    let mut marks = no_marks(n);
    let mut path: Vec<usize> = Vec::new();
    let mut cursors: Vec<usize> = Vec::new();
    let mut done: Ghost<Seq<usize>> = Ghost(Seq::empty());
    let mut start: usize = 0;
    while start < n
        invariant
            well_formed(g@),
            n == g@.len(),
            start <= n,
            path@.len() == 0,
            cursors@.len() == 0,
            searching(g@, marks@, path@, done@),
            forall|j: int| 0 <= j < start ==> marks@[j],
        decreases n - start,
    {
        if !marks[start] {
            marks.set(start, true);
            path.push(start);
            cursors.push(0);
            proof {
                assert(path@[0] == start);
                assert forall|j: usize|
                    j < g@.len() && #[trigger] marks@[j as int] implies path@.contains(j)
                    || done@.contains(j) by {
                    if j == start {
                        assert(path@[0] == j);
                    }
                }
                assert forall|q: int| 0 <= q < done@.len() implies marks@[#[trigger] done@[q] as int]
                    && !path@.contains(done@[q]) by {
                    if path@.contains(done@[q]) {
                        let k = choose|k: int| 0 <= k < path@.len() && path@[k] == done@[q];
                    }
                }
            }
            while path.len() > 0
                invariant
                    well_formed(g@),
                    n == g@.len(),
                    start < n,
                    searching(g@, marks@, path@, done@),
                    explored(g@, path@, cursors@, done@),
                    forall|j: int| 0 <= j <= start ==> marks@[j],
                decreases unmarked(marks@), pending(g@, path@, cursors@),
            {
                let top = path.len() - 1;
                let node = path[top];
                let at = cursors[top];
                let ghost stem = path@;
                let ghost looked = cursors@;
                let ghost finished = done@;
                let ghost before = marks@;
                assert(stem.drop_last().push(node) =~= stem);
                if at < g[node].len() {
                    let next = g[node][at];
                    assert(edge(g@, node as int, next as int));
                    cursors.set(top, at + 1);
                    assert(cursors@.drop_last() =~= looked.drop_last());
                    match position(&path, next) {
                        Some(from) => {
                            let cycle = close_cycle(&path, from, next);
                            proof {
                                let tail = path@.subrange(from as int, path@.len() as int);
                                assert(cycle@.drop_last() =~= tail);
                                assert(tail.no_duplicates());
                                assert forall|i: int| 0 <= i < cycle@.len() - 1 implies edge(
                                    g@,
                                    #[trigger] cycle@[i] as int,
                                    cycle@[i + 1] as int,
                                ) by {
                                    assert(cycle@[i] == path@[from + i]);
                                    if i + 1 < tail.len() {
                                        assert(cycle@[i + 1] == path@[from + i + 1]);
                                    } else {
                                        assert(cycle@[i] == node);
                                    }
                                }
                                assert(cycle@[0] == path@[from as int]);
                                assert(is_cycle(g@, cycle@));
                                if acyclic(g@) {
                                    assert(!is_cycle(g@, cycle@));
                                }
                            }
                            return Some(cycle);
                        },
                        None => {},
                    }
                    if !marks[next] {
                        proof {
                            lemma_unmarked_mark(marks@, next as int);
                        }
                        marks.set(next, true);
                        path.push(next);
                        cursors.push(0);
                        proof {
                            assert(!finished.contains(next)) by {
                                if finished.contains(next) {
                                    let q = choose|q: int|
                                        0 <= q < finished.len() && finished[q] == next;
                                    assert(before[finished[q] as int]);
                                }
                            }
                            assert(path@[path@.len() - 1] == next);
                            assert forall|j: usize|
                                j < g@.len() && #[trigger] marks@[j as int] implies path@.contains(
                                j,
                            ) || done@.contains(j) by {
                                if j != next {
                                    assert(before[j as int]);
                                    if stem.contains(j) {
                                        let k = choose|k: int| 0 <= k < stem.len() && stem[k] == j;
                                        assert(path@[k] == j);
                                    }
                                }
                            }
                            assert forall|q: int| 0 <= q < done@.len() implies marks@[#[trigger] done@[q] as int]
                                && !path@.contains(done@[q]) by {
                                assert(!stem.contains(done@[q]));
                                if path@.contains(done@[q]) {
                                    let k = choose|k: int|
                                        0 <= k < path@.len() && path@[k] == done@[q];
                                    if k < stem.len() {
                                        assert(stem[k] == done@[q]);
                                    }
                                }
                            }
                            assert forall|k: int| 0 <= k < path@.len() - 1 implies edge(
                                g@,
                                #[trigger] path@[k] as int,
                                path@[k + 1] as int,
                            ) by {
                                if k < stem.len() - 1 {
                                    assert(path@[k] == stem[k] && path@[k + 1] == stem[k + 1]);
                                }
                            }
                            assert forall|i: int, e: int|
                                0 <= i < path@.len() && 0 <= e < cursors@[i] implies done@.contains(
                                #[trigger] g@[path@[i] as int]@[e],
                            ) || (i + 1 < path@.len() && e == cursors@[i] - 1 && path@[i + 1]
                                == g@[path@[i] as int]@[e]) by {
                                if i < top {
                                    assert(cursors@[i] == looked[i]);
                                    assert(path@[i] == stem[i]);
                                    assert(path@[i + 1] == stem[i + 1]);
                                } else if i == top {
                                    assert(path@[i] == stem[i]);
                                    if e < at {
                                        assert(e < looked[i]);
                                    }
                                }
                            }
                        }
                    } else {
                        proof {
                            assert(path@.contains(next) || done@.contains(next));
                            assert forall|i: int, e: int|
                                0 <= i < path@.len() && 0 <= e < cursors@[i] implies done@.contains(
                                #[trigger] g@[path@[i] as int]@[e],
                            ) || (i + 1 < path@.len() && e == cursors@[i] - 1 && path@[i + 1]
                                == g@[path@[i] as int]@[e]) by {
                                if i < top {
                                    assert(cursors@[i] == looked[i]);
                                } else if e < at {
                                    assert(e < looked[i]);
                                }
                            }
                        }
                    }
                } else {
                    path.pop();
                    cursors.pop();
                    proof {
                        let after = finished.push(node);
                        assert(path@ =~= stem.drop_last());
                        assert(cursors@ =~= looked.drop_last());
                        assert(stem[top as int] == node);
                        assert(stem.contains(node));
                        assert(!finished.contains(node));
                        assert(is_schedule(g@, after)) by {
                            assert forall|q: int, b: int|
                                0 <= q < after.len() && #[trigger] edge(
                                    g@,
                                    after[q] as int,
                                    b,
                                ) implies exists|r: int| 0 <= r < q && #[trigger] after[r] == b by {
                                if q < finished.len() {
                                    assert(after[q] == finished[q]);
                                    let r = choose|r: int|
                                        0 <= r < q && #[trigger] finished[r] == b;
                                    assert(after[r] == b);
                                } else {
                                    let e = choose|e: int|
                                        0 <= e < g@[node as int]@.len() && #[trigger] g@[node as int]@[e]
                                            == b;
                                    assert(e < looked[top as int]);
                                    assert(finished.contains(g@[stem[top as int] as int]@[e]));
                                    let r = choose|r: int|
                                        0 <= r < finished.len() && finished[r] == b;
                                    assert(after[r] == b);
                                }
                            }
                        }
                        assert forall|q: int| 0 <= q < after.len() implies marks@[#[trigger] after[q] as int]
                            && !path@.contains(after[q]) by {
                            if path@.contains(after[q]) {
                                let i = choose|i: int| 0 <= i < path@.len() && path@[i] == after[q];
                                assert(stem[i] == after[q]);
                                if q < finished.len() {
                                    assert(!stem.contains(finished[q]));
                                }
                            }
                        }
                        assert forall|j: usize|
                            j < g@.len() && #[trigger] marks@[j as int] implies path@.contains(j)
                            || after.contains(j) by {
                            if j == node {
                                assert(after[after.len() - 1] == node);
                            } else if stem.contains(j) {
                                let i = choose|i: int| 0 <= i < stem.len() && stem[i] == j;
                                assert(path@[i] == j);
                            } else {
                                let r = choose|r: int| 0 <= r < finished.len() && finished[r] == j;
                                assert(after[r] == j);
                            }
                        }
                        assert forall|i: int, e: int|
                            0 <= i < path@.len() && 0 <= e < cursors@[i] implies after.contains(
                            #[trigger] g@[path@[i] as int]@[e],
                        ) || (i + 1 < path@.len() && e == cursors@[i] - 1 && path@[i + 1]
                            == g@[path@[i] as int]@[e]) by {
                            assert(path@[i] == stem[i]);
                            assert(cursors@[i] == looked[i]);
                            let child = g@[stem[i] as int]@[e];
                            if finished.contains(child) {
                                let r = choose|r: int|
                                    0 <= r < finished.len() && finished[r] == child;
                                assert(after[r] == child);
                            } else if i + 1 == top {
                                assert(after[after.len() - 1] == node);
                            } else {
                                assert(path@[i + 1] == stem[i + 1]);
                            }
                        }
                        done@ = after;
                    }
                }
            }
        }
        start += 1;
    }
    proof {
        assert forall|a: usize| a < g@.len() implies #[trigger] done@.contains(a) by {
            assert(marks@[a as int]);
            assert(!path@.contains(a));
        }
        assert(is_schedule(g@, done@));
        lemma_schedulable_acyclic(g@);
    }
    None
}

/// How many of `deps` are wanted and not settled yet.
pub open spec fn waiting(deps: Seq<usize>, wanted: Seq<bool>, settled: Set<usize>) -> nat
    decreases deps.len(),
{
    if deps.len() == 0 {
        0
    } else {
        waiting(deps.drop_last(), wanted, settled) + if wanted[deps.last() as int]
            && !settled.contains(deps.last()) {
            1nat
        } else {
            0nat
        }
    }
}

proof fn lemma_waiting_settle(deps: Seq<usize>, wanted: Seq<bool>, settled: Set<usize>, x: usize)
    requires
        deps.no_duplicates(),
        !settled.contains(x),
        0 <= x < wanted.len(),
        wanted[x as int],
    ensures
        waiting(deps, wanted, settled) == waiting(deps, wanted, settled.insert(x)) + if deps.contains(
            x,
        ) {
            1nat
        } else {
            0nat
        },
    decreases deps.len(),
{
    if deps.len() > 0 {
        let front = deps.drop_last();
        assert(front.no_duplicates());
        lemma_waiting_settle(front, wanted, settled, x);
        if deps.last() == x {
            assert(!front.contains(x)) by {
                if front.contains(x) {
                    let i = choose|i: int| 0 <= i < front.len() && front[i] == x;
                    assert(deps[i] == deps[deps.len() - 1]);
                }
            }
            assert(deps.contains(x));
        } else {
            if front.contains(x) {
                let i = choose|i: int| 0 <= i < front.len() && front[i] == x;
                assert(deps[i] == x);
            }
            if deps.contains(x) {
                let i = choose|i: int| 0 <= i < deps.len() && deps[i] == x;
                assert(front[i] == x);
            }
        }
    }
}

proof fn lemma_waiting_none(deps: Seq<usize>, wanted: Seq<bool>, settled: Set<usize>)
    ensures
        waiting(deps, wanted, settled) == 0 <==> forall|k: int|
            0 <= k < deps.len() && wanted[#[trigger] deps[k] as int] ==> settled.contains(deps[k]),
    decreases deps.len(),
{
    if deps.len() > 0 {
        let front = deps.drop_last();
        lemma_waiting_none(front, wanted, settled);
        if waiting(deps, wanted, settled) == 0 {
            assert forall|k: int|
                0 <= k < deps.len() && wanted[#[trigger] deps[k] as int] implies settled.contains(
                deps[k],
            ) by {
                if k < front.len() {
                    assert(front[k] == deps[k]);
                }
            }
        } else if waiting(front, wanted, settled) != 0 {
            let k = choose|k: int|
                0 <= k < front.len() && wanted[#[trigger] front[k] as int] && !settled.contains(
                    front[k],
                );
            assert(deps[k] == front[k]);
        }
    }
}

/// The nodes at the first `head` places of `order`.
pub open spec fn settled_of(order: Seq<usize>, head: int) -> Set<usize> {
    Set::new(|x: usize| exists|r: int| 0 <= r < head && r < order.len() && #[trigger] order[r] == x)
}

proof fn lemma_settled_push(order: Seq<usize>, head: int, o: usize)
    requires
        0 <= head <= order.len(),
    ensures
        settled_of(order.push(o), head) == settled_of(order, head),
{
    let longer = order.push(o);
    assert forall|y: usize| settled_of(longer, head).contains(y) implies settled_of(
        order,
        head,
    ).contains(y) by {
        let r = choose|r: int| 0 <= r < head && r < longer.len() && #[trigger] longer[r] == y;
        assert(order[r] == y);
    }
    assert forall|y: usize| settled_of(order, head).contains(y) implies settled_of(
        longer,
        head,
    ).contains(y) by {
        let r = choose|r: int| 0 <= r < head && r < order.len() && #[trigger] order[r] == y;
        assert(longer[r] == y);
    }
    assert(settled_of(longer, head) =~= settled_of(order, head));
}

/// A list of distinct nodes below `n` has at most `n` entries.
pub proof fn lemma_distinct_bounded(s: Seq<usize>, n: nat)
    requires
        s.no_duplicates(),
        forall|i: int| 0 <= i < s.len() ==> #[trigger] s[i] < n,
    ensures
        s.len() <= n,
    decreases n,
{
    if n == 0 {
        if s.len() > 0 {
            assert(s[0] < n);
        }
    } else {
        let top = (n - 1) as usize;
        if s.contains(top) {
            let i = choose|i: int| 0 <= i < s.len() && s[i] == top;
            let rest = s.remove(i);
            assert forall|j: int| 0 <= j < rest.len() implies #[trigger] rest[j] < n - 1 by {
                if j < i {
                    assert(rest[j] == s[j]);
                } else {
                    assert(rest[j] == s[j + 1]);
                }
            }
            assert(rest.no_duplicates()) by {
                assert forall|j: int, k: int|
                    0 <= j < rest.len() && 0 <= k < rest.len() && j != k implies rest[j]
                    != rest[k] by {
                    let sj = if j < i {
                        j
                    } else {
                        j + 1
                    };
                    let sk = if k < i {
                        k
                    } else {
                        k + 1
                    };
                    assert(rest[j] == s[sj]);
                    assert(rest[k] == s[sk]);
                }
            }
            lemma_distinct_bounded(rest, (n - 1) as nat);
        } else {
            assert forall|j: int| 0 <= j < s.len() implies #[trigger] s[j] < n - 1 by {
                assert(s[j] < n);
                assert(s.contains(s[j]));
            }
            lemma_distinct_bounded(s, (n - 1) as nat);
        }
    }
}

/// Counts, for each wanted node, the wanted nodes that its list names.
fn count_waiting(g: &Vec<Vec<usize>>, wanted: &Vec<bool>) -> (pending: Vec<usize>)
    requires
        well_formed(g@),
        wanted@.len() == g@.len(),
    ensures
        pending@.len() == g@.len(),
        forall|a: int|
            0 <= a < g@.len() ==> #[trigger] pending@[a] == waiting(
                g@[a]@,
                wanted@,
                Set::<usize>::empty(),
            ),
{
    let n = g.len();
    let mut pending: Vec<usize> = Vec::new();
    let mut a: usize = 0;
    while a < n
        invariant
            well_formed(g@),
            wanted@.len() == g@.len(),
            n == g@.len(),
            a <= n,
            pending@.len() == a,
            forall|i: int|
                0 <= i < a ==> #[trigger] pending@[i] == waiting(
                    g@[i]@,
                    wanted@,
                    Set::<usize>::empty(),
                ),
        decreases n - a,
    {
        let deps = &g[a];
        let mut count: usize = 0;
        let mut k: usize = 0;
        while k < deps.len()
            invariant
                well_formed(g@),
                wanted@.len() == g@.len(),
                a < g@.len(),
                deps@ == g@[a as int]@,
                k <= deps@.len(),
                count <= k,
                count == waiting(deps@.take(k as int), wanted@, Set::<usize>::empty()),
            decreases deps@.len() - k,
        {
            assert(deps@.take(k + 1).drop_last() =~= deps@.take(k as int));
            if wanted[deps[k]] {
                count += 1;
            }
            k += 1;
        }
        assert(deps@.take(k as int) =~= deps@);
        pending.push(count);
        a += 1;
    }
    pending
}

/// What the ordering loop keeps: `order` holds the wanted nodes whose wanted
/// dependencies are all among its first `head` places, each after its wanted
/// dependencies, and `pending` counts per node those still missing there.
/// Nodes below `cursor` are counted against `next`, the others against `head`.
pub open spec fn ordering(
    g: Seq<Vec<usize>>,
    wanted: Seq<bool>,
    order: Seq<usize>,
    pending: Seq<usize>,
    head: int,
    next: int,
    cursor: int,
) -> bool {
    &&& wanted.len() == g.len()
    &&& pending.len() == g.len()
    &&& 0 <= head <= next <= order.len()
    &&& order.no_duplicates()
    &&& forall|q: int|
        0 <= q < order.len() ==> #[trigger] order[q] < g.len() && wanted[order[q] as int]
    &&& forall|o: int|
        0 <= o < g.len() && wanted[o] ==> #[trigger] pending[o] == waiting(
            g[o]@,
            wanted,
            settled_of(
                order,
                if o < cursor {
                    next
                } else {
                    head
                },
            ),
        )
    &&& forall|o: usize|
        o < g.len() && wanted[o as int] ==> (#[trigger] order.contains(o) <==> pending[o as int]
            == 0)
    &&& forall|q: int, b: int|
        0 <= q < order.len() && #[trigger] edge(g, order[q] as int, b) && wanted[b] ==> exists|
            r: int,
        |
            0 <= r < q && #[trigger] order[r] == b
}

proof fn lemma_order_complete(
    g: Seq<Vec<usize>>,
    wanted: Seq<bool>,
    order: Seq<usize>,
    plan: Seq<usize>,
    q: int,
)
    requires
        wanted.len() == g.len(),
        is_schedule(g, plan),
        0 <= q < plan.len(),
        wanted[plan[q] as int],
        forall|a: usize|
            a < g.len() && wanted[a as int] && !order.contains(a) ==> exists|b: usize| #[trigger]
                edge(g, a as int, b as int) && wanted[b as int] && !order.contains(b),
    ensures
        order.contains(plan[q]),
    decreases q,
{
    let a = plan[q];
    if !order.contains(a) {
        let b = choose|b: usize| #[trigger]
            edge(g, a as int, b as int) && wanted[b as int] && !order.contains(b);
        assert(edge(g, plan[q] as int, b as int));
        let r = choose|r: int| 0 <= r < q && #[trigger] plan[r] == b as int;
        lemma_order_complete(g, wanted, order, plan, r);
    }
}

/// The wanted nodes below `upto` that wait for nothing, by rising index.
pub open spec fn ready(g: Seq<Vec<usize>>, wanted: Seq<bool>, upto: int) -> Seq<usize>
    decreases upto,
{
    if upto <= 0 {
        Seq::empty()
    } else if wanted[upto - 1] && waiting(g[upto - 1]@, wanted, Set::empty()) == 0 {
        ready(g, wanted, upto - 1).push((upto - 1) as usize)
    } else {
        ready(g, wanted, upto - 1)
    }
}

/// The wanted nodes below `upto` that `x` releases, by rising index: those
/// that depend on `x` and wait for nothing more once `x` is settled with the
/// nodes of `settled`.
pub open spec fn released(
    g: Seq<Vec<usize>>,
    wanted: Seq<bool>,
    settled: Set<usize>,
    x: usize,
    upto: int,
) -> Seq<usize>
    decreases upto,
{
    if upto <= 0 {
        Seq::empty()
    } else {
        let before = released(g, wanted, settled, x, upto - 1);
        if wanted[upto - 1] && g[upto - 1]@.contains(x) && waiting(
            g[upto - 1]@,
            wanted,
            settled.insert(x),
        ) == 0 {
            before.push((upto - 1) as usize)
        } else {
            before
        }
    }
}

/// What `order` grows to when its nodes from place `head` on are settled one
/// after the other, each with the nodes that it releases put at the end.
pub open spec fn settled_in_turn(
    g: Seq<Vec<usize>>,
    wanted: Seq<bool>,
    order: Seq<usize>,
    head: int,
) -> Seq<usize>
    decreases g.len() - head,
{
    if head < 0 || head >= order.len() || head >= g.len() {
        order
    } else {
        settled_in_turn(
            g,
            wanted,
            order + released(g, wanted, settled_of(order, head), order[head], g.len() as int),
            head + 1,
        )
    }
}

/// The order in which the wanted nodes are released: first those that wait
/// for nothing, by rising index; then, as node after node of the order is
/// settled, the nodes that it releases, by rising index.
pub open spec fn release_order(g: Seq<Vec<usize>>, wanted: Seq<bool>) -> Seq<usize> {
    settled_in_turn(g, wanted, ready(g, wanted, g.len() as int), 0)
}

/// Orders the wanted nodes so that each comes after the wanted nodes that
/// its own list names, by repeatedly releasing the nodes that wait for
/// nothing more.
///
/// Nodes that wait for nothing from the start come first, by rising index;
/// the others follow in the order in which the last node of their list is
/// placed.
fn order_by_lists(g: &Vec<Vec<usize>>, wanted: &Vec<bool>) -> (order: Vec<usize>)
    requires
        well_formed(g@),
        schedulable(g@),
        wanted@.len() == g@.len(),
    ensures
        order@ == release_order(g@, wanted@),
        order@.no_duplicates(),
        forall|a: usize| #[trigger] order@.contains(a) <==> a < g@.len() && wanted@[a as int],
        forall|q: int, b: int|
            0 <= q < order@.len() && #[trigger] edge(g@, order@[q] as int, b) && wanted@[b]
                ==> exists|r: int| 0 <= r < q && #[trigger] order@[r] == b,
{
    let n = g.len();
    let mut pending = count_waiting(g, wanted);
    let mut order: Vec<usize> = Vec::new();
    let mut a: usize = 0;
    assert(settled_of(order@, 0) =~= Set::<usize>::empty());
    while a < n
        invariant
            well_formed(g@),
            wanted@.len() == g@.len(),
            pending@.len() == g@.len(),
            n == g@.len(),
            a <= n,
            order@ == ready(g@, wanted@, a as int),
            order@.no_duplicates(),
            forall|q: int|
                0 <= q < order@.len() ==> #[trigger] order@[q] < a && wanted@[order@[q] as int]
                    && pending@[order@[q] as int] == 0,
            forall|o: usize|
                o < a && wanted@[o as int] && pending@[o as int] == 0 ==> #[trigger] order@.contains(
                    o,
                ),
            forall|o: int|
                0 <= o < g@.len() ==> #[trigger] pending@[o] == waiting(
                    g@[o]@,
                    wanted@,
                    Set::<usize>::empty(),
                ),
        decreases n - a,
    {
        if wanted[a] && pending[a] == 0 {
            let ghost before = order@;
            order.push(a);
            proof {
                assert forall|o: usize|
                    o < a + 1 && wanted@[o as int] && pending@[o as int]
                        == 0 implies #[trigger] order@.contains(o) by {
                    if o == a {
                        assert(order@[order@.len() - 1] == a);
                    } else {
                        assert(before.contains(o));
                        let r = choose|r: int| 0 <= r < before.len() && before[r] == o;
                        assert(order@[r] == o);
                    }
                }
            }
        }
        a += 1;
    }
    proof {
        assert(settled_of(order@, 0) =~= Set::<usize>::empty());
        assert forall|q: int, b: int|
            0 <= q < order@.len() && #[trigger] edge(g@, order@[q] as int, b)
                && wanted@[b] implies exists|r: int| 0 <= r < q && #[trigger] order@[r] == b by {
            let o = order@[q];
            lemma_waiting_none(g@[o as int]@, wanted@, Set::<usize>::empty());
            let k = choose|k: int| 0 <= k < g@[o as int]@.len() && #[trigger] g@[o as int]@[k] == b;
            assert(wanted@[g@[o as int]@[k] as int]);
            assert(Set::<usize>::empty().contains(g@[o as int]@[k]));
        }
    }
    let mut head: usize = 0;
    while head < order.len()
        invariant
            well_formed(g@),
            n == g@.len(),
            ordering(g@, wanted@, order@, pending@, head as int, head as int, 0),
            settled_in_turn(g@, wanted@, order@, head as int) == release_order(g@, wanted@),
        decreases n - head,
    {
        proof {
            lemma_distinct_bounded(order@, n as nat);
        }
        let x = order[head];
        let ghost before = settled_of(order@, head as int);
        let ghost after = settled_of(order@, head + 1);
        proof {
            assert(!before.contains(x));
            assert(after =~= before.insert(x)) by {
                assert forall|y: usize| after.contains(y) implies before.insert(x).contains(y) by {
                    let r = choose|r: int|
                        0 <= r < head + 1 && r < order@.len() && #[trigger] order@[r] == y;
                    if r < head {
                        assert(before.contains(y));
                    }
                }
                assert forall|y: usize| before.insert(x).contains(y) implies after.contains(y) by {
                    if y == x {
                        assert(order@[head as int] == x);
                    } else {
                        let r = choose|r: int|
                            0 <= r < head && r < order@.len() && #[trigger] order@[r] == y;
                        assert(order@[r] == y);
                    }
                }
            }
        }
        let ghost base = order@;
        assert(order@ =~= base + released(g@, wanted@, before, x, 0));
        let mut o: usize = 0;
        while o < n
            invariant
                well_formed(g@),
                n == g@.len(),
                o <= n,
                head < order@.len(),
                head < base.len(),
                x == order@[head as int],
                order@ == base + released(g@, wanted@, before, x, o as int),
                before == settled_of(order@, head as int),
                after == settled_of(order@, head + 1),
                !before.contains(x),
                after == before.insert(x),
                ordering(g@, wanted@, order@, pending@, head as int, head + 1, o as int),
            decreases n - o,
        {
            let ghost so_far = released(g@, wanted@, before, x, o as int);
            if wanted[o] {
                proof {
                    lemma_waiting_settle(g@[o as int]@, wanted@, before, x);
                }
                if position(&g[o], x).is_some() {
                    let ghost old_order = order@;
                    let ghost old_pending = pending@;
                    let left = pending[o] - 1;
                    pending.set(o, left);
                    if left == 0 {
                        order.push(o);
                    }
                    proof {
                        assert(order@ =~= base + released(g@, wanted@, before, x, o + 1)) by {
                            if left == 0 {
                                assert(base + so_far.push(o) =~= (base + so_far).push(o));
                            }
                        }
                        assert(!old_order.contains(o));
                        if left == 0 {
                            lemma_settled_push(old_order, head as int, o);
                            lemma_settled_push(old_order, head + 1, o);
                        }
                        assert forall|y: usize|
                            y < g@.len() && wanted@[y as int] implies (#[trigger] order@.contains(y)
                            <==> pending@[y as int] == 0) by {
                            if y == o {
                                if left == 0 {
                                    assert(order@[order@.len() - 1] == o);
                                } else if order@.contains(o) {
                                    let r = choose|r: int| 0 <= r < order@.len() && order@[r] == o;
                                    assert(old_order[r] == o);
                                }
                            } else {
                                assert(pending@[y as int] == old_pending[y as int]);
                                if old_order.contains(y) {
                                    let r = choose|r: int|
                                        0 <= r < old_order.len() && old_order[r] == y;
                                    assert(order@[r] == y);
                                }
                                if order@.contains(y) {
                                    let r = choose|r: int| 0 <= r < order@.len() && order@[r] == y;
                                    assert(old_order[r] == y);
                                }
                            }
                        }
                        assert forall|q: int, b: int|
                            0 <= q < order@.len() && #[trigger] edge(g@, order@[q] as int, b)
                                && wanted@[b] implies exists|r: int|
                            0 <= r < q && #[trigger] order@[r] == b by {
                            if q < old_order.len() {
                                assert(order@[q] == old_order[q]);
                                let r = choose|r: int| 0 <= r < q && #[trigger] old_order[r] == b;
                                assert(order@[r] == b);
                            } else {
                                lemma_waiting_none(g@[o as int]@, wanted@, after);
                                let k = choose|k: int|
                                    0 <= k < g@[o as int]@.len() && #[trigger] g@[o as int]@[k] == b;
                                assert(wanted@[g@[o as int]@[k] as int]);
                                assert(after.contains(g@[o as int]@[k]));
                                let r = choose|r: int|
                                    0 <= r < head + 1 && r < old_order.len()
                                        && #[trigger] old_order[r] == b as usize;
                                assert(order@[r] == b);
                            }
                        }
                    }
                }
            }
            o += 1;
        }
        proof {
            assert(settled_of(base, head as int) =~= before) by {
                assert forall|y: usize| settled_of(base, head as int).contains(y) implies before.contains(
                    y,
                ) by {
                    let r = choose|r: int|
                        0 <= r < head && r < base.len() && #[trigger] base[r] == y;
                    assert(order@[r] == y);
                }
                assert forall|y: usize| before.contains(y) implies settled_of(
                    base,
                    head as int,
                ).contains(y) by {
                    let r = choose|r: int|
                        0 <= r < head && r < order@.len() && #[trigger] order@[r] == y;
                    assert(base[r] == y);
                }
            }
            assert(base[head as int] == x);
        }
        head += 1;
        proof {
            lemma_distinct_bounded(order@, n as nat);
        }
    }
    proof {
        let plan = choose|plan: Seq<usize>| #[trigger] is_schedule(g@, plan) && covers(plan, g@.len());
        let settled = settled_of(order@, head as int);
        assert forall|a: usize|
            a < g@.len() && wanted@[a as int] && !order@.contains(a) implies exists|b: usize| #[trigger]
            edge(g@, a as int, b as int) && wanted@[b as int] && !order@.contains(b) by {
            lemma_waiting_none(g@[a as int]@, wanted@, settled);
            let k = choose|k: int|
                0 <= k < g@[a as int]@.len() && wanted@[#[trigger] g@[a as int]@[k] as int]
                    && !settled.contains(g@[a as int]@[k]);
            let b = g@[a as int]@[k];
            assert(edge(g@, a as int, b as int));
            if order@.contains(b) {
                let r = choose|r: int| 0 <= r < order@.len() && order@[r] == b;
                assert(settled.contains(b));
            }
        }
        assert forall|a: usize| a < g@.len() && wanted@[a as int] implies #[trigger] order@.contains(
            a,
        ) by {
            assert(plan.contains(a));
            let q = choose|q: int| 0 <= q < plan.len() && plan[q] == a;
            lemma_order_complete(g@, wanted@, order@, plan, q);
        }
    }
    order
}

/// A direct dependency is a dependency.
pub proof fn lemma_reaches_edge(g: Seq<Vec<usize>>, a: usize, b: usize)
    requires
        edge(g, a as int, b as int),
    ensures
        reaches(g, a as int, b as int),
{
    let p = seq![a, b];
    assert(is_walk(g, p));
    assert(p.first() == a && p.last() == b);
}

/// A dependency of a dependency is a dependency.
pub proof fn lemma_reaches_step(g: Seq<Vec<usize>>, a: usize, b: usize, c: usize)
    requires
        reaches(g, a as int, b as int),
        edge(g, b as int, c as int),
    ensures
        reaches(g, a as int, c as int),
{
    let p = choose|p: Seq<usize>| #[trigger]
        is_walk(g, p) && p.len() >= 2 && p.first() == a && p.last() == b;
    let longer = p.push(c);
    assert(is_walk(g, longer)) by {
        assert forall|k: int| 0 <= k < longer.len() - 1 implies edge(
            g,
            #[trigger] longer[k] as int,
            longer[k + 1] as int,
        ) by {
            if k < p.len() - 1 {
                assert(longer[k] == p[k]);
                assert(longer[k + 1] == p[k + 1]);
            }
        }
    }
    assert(longer.first() == a && longer.last() == c);
}

/// `seen` marks exactly the nodes of `found`, which are distinct.
pub open spec fn marked_as_found(g: Seq<Vec<usize>>, seen: Seq<bool>, found: Seq<usize>) -> bool {
    &&& seen.len() == g.len()
    &&& found.no_duplicates()
    &&& forall|q: int| 0 <= q < found.len() ==> #[trigger] found[q] < g.len()
    &&& forall|b: usize| b < g.len() ==> (seen[b as int] <==> #[trigger] found.contains(b))
}

/// The first `upto` of `deps` that `found` lacks, each once, in their order.
pub open spec fn fresh(deps: Seq<usize>, found: Seq<usize>, upto: int) -> Seq<usize>
    decreases upto,
{
    if upto <= 0 {
        Seq::empty()
    } else {
        let before = fresh(deps, found, upto - 1);
        if found.contains(deps[upto - 1]) || before.contains(deps[upto - 1]) {
            before
        } else {
            before.push(deps[upto - 1])
        }
    }
}

/// What `found` grows to when its nodes from place `head` on are looked at
/// one after the other, each with the dependencies that are new put at the
/// end.
pub open spec fn absorbed(g: Seq<Vec<usize>>, found: Seq<usize>, head: int) -> Seq<usize>
    decreases g.len() - head,
{
    if head < 0 || head >= found.len() || head >= g.len() {
        found
    } else {
        absorbed(
            g,
            found + fresh(g[found[head] as int]@, found, g[found[head] as int]@.len() as int),
            head + 1,
        )
    }
}

/// Everything `node` depends on, breadth first: its direct dependencies as
/// they are listed, then what each of these in turn adds.
pub open spec fn collected(g: Seq<Vec<usize>>, node: int) -> Seq<usize> {
    absorbed(g, fresh(g[node]@, Seq::empty(), g[node]@.len() as int), 0)
}

/// Appends to `found` the direct dependencies of `of` that it lacks.
fn absorb(g: &Vec<Vec<usize>>, of: usize, seen: &mut Vec<bool>, found: &mut Vec<usize>)
    requires
        well_formed(g@),
        of < g@.len(),
        marked_as_found(g@, old(seen)@, old(found)@),
    ensures
        marked_as_found(g@, final(seen)@, final(found)@),
        final(found)@ == old(found)@ + fresh(
            g@[of as int]@,
            old(found)@,
            g@[of as int]@.len() as int,
        ),
        final(found)@.len() >= old(found)@.len(),
        forall|q: int| 0 <= q < old(found)@.len() ==> final(found)@[q] == old(found)@[q],
        forall|q: int|
            old(found)@.len() <= q < final(found)@.len() ==> edge(
                g@,
                of as int,
                #[trigger] final(found)@[q] as int,
            ),
        forall|b: usize| edge(g@, of as int, b as int) ==> #[trigger] final(found)@.contains(b),
{
    let deps = &g[of];
    let mut k: usize = 0;
    assert(found@ =~= old(found)@ + fresh(deps@, old(found)@, 0));
    while k < deps.len()
        invariant
            well_formed(g@),
            of < g@.len(),
            deps@ == g@[of as int]@,
            k <= deps@.len(),
            marked_as_found(g@, seen@, found@),
            found@ == old(found)@ + fresh(deps@, old(found)@, k as int),
            found@.len() >= old(found)@.len(),
            forall|q: int| 0 <= q < old(found)@.len() ==> found@[q] == old(found)@[q],
            forall|q: int|
                old(found)@.len() <= q < found@.len() ==> edge(
                    g@,
                    of as int,
                    #[trigger] found@[q] as int,
                ),
            forall|i: int| 0 <= i < k ==> found@.contains(#[trigger] deps@[i]),
        decreases deps@.len() - k,
    {
        let next = deps[k];
        let ghost before = found@;
        let ghost added = fresh(deps@, old(found)@, k as int);
        proof {
            if before.contains(next) {
                let r = choose|r: int| 0 <= r < before.len() && before[r] == next;
                if r < old(found)@.len() {
                    assert(old(found)@[r] == next);
                } else {
                    assert(added[r - old(found)@.len()] == next);
                }
            }
            if old(found)@.contains(next) {
                let r = choose|r: int| 0 <= r < old(found)@.len() && old(found)@[r] == next;
                assert(before[r] == next);
            }
            if added.contains(next) {
                let r = choose|r: int| 0 <= r < added.len() && added[r] == next;
                assert(before[old(found)@.len() + r] == next);
            }
        }
        if !seen[next] {
            seen.set(next, true);
            found.push(next);
            proof {
                assert(found@ =~= old(found)@ + added.push(next));
                assert(!before.contains(next));
                assert(found@[found@.len() - 1] == next);
                assert forall|b: usize| b < g@.len() implies (seen@[b as int]
                    <==> #[trigger] found@.contains(b)) by {
                    if b != next {
                        if before.contains(b) {
                            let r = choose|r: int| 0 <= r < before.len() && before[r] == b;
                            assert(found@[r] == b);
                        }
                        if found@.contains(b) {
                            let r = choose|r: int| 0 <= r < found@.len() && found@[r] == b;
                            assert(before[r] == b);
                        }
                    }
                }
                assert forall|i: int| 0 <= i < k implies found@.contains(#[trigger] deps@[i]) by {
                    assert(before.contains(deps@[i]));
                    let r = choose|r: int| 0 <= r < before.len() && before[r] == deps@[i];
                    assert(found@[r] == deps@[i]);
                }
            }
        }
        assert(found@.contains(deps@[k as int]));
        k += 1;
    }
    proof {
        assert forall|b: usize| edge(g@, of as int, b as int) implies #[trigger] found@.contains(
            b,
        ) by {
            let i = choose|i: int| 0 <= i < deps@.len() && #[trigger] deps@[i] == b;
            assert(found@.contains(deps@[i]));
        }
    }
}

proof fn lemma_closed_holds_all(
    g: Seq<Vec<usize>>,
    node: usize,
    found: Seq<usize>,
    p: Seq<usize>,
)
    requires
        forall|b: usize| edge(g, node as int, b as int) ==> #[trigger] found.contains(b),
        forall|q: int, b: usize|
            0 <= q < found.len() && #[trigger] edge(g, found[q] as int, b as int)
                ==> found.contains(b),
        is_walk(g, p),
        p.len() >= 2,
        p.first() == node,
    ensures
        found.contains(p.last()),
    decreases p.len(),
{
    let last = p.len() - 1;
    assert(edge(g, p[last - 1] as int, p[last - 1 + 1] as int));
    if p.len() > 2 {
        let front = p.drop_last();
        assert(is_walk(g, front)) by {
            assert forall|k: int| 0 <= k < front.len() - 1 implies edge(
                g,
                #[trigger] front[k] as int,
                front[k + 1] as int,
            ) by {
                assert(front[k] == p[k]);
                assert(front[k + 1] == p[k + 1]);
            }
        }
        lemma_closed_holds_all(g, node, found, front);
        assert(front.last() == p[last - 1]);
        let q = choose|q: int| 0 <= q < found.len() && found[q] == p[last - 1];
        assert(edge(g, found[q] as int, p[last] as int));
    }
}

/// Collects everything `node` depends on, directly or through other nodes,
/// breadth first: direct dependencies come first, each node once.
pub fn dependencies(g: &Vec<Vec<usize>>, node: usize) -> (found: Vec<usize>)
    requires
        well_formed(g@),
        node < g@.len(),
    ensures
        found@ == collected(g@, node as int),
        found@.no_duplicates(),
        forall|q: int| 0 <= q < found@.len() ==> #[trigger] found@[q] < g@.len(),
        forall|b: usize| #[trigger] found@.contains(b) <==> reaches(g@, node as int, b as int),
        g@[node as int]@.len() == 0 ==> found@.len() == 0,
{
    let n = g.len();
    let mut seen = no_marks(n);
    let mut found: Vec<usize> = Vec::new();
    absorb(g, node, &mut seen, &mut found);
    assert(found@ =~= fresh(g@[node as int]@, Seq::empty(), g@[node as int]@.len() as int));
    proof {
        assert forall|q: int| 0 <= q < found@.len() implies reaches(
            g@,
            node as int,
            #[trigger] found@[q] as int,
        ) by {
            lemma_reaches_edge(g@, node, found@[q]);
        }
        if g@[node as int]@.len() == 0 && found@.len() > 0 {
            assert(edge(g@, node as int, found@[0] as int));
        }
    }
    let mut head: usize = 0;
    while head < found.len()
        invariant
            well_formed(g@),
            n == g@.len(),
            node < n,
            head <= found@.len(),
            marked_as_found(g@, seen@, found@),
            forall|q: int|
                0 <= q < found@.len() ==> reaches(g@, node as int, #[trigger] found@[q] as int),
            forall|b: usize| edge(g@, node as int, b as int) ==> #[trigger] found@.contains(b),
            forall|q: int, b: usize|
                0 <= q < head && #[trigger] edge(g@, found@[q] as int, b as int)
                    ==> found@.contains(b),
            g@[node as int]@.len() == 0 ==> found@.len() == 0,
            absorbed(g@, found@, head as int) == collected(g@, node as int),
        decreases n - head,
    {
        proof {
            lemma_distinct_bounded(found@, n as nat);
        }
        let x = found[head];
        let ghost before = found@;
        absorb(g, x, &mut seen, &mut found);
        proof {
            assert forall|q: int| 0 <= q < found@.len() implies reaches(
                g@,
                node as int,
                #[trigger] found@[q] as int,
            ) by {
                if q < before.len() {
                    assert(found@[q] == before[q]);
                } else {
                    assert(reaches(g@, node as int, before[head as int] as int));
                    lemma_reaches_step(g@, node, x, found@[q]);
                }
            }
            assert forall|b: usize| edge(g@, node as int, b as int) implies #[trigger] found@.contains(
                b,
            ) by {
                assert(before.contains(b));
                let r = choose|r: int| 0 <= r < before.len() && before[r] == b;
                assert(found@[r] == b);
            }
            assert forall|q: int, b: usize|
                0 <= q < head + 1 && #[trigger] edge(
                    g@,
                    found@[q] as int,
                    b as int,
                ) implies found@.contains(b) by {
                assert(found@[q] == before[q]);
                if q < head {
                    assert(edge(g@, before[q] as int, b as int));
                    assert(before.contains(b));
                    let r = choose|r: int| 0 <= r < before.len() && before[r] == b;
                    assert(found@[r] == b);
                }
            }
            lemma_distinct_bounded(found@, n as nat);
        }
        head += 1;
    }
    proof {
        assert forall|b: usize| reaches(g@, node as int, b as int) implies #[trigger] found@.contains(
            b,
        ) by {
            let p = choose|p: Seq<usize>| #[trigger]
                is_walk(g@, p) && p.len() >= 2 && p.first() == node && p.last() == b;
            lemma_closed_holds_all(g@, node, found@, p);
        }
        assert forall|b: usize| #[trigger] found@.contains(b) implies reaches(
            g@,
            node as int,
            b as int,
        ) by {
            let q = choose|q: int| 0 <= q < found@.len() && found@[q] == b;
            assert(reaches(g@, node as int, found@[q] as int));
        }
    }
    found
}

/// `c` lists for each node of `g` everything that the node depends on in
/// `g`, directly or through other nodes, in the order of [`collected`].
pub open spec fn is_closure(g: Seq<Vec<usize>>, c: Seq<Vec<usize>>) -> bool {
    &&& c.len() == g.len()
    &&& forall|a: int| 0 <= a < g.len() ==> (#[trigger] c[a])@ == collected(g, a)
}

/// The order in which the wanted nodes of `g` are put: the order in which
/// they are released where each node waits for every wanted node that it
/// depends on, directly or through other nodes, wanted or not.
pub open spec fn dependency_order(g: Seq<Vec<usize>>, wanted: Seq<bool>) -> Seq<usize> {
    release_order(choose|c: Seq<Vec<usize>>| is_closure(g, c), wanted)
}

/// Two graphs name the same nodes in each list.
pub open spec fn same_lists(g: Seq<Vec<usize>>, h: Seq<Vec<usize>>) -> bool {
    &&& g.len() == h.len()
    &&& forall|a: int| 0 <= a < g.len() ==> (#[trigger] g[a])@ == h[a]@
}

proof fn lemma_ready_by_lists(g: Seq<Vec<usize>>, h: Seq<Vec<usize>>, wanted: Seq<bool>, upto: int)
    requires
        same_lists(g, h),
        upto <= g.len(),
    ensures
        ready(g, wanted, upto) == ready(h, wanted, upto),
    decreases upto,
{
    if upto > 0 {
        lemma_ready_by_lists(g, h, wanted, upto - 1);
        assert(g[upto - 1]@ == h[upto - 1]@);
    }
}

proof fn lemma_released_by_lists(
    g: Seq<Vec<usize>>,
    h: Seq<Vec<usize>>,
    wanted: Seq<bool>,
    settled: Set<usize>,
    x: usize,
    upto: int,
)
    requires
        same_lists(g, h),
        upto <= g.len(),
    ensures
        released(g, wanted, settled, x, upto) == released(h, wanted, settled, x, upto),
    decreases upto,
{
    if upto > 0 {
        lemma_released_by_lists(g, h, wanted, settled, x, upto - 1);
        assert(g[upto - 1]@ == h[upto - 1]@);
    }
}

proof fn lemma_settled_by_lists(
    g: Seq<Vec<usize>>,
    h: Seq<Vec<usize>>,
    wanted: Seq<bool>,
    order: Seq<usize>,
    head: int,
)
    requires
        same_lists(g, h),
    ensures
        settled_in_turn(g, wanted, order, head) == settled_in_turn(h, wanted, order, head),
    decreases g.len() - head,
{
    if !(head < 0 || head >= order.len() || head >= g.len()) {
        lemma_released_by_lists(
            g,
            h,
            wanted,
            settled_of(order, head),
            order[head],
            g.len() as int,
        );
        lemma_settled_by_lists(
            g,
            h,
            wanted,
            order + released(g, wanted, settled_of(order, head), order[head], g.len() as int),
            head + 1,
        );
    }
}

/// The order of release depends on what the lists name, and on nothing
/// else.
pub proof fn lemma_release_order_by_lists(
    g: Seq<Vec<usize>>,
    h: Seq<Vec<usize>>,
    wanted: Seq<bool>,
)
    requires
        same_lists(g, h),
    ensures
        release_order(g, wanted) == release_order(h, wanted),
{
    lemma_ready_by_lists(g, h, wanted, g.len() as int);
    lemma_settled_by_lists(g, h, wanted, ready(g, wanted, g.len() as int), 0);
}

/// Makes the graph in which each node lists everything that it depends on
/// in `g`, directly or through other nodes.
pub fn close(g: &Vec<Vec<usize>>) -> (c: Vec<Vec<usize>>)
    requires
        well_formed(g@),
    ensures
        is_closure(g@, c@),
        well_formed(c@),
        forall|a: int, b: usize|
            0 <= a < g@.len() ==> (#[trigger] c@[a]@.contains(b) <==> reaches(g@, a, b as int)),
{
    let n = g.len();
    let mut c: Vec<Vec<usize>> = Vec::new();
    let mut a: usize = 0;
    while a < n
        invariant
            well_formed(g@),
            n == g@.len(),
            a <= n,
            c@.len() == a,
            forall|i: int| 0 <= i < a ==> (#[trigger] c@[i])@ == collected(g@, i),
            forall|i: int| 0 <= i < a ==> (#[trigger] c@[i])@.no_duplicates(),
            forall|i: int, k: int|
                0 <= i < a && 0 <= k < c@[i]@.len() ==> #[trigger] c@[i]@[k] < g@.len(),
            forall|i: int, b: usize|
                0 <= i < a ==> (#[trigger] c@[i]@.contains(b) <==> reaches(g@, i, b as int)),
        decreases n - a,
    {
        let found = dependencies(g, a);
        c.push(found);
        a += 1;
    }
    c
}

/// A graph that can be put in dependency order can still be put in that
/// order when each node lists everything it depends on.
proof fn lemma_closure_schedulable(g: Seq<Vec<usize>>, c: Seq<Vec<usize>>)
    requires
        schedulable(g),
        c.len() == g.len(),
        forall|a: int, b: usize|
            0 <= a < g.len() ==> (#[trigger] c[a]@.contains(b) <==> reaches(g, a, b as int)),
    ensures
        schedulable(c),
{
    let plan = choose|plan: Seq<usize>| #[trigger] is_schedule(g, plan) && covers(plan, g.len());
    assert forall|q: int, b: int|
        0 <= q < plan.len() && #[trigger] edge(c, plan[q] as int, b) implies exists|r: int|
        0 <= r < q && #[trigger] plan[r] == b by {
        let a = plan[q] as int;
        let k = choose|k: int| 0 <= k < c[a]@.len() && #[trigger] c[a]@[k] == b;
        let to = c[a]@[k];
        assert(c[a]@.contains(to));
        assert(reaches(g, a, to as int));
        let p = choose|p: Seq<usize>| #[trigger]
            is_walk(g, p) && p.len() >= 2 && p.first() == a && p.last() == to;
        lemma_walk_descends(g, plan, p, q);
        let r = choose|r: int| 0 <= r <= q - (p.len() - 1) && #[trigger] plan[r] == p.last();
        assert(plan[r] == b);
    }
    assert(is_schedule(c, plan));
}

/// Orders the wanted nodes so that each comes after every wanted node that
/// it depends on, directly or through other nodes, wanted or not.
///
/// Nodes that depend on no wanted node come first, by rising index; the
/// others follow in the order in which the last wanted node they depend on
/// is placed.
pub fn topological_order(g: &Vec<Vec<usize>>, wanted: &Vec<bool>) -> (order: Vec<usize>)
    requires
        well_formed(g@),
        schedulable(g@),
        wanted@.len() == g@.len(),
    ensures
        order@ == dependency_order(g@, wanted@),
        order@.no_duplicates(),
        forall|a: usize| #[trigger] order@.contains(a) <==> a < g@.len() && wanted@[a as int],
        forall|q: int, r: int|
            0 <= q < order@.len() && 0 <= r < order@.len() && #[trigger] reaches(
                g@,
                order@[q] as int,
                order@[r] as int,
            ) ==> r < q,
{
    let c = close(g);
    proof {
        lemma_closure_schedulable(g@, c@);
    }
    let order = order_by_lists(&c, wanted);
    proof {
        let chosen = choose|h: Seq<Vec<usize>>| is_closure(g@, h);
        assert(is_closure(g@, chosen));
        assert(same_lists(c@, chosen)) by {
            assert forall|a: int| 0 <= a < c@.len() implies (#[trigger] c@[a])@ == chosen[a]@ by {
                assert(c@[a]@ == collected(g@, a));
            }
        }
        lemma_release_order_by_lists(c@, chosen, wanted@);
        assert forall|q: int, r: int|
            0 <= q < order@.len() && 0 <= r < order@.len() && #[trigger] reaches(
                g@,
                order@[q] as int,
                order@[r] as int,
            ) implies r < q by {
            let a = order@[q];
            let b = order@[r];
            assert(order@.contains(a));
            assert(order@.contains(b));
            assert(c@[a as int]@.contains(b));
            let k = choose|k: int| 0 <= k < c@[a as int]@.len() && c@[a as int]@[k] == b;
            assert(edge(c@, a as int, b as int));
            let at = choose|at: int| 0 <= at < q && #[trigger] order@[at] == b as int;
            assert(at == r);
        }
    }
    order
}

} // verus!
