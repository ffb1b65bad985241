//! Which log files to give up when only the most recent are retained.

use vstd::prelude::*;
use crate::graph::{lemma_distinct_bounded, no_marks};

verus! {

/// File `a` goes before file `b`: it is older, or as old and stands earlier.
pub open spec fn goes_before(modified: Seq<u128>, a: int, b: int) -> bool {
    modified[a] < modified[b] || (modified[a] == modified[b] && a < b)
}

/// The files `remove` are as many of the oldest as have to go so that `keep`
/// files stay, oldest first: each goes before the next of them, and before
/// every file that stays.
pub open spec fn oldest_beyond(modified: Seq<u128>, keep: nat, remove: Seq<usize>) -> bool {
    &&& remove.no_duplicates()
    &&& forall|k: int| 0 <= k < remove.len() ==> #[trigger] remove[k] < modified.len()
    &&& remove.len() == if modified.len() > keep {
        modified.len() - keep
    } else {
        0
    }
    &&& forall|k: int|
        0 <= k < remove.len() - 1 ==> goes_before(
            modified,
            #[trigger] remove[k] as int,
            remove[k + 1] as int,
        )
    &&& forall|k: int, j: int|
        0 <= k < remove.len() && 0 <= j < modified.len() && !remove.contains(j as usize)
            ==> #[trigger] goes_before(modified, remove[k] as int, j)
}

/// Picks the files to remove so that only the `keep` most recent stay.
/// `modified` holds the time each file was last modified at; the result
/// holds positions in it, oldest file first.
pub fn files_to_remove(modified: &[u128], keep: usize) -> (remove: Vec<usize>)
    ensures
        oldest_beyond(modified@, keep as nat, remove@),
{
    let n = modified.len();
    let mut remove: Vec<usize> = Vec::new();
    if n <= keep {
        return remove;
    }
    let surplus = n - keep;
    let mut gone = no_marks(n);
    while remove.len() < surplus
        invariant
            n == modified@.len(),
            surplus == n - keep,
            surplus <= n,
            gone@.len() == n,
            remove@.len() <= surplus,
            remove@.no_duplicates(),
            forall|k: int| 0 <= k < remove@.len() ==> #[trigger] remove@[k] < n,
            forall|j: usize| j < n ==> (gone@[j as int] <==> #[trigger] remove@.contains(j)),
            forall|k: int|
                0 <= k < remove@.len() - 1 ==> goes_before(
                    modified@,
                    #[trigger] remove@[k] as int,
                    remove@[k + 1] as int,
                ),
            forall|k: int, j: int|
                0 <= k < remove@.len() && 0 <= j < n && !gone@[j] ==> #[trigger] goes_before(
                    modified@,
                    remove@[k] as int,
                    j,
                ),
        decreases surplus - remove@.len(),
    {
        // the oldest file that is still there
        let mut oldest: Option<usize> = None;
        let mut j: usize = 0;
        while j < n
            invariant
                n == modified@.len(),
                gone@.len() == n,
                j <= n,
                match oldest {
                    Some(at) => at < j && !gone@[at as int] && forall|e: int|
                        0 <= e < j && !gone@[e] && e != at ==> #[trigger] goes_before(
                            modified@,
                            at as int,
                            e,
                        ),
                    None => forall|e: int| 0 <= e < j ==> #[trigger] gone@[e],
                },
            decreases n - j,
        {
            if !gone[j] {
                let ghost seen = oldest;
                oldest = match oldest {
                    Some(at) => if modified[j] < modified[at] {
                        Some(j)
                    } else {
                        Some(at)
                    },
                    None => Some(j),
                };
                proof {
                    let now = oldest->0;
                    assert forall|e: int| 0 <= e < j + 1 && !gone@[e] && e != now implies #[trigger] goes_before(
                        modified@,
                        now as int,
                        e,
                    ) by {
                        match seen {
                            Some(at) => {
                                if e != at && e != j {
                                    assert(goes_before(modified@, at as int, e));
                                }
                            },
                            None => {},
                        }
                    }
                }
            }
            j += 1;
        }
        match oldest {
            Some(at) => {
                let ghost before = remove@;
                let ghost marks = gone@;
                gone.set(at, true);
                remove.push(at);
                proof {
                    assert(!before.contains(at));
                    assert(remove@[remove@.len() - 1] == at);
                    assert forall|e: usize| e < n implies (gone@[e as int]
                        <==> #[trigger] remove@.contains(e)) by {
                        if e != at {
                            if before.contains(e) {
                                let r = choose|r: int| 0 <= r < before.len() && before[r] == e;
                                assert(remove@[r] == e);
                            }
                            if remove@.contains(e) {
                                let r = choose|r: int| 0 <= r < remove@.len() && remove@[r] == e;
                                assert(before[r] == e);
                            }
                        }
                    }
                    assert forall|k: int, e: int|
                        0 <= k < remove@.len() && 0 <= e < n && !gone@[e] implies #[trigger] goes_before(
                        modified@,
                        remove@[k] as int,
                        e,
                    ) by {
                        assert(!marks[e]);
                        if k < before.len() {
                            assert(remove@[k] == before[k]);
                            assert(goes_before(modified@, before[k] as int, e));
                        }
                    }
                    assert forall|k: int| 0 <= k < remove@.len() - 1 implies goes_before(
                        modified@,
                        #[trigger] remove@[k] as int,
                        remove@[k + 1] as int,
                    ) by {
                        assert(remove@[k] == before[k]);
                        if k + 1 < before.len() {
                            assert(remove@[k + 1] == before[k + 1]);
                        } else {
                            assert(!marks[at as int]);
                            assert(goes_before(modified@, before[k] as int, at as int));
                        }
                    }
                }
            },
            None => {
                // every file is gone already, so all of them are listed
                proof {
                    lemma_distinct_bounded(remove@, n as nat);
                    assert forall|e: usize| e < n implies #[trigger] remove@.contains(e) by {
                        assert(gone@[e as int]);
                    }
                    lemma_all_listed(remove@, n as nat);
                }
                return remove;
            },
        }
    }
    proof {
        assert forall|k: int, j: int|
            0 <= k < remove@.len() && 0 <= j < n && !remove@.contains(j as usize) implies #[trigger] goes_before(
            modified@,
            remove@[k] as int,
            j,
        ) by {
            assert(!gone@[j]);
        }
    }
    remove
}

/// A list that holds each of the first `n` positions has at least `n`
/// entries.
proof fn lemma_all_listed(s: Seq<usize>, n: nat)
    requires
        n <= usize::MAX,
        forall|e: usize| e < n ==> #[trigger] s.contains(e),
    ensures
        s.len() >= n,
    decreases n,
{
    if n > 0 {
        let top = (n - 1) as usize;
        assert(s.contains(top));
        let at = choose|at: int| 0 <= at < s.len() && s[at] == top;
        let rest = s.remove(at);
        assert forall|e: usize| e < n - 1 implies #[trigger] rest.contains(e) by {
            assert(s.contains(e));
            let i = choose|i: int| 0 <= i < s.len() && s[i] == e;
            if i < at {
                assert(rest[i] == e);
            } else {
                assert(i > at);
                assert(rest[i - 1] == e);
            }
        }
        lemma_all_listed(rest, (n - 1) as nat);
    }
}

} // verus!
