//! The comparison of all pairs of commits.
use vstd::prelude::*;

use crate::git::Commit;
use crate::search::methods::lsh::compare::body_lines;
use crate::search::methods::similar_diff::compare::{
    change_set, overlap_of, overlap_view, ChangeOverlap, ChangeSimilarityComparator,
};
use crate::search::util::ann::ids_view;
use crate::text::same_str;

verus! {

/// The commit at `i` is the first with its id.
pub open spec fn first_with_id(commits: Seq<Commit>, i: int) -> bool {
    forall|k: int| 0 <= k < i ==> (#[trigger] commits[k]).id@ != commits[i].id@
}

/// The pairs that the brute-force search compares: `i < j`, the commit at `i` is the first with
/// its id, and the two ids differ.
pub open spec fn compared_pair(commits: Seq<Commit>, i: int, j: int) -> bool {
    &&& 0 <= i < j < commits.len()
    &&& first_with_id(commits, i)
    &&& commits[i].id@ != commits[j].id@
}

/// The overlap of the changes of the commits at `i` and `j`.
pub open spec fn pair_overlap(commits: Seq<Commit>, i: int, j: int) -> (nat, nat, nat) {
    overlap_of(change_set(commits[i].diff), change_set(commits[j].diff))
}

/// Every pair of commits that the brute-force search compares, in order, with how much their
/// changes overlap; whether a pair is similar enough is the threshold's decision.
pub fn brute_force_search(commits: &[Commit]) -> (rated: Vec<(usize, usize, ChangeOverlap)>)
    requires
        forall|i: int| 0 <= i < commits.len() ==> body_lines((#[trigger] commits@[i]).diff.hunks@).len() < usize::MAX,
    ensures
        forall|k: int| 0 <= k < rated.len() ==> compared_pair(commits@, (#[trigger] rated@[k]).0 as int, rated@[k].1 as int)
            && overlap_view(rated@[k].2) == pair_overlap(commits@, rated@[k].0 as int, rated@[k].1 as int),
        forall|i: int, j: int| #[trigger] compared_pair(commits@, i, j) ==> exists|k: int|
            0 <= k < rated.len() && rated@[k].0 == i && #[trigger] rated@[k].1 == j,
        forall|a: int, b: int| 0 <= a < b < rated.len() ==> (rated@[a].0, rated@[a].1) != (rated@[b].0, rated@[b].1),
{
    let mut comparator = ChangeSimilarityComparator::new();
    let mut processed_ids: Vec<&str> = Vec::new();
    let mut rated: Vec<(usize, usize, ChangeOverlap)> = Vec::new();
    let mut i: usize = 0;
    while i < commits.len()
        invariant
            i <= commits.len(),
            forall|i: int| 0 <= i < commits.len() ==> body_lines((#[trigger] commits@[i]).diff.hunks@).len() < usize::MAX,
            forall|x: Seq<char>| ids_view(processed_ids@).contains(x)
                <==> exists|k: int| 0 <= k < i && (#[trigger] commits@[k]).id@ == x,
            forall|k: int| 0 <= k < rated.len() ==> compared_pair(commits@, (#[trigger] rated@[k]).0 as int, rated@[k].1 as int)
                && overlap_view(rated@[k].2) == pair_overlap(commits@, rated@[k].0 as int, rated@[k].1 as int)
                && rated@[k].0 < i,
            forall|a: int, j: int| #[trigger] compared_pair(commits@, a, j) && a < i ==> exists|k: int|
                0 <= k < rated.len() && rated@[k].0 == a && #[trigger] rated@[k].1 == j,
            forall|a: int, b: int| 0 <= a < b < rated.len() ==> (rated@[a].0, rated@[a].1) != (rated@[b].0, rated@[b].1),
        decreases commits.len() - i,
    {
        let first = &commits[i];
        let mut seen = false;
        let mut p: usize = 0;
        while p < processed_ids.len()
            invariant
                p <= processed_ids.len(),
                !seen ==> forall|q: int| 0 <= q < p ==> (#[trigger] processed_ids@[q])@ != first.id@,
                seen ==> ids_view(processed_ids@).contains(first.id@),
            decreases processed_ids.len() - p,
        {
            if same_str(processed_ids[p], first.id.as_str()) {
                assert(ids_view(processed_ids@)[p as int] == first.id@);
                seen = true;
            }
            p = p + 1;
        }
        proof {
            if !seen && ids_view(processed_ids@).contains(first.id@) {
                let q = choose|q: int| 0 <= q < processed_ids.len() && ids_view(processed_ids@)[q] == first.id@;
                assert(processed_ids@[q]@ != first.id@);
            }
        }
        let ghost first_occurrence = !seen;
        proof {
            if !seen {
                assert forall|k: int| 0 <= k < i implies (#[trigger] commits@[k]).id@ != commits@[i as int].id@ by {
                    if commits@[k].id@ == commits@[i as int].id@ {
                        assert(ids_view(processed_ids@).contains(first.id@));
                    }
                }
                assert(first_with_id(commits@, i as int));
            } else {
                assert(!first_with_id(commits@, i as int));
            }
        }
        if !seen {
            let mut j: usize = i + 1;
            while j < commits.len()
                invariant
                    i < j <= commits.len(),
                    first_with_id(commits@, i as int),
                    *first == commits@[i as int],
                    forall|i: int| 0 <= i < commits.len() ==> body_lines((#[trigger] commits@[i]).diff.hunks@).len() < usize::MAX,
                    forall|k: int| 0 <= k < rated.len() ==> compared_pair(commits@, (#[trigger] rated@[k]).0 as int, rated@[k].1 as int)
                        && overlap_view(rated@[k].2) == pair_overlap(commits@, rated@[k].0 as int, rated@[k].1 as int)
                        && (rated@[k].0 < i || (rated@[k].0 == i && rated@[k].1 < j)),
                    forall|a: int, b: int| #[trigger] compared_pair(commits@, a, b) && (a < i || (a == i && b < j)) ==> exists|k: int|
                        0 <= k < rated.len() && rated@[k].0 == a && #[trigger] rated@[k].1 == b,
                    forall|a: int, b: int| 0 <= a < b < rated.len() ==> (rated@[a].0, rated@[a].1) != (rated@[b].0, rated@[b].1),
                decreases commits.len() - j,
            {
                let second = &commits[j];
                if !same_str(first.id.as_str(), second.id.as_str()) {
                    let overlap = comparator.change_similarity(&first.diff, &second.diff);
                    let ghost r0 = rated@;
                    rated.push((i, j, overlap));
                    proof {
                        assert(compared_pair(commits@, i as int, j as int));
                        assert forall|k: int| 0 <= k < rated.len() implies compared_pair(commits@, (#[trigger] rated@[k]).0 as int, rated@[k].1 as int)
                            && overlap_view(rated@[k].2) == pair_overlap(commits@, rated@[k].0 as int, rated@[k].1 as int)
                            && (rated@[k].0 < i || (rated@[k].0 == i && rated@[k].1 < j + 1)) by {
                            if k < r0.len() {
                                assert(rated@[k] == r0[k]);
                            }
                        }
                        assert forall|a: int, b: int| #[trigger] compared_pair(commits@, a, b) && (a < i || (a == i && b < j + 1)) implies exists|k: int|
                            0 <= k < rated.len() && rated@[k].0 == a && #[trigger] rated@[k].1 == b by {
                            if a == i && b == j {
                                assert(rated@[r0.len() as int].1 == b);
                            } else {
                                let k = choose|k: int| 0 <= k < r0.len() && r0[k].0 == a && #[trigger] r0[k].1 == b;
                                assert(rated@[k] == r0[k]);
                            }
                        }
                        assert forall|a: int, b: int| 0 <= a < b < rated.len() implies (rated@[a].0, rated@[a].1) != (rated@[b].0, rated@[b].1) by {
                            if b == r0.len() {
                                assert(rated@[a] == r0[a]);
                            } else {
                                assert(rated@[a] == r0[a] && rated@[b] == r0[b]);
                            }
                        }
                    }
                } else {
                    proof {
                        assert(!compared_pair(commits@, i as int, j as int));
                    }
                }
                j = j + 1;
            }
        }
        let ghost ids0 = ids_view(processed_ids@);
        processed_ids.push(first.id.as_str());
        proof {
            assert(ids_view(processed_ids@) =~= ids0.push(first.id@));
            assert forall|x: Seq<char>| ids_view(processed_ids@).contains(x)
                <==> exists|k: int| 0 <= k < i + 1 && (#[trigger] commits@[k]).id@ == x by {
                let v1 = ids_view(processed_ids@);
                if v1.contains(x) {
                    let q = choose|q: int| 0 <= q < v1.len() && v1[q] == x;
                    if q < ids0.len() {
                        assert(ids0[q] == x);
                        assert(ids0.contains(x));
                    } else {
                        assert(commits@[i as int].id@ == x);
                    }
                }
                if exists|k: int| 0 <= k < i + 1 && (#[trigger] commits@[k]).id@ == x {
                    let k = choose|k: int| 0 <= k < i + 1 && (#[trigger] commits@[k]).id@ == x;
                    if k < i {
                        assert(ids0.contains(x));
                        let q = choose|q: int| 0 <= q < ids0.len() && ids0[q] == x;
                        assert(v1[q] == x);
                    } else {
                        assert(v1[ids0.len() as int] == x);
                    }
                }
            }
            assert forall|a: int, b: int| #[trigger] compared_pair(commits@, a, b) && a < i + 1 implies exists|k: int|
                0 <= k < rated.len() && rated@[k].0 == a && #[trigger] rated@[k].1 == b by {
                if a == i {
                    assert(first_with_id(commits@, i as int));
                }
            }
        }
        i = i + 1;
    }
    rated
}

/// Finds cherry-picks by comparing the changes of all pairs of commits.
#[derive(Default)]
pub struct BruteForceMatch();

impl BruteForceMatch {
    pub fn name(&self) -> (s: &'static str)
        ensures
            s@ == "BruteForce"@,
    {
        "BruteForce"
    }
}

} // verus!
