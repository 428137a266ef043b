//! Search methods that compare the changes of commits found as near neighbours.
use vstd::prelude::*;

pub mod compare;

use crate::git::{commit_key, Commit};
use crate::search::methods::lsh::compare::body_lines;
use crate::search::util::brute_force::pair_overlap;
use crate::text::same_str;
use compare::{overlap_view, ChangeOverlap, ChangeSimilarityComparator};

verus! {

/// Which neighbours count as the commit itself and are passed over: those with the same id,
/// or those equal to it as a whole commit.
#[derive(Clone, Copy, PartialEq, Eq, Debug)]
pub enum SelfMatch {
    SameId,
    EqualCommit,
}

/// Whether neighbour `b` counts as commit `a` itself.
pub open spec fn is_self(m: SelfMatch, a: Commit, b: Commit) -> bool {
    match m {
        SelfMatch::SameId => a.id@ == b.id@,
        SelfMatch::EqualCommit => commit_key(a) == commit_key(b),
    }
}

/// The pairs of commit `i` with its neighbours in `row`, in order, leaving out the neighbours
/// that count as commit `i` itself.
pub open spec fn row_pairs(commits: Seq<Commit>, m: SelfMatch, i: usize, row: Seq<usize>) -> Seq<(usize, usize)>
    decreases row.len(),
{
    if row.len() == 0 {
        Seq::empty()
    } else {
        let rest = row_pairs(commits, m, i, row.drop_last());
        if !is_self(m, commits[i as int], commits[row.last() as int]) { rest.push((i, row.last())) } else { rest }
    }
}

/// The pairs of each commit with its neighbours (`neighbours[i]` are those of commit `i`), commit
/// after commit, leaving out the neighbours that count as the commit itself.
pub open spec fn neighbour_pairs(commits: Seq<Commit>, m: SelfMatch, neighbours: Seq<Seq<usize>>) -> Seq<(usize, usize)>
    decreases neighbours.len(),
{
    if neighbours.len() == 0 {
        Seq::empty()
    } else {
        neighbour_pairs(commits, m, neighbours.drop_last())
            + row_pairs(commits, m, (neighbours.len() - 1) as usize, neighbours.last())
    }
}

pub open spec fn rows_view(neighbours: Seq<Vec<usize>>) -> Seq<Seq<usize>> {
    neighbours.map_values(|v: Vec<usize>| v@)
}

pub open spec fn rated_pairs(rated: Seq<(usize, usize, ChangeOverlap)>) -> Seq<(usize, usize)> {
    rated.map_values(|r: (usize, usize, ChangeOverlap)| (r.0, r.1))
}

/// Each commit paired with each of its nearest neighbours that does not count as the commit
/// itself under `skip`, in order, with how much their changes overlap; whether a pair is
/// similar enough is the threshold's decision.
pub fn rate_neighbours(commits: &[Commit], neighbours: &Vec<Vec<usize>>, skip: SelfMatch) -> (rated: Vec<(usize, usize, ChangeOverlap)>)
    requires
        neighbours.len() <= commits.len(),
        forall|i: int, j: int| 0 <= i < neighbours.len() && 0 <= j < neighbours@[i].len()
            ==> #[trigger] neighbours@[i]@[j] < commits.len(),
        forall|i: int| 0 <= i < commits.len() ==> body_lines((#[trigger] commits@[i]).diff.hunks@).len() < usize::MAX,
    ensures
        rated_pairs(rated@) == neighbour_pairs(commits@, skip, rows_view(neighbours@)),
        forall|k: int| 0 <= k < rated.len() ==> overlap_view((#[trigger] rated@[k]).2)
            == pair_overlap(commits@, rated@[k].0 as int, rated@[k].1 as int),
{
    let ghost nv = rows_view(neighbours@);
    let mut comparator = ChangeSimilarityComparator::new();
    let mut rated: Vec<(usize, usize, ChangeOverlap)> = Vec::new();
    let mut i: usize = 0;
    while i < neighbours.len()
        invariant
            i <= neighbours.len(),
            neighbours.len() <= commits.len(),
            nv == rows_view(neighbours@),
            forall|i: int, j: int| 0 <= i < neighbours.len() && 0 <= j < neighbours@[i].len()
                ==> #[trigger] neighbours@[i]@[j] < commits.len(),
            forall|i: int| 0 <= i < commits.len() ==> body_lines((#[trigger] commits@[i]).diff.hunks@).len() < usize::MAX,
            rated_pairs(rated@) == neighbour_pairs(commits@, skip, nv.take(i as int)),
            forall|k: int| 0 <= k < rated.len() ==> overlap_view((#[trigger] rated@[k]).2)
                == pair_overlap(commits@, rated@[k].0 as int, rated@[k].1 as int),
        decreases neighbours.len() - i,
    {
        let row = &neighbours[i];
        let ghost before = neighbour_pairs(commits@, skip, nv.take(i as int));
        assert(nv[i as int] == row@);
        let mut j: usize = 0;
        while j < row.len()
            invariant
                j <= row.len(),
                i < neighbours.len(),
                neighbours.len() <= commits.len(),
                *row == neighbours@[i as int],
                forall|i: int, j: int| 0 <= i < neighbours.len() && 0 <= j < neighbours@[i].len()
                    ==> #[trigger] neighbours@[i]@[j] < commits.len(),
                forall|i: int| 0 <= i < commits.len() ==> body_lines((#[trigger] commits@[i]).diff.hunks@).len() < usize::MAX,
                rated_pairs(rated@) == before + row_pairs(commits@, skip, i, row@.take(j as int)),
                forall|k: int| 0 <= k < rated.len() ==> overlap_view((#[trigger] rated@[k]).2)
                    == pair_overlap(commits@, rated@[k].0 as int, rated@[k].1 as int),
            decreases row.len() - j,
        {
            let n = row[j];
            assert(neighbours@[i as int]@[j as int] < commits.len());
            assert(row@.take(j + 1).drop_last() =~= row@.take(j as int));
            let ghost r0 = rated@;
            let ghost rows0 = row_pairs(commits@, skip, i, row@.take(j as int));
            let itself = match skip {
                SelfMatch::SameId => same_str(commits[i].id.as_str(), commits[n].id.as_str()),
                SelfMatch::EqualCommit => commits[i] == commits[n],
            };
            if !itself {
                let overlap = comparator.change_similarity(&commits[i].diff, &commits[n].diff);
                rated.push((i, n, overlap));
                proof {
                    assert(rated_pairs(rated@) =~= rated_pairs(r0).push((i, n)));
                    assert((before + rows0).push((i, n)) =~= before + rows0.push((i, n)));
                    assert forall|k: int| 0 <= k < rated.len() implies overlap_view((#[trigger] rated@[k]).2)
                        == pair_overlap(commits@, rated@[k].0 as int, rated@[k].1 as int) by {
                        if k < r0.len() {
                            assert(rated@[k] == r0[k]);
                        }
                    }
                }
            }
            j = j + 1;
        }
        proof {
            assert(row@.take(row.len() as int) =~= row@);
            assert(nv.take(i + 1).drop_last() =~= nv.take(i as int));
            assert(nv.take(i + 1).last() == nv[i as int]);
        }
        i = i + 1;
    }
    assert(nv.take(neighbours.len() as int) =~= nv);
    rated
}

/// Finds cherry-picks among the nearest neighbours of each commit's signature in an HNSW index
/// of the signatures, compared by their changes.
#[derive(Default)]
pub struct SimilarityDiffMatch();

impl SimilarityDiffMatch {
    pub fn name(&self) -> (s: &'static str)
        ensures
            s@ == "SimilarityDiffMatch"@,
    {
        "SimilarityDiffMatch"
    }
}

/// Finds cherry-picks among commits that share a changed line, compared by their changes.
#[derive(Default)]
pub struct ANNMatch();

impl ANNMatch {
    pub fn name(&self) -> (s: &'static str)
        ensures
            s@ == "ANN"@,
    {
        "ANN"
    }
}

/// Finds cherry-picks among the nearest neighbours of each commit in a hierarchical navigable
/// small world graph of the signatures, compared by their changes.
#[derive(Default)]
pub struct HNSWSearch();

impl HNSWSearch {
    pub fn name(&self) -> (s: &'static str)
        ensures
            s@ == "HNSW"@,
    {
        "HNSW"
    }
}

} // verus!
