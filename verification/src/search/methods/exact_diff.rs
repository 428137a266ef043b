//! ExactDiffMatch: cherry-picks as commits with the same diff.
use vstd::prelude::*;

use crate::git::{body_key, same_bodies, Commit};
use crate::search::{
    constructed_pair, insert_result, result_model, result_models, CherryAndTarget, MetadataModel,
    SearchResult,
};
use crate::text::append_str;

verus! {

pub open spec fn exact_diff_name() -> Seq<char> {
    "ExactDiffMatch"@
}

/// Commits `i < j` have the same diff, as the bodies of their hunks tell, and different ids.
pub open spec fn same_diff_pair(commits: Seq<Commit>, i: int, j: int) -> bool {
    &&& 0 <= i < j < commits.len()
    &&& body_key(commits[i].diff) == body_key(commits[j].diff)
    &&& commits[i].id@ != commits[j].id@
}

/// The result for the commits at `i` and `j`: the older one is the cherry.
pub open spec fn exact_result(commits: Seq<Commit>, i: int, j: int) -> (Seq<char>, (MetadataModel, MetadataModel)) {
    (exact_diff_name(), constructed_pair(commits[i], commits[j]))
}

/// ExactDiffMatch identifies cherry picks by comparing the diffs of commits.
///
/// If the diffs of two commits match exactly (considering all context lines and changed lines
/// of their hunks' bodies, but not the hunk headers or files), both commits are considered as cherry-pick and cherry. Which of
/// the two commits is identified as cherry depends on the commits' timestamp: the older commit
/// is considered the cherry. Commits with the same id are the same commit on different
/// branches, not a cherry-pick.
#[derive(Default)]
pub struct ExactDiffMatch();

impl ExactDiffMatch {
    pub fn name(&self) -> (s: &'static str)
        ensures
            s@ == exact_diff_name(),
    {
        "ExactDiffMatch"
    }

    /// A result for every pair of commits with the same diff and different ids; each result
    /// once.
    pub fn search(&self, commits: &[Commit]) -> (results: Vec<SearchResult>)
        ensures
            result_models(results@).no_duplicates(),
            forall|x: (Seq<char>, (MetadataModel, MetadataModel))| result_models(results@).contains(x)
                <==> exists|i: int, j: int| #[trigger] same_diff_pair(commits@, i, j) && exact_result(commits@, i, j) == x,
    {
        proof {
            reveal_strlit("ExactDiffMatch");
        }
        let mut results: Vec<SearchResult> = Vec::new();
        let mut i: usize = 0;
        while i < commits.len()
            invariant
                i <= commits.len(),
                result_models(results@).no_duplicates(),
                forall|x: (Seq<char>, (MetadataModel, MetadataModel))| result_models(results@).contains(x)
                    <==> exists|a: int, b: int| #[trigger] same_diff_pair(commits@, a, b) && a < i && exact_result(commits@, a, b) == x,
            decreases commits.len() - i,
        {
            let mut j: usize = i + 1;
            while j < commits.len()
                invariant
                    i < commits.len(),
                    i + 1 <= j <= commits.len(),
                    result_models(results@).no_duplicates(),
                    forall|x: (Seq<char>, (MetadataModel, MetadataModel))| result_models(results@).contains(x)
                        <==> exists|a: int, b: int| #[trigger] same_diff_pair(commits@, a, b)
                            && (a < i || (a == i && b < j)) && exact_result(commits@, a, b) == x,
                decreases commits.len() - j,
            {
                let ghost r0 = result_models(results@);
                let ghost found: Option<(Seq<char>, (MetadataModel, MetadataModel))> = None;
                if commits[i].id != commits[j].id && same_bodies(&commits[i].diff, &commits[j].diff) {
                    let mut name = String::new();
                    append_str(&mut name, "ExactDiffMatch");
                    let r = SearchResult::new(name, CherryAndTarget::construct(&commits[i], &commits[j]));
                    proof {
                        found = Some(result_model(r));
                        assert(same_diff_pair(commits@, i as int, j as int));
                        assert(result_model(r) == exact_result(commits@, i as int, j as int));
                    }
                    insert_result(&mut results, r);
                } else {
                    proof {
                        assert(!same_diff_pair(commits@, i as int, j as int));
                    }
                }
                proof {
                    lemma_insert_models(r0, found, result_models(results@));
                    assert forall|x: (Seq<char>, (MetadataModel, MetadataModel))| result_models(results@).contains(x)
                        <==> exists|a: int, b: int| #[trigger] same_diff_pair(commits@, a, b)
                            && (a < i || (a == i && b < j + 1)) && exact_result(commits@, a, b) == x by {
                        if exists|a: int, b: int| #[trigger] same_diff_pair(commits@, a, b)
                            && (a < i || (a == i && b < j + 1)) && exact_result(commits@, a, b) == x {
                            let (a, b) = choose|a: int, b: int| #[trigger] same_diff_pair(commits@, a, b)
                                && (a < i || (a == i && b < j + 1)) && exact_result(commits@, a, b) == x;
                            if !(a == i && b == j) {
                                assert(exists|a: int, b: int| #[trigger] same_diff_pair(commits@, a, b)
                                    && (a < i || (a == i && b < j)) && exact_result(commits@, a, b) == x);
                            }
                        }
                    }
                }
                j = j + 1;
            }
            proof {
                assert forall|x: (Seq<char>, (MetadataModel, MetadataModel))| result_models(results@).contains(x)
                    <==> exists|a: int, b: int| #[trigger] same_diff_pair(commits@, a, b) && a < i + 1 && exact_result(commits@, a, b) == x by {
                    if exists|a: int, b: int| #[trigger] same_diff_pair(commits@, a, b) && a < i + 1 && exact_result(commits@, a, b) == x {
                        let (a, b) = choose|a: int, b: int| #[trigger] same_diff_pair(commits@, a, b) && a < i + 1 && exact_result(commits@, a, b) == x;
                        assert(same_diff_pair(commits@, a, b) && (a < i || (a == i && b < commits.len())));
                    }
                }
            }
            i = i + 1;
        }
        proof {
            assert forall|x: (Seq<char>, (MetadataModel, MetadataModel))| result_models(results@).contains(x)
                <==> exists|i: int, j: int| #[trigger] same_diff_pair(commits@, i, j) && exact_result(commits@, i, j) == x by {
                if exists|i: int, j: int| #[trigger] same_diff_pair(commits@, i, j) && exact_result(commits@, i, j) == x {
                    let (a, b) = choose|i: int, j: int| #[trigger] same_diff_pair(commits@, i, j) && exact_result(commits@, i, j) == x;
                    assert(same_diff_pair(commits@, a, b) && a < commits.len() && exact_result(commits@, a, b) == x);
                }
            }
        }
        results
    }
}

/// What inserting a result, or none, does to the set of results.
pub proof fn lemma_insert_models(
    r0: Seq<(Seq<char>, (MetadataModel, MetadataModel))>,
    found: Option<(Seq<char>, (MetadataModel, MetadataModel))>,
    r1: Seq<(Seq<char>, (MetadataModel, MetadataModel))>,
)
    requires
        r0.no_duplicates(),
        found is None ==> r1 == r0,
        found matches Some(m) ==> r1 == (if r0.contains(m) { r0 } else { r0.push(m) }),
    ensures
        r1.no_duplicates(),
        forall|x: (Seq<char>, (MetadataModel, MetadataModel))| r1.contains(x) <==> (r0.contains(x) || found == Some(x)),
{
    match found {
        Some(fm) => {
            if !r0.contains(fm) {
                assert forall|x: (Seq<char>, (MetadataModel, MetadataModel))| r1.contains(x) <==> (r0.contains(x) || fm == x) by {
                    if r1.contains(x) {
                        let j = choose|j: int| 0 <= j < r1.len() && r1[j] == x;
                        if j < r0.len() {
                            assert(r0[j] == x);
                        }
                    }
                    if r0.contains(x) {
                        let j = choose|j: int| 0 <= j < r0.len() && r0[j] == x;
                        assert(r1[j] == x);
                    }
                    if fm == x {
                        assert(r1[r0.len() as int] == x);
                    }
                }
                assert forall|a: int, b: int| 0 <= a < b < r1.len() implies r1[a] != r1[b] by {
                    if b == r0.len() {
                        assert(r0[a] == r1[a]);
                    }
                }
            }
        },
        None => {},
    }
}

} // verus!
