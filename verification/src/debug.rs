//! A naive search, for comparison: commits with the same message.
use vstd::prelude::*;

use crate::git::Commit;
use crate::search::methods::exact_diff::lemma_insert_models;
use crate::search::{
    constructed_pair, insert_result, result_model, result_models, CherryAndTarget, MetadataModel,
    SearchResult,
};
use crate::text::append_str;

verus! {

pub open spec fn naive_search_name() -> Seq<char> {
    "NaiveSearch"@
}

/// Commits `i` and `j` have different ids and the same message.
pub open spec fn same_message_pair(commits: Seq<Commit>, i: int, j: int) -> bool {
    &&& 0 <= i < commits.len()
    &&& 0 <= j < commits.len()
    &&& commits[i].id@ != commits[j].id@
    &&& commits[i].message@ == commits[j].message@
}

/// Naively determines a cherry-pick as two commits with the same commit message; the older one
/// is the cherry.
pub struct NaiveSearch();

impl NaiveSearch {
    pub fn name(&self) -> (s: &'static str)
        ensures
            s@ == "NAIVE_SEARCH"@,
    {
        "NAIVE_SEARCH"
    }

    /// A result for every ordered pair of commits with different ids and the same message; each
    /// result once.
    pub fn search(&self, commits: &[Commit]) -> (results: Vec<SearchResult>)
        ensures
            result_models(results@).no_duplicates(),
            forall|x: (Seq<char>, (MetadataModel, MetadataModel))| result_models(results@).contains(x)
                <==> exists|i: int, j: int| #[trigger] same_message_pair(commits@, i, j)
                    && x == (naive_search_name(), constructed_pair(commits@[i], commits@[j])),
    {
        proof {
            reveal_strlit("NaiveSearch");
        }
        let mut results: Vec<SearchResult> = Vec::new();
        let mut i: usize = 0;
        while i < commits.len()
            invariant
                i <= commits.len(),
                result_models(results@).no_duplicates(),
                forall|x: (Seq<char>, (MetadataModel, MetadataModel))| result_models(results@).contains(x)
                    <==> exists|a: int, b: int| #[trigger] same_message_pair(commits@, a, b) && a < i
                        && x == (naive_search_name(), constructed_pair(commits@[a], commits@[b])),
            decreases commits.len() - i,
        {
            let mut j: usize = 0;
            while j < commits.len()
                invariant
                    i < commits.len(),
                    j <= commits.len(),
                    result_models(results@).no_duplicates(),
                    forall|x: (Seq<char>, (MetadataModel, MetadataModel))| result_models(results@).contains(x)
                        <==> exists|a: int, b: int| #[trigger] same_message_pair(commits@, a, b)
                            && (a < i || (a == i && b < j))
                            && x == (naive_search_name(), constructed_pair(commits@[a], commits@[b])),
                decreases commits.len() - j,
            {
                let ghost r0 = result_models(results@);
                let ghost found: Option<(Seq<char>, (MetadataModel, MetadataModel))> = None;
                if commits[i].id != commits[j].id && commits[i].message == commits[j].message {
                    let mut name = String::new();
                    append_str(&mut name, "NaiveSearch");
                    let r = SearchResult::new(name, CherryAndTarget::construct(&commits[i], &commits[j]));
                    proof {
                        found = Some(result_model(r));
                        assert(same_message_pair(commits@, i as int, j as int));
                    }
                    insert_result(&mut results, r);
                } else {
                    proof {
                        assert(!same_message_pair(commits@, i as int, j as int));
                    }
                }
                proof {
                    lemma_insert_models(r0, found, result_models(results@));
                    assert forall|x: (Seq<char>, (MetadataModel, MetadataModel))| result_models(results@).contains(x)
                        <==> exists|a: int, b: int| #[trigger] same_message_pair(commits@, a, b)
                            && (a < i || (a == i && b < j + 1))
                            && x == (naive_search_name(), constructed_pair(commits@[a], commits@[b])) by {
                        if exists|a: int, b: int| #[trigger] same_message_pair(commits@, a, b)
                            && (a < i || (a == i && b < j + 1))
                            && x == (naive_search_name(), constructed_pair(commits@[a], commits@[b])) {
                            let (a, b) = choose|a: int, b: int| #[trigger] same_message_pair(commits@, a, b)
                                && (a < i || (a == i && b < j + 1))
                                && x == (naive_search_name(), constructed_pair(commits@[a], commits@[b]));
                            if !(a == i && b == j) {
                                assert(exists|a: int, b: int| #[trigger] same_message_pair(commits@, a, b)
                                    && (a < i || (a == i && b < j))
                                    && x == (naive_search_name(), constructed_pair(commits@[a], commits@[b])));
                            }
                        }
                    }
                }
                j = j + 1;
            }
            proof {
                assert forall|x: (Seq<char>, (MetadataModel, MetadataModel))| result_models(results@).contains(x)
                    <==> exists|a: int, b: int| #[trigger] same_message_pair(commits@, a, b) && a < i + 1
                        && x == (naive_search_name(), constructed_pair(commits@[a], commits@[b])) by {
                    if exists|a: int, b: int| #[trigger] same_message_pair(commits@, a, b) && a < i + 1
                        && x == (naive_search_name(), constructed_pair(commits@[a], commits@[b])) {
                        let (a, b) = choose|a: int, b: int| #[trigger] same_message_pair(commits@, a, b) && a < i + 1
                            && x == (naive_search_name(), constructed_pair(commits@[a], commits@[b]));
                        assert(same_message_pair(commits@, a, b) && (a < i || (a == i && b < commits.len())));
                    }
                }
            }
            i = i + 1;
        }
        proof {
            assert forall|x: (Seq<char>, (MetadataModel, MetadataModel))| result_models(results@).contains(x)
                <==> exists|i: int, j: int| #[trigger] same_message_pair(commits@, i, j)
                    && x == (naive_search_name(), constructed_pair(commits@[i], commits@[j])) by {
                if exists|i: int, j: int| #[trigger] same_message_pair(commits@, i, j)
                    && x == (naive_search_name(), constructed_pair(commits@[i], commits@[j])) {
                    let (a, b) = choose|i: int, j: int| #[trigger] same_message_pair(commits@, i, j)
                        && x == (naive_search_name(), constructed_pair(commits@[i], commits@[j]));
                    assert(same_message_pair(commits@, a, b) && a < commits.len());
                }
            }
        }
        results
    }
}

} // verus!
