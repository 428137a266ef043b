use cherry_harvest::debug::NaiveSearch;
use cherry_harvest::search::methods::lsh::{DiffSimilarity, IdPair, TraditionalLSH};
use cherry_harvest::git::history::HistoryWalk;
use cherry_harvest::git::{unique_commits, Commit, CommitTime, Diff, DiffLine, Hunk, LineType};
use cherry_harvest::search::methods::similar_diff::{rate_neighbours, SelfMatch};
use cherry_harvest::search::methods::similar_diff::compare::{
    ChangeOverlap, ChangeSimilarityComparator,
};
use cherry_harvest::search::util::ann::{CandidatePair, Index};
use cherry_harvest::search::util::brute_force::{brute_force_search, BruteForceMatch};
use cherry_harvest::search::SearchResult;

fn diff(lines: &[(&str, LineType)]) -> Diff {
    Diff::from_hunks(vec![Hunk {
        body: lines
            .iter()
            .map(|(c, t)| DiffLine::new(c.to_string(), *t))
            .collect(),
        header: "@@ -1,1 +1,1 @@\n".to_string(),
        old_file: Some("a.txt".to_string()),
        new_file: Some("a.txt".to_string()),
        old_start: 1,
        new_start: 1,
    }])
}

fn commit(id: &str, message: &str, diff: Diff, seconds: i64) -> Commit {
    Commit::new(
        id.to_string(),
        message.to_string(),
        diff,
        "author".to_string(),
        "committer".to_string(),
        CommitTime::new(seconds, 0, format!("Time {{ seconds: {seconds} }}")),
        vec![],
    )
}

fn overlap(o: &ChangeOverlap) -> (usize, usize, usize) {
    (o.intersection, o.changes_a, o.changes_b)
}

fn pair_ids(r: &SearchResult) -> (String, String) {
    let pair = r.commit_pair();
    (pair.cherry().id().to_string(), pair.target().id().to_string())
}

fn sample_commits() -> Vec<Commit> {
    vec![
        commit(
            "b",
            "second",
            diff(&[("x", LineType::Addition), ("y", LineType::Addition)]),
            20,
        ),
        commit(
            "a",
            "first",
            diff(&[("  x  ", LineType::Addition), ("ctx", LineType::Context)]),
            10,
        ),
        commit("c", "third", diff(&[("z", LineType::Deletion)]), 30),
    ]
}

#[test]
fn candidate_pair_orders_ids() {
    let p = CandidatePair::new("b", "a");
    assert_eq!((p.0, p.1), ("a", "b"));
    let q = CandidatePair::new("a", "b");
    assert_eq!(p, q);
    let same = CandidatePair::new("ab", "ab");
    assert_eq!((same.0, same.1), ("ab", "ab"));
    // a prefix comes first
    let prefix = CandidatePair::new("abc", "ab");
    assert_eq!((prefix.0, prefix.1), ("ab", "abc"));
}

#[test]
fn index_pairs_commits_that_share_a_change() {
    let commits = sample_commits();
    let mut index = Index::new();
    for c in &commits {
        index.insert(c);
    }
    let pairs: Vec<(&str, &str)> = index.candidate_pairs().iter().map(|p| (p.0, p.1)).collect();
    // "x" is added in both a and b (trimmed), nothing else is shared
    assert_eq!(pairs, vec![("a", "b")]);

    let mut comparator = ChangeSimilarityComparator::new();
    let rated = index.candidates(&mut comparator);
    assert_eq!(rated.len(), 1);
    assert_eq!(rated[0].0.id(), "a");
    assert_eq!(rated[0].1.id(), "b");
    assert_eq!(overlap(&rated[0].2), (1, 1, 2));
}

#[test]
fn index_without_shared_changes_has_no_candidates() {
    let commits = vec![
        commit("a", "m", diff(&[("x", LineType::Addition)]), 1),
        // the same content with another line type is another change
        commit("b", "m", diff(&[("x", LineType::Deletion)]), 2),
        commit("c", "m", diff(&[("x", LineType::Context)]), 3),
    ];
    let mut index = Index::new();
    for c in &commits {
        index.insert(c);
    }
    assert!(index.candidate_pairs().is_empty());
    let mut comparator = ChangeSimilarityComparator::new();
    assert!(index.candidates(&mut comparator).is_empty());
}

#[test]
fn index_pairs_every_two_commits_of_a_change_once() {
    let commits = vec![
        commit("c3", "m", diff(&[("x", LineType::Addition), ("y", LineType::Addition)]), 3),
        commit("c1", "m", diff(&[("x", LineType::Addition), ("y", LineType::Addition)]), 1),
        commit("c2", "m", diff(&[("x", LineType::Addition)]), 2),
        // inserting a commit twice adds no pair of it with itself
        commit("c2", "m", diff(&[("x", LineType::Addition)]), 2),
    ];
    let mut index = Index::new();
    for c in &commits {
        index.insert(c);
    }
    let mut pairs: Vec<(&str, &str)> = index.candidate_pairs().iter().map(|p| (p.0, p.1)).collect();
    pairs.sort();
    assert_eq!(pairs, vec![("c1", "c2"), ("c1", "c3"), ("c2", "c3")]);
}

#[test]
fn brute_force_rates_each_pair_of_distinct_ids_once() {
    let commits = sample_commits();
    let rated = brute_force_search(&commits);
    let found: Vec<(usize, usize, (usize, usize, usize))> =
        rated.iter().map(|(i, j, o)| (*i, *j, overlap(o))).collect();
    assert_eq!(
        found,
        vec![(0, 1, (1, 2, 1)), (0, 2, (0, 2, 1)), (1, 2, (0, 1, 1))]
    );
    assert_eq!(BruteForceMatch().name(), "BruteForce");
}

#[test]
fn brute_force_skips_repeated_ids() {
    let d = diff(&[("x", LineType::Addition)]);
    let commits = vec![
        commit("a", "m", d.clone(), 1),
        commit("b", "m", d.clone(), 2),
        commit("a", "m", d.clone(), 1),
    ];
    let found: Vec<(usize, usize, (usize, usize, usize))> = brute_force_search(&commits)
        .iter()
        .map(|(i, j, o)| (*i, *j, overlap(o)))
        .collect();
    // the second "a" is never the first of a pair, nor paired with the first "a"
    assert_eq!(found, vec![(0, 1, (1, 1, 1)), (1, 2, (1, 1, 1))]);
    assert!(brute_force_search(&[]).is_empty());
}

#[test]
fn naive_search_pairs_commits_with_equal_messages() {
    let d = diff(&[("x", LineType::Addition)]);
    let commits = vec![
        commit("new", "fix: typo", d.clone(), 20),
        commit("old", "fix: typo", d.clone(), 10),
        commit("other", "feat: more", d.clone(), 30),
        commit("new", "fix: typo", d.clone(), 20),
    ];
    let results = NaiveSearch().search(&commits);
    assert_eq!(results.len(), 1);
    assert_eq!(results[0].search_method(), "NaiveSearch");
    assert_eq!(pair_ids(&results[0]), ("old".to_string(), "new".to_string()));
    assert_eq!(NaiveSearch().name(), "NAIVE_SEARCH");
}

#[test]
fn neighbours_are_rated_in_order_without_self_pairs() {
    let commits = sample_commits();
    // each commit is its own nearest neighbour, as an index would return it
    let neighbours = vec![vec![0, 1, 2], vec![1, 0], vec![2]];
    let found: Vec<(usize, usize, (usize, usize, usize))> = rate_neighbours(&commits, &neighbours, SelfMatch::SameId)
        .iter()
        .map(|(i, j, o)| (*i, *j, overlap(o)))
        .collect();
    assert_eq!(
        found,
        vec![(0, 1, (1, 2, 1)), (0, 2, (0, 2, 1)), (1, 0, (1, 1, 2))]
    );
    assert!(rate_neighbours(&commits, &vec![], SelfMatch::SameId).is_empty());
}

#[test]
fn unique_commits_keep_the_first_of_each_id() {
    let d = diff(&[("x", LineType::Addition)]);
    let commits = vec![
        commit("a", "first a", d.clone(), 1),
        commit("b", "b", d.clone(), 2),
        commit("a", "second a", d.clone(), 3),
        commit("c", "c", d.clone(), 4),
        commit("b", "second b", d.clone(), 5),
    ];
    let unique = unique_commits(commits);
    let kept: Vec<(&str, &str)> = unique.iter().map(|c| (c.id(), c.message())).collect();
    assert_eq!(kept, vec![("a", "first a"), ("b", "b"), ("c", "c")]);
    assert!(unique_commits(vec![]).is_empty());
}

fn ids(v: &[&str]) -> Vec<String> {
    v.iter().map(|s| s.to_string()).collect()
}

#[test]
fn history_walk_visits_level_by_level_each_commit_once() {
    let mut walk = HistoryWalk::new("e".to_string(), ids(&["d"]));
    assert_eq!(walk.next(), Some("d".to_string()));
    // a merge commit is collected like any other
    walk.visit(ids(&["c", "b"]));
    assert_eq!(walk.next(), Some("c".to_string()));
    walk.visit(ids(&["a"]));
    assert_eq!(walk.next(), Some("b".to_string()));
    walk.visit(ids(&["a"]));
    assert_eq!(walk.next(), Some("a".to_string()));
    walk.visit(vec![]);
    // the second "a" of the level has been seen
    assert_eq!(walk.next(), None);
    assert_eq!(walk.next(), None);
    assert_eq!(walk.collected, ids(&["e", "d", "c", "b", "a"]));
}

#[test]
fn history_walk_of_a_root_commit() {
    let mut walk = HistoryWalk::new("root".to_string(), vec![]);
    assert_eq!(walk.next(), None);
    assert_eq!(walk.collected, ids(&["root"]));
}

#[test]
fn lsh_rates_candidate_pairs_of_different_ids() {
    let commits = vec![
        commit("a", "m", diff(&[("x", LineType::Addition)]), 1),
        commit(
            "b",
            "m",
            diff(&[("x", LineType::Addition), ("y", LineType::Addition), ("c", LineType::Context)]),
            2,
        ),
        commit("a", "m", diff(&[("z", LineType::Deletion)]), 3),
    ];
    let lsh = TraditionalLSH::new(3, 4, 2);
    let mut comparator = DiffSimilarity::new();
    let rated = lsh.rate_candidates(&[IdPair::new(1, 0), IdPair::new(0, 2)], &commits, &mut comparator);
    let found: Vec<((usize, usize), (usize, usize, usize, usize))> = rated
        .iter()
        .map(|(p, c)| {
            (
                (p.0, p.1),
                (c.intersection_changes, c.union_changes, c.intersection_diff, c.union_diff),
            )
        })
        .collect();
    // the pair of the two commits with id "a" is left out
    assert_eq!(found, vec![((0, 1), (1, 2, 1, 3))]);
}

#[test]
fn lsh_always_pairs_commits_with_the_same_diff_text() {
    let same = diff(&[("fn main() {}", LineType::Addition)]);
    let commits = vec![
        commit("a", "m", same.clone(), 1),
        commit("b", "m", same.clone(), 2),
        commit("c", "m", diff(&[("something else entirely", LineType::Deletion)]), 3),
    ];
    let lsh = TraditionalLSH::new(2, 4, 2);
    for _ in 0..5 {
        let mut comparator = DiffSimilarity::new();
        let rated = lsh.rated_candidates(&commits, &mut comparator);
        let found: Vec<((usize, usize), (usize, usize, usize, usize))> = rated
            .iter()
            .map(|(p, c)| {
                (
                    (p.0, p.1),
                    (c.intersection_changes, c.union_changes, c.intersection_diff, c.union_diff),
                )
            })
            .collect();
        assert!(found.contains(&((0, 1), (1, 1, 1, 1))));
        assert!(found.iter().all(|((a, b), _)| a < b && *b < commits.len()));
    }
}

#[test]
fn ann_index_search() {
    let index = Index::new();
    assert!(index.candidate_pairs().is_empty());
    let mut comparator = ChangeSimilarityComparator::new();
    assert!(index.candidates(&mut comparator).is_empty());
}

#[test]
fn equal_commit_skip_passes_over_only_whole_copies() {
    let d = || diff(&[("x", LineType::Addition)]);
    // the same id on two branches, with another message: not equal as whole commits
    let commits = vec![commit("a", "one", d(), 10), commit("a", "two", d(), 10), commit("a", "one", d(), 10)];
    let neighbours = vec![vec![0, 1, 2]];
    let by_id: Vec<(usize, usize)> = rate_neighbours(&commits, &neighbours, SelfMatch::SameId)
        .iter()
        .map(|(i, j, _)| (*i, *j))
        .collect();
    assert!(by_id.is_empty());
    let by_commit: Vec<(usize, usize)> = rate_neighbours(&commits, &neighbours, SelfMatch::EqualCommit)
        .iter()
        .map(|(i, j, _)| (*i, *j))
        .collect();
    assert_eq!(by_commit, vec![(0, 1)]);
}

#[test]
fn index_finds_every_pair_that_brute_force_finds_overlapping() {
    let commits = vec![
        commit("a", "m", diff(&[("x", LineType::Addition), ("y", LineType::Deletion)]), 1),
        commit("b", "m", diff(&[("  x", LineType::Addition), ("z", LineType::Addition)]), 2),
        commit("c", "m", diff(&[("y", LineType::Deletion)]), 3),
        commit("d", "m", diff(&[("w", LineType::Addition)]), 4),
    ];
    let mut brute: Vec<(String, String)> = brute_force_search(&commits)
        .iter()
        .filter(|(_, _, o)| overlap(o).0 > 0)
        .map(|(i, j, _)| {
            let (x, y) = (commits[*i].id().to_string(), commits[*j].id().to_string());
            if x < y { (x, y) } else { (y, x) }
        })
        .collect();
    brute.sort();
    let mut index = Index::new();
    for c in &commits {
        index.insert(c);
    }
    let mut comparator = ChangeSimilarityComparator::new();
    let mut indexed: Vec<(String, String)> = index
        .candidates(&mut comparator)
        .iter()
        .filter(|(_, _, o)| overlap(o).0 > 0)
        .map(|(a, b, _)| (a.id().to_string(), b.id().to_string()))
        .collect();
    indexed.sort();
    assert_eq!(brute, vec![("a".to_string(), "b".to_string()), ("a".to_string(), "c".to_string())]);
    assert_eq!(indexed, brute);
}
