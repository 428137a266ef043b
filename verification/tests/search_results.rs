use cherry_harvest::git::{Commit, CommitTime, Diff};
use cherry_harvest::search::{CherryAndTarget, CommitMetadata, SearchResult};
use std::collections::HashSet;

#[test]
fn same_result_same_hash() {
    let create_a = || CommitMetadata {
        id: "aaa".to_string(),
        parent_ids: vec![],
        message: "aaa".to_string(),
        author: "aaa".to_string(),
        committer: "aaa".to_string(),
        time: "aaa".to_string(),
    };
    let create_b = || CommitMetadata {
        id: "aba".to_string(),
        parent_ids: vec![],
        message: "aba".to_string(),
        author: "aba".to_string(),
        committer: "aba".to_string(),
        time: "aba".to_string(),
    };

    let result_a = SearchResult {
        search_method: "TEST".to_string(),
        cherry_and_target: CherryAndTarget {
            cherry: create_a(),
            target: create_b(),
        },
    };

    let result_b = SearchResult {
        search_method: "TEST".to_string(),
        cherry_and_target: CherryAndTarget {
            cherry: create_a(),
            target: create_b(),
        },
    };

    let mut set = HashSet::new();
    set.insert(result_a);
    set.insert(result_b);

    assert_eq!(set.len(), 1);
}

fn commit(id: &str, seconds: i64, offset: i32) -> Commit {
    Commit::new(
        id.to_string(),
        format!("message of {id}"),
        Diff::empty(),
        "author".to_string(),
        "committer".to_string(),
        CommitTime::new(seconds, offset, format!("Time {{ seconds: {seconds}, offset: {offset} }}")),
        vec!["parent".to_string()],
    )
}

#[test]
fn the_older_commit_is_the_cherry_in_either_order() {
    let old = commit("old", 10, 0);
    let new = commit("new", 20, 0);
    for pair in [CherryAndTarget::construct(&old, &new), CherryAndTarget::construct(&new, &old)] {
        assert_eq!(pair.cherry().id(), "old");
        assert_eq!(pair.target().id(), "new");
        let ids: Vec<&str> = pair.as_vec().iter().map(|m| m.id()).collect();
        assert_eq!(ids, vec!["old", "new"]);
    }
    // at the same second, the smaller time zone offset comes first
    let west = commit("west", 10, -60);
    let east = commit("east", 10, 60);
    assert_eq!(CherryAndTarget::construct(&east, &west).cherry().id(), "west");
    // where neither is older, the second one is the cherry
    let twin = commit("twin", 10, -60);
    assert_eq!(CherryAndTarget::construct(&west, &twin).cherry().id(), "twin");
}

#[test]
fn metadata_keeps_what_the_commit_says() {
    let c = commit("abc", 5, 120);
    let pair = CherryAndTarget::new(&c, &c);
    let parts = pair.into_vec();
    assert_eq!(parts.len(), 2);
    let m = &parts[0];
    assert_eq!(m.id(), "abc");
    assert_eq!(m.message(), "message of abc");
    assert_eq!(m.author(), "author");
    assert_eq!(m.committer(), "committer");
    assert_eq!(m.time(), "Time { seconds: 5, offset: 120 }");
    assert_eq!(m.parent_ids(), &["parent".to_string()]);
    assert_eq!(parts[0], parts[1]);
}

#[test]
fn commits_are_equal_whatever_their_times() {
    assert_eq!(commit("abc", 5, 0), commit("abc", 99, 60));
    assert_ne!(commit("abc", 5, 0), commit("abd", 5, 0));
}
