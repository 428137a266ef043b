use cherry_harvest::git::{
    compare_hunks_exec, sort_hunks, Commit, CommitTime, Diff, DiffLine, Hunk, IdeaPatch, LineType,
    PatchHunk, PatchLine,
};
use cherry_harvest::search::methods::exact_diff::ExactDiffMatch;
use cherry_harvest::search::methods::message_scan::MessageScan;
use cherry_harvest::search::SearchResult;

fn hunk(lines: &[(&str, LineType)], old_start: u32) -> Hunk {
    Hunk {
        body: lines
            .iter()
            .map(|(c, t)| DiffLine::new(c.to_string(), *t))
            .collect(),
        header: format!("@@ -{old_start},1 +{old_start},1 @@\n"),
        old_file: Some("src/main.rs".to_string()),
        new_file: Some("src/main.rs".to_string()),
        old_start,
        new_start: old_start,
    }
}

fn diff(lines: &[(&str, LineType)], old_start: u32) -> Diff {
    Diff::from_hunks(vec![hunk(lines, old_start)])
}

fn commit(id: &str, message: &str, diff: Diff, seconds: i64) -> Commit {
    Commit::new(
        id.to_string(),
        message.to_string(),
        diff,
        "author".to_string(),
        "committer".to_string(),
        CommitTime::new(seconds, 0, format!("Time {{ seconds: {seconds} }}")),
        vec![],
    )
}

fn pair_ids(r: &SearchResult) -> (String, String) {
    let pair = r.commit_pair();
    (pair.cherry().id().to_string(), pair.target().id().to_string())
}

const CHERRY_ID: &str = "b7d2e4b330165ae92e4442fb8ccfa067acd62d44";
const PICK_ID: &str = "018a1bde4fb5e987157a6e8f07a7d378d5f19484";
const OTHER_ID: &str = "4e39e242712568e6f9f5b6ff113839603b722683";

#[test]
fn metadata_and_diff() {}

#[test]
fn message_scan_finds_recorded_picks() {
    let d = diff(&[("x", LineType::Addition)], 1);
    let commits = vec![
        commit(CHERRY_ID, "feat: added logging", d.clone(), 10),
        commit(
            PICK_ID,
            &format!("feat: added logging\n\n(cherry picked from commit {CHERRY_ID})"),
            d.clone(),
            20,
        ),
        commit(OTHER_ID, "unrelated", d.clone(), 30),
    ];
    let results = MessageScan::default().search(&commits);
    assert_eq!(results.len(), 1);
    assert_eq!(results[0].search_method(), "MessageScan");
    assert_eq!(
        pair_ids(&results[0]),
        (CHERRY_ID.to_string(), PICK_ID.to_string())
    );
}

#[test]
fn message_scan_reads_ids_in_any_case_and_abbreviated() {
    let d = diff(&[("x", LineType::Addition)], 1);
    let upper = CHERRY_ID.to_uppercase();
    let commits = vec![
        commit(CHERRY_ID, "cherry", d.clone(), 10),
        commit(PICK_ID, &format!("(cherry picked from commit {upper})"), d.clone(), 20),
        // an abbreviated id names the object id padded with zeros, which is no commit here
        commit(OTHER_ID, "(cherry picked from commit b7d2e4b)", d.clone(), 30),
    ];
    let results = MessageScan::default().search(&commits);
    assert_eq!(results.len(), 1);
    assert_eq!(
        pair_ids(&results[0]),
        (CHERRY_ID.to_string(), PICK_ID.to_string())
    );
}

#[test]
fn message_scan_ignores_unknown_and_unclosed_ids() {
    let d = diff(&[("x", LineType::Addition)], 1);
    let commits = vec![
        commit(CHERRY_ID, &format!("(cherry picked from commit {OTHER_ID})"), d.clone(), 10),
        commit(PICK_ID, &format!("(cherry picked from commit {CHERRY_ID}"), d.clone(), 20),
    ];
    assert!(MessageScan::default().search(&commits).is_empty());
    assert_eq!(MessageScan::default().name(), "MessageScan");
}

#[test]
fn exact_diff_pairs_commits_with_equal_diffs() {
    let same = diff(&[("fn main() {", LineType::Context), ("x", LineType::Addition)], 1);
    // the start lines and header do not take part in the comparison
    let same_elsewhere = diff(&[("fn main() {", LineType::Context), ("x", LineType::Addition)], 40);
    let other = diff(&[("y", LineType::Deletion)], 1);
    let commits = vec![
        commit(PICK_ID, "b", same.clone(), 20),
        commit(CHERRY_ID, "a", same_elsewhere, 10),
        commit(OTHER_ID, "c", other, 5),
        // the same commit on another branch is no cherry-pick
        commit(PICK_ID, "b", same.clone(), 20),
    ];
    let results = ExactDiffMatch::default().search(&commits);
    assert_eq!(results.len(), 1);
    assert_eq!(results[0].search_method(), "ExactDiffMatch");
    // the older commit is the cherry
    assert_eq!(
        pair_ids(&results[0]),
        (CHERRY_ID.to_string(), PICK_ID.to_string())
    );
    assert_eq!(ExactDiffMatch::default().name(), "ExactDiffMatch");
}

#[test]
fn exact_diff_pairs_all_commits_of_a_group() {
    let same = diff(&[("x", LineType::Addition)], 1);
    let commits = vec![
        commit("c1", "a", same.clone(), 1),
        commit("c2", "b", same.clone(), 2),
        commit("c3", "c", same.clone(), 3),
    ];
    let mut pairs: Vec<(String, String)> = ExactDiffMatch::default()
        .search(&commits)
        .iter()
        .map(pair_ids)
        .collect();
    pairs.sort();
    assert_eq!(
        pairs,
        vec![
            ("c1".to_string(), "c2".to_string()),
            ("c1".to_string(), "c3".to_string()),
            ("c2".to_string(), "c3".to_string()),
        ]
    );
}

#[test]
fn exact_diff_compares_the_hunk_bodies_alone() {
    let lines = [("x", LineType::Addition)];
    let mut renamed = hunk(&lines, 1);
    renamed.old_file = Some("src/lib.rs".to_string());
    renamed.new_file = Some("src/lib.rs".to_string());
    let commits = vec![
        commit(CHERRY_ID, "a", diff(&lines, 1), 10),
        commit(PICK_ID, "b", Diff::from_hunks(vec![renamed]), 20),
        commit(OTHER_ID, "c", diff(&[("x", LineType::Deletion)], 1), 30),
    ];
    let results = ExactDiffMatch::default().search(&commits);
    assert_eq!(results.len(), 1);
    assert_eq!(
        pair_ids(&results[0]),
        (CHERRY_ID.to_string(), PICK_ID.to_string())
    );
}

fn patch_line(file: &str, header: Option<&str>, origin: char, content: &str) -> PatchLine {
    PatchLine {
        old_file: Some(file.to_string()),
        new_file: Some(file.to_string()),
        hunk: header.map(|h| PatchHunk { header: h.to_string(), old_start: 1, new_start: 1 }),
        origin,
        content: content.to_string(),
    }
}

#[test]
fn patch_lines_of_two_files_with_the_same_header_make_two_hunks() {
    let header = "@@ -1 +1 @@\n";
    let lines = vec![
        patch_line("x", None, 'F', "diff --git a/x b/x\n"),
        patch_line("x", Some(header), 'H', header),
        patch_line("x", Some(header), '-', "a\n"),
        patch_line("y", Some(header), 'H', header),
        patch_line("y", Some(header), '+', "b\n"),
        patch_line("x", Some(header), '+', "c\n"),
    ];
    let d = Diff::from_patch_lines(&lines);
    assert_eq!(d.hunks.len(), 2);
    let x = &d.hunks[0];
    assert_eq!(x.old_file().as_deref(), Some("x"));
    assert_eq!(
        x.body(),
        &vec![
            DiffLine::new("a\n".to_string(), LineType::Deletion),
            DiffLine::new("c\n".to_string(), LineType::Addition)
        ]
    );
    let y = &d.hunks[1];
    assert_eq!(y.new_file().as_deref(), Some("y"));
    assert_eq!(y.body(), &vec![DiffLine::new("b\n".to_string(), LineType::Addition)]);
}

#[test]
fn idea_patch_hunks_take_their_start_lines_from_the_header() {
    let q = IdeaPatch("diff --git a/x b/x\n--- a/x\n+++ b/x\n@@ -1 +1 @@\n-a\n@@ -5 +5 @@\n+b".to_string());
    let d = Diff::from_idea_patch(q);
    assert_eq!(d.hunks.len(), 2);
    assert_eq!((d.hunks[0].old_start(), d.hunks[0].new_start()), (1, 1));
    assert_eq!((d.hunks[1].old_start(), d.hunks[1].new_start()), (5, 5));
    let r = IdeaPatch("diff --git a/x b/x\n--- a/x\n+++ b/x\n@@ -15,18 +16,3 @@\n a".to_string());
    let d = Diff::from_idea_patch(r);
    assert_eq!((d.hunks[0].old_start(), d.hunks[0].new_start()), (15, 16));
}

#[test]
fn idea_patch_of_an_added_file_has_no_old_file() {
    let p = IdeaPatch("diff --git a/n b/n\n--- /dev/null\n+++ b/n\n@@ -0,0 +1 @@\n+x".to_string());
    let d = Diff::try_from_idea_patch(&p).expect("the patch is readable");
    assert_eq!(d.hunks.len(), 1);
    assert!(d.hunks[0].old_file().is_none());
    assert_eq!(d.hunks[0].new_file().as_deref(), Some("b/n"));
    assert_eq!(d.hunks[0].body(), &vec![DiffLine::new("x".to_string(), LineType::Addition)]);
    assert_eq!((d.hunks[0].old_start(), d.hunks[0].new_start()), (0, 1));
    // a line that names neither a file nor /dev/null is not readable
    let bad = IdeaPatch("diff --git a/n b/n\n--- nothing\n+++ b/n\n@@ -0,0 +1 @@\n+x".to_string());
    assert!(Diff::try_from_idea_patch(&bad).is_none());
}

fn hunk_in(old_file: &str, new_file: &str) -> Hunk {
    Hunk {
        body: vec![],
        header: "@@ -1,1 +1,1 @@\n".to_string(),
        old_file: Some(old_file.to_string()),
        new_file: Some(new_file.to_string()),
        old_start: 1,
        new_start: 1,
    }
}

#[test]
fn rooted_path_sorts_before_relative_path() {
    assert_eq!(compare_hunks_exec(&hunk_in("/a", "x"), &hunk_in("a", "x")), -1);
    assert_eq!(compare_hunks_exec(&hunk_in("a", "x"), &hunk_in("/a", "x")), 1);
}

#[test]
fn inner_dot_parts_and_repeated_separators_do_not_count() {
    assert_eq!(compare_hunks_exec(&hunk_in("a/./x", "y"), &hunk_in("a/x", "y")), 0);
    assert_eq!(compare_hunks_exec(&hunk_in("a//x/", "y"), &hunk_in("a/x", "y")), 0);
}

#[test]
fn leading_dot_sorts_before_names() {
    assert_eq!(compare_hunks_exec(&hunk_in("./a", "y"), &hunk_in("-", "y")), -1);
    assert_eq!(compare_hunks_exec(&hunk_in("./a", "y"), &hunk_in("a", "y")), -1);
}

#[test]
fn parent_dir_sorts_after_dot_and_before_names() {
    assert_eq!(compare_hunks_exec(&hunk_in("../a", "y"), &hunk_in("./a", "y")), 1);
    assert_eq!(compare_hunks_exec(&hunk_in("../a", "y"), &hunk_in("-", "y")), -1);
    assert_eq!(compare_hunks_exec(&hunk_in("a/..", "y"), &hunk_in("a/-", "y")), -1);
}

#[test]
fn paths_compare_by_components_not_by_characters() {
    // As strings "a-b" < "a/b", but as paths the component "a" comes before "a-b".
    assert_eq!(compare_hunks_exec(&hunk_in("a/b", "y"), &hunk_in("a-b", "y")), -1);
    assert_eq!(compare_hunks_exec(&hunk_in("x", "b"), &hunk_in("x", "a")), 1);
}

#[test]
fn sorting_puts_rooted_paths_first() {
    let sorted = sort_hunks(vec![hunk_in("b", "b"), hunk_in("/z", "z"), hunk_in("a", "a")]);
    let olds: Vec<String> = sorted.iter().map(|h| h.old_file.clone().unwrap()).collect();
    assert_eq!(olds, vec!["/z".to_string(), "a".to_string(), "b".to_string()]);
}

#[test]
fn sorting_keeps_equal_hunks_in_their_order() {
    let mut first = hunk_in("a/./x", "y");
    first.header = "first".to_string();
    let mut second = hunk_in("a/x", "y");
    second.header = "second".to_string();
    let mut before = hunk_in("/a", "y");
    before.header = "before".to_string();
    let sorted = sort_hunks(vec![first.clone(), second.clone(), before.clone()]);
    let headers: Vec<&str> = sorted.iter().map(|h| h.header.as_str()).collect();
    assert_eq!(headers, vec!["before", "first", "second"]);
    let sorted = sort_hunks(vec![second, before, first]);
    let headers: Vec<&str> = sorted.iter().map(|h| h.header.as_str()).collect();
    assert_eq!(headers, vec!["before", "second", "first"]);
}
