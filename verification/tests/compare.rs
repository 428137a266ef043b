use cherry_harvest::git::{Commit, CommitTime, Diff, IdeaPatch};
use cherry_harvest::search::methods::lsh::{DiffSimilarity, JaccardCounts};
use cherry_harvest::search::methods::similar_diff::compare::{ChangeOverlap, ChangeSimilarityComparator};

fn diff(patch: &str) -> Diff {
    Diff::from_idea_patch(IdeaPatch(patch.to_string()))
}

fn cherry_a() -> Diff {
    diff(CHERRY_A)
}

fn cherry_b() -> Diff {
    diff(CHERRY_B)
}

fn pick_a() -> Diff {
    diff(PICK_A)
}

fn pick_b() -> Diff {
    diff(PICK_B)
}

fn isolated_a() -> Diff {
    diff(ISOLATED_COMMIT_A)
}

fn isolated_b() -> Diff {
    diff(ISOLATED_COMMIT_B)
}

fn jaccard(c: JaccardCounts) -> f64 {
    let jaccard_changes = c.intersection_changes as f64 / c.union_changes as f64;
    let jaccard_diff = c.intersection_diff as f64 / c.union_diff as f64;
    (jaccard_changes + jaccard_diff) / 2.0
}

fn overlap(o: ChangeOverlap) -> f64 {
    let a = o.intersection as f64 / o.changes_a as f64;
    let b = o.intersection as f64 / o.changes_b as f64;
    f64::max(a, b)
}

fn similarity(a: &Diff, b: &Diff) -> f64 {
    let a = DiffSimilarity::counted_lines(a);
    let b = DiffSimilarity::counted_lines(b);
    jaccard(DiffSimilarity::diff_similarity(&a, &b))
}

fn change_similarity(a: &Diff, b: &Diff) -> f64 {
    overlap(ChangeSimilarityComparator::new().change_similarity(a, b))
}

#[test]
fn compare_debug_diff_parsing() {
    for d in [cherry_a(), cherry_b(), pick_a(), pick_b(), isolated_a(), isolated_b()] {
        assert!(!d.to_text().is_empty());
    }
}

#[test]
fn compare_exact_diff_max_similar() {
    const TARGET_SIMILARITY: f64 = 0.99999;
    for d in [cherry_a(), cherry_b(), pick_a(), pick_b(), isolated_a(), isolated_b()] {
        assert!(similarity(&d, &d) > TARGET_SIMILARITY);
    }
}

#[test]
fn compare_cherry_and_pick_similar() {
    const TARGET_SIMILARITY: f64 = 0.5;
    let (c_a, c_b, p_a, p_b) = (cherry_a(), cherry_b(), pick_a(), pick_b());

    // assert high similarity
    assert!(similarity(&c_a, &p_a) > TARGET_SIMILARITY);
    assert!(similarity(&c_b, &p_b) > TARGET_SIMILARITY);

    // assert order invariance
    assert_eq!(similarity(&c_a, &p_a), similarity(&p_a, &c_a));
    assert_eq!(similarity(&c_b, &p_b), similarity(&p_b, &c_b));
}

#[test]
fn compare_non_cherries_not_similar() {
    const TARGET_SIMILARITY: f64 = 0.5;
    let diffs = [cherry_a(), pick_b(), isolated_a(), isolated_b()];

    for (id, first) in diffs.iter().enumerate() {
        for second in &diffs[(id + 1)..] {
            assert!(similarity(first, second) < TARGET_SIMILARITY);
        }
    }
}

#[test]
fn changes_exact_diff_max_similar() {
    const TARGET_SIMILARITY: f64 = 0.99999;
    for d in [cherry_a(), cherry_b(), pick_a(), pick_b(), isolated_a(), isolated_b()] {
        assert!(change_similarity(&d, &d) > TARGET_SIMILARITY);
    }
}

#[test]
fn changes_cherry_and_pick_similar() {
    const TARGET_SIMILARITY: f64 = 0.5;
    let (c_a, c_b, p_a, p_b) = (cherry_a(), cherry_b(), pick_a(), pick_b());
    assert!(change_similarity(&c_a, &p_a) > TARGET_SIMILARITY);
    assert!(change_similarity(&c_b, &p_b) > TARGET_SIMILARITY);
    assert_eq!(change_similarity(&c_a, &p_a), change_similarity(&p_a, &c_a));
    assert_eq!(change_similarity(&c_b, &p_b), change_similarity(&p_b, &c_b));
}

#[test]
fn changes_non_cherries_not_similar() {
    const TARGET_SIMILARITY: f64 = 0.5;
    let diffs = [cherry_a(), pick_b(), isolated_a(), isolated_b()];
    for (id, first) in diffs.iter().enumerate() {
        for second in &diffs[(id + 1)..] {
            assert!(change_similarity(first, second) < TARGET_SIMILARITY);
        }
    }
}

#[test]
fn extracted_changes_carry_their_counts() {
    let changes = ChangeSimilarityComparator::extract_changes(&cherry_b());
    assert!(changes.contains(&"-|>>1<<|".to_string()));
    assert!(changes.contains(&"-|>>2<<|".to_string()));
    assert!(changes.contains(&"-}|>>3<<|".to_string()));
    assert!(changes.contains(&"-fn foo() {|>>1<<|".to_string()));
    assert_eq!(changes.len(), 15);
}

#[test]
fn counted_lines_count_repetitions() {
    let lines = DiffSimilarity::counted_lines(&cherry_b());
    let closing: Vec<usize> = lines
        .iter()
        .filter(|l| l.content == "}")
        .map(|l| l.count)
        .collect();
    assert_eq!(closing, vec![1, 2, 1, 2, 3]);
    let counts = DiffSimilarity::diff_similarity(&lines, &lines);
    assert_eq!(counts.intersection_diff, lines.len());
    assert_eq!(counts.union_diff, lines.len());
    assert_eq!(counts.intersection_changes, 15);
}

#[test]
fn change_similarity_keeps_counted_lines_by_commit() {
    let a = Commit::new("a".to_string(), String::new(), cherry_a(), String::new(), String::new(),
        CommitTime::new(1, 0, String::new()), vec![]);
    let b = Commit::new("b".to_string(), String::new(), pick_a(), String::new(), String::new(),
        CommitTime::new(2, 0, String::new()), vec![]);
    let mut comparator = DiffSimilarity::new();
    let first = comparator.change_similarity(&a, &b);
    let second = comparator.change_similarity(&b, &a);
    assert_eq!(first.intersection_diff, second.intersection_diff);
    assert_eq!(first.union_diff, second.union_diff);
    assert_eq!(jaccard(first), similarity(&cherry_a(), &pick_a()));
}

const CHERRY_A: &str = r#"Subject: [PATCH] feat: added logging
---
Index: src/main.rs
IDEA additional info:
Subsystem: com.intellij.openapi.diff.impl.patch.CharsetEP
<+>UTF-8
===================================================================
diff --git a/src/main.rs b/src/main.rs
--- a/src/main.rs	(revision 64b6df22082134b29522f9ed7be2f278c0f12894)
+++ b/src/main.rs	(revision b7d2e4b330165ae92e4442fb8ccfa067acd62d44)
@@ -1,5 +1,10 @@
+#[macro_use]
+extern crate log;
+
 fn main() {
-    println!("Hello, world!");
+    env_logger::init();
+
+    info!("starting up");
 
     let mut x = 0;
"#;

const PICK_A: &str = r#"
Subject: [PATCH] feat: added logging
---
Index: src/main.rs
IDEA additional info:
Subsystem: com.intellij.openapi.diff.impl.patch.CharsetEP
<+>UTF-8
===================================================================
diff --git a/src/main.rs b/src/main.rs
--- a/src/main.rs	(revision 4e39e242712568e6f9f5b6ff113839603b722683)
+++ b/src/main.rs	(revision 018a1bde4fb5e987157a6e8f07a7d378d5f19484)
@@ -1,8 +1,12 @@
        mod dev;
        mod error;
+       #[macro_use]
+       extern crate log;
        
        fn main() {
-           println!("Hello, world!");
+           env_logger::init();
+       
+           info!("starting up");
        
            let mut x = 1;
"#;

const CHERRY_B: &str = r#"
Subject: [PATCH] feat: removed functions
---
Index: src/main.rs
IDEA additional info:
Subsystem: com.intellij.openapi.diff.impl.patch.CharsetEP
<+>UTF-8
===================================================================
diff --git a/src/main.rs b/src/main.rs
--- a/src/main.rs	(revision 3d4a3d51f625a660587ec92e186a5fd458841638)
+++ b/src/main.rs	(revision 4e39e242712568e6f9f5b6ff113839603b722683)
@@ -15,18 +15,3 @@
         println!("So much!");
     }
 }
-
-fn foo() {
-    println!("foo!");
-}
-
-fn faz() {
-    bar(4);
-    println!("faz: {}", 22);
-}
-
-fn bar(x: i32) {
-    let y = 7;
-    let z = x + y;
-    println!("z: {}", z);
-}
"#;

const PICK_B: &str = r#"
Subject: [PATCH] feat: removed functions
---
Index: src/main.rs
IDEA additional info:
Subsystem: com.intellij.openapi.diff.impl.patch.CharsetEP
<+>UTF-8
===================================================================
diff --git a/src/main.rs b/src/main.rs
--- a/src/main.rs	(revision 60043f22f2c933ee8c67697466dfba2679e0307d)
+++ b/src/main.rs	(revision dd594eff3dcb36e5f4bbe47176b94f6011993c71)
@@ -15,18 +15,3 @@
         println!("So much!");
     }
 }
-
-fn foo() {
-    println!("foo!");
-}
-
-fn faz() {
-    bar(4);
-    println!("faz: {}", 22);
-}
-
-fn bar(x: i32) {
-    let y = 7;
-    let z = x + y;
-    println!("z: {}", z);
-}
"#;

const ISOLATED_COMMIT_A: &str = r#"
Subject: [PATCH] feat: added faz
---
Index: src/main.rs
IDEA additional info:
Subsystem: com.intellij.openapi.diff.impl.patch.CharsetEP
<+>UTF-8
===================================================================
diff --git a/src/main.rs b/src/main.rs
--- a/src/main.rs	(revision 1e20f7ffc9af05fac517d948404ca75ac446c792)
+++ b/src/main.rs	(revision dc51211272b62f24b955429103e5588973f0c202)
@@ -20,3 +20,7 @@
 fn foo () {
     println!("foo!");
 }
+
+fn faz() {
+    println!("faz");
+}
"#;

const ISOLATED_COMMIT_B: &str = r#"
Subject: [PATCH] feat: added counting
---
Index: src/main.rs
IDEA additional info:
Subsystem: com.intellij.openapi.diff.impl.patch.CharsetEP
<+>UTF-8
===================================================================
diff --git a/src/main.rs b/src/main.rs
--- a/src/main.rs	(revision 271b69cba8d5f62a65ffe8b5cd355a64ead1eaf4)
+++ b/src/main.rs	(revision a51792eb2dc04466bf3acbf2608225c76785e9cd)
@@ -1,7 +1,15 @@
 fn main() {
     println!("Hello, world!");
 
+    let x = 0;
+
     for i in 1..10 {
         println!("At {}", i);
+        x += i;
+    };
+
+
+    if x > 10 {
+        println!("So much!");
     }
 }
"#;


#[test]
fn change_overlap_is_symmetric_bounded_and_full_on_itself() {
    let mut comparator = ChangeSimilarityComparator::new();
    let ab = comparator.change_similarity(&cherry_a(), &isolated_b());
    let ba = comparator.change_similarity(&isolated_b(), &cherry_a());
    assert_eq!(ab.intersection, ba.intersection);
    assert_eq!((ab.changes_a, ab.changes_b), (ba.changes_b, ba.changes_a));
    assert!(ab.intersection <= ab.changes_a && ab.intersection <= ab.changes_b);
    let aa = comparator.change_similarity(&cherry_a(), &cherry_a());
    assert_eq!(aa.intersection, aa.changes_a);
    assert!(aa.changes_a > 0);
    // a fresh comparator gives the same overlap as one that has cached both diffs
    let fresh = ChangeSimilarityComparator::new().change_similarity(&cherry_a(), &isolated_b());
    assert_eq!(
        (fresh.intersection, fresh.changes_a, fresh.changes_b),
        (ab.intersection, ab.changes_a, ab.changes_b)
    );
}
