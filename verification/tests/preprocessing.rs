use bit_vec::BitVec;
use cherry_harvest::git::{Diff, IdeaPatch};
use cherry_harvest::search::ann::preprocessing as ann;
use cherry_harvest::search::methods::lsh::preprocessing as lsh;

const DIFF: &str = r#"
Subject: [PATCH] feat: removed functions
---
Index: src/main.rs
IDEA additional info:
Subsystem: com.intellij.openapi.diff.impl.patch.CharsetEP
<+>UTF-8
===================================================================
diff --git a/src/main.rs b/src/main.rs
--- a/src/main.rs	(revision 3d4a3d51f625a660587ec92e186a5fd458841638)
+++ b/src/main.rs	(revision 4e39e242712568e6f9f5b6ff113839603b722683)
@@ -15,18 +15,3 @@
         println!("So much!");
     }
 }
-
-fn foo() {
-    println!("foo!");
-}
"#;

const TEXT: &str = r#"
@@ -15,18 +15,3 @@
         println!("So much!");
 }
-fn foo() {
-    println!("bar!");
-}
     }
 }
-fn foo() {
-    println!("bar!");
-}
"#;

const TEXT_CLOSE: &str = r#"
@@ -15,18 +15,3 @@
         println!("So much!");
     }
 }
-fn foo() {
-    println!("bar!");
-}
"#;

const TEXT_FAR: &str = r#"
@@ -1,8 +1,12 @@
 mod dev;
 mod error;
+#[macro_use]
+extern crate log;
 
 fn main() {
-    println!("Hello, world!");
+    env_logger::init();
+
+    info!("starting up");
 
     let mut x = 0;
 
@@ -12,6 +16,6 @@
     }
 
     if x > 7 {
-        println!("So much!");
+        info!("Goodbye!");
     }
 }
 
"#;

const EXPECTED_3_SHINGLE: &str = r#"--- a/src/main.rs+++ b/src/main.rs@@ -15,18 +15,3 @@
+++ b/src/main.rs@@ -15,18 +15,3 @@println!("So much!");
@@ -15,18 +15,3 @@println!("So much!");}
println!("So much!");}}
}}-
}--fn foo() {
--fn foo() {-    println!("foo!");
-fn foo() {-    println!("foo!");-}
-    println!("foo!");-}
-}
"#;

const EXPECTED_1_SHINGLE: &str = r#"--- a/src/main.rs
+++ b/src/main.rs
@@ -15,18 +15,3 @@
println!("So much!");
}
}
-
-fn foo() {
-    println!("foo!");
-}
"#;

fn diff() -> Diff {
    Diff::from_idea_patch(IdeaPatch(DIFF.to_string()))
}

fn count_ones(v: &BitVec) -> usize {
    v.iter().filter(|b| *b).count()
}

#[test]
fn simple_shingle_arity_3() {
    let diff = diff();
    let arity = 3;

    let shingled_diff = ann::shingle_diff(&diff, arity);
    assert_eq!(shingled_diff.to_text(), EXPECTED_3_SHINGLE.to_string());
}

#[test]
fn simple_shingle_arity_1() {
    let diff = diff();
    let arity = 1;

    let shingled_diff = ann::shingle_diff(&diff, arity);
    assert_eq!(shingled_diff.to_text(), EXPECTED_1_SHINGLE.to_string());
}

#[test]
fn line_shingles_without_lines() {
    let shingled = ann::ShingledText::new("", 3);
    assert!(shingled.shingles.is_empty());
    assert_eq!(shingled.to_text(), "");
}

#[test]
fn line_shingles_trim_and_skip_blank_lines() {
    let shingled = ann::ShingledText::new("  a \n\n b\r\nc", 2);
    let texts: Vec<String> = shingled.shingles.iter().map(|s| s.to_text()).collect();
    assert_eq!(texts, vec!["a", "b", "bc", "c"]);
}

#[test]
fn char_shingles_of_short_text_are_empty() {
    let shingled = lsh::ShingledText::new("ab", 3);
    assert_eq!(shingled.to_text(), "EMPTY\n");
    let shingled = lsh::ShingledText::new("abcd", 2);
    assert_eq!(shingled.to_text(), "ab\nbc\ncd\n");
}

#[test]
fn preprocessing_one_hot_with_only_one_diff() {
    // We expect that all values in the one-hot encoding are 1
    let diff = diff();
    let shingled_diff = vec![lsh::shingle_diff(&diff, 3)];

    let vocabulary = lsh::Vocabulary::build(&shingled_diff);
    let one_hot = vocabulary.one_hot(&shingled_diff[0]).unwrap();

    one_hot.iter().for_each(|v| assert!(v));
}

#[test]
fn ann_one_hot_with_only_one_diff() {
    let shingled_diff = vec![ann::shingle_diff(&diff(), 3)];

    let vocabulary = ann::Vocabulary::build(&shingled_diff);
    let one_hot = vocabulary.one_hot(&shingled_diff[0]).unwrap();

    one_hot.iter().for_each(|v| assert!(v));
}

#[test]
fn preprocessing_one_hot_with_two_words() {
    let shingled_texts = vec![
        lsh::ShingledText::new("a\nb\nc", 2),
        lsh::ShingledText::new("b\nc\nd", 2),
    ];

    let vocabulary = lsh::Vocabulary::build(&shingled_texts);
    let one_hot_first = vocabulary.one_hot(&shingled_texts[0]).unwrap();
    let one_hot_second = vocabulary.one_hot(&shingled_texts[1]).unwrap();

    assert_eq!(count_ones(&one_hot_first), 4);
    assert_eq!(count_ones(&one_hot_second), 4);
    assert_eq!(vocabulary.len(), 6);

    let ones_in_intersection = one_hot_first
        .into_iter()
        .zip(one_hot_second.into_iter())
        .map(|(first, second)| first & second)
        .filter(|v| *v)
        .count();
    assert_eq!(ones_in_intersection, 2);
}

#[test]
fn ann_one_hot_with_two_words() {
    let shingled_texts = vec![
        ann::ShingledText::new("a\nb\nc", 2),
        ann::ShingledText::new("b\nc\nd", 2),
    ];

    let vocabulary = ann::Vocabulary::build(&shingled_texts);
    let one_hot_first = vocabulary.one_hot(&shingled_texts[0]).unwrap();
    let one_hot_second = vocabulary.one_hot(&shingled_texts[1]).unwrap();

    assert_eq!(count_ones(&one_hot_first), 3);
    assert_eq!(count_ones(&one_hot_second), 3);
    assert_eq!(vocabulary.len(), 5);

    let ones_in_intersection = one_hot_first
        .into_iter()
        .zip(one_hot_second.into_iter())
        .map(|(first, second)| first & second)
        .filter(|v| *v)
        .count();
    assert_eq!(ones_in_intersection, 1);
}

#[test]
fn unknown_shingle_is_an_error() {
    let known = vec![lsh::ShingledText::new("abc", 1)];
    let vocabulary = lsh::Vocabulary::build(&known);
    let unknown = lsh::ShingledText::new("xyz", 1);
    let error = vocabulary.one_hot(&unknown).unwrap_err();
    assert_eq!(
        error.message(),
        "Shingle in diff not part of vocabulary. Have you used it during vocabulary building?"
    );
    assert!(vocabulary.encode_u32(&unknown).is_err());
}

#[test]
fn vocabulary_indices_are_a_permutation() {
    let texts = vec![lsh::ShingledText::new("abcdef", 1), lsh::ShingledText::new("aabbzz", 2)];
    let vocabulary = lsh::Vocabulary::build(&texts);
    assert!(!vocabulary.is_empty());
    let mut seen: Vec<usize> = Vec::new();
    for text in &texts {
        for s in text.to_text().lines() {
            let i = vocabulary.get(s).unwrap();
            assert!(i < vocabulary.len());
            if !seen.contains(&i) {
                seen.push(i);
            }
        }
    }
    seen.sort();
    assert_eq!(seen, (0..vocabulary.len()).collect::<Vec<usize>>());
}

#[test]
fn encode_u32_gives_the_indices_in_order() {
    let texts = vec![lsh::ShingledText::new("abca", 1)];
    let vocabulary = lsh::Vocabulary::build(&texts);
    let code = vocabulary.encode_u32(&texts[0]).unwrap();
    assert_eq!(code.len(), 4);
    assert_eq!(code[0], vocabulary.get("a").unwrap() as u32);
    assert_eq!(code[1], vocabulary.get("b").unwrap() as u32);
    assert_eq!(code[2], vocabulary.get("c").unwrap() as u32);
    assert_eq!(code[3], code[0]);
}

#[test]
fn preprocessing_text_one_hot_similarity() {
    let shingled_texts = vec![
        lsh::ShingledText::new(TEXT, 2),
        lsh::ShingledText::new(TEXT_CLOSE, 2),
        lsh::ShingledText::new(TEXT_FAR, 2),
    ];

    let vocabulary = lsh::Vocabulary::build(&shingled_texts);
    let one_hot_base = vocabulary.one_hot(&shingled_texts[0]).unwrap();
    let one_hot_close = vocabulary.one_hot(&shingled_texts[1]).unwrap();
    let one_hot_far = vocabulary.one_hot(&shingled_texts[2]).unwrap();

    let one_hot_distance =
        |s1: &BitVec, s2: &BitVec| s1.iter().zip(s2.iter()).filter(|(v1, v2)| v1 != v2).count();

    let distance_close = one_hot_distance(&one_hot_base, &one_hot_close);
    let distance_far = one_hot_distance(&one_hot_base, &one_hot_far);
    assert!(
        distance_close < distance_far,
        "{distance_close}:{distance_far}"
    );
}

#[test]
fn preprocessing_simple_minhash_test() {
    let minhash = lsh::MinHash::new(4, 6);

    let mut one_hot_a = BitVec::from_elem(6, false);
    one_hot_a.set(0, true);
    one_hot_a.set(3, true);
    one_hot_a.set(5, true);
    let mut one_hot_b = BitVec::from_elem(6, false);
    one_hot_b.set(1, true);
    one_hot_b.set(2, true);

    let signature_a = minhash.hash_signature(&one_hot_a);
    let signature_b = minhash.hash_signature(&one_hot_b);
    let signature_a2 = minhash.hash_signature(&one_hot_a);

    assert_eq!(signature_a, signature_a2);
    assert_ne!(signature_a, signature_b);
}

#[test]
fn disjoint_one_hots_differ_at_every_position() {
    let minhash = lsh::MinHash::new(16, 10);
    let mut a = BitVec::from_elem(10, false);
    let mut b = BitVec::from_elem(10, false);
    for i in 0..10 {
        if i % 2 == 0 {
            a.set(i, true);
        } else {
            b.set(i, true);
        }
    }
    let sa = minhash.hash_signature(&a);
    let sb = minhash.hash_signature(&b);
    assert_eq!(sa.len(), 16);
    assert_eq!(sb.len(), 16);
    for (x, y) in sa.iter().zip(sb.iter()) {
        assert_ne!(x, y);
    }
}

#[test]
fn empty_one_hot_has_empty_signature() {
    let minhash = lsh::MinHash::new(5, 4);
    let none = BitVec::from_elem(4, false);
    assert!(minhash.hash_signature(&none).is_empty());
    let all = BitVec::from_elem(4, true);
    // every permutation starts with a set bit
    assert_eq!(minhash.hash_signature(&all), vec![0, 0, 0, 0, 0]);
}

#[test]
fn signatures_of_equal_texts_are_equal() {
    let signatures = lsh::preprocess_texts(&[TEXT, TEXT, TEXT_FAR], 3, 12);
    assert_eq!(signatures.len(), 3);
    assert_eq!(signatures[0], signatures[1]);
    assert_eq!(signatures[0].len(), 12);
    let ann_signatures = ann::preprocess_texts(&[TEXT_CLOSE, TEXT_CLOSE], 2, 7);
    assert_eq!(ann_signatures[0], ann_signatures[1]);
    assert_eq!(ann_signatures[0].len(), 7);
}

#[test]
fn encode_commits_gives_one_code_per_commit() {
    let commits = vec![commit("a", TEXT), commit("b", TEXT_FAR)];
    let codes = lsh::encode_commits_u32(&commits, 3);
    assert_eq!(codes.len(), 2);
    let signatures = lsh::preprocess_commits(&commits, 3, 10);
    assert_eq!(signatures.len(), 2);
}

fn commit(id: &str, patch_body: &str) -> cherry_harvest::git::Commit {
    let _ = patch_body;
    cherry_harvest::git::Commit::new(
        id.to_string(),
        String::new(),
        diff(),
        String::new(),
        String::new(),
        cherry_harvest::git::CommitTime::new(0, 0, String::new()),
        vec![],
    )
}

#[test]
fn preprocessing_text_signature_similarity() {
    let signatures = lsh::preprocess_texts(&[TEXT, TEXT_CLOSE, TEXT_FAR], 3, 8);

    let sig_distance = |s1: &lsh::Signature, s2: &lsh::Signature| {
        s1.iter().zip(s2.iter()).filter(|(v1, v2)| v1 != v2).count()
    };

    let distance_close = sig_distance(&signatures[0], &signatures[1]);
    let distance_far = sig_distance(&signatures[0], &signatures[2]);
    assert!(
        distance_close < distance_far,
        "{distance_close}:{distance_far}"
    );
}

#[test]
fn ann_text_signature_similarity() {
    let signatures = ann::preprocess_texts(&[TEXT, TEXT_CLOSE, TEXT_FAR], 3, 256);

    let sig_distance = |s1: &ann::Signature, s2: &ann::Signature| {
        s1.iter()
            .zip(s2.iter())
            .map(|(v1, v2)| u32::abs_diff(*v1, *v2))
            .sum::<u32>()
    };

    let distance_close = sig_distance(&signatures[0], &signatures[1]);
    let distance_far = sig_distance(&signatures[0], &signatures[2]);
    assert!(
        distance_close < distance_far,
        "{distance_close}:{distance_far}"
    );
}

#[test]
fn vocabulary_is_empty_exactly_without_texts() {
    assert!(lsh::Vocabulary::build(&[]).is_empty());
    let texts = [lsh::shingle_text("ab", 3)];
    let v = lsh::Vocabulary::build(&texts);
    assert!(!v.is_empty());
    assert_eq!(v.len(), 1);
}

#[test]
fn vocabulary_of_default_texts_is_empty() {
    let none: Vec<lsh::ShingledText> = vec![];
    assert!(lsh::Vocabulary::build(&none).is_empty());
    // even an empty text has a shingle, so a vocabulary of some texts is never empty
    let texts = vec![lsh::ShingledText::new("", 3)];
    let vocabulary = lsh::Vocabulary::build(&texts);
    assert!(!vocabulary.is_empty());
    assert_eq!(vocabulary.len(), 1);
    // a default shingled text holds no shingle, so its vocabulary is empty
    let defaults = vec![lsh::ShingledText::default()];
    assert!(lsh::Vocabulary::build(&defaults).is_empty());
}
