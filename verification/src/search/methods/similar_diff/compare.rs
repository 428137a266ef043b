//! The similarity of two diffs by their changes: how many of the changed lines of the one
//! are changed lines of the other.
use vstd::prelude::*;
use vstd::hash_map::StringHashMap;

use crate::git::{line_type_char, Diff, DiffLine, LineType};
use crate::search::methods::lsh::compare::{body_lines, is_change};
use crate::text::{append_str, chars_of, push_char, string_of_range, trim, trim_range};

verus! {

/// The decimal digits of a number.
pub open spec fn decimal(n: nat) -> Seq<char>
    decreases n,
{
    if n < 10 {
        seq![digit(n)]
    } else {
        decimal(n / 10) + seq![digit(n % 10)]
    }
}

pub open spec fn digit(d: nat) -> char {
    if d == 0 { '0' } else if d == 1 { '1' } else if d == 2 { '2' } else if d == 3 { '3' }
    else if d == 4 { '4' } else if d == 5 { '5' } else if d == 6 { '6' } else if d == 7 { '7' }
    else if d == 8 { '8' } else { '9' }
}

fn digit_exec(d: u64) -> (c: char)
    requires
        d < 10,
    ensures
        c == digit(d as nat),
{
    if d == 0 { '0' } else if d == 1 { '1' } else if d == 2 { '2' } else if d == 3 { '3' }
    else if d == 4 { '4' } else if d == 5 { '5' } else if d == 6 { '6' } else if d == 7 { '7' }
    else if d == 8 { '8' } else { '9' }
}

/// Appends the decimal digits of `n`.
pub(crate) fn append_decimal(s: &mut String, n: u64)
    ensures
        final(s)@ == old(s)@ + decimal(n as nat),
    decreases n,
{
    if n < 10 {
        push_char(s, digit_exec(n));
    } else {
        append_decimal(s, n / 10);
        push_char(s, digit_exec(n % 10));
    }
}

/// The text by which equal changes are recognized: the type's character and the trimmed content.
pub open spec fn change_key(l: DiffLine) -> Seq<char> {
    seq![line_type_char(l.line_type)] + trim(l.content@)
}

/// The changed lines of a diff, in order.
pub open spec fn change_lines(d: Diff) -> Seq<DiffLine> {
    body_lines(d.hunks@).filter(|l: DiffLine| is_change(l.line_type))
}

/// The text of the change at position `i`: its key, followed by `|>>`, the number of its
/// occurrence among the changes with the same key, and `<<|`.
pub open spec fn change_text(ls: Seq<DiffLine>, i: int) -> Seq<char> {
    let ks = ls.map_values(|l: DiffLine| change_key(l));
    ks[i] + "|>>"@ + decimal(ks.take(i + 1).to_multiset().count(ks[i])) + "<<|"@
}

/// The changes of a diff as texts, in order.
pub open spec fn change_texts(d: Diff) -> Seq<Seq<char>> {
    let ls = change_lines(d);
    Seq::new(ls.len(), |i: int| change_text(ls, i))
}

/// The set of the changes of a diff.
pub open spec fn change_set(d: Diff) -> Set<Seq<char>> {
    change_texts(d).to_set()
}

/// How much two sets of changes overlap: the size of their intersection and their own sizes.
/// The similarity is the larger of the intersection's shares of the two.
#[derive(Debug, Clone, Copy, PartialEq, Eq)]
pub struct ChangeOverlap {
    pub intersection: usize,
    pub changes_a: usize,
    pub changes_b: usize,
}

pub open spec fn overlap_of(a: Set<Seq<char>>, b: Set<Seq<char>>) -> (nat, nat, nat) {
    (a.intersect(b).len(), a.len(), b.len())
}

pub open spec fn overlap_view(o: ChangeOverlap) -> (nat, nat, nat) {
    (o.intersection as nat, o.changes_a as nat, o.changes_b as nat)
}

pub open spec fn strings_view(v: Seq<String>) -> Seq<Seq<char>> {
    v.map_values(|s: String| s@)
}

fn contains_string(v: &Vec<String>, x: &String) -> (r: bool)
    ensures
        r == strings_view(v@).contains(x@),
{
    let mut k: usize = 0;
    while k < v.len()
        invariant
            k <= v.len(),
            forall|j: int| 0 <= j < k ==> (#[trigger] v@[j])@ != x@,
        decreases v.len() - k,
    {
        if v[k] == *x {
            assert(strings_view(v@)[k as int] == x@);
            return true;
        }
        k = k + 1;
    }
    proof {
        if strings_view(v@).contains(x@) {
            let j = choose|j: int| 0 <= j < v.len() && strings_view(v@)[j] == x@;
            assert(v@[j]@ != x@);
        }
    }
    false
}

/// The trimmed text of a string.
fn trimmed(s: &str) -> (t: String)
    ensures
        t@ == trim(s@),
{
    let cs = chars_of(s);
    let (a, b) = trim_range(&cs, 0, cs.len());
    assert(cs@.subrange(0, cs.len() as int) == s@);
    string_of_range(&cs, a, b)
}

/// Compares diffs by their changes.
pub struct ChangeSimilarityComparator {}

impl ChangeSimilarityComparator {
    pub fn new() -> (c: Self) {
        ChangeSimilarityComparator {}
    }

    /// The changes of a diff, each once: for each added or deleted line, its type's character
    /// and trimmed content, with the number of its occurrence among the equal changes.
    pub fn extract_changes(diff: &Diff) -> (changes: Vec<String>)
        requires
            body_lines(diff.hunks@).len() < usize::MAX,
        ensures
            strings_view(changes@).no_duplicates(),
            strings_view(changes@).to_set() == change_set(*diff),
    {
        broadcast use vstd::seq_lib::group_to_multiset_ensures;
        let ghost all = body_lines(diff.hunks@);
        let ghost sel = |l: DiffLine| is_change(l.line_type);
        let mut change_count: StringHashMap<usize> = StringHashMap::new();
        let mut changes: Vec<String> = Vec::new();
        let ghost mut seen: Seq<DiffLine> = Seq::empty();
        let ghost mut done: Seq<DiffLine> = Seq::empty();
        let mut h: usize = 0;
        while h < diff.hunks.len()
            invariant
                h <= diff.hunks.len(),
                all == body_lines(diff.hunks@),
                all.len() < usize::MAX,
                sel == (|l: DiffLine| is_change(l.line_type)),
                done == body_lines(diff.hunks@.take(h as int)),
                seen == done.filter(sel),
                seen.len() <= done.len() <= all.len(),
                strings_view(changes@).no_duplicates(),
                strings_view(changes@).to_set() == Seq::new(seen.len(), |i: int| change_text(seen, i)).to_set(),
                forall|k: Seq<char>| #[trigger] change_count@.contains_key(k)
                    ==> change_count@[k] == seen.map_values(|l: DiffLine| change_key(l)).to_multiset().count(k),
                forall|k: Seq<char>| !#[trigger] change_count@.contains_key(k)
                    ==> seen.map_values(|l: DiffLine| change_key(l)).to_multiset().count(k) == 0,
                forall|k: Seq<char>| #[trigger] change_count@.contains_key(k) ==> change_count@[k] <= seen.len(),
            decreases diff.hunks.len() - h,
        {
            let body = &diff.hunks[h].body;
            let ghost before = done;
            proof {
                let t = diff.hunks@.take(h + 1);
                assert(t.drop_last() == diff.hunks@.take(h as int));
                assert(body_lines(t) == before + body@);
                body_lines_prefix_len(diff.hunks@, h + 1);
            }
            let mut k: usize = 0;
            while k < body.len()
                invariant
                    k <= body.len(),
                    all.len() < usize::MAX,
                    sel == (|l: DiffLine| is_change(l.line_type)),
                    done == before + body@.take(k as int),
                    (before + body@).len() <= all.len(),
                    seen == done.filter(sel),
                    seen.len() <= done.len(),
                    strings_view(changes@).no_duplicates(),
                    strings_view(changes@).to_set() == Seq::new(seen.len(), |i: int| change_text(seen, i)).to_set(),
                    forall|key: Seq<char>| #[trigger] change_count@.contains_key(key)
                        ==> change_count@[key] == seen.map_values(|l: DiffLine| change_key(l)).to_multiset().count(key),
                    forall|key: Seq<char>| !#[trigger] change_count@.contains_key(key)
                        ==> seen.map_values(|l: DiffLine| change_key(l)).to_multiset().count(key) == 0,
                    forall|key: Seq<char>| #[trigger] change_count@.contains_key(key) ==> change_count@[key] <= seen.len(),
                decreases body.len() - k,
            {
                let line = &body[k];
                proof {
                    assert(body@.take(k + 1) == body@.take(k as int).push(*line));
                    assert(before + body@.take(k + 1) == (before + body@.take(k as int)).push(*line));
                    done.lemma_filter_push(*line, sel);
                }
                let t = line.line_type;
                if t == LineType::Addition || t == LineType::Deletion || t == LineType::AddEofnl || t == LineType::DelEofnl {
                    let content = trimmed(line.content.as_str());
                    let mut key = String::new();
                    push_char(&mut key, t.char());
                    append_str(&mut key, content.as_str());
                    let ghost ks0 = seen.map_values(|l: DiffLine| change_key(l));
                    let ghost seen1 = seen.push(*line);
                    let ghost ks1 = seen1.map_values(|l: DiffLine| change_key(l));
                    proof {
                        assert(key@ == change_key(*line));
                        assert(ks1 =~= ks0.push(key@));
                        ks0.to_multiset_ensures();
                    }
                    let count: usize = match change_count.get(key.as_str()) {
                        Some(c) => *c + 1,
                        None => 1,
                    };
                    let mut change = key.clone();
                    append_str(&mut change, "|>>");
                    append_decimal(&mut change, count as u64);
                    append_str(&mut change, "<<|");
                    change_count.insert(key, count);
                    proof {
                        reveal_strlit("|>>");
                        reveal_strlit("<<|");
                        assert(ks1.take(seen.len() as int + 1) == ks1);
                        assert(ks1.to_multiset() == ks0.to_multiset().insert(key@));
                        assert(change@ == change_text(seen1, seen.len() as int));
                        assert forall|i: int| 0 <= i < seen.len() implies change_text(seen1, i) == change_text(seen, i) by {
                            assert(ks1.take(i + 1) == ks0.take(i + 1));
                            assert(ks1[i] == ks0[i]);
                        }
                        let old_texts = Seq::new(seen.len(), |i: int| change_text(seen, i));
                        let new_texts = Seq::new(seen1.len(), |i: int| change_text(seen1, i));
                        assert(new_texts =~= old_texts.push(change@));
                        old_texts.lemma_push_to_set_commute(change@);
                    }
                    if !contains_string(&changes, &change) {
                        let ghost v0 = strings_view(changes@);
                        changes.push(change);
                        proof {
                            assert(strings_view(changes@) =~= v0.push(change@));
                            v0.lemma_push_to_set_commute(change@);
                            assert forall|p: int, q: int| 0 <= p < q < v0.len() + 1 implies v0.push(change@)[p] != v0.push(change@)[q] by {
                                if q == v0.len() {
                                    assert(v0[p] == v0.push(change@)[p]);
                                    assert(v0.contains(v0[p]));
                                }
                            }
                        }
                    } else {
                        proof {
                            assert(strings_view(changes@).to_set().insert(change@) =~= strings_view(changes@).to_set());
                        }
                    }
                    proof {
                        seen = seen1;
                    }
                }
                proof {
                    done = done.push(*line);
                }
                k = k + 1;
            }
            assert(body@.take(body.len() as int) == body@);
            h = h + 1;
        }
        proof {
            assert(diff.hunks@.take(diff.hunks.len() as int) == diff.hunks@);
            assert(seen == change_lines(*diff));
            assert(Seq::new(seen.len(), |i: int| change_text(seen, i)) =~= change_texts(*diff));
        }
        changes
    }

    /// How much the changes of two diffs overlap.
    pub fn change_similarity(&mut self, diff_a: &Diff, diff_b: &Diff) -> (r: ChangeOverlap)
        requires
            body_lines(diff_a.hunks@).len() < usize::MAX,
            body_lines(diff_b.hunks@).len() < usize::MAX,
        ensures
            overlap_view(r) == overlap_of(change_set(*diff_a), change_set(*diff_b)),
    {
        let changes_a = Self::extract_changes(diff_a);
        let changes_b = Self::extract_changes(diff_b);
        let ghost va = strings_view(changes_a@);
        let ghost vb = strings_view(changes_b@);
        let ghost mut common: Seq<Seq<char>> = Seq::empty();
        let mut intersection: usize = 0;
        let mut i: usize = 0;
        while i < changes_a.len()
            invariant
                i <= changes_a.len(),
                va == strings_view(changes_a@),
                vb == strings_view(changes_b@),
                va.no_duplicates(),
                intersection == common.len(),
                intersection <= i,
                common.no_duplicates(),
                common.to_set() == va.take(i as int).to_set().intersect(vb.to_set()),
            decreases changes_a.len() - i,
        {
            let ghost x = va[i as int];
            assert(changes_a@[i as int]@ == x);
            proof {
                assert(va.take(i + 1) == va.take(i as int).push(x));
                va.take(i as int).lemma_push_to_set_commute(x);
            }
            if contains_string(&changes_b, &changes_a[i]) {
                proof {
                    assert(!common.contains(x)) by {
                        if common.contains(x) {
                            assert(common.to_set().contains(x));
                            let j = choose|j: int| 0 <= j < i && va.take(i as int)[j] == x;
                            assert(va[j] == va[i as int]);
                        }
                    }
                    common.lemma_push_to_set_commute(x);
                    assert forall|p: int, q: int| 0 <= p < q < common.len() + 1 implies common.push(x)[p] != common.push(x)[q] by {
                        if q == common.len() {
                            assert(common[p] == common.push(x)[p]);
                            assert(common.contains(common[p]));
                        }
                    }
                    common = common.push(x);
                    assert(common.to_set() =~= va.take(i + 1).to_set().intersect(vb.to_set()));
                }
                intersection = intersection + 1;
            } else {
                proof {
                    assert(common.to_set() =~= va.take(i + 1).to_set().intersect(vb.to_set()));
                }
            }
            i = i + 1;
        }
        proof {
            assert(va.take(changes_a.len() as int) == va);
            common.unique_seq_to_set();
            va.unique_seq_to_set();
            vb.unique_seq_to_set();
        }
        ChangeOverlap { intersection, changes_a: changes_a.len(), changes_b: changes_b.len() }
    }
}

/// The lines of the first `n` hunks are no more than those of all hunks.
proof fn body_lines_prefix_len(hunks: Seq<crate::git::Hunk>, n: int)
    requires
        0 <= n <= hunks.len(),
    ensures
        body_lines(hunks.take(n)).len() <= body_lines(hunks).len(),
    decreases hunks.len() - n,
{
    if n < hunks.len() {
        body_lines_prefix_len(hunks, n + 1);
        assert(hunks.take(n + 1).drop_last() == hunks.take(n));
    } else {
        assert(hunks.take(n) == hunks);
    }
}

/// The overlap does not depend on the order of the two diffs, but for the order of the two
/// sizes.
pub proof fn lemma_overlap_symmetric(a: Set<Seq<char>>, b: Set<Seq<char>>)
    ensures
        overlap_of(a, b).0 == overlap_of(b, a).0,
        overlap_of(a, b).1 == overlap_of(b, a).2,
        overlap_of(a, b).2 == overlap_of(b, a).1,
{
    assert(a.intersect(b) =~= b.intersect(a));
}

/// A diff overlaps fully with itself.
pub proof fn lemma_overlap_self(a: Set<Seq<char>>)
    ensures
        overlap_of(a, a).0 == overlap_of(a, a).1,
{
    assert(a.intersect(a) =~= a);
}

/// The intersection of two finite sets of changes is no larger than either of them.
pub proof fn lemma_overlap_bounded(a: Set<Seq<char>>, b: Set<Seq<char>>)
    requires
        a.finite(),
        b.finite(),
    ensures
        overlap_of(a, b).0 <= overlap_of(a, b).1,
        overlap_of(a, b).0 <= overlap_of(a, b).2,
{
    vstd::set_lib::lemma_len_intersect(a, b);
    vstd::set_lib::lemma_len_intersect(b, a);
    assert(a.intersect(b) =~= b.intersect(a));
}

/// How much the changes of two diffs overlap does not depend on their order, the shared
/// changes are no more than either diff has, and a diff shares all its changes with itself.
/// So the similarity (the larger share of the intersection) is symmetric, lies between 0 and
/// 1, and is 1 for a diff with changes compared with itself.
pub proof fn lemma_change_overlap_laws(a: Diff, b: Diff)
    ensures
        overlap_of(change_set(a), change_set(b)).0 == overlap_of(change_set(b), change_set(a)).0,
        overlap_of(change_set(a), change_set(b)).1 == overlap_of(change_set(b), change_set(a)).2,
        overlap_of(change_set(a), change_set(b)).0 <= overlap_of(change_set(a), change_set(b)).1,
        overlap_of(change_set(a), change_set(b)).0 <= overlap_of(change_set(a), change_set(b)).2,
        overlap_of(change_set(a), change_set(a)).0 == overlap_of(change_set(a), change_set(a)).1,
{
    lemma_overlap_symmetric(change_set(a), change_set(b));
    lemma_overlap_self(change_set(a));
    vstd::seq_lib::seq_to_set_is_finite(change_texts(a));
    vstd::seq_lib::seq_to_set_is_finite(change_texts(b));
    lemma_overlap_bounded(change_set(a), change_set(b));
}

/// A digit character.
pub open spec fn is_digit(c: char) -> bool {
    '0' <= c && c <= '9'
}

proof fn lemma_decimal_digits(n: nat)
    ensures
        decimal(n).len() > 0,
        forall|k: int| 0 <= k < decimal(n).len() ==> is_digit(#[trigger] decimal(n)[k]),
    decreases n,
{
    if n >= 10 {
        lemma_decimal_digits(n / 10);
        let a = decimal(n / 10);
        let b = seq![digit(n % 10)];
        assert forall|k: int| 0 <= k < decimal(n).len() implies is_digit(#[trigger] decimal(n)[k]) by {
            if k < a.len() {
                assert(decimal(n)[k] == a[k]);
            } else {
                assert(decimal(n)[k] == b[k - a.len()]);
            }
        }
    }
}

/// In `k1 + "|>>" + d1 + "<<|"`, the digits `d1` cannot be shorter than those of another such
/// text that is equal to it, as the `>` before them would fall among the other's digits.
proof fn lemma_tag_lengths(k1: Seq<char>, d1: Seq<char>, k2: Seq<char>, d2: Seq<char>)
    requires
        d1.len() > 0,
        forall|k: int| 0 <= k < d2.len() ==> is_digit(#[trigger] d2[k]),
        k1 + "|>>"@ + d1 + "<<|"@ == k2 + "|>>"@ + d2 + "<<|"@,
    ensures
        d1.len() >= d2.len(),
{
    reveal_strlit("|>>");
    reveal_strlit("<<|");
    if d1.len() < d2.len() {
        let t = "|>>"@;
        let u = "<<|"@;
        let s = k1 + t + d1 + u;
        let r = k2 + t + d2 + u;
        assert(t.len() == 3 && t[2] == '>');
        assert(u.len() == 3);
        assert(s.len() == k1.len() + 6 + d1.len());
        assert(r.len() == k2.len() + 6 + d2.len());
        let p: int = k1.len() as int + 2;
        assert(s[p] == (k1 + t + d1)[p]);
        assert((k1 + t + d1)[p] == (k1 + t)[p]);
        assert((k1 + t)[p] == t[2]);
        assert(r[p] == (k2 + t + d2)[p]);
        assert((k2 + t + d2)[p] == d2[p - k2.len() - 3]);
        assert(is_digit(d2[p - k2.len() - 3]));
        assert(false);
    }
}

/// Two change texts that are equal come from changes with equal keys: the key is what comes
/// before the occurrence tag.
pub proof fn lemma_change_text_key(ls1: Seq<DiffLine>, i: int, ls2: Seq<DiffLine>, j: int)
    requires
        0 <= i < ls1.len(),
        0 <= j < ls2.len(),
        change_text(ls1, i) == change_text(ls2, j),
    ensures
        change_key(ls1[i]) == change_key(ls2[j]),
{
    let ks1 = ls1.map_values(|l: DiffLine| change_key(l));
    let ks2 = ls2.map_values(|l: DiffLine| change_key(l));
    let d1 = decimal(ks1.take(i + 1).to_multiset().count(ks1[i]));
    let d2 = decimal(ks2.take(j + 1).to_multiset().count(ks2[j]));
    lemma_decimal_digits(ks1.take(i + 1).to_multiset().count(ks1[i]));
    lemma_decimal_digits(ks2.take(j + 1).to_multiset().count(ks2[j]));
    let k1 = ks1[i];
    let k2 = ks2[j];
    lemma_tag_lengths(k1, d1, k2, d2);
    lemma_tag_lengths(k2, d2, k1, d1);
    let s = k1 + "|>>"@ + d1 + "<<|"@;
    let r = k2 + "|>>"@ + d2 + "<<|"@;
    assert(s == r);
    reveal_strlit("|>>");
    reveal_strlit("<<|");
    assert(s.len() == k1.len() + 6 + d1.len());
    assert(r.len() == k2.len() + 6 + d2.len());
    assert(k1.len() == k2.len());
    assert forall|x: int| 0 <= x < k1.len() implies k1[x] == k2[x] by {
        assert(s[x] == (k1 + "|>>"@ + d1)[x]);
        assert((k1 + "|>>"@ + d1)[x] == (k1 + "|>>"@)[x]);
        assert(r[x] == (k2 + "|>>"@ + d2)[x]);
        assert((k2 + "|>>"@ + d2)[x] == (k2 + "|>>"@)[x]);
    }
    assert(k1 =~= k2);
}

} // verus!
