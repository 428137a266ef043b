//! The similarity of two diffs: the Jaccard similarities of their changed lines and of all
//! their lines, where repeated lines are told apart by how often they occurred before.
use vstd::prelude::*;
use vstd::hash_map::StringHashMap;

use crate::git::{line_type_char, Commit, Diff, DiffLine, Hunk, LineType};
use crate::text::{append_str, chars_of, push_char, string_of_range, trim, trim_range};

verus! {

/// The lines of the hunk bodies, one hunk after the other.
pub open spec fn body_lines(hunks: Seq<Hunk>) -> Seq<DiffLine>
    decreases hunks.len(),
{
    if hunks.len() == 0 {
        Seq::empty()
    } else {
        body_lines(hunks.drop_last()) + hunks.last().body@
    }
}

/// The text by which equal lines are recognized: the type's character and the trimmed content.
pub open spec fn count_key(l: DiffLine) -> Seq<char> {
    seq![line_type_char(l.line_type)] + trim(l.content@)
}

/// How often the entry at position `i` occurs at positions `0..=i`.
pub open spec fn occurrence(ks: Seq<Seq<char>>, i: int) -> nat {
    ks.take(i + 1).to_multiset().count(ks[i])
}

/// A counted line as a value: trimmed content, occurrence, line type.
pub type CountedModel = (Seq<char>, nat, LineType);

/// The counted lines of a list of diff lines: each line's trimmed content, with the number of
/// its occurrence among the lines of the same type and trimmed content.
pub open spec fn counted_models_of(ls: Seq<DiffLine>) -> Seq<CountedModel> {
    let ks = ls.map_values(|l: DiffLine| count_key(l));
    Seq::new(ls.len(), |i: int| (trim(ls[i].content@), occurrence(ks, i), ls[i].line_type))
}

/// The counted lines of a diff.
pub open spec fn counted_models(d: Diff) -> Seq<CountedModel> {
    counted_models_of(body_lines(d.hunks@))
}

/// Additions and deletions, also at the end of a file.
pub open spec fn is_change(t: LineType) -> bool {
    t == LineType::Addition || t == LineType::Deletion || t == LineType::AddEofnl || t == LineType::DelEofnl
}

pub open spec fn changes_of(s: Set<CountedModel>) -> Set<CountedModel> {
    s.filter(|m: CountedModel| is_change(m.2))
}

/// The sizes of the intersections and unions of the changed lines and of all lines of two
/// diffs; their Jaccard similarities are the intersections' sizes over the unions' sizes.
#[derive(Debug, Clone, Copy, PartialEq, Eq)]
pub struct JaccardCounts {
    pub intersection_changes: usize,
    pub union_changes: usize,
    pub intersection_diff: usize,
    pub union_diff: usize,
}

/// The counts for two sets of counted lines.
pub open spec fn jaccard_counts(a: Set<CountedModel>, b: Set<CountedModel>) -> (nat, nat, nat, nat) {
    (
        changes_of(a).intersect(changes_of(b)).len(),
        changes_of(a).union(changes_of(b)).len(),
        a.intersect(b).len(),
        a.union(b).len(),
    )
}

pub open spec fn counts_view(c: JaccardCounts) -> (nat, nat, nat, nat) {
    (c.intersection_changes as nat, c.union_changes as nat, c.intersection_diff as nat, c.union_diff as nat)
}

/// A line of a diff with the number of its occurrence among the lines of the same type and
/// trimmed content.
#[derive(Debug, Clone)]
pub struct CountedLine {
    pub content: String,
    pub count: usize,
    pub line_type: LineType,
}

pub open spec fn counted_model(l: CountedLine) -> CountedModel {
    (l.content@, l.count as nat, l.line_type)
}

pub open spec fn counted_view(ls: Seq<CountedLine>) -> Seq<CountedModel> {
    ls.map_values(|l: CountedLine| counted_model(l))
}

/// The size of the union of two finite sets is the sum of their sizes less the size of their
/// intersection.
pub proof fn lemma_union_len<A>(x: Set<A>, y: Set<A>)
    requires
        x.finite(),
        y.finite(),
    ensures
        x.union(y).len() + x.intersect(y).len() == x.len() + y.len(),
{
    let d = y.difference(x);
    assert(x.union(y) =~= x + d);
    assert(x.disjoint(d));
    vstd::set_lib::lemma_set_disjoint_lens(x, d);
    let i = y.intersect(x);
    assert(y =~= i + d);
    assert(i.disjoint(d));
    vstd::set_lib::lemma_set_disjoint_lens(i, d);
    assert(x.intersect(y) =~= i);
}

/// Whether the line occurs among the lines.
fn contains_line(ls: &[CountedLine], x: &CountedLine) -> (r: bool)
    ensures
        r == counted_view(ls@).contains(counted_model(*x)),
{
    let mut k: usize = 0;
    while k < ls.len()
        invariant
            k <= ls.len(),
            forall|j: int| 0 <= j < k ==> counted_model(#[trigger] ls@[j]) != counted_model(*x),
        decreases ls.len() - k,
    {
        if ls[k].count == x.count && ls[k].line_type == x.line_type && ls[k].content == x.content {
            assert(counted_view(ls@)[k as int] == counted_model(*x));
            return true;
        }
        k = k + 1;
    }
    proof {
        if counted_view(ls@).contains(counted_model(*x)) {
            let j = choose|j: int| 0 <= j < ls.len() && counted_view(ls@)[j] == counted_model(*x);
            assert(counted_model(ls@[j]) != counted_model(*x));
        }
    }
    false
}

fn is_change_exec(t: LineType) -> (r: bool)
    ensures
        r == is_change(t),
{
    match t {
        LineType::Addition | LineType::Deletion | LineType::AddEofnl | LineType::DelEofnl => true,
        _ => false,
    }
}

/// The sizes of the intersection and the union of the lines of `a` and `b` that `only_changes`
/// selects (all lines, or only the changed ones).
fn overlap(a: &[CountedLine], b: &[CountedLine], only_changes: bool) -> (r: (usize, usize))
    requires
        counted_view(a@).no_duplicates(),
        counted_view(b@).no_duplicates(),
        a.len() + b.len() <= usize::MAX,
    ensures
        ({
            let sa = if only_changes { changes_of(counted_view(a@).to_set()) } else { counted_view(a@).to_set() };
            let sb = if only_changes { changes_of(counted_view(b@).to_set()) } else { counted_view(b@).to_set() };
            r.0 == sa.intersect(sb).len() && r.1 == sa.union(sb).len()
        }),
{
    let ghost va = counted_view(a@);
    let ghost vb = counted_view(b@);
    let ghost sel = |m: CountedModel| !only_changes || is_change(m.2);
    let ghost mut fa: Seq<CountedModel> = Seq::empty();
    let ghost mut common: Seq<CountedModel> = Seq::empty();
    let mut n_a: usize = 0;
    let mut n_common: usize = 0;
    let mut i: usize = 0;
    while i < a.len()
        invariant
            i <= a.len(),
            va == counted_view(a@),
            vb == counted_view(b@),
            va.no_duplicates(),
            sel == (|m: CountedModel| !only_changes || is_change(m.2)),
            n_a == fa.len(),
            n_common == common.len(),
            n_common <= n_a <= i,
            fa.no_duplicates(),
            common.no_duplicates(),
            fa.to_set() == va.take(i as int).to_set().filter(sel),
            common.to_set() == va.take(i as int).to_set().filter(sel).intersect(vb.to_set().filter(sel)),
        decreases a.len() - i,
    {
        let x = &a[i];
        let ghost m = counted_model(*x);
        assert(va[i as int] == m);
        assert(va.take(i + 1) == va.take(i as int).push(m));
        proof {
            va.take(i as int).lemma_push_to_set_commute(m);
            assert(!va.take(i as int).contains(m)) by {
                if va.take(i as int).contains(m) {
                    let j = choose|j: int| 0 <= j < i && va.take(i as int)[j] == m;
                    assert(va[j] == va[i as int]);
                }
            }
        }
        if !only_changes || is_change_exec(x.line_type) {
            proof {
                assert(!fa.contains(m)) by {
                    if fa.contains(m) {
                        assert(fa.to_set().contains(m));
                    }
                }
                fa.lemma_push_to_set_commute(m);
                assert forall|p: int, q: int| 0 <= p < q < fa.len() + 1 implies fa.push(m)[p] != fa.push(m)[q] by {
                    if q == fa.len() {
                        assert(fa[p] == fa.push(m)[p]);
                        assert(fa.contains(fa[p]));
                    }
                }
                fa = fa.push(m);
                assert(fa.to_set() =~= va.take(i + 1).to_set().filter(sel));
            }
            n_a = n_a + 1;
            if contains_line(b, x) {
                proof {
                    assert(!common.contains(m)) by {
                        if common.contains(m) {
                            assert(common.to_set().contains(m));
                        }
                    }
                    common.lemma_push_to_set_commute(m);
                    assert forall|p: int, q: int| 0 <= p < q < common.len() + 1 implies common.push(m)[p] != common.push(m)[q] by {
                        if q == common.len() {
                            assert(common[p] == common.push(m)[p]);
                            assert(common.contains(common[p]));
                        }
                    }
                    common = common.push(m);
                    assert(vb.to_set().contains(m));
                    assert(common.to_set() =~= va.take(i + 1).to_set().filter(sel).intersect(vb.to_set().filter(sel)));
                }
                n_common = n_common + 1;
            } else {
                proof {
                    assert(!vb.to_set().contains(m));
                    assert(common.to_set() =~= va.take(i + 1).to_set().filter(sel).intersect(vb.to_set().filter(sel)));
                }
            }
        } else {
            proof {
                assert(fa.to_set() =~= va.take(i + 1).to_set().filter(sel));
                assert(common.to_set() =~= va.take(i + 1).to_set().filter(sel).intersect(vb.to_set().filter(sel)));
            }
        }
        i = i + 1;
    }
    assert(va.take(a.len() as int) == va);
    let ghost mut fb: Seq<CountedModel> = Seq::empty();
    let mut n_b: usize = 0;
    let mut j: usize = 0;
    while j < b.len()
        invariant
            j <= b.len(),
            vb == counted_view(b@),
            vb.no_duplicates(),
            sel == (|m: CountedModel| !only_changes || is_change(m.2)),
            n_b == fb.len(),
            n_b <= j,
            fb.no_duplicates(),
            fb.to_set() == vb.take(j as int).to_set().filter(sel),
        decreases b.len() - j,
    {
        let y = &b[j];
        let ghost m = counted_model(*y);
        assert(vb[j as int] == m);
        assert(vb.take(j + 1) == vb.take(j as int).push(m));
        proof {
            vb.take(j as int).lemma_push_to_set_commute(m);
        }
        if !only_changes || is_change_exec(y.line_type) {
            proof {
                assert(!fb.contains(m)) by {
                    if fb.contains(m) {
                        assert(fb.to_set().contains(m));
                        let k = choose|k: int| 0 <= k < j && vb.take(j as int)[k] == m;
                        assert(vb[k] == vb[j as int]);
                    }
                }
                fb.lemma_push_to_set_commute(m);
                assert forall|p: int, q: int| 0 <= p < q < fb.len() + 1 implies fb.push(m)[p] != fb.push(m)[q] by {
                    if q == fb.len() {
                        assert(fb[p] == fb.push(m)[p]);
                        assert(fb.contains(fb[p]));
                    }
                }
                fb = fb.push(m);
                assert(fb.to_set() =~= vb.take(j + 1).to_set().filter(sel));
            }
            n_b = n_b + 1;
        } else {
            proof {
                assert(fb.to_set() =~= vb.take(j + 1).to_set().filter(sel));
            }
        }
        j = j + 1;
    }
    proof {
        assert(vb.take(b.len() as int) == vb);
        let sa = va.to_set().filter(sel);
        let sb = vb.to_set().filter(sel);
        fa.unique_seq_to_set();
        fb.unique_seq_to_set();
        common.unique_seq_to_set();
        lemma_union_len(sa, sb);
        if only_changes {
            assert(sa =~= changes_of(va.to_set()));
            assert(sb =~= changes_of(vb.to_set()));
        } else {
            assert(sa =~= va.to_set());
            assert(sb =~= vb.to_set());
        }
    }
    (n_common, n_a + n_b - n_common)
}


/// Later occurrences of an entry have higher numbers.
proof fn lemma_occurrence_grows(ks: Seq<Seq<char>>, i: int, j: int)
    requires
        0 <= i < j < ks.len(),
        ks[i] == ks[j],
    ensures
        occurrence(ks, i) < occurrence(ks, j),
    decreases j - i,
{
    broadcast use vstd::seq_lib::group_to_multiset_ensures;
    let x = ks[j];
    assert(ks.take(j + 1) == ks.take(j).push(x));
    if i == j - 1 {
        assert(ks.take(j) == ks.take(i + 1));
    } else {
        let pre = ks.take(j);
        assert(ks.take(j) == ks.take(j - 1).push(ks[j - 1]));
        lemma_count_monotone(ks, i + 1, j);
    }
}

/// Counts in a longer prefix are at least those in a shorter one.
proof fn lemma_count_monotone(ks: Seq<Seq<char>>, p: int, q: int)
    requires
        0 <= p <= q <= ks.len(),
    ensures
        forall|x: Seq<char>| ks.take(p).to_multiset().count(x) <= #[trigger] ks.take(q).to_multiset().count(x),
    decreases q - p,
{
    broadcast use vstd::seq_lib::group_to_multiset_ensures;
    if p < q {
        lemma_count_monotone(ks, p, q - 1);
        assert(ks.take(q) == ks.take(q - 1).push(ks[q - 1]));
    }
}

/// Counted lines are all different.
pub proof fn lemma_counted_models_distinct(ls: Seq<DiffLine>)
    ensures
        counted_models_of(ls).no_duplicates(),
{
    let ks = ls.map_values(|l: DiffLine| count_key(l));
    let ms = counted_models_of(ls);
    assert forall|i: int, j: int| 0 <= i < j < ms.len() implies ms[i] != ms[j] by {
        if ms[i] == ms[j] {
            assert(ks[i] == count_key(ls[i]));
            assert(ks[j] == count_key(ls[j]));
            assert(ks[i] =~= ks[j]);
            lemma_occurrence_grows(ks, i, j);
        }
    }
}

/// The trimmed text of a string.
fn trimmed(s: &str) -> (t: String)
    ensures
        t@ == trim(s@),
{
    let cs = chars_of(s);
    let (a, b) = trim_range(&cs, 0, cs.len());
    assert(cs@.subrange(0, cs.len() as int) == s@);
    string_of_range(&cs, a, b)
}

/// The similarity of diffs by the Jaccard similarities of their lines, with the counted lines of
/// each commit kept by the commit's id once they are computed.
pub struct DiffSimilarity {
    counted_lines: StringHashMap<Vec<CountedLine>>,
}

impl DiffSimilarity {
    /// The counted lines kept for each commit id.
    pub closed spec fn cached(&self) -> Map<Seq<char>, Seq<CountedModel>> {
        self.counted_lines@.map_values(|v: Vec<CountedLine>| counted_view(v@))
    }

    /// Each kept list of counted lines has no line twice and has at most half of the largest
    /// `usize` entries.
    pub open spec fn wf(&self) -> bool {
        forall|id: Seq<char>| #[trigger] self.cached().contains_key(id) ==> self.cached()[id].no_duplicates()
            && self.cached()[id].len() <= usize::MAX / 2
    }

    pub fn new() -> (s: Self)
        ensures
            s.cached() == Map::<Seq<char>, Seq<CountedModel>>::empty(),
            s.wf(),
    {
        let s = DiffSimilarity { counted_lines: StringHashMap::new() };
        assert(s.cached() =~= Map::<Seq<char>, Seq<CountedModel>>::empty());
        s
    }

    /// The counted lines of the diff: its lines in order, each with its trimmed content and the
    /// number of its occurrence among the lines of the same type and trimmed content.
    pub fn counted_lines(diff: &Diff) -> (ls: Vec<CountedLine>)
        requires
            body_lines(diff.hunks@).len() < usize::MAX,
        ensures
            counted_view(ls@) == counted_models(*diff),
            counted_view(ls@).no_duplicates(),
    {
        broadcast use vstd::seq_lib::group_to_multiset_ensures;
        let ghost all = body_lines(diff.hunks@);
        let mut change_count: StringHashMap<usize> = StringHashMap::new();
        let mut ls: Vec<CountedLine> = Vec::new();
        let ghost mut seen: Seq<DiffLine> = Seq::empty();
        let mut h: usize = 0;
        while h < diff.hunks.len()
            invariant
                h <= diff.hunks.len(),
                all == body_lines(diff.hunks@),
                all.len() < usize::MAX,
                seen == body_lines(diff.hunks@.take(h as int)),
                counted_view(ls@) == counted_models_of(seen),
                forall|k: Seq<char>| #[trigger] change_count@.contains_key(k)
                    ==> change_count@[k] == seen.map_values(|l: DiffLine| count_key(l)).to_multiset().count(k),
                forall|k: Seq<char>| !#[trigger] change_count@.contains_key(k)
                    ==> seen.map_values(|l: DiffLine| count_key(l)).to_multiset().count(k) == 0,
                forall|key: Seq<char>| #[trigger] change_count@.contains_key(key) ==> change_count@[key] <= seen.len(),
                seen.len() <= all.len(),
            decreases diff.hunks.len() - h,
        {
            let body = &diff.hunks[h].body;
            let ghost before = seen;
            proof {
                let t = diff.hunks@.take(h + 1);
                assert(t.drop_last() == diff.hunks@.take(h as int));
                assert(body_lines(t) == before + body@);
                lemma_body_lines_prefix(diff.hunks@, h + 1);
            }
            let mut k: usize = 0;
            while k < body.len()
                invariant
                    k <= body.len(),
                    all.len() < usize::MAX,
                    seen == before + body@.take(k as int),
                    (before + body@).len() <= all.len(),
                    counted_view(ls@) == counted_models_of(seen),
                    forall|key: Seq<char>| #[trigger] change_count@.contains_key(key)
                        ==> change_count@[key] == seen.map_values(|l: DiffLine| count_key(l)).to_multiset().count(key),
                    forall|key: Seq<char>| !#[trigger] change_count@.contains_key(key)
                        ==> seen.map_values(|l: DiffLine| count_key(l)).to_multiset().count(key) == 0,
                    forall|key: Seq<char>| #[trigger] change_count@.contains_key(key) ==> change_count@[key] <= seen.len(),
                decreases body.len() - k,
            {
                let line = &body[k];
                let content = trimmed(line.content.as_str());
                let mut key = String::new();
                push_char(&mut key, line.line_type.char());
                append_str(&mut key, content.as_str());
                let ghost ks0 = seen.map_values(|l: DiffLine| count_key(l));
                let ghost seen1 = seen.push(*line);
                let ghost ks1 = seen1.map_values(|l: DiffLine| count_key(l));
                proof {
                    assert(key@ == count_key(*line));
                    assert(ks1 =~= ks0.push(key@));
                }
                let count: usize = match change_count.get(key.as_str()) {
                    Some(c) => *c + 1,
                    None => 1,
                };
                change_count.insert(key, count);
                let ghost ls0 = ls@;
                ls.push(CountedLine { content, count, line_type: line.line_type });
                proof {
                    assert(ks1.take(seen.len() as int + 1) == ks1);
                    assert forall|i: int| 0 <= i < seen.len() implies occurrence(ks1, i) == occurrence(ks0, i) by {
                        assert(ks1.take(i + 1) == ks0.take(i + 1));
                    }
                    assert(ks1[seen.len() as int] == key@);
                    assert(occurrence(ks1, seen.len() as int) == ks1.to_multiset().count(key@));
                    ks0.to_multiset_ensures();
                    assert(ks1.to_multiset() == ks0.to_multiset().insert(key@));
                    assert(occurrence(ks1, seen.len() as int) == count);
                    let cm = counted_models_of(seen1);
                    assert(counted_view(ls0).len() == ls0.len());
                    assert(ls0.len() == seen.len());
                    assert(ls@ == ls0.push(CountedLine { content, count, line_type: line.line_type }));
                    assert forall|i: int| 0 <= i < seen1.len() implies #[trigger] counted_view(ls@)[i] == cm[i] by {
                        if i < seen.len() {
                            assert(seen1[i] == seen[i]);
                            assert(ls@[i] == ls0[i]);
                            assert(counted_view(ls0)[i] == counted_models_of(seen)[i]);
                        }
                    }
                    assert(counted_view(ls@) =~= counted_models_of(seen1));
                    assert(body@.take(k + 1) == body@.take(k as int).push(*line));
                    seen = seen1;
                }
                k = k + 1;
            }
            assert(body@.take(body.len() as int) == body@);
            h = h + 1;
        }
        assert(diff.hunks@.take(diff.hunks.len() as int) == diff.hunks@);
        proof {
            lemma_counted_models_distinct(all);
        }
        ls
    }

    /// The Jaccard counts of two lists of counted lines, of their changed lines and of all of
    /// them.
    pub fn diff_similarity(diff_lines_a: &[CountedLine], diff_lines_b: &[CountedLine]) -> (r: JaccardCounts)
        requires
            counted_view(diff_lines_a@).no_duplicates(),
            counted_view(diff_lines_b@).no_duplicates(),
            diff_lines_a.len() + diff_lines_b.len() <= usize::MAX,
        ensures
            counts_view(r) == jaccard_counts(counted_view(diff_lines_a@).to_set(), counted_view(diff_lines_b@).to_set()),
    {
        let (intersection_changes, union_changes) = overlap(diff_lines_a, diff_lines_b, true);
        let (intersection_diff, union_diff) = overlap(diff_lines_a, diff_lines_b, false);
        JaccardCounts { intersection_changes, union_changes, intersection_diff, union_diff }
    }

    /// The Jaccard counts of the diffs of two commits, from the counted lines kept for their ids;
    /// the counted lines of a commit whose id has none kept are computed and kept first.
    pub fn change_similarity(&mut self, commit_a: &Commit, commit_b: &Commit) -> (r: JaccardCounts)
        requires
            old(self).wf(),
            body_lines(commit_a.diff.hunks@).len() <= usize::MAX / 2,
            body_lines(commit_b.diff.hunks@).len() <= usize::MAX / 2,
        ensures
            final(self).wf(),
            ({
                let c1 = if old(self).cached().contains_key(commit_a.id@) {
                    old(self).cached()
                } else {
                    old(self).cached().insert(commit_a.id@, counted_models(commit_a.diff))
                };
                let c2 = if c1.contains_key(commit_b.id@) { c1 } else { c1.insert(commit_b.id@, counted_models(commit_b.diff)) };
                &&& final(self).cached() == c2
                &&& counts_view(r) == jaccard_counts(c2[commit_a.id@].to_set(), c2[commit_b.id@].to_set())
            }),
    {
        let ghost c0 = self.cached();
        if !self.counted_lines.contains_key(commit_a.id.as_str()) {
            let ls = Self::counted_lines(&commit_a.diff);
            self.counted_lines.insert(commit_a.id.clone(), ls);
        }
        let ghost c1 = self.cached();
        proof {
            assert(c1 =~= (if c0.contains_key(commit_a.id@) { c0 } else { c0.insert(commit_a.id@, counted_models(commit_a.diff)) }));
        }
        if !self.counted_lines.contains_key(commit_b.id.as_str()) {
            let ls = Self::counted_lines(&commit_b.diff);
            self.counted_lines.insert(commit_b.id.clone(), ls);
        }
        proof {
            assert(self.cached() =~= (if c1.contains_key(commit_b.id@) { c1 } else { c1.insert(commit_b.id@, counted_models(commit_b.diff)) }));
        }
        let lines_a = self.counted_lines.get(commit_a.id.as_str());
        let lines_b = self.counted_lines.get(commit_b.id.as_str());
        match (lines_a, lines_b) {
            (Some(a), Some(b)) => {
                proof {
                    assert(self.cached().contains_key(commit_a.id@));
                    assert(self.cached().contains_key(commit_b.id@));
                    assert(counted_view(a@) == self.cached()[commit_a.id@]);
                    assert(counted_view(b@) == self.cached()[commit_b.id@]);
                }
                Self::diff_similarity(a.as_slice(), b.as_slice())
            },
            _ => {
                proof {
                    assert(self.cached().contains_key(commit_a.id@));
                    assert(self.cached().contains_key(commit_b.id@));
                }
                JaccardCounts { intersection_changes: 0, union_changes: 0, intersection_diff: 0, union_diff: 0 }
            },
        }
    }
}

/// The lines of the first `n` hunks come before those of the rest.
proof fn lemma_body_lines_prefix(hunks: Seq<Hunk>, n: int)
    requires
        0 <= n <= hunks.len(),
    ensures
        body_lines(hunks.take(n)).len() <= body_lines(hunks).len(),
    decreases hunks.len() - n,
{
    if n < hunks.len() {
        lemma_body_lines_prefix(hunks, n + 1);
        let t = hunks.take(n + 1);
        assert(t.drop_last() == hunks.take(n));
    } else {
        assert(hunks.take(n) == hunks);
    }
}


/// The similarity does not depend on the order of the two diffs.
pub proof fn lemma_jaccard_symmetric(a: Set<CountedModel>, b: Set<CountedModel>)
    ensures
        jaccard_counts(a, b) == jaccard_counts(b, a),
{
    assert(changes_of(a).intersect(changes_of(b)) =~= changes_of(b).intersect(changes_of(a)));
    assert(changes_of(a).union(changes_of(b)) =~= changes_of(b).union(changes_of(a)));
    assert(a.intersect(b) =~= b.intersect(a));
    assert(a.union(b) =~= b.union(a));
}

/// A diff is as similar to itself as can be: each intersection is as large as its union.
pub proof fn lemma_jaccard_self(a: Set<CountedModel>)
    ensures
        jaccard_counts(a, a).0 == jaccard_counts(a, a).1,
        jaccard_counts(a, a).2 == jaccard_counts(a, a).3,
{
    assert(changes_of(a).intersect(changes_of(a)) =~= changes_of(a).union(changes_of(a)));
    assert(a.intersect(a) =~= a.union(a));
}

} // verus!
