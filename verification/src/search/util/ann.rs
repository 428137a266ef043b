//! An index of commits by their changed lines: commits that share a changed line are
//! candidates for a cherry-pick.
use vstd::prelude::*;
use vstd::hash_map::StringHashMap;

use crate::git::{compare_char_vecs, compare_chars, line_type_char, Commit, DiffLine};
use crate::search::methods::lsh::compare::{body_lines, is_change};
use crate::search::methods::similar_diff::compare::{
    change_key, change_lines, change_set, change_text, change_texts, lemma_change_text_key, overlap_of,
    overlap_view, ChangeOverlap, ChangeSimilarityComparator,
};
use crate::text::{append_str, chars_of, push_char, same_str, trim, trim_range, string_of_range};

verus! {

/// Two commit ids, the smaller first (compared as text).
#[derive(Debug, PartialEq, Eq, Hash)]
pub struct CandidatePair<'a>(pub &'a str, pub &'a str);

impl<'a> CandidatePair<'a> {
    pub fn new(c1: &'a str, c2: &'a str) -> (p: Self)
        ensures
            compare_chars(c1@, c2@) <= 0 ==> p.0@ == c1@ && p.1@ == c2@,
            compare_chars(c1@, c2@) > 0 ==> p.0@ == c2@ && p.1@ == c1@,
    {
        let a = chars_of(c1);
        let b = chars_of(c2);
        if compare_char_vecs(&a, &b) <= 0 {
            CandidatePair(c1, c2)
        } else {
            CandidatePair(c2, c1)
        }
    }
}

/// The text by which the index knows a changed line: the type's character, a space and the
/// trimmed content.
pub open spec fn index_change(l: DiffLine) -> Seq<char> {
    seq![line_type_char(l.line_type), ' '] + trim(l.content@)
}

/// The changed lines of a commit, as the index knows them.
pub open spec fn commit_changes(c: Commit) -> Set<Seq<char>> {
    body_lines(c.diff.hunks@).filter(|l: DiffLine| is_change(l.line_type)).map_values(|l: DiffLine| index_change(l)).to_set()
}

pub type ChangeEntry<'a> = (String, Vec<&'a str>);

/// The ids, as texts.
pub open spec fn ids_view(ids: Seq<&str>) -> Seq<Seq<char>> {
    ids.map_values(|s: &str| s@)
}

/// The index as a list of changes, each with the ids of the commits that have it.
pub open spec fn entries_view(ci: Seq<(String, Vec<&str>)>) -> Seq<(Seq<char>, Seq<Seq<char>>)> {
    ci.map_values(|e: (String, Vec<&str>)| (e.0@, ids_view(e.1@)))
}

/// The commit with id `id` has the change `ch`.
pub open spec fn has_change(v: Seq<(Seq<char>, Seq<Seq<char>>)>, ch: Seq<char>, id: Seq<char>) -> bool {
    exists|k: int| 0 <= k < v.len() && v[k].0 == ch && #[trigger] v[k].1.contains(id)
}

/// The commits `a` and `b` share a change.
pub open spec fn share_change(v: Seq<(Seq<char>, Seq<Seq<char>>)>, a: Seq<char>, b: Seq<char>) -> bool {
    exists|k: int| 0 <= k < v.len() && #[trigger] v[k].1.contains(a) && v[k].1.contains(b)
}

/// No change is listed twice, and no id twice for a change.
pub open spec fn entries_ok(v: Seq<(Seq<char>, Seq<Seq<char>>)>) -> bool {
    &&& forall|a: int, b: int| 0 <= a < b < v.len() ==> (#[trigger] v[a]).0 != (#[trigger] v[b]).0
    &&& forall|k: int| 0 <= k < v.len() ==> (#[trigger] v[k]).1.no_duplicates()
}

/// `a` and `b` are a candidate pair: `a` comes first, and they share a change.
pub open spec fn is_candidate(v: Seq<(Seq<char>, Seq<Seq<char>>)>, a: Seq<char>, b: Seq<char>) -> bool {
    compare_chars(a, b) < 0 && share_change(v, a, b)
}

/// An index of commits by their changed lines.
pub struct Index<'a> {
    commit_index: Vec<(String, Vec<&'a str>)>,
    commit_storage: StringHashMap<&'a Commit>,
}

impl<'a> Index<'a> {
    /// The changes, each with the ids of the commits that have it.
    pub closed spec fn entries(&self) -> Seq<(Seq<char>, Seq<Seq<char>>)> {
        entries_view(self.commit_index@)
    }

    /// The commits, by id: the last one inserted with each id.
    pub closed spec fn stored(&self) -> Map<Seq<char>, &'a Commit> {
        self.commit_storage@
    }

    /// No change is listed twice, nor an id twice for a change; every indexed id has a stored
    /// commit, stored under its own id.
    pub open spec fn wf(&self) -> bool {
        &&& entries_ok(self.entries())
        &&& forall|id: Seq<char>| #[trigger] self.stored().contains_key(id) ==> self.stored()[id].id@ == id
        &&& forall|k: int, id: Seq<char>| 0 <= k < self.entries().len() && #[trigger] self.entries()[k].1.contains(id)
            ==> self.stored().contains_key(id)
    }

    /// Every change of a stored commit is listed with the commit's id.
    pub open spec fn covers(&self) -> bool {
        forall|id: Seq<char>, ch: Seq<char>| #[trigger] self.stored().contains_key(id)
            && #[trigger] commit_changes(*self.stored()[id]).contains(ch) ==> has_change(self.entries(), ch, id)
    }

    pub fn new() -> (index: Self)
        ensures
            index.wf(),
            index.covers(),
            index.entries().len() == 0,
            index.stored() == Map::<Seq<char>, &'a Commit>::empty(),
    {
        let index = Index { commit_index: Vec::new(), commit_storage: StringHashMap::new() };
        assert(index.entries() =~= Seq::<(Seq<char>, Seq<Seq<char>>)>::empty());
        index
    }

    /// Adds a commit: its id to each of its changes, and the commit under its id.
    pub fn insert(&mut self, commit: &'a Commit)
        requires
            old(self).wf(),
        ensures
            final(self).wf(),
            old(self).covers() ==> final(self).covers(),
            final(self).stored() == old(self).stored().insert(commit.id@, commit),
            forall|ch: Seq<char>, id: Seq<char>| has_change(final(self).entries(), ch, id)
                <==> has_change(old(self).entries(), ch, id) || (id == commit.id@ && commit_changes(*commit).contains(ch)),
    {
        let id: &'a str = commit.id.as_str();
        let ghost e0 = self.entries();
        assert(e0 == old(self).entries());
        let changes = changes_of(commit);
        self.commit_storage.insert(commit.id.clone(), commit);
        proof {
            assert forall|id2: Seq<char>| #[trigger] self.stored().contains_key(id2) implies self.stored()[id2].id@ == id2 by {
                if id2 != commit.id@ {
                    assert(old(self).stored().contains_key(id2));
                }
            }
            assert forall|k: int, id2: Seq<char>| 0 <= k < self.entries().len() && #[trigger] self.entries()[k].1.contains(id2)
                implies self.stored().contains_key(id2) by {
                assert(old(self).stored().contains_key(id2));
            }
        }
        let ghost cv = changes@.map_values(|s: String| s@);
        let mut i: usize = 0;
        while i < changes.len()
            invariant
                i <= changes.len(),
                cv == changes@.map_values(|s: String| s@),
                cv.to_set() == commit_changes(*commit),
                id@ == commit.id@,
                self.stored() == old(self).stored().insert(commit.id@, commit),
                self.wf(),
                forall|ch: Seq<char>, id2: Seq<char>| has_change(self.entries(), ch, id2)
                    <==> has_change(e0, ch, id2) || (id2 == commit.id@ && cv.take(i as int).contains(ch)),
            decreases changes.len() - i,
        {
            let ghost e1 = self.entries();
            add_change(&mut self.commit_index, changes[i].clone(), id);
            proof {
                assert(cv[i as int] == changes@[i as int]@);
                let t0 = cv.take(i as int);
                let t1 = cv.take(i + 1);
                assert(t1 == t0.push(cv[i as int]));
                t0.lemma_push_to_set_commute(cv[i as int]);
                assert forall|ch: Seq<char>| t1.contains(ch) <==> t0.contains(ch) || ch == cv[i as int] by {
                    assert(t1.to_set().contains(ch) == t1.contains(ch));
                    assert(t0.to_set().contains(ch) == t0.contains(ch));
                }
                assert forall|k: int, id2: Seq<char>| 0 <= k < self.entries().len() && #[trigger] self.entries()[k].1.contains(id2)
                    implies self.stored().contains_key(id2) by {
                    assert(has_change(self.entries(), self.entries()[k].0, id2));
                    if has_change(e1, self.entries()[k].0, id2) {
                        let j = choose|j: int| 0 <= j < e1.len() && e1[j].0 == self.entries()[k].0 && #[trigger] e1[j].1.contains(id2);
                    }
                }
            }
            i = i + 1;
        }
        proof {
            assert(cv.take(changes.len() as int) == cv);
            assert forall|ch: Seq<char>| cv.contains(ch) <==> commit_changes(*commit).contains(ch) by {
                assert(cv.to_set().contains(ch) == cv.contains(ch));
            }
            assert forall|ch: Seq<char>, id2: Seq<char>| has_change(self.entries(), ch, id2)
                <==> has_change(old(self).entries(), ch, id2) || (id2 == commit.id@ && commit_changes(*commit).contains(ch)) by {
                assert(i == changes.len());
                assert(has_change(self.entries(), ch, id2) <==> has_change(e0, ch, id2)
                    || (id2 == commit.id@ && cv.take(i as int).contains(ch)));
                assert(cv.take(changes.len() as int).contains(ch) == cv.contains(ch));
            }
            if old(self).covers() {
                assert forall|id2: Seq<char>, ch: Seq<char>| #[trigger] self.stored().contains_key(id2)
                    && #[trigger] commit_changes(*self.stored()[id2]).contains(ch) implies has_change(self.entries(), ch, id2) by {
                    if id2 != commit.id@ {
                        assert(old(self).stored().contains_key(id2));
                        assert(old(self).stored()[id2] == self.stored()[id2]);
                        assert(has_change(old(self).entries(), ch, id2));
                    }
                }
            }
        }
    }
}

/// Adds the id to the change's entry, making the entry where there is none.
fn add_change<'a>(ci: &mut Vec<(String, Vec<&'a str>)>, ch: String, id: &'a str)
    requires
        entries_ok(entries_view(old(ci)@)),
    ensures
        entries_ok(entries_view(final(ci)@)),
        forall|ch2: Seq<char>, id2: Seq<char>| has_change(entries_view(final(ci)@), ch2, id2)
            <==> has_change(entries_view(old(ci)@), ch2, id2) || (ch2 == ch@ && id2 == id@),
{
    let ghost v0 = entries_view(ci@);
    match find_change(ci, &ch) {
        Some(k) => {
            let mut e = ci.remove(k);
            let ghost ids0 = ids_view(e.1@);
            assert(ids0 == v0[k as int].1);
            if !contains_id(&e.1, id) {
                e.1.push(id);
                assert(ids_view(e.1@) =~= ids0.push(id@));
            }
            ci.insert(k, e);
            proof {
                let v1 = entries_view(ci@);
                let ids1 = ids_view(e.1@);
                assert(v1 =~= v0.update(k as int, (v0[k as int].0, ids1)));
                assert forall|x: Seq<char>| ids1.contains(x) <==> ids0.contains(x) || x == id@ by {
                    if ids1 != ids0 {
                        assert(ids1 == ids0.push(id@));
                        if ids1.contains(x) {
                            let j = choose|j: int| 0 <= j < ids1.len() && ids1[j] == x;
                            if j < ids0.len() {
                                assert(ids0[j] == x);
                            }
                        }
                        if ids0.contains(x) {
                            let j = choose|j: int| 0 <= j < ids0.len() && ids0[j] == x;
                            assert(ids1[j] == x);
                        }
                        if x == id@ {
                            assert(ids1[ids0.len() as int] == x);
                        }
                    }
                }
                assert(ids1.no_duplicates()) by {
                    if ids1 != ids0 {
                        assert forall|p: int, q: int| 0 <= p < q < ids1.len() implies ids1[p] != ids1[q] by {
                            if q == ids0.len() {
                                assert(ids0.contains(ids1[p]));
                            }
                        }
                    }
                }
                assert forall|ch2: Seq<char>, id2: Seq<char>| has_change(v1, ch2, id2)
                    <==> has_change(v0, ch2, id2) || (ch2 == ch@ && id2 == id@) by {
                    if has_change(v1, ch2, id2) {
                        let j = choose|j: int| 0 <= j < v1.len() && v1[j].0 == ch2 && #[trigger] v1[j].1.contains(id2);
                        if j != k {
                            assert(v0[j] == v1[j]);
                        } else if !(ch2 == ch@ && id2 == id@) {
                            assert(ids0.contains(id2));
                            assert(v0[j].1.contains(id2));
                        }
                    }
                    if has_change(v0, ch2, id2) {
                        let j = choose|j: int| 0 <= j < v0.len() && v0[j].0 == ch2 && #[trigger] v0[j].1.contains(id2);
                        if j != k {
                            assert(v1[j] == v0[j]);
                        } else {
                            assert(v1[j].1.contains(id2));
                        }
                    }
                    if ch2 == ch@ && id2 == id@ {
                        assert(v1[k as int].1.contains(id2));
                    }
                }
                assert forall|a: int, b: int| 0 <= a < b < v1.len() implies (#[trigger] v1[a]).0 != (#[trigger] v1[b]).0 by {
                    assert(v1[a].0 == v0[a].0 && v1[b].0 == v0[b].0);
                }
                assert forall|j: int| 0 <= j < v1.len() implies (#[trigger] v1[j]).1.no_duplicates() by {
                    if j != k {
                        assert(v1[j] == v0[j]);
                    }
                }
            }
        },
        None => {
            let mut ids: Vec<&'a str> = Vec::new();
            ids.push(id);
            let ghost chv = ch@;
            assert(ids_view(ids@) =~= seq![id@]);
            ci.push((ch, ids));
            proof {
                let v1 = entries_view(ci@);
                assert(v1[v0.len() as int] == (chv, seq![id@]));
                assert(v1 =~= v0.push((chv, seq![id@])));
                assert(seq![id@][0] == id@);
                assert(seq![id@].contains(id@));
                assert forall|ch2: Seq<char>, id2: Seq<char>| has_change(v1, ch2, id2)
                    <==> has_change(v0, ch2, id2) || (ch2 == chv && id2 == id@) by {
                    if has_change(v1, ch2, id2) {
                        let j = choose|j: int| 0 <= j < v1.len() && v1[j].0 == ch2 && #[trigger] v1[j].1.contains(id2);
                        if j < v0.len() {
                            assert(v0[j] == v1[j]);
                        }
                    }
                    if has_change(v0, ch2, id2) {
                        let j = choose|j: int| 0 <= j < v0.len() && v0[j].0 == ch2 && #[trigger] v0[j].1.contains(id2);
                        assert(v1[j] == v0[j]);
                    }
                    if ch2 == chv && id2 == id@ {
                        assert(v1[v0.len() as int].1.contains(id2));
                    }
                }
                assert forall|a: int, b: int| 0 <= a < b < v1.len() implies (#[trigger] v1[a]).0 != (#[trigger] v1[b]).0 by {
                    if b == v0.len() {
                        assert(v0[a].0 == ci@[a].0@);
                    }
                }
                assert forall|j: int| 0 <= j < v1.len() implies (#[trigger] v1[j]).1.no_duplicates() by {
                    if j < v0.len() {
                        assert(v1[j] == v0[j]);
                    }
                }
            }
        },
    }
}

/// The position of the entry for change `ch`, if there is one.
fn find_change(ci: &Vec<(String, Vec<&str>)>, ch: &String) -> (r: Option<usize>)
    ensures
        match r {
            Some(k) => k < ci.len() && ci@[k as int].0@ == ch@,
            None => forall|k: int| 0 <= k < ci.len() ==> (#[trigger] ci@[k]).0@ != ch@,
        },
{
    let mut k: usize = 0;
    while k < ci.len()
        invariant
            k <= ci.len(),
            forall|j: int| 0 <= j < k ==> (#[trigger] ci@[j]).0@ != ch@,
        decreases ci.len() - k,
    {
        if ci[k].0 == *ch {
            return Some(k);
        }
        k = k + 1;
    }
    None
}

fn contains_id(ids: &Vec<&str>, id: &str) -> (r: bool)
    ensures
        r == ids_view(ids@).contains(id@),
{
    let mut k: usize = 0;
    while k < ids.len()
        invariant
            k <= ids.len(),
            forall|j: int| 0 <= j < k ==> (#[trigger] ids@[j])@ != id@,
        decreases ids.len() - k,
    {
        if same_str(ids[k], id) {
            assert(ids_view(ids@)[k as int] == id@);
            return true;
        }
        k = k + 1;
    }
    proof {
        if ids_view(ids@).contains(id@) {
            let j = choose|j: int| 0 <= j < ids.len() && ids_view(ids@)[j] == id@;
            assert(ids@[j]@ != id@);
        }
    }
    false
}

/// The changed lines of a commit, as the index knows them, in order.
fn changes_of(commit: &Commit) -> (cs: Vec<String>)
    ensures
        cs@.map_values(|s: String| s@).to_set() == commit_changes(*commit),
{
    let ghost sel = |l: DiffLine| is_change(l.line_type);
    let ghost f = |l: DiffLine| index_change(l);
    let ghost mut done: Seq<DiffLine> = Seq::empty();
    let mut cs: Vec<String> = Vec::new();
    let mut h: usize = 0;
    while h < commit.diff.hunks.len()
        invariant
            h <= commit.diff.hunks.len(),
            sel == (|l: DiffLine| is_change(l.line_type)),
            f == (|l: DiffLine| index_change(l)),
            done == body_lines(commit.diff.hunks@.take(h as int)),
            cs@.map_values(|s: String| s@) == done.filter(sel).map_values(f),
        decreases commit.diff.hunks.len() - h,
    {
        let body = &commit.diff.hunks[h].body;
        let ghost before = done;
        proof {
            let t = commit.diff.hunks@.take(h + 1);
            assert(t.drop_last() == commit.diff.hunks@.take(h as int));
        }
        let mut k: usize = 0;
        while k < body.len()
            invariant
                k <= body.len(),
                sel == (|l: DiffLine| is_change(l.line_type)),
                f == (|l: DiffLine| index_change(l)),
                done == before + body@.take(k as int),
                cs@.map_values(|s: String| s@) == done.filter(sel).map_values(f),
            decreases body.len() - k,
        {
            let line = &body[k];
            let ghost cv0 = cs@.map_values(|s: String| s@);
            proof {
                assert(body@.take(k + 1) == body@.take(k as int).push(*line));
                assert(before + body@.take(k + 1) == done.push(*line));
                done.lemma_filter_push(*line, sel);
            }
            if is_change_exec(line.line_type) {
                let mut c = String::new();
                push_char(&mut c, line.line_type.char());
                push_char(&mut c, ' ');
                let content = chars_of(line.content.as_str());
                let (a, b) = trim_range(&content, 0, content.len());
                let t = string_of_range(&content, a, b);
                append_str(&mut c, t.as_str());
                proof {
                    assert(content@.subrange(0, content.len() as int) == line.content@);
                    assert(c@ == index_change(*line));
                }
                cs.push(c);
                proof {
                    assert(cs@.map_values(|s: String| s@) =~= cv0.push(index_change(*line)));
                    assert(done.push(*line).filter(sel) == done.filter(sel).push(*line));
                    assert(done.push(*line).filter(sel).map_values(f) =~= done.filter(sel).map_values(f).push(f(*line)));
                }
            } else {
                proof {
                    assert(done.push(*line).filter(sel) == done.filter(sel));
                }
            }
            proof {
                done = done.push(*line);
            }
            k = k + 1;
        }
        assert(body@.take(body.len() as int) == body@);
        h = h + 1;
    }
    assert(commit.diff.hunks@.take(commit.diff.hunks.len() as int) == commit.diff.hunks@);
    cs
}

fn is_change_exec(t: crate::git::LineType) -> (r: bool)
    ensures
        r == is_change(t),
{
    match t {
        crate::git::LineType::Addition | crate::git::LineType::Deletion | crate::git::LineType::AddEofnl
            | crate::git::LineType::DelEofnl => true,
        _ => false,
    }
}


/// The pairs as texts.
pub open spec fn pair_models(ps: Seq<CandidatePair>) -> Seq<(Seq<char>, Seq<char>)> {
    ps.map_values(|p: CandidatePair| (p.0@, p.1@))
}

/// The ordered pair of the ids at `i` and `j`.
pub open spec fn entry_pair(ids: Seq<Seq<char>>, i: int, j: int) -> (Seq<char>, Seq<char>) {
    if compare_chars(ids[i], ids[j]) <= 0 { (ids[i], ids[j]) } else { (ids[j], ids[i]) }
}

/// The ordered pair of the ids at `i` and `j` of entry `k`, for some `k, i, j` before the
/// given position in the order of the search.
pub open spec fn pair_found(v: Seq<(Seq<char>, Seq<Seq<char>>)>, x: (Seq<char>, Seq<char>), k: int, i: int, j: int) -> bool {
    exists|k2: int, i2: int, j2: int| #![trigger entry_pair(v[k2].1, i2, j2)]
        0 <= k2 < v.len() && 0 <= i2 < v[k2].1.len() && 0 <= j2 < v[k2].1.len() && i2 != j2
        && (k2 < k || (k2 == k && (i2 < i || (i2 == i && j2 < j))))
        && entry_pair(v[k2].1, i2, j2) == x
}

/// Adds the pair unless an equal one is there already.
fn insert_pair<'a>(pairs: &mut Vec<CandidatePair<'a>>, p: CandidatePair<'a>)
    ensures
        pair_models(final(pairs)@) == if pair_models(old(pairs)@).contains((p.0@, p.1@)) {
            pair_models(old(pairs)@)
        } else {
            pair_models(old(pairs)@).push((p.0@, p.1@))
        },
{
    let ghost m0 = pair_models(pairs@);
    let mut k: usize = 0;
    while k < pairs.len()
        invariant
            k <= pairs.len(),
            m0 == pair_models(pairs@),
            forall|j: int| 0 <= j < k ==> #[trigger] m0[j] != (p.0@, p.1@),
        decreases pairs.len() - k,
    {
        if same_str(pairs[k].0, p.0) && same_str(pairs[k].1, p.1) {
            assert(m0[k as int] == (p.0@, p.1@));
            return;
        }
        k = k + 1;
    }
    let ghost x = (p.0@, p.1@);
    pairs.push(p);
    assert(pair_models(pairs@) =~= m0.push(x));
}

impl<'a> Index<'a> {
    /// The candidate pairs: the pairs of commit ids that share a change, the smaller id first;
    /// each pair once.
    pub fn candidate_pairs(&self) -> (pairs: Vec<CandidatePair<'a>>)
        requires
            self.wf(),
        ensures
            pair_models(pairs@).no_duplicates(),
            forall|a: Seq<char>, b: Seq<char>| pair_models(pairs@).contains((a, b)) <==> is_candidate(self.entries(), a, b),
    {
        let ghost v = self.entries();
        let mut pairs: Vec<CandidatePair<'a>> = Vec::new();
        let mut k: usize = 0;
        while k < self.commit_index.len()
            invariant
                k <= self.commit_index.len(),
                v == self.entries(),
                entries_ok(v),
                pair_models(pairs@).no_duplicates(),
                forall|x: (Seq<char>, Seq<char>)| pair_models(pairs@).contains(x) <==> pair_found(v, x, k as int, 0, 0),
            decreases self.commit_index.len() - k,
        {
            let ids = &self.commit_index[k].1;
            let ghost iv = ids_view(ids@);
            assert(iv == v[k as int].1);
            let mut i: usize = 0;
            while i < ids.len()
                invariant
                    k < self.commit_index.len(),
                    i <= ids.len(),
                    v == self.entries(),
                    iv == ids_view(ids@),
                    iv == v[k as int].1,
                    pair_models(pairs@).no_duplicates(),
                    forall|x: (Seq<char>, Seq<char>)| pair_models(pairs@).contains(x) <==> pair_found(v, x, k as int, i as int, 0),
                decreases ids.len() - i,
            {
                let mut j: usize = 0;
                while j < ids.len()
                    invariant
                        k < self.commit_index.len(),
                        i < ids.len(),
                        j <= ids.len(),
                        v == self.entries(),
                        iv == ids_view(ids@),
                        iv == v[k as int].1,
                        pair_models(pairs@).no_duplicates(),
                        forall|x: (Seq<char>, Seq<char>)| pair_models(pairs@).contains(x) <==> pair_found(v, x, k as int, i as int, j as int),
                    decreases ids.len() - j,
                {
                    let ghost m0 = pair_models(pairs@);
                    let ghost found: Option<(Seq<char>, Seq<char>)> = None;
                    if i != j {
                        let p = CandidatePair::new(ids[i], ids[j]);
                        proof {
                            found = Some((p.0@, p.1@));
                            assert(iv[i as int] == ids@[i as int]@);
                            assert(iv[j as int] == ids@[j as int]@);
                            assert((p.0@, p.1@) == entry_pair(iv, i as int, j as int));
                        }
                        insert_pair(&mut pairs, p);
                    }
                    proof {
                        let m1 = pair_models(pairs@);
                        lemma_insert_pair_models(m0, found, m1);
                        assert forall|x: (Seq<char>, Seq<char>)| m1.contains(x) <==> pair_found(v, x, k as int, i as int, j + 1) by {
                            if pair_found(v, x, k as int, i as int, j + 1) {
                                let (k2, i2, j2) = choose|k2: int, i2: int, j2: int| #![trigger entry_pair(v[k2].1, i2, j2)]
                                    0 <= k2 < v.len() && 0 <= i2 < v[k2].1.len() && 0 <= j2 < v[k2].1.len() && i2 != j2
                                    && (k2 < k || (k2 == k && (i2 < i || (i2 == i && j2 < j + 1))))
                                    && entry_pair(v[k2].1, i2, j2) == x;
                                if !(k2 == k && i2 == i && j2 == j) {
                                    assert(pair_found(v, x, k as int, i as int, j as int));
                                }
                            }
                            if m0.contains(x) {
                                assert(pair_found(v, x, k as int, i as int, j as int));
                                let (k2, i2, j2) = choose|k2: int, i2: int, j2: int| #![trigger entry_pair(v[k2].1, i2, j2)]
                                    0 <= k2 < v.len() && 0 <= i2 < v[k2].1.len() && 0 <= j2 < v[k2].1.len() && i2 != j2
                                    && (k2 < k || (k2 == k && (i2 < i || (i2 == i && j2 < j))))
                                    && entry_pair(v[k2].1, i2, j2) == x;
                                assert(entry_pair(v[k2].1, i2, j2) == x);
                            }
                            if found == Some(x) {
                                assert(entry_pair(v[k as int].1, i as int, j as int) == x);
                            }
                        }
                    }
                    j = j + 1;
                }
                proof {
                    assert forall|x: (Seq<char>, Seq<char>)| pair_found(v, x, k as int, i as int, ids.len() as int)
                        <==> pair_found(v, x, k as int, i + 1, 0) by {
                        if pair_found(v, x, k as int, i + 1, 0) {
                            let (k2, i2, j2) = choose|k2: int, i2: int, j2: int| #![trigger entry_pair(v[k2].1, i2, j2)]
                                0 <= k2 < v.len() && 0 <= i2 < v[k2].1.len() && 0 <= j2 < v[k2].1.len() && i2 != j2
                                && (k2 < k || (k2 == k && (i2 < i + 1 || (i2 == i + 1 && j2 < 0))))
                                && entry_pair(v[k2].1, i2, j2) == x;
                            assert(entry_pair(v[k2].1, i2, j2) == x);
                        }
                        if pair_found(v, x, k as int, i as int, ids.len() as int) {
                            let (k2, i2, j2) = choose|k2: int, i2: int, j2: int| #![trigger entry_pair(v[k2].1, i2, j2)]
                                0 <= k2 < v.len() && 0 <= i2 < v[k2].1.len() && 0 <= j2 < v[k2].1.len() && i2 != j2
                                && (k2 < k || (k2 == k && (i2 < i || (i2 == i && j2 < ids.len()))))
                                && entry_pair(v[k2].1, i2, j2) == x;
                            assert(entry_pair(v[k2].1, i2, j2) == x);
                        }
                    }
                }
                i = i + 1;
            }
            proof {
                assert forall|x: (Seq<char>, Seq<char>)| pair_found(v, x, k as int, ids.len() as int, 0)
                    <==> pair_found(v, x, k + 1, 0, 0) by {
                    if pair_found(v, x, k + 1, 0, 0) {
                        let (k2, i2, j2) = choose|k2: int, i2: int, j2: int| #![trigger entry_pair(v[k2].1, i2, j2)]
                            0 <= k2 < v.len() && 0 <= i2 < v[k2].1.len() && 0 <= j2 < v[k2].1.len() && i2 != j2
                            && (k2 < k + 1 || (k2 == k + 1 && (i2 < 0 || (i2 == 0 && j2 < 0))))
                            && entry_pair(v[k2].1, i2, j2) == x;
                        assert(entry_pair(v[k2].1, i2, j2) == x);
                    }
                    if pair_found(v, x, k as int, ids.len() as int, 0) {
                        let (k2, i2, j2) = choose|k2: int, i2: int, j2: int| #![trigger entry_pair(v[k2].1, i2, j2)]
                            0 <= k2 < v.len() && 0 <= i2 < v[k2].1.len() && 0 <= j2 < v[k2].1.len() && i2 != j2
                            && (k2 < k || (k2 == k && (i2 < ids.len() || (i2 == ids.len() && j2 < 0))))
                            && entry_pair(v[k2].1, i2, j2) == x;
                        assert(entry_pair(v[k2].1, i2, j2) == x);
                    }
                }
            }
            k = k + 1;
        }
        proof {
            assert forall|a: Seq<char>, b: Seq<char>| pair_models(pairs@).contains((a, b)) <==> is_candidate(v, a, b) by {
                if pair_found(v, (a, b), v.len() as int, 0, 0) {
                    let (k2, i2, j2) = choose|k2: int, i2: int, j2: int| #![trigger entry_pair(v[k2].1, i2, j2)]
                        0 <= k2 < v.len() && 0 <= i2 < v[k2].1.len() && 0 <= j2 < v[k2].1.len() && i2 != j2
                        && (k2 < v.len() || (k2 == v.len() && (i2 < 0 || (i2 == 0 && j2 < 0))))
                        && entry_pair(v[k2].1, i2, j2) == (a, b);
                    let ids = v[k2].1;
                    assert(ids.no_duplicates());
                    assert(ids[i2] != ids[j2]);
                    crate::git::lemma_compare_chars_antisymmetric(ids[i2], ids[j2]);
                    assert(ids.contains(a) && ids.contains(b));
                }
                if is_candidate(v, a, b) {
                    let k2 = choose|k2: int| 0 <= k2 < v.len() && #[trigger] v[k2].1.contains(a) && v[k2].1.contains(b);
                    let ids = v[k2].1;
                    let i2 = choose|i2: int| 0 <= i2 < ids.len() && ids[i2] == a;
                    let j2 = choose|j2: int| 0 <= j2 < ids.len() && ids[j2] == b;
                    crate::git::lemma_compare_chars_antisymmetric(a, b);
                    assert(i2 != j2);
                    assert(entry_pair(v[k2].1, i2, j2) == (a, b));
                    assert(pair_found(v, (a, b), v.len() as int, 0, 0));
                }
            }
        }
        pairs
    }
}

/// What inserting a pair, or none, does to the set of pairs.
proof fn lemma_insert_pair_models(
    m0: Seq<(Seq<char>, Seq<char>)>,
    found: Option<(Seq<char>, Seq<char>)>,
    m1: Seq<(Seq<char>, Seq<char>)>,
)
    requires
        m0.no_duplicates(),
        found is None ==> m1 == m0,
        found matches Some(x) ==> m1 == (if m0.contains(x) { m0 } else { m0.push(x) }),
    ensures
        m1.no_duplicates(),
        forall|x: (Seq<char>, Seq<char>)| m1.contains(x) <==> (m0.contains(x) || found == Some(x)),
{
    match found {
        Some(fx) => {
            if !m0.contains(fx) {
                assert forall|x: (Seq<char>, Seq<char>)| m1.contains(x) <==> (m0.contains(x) || fx == x) by {
                    if m1.contains(x) {
                        let j = choose|j: int| 0 <= j < m1.len() && m1[j] == x;
                        if j < m0.len() {
                            assert(m0[j] == x);
                        }
                    }
                    if m0.contains(x) {
                        let j = choose|j: int| 0 <= j < m0.len() && m0[j] == x;
                        assert(m1[j] == x);
                    }
                    if fx == x {
                        assert(m1[m0.len() as int] == x);
                    }
                }
                assert forall|a: int, b: int| 0 <= a < b < m1.len() implies m1[a] != m1[b] by {
                    if b == m0.len() {
                        assert(m0[a] == m1[a]);
                    }
                }
            }
        },
        None => {},
    }
}


proof fn lemma_same_key_same_index_change(l1: DiffLine, l2: DiffLine)
    requires
        change_key(l1) == change_key(l2),
    ensures
        index_change(l1) == index_change(l2),
{
    let k1 = change_key(l1);
    let k2 = change_key(l2);
    assert(k1[0] == line_type_char(l1.line_type));
    assert(k2[0] == line_type_char(l2.line_type));
    assert(k1.drop_first() =~= trim(l1.content@));
    assert(k2.drop_first() =~= trim(l2.content@));
    assert(index_change(l1) =~= index_change(l2));
}

/// A change that two diffs share is a changed line of each that the index knows by the same
/// text.
proof fn lemma_shared_change_text(c1: Commit, c2: Commit, x: Seq<char>)
    requires
        change_set(c1.diff).contains(x),
        change_set(c2.diff).contains(x),
    ensures
        exists|ch: Seq<char>| #[trigger] commit_changes(c1).contains(ch) && commit_changes(c2).contains(ch),
{
    let ls1 = change_lines(c1.diff);
    let ls2 = change_lines(c2.diff);
    assert(change_texts(c1.diff).to_set().contains(x) == change_texts(c1.diff).contains(x));
    assert(change_texts(c2.diff).to_set().contains(x) == change_texts(c2.diff).contains(x));
    let i = choose|i: int| 0 <= i < change_texts(c1.diff).len() && change_texts(c1.diff)[i] == x;
    let j = choose|j: int| 0 <= j < change_texts(c2.diff).len() && change_texts(c2.diff)[j] == x;
    assert(change_text(ls1, i) == x);
    assert(change_text(ls2, j) == x);
    lemma_change_text_key(ls1, i, ls2, j);
    lemma_same_key_same_index_change(ls1[i], ls2[j]);
    let ch = index_change(ls1[i]);
    let m1 = ls1.map_values(|l: DiffLine| index_change(l));
    let m2 = ls2.map_values(|l: DiffLine| index_change(l));
    assert(m1[i] == ch);
    assert(m2[j] == ch);
    assert(m1.to_set().contains(ch) == m1.contains(ch));
    assert(m2.to_set().contains(ch) == m2.contains(ch));
    assert(commit_changes(c1) == m1.to_set());
    assert(commit_changes(c2) == m2.to_set());
    assert(commit_changes(c1).contains(ch) && commit_changes(c2).contains(ch));
}

/// In an index that lists every change of its stored commits, two stored commits whose
/// changes overlap share a change, and so are a candidate pair in the order of their ids.
pub proof fn lemma_overlap_is_candidate<'a>(index: Index<'a>, a: Seq<char>, b: Seq<char>)
    requires
        index.wf(),
        index.covers(),
        index.stored().contains_key(a),
        index.stored().contains_key(b),
        compare_chars(a, b) < 0,
        overlap_of(change_set(index.stored()[a].diff), change_set(index.stored()[b].diff)).0 > 0,
    ensures
        is_candidate(index.entries(), a, b),
{
    let sa = change_set(index.stored()[a].diff);
    let sb = change_set(index.stored()[b].diff);
    let both = sa.intersect(sb);
    assert(exists|x: Seq<char>| both.contains(x)) by {
        if !(exists|x: Seq<char>| both.contains(x)) {
            assert(both =~= Set::<Seq<char>>::empty());
        }
    }
    let x = choose|x: Seq<char>| both.contains(x);
    lemma_shared_change_text(*index.stored()[a], *index.stored()[b], x);
    let ch = choose|ch: Seq<char>| #[trigger] commit_changes(*index.stored()[a]).contains(ch)
        && commit_changes(*index.stored()[b]).contains(ch);
    let v = index.entries();
    assert(has_change(v, ch, a));
    assert(has_change(v, ch, b));
    let ka = choose|k: int| 0 <= k < v.len() && v[k].0 == ch && #[trigger] v[k].1.contains(a);
    let kb = choose|k: int| 0 <= k < v.len() && v[k].0 == ch && #[trigger] v[k].1.contains(b);
    if ka != kb {
        if ka < kb {
            assert(v[ka].0 != v[kb].0);
        } else {
            assert(v[kb].0 != v[ka].0);
        }
    }
    assert(v[ka].1.contains(a) && v[ka].1.contains(b));
}

/// A candidate pair of commits and how much their changes overlap.
pub open spec fn rated_pair<'a>(index: Index<'a>, r: (&'a Commit, &'a Commit, ChangeOverlap), a: Seq<char>, b: Seq<char>) -> bool {
    &&& index.stored().contains_key(a)
    &&& index.stored().contains_key(b)
    &&& r.0 == index.stored()[a]
    &&& r.1 == index.stored()[b]
    &&& overlap_view(r.2) == overlap_of(change_set(r.0.diff), change_set(r.1.diff))
}

/// The rated pair belongs to some candidate pair.
pub open spec fn rated_candidate<'a>(index: Index<'a>, r: (&'a Commit, &'a Commit, ChangeOverlap)) -> bool {
    exists|a: Seq<char>, b: Seq<char>| is_candidate(index.entries(), a, b) && #[trigger] rated_pair(index, r, a, b)
}

impl<'a> Index<'a> {
    /// Each candidate pair once, with the commits stored under the two ids and how much their
    /// changes overlap; whether a pair is similar enough is the threshold's decision.
    pub fn candidates(&self, comparator: &mut ChangeSimilarityComparator) -> (rated: Vec<(&'a Commit, &'a Commit, ChangeOverlap)>)
        requires
            self.wf(),
            forall|id: Seq<char>| #[trigger] self.stored().contains_key(id)
                ==> body_lines(self.stored()[id].diff.hunks@).len() < usize::MAX,
        ensures
            forall|i: int| 0 <= i < rated.len() ==> #[trigger] rated_candidate(*self, rated@[i]),
            forall|a: Seq<char>, b: Seq<char>| is_candidate(self.entries(), a, b) ==> exists|i: int|
                0 <= i < rated.len() && #[trigger] rated_pair(*self, rated@[i], a, b),
            forall|i: int, j: int| 0 <= i < j < rated.len() ==> ((#[trigger] rated@[i]).0.id@, rated@[i].1.id@)
                != ((#[trigger] rated@[j]).0.id@, rated@[j].1.id@),
            self.covers() ==> forall|a: Seq<char>, b: Seq<char>| #[trigger] self.stored().contains_key(a)
                && #[trigger] self.stored().contains_key(b) && compare_chars(a, b) < 0
                && overlap_of(change_set(self.stored()[a].diff), change_set(self.stored()[b].diff)).0 > 0
                ==> exists|i: int| 0 <= i < rated.len() && #[trigger] rated_pair(*self, rated@[i], a, b),
    {
        let pairs = self.candidate_pairs();
        let ghost pm = pair_models(pairs@);
        let mut rated: Vec<(&'a Commit, &'a Commit, ChangeOverlap)> = Vec::new();
        let mut k: usize = 0;
        while k < pairs.len()
            invariant
                k <= pairs.len(),
                self.wf(),
                pm == pair_models(pairs@),
                forall|a: Seq<char>, b: Seq<char>| pm.contains((a, b)) <==> is_candidate(self.entries(), a, b),
                forall|id: Seq<char>| #[trigger] self.stored().contains_key(id)
                    ==> body_lines(self.stored()[id].diff.hunks@).len() < usize::MAX,
                rated.len() == k,
                forall|i: int| 0 <= i < k ==> #[trigger] rated_pair(*self, rated@[i], pm[i].0, pm[i].1),
            decreases pairs.len() - k,
        {
            let p = &pairs[k];
            let ghost a = p.0@;
            let ghost b = p.1@;
            proof {
                assert(pm[k as int] == (a, b));
                assert(pm.contains((a, b)));
                assert(is_candidate(self.entries(), a, b));
                let kk = choose|kk: int| 0 <= kk < self.entries().len() && #[trigger] self.entries()[kk].1.contains(a)
                    && self.entries()[kk].1.contains(b);
                assert(self.stored().contains_key(a));
                assert(self.stored().contains_key(b));
            }
            match (self.commit_storage.get(p.0), self.commit_storage.get(p.1)) {
                (Some(ca), Some(cb)) => {
                    let ca: &'a Commit = *ca;
                    let cb: &'a Commit = *cb;
                    let overlap = comparator.change_similarity(&ca.diff, &cb.diff);
                    let ghost r0 = rated@;
                    rated.push((ca, cb, overlap));
                    proof {
                        assert forall|i: int| 0 <= i < k + 1 implies #[trigger] rated_pair(*self, rated@[i], pm[i].0, pm[i].1) by {
                            if i < k {
                                assert(rated@[i] == r0[i]);
                            }
                        }
                    }
                },
                _ => {
                    assert(false);
                },
            }
            k = k + 1;
        }
        proof {
            assert forall|i: int| 0 <= i < rated.len() implies #[trigger] rated_candidate(*self, rated@[i]) by {
                assert(pm.contains(pm[i]));
                assert(is_candidate(self.entries(), pm[i].0, pm[i].1));
                assert(rated_pair(*self, rated@[i], pm[i].0, pm[i].1));
            }
            assert forall|i: int, j: int| 0 <= i < j < rated.len() implies ((#[trigger] rated@[i]).0.id@, rated@[i].1.id@)
                != ((#[trigger] rated@[j]).0.id@, rated@[j].1.id@) by {
                assert(rated_pair(*self, rated@[i], pm[i].0, pm[i].1));
                assert(rated_pair(*self, rated@[j], pm[j].0, pm[j].1));
                assert(pm[i] != pm[j]);
            }
            assert forall|a: Seq<char>, b: Seq<char>| is_candidate(self.entries(), a, b) implies exists|i: int|
                0 <= i < rated.len() && #[trigger] rated_pair(*self, rated@[i], a, b) by {
                assert(pm.contains((a, b)));
                let i = choose|i: int| 0 <= i < pm.len() && pm[i] == (a, b);
                assert(rated_pair(*self, rated@[i], pm[i].0, pm[i].1));
            }
            if self.covers() {
                assert forall|a: Seq<char>, b: Seq<char>| #[trigger] self.stored().contains_key(a)
                    && #[trigger] self.stored().contains_key(b) && compare_chars(a, b) < 0
                    && overlap_of(change_set(self.stored()[a].diff), change_set(self.stored()[b].diff)).0 > 0
                    implies exists|i: int| 0 <= i < rated.len() && #[trigger] rated_pair(*self, rated@[i], a, b) by {
                    lemma_overlap_is_candidate(*self, a, b);
                    assert(pm.contains((a, b)));
                    let i = choose|i: int| 0 <= i < pm.len() && pm[i] == (a, b);
                    assert(rated_pair(*self, rated@[i], pm[i].0, pm[i].1));
                }
            }
        }
        rated
    }
}

} // verus!
