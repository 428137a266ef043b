//! From diffs to signatures, reading a diff in shingles of whole lines.
use vstd::prelude::*;

use bit_vec::BitVec;

use crate::bits::bits_of;
use crate::error::Error;
use crate::git::{Commit, Diff};
use crate::search::methods::lsh::preprocessing as plain;
use crate::search::methods::lsh::preprocessing::{
    char_shingles, commits_char_shingles, is_vocabulary, lines_text, one_hot_bits, all_known,
    concat_all, min_hashes, signatures_under, texts_shingles, unknown_shingle_message,
};
use crate::text::{append_str, chars_of, line_ranges, lines, push_char, trim, trim_range, range_texts, ranges_within};

pub use crate::search::methods::lsh::preprocessing::{MinHash, Signature};

verus! {

/// A shingle: the text of a window of lines.
#[derive(Debug, Default, Clone)]
pub struct Shingle(pub String);

impl Shingle {
    /// The text of the shingle.
    pub fn to_text(&self) -> (t: String)
        ensures
            t@ == self.0@,
    {
        self.0.clone()
    }
}

/// The shingles of a text, one for each of its lines: the window of `arity` lines that starts
/// there.
#[derive(Debug, Default)]
pub struct ShingledText {
    pub shingles: Vec<Shingle>,
    pub arity: usize,
}

/// The lines `from..to` of `ls`, each trimmed, one after the other; lines past the end count
/// as empty.
pub open spec fn window_text(ls: Seq<Seq<char>>, from: int, to: int) -> Seq<char>
    decreases to - from,
{
    if from >= to {
        Seq::empty()
    } else {
        (if 0 <= from < ls.len() { trim(ls[from]) } else { Seq::empty() }) + window_text(ls, from + 1, to)
    }
}

/// The line shingles of a text: for each line, its window of `arity` trimmed lines.
pub open spec fn line_shingles(t: Seq<char>, arity: nat) -> Seq<Seq<char>> {
    let ls = lines(t);
    Seq::new(ls.len(), |p: int| window_text(ls, p, p + arity))
}

pub open spec fn shingled_view(s: ShingledText) -> Seq<Seq<char>> {
    s.shingles@.map_values(|x: Shingle| x.0@)
}

/// The lines `from..to` one after the other, where the window reaches past the end of the
/// lines at `end`.
proof fn lemma_window_past_end(ls: Seq<Seq<char>>, from: int, end: int, to: int)
    requires
        0 <= from <= end <= to,
        end == ls.len(),
    ensures
        window_text(ls, from, to) == window_text(ls, from, end),
    decreases end - from,
{
    if from < end {
        lemma_window_past_end(ls, from + 1, end, to);
    } else {
        lemma_window_empty(ls, end, to);
    }
}

proof fn lemma_window_empty(ls: Seq<Seq<char>>, from: int, to: int)
    requires
        ls.len() <= from,
    ensures
        window_text(ls, from, to) == Seq::<char>::empty(),
    decreases to - from,
{
    if from < to {
        lemma_window_empty(ls, from + 1, to);
        assert(window_text(ls, from, to) =~= Seq::<char>::empty() + window_text(ls, from + 1, to));
    }
}

/// Appending line `k` to the window `from..k` gives the window `from..k+1`.
proof fn lemma_window_extend(ls: Seq<Seq<char>>, from: int, k: int)
    requires
        from <= k,
    ensures
        window_text(ls, from, k + 1) == window_text(ls, from, k)
            + (if 0 <= k < ls.len() { trim(ls[k]) } else { Seq::empty() }),
    decreases k - from,
{
    if from < k {
        lemma_window_extend(ls, from + 1, k);
        assert(window_text(ls, from, k + 1) =~= window_text(ls, from, k)
            + (if 0 <= k < ls.len() { trim(ls[k]) } else { Seq::empty() }));
    } else {
        assert(window_text(ls, k, k) =~= Seq::<char>::empty());
        assert(window_text(ls, k + 1, k + 1) =~= Seq::<char>::empty());
        assert(window_text(ls, k, k + 1) =~= (if 0 <= k < ls.len() { trim(ls[k]) } else { Seq::empty() }));
    }
}

impl ShingledText {
    /// Reads the text in windows of `arity` lines: one shingle for each line, made of that
    /// line and the following ones, each trimmed, without separators.
    pub fn new(text: &str, arity: usize) -> (s: Self)
        ensures
            shingled_view(s) == line_shingles(text@, arity as nat),
            s.arity == arity,
    {
        let cs = chars_of(text);
        let rs = line_ranges(&cs, 0, cs.len());
        let ghost ls = lines(text@);
        proof {
            assert(cs@.subrange(0, cs.len() as int) == text@);
        }
        let n = rs.len();
        let mut shingles: Vec<Shingle> = Vec::new();
        let mut p: usize = 0;
        while p < n
            invariant
                n == rs.len(),
                p <= n,
                ls == range_texts(cs@, rs@),
                ls == lines(text@),
                ranges_within(rs@, 0, cs.len() as int),
                shingles.len() == p,
                forall|j: int| 0 <= j < p ==> #[trigger] shingles@[j].0@ == window_text(ls, j, j + arity),
            decreases n - p,
        {
            let end = if arity > n - p { n } else { p + arity };
            let mut sh = String::new();
            let mut k = p;
            while k < end
                invariant
                    p <= k <= end <= n,
                    n == rs.len(),
                    ls == range_texts(cs@, rs@),
                    ranges_within(rs@, 0, cs.len() as int),
                    sh@ == window_text(ls, p as int, k as int),
                decreases end - k,
            {
                let (from, to) = rs[k];
                let (a, b) = trim_range(&cs, from, to);
                let mut q = a;
                let ghost sh0 = sh@;
                while q < b
                    invariant
                        a <= q <= b <= cs.len(),
                        sh@ == sh0 + cs@.subrange(a as int, q as int),
                    decreases b - q,
                {
                    push_char(&mut sh, cs[q]);
                    q = q + 1;
                    assert(sh@ =~= sh0 + cs@.subrange(a as int, q as int));
                }
                proof {
                    assert(ls[k as int] == cs@.subrange(from as int, to as int));
                    lemma_window_extend(ls, p as int, k as int);
                }
                k = k + 1;
            }
            proof {
                if arity > n - p {
                    lemma_window_past_end(ls, p as int, n as int, p + arity);
                }
            }
            shingles.push(Shingle(sh));
            p = p + 1;
        }
        let s = ShingledText { shingles, arity };
        assert(shingled_view(s) =~= line_shingles(text@, arity as nat));
        s
    }

    /// The shingles, each followed by a newline.
    pub fn to_text(&self) -> (t: String)
        ensures
            t@ == lines_text(shingled_view(*self)),
    {
        let mut t = String::new();
        let mut i: usize = 0;
        while i < self.shingles.len()
            invariant
                i <= self.shingles.len(),
                t@ == lines_text(shingled_view(*self).take(i as int)),
            decreases self.shingles.len() - i,
        {
            append_str(&mut t, self.shingles[i].0.as_str());
            push_char(&mut t, '\n');
            assert(shingled_view(*self).take(i + 1).drop_last() == shingled_view(*self).take(i as int));
            i = i + 1;
        }
        assert(shingled_view(*self).take(self.shingles.len() as int) == shingled_view(*self));
        t
    }

    /// The same shingles, as plain strings.
    fn to_plain(&self) -> (p: plain::ShingledText)
        ensures
            plain::shingle_texts_view(p) == shingled_view(*self),
            p.arity() == self.arity,
    {
        let mut shingles: Vec<String> = Vec::new();
        let mut i: usize = 0;
        while i < self.shingles.len()
            invariant
                i <= self.shingles.len(),
                shingles.len() == i,
                shingles@.map_values(|x: String| x@) == shingled_view(*self).take(i as int),
            decreases self.shingles.len() - i,
        {
            let c = self.shingles[i].0.clone();
            assert(c@ == shingled_view(*self)[i as int]);
            shingles.push(c);
            assert(shingles@.map_values(|x: String| x@) =~= shingled_view(*self).take(i + 1));
            i = i + 1;
        }
        assert(shingled_view(*self).take(self.shingles.len() as int) == shingled_view(*self));
        plain::ShingledText::from_shingles(shingles, self.arity)
    }
}

pub fn shingle_diff(diff: &Diff, arity: usize) -> (s: ShingledText)
    ensures
        shingled_view(s) == line_shingles(diff.diff_text@, arity as nat),
        s.arity == arity,
{
    ShingledText::new(diff.diff_text(), arity)
}

pub fn shingle_text(diff: &str, arity: usize) -> (s: ShingledText)
    ensures
        shingled_view(s) == line_shingles(diff@, arity as nat),
        s.arity == arity,
{
    ShingledText::new(diff, arity)
}


/// The line shingles of each text.
pub open spec fn ann_texts_shingles(texts: Seq<ShingledText>) -> Seq<Seq<Seq<char>>> {
    texts.map_values(|t: ShingledText| shingled_view(t))
}

/// The line shingles of each of the texts.
pub open spec fn texts_line_shingles(texts: Seq<&str>, arity: nat) -> Seq<Seq<Seq<char>>> {
    texts.map_values(|t: &str| line_shingles(t@, arity))
}

/// The line shingles of each commit's diff text.
pub open spec fn commits_line_shingles(commits: Seq<Commit>, arity: nat) -> Seq<Seq<Seq<char>>> {
    commits.map_values(|c: Commit| line_shingles(c.diff.diff_text@, arity))
}

fn to_plain_all(texts: &[ShingledText]) -> (p: Vec<plain::ShingledText>)
    ensures
        texts_shingles(p@) == ann_texts_shingles(texts@),
{
    let mut p: Vec<plain::ShingledText> = Vec::new();
    let mut i: usize = 0;
    while i < texts.len()
        invariant
            i <= texts.len(),
            p.len() == i,
            texts_shingles(p@) == ann_texts_shingles(texts@.take(i as int)),
        decreases texts.len() - i,
    {
        let ghost p0 = p@;
        p.push(texts[i].to_plain());
        proof {
            assert forall|k: int| 0 <= k < i + 1 implies #[trigger] texts_shingles(p@)[k] == ann_texts_shingles(texts@.take(i + 1))[k] by {
                if k < i {
                    assert(p@[k] == p0[k]);
                    assert(texts_shingles(p0)[k] == ann_texts_shingles(texts@.take(i as int))[k]);
                }
            }
            assert(texts_shingles(p@) =~= ann_texts_shingles(texts@.take(i + 1)));
        }
        i = i + 1;
    }
    assert(texts@.take(texts.len() as int) == texts@);
    p
}

/// A vocabulary of line shingles: each shingle has an index of its own.
pub struct Vocabulary(plain::Vocabulary);

impl View for Vocabulary {
    type V = Map<Seq<char>, usize>;

    closed spec fn view(&self) -> Map<Seq<char>, usize> {
        self.0@
    }
}

impl Vocabulary {
    /// Each shingle has its own index below the number of shingles.
    pub open spec fn wf(&self) -> bool {
        is_vocabulary(self@, self@.dom())
    }

    /// Assigns each of the shingles of the texts its own index below their number; which
    /// shingle gets which index is left to chance.
    pub fn build(shingled_texts: &[ShingledText]) -> (v: Self)
        ensures
            is_vocabulary(v@, concat_all(ann_texts_shingles(shingled_texts@)).to_set()),
    {
        let p = to_plain_all(shingled_texts);
        let v = plain::Vocabulary::build(p.as_slice());
        Vocabulary(v)
    }

    /// The one-hot vector of a shingled text: the bit of each of its shingles is set. A
    /// shingle that the vocabulary does not hold is an `ANNPreprocessing` error.
    pub fn one_hot(&self, shingled_diff: &ShingledText) -> (r: Result<BitVec, Error>)
        requires
            self.wf(),
        ensures
            match r {
                Ok(v) => all_known(self@, shingled_view(*shingled_diff))
                    && bits_of(v) == one_hot_bits(self@, shingled_view(*shingled_diff)),
                Err(e) => !all_known(self@, shingled_view(*shingled_diff))
                    && e.0 == crate::error::ErrorKind::ANNPreprocessing(e.0->ANNPreprocessing_0)
                    && e.0->ANNPreprocessing_0@ == unknown_shingle_message(),
            },
    {
        self.0.one_hot(&shingled_diff.to_plain())
    }

    pub fn len(&self) -> (n: usize)
        ensures
            n == self@.len(),
    {
        self.0.len()
    }

    pub fn is_empty(&self) -> (b: bool)
        ensures
            b == (self@.len() == 0),
    {
        self.0.is_empty()
    }
}

fn shingle_texts(texts: &[&str], arity: usize) -> (s: Vec<ShingledText>)
    ensures
        ann_texts_shingles(s@) == texts_line_shingles(texts@, arity as nat),
{
    let mut s: Vec<ShingledText> = Vec::new();
    let mut i: usize = 0;
    while i < texts.len()
        invariant
            i <= texts.len(),
            s.len() == i,
            ann_texts_shingles(s@) == texts_line_shingles(texts@.take(i as int), arity as nat),
        decreases texts.len() - i,
    {
        let ghost s0 = s@;
        s.push(shingle_text(texts[i], arity));
        proof {
            assert forall|k: int| 0 <= k < i + 1 implies #[trigger] ann_texts_shingles(s@)[k] == texts_line_shingles(texts@.take(i + 1), arity as nat)[k] by {
                if k < i {
                    assert(s@[k] == s0[k]);
                    assert(ann_texts_shingles(s0)[k] == texts_line_shingles(texts@.take(i as int), arity as nat)[k]);
                }
            }
            assert(ann_texts_shingles(s@) =~= texts_line_shingles(texts@.take(i + 1), arity as nat));
        }
        i = i + 1;
    }
    assert(texts@.take(texts.len() as int) == texts@);
    s
}

/// The shingles of each commit's diff, one commit after the other.
fn shingle_commits(commits: &[Commit], arity: usize) -> (s: Vec<ShingledText>)
    ensures
        ann_texts_shingles(s@) == commits_line_shingles(commits@, arity as nat),
{
    let mut s: Vec<ShingledText> = Vec::new();
    let mut i: usize = 0;
    while i < commits.len()
        invariant
            i <= commits.len(),
            s.len() == i,
            ann_texts_shingles(s@) == commits_line_shingles(commits@.take(i as int), arity as nat),
        decreases commits.len() - i,
    {
        let ghost s0 = s@;
        s.push(shingle_diff(commits[i].diff(), arity));
        proof {
            assert forall|k: int| 0 <= k < i + 1 implies #[trigger] ann_texts_shingles(s@)[k] == commits_line_shingles(commits@.take(i + 1), arity as nat)[k] by {
                if k < i {
                    assert(s@[k] == s0[k]);
                    assert(ann_texts_shingles(s0)[k] == commits_line_shingles(commits@.take(i as int), arity as nat)[k]);
                }
            }
            assert(ann_texts_shingles(s@) =~= commits_line_shingles(commits@.take(i + 1), arity as nat));
        }
        i = i + 1;
    }
    assert(commits@.take(commits.len() as int) == commits@);
    s
}

/// The signatures of the commits' diffs, read in shingles of `arity` lines, under a random
/// vocabulary and MinHash of `signature_size` values.
pub fn preprocess_commits(commits: &[Commit], arity: usize, signature_size: usize) -> (sigs: Vec<Signature>)
    ensures
        exists|voc: Map<Seq<char>, usize>, vs: Seq<Seq<usize>>|
            #[trigger] signatures_under(voc, vs, commits_line_shingles(commits@, arity as nat), sigs@, signature_size as nat),
{
    let shingled = shingle_commits(commits, arity);
    let p = to_plain_all(shingled.as_slice());
    plain::shingles_into_signatures(p, signature_size)
}

/// The signatures of the texts, read in shingles of `arity` lines, under a random vocabulary
/// and MinHash of `signature_size` values.
pub fn preprocess_texts(texts: &[&str], arity: usize, signature_size: usize) -> (sigs: Vec<Signature>)
    ensures
        exists|voc: Map<Seq<char>, usize>, vs: Seq<Seq<usize>>|
            #[trigger] signatures_under(voc, vs, texts_line_shingles(texts@, arity as nat), sigs@, signature_size as nat),
{
    let shingled = shingle_texts(texts, arity);
    let p = to_plain_all(shingled.as_slice());
    plain::shingles_into_signatures(p, signature_size)
}

} // verus!
