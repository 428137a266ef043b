//! From diffs to signatures: shingling, a vocabulary of shingles, one-hot vectors, MinHash.
use vstd::prelude::*;
use vstd::hash_map::StringHashMap;

use bit_vec::BitVec;

use crate::bits::{bits_of, bitvec_from_elem, bitvec_get, bitvec_len, bitvec_set, shuffle};
use crate::error::{Error, ErrorKind};
use crate::git::{Commit, Diff};
use crate::text::{append_str, chars_of, push_char, string_of_range};

verus! {

pub type Shingle = String;

/// The MinHash values of a text.
pub type Signature = Vec<u32>;

/// The shingles of a text, the windows of `arity` characters by which it was read. One made
/// by `new` holds at least one shingle; the default one holds none.
#[derive(Debug, Default)]
pub struct ShingledText {
    shingles: Vec<Shingle>,
    arity: usize,
}

/// The text that stands for a text without shingles.
pub open spec fn empty_shingle() -> Seq<char> {
    "EMPTY"@
}

/// The number of windows of `arity` characters that start at a character of a text of `n`
/// characters and lie within it.
pub open spec fn window_count(n: nat, arity: nat) -> nat {
    if arity == 0 {
        n
    } else if n >= arity {
        (n - arity + 1) as nat
    } else {
        0
    }
}

/// The windows of `arity` characters of a text, one for each character at which a window
/// within the text starts; a text without such a window has the single shingle `EMPTY`.
pub open spec fn char_shingles(t: Seq<char>, arity: nat) -> Seq<Seq<char>> {
    let n = window_count(t.len(), arity);
    if n > 0 {
        Seq::new(n, |i: int| t.subrange(i, i + arity))
    } else {
        seq![empty_shingle()]
    }
}

/// The shingles of a shingled text, in order.
pub closed spec fn shingle_texts_view(s: ShingledText) -> Seq<Seq<char>> {
    s.shingles@.map_values(|x: String| x@)
}

impl ShingledText {
    /// The window length by which the text was read.
    pub closed spec fn arity(&self) -> usize {
        self.arity
    }

    /// A shingled text of the given shingles.
    pub(crate) fn from_shingles(shingles: Vec<Shingle>, arity: usize) -> (s: Self)
        ensures
            shingle_texts_view(s) == shingles@.map_values(|x: String| x@),
            s.arity() == arity,
    {
        ShingledText { shingles, arity }
    }

    pub fn new(text: &str, arity: usize) -> (s: Self)
        ensures
            shingle_texts_view(s) == char_shingles(text@, arity as nat),
            shingle_texts_view(s).len() > 0,
            s.arity() == arity,
    {
        let cs = chars_of(text);
        let mut shingles: Vec<Shingle> = Vec::new();
        let n: usize = if arity == 0 {
            cs.len()
        } else if cs.len() >= arity {
            cs.len() - arity + 1
        } else {
            0
        };
        if n > 0 {
            let mut i: usize = 0;
            while i < n
                invariant
                    i <= n,
                    n == window_count(cs.len() as nat, arity as nat),
                    n > 0 ==> n + arity <= cs.len() + 1,
                    arity == 0 || n + arity <= cs.len() + 1,
                    cs@ == text@,
                    shingles.len() == i,
                    shingles@.map_values(|x: String| x@) == Seq::new(i as nat, |j: int| cs@.subrange(j, j + arity)),
                decreases n - i,
            {
                let ghost before = shingles@;
                let sh = string_of_range(&cs, i, i + arity);
                shingles.push(sh);
                proof {
                    assert forall|j: int| 0 <= j < i + 1 implies #[trigger] shingles@[j]@ == cs@.subrange(j, j + arity) by {
                        if j < i {
                            assert(shingles@[j] == before[j]);
                            assert(before.map_values(|x: String| x@)[j] == before[j]@);
                        }
                    }
                    assert(shingles@.map_values(|x: String| x@) =~= Seq::new((i + 1) as nat, |j: int| cs@.subrange(j, j + arity)));
                }
                i = i + 1;
            }
        } else {
            let mut e = String::new();
            append_str(&mut e, "EMPTY");
            shingles.push(e);
            assert(shingles@.map_values(|x: String| x@) =~= seq![empty_shingle()]);
        }
        ShingledText { shingles, arity }
    }

    /// The shingles, each followed by a newline.
    pub fn to_text(&self) -> (t: String)
        ensures
            t@ == lines_text(shingle_texts_view(*self)),
    {
        let mut t = String::new();
        let mut i: usize = 0;
        while i < self.shingles.len()
            invariant
                i <= self.shingles.len(),
                t@ == lines_text(shingle_texts_view(*self).take(i as int)),
            decreases self.shingles.len() - i,
        {
            append_str(&mut t, self.shingles[i].as_str());
            push_char(&mut t, '\n');
            assert(shingle_texts_view(*self).take(i + 1).drop_last() == shingle_texts_view(*self).take(i as int));
            i = i + 1;
        }
        assert(shingle_texts_view(*self).take(self.shingles.len() as int) == shingle_texts_view(*self));
        t
    }
}

/// Each of the texts followed by a newline.
pub open spec fn lines_text(ls: Seq<Seq<char>>) -> Seq<char>
    decreases ls.len(),
{
    if ls.len() == 0 {
        Seq::empty()
    } else {
        lines_text(ls.drop_last()) + ls.last() + seq!['\n']
    }
}

pub fn shingle_diff(diff: &Diff, arity: usize) -> (s: ShingledText)
    ensures
        shingle_texts_view(s) == char_shingles(diff.diff_text@, arity as nat),
        shingle_texts_view(s).len() > 0,
        s.arity() == arity,
{
    ShingledText::new(diff.diff_text(), arity)
}

pub fn shingle_text(diff: &str, arity: usize) -> (s: ShingledText)
    ensures
        shingle_texts_view(s) == char_shingles(diff@, arity as nat),
        shingle_texts_view(s).len() > 0,
        s.arity() == arity,
{
    ShingledText::new(diff, arity)
}


/// The sequences one after the other.
pub open spec fn concat_all(ss: Seq<Seq<Seq<char>>>) -> Seq<Seq<char>>
    decreases ss.len(),
{
    if ss.len() == 0 {
        Seq::empty()
    } else {
        concat_all(ss.drop_last()) + ss.last()
    }
}

/// The shingles of all texts.
pub open spec fn all_shingles(texts: Seq<ShingledText>) -> Set<Seq<char>> {
    concat_all(texts.map_values(|t: ShingledText| shingle_texts_view(t))).to_set()
}

/// A vocabulary of a set of shingles assigns each of them its own index below their number.
pub open spec fn is_vocabulary(m: Map<Seq<char>, usize>, shingles: Set<Seq<char>>) -> bool {
    &&& m.dom() == shingles
    &&& m.dom().finite()
    &&& forall|s: Seq<char>| #[trigger] m.dom().contains(s) ==> m[s] < m.dom().len()
    &&& forall|s1: Seq<char>, s2: Seq<char>| #[trigger] m.dom().contains(s1) && #[trigger] m.dom().contains(s2)
        && s1 != s2 ==> m[s1] != m[s2]
}

/// A vocabulary of shingles: each shingle has an index of its own.
pub struct Vocabulary(StringHashMap<usize>);

impl View for Vocabulary {
    type V = Map<Seq<char>, usize>;

    closed spec fn view(&self) -> Map<Seq<char>, usize> {
        self.0@
    }
}

/// The indices `0..n`.
pub open spec fn index_range(n: nat) -> Seq<usize> {
    Seq::new(n, |i: int| i as usize)
}

proof fn lemma_permutation_of_range(v: Seq<usize>, n: nat)
    requires
        n <= usize::MAX,
        v.to_multiset() == index_range(n).to_multiset(),
    ensures
        v.no_duplicates(),
        v.len() == n,
        forall|i: int| 0 <= i < v.len() ==> #[trigger] v[i] < n,
        forall|k: usize| k < n ==> #[trigger] v.contains(k),
{
    broadcast use vstd::seq_lib::group_to_multiset_ensures;
    let r = index_range(n);
    assert(r.no_duplicates());
    r.lemma_multiset_has_no_duplicates();
    assert(v.to_multiset().len() == v.len());
    assert(r.to_multiset().len() == r.len());
    assert forall|x: usize| v.to_multiset().contains(x) implies v.to_multiset().count(x) == 1 by {}
    v.lemma_multiset_has_no_duplicates_conv();
    assert forall|i: int| 0 <= i < v.len() implies #[trigger] v[i] < n by {
        assert(v.contains(v[i]));
        assert(v.to_multiset().count(v[i]) > 0);
        assert(r.to_multiset().count(v[i]) > 0);
        assert(r.contains(v[i]));
    }
    assert forall|k: usize| k < n implies #[trigger] v.contains(k) by {
        assert(r[k as int] == k);
        assert(r.contains(k));
        assert(r.to_multiset().count(k) > 0);
        assert(v.to_multiset().count(k) > 0);
    }
}

impl Vocabulary {
    /// Assigns each of the shingles of the texts its own index below their number; which
    /// shingle gets which index is left to chance.
    pub fn build(shingled_texts: &[ShingledText]) -> (v: Self)
        ensures
            is_vocabulary(v@, all_shingles(shingled_texts@)),
            (forall|i: int| 0 <= i < shingled_texts.len() ==> shingle_texts_view(#[trigger] shingled_texts@[i]).len() > 0)
                ==> (v@.len() == 0 <==> shingled_texts.len() == 0),
    {
        let ghost views = shingled_texts@.map_values(|t: ShingledText| shingle_texts_view(t));
        let mut seen: StringHashMap<usize> = StringHashMap::new();
        let mut uniq: Vec<String> = Vec::new();
        let mut t: usize = 0;
        while t < shingled_texts.len()
            invariant
                t <= shingled_texts.len(),
                views == shingled_texts@.map_values(|t: ShingledText| shingle_texts_view(t)),
                seen@.dom() == uniq@.map_values(|x: String| x@).to_set(),
                uniq@.map_values(|x: String| x@).no_duplicates(),
                uniq@.map_values(|x: String| x@).to_set() == concat_all(views.take(t as int)).to_set(),
            decreases shingled_texts.len() - t,
        {
            let st = &shingled_texts[t];
            assert(views[t as int] == shingle_texts_view(*st));
            let mut i: usize = 0;
            while i < st.shingles.len()
                invariant
                    t < shingled_texts.len(),
                    i <= st.shingles.len(),
                    views == shingled_texts@.map_values(|t: ShingledText| shingle_texts_view(t)),
                    views[t as int] == shingle_texts_view(*st),
                    seen@.dom() == uniq@.map_values(|x: String| x@).to_set(),
                    uniq@.map_values(|x: String| x@).no_duplicates(),
                    uniq@.map_values(|x: String| x@).to_set()
                        == (concat_all(views.take(t as int)) + views[t as int].take(i as int)).to_set(),
                decreases st.shingles.len() - i,
            {
                let s = &st.shingles[i];
                let ghost u0 = uniq@.map_values(|x: String| x@);
                let ghost prefix = concat_all(views.take(t as int)) + views[t as int].take(i as int);
                proof {
                    assert(views[t as int][i as int] == s@);
                    assert(concat_all(views.take(t as int)) + views[t as int].take(i + 1) == prefix.push(s@));
                    prefix.lemma_push_to_set_commute(s@);
                }
                if !seen.contains_key(s.as_str()) {
                    seen.insert(s.clone(), uniq.len());
                    uniq.push(s.clone());
                    proof {
                        let u1 = uniq@.map_values(|x: String| x@);
                        assert(u1 =~= u0.push(s@));
                        assert(!u0.contains(s@)) by {
                            if u0.contains(s@) {
                                assert(u0.to_set().contains(s@));
                            }
                        }
                        u0.lemma_push_to_set_commute(s@);
                        assert forall|a: int, b: int| 0 <= a < u1.len() && 0 <= b < u1.len() && a != b implies u1[a] != u1[b] by {
                            if a == u0.len() {
                                assert(u0.contains(u1[b]));
                            } else if b == u0.len() {
                                assert(u0.contains(u1[a]));
                            }
                        }
                        assert(seen@.dom() =~= u1.to_set());
                    }
                } else {
                    proof {
                        assert(u0.to_set().contains(s@));
                        assert(u0.to_set().insert(s@) =~= u0.to_set());
                    }
                }
                i = i + 1;
            }
            proof {
                assert(views[t as int].take(st.shingles.len() as int) == views[t as int]);
                assert(views.take(t + 1).drop_last() == views.take(t as int));
                assert(views.take(t + 1).last() == views[t as int]);
                assert(concat_all(views.take(t + 1)) == concat_all(views.take(t as int)) + views[t as int]);
            }
            t = t + 1;
        }
        assert(views.take(shingled_texts.len() as int) == views);
        let ghost uv = uniq@.map_values(|x: String| x@);
        // The process requires shuffled assignments for the words in the vocabulary
        let n = uniq.len();
        let mut indices: Vec<usize> = Vec::new();
        while indices.len() < n
            invariant
                indices.len() <= n,
                indices@ == index_range(indices.len() as nat),
            decreases n - indices.len(),
        {
            let ghost i0 = indices@;
            indices.push(indices.len());
            assert(indices@ =~= index_range(indices.len() as nat));
        }
        let ghost range = indices@;
        shuffle(&mut indices);
        proof {
            lemma_permutation_of_range(indices@, n as nat);
        }
        let mut shingle_map: StringHashMap<usize> = StringHashMap::new();
        let mut i: usize = 0;
        while i < n
            invariant
                i <= n,
                n == uniq.len(),
                uv == uniq@.map_values(|x: String| x@),
                uv.no_duplicates(),
                indices.len() == n,
                indices@.no_duplicates(),
                forall|k: int| 0 <= k < n ==> #[trigger] indices@[k] < n,
                shingle_map@.dom() == uv.take(i as int).to_set(),
                forall|k: int| 0 <= k < i ==> shingle_map@[#[trigger] uv[k]] == indices@[k],
            decreases n - i,
        {
            let ghost m0 = shingle_map@;
            shingle_map.insert(uniq[i].clone(), indices[i]);
            proof {
                assert(uv[i as int] == uniq@[i as int]@);
                assert(uv.take(i + 1) == uv.take(i as int).push(uv[i as int]));
                uv.take(i as int).lemma_push_to_set_commute(uv[i as int]);
                assert(shingle_map@.dom() =~= uv.take(i + 1).to_set());
                assert forall|k: int| 0 <= k < i + 1 implies shingle_map@[#[trigger] uv[k]] == indices@[k] by {
                    if k < i {
                        assert(uv[k] != uv[i as int]);
                    }
                }
            }
            i = i + 1;
        }
        proof {
            assert(uv.take(n as int) == uv);
            uv.unique_seq_to_set();
            let m = shingle_map@;
            assert(m.dom() == all_shingles(shingled_texts@));
            assert forall|s: Seq<char>| #[trigger] m.dom().contains(s) implies m[s] < m.dom().len() by {
                let k = choose|k: int| 0 <= k < uv.len() && uv[k] == s;
            }
            assert forall|s1: Seq<char>, s2: Seq<char>| #[trigger] m.dom().contains(s1) && #[trigger] m.dom().contains(s2)
                && s1 != s2 implies m[s1] != m[s2] by {
                let k1 = choose|k: int| 0 <= k < uv.len() && uv[k] == s1;
                let k2 = choose|k: int| 0 <= k < uv.len() && uv[k] == s2;
                assert(indices@[k1] != indices@[k2]);
            }
            let ts = shingled_texts@.map_values(|t: ShingledText| shingle_texts_view(t));
            if forall|i: int| 0 <= i < shingled_texts.len() ==> shingle_texts_view(#[trigger] shingled_texts@[i]).len() > 0 {
                assert forall|i: int| 0 <= i < ts.len() implies (#[trigger] ts[i]).len() > 0 by {
                    assert(ts[i] == shingle_texts_view(shingled_texts@[i]));
                }
                lemma_vocabulary_empty(m, ts);
            }
        }
        Self(shingle_map)
    }

    pub fn len(&self) -> (n: usize)
        ensures
            n == self@.len(),
    {
        self.0.len()
    }

    pub fn is_empty(&self) -> (b: bool)
        ensures
            b == (self@.len() == 0),
    {
        self.0.len() == 0
    }

    /// The index of a shingle, if the vocabulary has it.
    pub fn get(&self, shingle: &str) -> (r: Option<usize>)
        ensures
            match r {
                Some(i) => self@.contains_key(shingle@) && self@[shingle@] == i,
                None => !self@.contains_key(shingle@),
            },
    {
        match self.0.get(shingle) {
            Some(i) => Some(*i),
            None => None,
        }
    }
}


/// The bits of the one-hot vector of a text under a vocabulary: bit `k` is set where some
/// shingle of the text has the index `k`.
pub open spec fn one_hot_bits(voc: Map<Seq<char>, usize>, shingles: Seq<Seq<char>>) -> Seq<bool> {
    Seq::new(voc.len(), |k: int| exists|j: int| 0 <= j < shingles.len() && voc[#[trigger] shingles[j]] == k)
}

/// Every shingle of the text is in the vocabulary.
pub open spec fn all_known(voc: Map<Seq<char>, usize>, shingles: Seq<Seq<char>>) -> bool {
    forall|j: int| 0 <= j < shingles.len() ==> voc.contains_key(#[trigger] shingles[j])
}

/// The message of the error for a shingle that the vocabulary does not hold.
pub open spec fn unknown_shingle_message() -> Seq<char> {
    "Shingle in diff not part of vocabulary. Have you used it during vocabulary building?"@
}

fn unknown_shingle_error() -> (e: Error)
    ensures
        e.0 == ErrorKind::ANNPreprocessing(e.0->ANNPreprocessing_0),
        e.0->ANNPreprocessing_0@ == unknown_shingle_message(),
{
    let mut m = String::new();
    append_str(&mut m, "Shingle in diff not part of vocabulary. Have you used it during vocabulary building?");
    proof {
        reveal_strlit("Shingle in diff not part of vocabulary. Have you used it during vocabulary building?");
    }
    Error::new(ErrorKind::ANNPreprocessing(m))
}

impl Vocabulary {
    /// Each shingle has its own index below the number of shingles.
    pub open spec fn wf(&self) -> bool {
        is_vocabulary(self@, self@.dom())
    }

    /// The one-hot vector of a shingled text: the bit of each of its shingles is set. A
    /// shingle that the vocabulary does not hold is an `ANNPreprocessing` error.
    pub fn one_hot(&self, shingled_diff: &ShingledText) -> (r: Result<BitVec, Error>)
        requires
            self.wf(),
        ensures
            match r {
                Ok(v) => all_known(self@, shingle_texts_view(*shingled_diff))
                    && bits_of(v) == one_hot_bits(self@, shingle_texts_view(*shingled_diff)),
                Err(e) => !all_known(self@, shingle_texts_view(*shingled_diff))
                    && e.0 == ErrorKind::ANNPreprocessing(e.0->ANNPreprocessing_0)
                    && e.0->ANNPreprocessing_0@ == unknown_shingle_message(),
            },
    {
        let ghost sh = shingle_texts_view(*shingled_diff);
        let n = self.0.len();
        let mut one_hot = bitvec_from_elem(n, false);
        let mut i: usize = 0;
        while i < shingled_diff.shingles.len()
            invariant
                self.wf(),
                n == self@.len(),
                sh == shingle_texts_view(*shingled_diff),
                i <= sh.len(),
                forall|j: int| 0 <= j < i ==> self@.contains_key(#[trigger] sh[j]),
                bits_of(one_hot) == Seq::new(n as nat, |k: int| exists|j: int| 0 <= j < i && self@[#[trigger] sh[j]] == k),
            decreases shingled_diff.shingles.len() - i,
        {
            let ghost b0 = bits_of(one_hot);
            assert(sh[i as int] == shingled_diff.shingles@[i as int]@);
            match self.get(shingled_diff.shingles[i].as_str()) {
                None => {
                    return Err(unknown_shingle_error());
                },
                Some(number) => {
                    assert(self@.dom().contains(sh[i as int]));
                    bitvec_set(&mut one_hot, number, true);
                    proof {
                        assert forall|k: int| 0 <= k < n implies bits_of(one_hot)[k] == (exists|j: int| 0 <= j < i + 1 && self@[#[trigger] sh[j]] == k) by {
                            if k == number {
                                assert(self@[sh[i as int]] == k);
                            } else {
                                assert(bits_of(one_hot)[k] == b0[k]);
                                if exists|j: int| 0 <= j < i + 1 && self@[#[trigger] sh[j]] == k {
                                    let j = choose|j: int| 0 <= j < i + 1 && self@[#[trigger] sh[j]] == k;
                                    assert(j < i);
                                }
                            }
                        }
                        assert(bits_of(one_hot) =~= Seq::new(n as nat, |k: int| exists|j: int| 0 <= j < i + 1 && self@[#[trigger] sh[j]] == k));
                    }
                },
            }
            i = i + 1;
        }
        assert(bits_of(one_hot) =~= one_hot_bits(self@, sh));
        Ok(one_hot)
    }
}


/// `v` holds each of `0..n` once.
pub open spec fn is_permutation(v: Seq<usize>, n: nat) -> bool {
    v.to_multiset() == index_range(n).to_multiset()
}

/// `i` is the first position of `v` whose entry names a set bit.
pub open spec fn is_first_hot(v: Seq<usize>, bits: Seq<bool>, i: int) -> bool {
    &&& 0 <= i < v.len()
    &&& bits[v[i] as int]
    &&& forall|k: int| 0 <= k < i ==> !bits[#[trigger] v[k] as int]
}

/// The first position of `v` whose entry names a set bit, if there is one.
pub open spec fn first_hot(v: Seq<usize>, bits: Seq<bool>) -> Option<int> {
    if exists|i: int| is_first_hot(v, bits, i) {
        Some(choose|i: int| is_first_hot(v, bits, i))
    } else {
        None
    }
}

/// The MinHash signature of a bit vector: for each hash vector in turn, the first position
/// whose entry names a set bit; a hash vector that names no set bit adds nothing.
pub open spec fn min_hashes(vs: Seq<Seq<usize>>, bits: Seq<bool>) -> Seq<u32>
    decreases vs.len(),
{
    if vs.len() == 0 {
        Seq::empty()
    } else {
        min_hashes(vs.drop_last(), bits) + match first_hot(vs.last(), bits) {
            Some(i) => seq![i as u32],
            None => Seq::empty(),
        }
    }
}

/// There is only one first position.
pub proof fn lemma_first_hot_unique(v: Seq<usize>, bits: Seq<bool>, i: int)
    requires
        is_first_hot(v, bits, i),
    ensures
        first_hot(v, bits) == Some(i),
{
    let c = choose|c: int| is_first_hot(v, bits, c);
    assert(is_first_hot(v, bits, c));
    if c < i {
        assert(!bits[v[c] as int]);
    } else if i < c {
        assert(!bits[v[i] as int]);
    }
}

/// MinHash: one random permutation of the positions of the one-hot vectors for each value of
/// a signature.
pub struct MinHash {
    signature_size: usize,
    data_size: usize,
    hash_vectors: Vec<Vec<usize>>,
}

impl View for MinHash {
    type V = Seq<Seq<usize>>;

    /// The hash vectors.
    closed spec fn view(&self) -> Seq<Seq<usize>> {
        self.hash_vectors@.map_values(|v: Vec<usize>| v@)
    }
}

impl MinHash {
    pub closed spec fn spec_signature_size(&self) -> nat {
        self.signature_size as nat
    }

    pub closed spec fn spec_data_size(&self) -> nat {
        self.data_size as nat
    }

    /// One hash vector for each value of a signature, each a permutation of the positions.
    pub open spec fn wf(&self) -> bool {
        &&& self@.len() == self.spec_signature_size()
        &&& forall|t: int| 0 <= t < self@.len() ==> is_permutation(#[trigger] self@[t], self.spec_data_size())
    }

    /// `signature_size` random permutations of `0..data_size`.
    pub fn new(signature_size: usize, data_size: usize) -> (m: Self)
        ensures
            m.wf(),
            m.spec_signature_size() == signature_size,
            m.spec_data_size() == data_size,
    {
        // We require one hash function for each dimension in the signature
        let mut hash_vectors: Vec<Vec<usize>> = Vec::new();
        // We require one value for each word in the vocabulary, for which we want to apply MinHash
        let mut initial_vector: Vec<usize> = Vec::new();
        while initial_vector.len() < data_size
            invariant
                initial_vector.len() <= data_size,
                initial_vector@ == index_range(initial_vector.len() as nat),
            decreases data_size - initial_vector.len(),
        {
            initial_vector.push(initial_vector.len());
            assert(initial_vector@ =~= index_range(initial_vector.len() as nat));
        }
        let mut t: usize = 0;
        while t < signature_size
            invariant
                t <= signature_size,
                hash_vectors.len() == t,
                initial_vector@.to_multiset() == index_range(data_size as nat).to_multiset(),
                forall|k: int| 0 <= k < t ==> is_permutation(#[trigger] hash_vectors@[k]@, data_size as nat),
            decreases signature_size - t,
        {
            shuffle(&mut initial_vector);
            let copy = initial_vector.clone();
            assert(copy@ =~= initial_vector@);
            hash_vectors.push(copy);
            t = t + 1;
        }
        let m = Self { signature_size, data_size, hash_vectors };
        assert forall|k: int| 0 <= k < m@.len() implies is_permutation(#[trigger] m@[k], m.spec_data_size()) by {
            assert(m@[k] == m.hash_vectors@[k]@);
        }
        m
    }

    /// The signature of a one-hot vector of `data_size` bits: for each hash vector, the first
    /// position in it whose bit is set.
    pub fn hash_signature(&self, one_hot: &BitVec) -> (signature: Signature)
        requires
            self.wf(),
            bits_of(*one_hot).len() == self.spec_data_size(),
        ensures
            signature@ == min_hashes(self@, bits_of(*one_hot)),
    {
        let ghost bits = bits_of(*one_hot);
        let mut signature: Signature = Vec::new();
        let mut t: usize = 0;
        while t < self.hash_vectors.len()
            invariant
                self.wf(),
                bits == bits_of(*one_hot),
                bits.len() == self.spec_data_size(),
                t <= self@.len(),
                self@.len() == self.hash_vectors.len(),
                signature@ == min_hashes(self@.take(t as int), bits),
            decreases self.hash_vectors.len() - t,
        {
            let vector = &self.hash_vectors[t];
            let ghost v = self@[t as int];
            assert(v == vector@);
            assert(is_permutation(v, self.spec_data_size()));
            proof {
                lemma_permutation_of_range(v, bits.len());
            }
            let ghost s0 = signature@;
            let mut value: usize = 0;
            let mut found = false;
            while value < vector.len()
                invariant_except_break
                    !found,
                    signature@ == s0,
                invariant
                    forall|k: int| 0 <= k < value ==> !bits[#[trigger] v[k] as int],
                    v == vector@,
                    v.len() == bits.len(),
                    forall|i: int| 0 <= i < v.len() ==> #[trigger] v[i] < bits.len(),
                    bits == bits_of(*one_hot),
                    value <= vector.len(),
                ensures
                    found ==> is_first_hot(v, bits, value as int) && signature@ == s0.push(value as u32),
                    !found ==> signature@ == s0 && forall|k: int| 0 <= k < v.len() ==> !bits[#[trigger] v[k] as int],
                decreases vector.len() - value,
            {
                let index = vector[value];
                assert(index < bits.len());
                let hot = match bitvec_get(one_hot, index) {
                    Some(b) => b,
                    None => false,
                };
                if hot {
                    signature.push(value as u32);
                    found = true;
                    break;
                }
                value = value + 1;
            }
            proof {
                let vs = self@.take(t + 1);
                assert(vs.drop_last() == self@.take(t as int));
                assert(vs.last() == v);
                if found {
                    lemma_first_hot_unique(v, bits, value as int);
                } else {
                    assert(!exists|i: int| is_first_hot(v, bits, i));
                }
                assert(signature@ =~= min_hashes(vs, bits));
            }
            t = t + 1;
        }
        assert(self@.take(self@.len() as int) == self@);
        signature
    }
}


/// Where the entry at `p` names a set bit, some position is the first to do so.
proof fn lemma_first_hot_exists(v: Seq<usize>, bits: Seq<bool>, p: int)
    requires
        0 <= p < v.len(),
        bits[v[p] as int],
    ensures
        exists|i: int| is_first_hot(v, bits, i),
    decreases p,
{
    if forall|k: int| 0 <= k < p ==> !bits[#[trigger] v[k] as int] {
        assert(is_first_hot(v, bits, p));
    } else {
        let k = choose|k: int| 0 <= k < p && bits[#[trigger] v[k] as int];
        lemma_first_hot_exists(v, bits, k);
    }
}

/// Under a bit vector with a set bit, each permutation names a set bit: the signature has one
/// value for each hash vector, the first position whose entry names a set bit.
pub proof fn lemma_min_hashes_values(vs: Seq<Seq<usize>>, bits: Seq<bool>)
    requires
        bits.len() <= usize::MAX,
        forall|t: int| 0 <= t < vs.len() ==> is_permutation(#[trigger] vs[t], bits.len()),
        exists|k: int| 0 <= k < bits.len() && bits[k],
    ensures
        min_hashes(vs, bits).len() == vs.len(),
        forall|t: int| 0 <= t < vs.len() ==> (#[trigger] first_hot(vs[t], bits)) is Some
            && is_first_hot(vs[t], bits, first_hot(vs[t], bits)->0)
            && min_hashes(vs, bits)[t] == first_hot(vs[t], bits)->0 as u32,
    decreases vs.len(),
{
    if vs.len() > 0 {
        let rest = vs.drop_last();
        assert forall|t: int| 0 <= t < rest.len() implies is_permutation(#[trigger] rest[t], bits.len()) by {
            assert(rest[t] == vs[t]);
        }
        lemma_min_hashes_values(rest, bits);
        let v = vs.last();
        assert(is_permutation(vs[vs.len() - 1], bits.len()));
        lemma_permutation_of_range(v, bits.len());
        let k = choose|k: int| 0 <= k < bits.len() && bits[k];
        assert(v.contains(k as usize));
        let p = choose|p: int| 0 <= p < v.len() && v[p] == k as usize;
        lemma_first_hot_exists(v, bits, p);
        let w = choose|i: int| is_first_hot(v, bits, i);
        lemma_first_hot_unique(v, bits, w);
        assert(min_hashes(vs, bits) == min_hashes(rest, bits) + seq![w as u32]);
        assert forall|t: int| 0 <= t < vs.len() implies (#[trigger] first_hot(vs[t], bits)) is Some
            && is_first_hot(vs[t], bits, first_hot(vs[t], bits)->0)
            && min_hashes(vs, bits)[t] == first_hot(vs[t], bits)->0 as u32 by {
            if t < rest.len() {
                assert(rest[t] == vs[t]);
                assert(first_hot(rest[t], bits) is Some);
            } else {
                assert(vs[t] == v);
            }
        }
    }
}

/// MinHash keeps apart what has nothing in common: two one-hot vectors without a common set
/// bit, each with some set bit, get signatures of one value for each hash vector, and the two
/// differ at every position (positions are told apart where they fit in a `u32`).
pub proof fn lemma_disjoint_signatures_differ(m: MinHash, a: Seq<bool>, b: Seq<bool>)
    requires
        m.wf(),
        a.len() == m.spec_data_size(),
        b.len() == m.spec_data_size(),
        m.spec_data_size() <= u32::MAX + 1,
        exists|k: int| 0 <= k < a.len() && a[k],
        exists|k: int| 0 <= k < b.len() && b[k],
        forall|k: int| 0 <= k < a.len() ==> !(a[k] && b[k]),
    ensures
        min_hashes(m@, a).len() == m.spec_signature_size(),
        min_hashes(m@, b).len() == m.spec_signature_size(),
        forall|t: int| 0 <= t < m.spec_signature_size() ==> min_hashes(m@, a)[t] != min_hashes(m@, b)[t],
{
    lemma_min_hashes_values(m@, a);
    lemma_min_hashes_values(m@, b);
    assert forall|t: int| 0 <= t < m.spec_signature_size() implies min_hashes(m@, a)[t] != min_hashes(m@, b)[t] by {
        let v = m@[t];
        assert(is_permutation(v, m.spec_data_size()));
        lemma_permutation_of_range(v, m.spec_data_size());
        assert(first_hot(m@[t], a) is Some);
        assert(first_hot(m@[t], b) is Some);
        let ia = first_hot(m@[t], a)->0;
        let ib = first_hot(m@[t], b)->0;
        if ia == ib {
            assert(a[v[ia] as int] && b[v[ia] as int]);
        }
        assert(ia < u32::MAX + 1 && ib < u32::MAX + 1);
        assert(ia as u32 == ia);
        assert(ib as u32 == ib);
    }
}


/// The shingles of every text are among the shingles of all texts.
proof fn lemma_concat_all_contains(ss: Seq<Seq<Seq<char>>>, i: int, j: int)
    requires
        0 <= i < ss.len(),
        0 <= j < ss[i].len(),
    ensures
        concat_all(ss).contains(ss[i][j]),
    decreases ss.len(),
{
    let rest = ss.drop_last();
    if i < rest.len() {
        lemma_concat_all_contains(rest, i, j);
        let k = choose|k: int| 0 <= k < concat_all(rest).len() && concat_all(rest)[k] == ss[i][j];
        assert((concat_all(rest) + ss.last())[k] == ss[i][j]);
    } else {
        assert((concat_all(rest) + ss.last())[concat_all(rest).len() + j] == ss[i][j]);
    }
}

/// The signatures of texts, given by their shingles, under a vocabulary of all their shingles
/// and hash vectors that are `signature_size` permutations of the vocabulary's indices: what
/// every outcome of the random choices of preprocessing satisfies.
pub open spec fn signatures_under(
    voc: Map<Seq<char>, usize>,
    vs: Seq<Seq<usize>>,
    shingles: Seq<Seq<Seq<char>>>,
    sigs: Seq<Signature>,
    signature_size: nat,
) -> bool {
    &&& is_vocabulary(voc, concat_all(shingles).to_set())
    &&& voc.len() <= usize::MAX
    &&& vs.len() == signature_size
    &&& forall|t: int| 0 <= t < vs.len() ==> is_permutation(#[trigger] vs[t], voc.len())
    &&& sigs.len() == shingles.len()
    &&& forall|i: int| 0 <= i < sigs.len() ==> (#[trigger] sigs[i])@ == min_hashes(vs, one_hot_bits(voc, shingles[i]))
}

/// A vocabulary of texts that each hold a shingle is empty exactly where there are no texts.
pub proof fn lemma_vocabulary_empty(voc: Map<Seq<char>, usize>, texts: Seq<Seq<Seq<char>>>)
    requires
        is_vocabulary(voc, concat_all(texts).to_set()),
        forall|i: int| 0 <= i < texts.len() ==> (#[trigger] texts[i]).len() > 0,
    ensures
        (voc.len() == 0) == (texts.len() == 0),
{
    if texts.len() == 0 {
        assert(concat_all(texts) =~= Seq::<Seq<char>>::empty());
        assert(voc.dom() =~= Set::<Seq<char>>::empty());
    } else {
        assert(texts[0].len() > 0);
        lemma_concat_all_contains(texts, 0, 0);
        let x = texts[0][0];
        assert(concat_all(texts).to_set().contains(x));
        assert(voc.dom().contains(x));
        assert(voc.dom().remove(x).len() + 1 == voc.dom().len());
    }
}

/// A text with at least one shingle gets a value from each hash vector: its signature has
/// `signature_size` values.
pub proof fn lemma_signature_lengths(
    voc: Map<Seq<char>, usize>,
    vs: Seq<Seq<usize>>,
    shingles: Seq<Seq<Seq<char>>>,
    sigs: Seq<Signature>,
    signature_size: nat,
)
    requires
        signatures_under(voc, vs, shingles, sigs, signature_size),
        forall|i: int| 0 <= i < shingles.len() ==> (#[trigger] shingles[i]).len() > 0,
    ensures
        forall|i: int| 0 <= i < sigs.len() ==> (#[trigger] sigs[i]).len() == signature_size,
{
    assert forall|i: int| 0 <= i < sigs.len() implies (#[trigger] sigs[i]).len() == signature_size by {
        let bits = one_hot_bits(voc, shingles[i]);
        let s0 = shingles[i][0];
        lemma_concat_all_contains(shingles, i, 0);
        assert(concat_all(shingles).to_set().contains(s0));
        assert(voc.dom().contains(s0));
        let k = voc[s0] as int;
        assert(bits[k]) by {
            assert(voc[shingles[i][0]] == k);
        }
        lemma_min_hashes_values(vs, bits);
    }
}

/// Every text has at least one character shingle: a text shorter than a window has the empty
/// one.
pub proof fn lemma_char_shingles_nonempty(t: Seq<char>, arity: nat)
    ensures
        char_shingles(t, arity).len() > 0,
{
}

/// The character shingles of each text.
pub open spec fn texts_char_shingles(texts: Seq<&str>, arity: nat) -> Seq<Seq<Seq<char>>> {
    texts.map_values(|t: &str| char_shingles(t@, arity))
}

/// The character shingles of each commit's diff text.
pub open spec fn commits_char_shingles(commits: Seq<Commit>, arity: nat) -> Seq<Seq<Seq<char>>> {
    commits.map_values(|c: Commit| char_shingles(c.diff.diff_text@, arity))
}

/// The shingles of each text.
pub open spec fn texts_shingles(texts: Seq<ShingledText>) -> Seq<Seq<Seq<char>>> {
    texts.map_values(|t: ShingledText| shingle_texts_view(t))
}

impl Vocabulary {
    /// The indices of the shingles of a text, in order, each as a `u32`. A shingle that the
    /// vocabulary does not hold is an `ANNPreprocessing` error.
    pub fn encode_u32(&self, shingled_text: &ShingledText) -> (r: Result<Vec<u32>, Error>)
        ensures
            match r {
                Ok(v) => all_known(self@, shingle_texts_view(*shingled_text))
                    && v@ == shingle_texts_view(*shingled_text).map_values(|s: Seq<char>| self@[s] as u32),
                Err(e) => !all_known(self@, shingle_texts_view(*shingled_text))
                    && e.0 == ErrorKind::ANNPreprocessing(e.0->ANNPreprocessing_0)
                    && e.0->ANNPreprocessing_0@ == unknown_shingle_message(),
            },
    {
        let ghost sh = shingle_texts_view(*shingled_text);
        let mut encoding: Vec<u32> = Vec::new();
        let mut i: usize = 0;
        while i < shingled_text.shingles.len()
            invariant
                sh == shingle_texts_view(*shingled_text),
                i <= sh.len(),
                forall|j: int| 0 <= j < i ==> self@.contains_key(#[trigger] sh[j]),
                encoding@ == sh.take(i as int).map_values(|s: Seq<char>| self@[s] as u32),
            decreases shingled_text.shingles.len() - i,
        {
            assert(sh[i as int] == shingled_text.shingles@[i as int]@);
            match self.get(shingled_text.shingles[i].as_str()) {
                None => {
                    return Err(unknown_shingle_error());
                },
                Some(index) => {
                    encoding.push(index as u32);
                    assert(encoding@ =~= sh.take(i + 1).map_values(|s: Seq<char>| self@[s] as u32));
                },
            }
            i = i + 1;
        }
        assert(sh.take(sh.len() as int) == sh);
        Ok(encoding)
    }
}

/// The signatures of shingled texts under a given vocabulary and MinHash: each text's one-hot
/// vector, hashed.
pub fn hash_shingled_texts(vocabulary: &Vocabulary, minhash: &MinHash, shingled_texts: &[ShingledText]) -> (sigs: Vec<Signature>)
    requires
        vocabulary.wf(),
        minhash.wf(),
        minhash.spec_data_size() == vocabulary@.len(),
        forall|i: int| 0 <= i < shingled_texts@.len() ==> all_known(vocabulary@, #[trigger] shingle_texts_view(shingled_texts@[i])),
    ensures
        sigs.len() == shingled_texts.len(),
        forall|i: int| 0 <= i < sigs.len() ==> (#[trigger] sigs@[i])@
            == min_hashes(minhash@, one_hot_bits(vocabulary@, shingle_texts_view(shingled_texts@[i]))),
{
    let mut sigs: Vec<Signature> = Vec::new();
    let mut i: usize = 0;
    while i < shingled_texts.len()
        invariant
            vocabulary.wf(),
            minhash.wf(),
            minhash.spec_data_size() == vocabulary@.len(),
            forall|i: int| 0 <= i < shingled_texts@.len() ==> all_known(vocabulary@, #[trigger] shingle_texts_view(shingled_texts@[i])),
            i <= shingled_texts.len(),
            sigs.len() == i,
            forall|k: int| 0 <= k < i ==> (#[trigger] sigs@[k])@
                == min_hashes(minhash@, one_hot_bits(vocabulary@, shingle_texts_view(shingled_texts@[k]))),
        decreases shingled_texts.len() - i,
    {
        let st = &shingled_texts[i];
        assert(all_known(vocabulary@, shingle_texts_view(shingled_texts@[i as int])));
        match vocabulary.one_hot(st) {
            Ok(one_hot) => {
                sigs.push(minhash.hash_signature(&one_hot));
            },
            Err(_) => {
                assert(false);
            },
        }
        i = i + 1;
    }
    sigs
}

pub(crate) fn shingles_into_signatures(shingled_texts: Vec<ShingledText>, signature_size: usize) -> (sigs: Vec<Signature>)
    ensures
        exists|voc: Map<Seq<char>, usize>, vs: Seq<Seq<usize>>|
            #[trigger] signatures_under(voc, vs, texts_shingles(shingled_texts@), sigs@, signature_size as nat),
{
    let vocabulary = Vocabulary::build(&shingled_texts);
    let ghost ts = texts_shingles(shingled_texts@);
    proof {
        assert(vocabulary.wf());
        assert forall|i: int| 0 <= i < shingled_texts@.len() implies all_known(vocabulary@, #[trigger] shingle_texts_view(shingled_texts@[i])) by {
            assert(ts[i] == shingle_texts_view(shingled_texts@[i]));
            assert forall|j: int| 0 <= j < ts[i].len() implies vocabulary@.contains_key(#[trigger] ts[i][j]) by {
                lemma_concat_all_contains(ts, i, j);
            }
        }
    }
    let minhash = MinHash::new(signature_size, vocabulary.len());
    let sigs = hash_shingled_texts(&vocabulary, &minhash, shingled_texts.as_slice());
    proof {
        assert forall|i: int| 0 <= i < sigs@.len() implies (#[trigger] sigs@[i])@ == min_hashes(minhash@, one_hot_bits(vocabulary@, ts[i])) by {
            assert(ts[i] == shingle_texts_view(shingled_texts@[i]));
        }
        assert(vocabulary@.len() == minhash.spec_data_size());
        assert(signatures_under(vocabulary@, minhash@, ts, sigs@, signature_size as nat));
    }
    sigs
}

/// The signatures of the texts, read in shingles of `arity` characters, under a random
/// vocabulary and MinHash of `signature_size` values.
pub fn preprocess_texts(texts: &[&str], arity: usize, signature_size: usize) -> (sigs: Vec<Signature>)
    ensures
        exists|voc: Map<Seq<char>, usize>, vs: Seq<Seq<usize>>|
            #[trigger] signatures_under(voc, vs, texts_char_shingles(texts@, arity as nat), sigs@, signature_size as nat),
{
    let shingled = shingle_texts(texts, arity);
    let sigs = shingles_into_signatures(shingled, signature_size);
    assert(texts_shingles(shingled@) == texts_char_shingles(texts@, arity as nat));
    sigs
}

/// The signatures of the commits' diffs, read in shingles of `arity` characters, under a
/// random vocabulary and MinHash of `signature_size` values.
pub fn preprocess_commits(commits: &[Commit], arity: usize, signature_size: usize) -> (sigs: Vec<Signature>)
    ensures
        exists|voc: Map<Seq<char>, usize>, vs: Seq<Seq<usize>>|
            #[trigger] signatures_under(voc, vs, commits_char_shingles(commits@, arity as nat), sigs@, signature_size as nat),
{
    let shingled = shingle_commits(commits, arity);
    let sigs = shingles_into_signatures(shingled, signature_size);
    assert(texts_shingles(shingled@) == commits_char_shingles(commits@, arity as nat));
    sigs
}

fn shingle_commits(commits: &[Commit], arity: usize) -> (s: Vec<ShingledText>)
    ensures
        texts_shingles(s@) == commits_char_shingles(commits@, arity as nat),
{
    let mut s: Vec<ShingledText> = Vec::new();
    let mut i: usize = 0;
    while i < commits.len()
        invariant
            i <= commits.len(),
            s.len() == i,
            texts_shingles(s@) == commits_char_shingles(commits@.take(i as int), arity as nat),
        decreases commits.len() - i,
    {
        let ghost s0 = s@;
        s.push(shingle_diff(commits[i].diff(), arity));
        proof {
            assert forall|k: int| 0 <= k < i + 1 implies #[trigger] texts_shingles(s@)[k] == commits_char_shingles(commits@.take(i + 1), arity as nat)[k] by {
                if k < i {
                    assert(s@[k] == s0[k]);
                    assert(texts_shingles(s0)[k] == commits_char_shingles(commits@.take(i as int), arity as nat)[k]);
                }
            }
            assert(texts_shingles(s@) =~= commits_char_shingles(commits@.take(i + 1), arity as nat));
        }
        i = i + 1;
    }
    assert(commits@.take(commits.len() as int) == commits@);
    s
}

fn shingle_texts(texts: &[&str], arity: usize) -> (s: Vec<ShingledText>)
    ensures
        texts_shingles(s@) == texts_char_shingles(texts@, arity as nat),
{
    let mut s: Vec<ShingledText> = Vec::new();
    let mut i: usize = 0;
    while i < texts.len()
        invariant
            i <= texts.len(),
            s.len() == i,
            texts_shingles(s@) == texts_char_shingles(texts@.take(i as int), arity as nat),
        decreases texts.len() - i,
    {
        let ghost s0 = s@;
        s.push(shingle_text(texts[i], arity));
        proof {
            assert forall|k: int| 0 <= k < i + 1 implies #[trigger] texts_shingles(s@)[k] == texts_char_shingles(texts@.take(i + 1), arity as nat)[k] by {
                if k < i {
                    assert(s@[k] == s0[k]);
                    assert(texts_shingles(s0)[k] == texts_char_shingles(texts@.take(i as int), arity as nat)[k]);
                }
            }
            assert(texts_shingles(s@) =~= texts_char_shingles(texts@.take(i + 1), arity as nat));
        }
        i = i + 1;
    }
    assert(texts@.take(texts.len() as int) == texts@);
    s
}

/// The codes of texts, given by their shingles, under a vocabulary of all their shingles: the
/// index of each shingle, as a `u32`.
pub open spec fn codes_under(voc: Map<Seq<char>, usize>, shingles: Seq<Seq<Seq<char>>>, codes: Seq<Vec<u32>>) -> bool {
    &&& is_vocabulary(voc, concat_all(shingles).to_set())
    &&& codes.len() == shingles.len()
    &&& forall|i: int| 0 <= i < codes.len() ==> (#[trigger] codes[i])@
        == shingles[i].map_values(|s: Seq<char>| voc[s] as u32)
}

/// The indices of the shingles of each commit's diff, under a vocabulary of all of them.
pub fn encode_commits_u32(commits: &[Commit], arity: usize) -> (codes: Vec<Vec<u32>>)
    ensures
        exists|voc: Map<Seq<char>, usize>| #[trigger] codes_under(voc, commits_char_shingles(commits@, arity as nat), codes@),
{
    let shingled = shingle_commits(commits, arity);
    let vocabulary = Vocabulary::build(&shingled);
    let ghost ts = texts_shingles(shingled@);
    let mut codes: Vec<Vec<u32>> = Vec::new();
    let mut i: usize = 0;
    while i < shingled.len()
        invariant
            i <= shingled.len(),
            ts == texts_shingles(shingled@),
            is_vocabulary(vocabulary@, concat_all(ts).to_set()),
            codes.len() == i,
            forall|k: int| 0 <= k < i ==> (#[trigger] codes@[k])@ == ts[k].map_values(|s: Seq<char>| vocabulary@[s] as u32),
        decreases shingled.len() - i,
    {
        assert(ts[i as int] == shingle_texts_view(shingled@[i as int]));
        assert forall|j: int| 0 <= j < ts[i as int].len() implies vocabulary@.contains_key(#[trigger] ts[i as int][j]) by {
            lemma_concat_all_contains(ts, i as int, j);
        }
        match vocabulary.encode_u32(&shingled[i]) {
            Ok(code) => {
                codes.push(code);
            },
            Err(_) => {
                assert(false);
            },
        }
        i = i + 1;
    }
    assert(codes_under(vocabulary@, ts, codes@));
    codes
}

} // verus!
