//! Traditional locality-sensitive hashing: signatures are split into bands, and two commits
//! whose signatures agree on at least one band are candidates for a cherry-pick.
use vstd::prelude::*;
use std::collections::HashMap;

pub mod compare;
pub mod preprocessing;

pub use compare::{CountedLine, DiffSimilarity, JaccardCounts};
use compare::{body_lines, counted_models, counts_view, jaccard_counts, CountedModel};
use crate::git::Commit;

use preprocessing::{
    commits_char_shingles, lemma_char_shingles_nonempty, lemma_signature_lengths, preprocess_commits,
    signatures_under, Signature,
};

verus! {

broadcast use vstd::std_specs::hash::group_hash_axioms;


pub type Band<'a> = &'a [u32];

/// The size of each of the `n` bands of a signature of length `len`.
pub open spec fn band_size(len: nat, n: nat) -> int {
    len as int / n as int
}

/// The k-th of the `n` bands of a signature.
pub open spec fn band(sig: Seq<u32>, n: nat, k: int) -> Seq<u32> {
    sig.subrange(k * band_size(sig.len(), n), (k + 1) * band_size(sig.len(), n))
}

/// A signature can be split into `n` bands: `n` is positive and divides its length (an empty
/// signature gives `n` empty bands).
pub open spec fn splittable(sig: Seq<u32>, n: nat) -> bool {
    n > 0 && sig.len() % n == 0
}

proof fn lemma_band_bounds(len: nat, n: nat, k: int)
    requires
        n > 0,
        len % n == 0,
        0 <= k < n,
    ensures
        0 <= k * (len as int / n as int),
        (k + 1) * (len as int / n as int) <= len,
        (k + 1) * (len as int / n as int) == k * (len as int / n as int) + len as int / n as int,
{
    let s = len as int / n as int;
    assert(len == n * s) by (nonlinear_arith)
        requires len % n == 0, n > 0, s == len as int / n as int;
    assert(0 <= k * s) by (nonlinear_arith)
        requires 0 <= k, 0 <= s;
    assert((k + 1) * s <= n * s) by (nonlinear_arith)
        requires k + 1 <= n, 0 <= s;
    assert((k + 1) * s == k * s + s) by (nonlinear_arith);
}

/// Split a given signature into n bands of size `(signature.len() / n_splits)`
pub fn split_signature(signature: &Signature, n_splits: usize) -> (bands: Vec<Band<'_>>)
    requires
        splittable(signature@, n_splits as nat),
    ensures
        bands.len() == n_splits,
        forall|k: int| 0 <= k < n_splits ==> (#[trigger] bands@[k])@ == band(signature@, n_splits as nat, k),
{
    let split_size = signature.len() / n_splits;
    let mut bands: Vec<Band> = Vec::with_capacity(n_splits);
    let mut k: usize = 0;
    let mut start: usize = 0;
    while k < n_splits
        invariant
            k <= n_splits,
            splittable(signature@, n_splits as nat),
            split_size == band_size(signature@.len(), n_splits as nat),
            start == k * split_size,
            bands.len() == k,
            forall|j: int| 0 <= j < k ==> (#[trigger] bands@[j])@ == band(signature@, n_splits as nat, j),
        decreases n_splits - k,
    {
        proof {
            lemma_band_bounds(signature@.len(), n_splits as nat, k as int);
            assert(start + split_size <= signature@.len());
        }
        assert(start + split_size <= signature.len());
        let end = start + split_size;
        let b = vstd::slice::slice_subrange(signature.as_slice(), start, end);
        bands.push(b);
        start = end;
        k = k + 1;
    }
    bands
}

/// Splitting a signature and joining its bands again gives back the signature.
pub proof fn lemma_bands_cover(sig: Seq<u32>, n: nat)
    requires
        splittable(sig, n),
    ensures
        forall|i: int| 0 <= i < sig.len() ==> sig[i] == #[trigger] band(sig, n, i / band_size(sig.len(), n))[i % band_size(sig.len(), n)],
{
    if sig.len() > 0 {
        let s = band_size(sig.len(), n);
        assert(sig.len() == n * s) by (nonlinear_arith)
            requires sig.len() % n == 0, n > 0, s == sig.len() as int / n as int;
        assert(s > 0) by (nonlinear_arith)
            requires sig.len() == n * s, sig.len() > 0, n > 0;
        assert forall|i: int| 0 <= i < sig.len() implies sig[i] == #[trigger] band(sig, n, i / band_size(sig.len(), n))[i % band_size(sig.len(), n)] by {
            let k = i / s;
            let r = i % s;
            assert(i == k * s + r && 0 <= r < s) by (nonlinear_arith)
                requires s > 0, k == i / s, r == i % s, 0 <= i;
            assert(0 <= k < n) by (nonlinear_arith)
                requires i == k * s + r, 0 <= r < s, i < n * s, 0 <= i, s > 0;
            lemma_band_bounds(sig.len(), n, k);
        }
    }
}

/// Implementation of traditional locality-sensitive hashing. This approach tries to find
/// commits that have highly similar diffs, but do not necessarily have to have the same diff.
///
/// Commits are first converted into signature vectors of a given length. Afterwards, the
/// signatures are banded (i.e., split into multiple sub-vectors of equal length) and the bands
/// are hashed to individual hash maps. Two signatures that share a band are match candidates;
/// the final similarity check of the candidates is made with a similarity threshold.
#[derive(Debug)]
pub struct TraditionalLSH {
    pub arity: usize,
    pub signature_size: usize,
    pub n_bands: usize,
}

/// Represent a pair of ids in which the ids are ordered ascending.
#[derive(Debug, PartialEq, Eq, Structural, Hash, Clone, Copy)]
pub struct IdPair(pub usize, pub usize);

impl IdPair {
    pub fn new(id_a: usize, id_b: usize) -> (p: Self)
        ensures
            p.0 <= p.1,
            (p.0 == id_a && p.1 == id_b) || (p.0 == id_b && p.1 == id_a),
    {
        if id_a <= id_b {
            Self(id_a, id_b)
        } else {
            Self(id_b, id_a)
        }
    }
}

/// For each band, the signatures (by index) grouped by the hash of that band.
pub struct BandMaps {
    pub maps: Vec<HashMap<u64, Vec<usize>>>,
}

/// FNV-1a over the values of a band.
pub open spec fn band_hash(b: Seq<u32>) -> u64
    decreases b.len(),
{
    if b.len() == 0 {
        14695981039346656037u64
    } else {
        (band_hash(b.drop_last()) ^ (b.last() as u64)).wrapping_mul(1099511628211u64)
    }
}

pub fn band_hash_exec(b: &[u32]) -> (h: u64)
    ensures
        h == band_hash(b@),
{
    let mut h: u64 = 14695981039346656037u64;
    let mut i: usize = 0;
    while i < b.len()
        invariant
            i <= b.len(),
            h == band_hash(b@.take(i as int)),
        decreases b.len() - i,
    {
        assert(b@.take(i + 1).drop_last() == b@.take(i as int));
        h = (h ^ (b[i] as u64)).wrapping_mul(1099511628211u64);
        i = i + 1;
    }
    assert(b@.take(b.len() as int) == b@);
    h
}

/// The signatures (by index below `upto`) are exactly filed, in increasing order, under the
/// hash of their k-th band.
pub open spec fn band_map_ok(m: Map<u64, Vec<usize>>, sigs: Seq<Seq<u32>>, n: nat, k: int, upto: int) -> bool {
    &&& forall|key: u64| #[trigger] m.contains_key(key) ==> {
        &&& forall|a: int| 0 <= a < m[key]@.len() ==> {
            &&& (#[trigger] m[key]@[a]) < upto
            &&& band_hash(band(sigs[m[key]@[a] as int], n, k)) == key
        }
        &&& forall|a: int, b: int| 0 <= a < b < m[key]@.len() ==> #[trigger] m[key]@[a] < #[trigger] m[key]@[b]
    }
    &&& forall|id: int| #![trigger sigs[id]] 0 <= id < upto ==> {
        let key = band_hash(band(sigs[id], n, k));
        &&& m.contains_key(key)
        &&& m[key]@.contains(id as usize)
    }
}

/// Two signatures share the k-th band for some k below n.
pub open spec fn share_band(sigs: Seq<Seq<u32>>, n: nat, i: int, j: int) -> bool {
    exists|k: int| 0 <= k < n && #[trigger] band(sigs[i], n, k) == band(sigs[j], n, k)
}

pub open spec fn sigs_view(signatures: Seq<Signature>) -> Seq<Seq<u32>> {
    signatures.map_values(|s: Signature| s@)
}

/// The k-th of the n bands of a signature.
fn band_of(sig: &Signature, n: usize, k: usize) -> (b: &[u32])
    requires
        splittable(sig@, n as nat),
        k < n,
    ensures
        b@ == band(sig@, n as nat, k as int),
{
    proof {
        lemma_band_bounds(sig@.len(), n as nat, k as int);
    }
    let s = sig.len() / n;
    assert(k * s + s <= sig.len());
    let start = k * s;
    vstd::slice::slice_subrange(sig.as_slice(), start, start + s)
}

fn same_band(a: &[u32], b: &[u32]) -> (r: bool)
    ensures
        r == (a@ == b@),
{
    if a.len() != b.len() {
        return false;
    }
    let mut i: usize = 0;
    while i < a.len()
        invariant
            i <= a.len(),
            a.len() == b.len(),
            forall|j: int| 0 <= j < i ==> a@[j] == b@[j],
        decreases a.len() - i,
    {
        if a[i] != b[i] {
            return false;
        }
        i = i + 1;
    }
    assert(a@ =~= b@);
    true
}

/// The candidate pairs: ordered, distinct, and exactly the pairs of signatures that share a band.
pub open spec fn candidates_ok(pairs: Seq<IdPair>, sigs: Seq<Seq<u32>>, n: nat) -> bool {
    &&& forall|a: int| 0 <= a < pairs.len() ==> {
        &&& (#[trigger] pairs[a]).0 < pairs[a].1 < sigs.len()
        &&& share_band(sigs, n, pairs[a].0 as int, pairs[a].1 as int)
    }
    &&& forall|i: int, j: int| 0 <= i < j < sigs.len() && share_band(sigs, n, i, j)
        ==> #[trigger] pairs.contains(IdPair(i as usize, j as usize))
    &&& forall|a: int, b: int| 0 <= a < b < pairs.len() ==> #[trigger] pairs[a] != #[trigger] pairs[b]
}

impl TraditionalLSH {
    /// The banding of signatures of `signature_size` values into bands of `band_size` values:
    /// the signature size must be divisible by the band size.
    pub fn new(arity: usize, signature_size: usize, band_size: usize) -> (lsh: Self)
        requires
            band_size > 0,
            signature_size % band_size == 0,
        ensures
            lsh.arity == arity,
            lsh.signature_size == signature_size,
            lsh.n_bands == signature_size / band_size,
    {
        Self { arity, signature_size, n_bands: signature_size / band_size }
    }

    /// Signatures of this size can be banded.
    pub open spec fn fits(&self, signatures: Seq<Seq<u32>>) -> bool {
        forall|i: int| 0 <= i < signatures.len() ==> (#[trigger] signatures[i]).len() == self.signature_size
            && splittable(signatures[i], self.n_bands as nat)
    }

    /// Build the hash maps for the different bands. The maps are used to collect all signatures
    /// that have a hash conflict for a specific band.
    pub fn build_band_maps(&self, signatures: &[Signature]) -> (bm: BandMaps)
        requires
            self.fits(sigs_view(signatures@)),
        ensures
            bm.maps.len() == self.n_bands,
            forall|k: int| 0 <= k < self.n_bands ==> band_map_ok((#[trigger] bm.maps@[k])@,
                sigs_view(signatures@), self.n_bands as nat, k, signatures.len() as int),
    {
        let ghost sv = sigs_view(signatures@);
        let mut maps: Vec<HashMap<u64, Vec<usize>>> = Vec::new();
        let mut k: usize = 0;
        while k < self.n_bands
            invariant
                k <= self.n_bands,
                maps.len() == k,
                forall|j: int| 0 <= j < k ==> (#[trigger] maps@[j])@ == Map::<u64, Vec<usize>>::empty(),
            decreases self.n_bands - k,
        {
            maps.push(HashMap::new());
            k = k + 1;
        }
        let mut id: usize = 0;
        while id < signatures.len()
            invariant
                id <= signatures.len(),
                sv == sigs_view(signatures@),
                self.fits(sv),
                maps.len() == self.n_bands,
                forall|j: int| 0 <= j < self.n_bands ==> band_map_ok((#[trigger] maps@[j])@, sv, self.n_bands as nat, j, id as int),
            decreases signatures.len() - id,
        {
            assert(sv[id as int] == signatures@[id as int]@);
            let bands = split_signature(&signatures[id], self.n_bands);
            let mut k: usize = 0;
            while k < self.n_bands
                invariant
                    k <= self.n_bands,
                    id < signatures.len(),
                    sv == sigs_view(signatures@),
                    self.fits(sv),
                    maps.len() == self.n_bands,
                    bands.len() == self.n_bands,
                    forall|j: int| 0 <= j < self.n_bands ==> (#[trigger] bands@[j])@ == band(sv[id as int], self.n_bands as nat, j),
                    forall|j: int| 0 <= j < k ==> band_map_ok((#[trigger] maps@[j])@, sv, self.n_bands as nat, j, id + 1),
                    forall|j: int| k <= j < self.n_bands ==> band_map_ok((#[trigger] maps@[j])@, sv, self.n_bands as nat, j, id as int),
                decreases self.n_bands - k,
            {
                let ghost mv00 = maps@;
                let key = band_hash_exec(bands[k]);
                let ghost m0 = maps@[k as int]@;
                let mut bucket = match maps[k].get(&key) {
                    Some(b) => b.clone(),
                    None => Vec::new(),
                };
                let ghost b0 = bucket@;
                bucket.push(id);
                let ghost nb = bucket;
                let ghost mv0 = maps@;
                let mut m = maps.remove(k);
                m.insert(key, bucket);
                let ghost m1 = m;
                maps.insert(k, m);
                proof {
                    let n = self.n_bands as nat;
                    assert(maps@ == mv0.update(k as int, m1));
                    assert(maps@[k as int]@ == m0.insert(key, nb));
                    assert(key == band_hash(band(sv[id as int], n, k as int)));
                    assert forall|j: int| 0 <= j < k + 1 implies band_map_ok((#[trigger] maps@[j])@, sv, n, j, id + 1) by {
                        if j == k {
                            let mm = maps@[j]@;
                            assert forall|key2: u64| #[trigger] mm.contains_key(key2) implies {
                                &&& forall|a: int| 0 <= a < mm[key2]@.len() ==> {
                                    &&& (#[trigger] mm[key2]@[a]) < id + 1
                                    &&& band_hash(band(sv[mm[key2]@[a] as int], n, j)) == key2
                                }
                                &&& forall|a: int, b: int| 0 <= a < b < mm[key2]@.len() ==> #[trigger] mm[key2]@[a] < #[trigger] mm[key2]@[b]
                            } by {
                                if key2 == key {
                                    assert(mm[key2]@ == b0.push(id));
                                    assert forall|a: int| 0 <= a < mm[key2]@.len() implies {
                                        &&& (#[trigger] mm[key2]@[a]) < id + 1
                                        &&& band_hash(band(sv[mm[key2]@[a] as int], n, j)) == key2
                                    } by {
                                        if a < b0.len() {
                                            assert(m0.contains_key(key));
                                            assert(mm[key2]@[a] == m0[key]@[a]);
                                        }
                                    }
                                    assert forall|a: int, b: int| 0 <= a < b < mm[key2]@.len() implies #[trigger] mm[key2]@[a] < #[trigger] mm[key2]@[b] by {
                                        if b < b0.len() {
                                            assert(mm[key2]@[a] == m0[key]@[a]);
                                            assert(mm[key2]@[b] == m0[key]@[b]);
                                        } else {
                                            assert(m0.contains_key(key));
                                            assert(mm[key2]@[a] == m0[key]@[a]);
                                        }
                                    }
                                } else {
                                    assert(mm[key2] == m0[key2]);
                                }
                            }
                            assert forall|id2: int| #![trigger sv[id2]] 0 <= id2 < id + 1 implies {
                                let key3 = band_hash(band(sv[id2], n, j));
                                &&& mm.contains_key(key3)
                                &&& mm[key3]@.contains(id2 as usize)
                            } by {
                                let key3 = band_hash(band(sv[id2], n, j));
                                if id2 == id {
                                    assert(mm[key]@[b0.len() as int] == id);
                                } else if key3 == key {
                                    let a = choose|a: int| 0 <= a < m0[key3]@.len() && m0[key3]@[a] == id2 as usize;
                                    assert(mm[key3]@[a] == id2 as usize);
                                } else {
                                    assert(mm[key3] == m0[key3]);
                                }
                            }
                        } else {
                            assert(maps@[j] == mv0[j]);
                        }
                    }
                }
                k = k + 1;
            }
            id = id + 1;
        }
        BandMaps { maps }
    }

    /// Collect all match candidates from the band hash maps: the pairs of signatures that
    /// agree on at least one band.
    pub fn collect_candidates(&self, band_maps: &BandMaps, signatures: &[Signature]) -> (pairs: Vec<IdPair>)
        requires
            self.fits(sigs_view(signatures@)),
            band_maps.maps.len() == self.n_bands,
            forall|k: int| 0 <= k < self.n_bands ==> band_map_ok((#[trigger] band_maps.maps@[k])@,
                sigs_view(signatures@), self.n_bands as nat, k, signatures.len() as int),
        ensures
            candidates_ok(pairs@, sigs_view(signatures@), self.n_bands as nat),
    {
        let ghost sv = sigs_view(signatures@);
        let ghost n = self.n_bands as nat;
        let nsig = signatures.len();
        let mut marks: Vec<bool> = Vec::new();
        while marks.len() < nsig
            invariant
                marks.len() <= nsig,
                forall|j: int| 0 <= j < marks.len() ==> !marks@[j],
            decreases nsig - marks.len(),
        {
            marks.push(false);
        }
        let mut pairs: Vec<IdPair> = Vec::new();
        let mut i: usize = 0;
        while i < nsig
            invariant
                i <= nsig,
                nsig == signatures.len(),
                sv == sigs_view(signatures@),
                n == self.n_bands as nat,
                self.fits(sv),
                band_maps.maps.len() == self.n_bands,
                forall|k: int| 0 <= k < self.n_bands ==> band_map_ok((#[trigger] band_maps.maps@[k])@, sv, n, k, nsig as int),
                marks.len() == nsig,
                forall|j: int| 0 <= j < nsig ==> !marks@[j],
                forall|a: int| 0 <= a < pairs.len() ==> {
                    &&& (#[trigger] pairs@[a]).0 < pairs@[a].1 < nsig
                    &&& pairs@[a].0 < i
                    &&& share_band(sv, n, pairs@[a].0 as int, pairs@[a].1 as int)
                },
                forall|i2: int, j: int| 0 <= i2 < i && i2 < j < nsig && share_band(sv, n, i2, j)
                    ==> #[trigger] pairs@.contains(IdPair(i2 as usize, j as usize)),
                forall|a: int, b: int| 0 <= a < b < pairs.len() ==> #[trigger] pairs@[a] != #[trigger] pairs@[b],
            decreases nsig - i,
        {
            assert(sv[i as int] == signatures@[i as int]@);
            let mut found: Vec<usize> = Vec::new();
            let ghost pairs0 = pairs@;
            let mut k: usize = 0;
            while k < self.n_bands
                invariant
                    i < nsig,
                    nsig == signatures.len(),
                    sv == sigs_view(signatures@),
                    n == self.n_bands as nat,
                    self.fits(sv),
                    k <= self.n_bands,
                    band_maps.maps.len() == self.n_bands,
                    forall|k2: int| 0 <= k2 < self.n_bands ==> band_map_ok((#[trigger] band_maps.maps@[k2])@, sv, n, k2, nsig as int),
                    marks.len() == nsig,
                    forall|j: int| 0 <= j < nsig ==> (marks@[j] <==> #[trigger] found@.contains(j as usize)),
                    forall|a: int| 0 <= a < found.len() ==> i < #[trigger] found@[a] < nsig
                        && share_band(sv, n, i as int, found@[a] as int),
                    forall|a: int, b: int| 0 <= a < b < found.len() ==> #[trigger] found@[a] != #[trigger] found@[b],
                    forall|j: int, k2: int| i < j < nsig && 0 <= k2 < k && #[trigger] band(sv[i as int], n, k2) == #[trigger] band(sv[j], n, k2)
                        ==> found@.contains(j as usize),
                    pairs@.len() == pairs0.len() + found.len(),
                    forall|a: int| 0 <= a < pairs0.len() ==> pairs@[a] == pairs0[a],
                    forall|a: int| 0 <= a < found.len() ==> pairs@[pairs0.len() + a] == IdPair(i, #[trigger] found@[a]),
                    forall|a: int| 0 <= a < pairs0.len() ==> (#[trigger] pairs0[a]).0 < i,
                    forall|a: int| 0 <= a < pairs0.len() ==> {
                        &&& (#[trigger] pairs0[a]).0 < pairs0[a].1 < nsig
                        &&& share_band(sv, n, pairs0[a].0 as int, pairs0[a].1 as int)
                    },
                    forall|i2: int, j: int| 0 <= i2 < i && i2 < j < nsig && share_band(sv, n, i2, j)
                        ==> #[trigger] pairs0.contains(IdPair(i2 as usize, j as usize)),
                    forall|a: int, b: int| 0 <= a < b < pairs0.len() ==> #[trigger] pairs0[a] != #[trigger] pairs0[b],
                decreases self.n_bands - k,
            {
                assert(sv[i as int] == signatures@[i as int]@);
                let bi = band_of(&signatures[i], self.n_bands, k);
                let key = band_hash_exec(bi);
                let ghost m = band_maps.maps@[k as int]@;
                proof {
                    assert(band_map_ok(m, sv, n, k as int, nsig as int));
                    assert(sv[i as int] == signatures@[i as int]@);
                    let key0 = band_hash(band(sv[i as int], n, k as int));
                    assert(m.contains_key(key0));
                }
                match band_maps.maps[k].get(&key) {
                    None => {
                        proof {
                            assert(false);
                        }
                    },
                    Some(bucket) => {
                        let mut t: usize = 0;
                        while t < bucket.len()
                            invariant
                                i < nsig,
                                nsig == signatures.len(),
                                sv == sigs_view(signatures@),
                                n == self.n_bands as nat,
                                self.fits(sv),
                                k < self.n_bands,
                                bi@ == band(sv[i as int], n, k as int),
                                m.contains_key(key),
                                *bucket == m[key],
                                band_map_ok(m, sv, n, k as int, nsig as int),
                                t <= bucket.len(),
                                marks.len() == nsig,
                                forall|j: int| 0 <= j < nsig ==> (marks@[j] <==> #[trigger] found@.contains(j as usize)),
                                forall|a: int| 0 <= a < found.len() ==> i < #[trigger] found@[a] < nsig
                                    && share_band(sv, n, i as int, found@[a] as int),
                                forall|a: int, b: int| 0 <= a < b < found.len() ==> #[trigger] found@[a] != #[trigger] found@[b],
                                forall|j: int, k2: int| i < j < nsig && 0 <= k2 < k && #[trigger] band(sv[i as int], n, k2) == #[trigger] band(sv[j], n, k2)
                                    ==> found@.contains(j as usize),
                                forall|a: int| 0 <= a < t && i < #[trigger] bucket@[a] && band(sv[i as int], n, k as int) == band(sv[bucket@[a] as int], n, k as int)
                                    ==> found@.contains(bucket@[a]),
                                pairs@.len() == pairs0.len() + found.len(),
                                forall|a: int| 0 <= a < pairs0.len() ==> pairs@[a] == pairs0[a],
                                forall|a: int| 0 <= a < found.len() ==> pairs@[pairs0.len() + a] == IdPair(i, #[trigger] found@[a]),
                            decreases bucket.len() - t,
                        {
                            let j = bucket[t];
                            proof {
                                assert(j < nsig);
                                assert(sv[j as int] == signatures@[j as int]@);
                            }
                            if j > i && !marks[j] {
                                let bj = band_of(&signatures[j], self.n_bands, k);
                                if same_band(bi, bj) {
                                    let ghost f0 = found@;
                                    let ghost pp = pairs@;
                                    assert(!f0.contains(j));
                                    marks.set(j, true);
                                    found.push(j);
                                    pairs.push(IdPair(i, j));
                                    proof {
                                        assert(share_band(sv, n, i as int, j as int));
                                        assert forall|a: int, b: int| 0 <= a < b < found.len() implies #[trigger] found@[a] != #[trigger] found@[b] by {
                                            if b == f0.len() {
                                                assert(found@[a] == f0[a]);
                                                assert(f0.contains(f0[a]));
                                            }
                                        }
                                        assert forall|jj: int| 0 <= jj < nsig implies (marks@[jj] <==> #[trigger] found@.contains(jj as usize)) by {
                                            if jj == j {
                                                assert(found@[f0.len() as int] == j);
                                            } else {
                                                if found@.contains(jj as usize) {
                                                    let a = choose|a: int| 0 <= a < found@.len() && found@[a] == jj as usize;
                                                    assert(a < f0.len());
                                                    assert(f0.contains(jj as usize));
                                                }
                                                if f0.contains(jj as usize) {
                                                    let a = choose|a: int| 0 <= a < f0.len() && f0[a] == jj as usize;
                                                    assert(found@[a] == jj as usize);
                                                }
                                            }
                                        }
                                        assert forall|jj: int, k2: int| i < jj < nsig && 0 <= k2 < k && #[trigger] band(sv[i as int], n, k2) == #[trigger] band(sv[jj], n, k2)
                                            implies found@.contains(jj as usize) by {
                                            assert(f0.contains(jj as usize));
                                            let a = choose|a: int| 0 <= a < f0.len() && f0[a] == jj as usize;
                                            assert(found@[a] == jj as usize);
                                        }
                                        assert forall|a: int| 0 <= a < t + 1 && i < #[trigger] bucket@[a] && band(sv[i as int], n, k as int) == band(sv[bucket@[a] as int], n, k as int)
                                            implies found@.contains(bucket@[a]) by {
                                            if a < t {
                                                assert(f0.contains(bucket@[a]));
                                                let b = choose|b: int| 0 <= b < f0.len() && f0[b] == bucket@[a];
                                                assert(found@[b] == bucket@[a]);
                                            } else {
                                                assert(found@[f0.len() as int] == j);
                                            }
                                        }
                                        assert forall|a: int| 0 <= a < found.len() implies pairs@[pairs0.len() + a] == IdPair(i, #[trigger] found@[a]) by {
                                            if a < f0.len() {
                                                assert(pairs@[pairs0.len() + a] == pp[pairs0.len() + a]);
                                            }
                                        }
                                    }
                                }
                            }
                            t = t + 1;
                        }
                        proof {
                            assert forall|j: int| i < j < nsig && #[trigger] band(sv[i as int], n, k as int) == #[trigger] band(sv[j], n, k as int)
                                implies found@.contains(j as usize) by {
                                assert(sv[j] == sv[j]);
                                let kk = band_hash(band(sv[j], n, k as int));
                                assert(kk == key);
                                assert(m[key]@.contains(j as usize));
                                let a = choose|a: int| 0 <= a < m[key]@.len() && m[key]@[a] == j as usize;
                                assert(bucket@[a] == j as usize);
                            }
                        }
                    },
                }
                k = k + 1;
            }
            // Pairs of this signature are complete; reset the marks.
            let mut t: usize = 0;
            assert(found@.take(0) =~= Seq::<usize>::empty());
            #[verifier::loop_isolation(false)]
            while t < found.len()
                invariant
                    t <= found.len(),
                    marks.len() == nsig,
                    forall|a: int| 0 <= a < found.len() ==> #[trigger] found@[a] < nsig,
                    forall|j: int| 0 <= j < nsig ==> (marks@[j] <==> (#[trigger] found@.contains(j as usize) && !found@.take(t as int).contains(j as usize))),
                decreases found.len() - t,
            {
                let ghost marks0 = marks@;
                marks.set(found[t], false);
                proof {
                    assert(marks@ == marks0.update(found@[t as int] as int, false));
                    let pre0 = found@.take(t as int);
                    let pre1 = found@.take(t + 1);
                    assert(pre1 == pre0.push(found@[t as int]));
                    assert forall|j: int| 0 <= j < nsig implies (marks@[j] <==> (#[trigger] found@.contains(j as usize) && !pre1.contains(j as usize))) by {
                        if pre0.contains(j as usize) {
                            let a = choose|a: int| 0 <= a < pre0.len() && pre0[a] == j as usize;
                            assert(pre1[a] == j as usize);
                        }
                        if pre1.contains(j as usize) && j != found@[t as int] {
                            let a = choose|a: int| 0 <= a < pre1.len() && pre1[a] == j as usize;
                            assert(pre0[a] == j as usize);
                        }
                        if j == found@[t as int] {
                            assert(pre1[t as int] == j as usize);
                        }
                    }
                }
                t = t + 1;
            }
            proof {
                assert forall|j: int| 0 <= j < nsig implies !marks@[j] by {
                    if found@.contains(j as usize) {
                        let a = choose|a: int| 0 <= a < found.len() && found@[a] == j as usize;
                        assert(found@.take(found.len() as int)[a] == j as usize);
                    }
                }
                assert forall|a: int| 0 <= a < pairs.len() implies {
                    &&& (#[trigger] pairs@[a]).0 < pairs@[a].1 < nsig
                    &&& pairs@[a].0 < i + 1
                    &&& share_band(sv, n, pairs@[a].0 as int, pairs@[a].1 as int)
                } by {
                    if a >= pairs0.len() {
                        let f = found@[a - pairs0.len()];
                        assert(pairs@[pairs0.len() + (a - pairs0.len())] == IdPair(i, f));
                    } else {
                        assert(pairs@[a] == pairs0[a]);
                    }
                }
                assert forall|i2: int, j: int| 0 <= i2 < i + 1 && i2 < j < nsig && share_band(sv, n, i2, j)
                    implies #[trigger] pairs@.contains(IdPair(i2 as usize, j as usize)) by {
                    if i2 < i {
                        assert(pairs0.contains(IdPair(i2 as usize, j as usize)));
                        let a = choose|a: int| 0 <= a < pairs0.len() && pairs0[a] == IdPair(i2 as usize, j as usize);
                        assert(pairs@[a] == pairs0[a]);
                    } else {
                        let k2 = choose|k2: int| 0 <= k2 < n && #[trigger] band(sv[i2], n, k2) == band(sv[j], n, k2);
                        assert(found@.contains(j as usize));
                        let a = choose|a: int| 0 <= a < found.len() && found@[a] == j as usize;
                        assert(pairs@[pairs0.len() + a] == IdPair(i, found@[a]));
                    }
                }
                assert forall|a: int, b: int| 0 <= a < b < pairs.len() implies #[trigger] pairs@[a] != #[trigger] pairs@[b] by {
                    if b < pairs0.len() {
                        assert(pairs@[a] == pairs0[a] && pairs@[b] == pairs0[b]);
                    } else if a < pairs0.len() {
                        assert(pairs@[a] == pairs0[a]);
                        assert(pairs@[pairs0.len() + (b - pairs0.len())] == IdPair(i, found@[b - pairs0.len()]));
                    } else {
                        assert(pairs@[pairs0.len() + (a - pairs0.len())] == IdPair(i, found@[a - pairs0.len()]));
                        assert(pairs@[pairs0.len() + (b - pairs0.len())] == IdPair(i, found@[b - pairs0.len()]));
                    }
                }
            }
            i = i + 1;
        }
        pairs
    }
}


/// Every kept entry is the list of counted lines of a commit with that id.
pub open spec fn cache_agrees(cache: Map<Seq<char>, Seq<CountedModel>>, commits: Seq<Commit>) -> bool {
    forall|id: Seq<char>| #[trigger] cache.contains_key(id) ==> exists|i: int| 0 <= i < commits.len()
        && commits[i].id@ == id && cache[id] == counted_models(commits[i].diff)
}

/// Commits with the same id have the same counted lines.
pub open spec fn ids_identify_diffs(commits: Seq<Commit>) -> bool {
    forall|i: int, j: int| 0 <= i < commits.len() && 0 <= j < commits.len() && commits[i].id@ == commits[j].id@
        ==> counted_models(#[trigger] commits[i].diff) == counted_models(#[trigger] commits[j].diff)
}

/// The candidate pairs whose commits have different ids, in order.
pub open spec fn distinct_id_pairs(pairs: Seq<IdPair>, commits: Seq<Commit>) -> Seq<IdPair> {
    pairs.filter(|p: IdPair| commits[p.0 as int].id@ != commits[p.1 as int].id@)
}

impl TraditionalLSH {
    /// The candidate pairs of commits with different ids, each with the Jaccard counts of the
    /// two diffs; the comparator keeps the counted lines of each commit it meets. Whether a pair
    /// is similar enough is the threshold's decision.
    pub fn rate_candidates(&self, id_pairs: &[IdPair], commits: &[Commit], comparator: &mut DiffSimilarity) -> (rated: Vec<(IdPair, JaccardCounts)>)
        requires
            old(comparator).wf(),
            forall|k: int| 0 <= k < id_pairs.len() ==> (#[trigger] id_pairs@[k]).0 < commits.len() && id_pairs@[k].1 < commits.len(),
            forall|i: int| 0 <= i < commits.len() ==> body_lines((#[trigger] commits@[i]).diff.hunks@).len() <= usize::MAX / 2,
        ensures
            final(comparator).wf(),
            rated@.map_values(|r: (IdPair, JaccardCounts)| r.0) == distinct_id_pairs(id_pairs@, commits@),
            forall|k: int| 0 <= k < rated.len() ==> counts_view((#[trigger] rated@[k]).1) == jaccard_counts(
                final(comparator).cached()[commits@[rated@[k].0.0 as int].id@].to_set(),
                final(comparator).cached()[commits@[rated@[k].0.1 as int].id@].to_set()),
            forall|id: Seq<char>| #[trigger] old(comparator).cached().contains_key(id) ==> final(comparator).cached().contains_key(id)
                && final(comparator).cached()[id] == old(comparator).cached()[id],
            cache_agrees(old(comparator).cached(), commits@) ==> cache_agrees(final(comparator).cached(), commits@),
            cache_agrees(old(comparator).cached(), commits@) && ids_identify_diffs(commits@) ==> forall|k: int| 0 <= k < rated.len()
                ==> counts_view((#[trigger] rated@[k]).1) == jaccard_counts(
                    counted_models(commits@[rated@[k].0.0 as int].diff).to_set(),
                    counted_models(commits@[rated@[k].0.1 as int].diff).to_set()),
    {
        let ghost c0 = comparator.cached();
        let ghost sel = |p: IdPair| commits@[p.0 as int].id@ != commits@[p.1 as int].id@;
        let mut rated: Vec<(IdPair, JaccardCounts)> = Vec::new();
        let mut k: usize = 0;
        while k < id_pairs.len()
            invariant
                k <= id_pairs.len(),
                comparator.wf(),
                sel == (|p: IdPair| commits@[p.0 as int].id@ != commits@[p.1 as int].id@),
                forall|k: int| 0 <= k < id_pairs.len() ==> (#[trigger] id_pairs@[k]).0 < commits.len() && id_pairs@[k].1 < commits.len(),
                forall|i: int| 0 <= i < commits.len() ==> body_lines((#[trigger] commits@[i]).diff.hunks@).len() <= usize::MAX / 2,
                rated@.map_values(|r: (IdPair, JaccardCounts)| r.0) == id_pairs@.take(k as int).filter(sel),
                forall|j: int| 0 <= j < rated.len() ==> counts_view((#[trigger] rated@[j]).1) == jaccard_counts(
                    comparator.cached()[commits@[rated@[j].0.0 as int].id@].to_set(),
                    comparator.cached()[commits@[rated@[j].0.1 as int].id@].to_set()),
                forall|j: int| 0 <= j < rated.len() ==> comparator.cached().contains_key(commits@[(#[trigger] rated@[j]).0.0 as int].id@)
                    && comparator.cached().contains_key(commits@[rated@[j].0.1 as int].id@),
                forall|j: int| 0 <= j < rated.len() ==> (#[trigger] rated@[j]).0.0 < commits.len() && rated@[j].0.1 < commits.len(),
                forall|id: Seq<char>| #[trigger] c0.contains_key(id) ==> comparator.cached().contains_key(id)
                    && comparator.cached()[id] == c0[id],
                cache_agrees(c0, commits@) ==> cache_agrees(comparator.cached(), commits@),
            decreases id_pairs.len() - k,
        {
            let p = id_pairs[k];
            let commit_a = &commits[p.0];
            let commit_b = &commits[p.1];
            let ghost ck = comparator.cached();
            let ghost r0 = rated@;
            proof {
                assert(id_pairs@.take(k + 1) == id_pairs@.take(k as int).push(p));
                id_pairs@.take(k as int).lemma_filter_push(p, sel);
            }
            if commit_a.id != commit_b.id {
                let counts = comparator.change_similarity(commit_a, commit_b);
                rated.push((p, counts));
                proof {
                    assert(rated@.map_values(|r: (IdPair, JaccardCounts)| r.0) =~= r0.map_values(|r: (IdPair, JaccardCounts)| r.0).push(p));
                    assert forall|j: int| 0 <= j < rated.len() implies counts_view((#[trigger] rated@[j]).1) == jaccard_counts(
                        comparator.cached()[commits@[rated@[j].0.0 as int].id@].to_set(),
                        comparator.cached()[commits@[rated@[j].0.1 as int].id@].to_set()) by {
                        if j < r0.len() {
                            assert(rated@[j] == r0[j]);
                        }
                    }
                    assert forall|j: int| 0 <= j < rated.len() implies comparator.cached().contains_key(commits@[(#[trigger] rated@[j]).0.0 as int].id@)
                        && comparator.cached().contains_key(commits@[rated@[j].0.1 as int].id@)
                        && rated@[j].0.0 < commits.len() && rated@[j].0.1 < commits.len() by {
                        if j < r0.len() {
                            assert(rated@[j] == r0[j]);
                        }
                    }
                    if cache_agrees(c0, commits@) {
                        assert forall|id: Seq<char>| #[trigger] comparator.cached().contains_key(id) implies exists|i: int| 0 <= i < commits.len()
                            && commits@[i].id@ == id && comparator.cached()[id] == counted_models(commits@[i].diff) by {
                            if ck.contains_key(id) {
                            } else if id == commit_a.id@ {
                                assert(commits@[p.0 as int] == *commit_a);
                            } else {
                                assert(commits@[p.1 as int] == *commit_b);
                            }
                        }
                    }
                }
            } else {
                proof {
                    assert(rated@.map_values(|r: (IdPair, JaccardCounts)| r.0) =~= id_pairs@.take(k + 1).filter(sel));
                }
            }
            k = k + 1;
        }
        assert(id_pairs@.take(id_pairs.len() as int) == id_pairs@);
        proof {
            if cache_agrees(c0, commits@) && ids_identify_diffs(commits@) {
                assert forall|j: int| 0 <= j < rated.len() implies counts_view((#[trigger] rated@[j]).1) == jaccard_counts(
                    counted_models(commits@[rated@[j].0.0 as int].diff).to_set(),
                    counted_models(commits@[rated@[j].0.1 as int].diff).to_set()) by {
                    let cf = comparator.cached();
                    let ia = rated@[j].0.0 as int;
                    let ib = rated@[j].0.1 as int;
                    assert(cf.contains_key(commits@[ia].id@));
                    assert(cf.contains_key(commits@[ib].id@));
                    let wa = choose|i: int| 0 <= i < commits.len() && commits@[i].id@ == commits@[ia].id@ && cf[commits@[ia].id@] == counted_models(commits@[i].diff);
                    let wb = choose|i: int| 0 <= i < commits.len() && commits@[i].id@ == commits@[ib].id@ && cf[commits@[ib].id@] == counted_models(commits@[i].diff);
                    assert(counted_models(commits@[wa].diff) == counted_models(commits@[ia].diff));
                    assert(counted_models(commits@[wb].diff) == counted_models(commits@[ib].diff));
                }
            }
        }
        rated
    }
}

/// The signatures of the commits' diffs, under some outcome of the random choices of
/// preprocessing, and the candidate pairs that their bands give.
pub open spec fn banded_candidates(
    lsh: TraditionalLSH,
    commits: Seq<Commit>,
    voc: Map<Seq<char>, usize>,
    vs: Seq<Seq<usize>>,
    sigs: Seq<Signature>,
    pairs: Seq<IdPair>,
) -> bool {
    &&& signatures_under(voc, vs, commits_char_shingles(commits, lsh.arity as nat), sigs, lsh.signature_size as nat)
    &&& candidates_ok(pairs, sigs_view(sigs), lsh.n_bands as nat)
}

impl TraditionalLSH {
    /// The search up to the threshold: the signatures of the commits' diffs are banded, and
    /// the candidate pairs of commits with different ids come with the Jaccard counts of their
    /// diffs, as `rate_candidates` computes them. Which signatures, and so which candidates,
    /// depends on the random choices of preprocessing.
    pub fn rated_candidates(&self, commits: &[Commit], comparator: &mut DiffSimilarity) -> (rated: Vec<(IdPair, JaccardCounts)>)
        requires
            old(comparator).wf(),
            self.n_bands > 0,
            self.signature_size % self.n_bands == 0,
            forall|i: int| 0 <= i < commits.len() ==> body_lines((#[trigger] commits@[i]).diff.hunks@).len() <= usize::MAX / 2,
        ensures
            final(comparator).wf(),
            exists|voc: Map<Seq<char>, usize>, vs: Seq<Seq<usize>>, sigs: Seq<Signature>, pairs: Seq<IdPair>|
                #[trigger] banded_candidates(*self, commits@, voc, vs, sigs, pairs)
                && rated@.map_values(|r: (IdPair, JaccardCounts)| r.0) == distinct_id_pairs(pairs, commits@),
            forall|k: int| 0 <= k < rated.len() ==> (#[trigger] rated@[k]).0.0 < rated@[k].0.1 < commits.len()
                && counts_view(rated@[k].1) == jaccard_counts(
                    final(comparator).cached()[commits@[rated@[k].0.0 as int].id@].to_set(),
                    final(comparator).cached()[commits@[rated@[k].0.1 as int].id@].to_set()),
            forall|id: Seq<char>| #[trigger] old(comparator).cached().contains_key(id) ==> final(comparator).cached().contains_key(id)
                && final(comparator).cached()[id] == old(comparator).cached()[id],
            cache_agrees(old(comparator).cached(), commits@) ==> cache_agrees(final(comparator).cached(), commits@),
            cache_agrees(old(comparator).cached(), commits@) && ids_identify_diffs(commits@) ==> forall|k: int| 0 <= k < rated.len()
                ==> counts_view((#[trigger] rated@[k]).1) == jaccard_counts(
                    counted_models(commits@[rated@[k].0.0 as int].diff).to_set(),
                    counted_models(commits@[rated@[k].0.1 as int].diff).to_set()),
    {
        let signatures = preprocess_commits(commits, self.arity, self.signature_size);
        let ghost shingles = commits_char_shingles(commits@, self.arity as nat);
        let ghost (voc, vs) = choose|voc: Map<Seq<char>, usize>, vs: Seq<Seq<usize>>|
            #[trigger] signatures_under(voc, vs, shingles, signatures@, self.signature_size as nat);
        proof {
            assert forall|i: int| 0 <= i < shingles.len() implies (#[trigger] shingles[i]).len() > 0 by {
                lemma_char_shingles_nonempty(commits@[i].diff.diff_text@, self.arity as nat);
            }
            lemma_signature_lengths(voc, vs, shingles, signatures@, self.signature_size as nat);
            assert forall|i: int| 0 <= i < sigs_view(signatures@).len() implies (#[trigger] sigs_view(signatures@)[i]).len() == self.signature_size
                && splittable(sigs_view(signatures@)[i], self.n_bands as nat) by {
                assert(sigs_view(signatures@)[i] == signatures@[i]@);
            }
        }
        let band_maps = self.build_band_maps(&signatures);
        let pairs = self.collect_candidates(&band_maps, &signatures);
        proof {
            assert(signatures@.len() == commits.len());
            assert(banded_candidates(*self, commits@, voc, vs, signatures@, pairs@));
        }
        let rated = self.rate_candidates(&pairs, commits, comparator);
        proof {
            let sel = |p: IdPair| commits@[p.0 as int].id@ != commits@[p.1 as int].id@;
            let firsts = rated@.map_values(|r: (IdPair, JaccardCounts)| r.0);
            assert forall|k: int| 0 <= k < rated.len() implies (#[trigger] rated@[k]).0.0 < rated@[k].0.1 < commits.len() by {
                assert(firsts[k] == rated@[k].0);
                assert(firsts.contains(firsts[k]));
                assert(distinct_id_pairs(pairs@, commits@) == pairs@.filter(sel));
                pairs@.lemma_filter_contains_rev(sel, firsts[k]);
                let a = choose|a: int| 0 <= a < pairs@.len() && pairs@[a] == firsts[k];
                assert(pairs@[a].0 < pairs@[a].1 < sigs_view(signatures@).len());
            }
        }
        rated
    }
}

/// Two commits whose diffs have the same text get the same signature, whatever the random
/// choices of preprocessing, and are always a candidate pair.
pub proof fn lemma_equal_texts_are_candidates(
    lsh: TraditionalLSH,
    commits: Seq<Commit>,
    voc: Map<Seq<char>, usize>,
    vs: Seq<Seq<usize>>,
    sigs: Seq<Signature>,
    pairs: Seq<IdPair>,
    i: int,
    j: int,
)
    requires
        banded_candidates(lsh, commits, voc, vs, sigs, pairs),
        lsh.n_bands > 0,
        0 <= i < j < commits.len(),
        commits[i].diff.diff_text@ == commits[j].diff.diff_text@,
    ensures
        pairs.contains(IdPair(i as usize, j as usize)),
{
    let shingles = commits_char_shingles(commits, lsh.arity as nat);
    assert(shingles[i] == shingles[j]);
    assert(sigs[i]@ == sigs[j]@);
    let sv = sigs_view(sigs);
    assert(sv[i] == sigs[i]@ && sv[j] == sigs[j]@);
    assert(band(sv[i], lsh.n_bands as nat, 0) == band(sv[j], lsh.n_bands as nat, 0));
    assert(share_band(sv, lsh.n_bands as nat, i, j));
}

} // verus!
