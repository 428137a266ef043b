//! Results of the search for cherry-picks: which commit was picked (the cherry) and which
//! commit applies it again (the target), and the search method that found them.
use vstd::prelude::*;

use crate::git::{time_before, Commit};

pub mod ann;
pub mod methods;
pub mod util;

verus! {

/// The metadata of a commit that a search result carries.
#[derive(Debug, Hash)]
pub struct CommitMetadata {
    pub id: String,
    pub parent_ids: Vec<String>,
    pub message: String,
    pub author: String,
    pub committer: String,
    pub time: String,
}

/// A commit's metadata as a value.
pub type MetadataModel = (Seq<char>, Seq<Seq<char>>, Seq<char>, Seq<char>, Seq<char>, Seq<char>);

pub open spec fn strings_view(v: Seq<String>) -> Seq<Seq<char>> {
    v.map_values(|s: String| s@)
}

pub open spec fn metadata_model(m: CommitMetadata) -> MetadataModel {
    (m.id@, strings_view(m.parent_ids@), m.message@, m.author@, m.committer@, m.time@)
}

/// The metadata of a commit: its id, parents, message, author, committer and displayed time.
pub open spec fn commit_metadata_model(c: Commit) -> MetadataModel {
    (c.id@, strings_view(c.parent_ids@), c.message@, c.author@, c.committer@, c.time.debug_text@)
}

/// Copies a vector of strings.
pub fn clone_strings(v: &Vec<String>) -> (r: Vec<String>)
    ensures
        r@ == v@,
{
    let mut r: Vec<String> = Vec::new();
    let mut i: usize = 0;
    while i < v.len()
        invariant
            i <= v.len(),
            r@ == v@.take(i as int),
        decreases v.len() - i,
    {
        r.push(v[i].clone());
        i = i + 1;
        assert(r@ == v@.take(i as int));
    }
    assert(v@.take(v.len() as int) == v@);
    r
}

pub(crate) fn same_strings(a: &Vec<String>, b: &Vec<String>) -> (r: bool)
    ensures
        r == (strings_view(a@) == strings_view(b@)),
{
    if a.len() != b.len() {
        assert(strings_view(a@).len() != strings_view(b@).len());
        return false;
    }
    let mut i: usize = 0;
    while i < a.len()
        invariant
            i <= a.len(),
            a.len() == b.len(),
            forall|j: int| 0 <= j < i ==> a@[j]@ == b@[j]@,
        decreases a.len() - i,
    {
        if a[i] != b[i] {
            assert(strings_view(a@)[i as int] != strings_view(b@)[i as int]);
            return false;
        }
        i = i + 1;
    }
    assert(strings_view(a@) =~= strings_view(b@));
    true
}

impl CommitMetadata {
    pub fn id(&self) -> (s: &str)
        ensures
            s@ == self.id@,
    {
        self.id.as_str()
    }

    pub fn message(&self) -> (s: &str)
        ensures
            s@ == self.message@,
    {
        self.message.as_str()
    }

    pub fn author(&self) -> (s: &str)
        ensures
            s@ == self.author@,
    {
        self.author.as_str()
    }

    pub fn committer(&self) -> (s: &str)
        ensures
            s@ == self.committer@,
    {
        self.committer.as_str()
    }

    pub fn time(&self) -> (s: &str)
        ensures
            s@ == self.time@,
    {
        self.time.as_str()
    }

    pub fn parent_ids(&self) -> (p: &[String])
        ensures
            p@ == self.parent_ids@,
    {
        self.parent_ids.as_slice()
    }

    /// The metadata of a commit.
    pub fn from_commit(commit: &Commit) -> (m: Self)
        ensures
            metadata_model(m) == commit_metadata_model(*commit),
    {
        CommitMetadata {
            id: commit.id.clone(),
            parent_ids: clone_strings(&commit.parent_ids),
            message: commit.message.clone(),
            author: commit.author.clone(),
            committer: commit.committer.clone(),
            time: commit.time.debug_text.clone(),
        }
    }
}

impl PartialEq for CommitMetadata {
    fn eq(&self, other: &Self) -> (r: bool) {
        self.id == other.id && same_strings(&self.parent_ids, &other.parent_ids)
            && self.message == other.message && self.author == other.author
            && self.committer == other.committer && self.time == other.time
    }
}

impl vstd::std_specs::cmp::PartialEqSpecImpl for CommitMetadata {
    open spec fn obeys_eq_spec() -> bool {
        true
    }

    open spec fn eq_spec(&self, other: &CommitMetadata) -> bool {
        metadata_model(*self) == metadata_model(*other)
    }
}

impl Eq for CommitMetadata {}

/// A pair of commits in which the target applies again what the cherry changed.
#[derive(Debug, Hash)]
pub struct CherryAndTarget {
    pub cherry: CommitMetadata,
    pub target: CommitMetadata,
}

pub open spec fn pair_model(p: CherryAndTarget) -> (MetadataModel, MetadataModel) {
    (metadata_model(p.cherry), metadata_model(p.target))
}

/// The pair for two commits whose order is decided by their times: the older one is the
/// cherry; where neither is older, the second one is.
pub open spec fn constructed_pair(a: Commit, b: Commit) -> (MetadataModel, MetadataModel) {
    if time_before(a.time, b.time) {
        (commit_metadata_model(a), commit_metadata_model(b))
    } else {
        (commit_metadata_model(b), commit_metadata_model(a))
    }
}

impl CherryAndTarget {
    /// Construct a new CherryPick for two commits. Cherry and target are determined based on the commit time
    pub fn construct(commit_a: &Commit, commit_b: &Commit) -> (p: Self)
        ensures
            pair_model(p) == constructed_pair(*commit_a, *commit_b),
    {
        if commit_a.time.is_before(&commit_b.time) {
            Self::new(commit_a, commit_b)
        } else {
            Self::new(commit_b, commit_a)
        }
    }

    /// Create a new CherryPick with the ids of two commits for which the cherry and target relationship is known
    pub fn new(cherry: &Commit, target: &Commit) -> (p: Self)
        ensures
            pair_model(p) == (commit_metadata_model(*cherry), commit_metadata_model(*target)),
    {
        Self { cherry: CommitMetadata::from_commit(cherry), target: CommitMetadata::from_commit(target) }
    }

    pub fn as_vec(&self) -> (v: Vec<&CommitMetadata>)
        ensures
            v@ == seq![&self.cherry, &self.target],
    {
        let mut v: Vec<&CommitMetadata> = Vec::new();
        v.push(&self.cherry);
        v.push(&self.target);
        v
    }

    pub fn into_vec(self) -> (v: Vec<CommitMetadata>)
        ensures
            v@ == seq![self.cherry, self.target],
    {
        let mut v: Vec<CommitMetadata> = Vec::new();
        v.push(self.cherry);
        v.push(self.target);
        v
    }

    pub fn cherry(&self) -> (c: &CommitMetadata)
        ensures
            *c == self.cherry,
    {
        &self.cherry
    }

    pub fn target(&self) -> (t: &CommitMetadata)
        ensures
            *t == self.target,
    {
        &self.target
    }
}

impl PartialEq for CherryAndTarget {
    fn eq(&self, other: &Self) -> (r: bool) {
        self.cherry == other.cherry && self.target == other.target
    }
}

impl vstd::std_specs::cmp::PartialEqSpecImpl for CherryAndTarget {
    open spec fn obeys_eq_spec() -> bool {
        true
    }

    open spec fn eq_spec(&self, other: &CherryAndTarget) -> bool {
        pair_model(*self) == pair_model(*other)
    }
}

impl Eq for CherryAndTarget {}

/// A cherry-pick that a search method found.
#[derive(Debug, Hash)]
pub struct SearchResult {
    pub search_method: String,
    pub cherry_and_target: CherryAndTarget,
}

pub open spec fn result_model(r: SearchResult) -> (Seq<char>, (MetadataModel, MetadataModel)) {
    (r.search_method@, pair_model(r.cherry_and_target))
}

impl SearchResult {
    pub fn new(search_method: String, cherry_ids: CherryAndTarget) -> (r: Self)
        ensures
            r.search_method == search_method,
            r.cherry_and_target == cherry_ids,
    {
        Self { search_method, cherry_and_target: cherry_ids }
    }

    /// The SearchMethod type that was used to find this result
    pub fn search_method(&self) -> (s: &str)
        ensures
            s@ == self.search_method@,
    {
        self.search_method.as_str()
    }

    /// The commit pair of this cherry pick. Commits are identified by their id.
    pub fn commit_pair(&self) -> (p: &CherryAndTarget)
        ensures
            *p == self.cherry_and_target,
    {
        &self.cherry_and_target
    }
}

impl PartialEq for SearchResult {
    fn eq(&self, other: &Self) -> (r: bool) {
        self.search_method == other.search_method && self.cherry_and_target == other.cherry_and_target
    }
}

impl vstd::std_specs::cmp::PartialEqSpecImpl for SearchResult {
    open spec fn obeys_eq_spec() -> bool {
        true
    }

    open spec fn eq_spec(&self, other: &SearchResult) -> bool {
        result_model(*self) == result_model(*other)
    }
}

impl Eq for SearchResult {}


/// The values of the results.
pub open spec fn result_models(rs: Seq<SearchResult>) -> Seq<(Seq<char>, (MetadataModel, MetadataModel))> {
    rs.map_values(|r: SearchResult| result_model(r))
}

/// Adds a result unless an equal one is there already, so that the results form a set.
pub fn insert_result(results: &mut Vec<SearchResult>, r: SearchResult)
    ensures
        result_models(final(results)@) == if result_models(old(results)@).contains(result_model(r)) {
            result_models(old(results)@)
        } else {
            result_models(old(results)@).push(result_model(r))
        },
{
    let ghost old_models = result_models(results@);
    let mut k: usize = 0;
    while k < results.len()
        invariant
            k <= results.len(),
            old_models == result_models(results@),
            forall|j: int| 0 <= j < k ==> result_model(#[trigger] results@[j]) != result_model(r),
        decreases results.len() - k,
    {
        if results[k] == r {
            assert(old_models[k as int] == result_model(r));
            return;
        }
        k = k + 1;
    }
    proof {
        if old_models.contains(result_model(r)) {
            let j = choose|j: int| 0 <= j < old_models.len() && old_models[j] == result_model(r);
            assert(result_model(results@[j]) != result_model(r));
        }
    }
    results.push(r);
    assert(result_models(results@) =~= old_models.push(result_model(r)));
}

/// The order in which two commits are given does not matter where one of them is older: the
/// older one is the cherry either way.
pub proof fn lemma_construct_symmetric(a: Commit, b: Commit)
    requires
        time_before(a.time, b.time) || time_before(b.time, a.time),
    ensures
        constructed_pair(a, b) == constructed_pair(b, a),
{
}

} // verus!
