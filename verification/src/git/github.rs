//! Fork networks on GitHub: a source repository and the forks of forks that grew from it.
use vstd::prelude::*;
use std::collections::HashMap;

use vstd::std_specs::iter::IteratorSpec;

use super::RepoLocation;
use crate::search::methods::similar_diff::compare::{append_decimal, decimal};
use crate::text::append_str;

pub mod forks;

verus! {

broadcast use vstd::std_specs::hash::group_hash_axioms;

/// A repository: its GitHub id, its name, where it can be cloned from and, where known, the
/// login of its owner.
#[derive(Debug, Clone)]
pub struct GitRepository {
    pub id: u64,
    pub name: String,
    pub location: RepoLocation,
    pub owner: Option<String>,
}

/// Each child names a parent that lists it among its forks, each fork list names children
/// that name that parent, and no fork list has an id twice.
pub open spec fn links_agree(parents: Map<u64, u64>, forks: Map<u64, Seq<u64>>) -> bool {
    &&& forall|c: u64| #[trigger] parents.contains_key(c) ==> forks.contains_key(parents[c]) && forks[parents[c]].contains(c)
    &&& forall|p: u64, c: u64| forks.contains_key(p) && #[trigger] forks[p].contains(c) ==> parents.contains_key(c) && parents[c] == p
    &&& forall|p: u64| #[trigger] forks.contains_key(p) ==> forks[p].no_duplicates()
}

/// A ForkNetwork comprises repositories that are connected through parent-child relationships
/// depending on whether one repo has been forked from the other. Each network has a source
/// repository; each repository has at most one parent and any number of children (forks).
pub struct ForkNetwork {
    repositories: HashMap<u64, GitRepository>,
    source_id: u64,
    parents: HashMap<u64, u64>,
    forks: HashMap<u64, Vec<u64>>,
    max_forks: Option<usize>,
}

impl ForkNetwork {
    /// The repositories, by id.
    pub closed spec fn repos(&self) -> Map<u64, GitRepository> {
        self.repositories@
    }

    /// The parent of each child.
    pub closed spec fn parent_map(&self) -> Map<u64, u64> {
        self.parents@
    }

    /// The forks of each repository that has been forked.
    pub closed spec fn fork_map(&self) -> Map<u64, Seq<u64>> {
        self.forks@.map_values(|v: Vec<u64>| v@)
    }

    pub closed spec fn spec_source_id(&self) -> u64 {
        self.source_id
    }

    pub closed spec fn spec_max_forks(&self) -> Option<usize> {
        self.max_forks
    }

    /// The source is among the repositories, each repository is kept under its id, and the
    /// parent and fork links agree.
    pub open spec fn wf(&self) -> bool {
        &&& self.repos().contains_key(self.spec_source_id())
        &&& forall|k: u64| #[trigger] self.repos().contains_key(k) ==> self.repos()[k].id == k
        &&& links_agree(self.parent_map(), self.fork_map())
    }

    /// A network that only contains the given repository.
    pub fn single(repo: GitRepository) -> (n: Self)
        ensures
            n.wf(),
            n.repos() == Map::<u64, GitRepository>::empty().insert(repo.id, repo),
            n.spec_source_id() == repo.id,
            n.parent_map() == Map::<u64, u64>::empty(),
            n.fork_map() == Map::<u64, Seq<u64>>::empty(),
            n.spec_max_forks() == Some(1usize),
    {
        let source_id = repo.id;
        let mut repositories: HashMap<u64, GitRepository> = HashMap::new();
        repositories.insert(source_id, repo);
        let n = ForkNetwork {
            repositories,
            source_id,
            parents: HashMap::new(),
            forks: HashMap::new(),
            max_forks: Some(1),
        };
        assert(n.fork_map() =~= Map::<u64, Seq<u64>>::empty());
        n
    }

    /// The ids of all repositories in the network, in arbitrary order.
    pub fn repository_ids(&self) -> (ids: Vec<u64>)
        ensures
            ids@.to_set() == self.repos().dom(),
            ids@.no_duplicates(),
    {
        let ghost keys = vstd::std_specs::hash::spec_keys_iter(&self.repositories).remaining();
        assert(keys.unref().to_set() == self.repos().dom());
        let mut ids: Vec<u64> = Vec::new();
        for id in it: self.repositories.keys()
            invariant
                it.seq() == keys,
                ids@ == keys.unref().take(it.index() as int),
        {
            ids.push(*id);
            assert(ids@ =~= keys.unref().take(it.index() + 1));
        }
        assert(keys.unref().take(keys.len() as int) == keys.unref());
        assert(keys.unref().no_duplicates()) by {
            assert forall|a: int, b: int| 0 <= a < b < keys.len() implies keys.unref()[a] != keys.unref()[b] by {
                assert(keys[a] != keys[b]);
            }
        }
        ids
    }

    /// The number of repositories in the network.
    pub fn len(&self) -> (n: usize)
        ensures
            n == self.repos().len(),
    {
        self.repositories.len()
    }

    pub fn is_empty(&self) -> (b: bool)
        ensures
            b == (self.repos().len() == 0),
    {
        self.len() == 0
    }

    /// The source repository.
    pub fn source(&self) -> (r: &GitRepository)
        requires
            self.wf(),
        ensures
            *r == self.repos()[self.spec_source_id()],
    {
        match self.repositories.get(&self.source_id) {
            Some(r) => r,
            None => vstd::pervasive::unreached(),
        }
    }

    /// The forks of the given repository, where it has been forked and all its forks are in
    /// the network.
    pub fn forks(&self, repo: &GitRepository) -> (r: Option<Vec<&GitRepository>>)
        ensures
            match r {
                Some(fs) => self.fork_map().contains_key(repo.id)
                    && fs@.len() == self.fork_map()[repo.id].len()
                    && forall|i: int| 0 <= i < fs@.len() ==> self.repos().contains_key(self.fork_map()[repo.id][i])
                        && *fs@[i] == self.repos()[self.fork_map()[repo.id][i]],
                None => !self.fork_map().contains_key(repo.id)
                    || exists|i: int| 0 <= i < self.fork_map()[repo.id].len()
                        && !self.repos().contains_key(#[trigger] self.fork_map()[repo.id][i]),
            },
    {
        match self.forks.get(&repo.id) {
            None => None,
            Some(fork_ids) => {
                let ghost ids = fork_ids@;
                assert(self.fork_map().contains_key(repo.id));
                assert(self.fork_map()[repo.id] == ids);
                let mut result: Vec<&GitRepository> = Vec::new();
                let mut i: usize = 0;
                while i < fork_ids.len()
                    invariant
                        i <= fork_ids.len(),
                        ids == fork_ids@,
                        self.fork_map()[repo.id] == ids,
                        self.fork_map().contains_key(repo.id),
                        result@.len() == i,
                        forall|k: int| 0 <= k < i ==> self.repositories@.contains_key(#[trigger] ids[k]),
                        forall|k: int| 0 <= k < i ==> #[trigger] result@[k] == self.repositories@[ids[k]],
                    decreases fork_ids.len() - i,
                {
                    let ghost r0 = result@;
                    let key: u64 = fork_ids[i];
                    match self.repositories.get(&key) {
                        Some(fork) => {
                            assert(self.repositories@.contains_key(key));
                            assert(*fork == self.repositories@[key]);
                            assert(key == ids[i as int]);
                            result.push(fork);
                            assert(result@[i as int] == fork);
                            assert(result@[i as int] == self.repositories@[ids[i as int]]);
                            assert forall|k: int| 0 <= k < i + 1 implies #[trigger] result@[k] == self.repositories@[ids[k]] by {
                                if k < i {
                                    assert(result@[k] == r0[k]);
                                }
                            }
                        },
                        None => {
                            assert(!self.repos().contains_key(self.fork_map()[repo.id][i as int]));
                            return None;
                        },
                    }
                    i = i + 1;
                }
                Some(result)
            },
        }
    }
}


impl ForkNetwork {
    /// All repositories in the network, in arbitrary order.
    pub fn repositories(&self) -> (rs: Vec<&GitRepository>)
        ensures
            rs@.unref().to_set() == self.repos().values(),
            rs@.len() == self.repos().len(),
    {
        let ghost values = vstd::std_specs::hash::spec_values_iter(&self.repositories).remaining();
        assert(values.unref().to_set() == self.repos().values());
        let mut rs: Vec<&GitRepository> = Vec::new();
        for r in it: self.repositories.values()
            invariant
                it.seq() == values,
                rs@ == values.take(it.index() as int),
        {
            rs.push(r);
            assert(rs@ =~= values.take(it.index() + 1));
        }
        assert(values.take(values.len() as int) == values);
        rs
    }
}

/// Every repository of the network names its owner.
pub open spec fn owners_known(n: ForkNetwork) -> bool {
    forall|k: u64| #[trigger] n.repos().contains_key(k) ==> n.repos()[k].owner is Some
}

/// The repository has been forked, and all its forks are in the network.
pub open spec fn forks_present(n: ForkNetwork, id: u64) -> bool {
    &&& n.fork_map().contains_key(id)
    &&& forall|i: int| 0 <= i < n.fork_map()[id].len() ==> n.repos().contains_key(#[trigger] n.fork_map()[id][i])
}

/// The line of a repository in the tree of a network: the indent, its id, the login of its
/// owner and its name.
pub open spec fn repo_line(indent: Seq<char>, r: GitRepository) -> Seq<char> {
    indent + "- "@ + decimal(r.id as nat) + ": "@ + r.owner->Some_0@ + "/"@ + r.name@ + "\n"@
}

/// The tree of the network below the repository `id`: its line, then the trees of its forks,
/// indented further, where all of them are in the network; at most `depth` levels deep.
pub open spec fn tree_text(n: ForkNetwork, id: u64, indent: Seq<char>, depth: nat) -> Seq<char>
    decreases depth, 0nat,
{
    if depth == 0 {
        Seq::empty()
    } else {
        repo_line(indent, n.repos()[id]) + if forks_present(n, id) {
            forks_text(n, n.fork_map()[id], "  "@ + indent, (depth - 1) as nat)
        } else {
            Seq::empty()
        }
    }
}

/// The trees below the given forks, one after the other.
pub open spec fn forks_text(n: ForkNetwork, ids: Seq<u64>, indent: Seq<char>, depth: nat) -> Seq<char>
    decreases depth, ids.len(),
{
    if ids.len() == 0 {
        Seq::empty()
    } else {
        forks_text(n, ids.drop_last(), indent, depth) + tree_text(n, ids.last(), indent, depth)
    }
}

impl ForkNetwork {
    /// The network as a tree: the source first, below each repository its forks, indented by
    /// two spaces per level. A network without cycles is shown whole, as it has at most as many
    /// levels as repositories.
    pub fn to_text(&self) -> (t: String)
        requires
            self.wf(),
            owners_known(*self),
        ensures
            t@ == tree_text(*self, self.spec_source_id(), Seq::empty(), self.repos().len()),
    {
        let mut out = String::new();
        let indent = String::new();
        proof {
            assert(""@ =~= Seq::<char>::empty()) by {
                reveal_strlit("");
            }
        }
        self.write_tree(self.source_id, &indent, self.len(), &mut out);
        out
    }

    fn write_tree(&self, id: u64, indent: &String, depth: usize, out: &mut String)
        requires
            self.wf(),
            owners_known(*self),
            self.repos().contains_key(id),
        ensures
            final(out)@ == old(out)@ + tree_text(*self, id, indent@, depth as nat),
        decreases depth,
    {
        if depth == 0 {
            assert(old(out)@ + Seq::<char>::empty() =~= old(out)@);
            return;
        }
        let repo = match self.repositories.get(&id) {
            Some(r) => r,
            None => vstd::pervasive::unreached(),
        };
        proof {
            reveal_strlit("- ");
            reveal_strlit(": ");
            reveal_strlit("/");
            reveal_strlit("\n");
            reveal_strlit("  ");
        }
        append_str(out, indent.as_str());
        append_str(out, "- ");
        append_decimal(out, repo.id);
        append_str(out, ": ");
        match &repo.owner {
            Some(owner) => append_str(out, owner.as_str()),
            None => {
                assert(false);
            },
        }
        append_str(out, "/");
        append_str(out, repo.name.as_str());
        append_str(out, "\n");
        let ghost line_end = out@;
        assert(line_end == old(out)@ + repo_line(indent@, self.repos()[id]));
        let mut child_indent = String::new();
        append_str(&mut child_indent, "  ");
        append_str(&mut child_indent, indent.as_str());
        assert(repo.id == id);
        match self.forks(repo) {
            Some(children) => {
                let ghost ids = self.fork_map()[id];
                assert forall|i: int| 0 <= i < ids.len() implies self.repos().contains_key(#[trigger] ids[i])
                    && children@[i].id == ids[i] by {
                    assert(*children@[i] == self.repos()[self.fork_map()[repo.id][i]]);
                    assert(self.repos().contains_key(self.fork_map()[repo.id][i]));
                }
                let mut k: usize = 0;
                while k < children.len()
                    invariant
                        k <= children.len(),
                        self.wf(),
                        owners_known(*self),
                        0 < depth,
                        self.fork_map().contains_key(id),
                        ids == self.fork_map()[id],
                        children@.len() == ids.len(),
                        forall|i: int| 0 <= i < ids.len() ==> self.repos().contains_key(#[trigger] ids[i]),
                        forall|i: int| 0 <= i < ids.len() ==> (#[trigger] children@[i]).id == ids[i],
                        out@ == line_end + forks_text(*self, ids.take(k as int), child_indent@, (depth - 1) as nat),
                    decreases children.len() - k,
                {
                    let child = children[k];
                    assert(child.id == ids[k as int]);
                    assert(self.repos().contains_key(ids[k as int]));
                    assert(ids.take(k + 1).drop_last() =~= ids.take(k as int));
                    let ghost before = out@;
                    self.write_tree(child.id, &child_indent, depth - 1, out);
                    assert(out@ =~= line_end + forks_text(*self, ids.take(k + 1), child_indent@, (depth - 1) as nat));
                    k = k + 1;
                }
                proof {
                    assert(ids.take(ids.len() as int) =~= ids);
                    assert(forks_present(*self, id));
                }
            },
            None => {
                assert(!forks_present(*self, id));
                assert(out@ =~= line_end + Seq::<char>::empty());
            },
        }
    }
}

/// How many repositories of a page are taken where `collected` were taken from the pages
/// before and at most `max_repos` are wanted, and whether the collection is complete: a page
/// with more repositories than are still wanted completes it, and no further page is asked
/// for; otherwise all of the page is taken.
pub fn page_share(collected: usize, available: usize, max_repos: Option<usize>) -> (r: (usize, bool))
    requires
        max_repos matches Some(m) ==> collected <= m,
    ensures
        match max_repos {
            None => r == (available, false),
            Some(m) => if available > m - collected { r == ((m - collected) as usize, true) } else { r == (available, false) },
        },
{
    match max_repos {
        None => (available, false),
        Some(m) => {
            let wanted = m - collected;
            if available > wanted {
                (wanted, true)
            } else {
                (available, false)
            }
        },
    }
}

/// What a fork network under construction asks for next: the forks of a repository, at most
/// as many as the budget allows, or nothing more.
#[derive(Debug, Clone, Copy, PartialEq, Eq)]
pub enum ForkRequest {
    Forks { id: u64, max_forks: Option<usize> },
    Done,
}

/// What remains of the budget of forks after `retrieved` forks.
pub open spec fn remaining_budget(max_forks: Option<usize>, retrieved: nat) -> Option<usize> {
    match max_forks {
        Some(m) => Some((m - retrieved) as usize),
        None => None,
    }
}

/// The budget is spent: never where no budget is given, as then every fork is retrieved.
pub open spec fn budget_spent(max_forks: Option<usize>, retrieved: nat) -> bool {
    match max_forks {
        Some(m) => retrieved >= m,
        None => false,
    }
}

/// A fork network under construction. The forks of the source are asked for first; then the
/// forks of each fork of the current level, one fork after the other and one level after the
/// other, until a level has no forks or the budget is spent.
pub struct ForkNetworkBuilder {
    pub network: ForkNetwork,
    pub forks_retrieved: usize,
    /// The forks of the current level whose forks are still to be asked for.
    pub level: Vec<GitRepository>,
    /// The forks of the forks of the current level, found so far: the next level.
    pub children: Vec<GitRepository>,
    pub started: bool,
}

pub open spec fn repo_ids(rs: Seq<GitRepository>) -> Seq<u64> {
    rs.map_values(|r: GitRepository| r.id)
}

/// Forks that may be recorded as the children of `parent`: the parent has no forks recorded,
/// no fork is recorded as a child already, and no fork comes twice.
pub open spec fn new_children(n: ForkNetwork, parent: u64, forks: Seq<GitRepository>) -> bool {
    &&& !n.fork_map().contains_key(parent)
    &&& forall|i: int| 0 <= i < forks.len() ==> !n.parent_map().contains_key(#[trigger] forks[i].id)
    &&& repo_ids(forks).no_duplicates()
}

impl ForkNetworkBuilder {
    /// The links agree, every recorded child counts against the budget, and the budget holds.
    pub open spec fn wf(&self) -> bool {
        &&& self.network.wf()
        &&& self.forks_retrieved == self.network.parent_map().len()
        &&& self.network.parent_map().dom().finite()
        &&& (self.network.spec_max_forks() matches Some(m) ==> self.forks_retrieved <= m)
    }

    /// A network of the source alone, whose forks are to be asked for first.
    pub fn new(source: GitRepository, max_forks: Option<usize>) -> (b: Self)
        ensures
            b.wf(),
            !b.started,
            b.network.repos() == Map::<u64, GitRepository>::empty().insert(source.id, source),
            b.network.spec_source_id() == source.id,
            b.network.spec_max_forks() == max_forks,
            b.network.parent_map() == Map::<u64, u64>::empty(),
            b.network.fork_map() == Map::<u64, Seq<u64>>::empty(),
            b.forks_retrieved == 0,
    {
        let source_id = source.id;
        let mut repositories: HashMap<u64, GitRepository> = HashMap::new();
        repositories.insert(source_id, source);
        let network = ForkNetwork { repositories, source_id, parents: HashMap::new(), forks: HashMap::new(), max_forks };
        assert(network.fork_map() =~= Map::<u64, Seq<u64>>::empty());
        assert(network.parent_map() =~= Map::<u64, u64>::empty());
        ForkNetworkBuilder { network, forks_retrieved: 0, level: Vec::new(), children: Vec::new(), started: false }
    }

    /// What to ask for next: the forks of the source first, then the forks of the next fork of
    /// the current level with what remains of the budget.
    pub fn next_request(&self) -> (r: ForkRequest)
        requires
            self.wf(),
        ensures
            !self.started ==> r == (ForkRequest::Forks { id: self.network.spec_source_id(), max_forks: self.network.spec_max_forks() }),
            self.started && self.level.len() > 0 ==> r == (ForkRequest::Forks {
                id: self.level@[0].id,
                max_forks: remaining_budget(self.network.spec_max_forks(), self.forks_retrieved as nat),
            }),
            self.started && self.level.len() == 0 ==> r == ForkRequest::Done,
    {
        if !self.started {
            ForkRequest::Forks { id: self.network.source_id, max_forks: self.network.max_forks }
        } else if self.level.len() > 0 {
            let budget = match self.network.max_forks {
                Some(m) => Some(m - self.forks_retrieved),
                None => None,
            };
            ForkRequest::Forks { id: self.level[0].id, max_forks: budget }
        } else {
            ForkRequest::Done
        }
    }
}


impl ForkNetwork {
    /// Records the forks as the children of `parent`.
    fn record_children(&mut self, parent: u64, forks: &Vec<GitRepository>)
        requires
            links_agree(old(self).parent_map(), old(self).fork_map()),
            old(self).parent_map().dom().finite(),
            new_children(*old(self), parent, forks@),
        ensures
            links_agree(final(self).parent_map(), final(self).fork_map()),
            final(self).parent_map().dom().finite(),
            final(self).parent_map().len() == old(self).parent_map().len() + forks.len(),
            final(self).fork_map() == old(self).fork_map().insert(parent, repo_ids(forks@)),
            forall|c: u64| #[trigger] final(self).parent_map().contains_key(c) <==>
                old(self).parent_map().contains_key(c) || repo_ids(forks@).contains(c),
            forall|c: u64| #[trigger] final(self).parent_map().contains_key(c) ==> final(self).parent_map()[c]
                == if repo_ids(forks@).contains(c) { parent } else { old(self).parent_map()[c] },
            final(self).repos() == old(self).repos(),
            final(self).spec_source_id() == old(self).spec_source_id(),
            final(self).spec_max_forks() == old(self).spec_max_forks(),
    {
        let ghost ids = repo_ids(forks@);
        let ghost p0 = self.parents@;
        let mut children_ids: Vec<u64> = Vec::new();
        let mut i: usize = 0;
        while i < forks.len()
            invariant
                i <= forks.len(),
                ids == repo_ids(forks@),
                ids.no_duplicates(),
                forall|k: int| 0 <= k < forks.len() ==> !p0.contains_key(#[trigger] forks@[k].id),
                children_ids@ == ids.take(i as int),
                p0.dom().finite(),
                self.parents@.dom() == p0.dom().union(ids.take(i as int).to_set()),
                forall|c: u64| #[trigger] self.parents@.contains_key(c) ==> self.parents@[c]
                    == if ids.take(i as int).contains(c) { parent } else { p0[c] },
                self.repositories@ == old(self).repositories@,
                self.forks@ == old(self).forks@,
                self.source_id == old(self).source_id,
                self.max_forks == old(self).max_forks,
            decreases forks.len() - i,
        {
            let id = forks[i].id;
            let ghost t0 = ids.take(i as int);
            assert(ids.take(i + 1) == t0.push(id));
            proof {
                t0.lemma_push_to_set_commute(id);
            }
            self.parents.insert(id, parent);
            children_ids.push(id);
            proof {
                assert forall|c: u64| ids.take(i + 1).contains(c) <==> t0.contains(c) || c == id by {
                    assert(ids.take(i + 1).to_set().contains(c) == ids.take(i + 1).contains(c));
                    assert(t0.to_set().contains(c) == t0.contains(c));
                }
                assert(self.parents@.dom() =~= p0.dom().union(ids.take(i + 1).to_set()));
            }
            i = i + 1;
        }
        assert(ids.take(forks.len() as int) == ids);
        self.forks.insert(parent, children_ids);
        proof {
            let pm = self.parents@;
            let fm = self.fork_map();
            let fm0 = old(self).fork_map();
            assert(fm =~= fm0.insert(parent, ids));
            // the new children were no one's children, and are now the parent's
            assert forall|c: u64| #[trigger] pm.contains_key(c) implies fm.contains_key(pm[c]) && fm[pm[c]].contains(c) by {
                if ids.contains(c) {
                } else {
                    assert(p0.contains_key(c));
                    assert(fm0.contains_key(p0[c]) && fm0[p0[c]].contains(c));
                    if p0[c] == parent {
                        assert(fm0.contains_key(parent));
                    }
                }
            }
            assert forall|q: u64, c: u64| fm.contains_key(q) && #[trigger] fm[q].contains(c) implies pm.contains_key(c) && pm[c] == q by {
                if q == parent {
                } else {
                    assert(fm0[q].contains(c));
                    assert(p0.contains_key(c) && p0[c] == q);
                    if ids.contains(c) {
                        let k = choose|k: int| 0 <= k < ids.len() && ids[k] == c;
                        assert(forks@[k].id == c);
                    }
                }
            }
            assert forall|q: u64| #[trigger] fm.contains_key(q) implies fm[q].no_duplicates() by {
                if q != parent {
                    assert(fm0.contains_key(q));
                }
            }
            let s = ids.to_set();
            ids.unique_seq_to_set();
            assert(p0.dom().disjoint(s)) by {
                assert forall|c: u64| s.contains(c) implies !p0.dom().contains(c) by {
                    let k = choose|k: int| 0 <= k < ids.len() && ids[k] == c;
                    assert(forks@[k].id == c);
                }
            }
            vstd::set_lib::lemma_set_disjoint_lens(p0.dom(), s);
            assert(pm.dom() =~= p0.dom() + s);
        }
    }
}

impl ForkNetworkBuilder {
    /// The repository whose forks are asked for.
    pub open spec fn current_parent(&self) -> u64 {
        if !self.started { self.network.spec_source_id() } else { self.level@[0].id }
    }

    /// Takes in the forks that were retrieved for the current repository (`None` where it has
    /// none): they become its children, and a fork of the current level moves into the
    /// network. Once a level is done, its forks' forks make the next level, unless there are
    /// none or the budget is spent.
    pub fn receive(&mut self, forks: Option<Vec<GitRepository>>)
        requires
            old(self).wf(),
            old(self).started ==> old(self).level.len() > 0,
            forks matches Some(fs) ==> new_children(old(self).network, old(self).current_parent(), fs@)
                && (old(self).network.spec_max_forks() matches Some(m) ==> old(self).forks_retrieved + fs.len() <= m)
                && old(self).forks_retrieved + fs.len() <= usize::MAX,
        ensures
            final(self).wf(),
            final(self).started,
            final(self).network.spec_source_id() == old(self).network.spec_source_id(),
            final(self).network.spec_max_forks() == old(self).network.spec_max_forks(),
            match forks {
                Some(fs) => {
                    &&& final(self).network.fork_map() == old(self).network.fork_map().insert(old(self).current_parent(), repo_ids(fs@))
                    &&& final(self).forks_retrieved == old(self).forks_retrieved + fs.len()
                    &&& forall|c: u64| #[trigger] final(self).network.parent_map().contains_key(c) <==>
                        old(self).network.parent_map().contains_key(c) || repo_ids(fs@).contains(c)
                    &&& forall|c: u64| #[trigger] final(self).network.parent_map().contains_key(c) ==> final(self).network.parent_map()[c]
                        == if repo_ids(fs@).contains(c) { old(self).current_parent() } else { old(self).network.parent_map()[c] }
                },
                None => {
                    &&& final(self).network.fork_map() == old(self).network.fork_map()
                    &&& final(self).network.parent_map() == old(self).network.parent_map()
                    &&& final(self).forks_retrieved == old(self).forks_retrieved
                },
            },
            !old(self).started ==> {
                &&& final(self).network.repos() == old(self).network.repos()
                &&& final(self).level@ == (match forks { Some(fs) => fs@, None => Seq::empty() })
                &&& final(self).children@ == Seq::<GitRepository>::empty()
            },
            old(self).started ==> {
                let children = old(self).children@ + (match forks { Some(fs) => fs@, None => Seq::empty() });
                let fork = old(self).level@[0];
                &&& final(self).network.repos() == old(self).network.repos().insert(fork.id, fork)
                &&& if old(self).level.len() > 1 {
                        &&& final(self).level@ == old(self).level@.drop_first()
                        &&& final(self).children@ == children
                    } else if children.len() == 0 || budget_spent(old(self).network.spec_max_forks(), final(self).forks_retrieved as nat) {
                        &&& final(self).level@ == Seq::<GitRepository>::empty()
                        &&& final(self).children@ == Seq::<GitRepository>::empty()
                    } else {
                        &&& final(self).level@ == children
                        &&& final(self).children@ == Seq::<GitRepository>::empty()
                    }
            },
    {
        let parent = if !self.started { self.network.source_id } else { self.level[0].id };
        let got = match forks {
            Some(fs) => {
                self.network.record_children(parent, &fs);
                self.forks_retrieved = self.forks_retrieved + fs.len();
                Some(fs)
            },
            None => None,
        };
        if !self.started {
            self.started = true;
            self.level = match got {
                Some(fs) => fs,
                None => Vec::new(),
            };
            self.children = Vec::new();
        } else {
            let fork = self.level.remove(0);
            self.network.repositories.insert(fork.id, fork);
            match got {
                Some(mut fs) => {
                    self.children.append(&mut fs);
                },
                None => {},
            }
            if self.level.len() == 0 {
                if self.children.len() > 0 {
                    let spent = match self.network.max_forks {
                        Some(m) => self.forks_retrieved >= m,
                        None => false,
                    };
                    if spent {
                        self.children = Vec::new();
                    } else {
                        std::mem::swap(&mut self.level, &mut self.children);
                    }
                }
            }
        }
    }

    /// The network, once nothing more is to be asked for.
    pub fn finish(self) -> (n: ForkNetwork)
        requires
            self.wf(),
        ensures
            n == self.network,
            n.wf(),
    {
        self.network
    }
}

} // verus!
