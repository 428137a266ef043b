//! The most popular repositories (by stars) of programming languages.
use vstd::prelude::*;
use std::collections::HashSet;

verus! {

broadcast use vstd::std_specs::hash::group_hash_axioms;

/// The name of a programming language. Values should match the names of languages on GitHub.
#[derive(Debug, Clone, PartialEq, Eq)]
pub struct ProgrammingLanguage(pub String);

impl ProgrammingLanguage {
    pub fn new(language: String) -> (l: ProgrammingLanguage)
        ensures
            l.0 == language,
    {
        ProgrammingLanguage(language)
    }
}

/// What a sampling round asks for next.
#[derive(Debug, Clone, Copy, PartialEq, Eq)]
pub enum SampleQuery {
    /// A fresh search for the most starred repositories.
    Fresh,
    /// The next page of the last search.
    NextPage,
    /// Nothing more: the round ends with what it has.
    Finish,
}

/// A round of sampling for one language: the ids sampled so far, the share of new repositories
/// on the last page (as `new` of `total`) and whether the last search has a next page.
pub struct SampleRound {
    pub sample: Vec<u64>,
    pub sample_size: usize,
    pub new: usize,
    pub total: usize,
    pub has_next_page: bool,
}

/// More than half of the repositories of the last page were new.
pub open spec fn mostly_new(new: nat, total: nat) -> bool {
    2 * new > total
}

/// This GitHub sampler selects the most popular repositories (indicated by stars) from the
/// given programming languages; it samples no repository twice in one call.
pub struct MostStarsSampler {
    pub languages: Vec<ProgrammingLanguage>,
    pub previously_sampled: HashSet<u64>,
}

impl MostStarsSampler {
    pub fn new(languages: Vec<ProgrammingLanguage>) -> (s: Self)
        ensures
            s.languages == languages,
            s.previously_sampled@ == Set::<u64>::empty(),
    {
        MostStarsSampler { languages, previously_sampled: HashSet::new() }
    }

    /// A new round that is to sample `sample_size` repositories.
    pub fn start_round(sample_size: usize) -> (r: SampleRound)
        ensures
            r.sample@ == Seq::<u64>::empty(),
            r.sample_size == sample_size,
            r.new == 1 && r.total == 1,
            !r.has_next_page,
    {
        SampleRound { sample: Vec::new(), sample_size, new: 1, total: 1, has_next_page: false }
    }

    /// What the round asks for next: nothing once the sample is full; a fresh search while more
    /// than half of the last page was new; else the next page, where there is one.
    pub fn next_query(round: &SampleRound) -> (q: SampleQuery)
        ensures
            round.sample.len() >= round.sample_size ==> q == SampleQuery::Finish,
            round.sample.len() < round.sample_size ==> q == if mostly_new(round.new as nat, round.total as nat) {
                SampleQuery::Fresh
            } else if round.has_next_page {
                SampleQuery::NextPage
            } else {
                SampleQuery::Finish
            },
    {
        if round.sample.len() >= round.sample_size {
            SampleQuery::Finish
        } else if mostly_new_exec(round.new, round.total) {
            SampleQuery::Fresh
        } else if round.has_next_page {
            SampleQuery::NextPage
        } else {
            SampleQuery::Finish
        }
    }

    /// Takes in the ids of the repositories of a page, in order: those not sampled before join
    /// the sample; the share of new ones among them decides the next query.
    pub fn take_page(&mut self, round: &mut SampleRound, ids: &[u64], has_next_page: bool)
        requires
            ids.len() > 0,
            old(round).sample.len() + ids.len() <= usize::MAX,
        ensures
            final(self).languages == old(self).languages,
            final(self).previously_sampled@ == old(self).previously_sampled@.union(ids@.to_set()),
            final(round).sample@ == old(round).sample@ + new_ids(old(self).previously_sampled@, ids@),
            final(round).new == new_ids(old(self).previously_sampled@, ids@).len(),
            final(round).total == ids.len(),
            final(round).sample_size == old(round).sample_size,
            final(round).has_next_page == has_next_page,
    {
        let mut new: usize = 0;
        let mut i: usize = 0;
        let ghost seen0 = self.previously_sampled@;
        let ghost sample0 = round.sample@;
        while i < ids.len()
            invariant
                i <= ids.len(),
                sample0.len() + ids.len() <= usize::MAX,
                self.previously_sampled@ == seen0.union(ids@.take(i as int).to_set()),
                round.sample@ == sample0 + new_ids(seen0, ids@.take(i as int)),
                new == new_ids(seen0, ids@.take(i as int)).len(),
                new <= i,
                self.languages == old(self).languages,
                round.sample_size == old(round).sample_size,
            decreases ids.len() - i,
        {
            let id = ids[i];
            let ghost t0 = ids@.take(i as int);
            assert(ids@.take(i + 1) == t0.push(id));
            proof {
                t0.lemma_push_to_set_commute(id);
                lemma_new_ids_push(seen0, t0, id);
            }
            if !self.previously_sampled.contains(&id) {
                new = new + 1;
                self.previously_sampled.insert(id);
                round.sample.push(id);
            }
            proof {
                assert(self.previously_sampled@ =~= seen0.union(ids@.take(i + 1).to_set()));
                assert(round.sample@ =~= sample0 + new_ids(seen0, ids@.take(i + 1)));
            }
            i = i + 1;
        }
        assert(ids@.take(ids.len() as int) == ids@);
        round.new = new;
        round.total = ids.len();
        round.has_next_page = has_next_page;
    }

    /// The sample of the round, at most `sample_size` ids.
    pub fn finish_round(round: SampleRound) -> (sample: Vec<u64>)
        ensures
            sample@ == round.sample@.take(if round.sample.len() <= round.sample_size { round.sample.len() as int } else { round.sample_size as int }),
    {
        let mut sample = round.sample;
        let n = if sample.len() <= round.sample_size { sample.len() } else { round.sample_size };
        sample.truncate(n);
        sample
    }

    /// A new call to sample starts with no repository sampled.
    pub fn clear(&mut self)
        ensures
            final(self).languages == old(self).languages,
            final(self).previously_sampled@ == Set::<u64>::empty(),
    {
        self.previously_sampled.clear();
    }
}

/// The ids that are new: neither sampled before nor earlier on the page, in order.
pub open spec fn new_ids(seen: Set<u64>, ids: Seq<u64>) -> Seq<u64>
    decreases ids.len(),
{
    if ids.len() == 0 {
        Seq::empty()
    } else {
        let rest = new_ids(seen, ids.drop_last());
        if seen.contains(ids.last()) || ids.drop_last().contains(ids.last()) { rest } else { rest.push(ids.last()) }
    }
}

proof fn lemma_new_ids_push(seen: Set<u64>, ids: Seq<u64>, id: u64)
    ensures
        new_ids(seen, ids.push(id)) == if seen.union(ids.to_set()).contains(id) {
            new_ids(seen, ids)
        } else {
            new_ids(seen, ids).push(id)
        },
        new_ids(seen, ids).len() <= ids.len(),
    decreases ids.len(),
{
    assert(ids.push(id).drop_last() == ids);
    assert(ids.to_set().contains(id) == ids.contains(id));
    if ids.len() > 0 {
        lemma_new_ids_push(seen, ids.drop_last(), ids.last());
        assert(ids.drop_last().push(ids.last()) == ids);
    }
}

/// The new ids of a page are ids of the page that were not sampled before, each once: a round
/// samples no repository twice.
pub proof fn lemma_new_ids_fresh(seen: Set<u64>, ids: Seq<u64>)
    ensures
        new_ids(seen, ids).no_duplicates(),
        forall|x: u64| #[trigger] new_ids(seen, ids).contains(x) <==> ids.contains(x) && !seen.contains(x),
    decreases ids.len(),
{
    if ids.len() > 0 {
        let rest = ids.drop_last();
        lemma_new_ids_fresh(seen, rest);
        assert(rest.push(ids.last()) == ids);
        assert forall|x: u64| #[trigger] ids.contains(x) <==> rest.contains(x) || x == ids.last() by {
            if ids.contains(x) && x != ids.last() {
                let k = choose|k: int| 0 <= k < ids.len() && ids[k] == x;
                assert(rest[k] == x);
            }
            if rest.contains(x) {
                let k = choose|k: int| 0 <= k < rest.len() && rest[k] == x;
                assert(ids[k] == x);
            }
        }
        let r = new_ids(seen, rest);
        if !(seen.contains(ids.last()) || rest.contains(ids.last())) {
            assert forall|x: u64| #[trigger] r.push(ids.last()).contains(x) <==> r.contains(x) || x == ids.last() by {
                if r.push(ids.last()).contains(x) && x != ids.last() {
                    let k = choose|k: int| 0 <= k < r.len() + 1 && r.push(ids.last())[k] == x;
                    assert(r[k] == x);
                }
                if r.contains(x) {
                    let k = choose|k: int| 0 <= k < r.len() && r[k] == x;
                    assert(r.push(ids.last())[k] == x);
                }
                assert(r.push(ids.last())[r.len() as int] == ids.last());
            }
            let r2 = r.push(ids.last());
            assert forall|a: int, b: int| 0 <= a < b < r2.len() implies r2[a] != r2[b] by {
                if b == r.len() {
                    assert(r2[a] == r[a]);
                    assert(r.contains(r2[a]));
                } else {
                    assert(r2[a] == r[a] && r2[b] == r[b]);
                }
            }
        }
    }
}

/// The number of results a fresh search asks for per page: the larger of the sample size
/// and 100, cut to the low byte, since a page size is a `u8`.
pub fn results_per_page(sample_size: usize) -> (n: u8)
    ensures
        n as int == (if sample_size < 100 { 100 } else { sample_size as int }) % 256,
{
    let m: usize = if sample_size < 100 { 100 } else { sample_size };
    assert((m as u8) as int == m % 256) by (bit_vector);
    m as u8
}

fn mostly_new_exec(new: usize, total: usize) -> (r: bool)
    ensures
        r == mostly_new(new as nat, total as nat),
{
    new > total / 2
}

} // verus!
