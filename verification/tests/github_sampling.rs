use cherry_harvest::git::github::forks::{ContentType, QueryHandler};
use cherry_harvest::git::github::{
    page_share, ForkNetwork, ForkNetworkBuilder, ForkRequest, GitRepository,
};
use cherry_harvest::sampling::fully_random::SampleAttempts;
use cherry_harvest::git::RepoLocation;
use cherry_harvest::sampling::most_stars::{
    results_per_page, MostStarsSampler, ProgrammingLanguage, SampleQuery,
};

fn repo(id: u64) -> GitRepository {
    GitRepository {
        id,
        name: format!("repo{id}"),
        location: RepoLocation::Server(format!("https://github.com/owner/repo{id}.git")),
        owner: Some("owner".to_string()),
    }
}

fn sorted_ids(n: &ForkNetwork) -> Vec<u64> {
    let mut ids = n.repository_ids();
    ids.sort();
    ids
}

fn fork_ids(n: &ForkNetwork, id: u64) -> Option<Vec<u64>> {
    n.forks(&repo(id)).map(|fs| fs.iter().map(|r| r.id).collect())
}

#[test]
fn single_network_has_only_its_source() {
    let n = ForkNetwork::single(repo(7));
    assert_eq!(n.len(), 1);
    assert!(!n.is_empty());
    assert_eq!(n.source().id, 7);
    assert_eq!(n.repository_ids(), vec![7]);
    assert_eq!(n.repositories().len(), 1);
    assert!(n.forks(&repo(7)).is_none());
}

#[test]
fn builder_asks_level_by_level_within_the_budget() {
    let mut b = ForkNetworkBuilder::new(repo(1), Some(3));
    assert_eq!(b.next_request(), ForkRequest::Forks { id: 1, max_forks: Some(3) });
    b.receive(Some(vec![repo(2), repo(3)]));
    assert_eq!(b.next_request(), ForkRequest::Forks { id: 2, max_forks: Some(1) });
    b.receive(Some(vec![repo(4)]));
    assert_eq!(b.forks_retrieved, 3);
    assert_eq!(b.next_request(), ForkRequest::Forks { id: 3, max_forks: Some(0) });
    b.receive(None);
    // the budget is spent: the forks of forks are not asked for
    assert_eq!(b.next_request(), ForkRequest::Done);
    let n = b.finish();
    assert_eq!(sorted_ids(&n), vec![1, 2, 3]);
    assert_eq!(n.source().id, 1);
    assert_eq!(fork_ids(&n, 1), Some(vec![2, 3]));
    // repository 4 is recorded as a fork of 2, but not retrieved into the network
    assert_eq!(fork_ids(&n, 2), None);
    assert_eq!(fork_ids(&n, 3), None);
}

#[test]
fn builder_goes_on_to_the_next_level() {
    let mut b = ForkNetworkBuilder::new(repo(1), Some(10));
    b.receive(Some(vec![repo(2)]));
    b.receive(Some(vec![repo(3), repo(4)]));
    assert_eq!(b.next_request(), ForkRequest::Forks { id: 3, max_forks: Some(7) });
    b.receive(None);
    assert_eq!(b.next_request(), ForkRequest::Forks { id: 4, max_forks: Some(7) });
    b.receive(None);
    assert_eq!(b.next_request(), ForkRequest::Done);
    let n = b.finish();
    assert_eq!(sorted_ids(&n), vec![1, 2, 3, 4]);
    assert_eq!(fork_ids(&n, 2), Some(vec![3, 4]));
}

#[test]
fn builder_without_budget_retrieves_every_level() {
    let mut b = ForkNetworkBuilder::new(repo(1), None);
    assert_eq!(b.next_request(), ForkRequest::Forks { id: 1, max_forks: None });
    b.receive(Some(vec![repo(2)]));
    assert_eq!(b.next_request(), ForkRequest::Forks { id: 2, max_forks: None });
    b.receive(Some(vec![repo(3)]));
    // with no limit, the forks of forks are retrieved too
    assert_eq!(b.next_request(), ForkRequest::Forks { id: 3, max_forks: None });
    b.receive(None);
    assert_eq!(b.next_request(), ForkRequest::Done);
    assert_eq!(sorted_ids(&b.finish()), vec![1, 2, 3]);
}

#[test]
fn builder_of_an_unforked_source() {
    let mut b = ForkNetworkBuilder::new(repo(5), Some(2));
    b.receive(None);
    assert_eq!(b.next_request(), ForkRequest::Done);
    let n = b.finish();
    assert_eq!(n.len(), 1);
    assert!(n.forks(&repo(5)).is_none());
}

#[test]
fn most_stars_round_takes_new_ids_and_decides_the_next_query() {
    let mut sampler = MostStarsSampler::new(vec![ProgrammingLanguage::new("Rust".to_string())]);
    let mut round = MostStarsSampler::start_round(4);
    assert_eq!(MostStarsSampler::next_query(&round), SampleQuery::Fresh);

    sampler.take_page(&mut round, &[1, 2, 2], true);
    assert_eq!(round.sample, vec![1, 2]);
    assert_eq!((round.new, round.total), (2, 3));
    // two of three were new: a fresh search again
    assert_eq!(MostStarsSampler::next_query(&round), SampleQuery::Fresh);

    sampler.take_page(&mut round, &[1, 2, 3, 4], true);
    assert_eq!(round.sample, vec![1, 2, 3, 4]);
    assert_eq!(MostStarsSampler::next_query(&round), SampleQuery::Finish);
    assert_eq!(MostStarsSampler::finish_round(round), vec![1, 2, 3, 4]);
}

#[test]
fn most_stars_round_turns_pages_when_few_are_new() {
    let mut sampler = MostStarsSampler::new(vec![]);
    let mut round = MostStarsSampler::start_round(3);
    sampler.take_page(&mut round, &[1, 2], true);
    sampler.take_page(&mut round, &[1, 2], true);
    assert_eq!((round.new, round.total), (0, 2));
    assert_eq!(MostStarsSampler::next_query(&round), SampleQuery::NextPage);
    // exactly half is not more than half
    sampler.take_page(&mut round, &[2, 5], false);
    assert_eq!(round.sample, vec![1, 2, 5]);
    assert_eq!(MostStarsSampler::next_query(&round), SampleQuery::Finish);

    let mut short = MostStarsSampler::start_round(5);
    sampler.take_page(&mut short, &[9, 1, 2, 5], false);
    assert_eq!(MostStarsSampler::next_query(&short), SampleQuery::Finish);
    assert_eq!(MostStarsSampler::finish_round(short), vec![9]);

    let mut over = MostStarsSampler::start_round(1);
    sampler.clear();
    sampler.take_page(&mut over, &[7, 8], false);
    assert_eq!(MostStarsSampler::finish_round(over), vec![7]);
}

#[test]
fn query_handler_sets_its_parameters() {
    let q = QueryHandler::new("https://api.github.com/search".to_string(), "language:rust".to_string())
        .sort(Some("stars".to_string()))
        .per_page(100)
        .page(2);
    assert_eq!(q.url, "https://api.github.com/search");
    assert_eq!(q.query, "language:rust");
    assert_eq!(q.sort.as_deref(), Some("stars"));
    assert_eq!(q.per_page, Some(100));
    assert_eq!(q.page, Some(2));
    assert_eq!(q.order, None);
    assert_eq!(q.content_type, ContentType::Default);
    assert_eq!(ContentType::default(), ContentType::Default);
}

#[test]
fn network_text_shows_the_tree_of_forks() {
    let mut b = ForkNetworkBuilder::new(repo(1), Some(10));
    b.receive(Some(vec![repo(2), repo(3)]));
    b.receive(Some(vec![repo(4)]));
    b.receive(None);
    b.receive(None);
    assert_eq!(b.next_request(), ForkRequest::Done);
    let n = b.finish();
    assert_eq!(
        n.to_text(),
        "- 1: owner/repo1\n  - 2: owner/repo2\n    - 4: owner/repo4\n  - 3: owner/repo3\n"
    );
    assert_eq!(ForkNetwork::single(repo(12)).to_text(), "- 12: owner/repo12\n");
}

#[test]
fn page_share_takes_what_is_still_wanted() {
    assert_eq!(page_share(0, 30, None), (30, false));
    assert_eq!(page_share(5, 30, Some(10)), (5, true));
    // a page that fills the collection exactly still asks for the next page
    assert_eq!(page_share(5, 5, Some(10)), (5, false));
    assert_eq!(page_share(10, 3, Some(10)), (0, true));
    assert_eq!(page_share(10, 0, Some(10)), (0, false));
    assert_eq!(page_share(0, 1, Some(0)), (0, true));
}

#[test]
fn sample_attempts_stop_after_a_hundred_and_one() {
    let mut attempts = SampleAttempts::new();
    for _ in 0..101 {
        let offset = attempts.next_offset(3600).expect("an attempt is left");
        assert!((0..=3600).contains(&offset));
    }
    assert_eq!(attempts.made, 101);
    assert_eq!(attempts.next_offset(3600), None);
    assert_eq!(attempts.made, 101);
    assert_eq!(SampleAttempts::new().next_offset(0), Some(0));
}

#[test]
fn repo_locations_display_in_quotes() {
    let server = RepoLocation::Server("https://github.com/owner/repo.git".to_string());
    assert_eq!(server.to_str(), "https://github.com/owner/repo.git");
    assert_eq!(server.to_text(), "\"https://github.com/owner/repo.git\"");
    let local = RepoLocation::Filesystem("/tmp/repo".to_string());
    assert_eq!(local.to_text(), "\"/tmp/repo\"");
}

#[test]
fn fresh_searches_ask_for_the_larger_of_sample_size_and_a_hundred_in_a_byte() {
    assert_eq!(results_per_page(10), 100);
    assert_eq!(results_per_page(99), 100);
    assert_eq!(results_per_page(100), 100);
    assert_eq!(results_per_page(255), 255);
    assert_eq!(results_per_page(256), 0);
    assert_eq!(results_per_page(300), 44);
}
