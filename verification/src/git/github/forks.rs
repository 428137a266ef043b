//! Queries to GitHub's search and forks APIs: their parameters, apart from the request.
use vstd::prelude::*;

verus! {

/// The kind of content a query asks for.
#[derive(Clone, Copy, Debug, PartialEq, Eq)]
pub enum ContentType {
    TextMatch,
    Default,
}

impl Default for ContentType {
    fn default() -> (c: Self)
        ensures
            c == ContentType::Default,
    {
        ContentType::Default
    }
}

/// The parameters of a query: where it is sent, what it searches for, how many results per
/// page, which page, and how the results are sorted and ordered.
#[derive(Clone, Debug)]
pub struct QueryHandler {
    pub url: String,
    pub content_type: ContentType,
    pub query: String,
    pub per_page: Option<u8>,
    pub page: Option<u32>,
    pub sort: Option<String>,
    pub order: Option<String>,
}

impl QueryHandler {
    /// A query with no page, sort or order set.
    pub fn new(url: String, query: String) -> (q: Self)
        ensures
            q.url == url,
            q.query == query,
            q.content_type == ContentType::Default,
            q.per_page is None && q.page is None && q.sort is None && q.order is None,
    {
        QueryHandler { url, content_type: ContentType::Default, query, per_page: None, page: None, sort: None, order: None }
    }

    /// Sets the `sort` parameter for the query. The exact parameters for this method will vary
    /// based on what is being searched.
    pub fn sort(self, sort: Option<String>) -> (q: Self)
        ensures
            q == (QueryHandler { sort, ..self }),
    {
        QueryHandler { sort, ..self }
    }

    /// Results per page (max 100).
    pub fn per_page(self, per_page: u8) -> (q: Self)
        ensures
            q == (QueryHandler { per_page: Some(per_page), ..self }),
    {
        QueryHandler { per_page: Some(per_page), ..self }
    }

    /// Page number of the results to fetch.
    pub fn page(self, page: u32) -> (q: Self)
        ensures
            q == (QueryHandler { page: Some(page), ..self }),
    {
        QueryHandler { page: Some(page), ..self }
    }
}

} // verus!
