//! The values that cross the wire: what a client asks for, and what it is told.

use vstd::prelude::*;
use crate::index::Hit;
use crate::similarity::Similarity;

verus! {

/// How a request ended.
#[derive(Debug, PartialEq, Eq)]
pub enum QueryState {
    /// An entry was added.
    Added,
    /// A search ran; these are its results.
    Searched(Vec<Hit>),
    /// An entry was added and then a search ran; these are its results.
    AddSearch(Vec<Hit>),
    /// The body was not a query.
    ParseFailed,
    /// The query asked for nothing, or nothing it asked for was done.
    DidNothing,
}

/// One search result with its parts named.
#[derive(Debug, PartialEq, Eq)]
pub struct SearchResult {
    pub cos_sim: Similarity,
    pub url: String,
    pub search_tally: u32,
}

/// What the client is told: the outcome's label and, after a search, the
/// results.
#[derive(Debug, PartialEq, Eq)]
pub struct ApiResponse {
    pub state: &'static str,
    pub content: Option<Vec<Hit>>,
}

/// A request to index `content` under the label `url`.
#[derive(Debug, PartialEq, Eq)]
pub struct AddQuery {
    pub content: String,
    pub url: String,
}

/// A request to search for `content`: at most `max_results` results, none
/// with a score under `min_sim`. With a `prompt`, the content is first
/// rewritten under that instruction.
#[derive(Debug, PartialEq, Eq)]
pub struct SearchQuery {
    pub prompt: Option<String>,
    pub content: String,
    pub min_sim: Similarity,
    pub max_results: usize,
}

/// A query: an add, a search, both or neither.
#[derive(Debug, PartialEq, Eq)]
pub struct ApiQuery {
    pub add: Option<AddQuery>,
    pub search: Option<SearchQuery>,
}

/// The label that the response carries for an outcome.
pub open spec fn state_label(state: QueryState) -> Seq<char> {
    match state {
        QueryState::Added => "Add response was sucessful"@,
        QueryState::Searched(_) => "Search response was sucessful"@,
        QueryState::AddSearch(_) => "AddSearch response was sucessful"@,
        QueryState::ParseFailed => "Parsing request failed"@,
        QueryState::DidNothing => "No Add or Search request found, what are you trying to do?"@,
    }
}

/// The results that the response carries for an outcome: those of the search,
/// if one ran.
pub open spec fn state_content(state: QueryState) -> Option<Vec<Hit>> {
    match state {
        QueryState::Searched(results) => Some(results),
        QueryState::AddSearch(results) => Some(results),
        _ => None,
    }
}

impl ApiResponse {
    /// The response for an outcome.
    pub fn from(state: QueryState) -> (response: ApiResponse)
        ensures
            response.state@ == state_label(state),
            response.content == state_content(state),
    {
        match state {
            QueryState::Added => ApiResponse { state: "Add response was sucessful", content: None },
            QueryState::Searched(results) => ApiResponse {
                state: "Search response was sucessful",
                content: Some(results),
            },
            QueryState::AddSearch(results) => ApiResponse {
                state: "AddSearch response was sucessful",
                content: Some(results),
            },
            QueryState::ParseFailed => ApiResponse { state: "Parsing request failed", content: None },
            QueryState::DidNothing => ApiResponse {
                state: "No Add or Search request found, what are you trying to do?",
                content: None,
            },
        }
    }
}

impl ApiQuery {
    /// A query that only adds.
    pub fn add_query(content: String, url: String) -> (query: ApiQuery)
        ensures
            query.add == Some(AddQuery { content, url }),
            query.search.is_none(),
    {
        ApiQuery { add: Some(AddQuery { content, url }), search: None }
    }

    /// A query that only searches.
    pub fn search_query(
        prompt: Option<String>,
        content: String,
        min_sim: Similarity,
        max_results: usize,
    ) -> (query: ApiQuery)
        ensures
            query.add.is_none(),
            query.search == Some(SearchQuery { prompt, content, min_sim, max_results }),
    {
        ApiQuery { add: None, search: Some(SearchQuery { prompt, content, min_sim, max_results }) }
    }
}

} // verus!
