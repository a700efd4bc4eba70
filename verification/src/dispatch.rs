//! The rules of one connection: when a request is answered at all, what the
//! add branch and the search branch do to the index, in which order the
//! branches run, and how the outcome is named.
//!
//! Reading and writing the connection, decoding the body, the calls to the
//! gateway, the lock around the index and the writing of the snapshot happen
//! elsewhere; what they yield is handed in.

use vstd::prelude::*;
use crate::api::{state_content, state_label, AddQuery, ApiQuery, ApiResponse, QueryState, SearchQuery};
use crate::framing::{parse_request, request_body};
use crate::gateway::GatewayError;
use crate::index::{
    accepts_dimension,
    hits_view,
    next_id,
    reinforced,
    search_hits,
    settled,
    well_formed,
    EntryView,
    Hit,
    VectorIndex,
};
use crate::ranking::keys;
use crate::similarity::Similarity;
use crate::snapshot::{is_snapshot_of, SnapshotNode};

verus! {

/// Whether an add with this outcome of the embedding goes through: the
/// gateway delivered, the embedding fits the index, and an id is left.
pub open spec fn add_goes_through(
    entries: Seq<EntryView>,
    embeddings: Result<Vec<u64>, GatewayError>,
) -> bool {
    embeddings matches Ok(embedding) && accepts_dimension(entries, embedding@.len()) && next_id(
        entries,
    ) <= u64::MAX
}

/// Whether a search with this outcome of the embedding runs: the gateway
/// delivered, the query fits the index, and each entry has its score.
pub open spec fn search_runs(
    entries: Seq<EntryView>,
    embeddings: Result<Vec<u64>, GatewayError>,
    scores: Seq<Similarity>,
) -> bool {
    embeddings matches Ok(query) && accepts_dimension(entries, query@.len()) && scores.len()
        == entries.len()
}

/// The add branch, once the gateway has answered.
///
/// `index` is the shared index if the lock around it could be taken, and
/// `None` if not. Where the index is held and the add goes through, the
/// content's embedding enters the index under the query's label, and the
/// answer is the snapshot of the index as it now is, to be written out
/// before the lock is released. Otherwise nothing changes and there is no
/// answer.
pub fn handle_add_request(
    index: Option<&mut VectorIndex>,
    add_query: AddQuery,
    embeddings: Result<Vec<u64>, GatewayError>,
) -> (snapshot: Option<SnapshotNode>)
    ensures
        match index {
            Some(held) => {
                &&& well_formed(held@)
                &&& well_formed(final(held)@)
                &&& snapshot.is_some() == add_goes_through(held@, embeddings)
                &&& snapshot matches Some(root) ==> {
                    &&& embeddings matches Ok(embedding) && final(held)@ == held@.push(
                        EntryView {
                            id: next_id(held@) as u64,
                            embedding: embedding@,
                            label: add_query.url@,
                            tally: 0,
                        },
                    )
                    &&& is_snapshot_of(root, final(held)@)
                    &&& root.tally == 0
                }
                &&& snapshot.is_none() ==> final(held)@ == held@
                &&& forall|i: int|
                    0 <= i < held@.len() ==> (#[trigger] final(held)@[i]).tally == held@[i].tally
            },
            None => snapshot.is_none(),
        },
{
    match index {
        Some(held) => {
            proof {
                use_type_invariant(&*held);
            }
            match embeddings {
                Ok(embedding) => match held.add(embedding, add_query.url) {
                    Ok(_) => Some(held.snapshot()),
                    Err(_) => None,
                },
                Err(_) => None,
            }
        },
        None => None,
    }
}

/// The search branch, once the gateway has answered and the entries are
/// scored against the query.
///
/// `index` is the shared index if the lock around it could be taken, and
/// `None` if not. Where the index is held and the search runs, its results
/// are the answer and the matches are counted. Otherwise the answer is the
/// empty list and nothing changes.
pub fn handle_search_request(
    index: Option<&mut VectorIndex>,
    search_query: &SearchQuery,
    embeddings: Result<Vec<u64>, GatewayError>,
    scores: &Vec<Similarity>,
) -> (results: Vec<Hit>)
    ensures
        match index {
            Some(held) => {
                &&& well_formed(held@)
                &&& well_formed(final(held)@)
                &&& search_runs(held@, embeddings, scores@) ==> (embeddings matches Ok(query) && {
                    let settled_scores = settled(held@, query@, keys(scores@));
                    &&& final(held)@ == reinforced(held@, settled_scores, search_query.min_sim@)
                    &&& hits_view(results@) == search_hits(
                        held@,
                        settled_scores,
                        search_query.min_sim@,
                        search_query.max_results as nat,
                    )
                })
                &&& !search_runs(held@, embeddings, scores@) ==> {
                    &&& final(held)@ == held@
                    &&& results@.len() == 0
                }
                &&& final(held)@.len() == held@.len()
                &&& forall|i: int|
                    0 <= i < held@.len() ==> (#[trigger] final(held)@[i]).tally >= held@[i].tally
            },
            None => results@.len() == 0,
        },
        results@.len() <= search_query.max_results,
        forall|k: int|
            0 <= k < results@.len() ==> (#[trigger] results@[k]).0@ >= search_query.min_sim@,
        forall|k: int, l: int|
            0 <= k < l < results@.len() ==> (#[trigger] results@[k]).0@ >= (#[trigger] results@[l]).0@,
{
    match index {
        Some(held) => {
            proof {
                use_type_invariant(&*held);
            }
            match embeddings {
                Ok(query) => match held.search(
                    search_query.min_sim,
                    search_query.max_results,
                    &query,
                    scores,
                ) {
                    Ok(results) => results,
                    Err(_) => Vec::new(),
                },
                Err(_) => Vec::new(),
            }
        },
        None => Vec::new(),
    }
}

/// What the dispatcher waits for.
#[derive(Clone, Copy, Debug, PartialEq, Eq, Structural)]
pub enum Awaiting {
    /// The bytes of the request.
    Request,
    /// The query that the body decodes to.
    Query,
    /// The outcome of the add branch.
    Add,
    /// The outcome of the search branch.
    Search,
    /// Nothing: the connection is done with.
    Nothing,
}

/// How the last task ended.
#[derive(Debug, PartialEq, Eq)]
pub enum Outcome {
    /// These bytes were read from the connection.
    Received(Vec<u8>),
    /// The body was decoded: to this query, or to none if it is no query.
    Decoded(Option<ApiQuery>),
    /// The add branch ran; `true` if the entry is in the index.
    Added(bool),
    /// The search branch ran; these are its results.
    Searched(Vec<Hit>),
}

/// What to do next.
#[derive(Debug, PartialEq, Eq)]
pub enum Task {
    /// Close the connection; nothing is sent.
    Close,
    /// Decode this body.
    Decode(Vec<u8>),
    /// Run the add branch for this query.
    Add(AddQuery),
    /// Run the search branch for this query.
    Search(SearchQuery),
    /// Send this response and close the connection.
    Respond(ApiResponse),
}

/// The course of one connection: what is waited for, the branches still to
/// run, and the outcome so far.
#[derive(Debug, PartialEq, Eq)]
pub struct Dispatcher {
    pub add: Option<AddQuery>,
    pub search: Option<SearchQuery>,
    pub state: QueryState,
    pub awaiting: Awaiting,
}

/// Whether the dispatcher has nothing more to do.
pub open spec fn is_spent(dispatcher: Dispatcher) -> bool {
    &&& dispatcher.add.is_none()
    &&& dispatcher.search.is_none()
    &&& dispatcher.state == QueryState::DidNothing
    &&& dispatcher.awaiting == Awaiting::Nothing
}

/// The outcome so far, once the outcome of a branch is taken in.
///
/// An add that put its entry into the index makes the state `Added`; one
/// that did not leaves no trace. A search makes `Added` into `AddSearch` and
/// anything else into `Searched`, with its results, whether or not it found
/// or could look for anything. An outcome of a branch that is not running
/// counts for nothing.
pub open spec fn folded(state: QueryState, awaiting: Awaiting, outcome: Outcome) -> QueryState {
    match (awaiting, outcome) {
        (Awaiting::Add, Outcome::Added(true)) => QueryState::Added,
        (Awaiting::Search, Outcome::Searched(results)) => match state {
            QueryState::Added => QueryState::AddSearch(results),
            _ => QueryState::Searched(results),
        },
        _ => state,
    }
}

/// Whether `task` is what comes next when `add` and `search` are still to
/// run and `state` is the outcome so far, and `after` is the dispatcher that
/// then waits.
///
/// The add branch runs first, then the search branch, each if the query has
/// it. When neither is left, the response for the outcome so far is due, and
/// with it the dispatcher is spent.
pub open spec fn goes_on(
    add: Option<AddQuery>,
    search: Option<SearchQuery>,
    state: QueryState,
    task: Task,
    after: Dispatcher,
) -> bool {
    match (add, search) {
        (Some(add_query), _) => {
            &&& task == Task::Add(add_query)
            &&& after.add.is_none()
            &&& after.search == search
            &&& after.state == state
            &&& after.awaiting == Awaiting::Add
        },
        (None, Some(search_query)) => {
            &&& task == Task::Search(search_query)
            &&& after.add.is_none()
            &&& after.search.is_none()
            &&& after.state == state
            &&& after.awaiting == Awaiting::Search
        },
        (None, None) => {
            &&& task matches Task::Respond(response)
            &&& response.state@ == state_label(state)
            &&& response.content == state_content(state)
            &&& is_spent(after)
        },
    }
}

/// A search after an add ends as both if the add went through, and as a
/// search alone if it did not; the results are those of the search either
/// way.
pub proof fn lemma_outcome_of_add_then_search(added: bool, results: Vec<Hit>)
    ensures
        folded(
            folded(QueryState::DidNothing, Awaiting::Add, Outcome::Added(added)),
            Awaiting::Search,
            Outcome::Searched(results),
        ) == if added {
            QueryState::AddSearch(results)
        } else {
            QueryState::Searched(results)
        },
{
}

impl Dispatcher {
    /// The dispatcher of a connection on which nothing has happened yet.
    pub fn new() -> (dispatcher: Dispatcher)
        ensures
            dispatcher.add.is_none(),
            dispatcher.search.is_none(),
            dispatcher.state == QueryState::DidNothing,
            dispatcher.awaiting == Awaiting::Request,
    {
        Dispatcher {
            add: None,
            search: None,
            state: QueryState::DidNothing,
            awaiting: Awaiting::Request,
        }
    }

    /// Takes in how the last task ended and says what to do next.
    ///
    /// First the request is read. If no body can be cut out of it, the
    /// connection is closed and nothing is sent; else the body is to be
    /// decoded. A body that is no query is answered as a failed parse. A
    /// query has its branches run, the add before the search, and is then
    /// answered with the outcome. Whatever does not fit what is waited for
    /// closes the connection, except that during a branch it counts for
    /// nothing.
    pub fn step(&mut self, outcome: Outcome) -> (task: Task)
        ensures
            match old(self).awaiting {
                Awaiting::Request => match outcome {
                    Outcome::Received(request) => match request_body(request@) {
                        Ok(body) => {
                            &&& task matches Task::Decode(cut)
                            &&& cut@ == body
                            &&& final(self).add.is_none()
                            &&& final(self).search.is_none()
                            &&& final(self).state == QueryState::DidNothing
                            &&& final(self).awaiting == Awaiting::Query
                        },
                        Err(_) => task == Task::Close && is_spent(*final(self)),
                    },
                    _ => task == Task::Close && is_spent(*final(self)),
                },
                Awaiting::Query => match outcome {
                    Outcome::Decoded(Some(query)) => goes_on(
                        query.add,
                        query.search,
                        QueryState::DidNothing,
                        task,
                        *final(self),
                    ),
                    Outcome::Decoded(None) => goes_on(
                        None,
                        None,
                        QueryState::ParseFailed,
                        task,
                        *final(self),
                    ),
                    _ => task == Task::Close && is_spent(*final(self)),
                },
                Awaiting::Add | Awaiting::Search => goes_on(
                    old(self).add,
                    old(self).search,
                    folded(old(self).state, old(self).awaiting, outcome),
                    task,
                    *final(self),
                ),
                Awaiting::Nothing => task == Task::Close && is_spent(*final(self)),
            },
    {
        let awaiting: Awaiting = self.awaiting;
        let mut state: QueryState = QueryState::DidNothing;
        core::mem::swap(&mut self.state, &mut state);
        let mut add: Option<AddQuery> = self.add.take();
        let mut search: Option<SearchQuery> = self.search.take();
        self.awaiting = Awaiting::Nothing;
        match awaiting {
            Awaiting::Request => {
                return match outcome {
                    Outcome::Received(request) => match parse_request(request.as_slice()) {
                        Ok(body) => {
                            self.awaiting = Awaiting::Query;
                            Task::Decode(body)
                        },
                        Err(_) => Task::Close,
                    },
                    _ => Task::Close,
                };
            },
            Awaiting::Query => match outcome {
                Outcome::Decoded(Some(query)) => {
                    add = query.add;
                    search = query.search;
                    state = QueryState::DidNothing;
                },
                Outcome::Decoded(None) => {
                    add = None;
                    search = None;
                    state = QueryState::ParseFailed;
                },
                _ => {
                    return Task::Close;
                },
            },
            Awaiting::Add => match outcome {
                Outcome::Added(true) => {
                    state = QueryState::Added;
                },
                _ => {},
            },
            Awaiting::Search => match outcome {
                Outcome::Searched(results) => {
                    state = match state {
                        QueryState::Added => QueryState::AddSearch(results),
                        _ => QueryState::Searched(results),
                    };
                },
                _ => {},
            },
            Awaiting::Nothing => {
                return Task::Close;
            },
        }
        match add {
            Some(add_query) => {
                self.search = search;
                self.state = state;
                self.awaiting = Awaiting::Add;
                Task::Add(add_query)
            },
            None => match search {
                Some(search_query) => {
                    self.state = state;
                    self.awaiting = Awaiting::Search;
                    Task::Search(search_query)
                },
                None => Task::Respond(ApiResponse::from(state)),
            },
        }
    }
}

} // verus!
