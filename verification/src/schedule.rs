//! When to search.
use vstd::prelude::*;

use crate::state::{with_lines, with_query, State, StateView};

verus! {

/// How far the searches have come.
pub struct SearchCursor {
    last_query_version: usize,
    last_total_len: usize,
}

/// What is to be done next. The number is the version of the query that it is for.
#[derive(Clone, Copy, Debug, PartialEq, Eq, Structural)]
pub enum SearchStep {
    /// Nothing has changed.
    Idle,
    /// There is no query: there are no matches.
    Clear(usize),
    /// Search for the query.
    Search(usize),
}

impl SearchCursor {
    /// The version of the query that was last looked at.
    pub closed spec fn query_version(&self) -> usize {
        self.last_query_version
    }

    /// The number of lines that was last looked at.
    pub closed spec fn total_len(&self) -> usize {
        self.last_total_len
    }

    /// The query has changed, or there is one and the number of lines has changed.
    pub open spec fn is_due(&self, state: StateView) -> bool {
        state.query_version != self.query_version() || (state.lines.len() != self.total_len()
            && state.query.len() > 0)
    }

    /// Nothing looked at yet.
    pub fn new() -> (cursor: SearchCursor)
        ensures
            cursor.query_version() == 0,
            cursor.total_len() == 0,
    {
        SearchCursor { last_query_version: 0, last_total_len: 0 }
    }

    /// Looks at the state, and says what is to be done.
    pub fn poll(&mut self, state: &State) -> (step: SearchStep)
        requires
            state.inv(),
        ensures
            step == if !old(self).is_due(state@) {
                SearchStep::Idle
            } else if state@.query.len() == 0 {
                SearchStep::Clear(state@.query_version)
            } else {
                SearchStep::Search(state@.query_version)
            },
            old(self).is_due(state@) ==> final(self).query_version() == state@.query_version
                && final(self).total_len() == state@.lines.len(),
            !old(self).is_due(state@) ==> *final(self) == *old(self),
    {
        let version: usize = state.query_version();
        let total: usize = state.lines().len();
        let blank: bool = state.query().is_empty();
        let changed: bool = version != self.last_query_version;
        let grown: bool = total != self.last_total_len && !blank;
        if !changed && !grown {
            return SearchStep::Idle;
        }
        self.last_query_version = version;
        self.last_total_len = total;
        if blank {
            SearchStep::Clear(version)
        } else {
            SearchStep::Search(version)
        }
    }
}

/// Once it has been looked at, a state calls for nothing until it changes.
pub proof fn law_a_state_is_searched_once(cursor: SearchCursor, state: StateView)
    requires
        cursor.query_version() == state.query_version,
        cursor.total_len() == state.lines.len(),
    ensures
        !cursor.is_due(state),
{
}

/// A changed query calls for a search, or for a clearing where it is empty now; so do
/// more lines, where there is a query.
pub proof fn law_changes_are_due(cursor: SearchCursor, state: StateView, query: Seq<char>, lines: Seq<
    Seq<char>,
>)
    requires
        cursor.query_version() == state.query_version,
        cursor.total_len() == state.lines.len(),
    ensures
        cursor.is_due(with_query(state, query)),
        state.query.len() > 0 ==> cursor.is_due(with_lines(state, lines)),
{
}

/// A search is due where the query has a version that was not looked at, or where there is
/// a query and the number of lines is one that was not looked at; and at no other time.
pub proof fn law_when_a_search_is_due(cursor: SearchCursor, state: StateView)
    ensures
        state.query_version != cursor.query_version() ==> cursor.is_due(state),
        state.query.len() > 0 && state.lines.len() != cursor.total_len() ==> cursor.is_due(state),
        state.query_version == cursor.query_version() && state.query.len() == 0 ==> !cursor.is_due(
            state,
        ),
        state.query_version == cursor.query_version() && state.lines.len() == cursor.total_len()
            ==> !cursor.is_due(state),
{
}

} // verus!
