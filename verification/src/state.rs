//! What is being selected from, and how keys, lines and matches change it.
use vstd::prelude::*;

use crate::keys::Action;
use crate::matching::{match_views, MatchIndices, MatchView};
use crate::search::Found;
use crate::store::{Lines, CHUNK_SIZE, LINE_LIMIT};
use crate::text::{
    chars_of, last_segment, lemma_last_segment, lemma_trim_end, texts, trim_end,
};

verus! {

/// What a `State` holds.
#[verifier::ext_equal]
pub struct StateView {
    /// The lines that have been read.
    pub lines: Seq<Seq<char>>,
    /// The query that has been typed.
    pub query: Seq<char>,
    /// The matches that the last search found.
    pub matches: Seq<MatchView>,
    /// Which of the results is selected.
    pub selection_index: usize,
    /// Changes with all that shows on the screen.
    pub ui_version: usize,
    /// Changes with all that calls for a search.
    pub query_version: usize,
}

/// The number of results: all lines where there is no query, else the matches.
pub open spec fn result_count(state: StateView) -> nat {
    if state.query.len() == 0 {
        state.lines.len()
    } else {
        state.matches.len()
    }
}

/// The line that result `k` stands for.
pub open spec fn result_line(state: StateView, k: int) -> int {
    if state.query.len() == 0 {
        k
    } else {
        state.matches[k].index as int
    }
}

/// The matches name lines that are there, no more than there are, and the selection is
/// the number of a line, or the first.
pub open spec fn consistent(state: StateView) -> bool {
    &&& state.lines.len() <= LINE_LIMIT
    &&& state.matches.len() <= state.lines.len()
    &&& forall|k: int|
        0 <= k < state.matches.len() ==> (#[trigger] state.matches[k]).index < state.lines.len()
    &&& state.selection_index == 0 || state.selection_index < state.lines.len()
}

/// The selection put on the last result where it is behind it.
pub open spec fn settled(state: StateView) -> StateView {
    if result_count(state) > 0 && state.selection_index >= result_count(state) {
        StateView {
            selection_index: (result_count(state) - 1) as usize,
            ui_version: state.ui_version.wrapping_add(1),
            ..state
        }
    } else {
        state
    }
}

/// More lines have been read. With a query they call for a search.
pub open spec fn with_lines(state: StateView, lines: Seq<Seq<char>>) -> StateView {
    StateView {
        lines: state.lines + lines,
        query_version: if state.query.len() > 0 {
            state.query_version.wrapping_add(1)
        } else {
            state.query_version
        },
        ui_version: state.ui_version.wrapping_add(1),
        ..state
    }
}

/// A search for the query of `version` has ended. What it found counts only where the
/// query still has that version.
pub open spec fn with_matches(
    state: StateView,
    version: usize,
    matches: Seq<MatchView>,
) -> StateView {
    if state.query_version == version {
        StateView {
            matches,
            selection_index: 0,
            ui_version: state.ui_version.wrapping_add(1),
            ..state
        }
    } else {
        state
    }
}

/// The query has been changed.
pub open spec fn with_query(state: StateView, query: Seq<char>) -> StateView {
    StateView {
        query,
        query_version: state.query_version.wrapping_add(1),
        ui_version: state.ui_version.wrapping_add(1),
        ..state
    }
}

/// The next result is selected, where there is one.
pub open spec fn with_next(state: StateView) -> StateView {
    if state.selection_index + 1 < result_count(state) {
        StateView {
            selection_index: (state.selection_index + 1) as usize,
            ui_version: state.ui_version.wrapping_add(1),
            ..state
        }
    } else {
        state
    }
}

/// The result before is selected, where there is one.
pub open spec fn with_previous(state: StateView) -> StateView {
    if state.selection_index > 0 {
        StateView {
            selection_index: (state.selection_index - 1) as usize,
            ui_version: state.ui_version.wrapping_add(1),
            ..state
        }
    } else {
        state
    }
}

/// The characters that end a segment of the query.
pub open spec fn delimiters() -> Set<char> {
    set!['/', ' ']
}

/// The query without its last segment: delimiters at its end are set aside, and what
/// stands behind the last delimiter then left goes.
pub open spec fn without_segment(query: Seq<char>) -> Seq<char> {
    let trimmed = trim_end(query, delimiters());
    trimmed.take(trimmed.len() - last_segment(trimmed, delimiters()).len())
}

/// What an action makes of the state. `reverse` says that the results go down the screen
/// from the first one on; else they go up.
pub open spec fn after(state: StateView, action: Action, reverse: bool) -> StateView {
    match action {
        Action::Cancel => state,
        Action::Accept => state,
        Action::Up => if reverse {
            with_previous(state)
        } else {
            with_next(state)
        },
        Action::Down => if reverse {
            with_next(state)
        } else {
            with_previous(state)
        },
        Action::DeleteSegment => with_query(state, without_segment(state.query)),
        Action::DeleteChar => with_query(
            state,
            if state.query.len() > 0 {
                state.query.drop_last()
            } else {
                state.query
            },
        ),
        Action::Insert(c) => with_query(state, state.query.push(c)),
        Action::Ignore => state,
    }
}

/// How it goes on after an action.
#[derive(Debug, PartialEq, Eq)]
pub enum Outcome {
    /// Wait for the next key.
    Continue,
    /// Leave without a selection.
    Cancel,
    /// Leave with this line.
    Accept(String),
}

/// What an `Outcome` says.
pub enum OutcomeView {
    Continue,
    Cancel,
    Accept(Seq<char>),
}

impl View for Outcome {
    type V = OutcomeView;

    open spec fn view(&self) -> OutcomeView {
        match self {
            Outcome::Continue => OutcomeView::Continue,
            Outcome::Cancel => OutcomeView::Cancel,
            Outcome::Accept(line) => OutcomeView::Accept(line@),
        }
    }
}

/// How it goes on after an action.
pub open spec fn outcome_of(state: StateView, action: Action) -> OutcomeView {
    match action {
        Action::Cancel => OutcomeView::Cancel,
        Action::Accept => if state.selection_index < result_count(state) {
            OutcomeView::Accept(state.lines[result_line(state, state.selection_index as int)])
        } else {
            OutcomeView::Continue
        },
        _ => OutcomeView::Continue,
    }
}

/// The query without its last segment.
pub fn delete_segment(query: &str) -> (rest: String)
    ensures
        rest@ == without_segment(query@),
{
    let chars: Vec<char> = chars_of(query);
    let ghost cut = delimiters();
    let mut end: usize = chars.len();
    assert(query@.take(end as int) =~= query@);
    while end > 0 && (chars[end - 1] == '/' || chars[end - 1] == ' ')
        invariant
            end <= chars@.len(),
            chars@ == query@,
            cut == delimiters(),
            trim_end(query@.take(end as int), cut) == trim_end(query@, cut),
        decreases end,
    {
        assert(query@.take(end as int).drop_last() =~= query@.take(end - 1));
        end -= 1;
    }
    let ghost trimmed = query@.take(end as int);
    assert(trim_end(query@, cut) == trimmed);
    let mut start: usize = end;
    while start > 0 && chars[start - 1] != '/' && chars[start - 1] != ' '
        invariant
            start <= end <= chars@.len(),
            chars@ == query@,
            cut == delimiters(),
            last_segment(trimmed, cut).len() == last_segment(query@.take(start as int), cut).len()
                + (end - start),
        decreases start,
    {
        assert(query@.take(start as int).drop_last() =~= query@.take(start - 1));
        start -= 1;
    }
    assert(last_segment(query@.take(start as int), cut).len() == 0);
    assert(trimmed.take(start as int) =~= query@.subrange(0, start as int));
    query.substring_char(0, start).to_owned()
}

/// All that the threads share.
pub struct State {
    lines: Lines,
    query: String,
    matches: Vec<MatchIndices>,
    selection_index: usize,
    ui_version: usize,
    query_version: usize,
}

impl View for State {
    type V = StateView;

    closed spec fn view(&self) -> StateView {
        StateView {
            lines: self.lines@,
            query: self.query@,
            matches: match_views(self.matches@),
            selection_index: self.selection_index,
            ui_version: self.ui_version,
            query_version: self.query_version,
        }
    }
}

impl State {
    /// The lines are kept as they should be.
    pub closed spec fn lines_inv(&self) -> bool {
        self.lines.inv()
    }

    /// What holds of every state.
    pub open spec fn inv(&self) -> bool {
        self.lines_inv() && consistent(self@)
    }

    /// Nothing read, nothing typed, nothing found.
    pub fn new() -> (state: State)
        ensures
            state.inv(),
            state@ == (StateView {
                lines: seq![],
                query: seq![],
                matches: seq![],
                selection_index: 0,
                ui_version: 0,
                query_version: 0,
            }),
    {
        let state = State {
            lines: Lines::new(),
            query: String::new(),
            matches: Vec::new(),
            selection_index: 0,
            ui_version: 0,
            query_version: 0,
        };
        assert(match_views(state.matches@) =~= seq![]);
        state
    }

    /// The lines that have been read.
    pub fn lines(&self) -> (lines: &Lines)
        requires
            self.inv(),
        ensures
            lines.inv(),
            lines@ == self@.lines,
    {
        &self.lines
    }

    /// The query that has been typed.
    pub fn query(&self) -> (query: &str)
        ensures
            query@ == self@.query,
    {
        self.query.as_str()
    }

    /// The matches that the last search found.
    pub fn matches(&self) -> (matches: &Vec<MatchIndices>)
        ensures
            match_views(matches@) == self@.matches,
    {
        &self.matches
    }

    /// Which of the results is selected.
    pub fn selection_index(&self) -> (index: usize)
        ensures
            index == self@.selection_index,
    {
        self.selection_index
    }

    /// Changes with all that shows on the screen.
    pub fn ui_version(&self) -> (version: usize)
        ensures
            version == self@.ui_version,
    {
        self.ui_version
    }

    /// Changes with all that calls for a search.
    pub fn query_version(&self) -> (version: usize)
        ensures
            version == self@.query_version,
    {
        self.query_version
    }

    /// The number of results.
    pub fn total_results(&self) -> (count: usize)
        requires
            self.inv(),
        ensures
            count == result_count(self@),
    {
        if self.query.as_str().is_empty() {
            self.lines.len()
        } else {
            self.matches.len()
        }
    }

    /// The number of the line that result `k` stands for.
    pub fn line_of_result(&self, k: usize) -> (index: usize)
        requires
            self.inv(),
            k < result_count(self@),
        ensures
            index == result_line(self@, k as int),
            index < self@.lines.len(),
    {
        if self.query.as_str().is_empty() {
            k
        } else {
            assert(self@.matches[k as int] == self.matches@[k as int]@);
            self.matches[k].index as usize
        }
    }

    /// Puts the selection on the last result where it is behind it, and returns the
    /// version of what shows on the screen.
    pub fn settle(&mut self) -> (version: usize)
        requires
            old(self).inv(),
        ensures
            final(self).inv(),
            final(self)@ == settled(old(self)@),
            version == final(self)@.ui_version,
    {
        let total: usize = self.total_results();
        if total > 0 && self.selection_index >= total {
            self.selection_index = total - 1;
            self.ui_version = self.ui_version.wrapping_add(1);
        }
        self.ui_version
    }

    /// Takes in a chunk of lines. Only behind full chunks is there a place for one.
    pub fn add_chunk(&mut self, chunk: Vec<String>)
        requires
            old(self).inv(),
            old(self)@.lines.len() % (CHUNK_SIZE as nat) == 0,
            1 <= chunk@.len() <= CHUNK_SIZE,
            old(self)@.lines.len() + chunk@.len() <= LINE_LIMIT,
        ensures
            final(self).inv(),
            final(self)@ == with_lines(old(self)@, texts(chunk@)),
    {
        self.lines.push_chunk(chunk);
        if !self.query.as_str().is_empty() {
            self.query_version = self.query_version.wrapping_add(1);
        }
        self.ui_version = self.ui_version.wrapping_add(1);
    }

    /// Takes in what a search for the query of `version` has found, where the query still
    /// has that version, and says whether it has.
    pub fn publish(&mut self, version: usize, found: Found) -> (taken: bool)
        requires
            old(self).inv(),
            found.inv(),
            found.line_count() <= old(self)@.lines.len(),
        ensures
            final(self).inv(),
            final(self)@ == with_matches(old(self)@, version, found@),
            taken == (old(self)@.query_version == version),
    {
        if self.query_version != version {
            return false;
        }
        self.matches = found.into_matches();
        self.selection_index = 0;
        self.ui_version = self.ui_version.wrapping_add(1);
        true
    }

    /// Carries out an action. `reverse` says that the results go down the screen from the
    /// first one on.
    pub fn apply(&mut self, action: Action, reverse: bool) -> (outcome: Outcome)
        requires
            old(self).inv(),
        ensures
            final(self).inv(),
            final(self)@ == after(old(self)@, action, reverse),
            outcome@ == outcome_of(old(self)@, action),
    {
        match action {
            Action::Cancel => Outcome::Cancel,
            Action::Accept => {
                let total: usize = self.total_results();
                if self.selection_index < total {
                    let index: usize = self.line_of_result(self.selection_index);
                    Outcome::Accept(self.lines.get(index).to_owned())
                } else {
                    Outcome::Continue
                }
            },
            Action::Up => {
                if reverse {
                    self.select_previous();
                } else {
                    self.select_next();
                }
                Outcome::Continue
            },
            Action::Down => {
                if reverse {
                    self.select_next();
                } else {
                    self.select_previous();
                }
                Outcome::Continue
            },
            Action::DeleteSegment => {
                let rest: String = delete_segment(self.query.as_str());
                self.change_query(rest);
                Outcome::Continue
            },
            Action::DeleteChar => {
                let mut query: String = self.query.clone();
                query.pop();
                self.change_query(query);
                Outcome::Continue
            },
            Action::Insert(c) => {
                let mut query: String = self.query.clone();
                query.push(c);
                self.change_query(query);
                Outcome::Continue
            },
            Action::Ignore => Outcome::Continue,
        }
    }

    /// Selects the next result, where there is one.
    fn select_next(&mut self)
        requires
            old(self).inv(),
        ensures
            final(self).inv(),
            final(self)@ == with_next(old(self)@),
    {
        let total: usize = self.total_results();
        if total > 0 && self.selection_index < total - 1 {
            self.selection_index = self.selection_index + 1;
            self.ui_version = self.ui_version.wrapping_add(1);
        }
    }

    /// Selects the result before, where there is one.
    fn select_previous(&mut self)
        requires
            old(self).inv(),
        ensures
            final(self).inv(),
            final(self)@ == with_previous(old(self)@),
    {
        if self.selection_index > 0 {
            self.selection_index = self.selection_index - 1;
            self.ui_version = self.ui_version.wrapping_add(1);
        }
    }

    /// Changes the query.
    fn change_query(&mut self, query: String)
        requires
            old(self).inv(),
        ensures
            final(self).inv(),
            final(self)@ == with_query(old(self)@, query@),
    {
        self.query = query;
        self.query_version = self.query_version.wrapping_add(1);
        self.ui_version = self.ui_version.wrapping_add(1);
    }
}

/// Deleting a character takes back the typing of one.
pub proof fn law_delete_undoes_insert(state: StateView, c: char, reverse: bool)
    ensures
        after(after(state, Action::Insert(c), reverse), Action::DeleteChar, reverse).query
            == state.query,
{
    assert(state.query.push(c).drop_last() =~= state.query);
}

/// What is left when a segment is deleted is a beginning of the query, empty or with a
/// delimiter at its end, and shorter than the query, unless that was empty.
pub proof fn law_delete_segment_leaves_whole_segments(query: Seq<char>)
    ensures
        without_segment(query).is_prefix_of(query),
        without_segment(query).len() > 0 ==> delimiters().contains(without_segment(query).last()),
        query.len() > 0 ==> without_segment(query).len() < query.len(),
{
    let cut = delimiters();
    let trimmed = trim_end(query, cut);
    lemma_trim_end(query, cut);
    lemma_last_segment(trimmed, cut);
    let rest = without_segment(query);
    assert(query.subrange(0, rest.len() as int) =~= rest);
    if trimmed.len() > 0 {
        assert(last_segment(trimmed, cut).len() > 0);
    }
}

/// Deleting a segment takes back the typing of one: behind a delimiter or at the
/// beginning, any characters that are no delimiters.
pub proof fn law_delete_segment_undoes_typing(query: Seq<char>, segment: Seq<char>)
    requires
        query.len() > 0 ==> delimiters().contains(query.last()),
        segment.len() > 0,
        forall|k: int| 0 <= k < segment.len() ==> !delimiters().contains(#[trigger] segment[k]),
    ensures
        without_segment(query + segment) == query,
{
    let cut = delimiters();
    let whole = query + segment;
    assert(whole.last() == segment[segment.len() - 1]);
    assert(trim_end(whole, cut) == whole);
    lemma_last_segment(whole, cut);
    let n = last_segment(whole, cut).len();
    if n > segment.len() {
        assert(whole[query.len() - 1] == query.last());
    }
    if n < segment.len() {
        assert(whole[whole.len() - n - 1] == segment[segment.len() - n - 1]);
    }
    assert(whole.take(query.len() as int) =~= query);
}

/// A move of the selection is taken back by the move the other way.
pub proof fn law_up_and_down_cancel(state: StateView, reverse: bool)
    requires
        state.selection_index < result_count(state),
        consistent(state),
    ensures
        ({
            let up = after(state, Action::Up, reverse);
            let down = after(state, Action::Down, reverse);
            &&& up.selection_index != state.selection_index ==> after(
                up,
                Action::Down,
                reverse,
            ).selection_index == state.selection_index
            &&& down.selection_index != state.selection_index ==> after(
                down,
                Action::Up,
                reverse,
            ).selection_index == state.selection_index
        }),
{
}

/// In the one layout a key does what the other key does in the other.
pub proof fn law_layouts_mirror_each_other(state: StateView)
    ensures
        after(state, Action::Up, true) == after(state, Action::Down, false),
        after(state, Action::Down, true) == after(state, Action::Up, false),
{
}

/// Once settled, the selection is one of the results, wherever there are any, and to
/// accept gives out the line that it stands for.
pub proof fn law_settled_selection_can_be_accepted(state: StateView)
    requires
        consistent(state),
        result_count(state) > 0,
    ensures
        ({
            let s = settled(state);
            let line = result_line(s, s.selection_index as int);
            &&& s.selection_index < result_count(s)
            &&& 0 <= line < s.lines.len()
            &&& outcome_of(s, Action::Accept) == OutcomeView::Accept(s.lines[line])
        }),
        settled(settled(state)) == settled(state),
{
    let s = settled(state);
    if s.query.len() > 0 {
        assert(s.matches[s.selection_index as int].index < s.lines.len());
    }
}

/// A line is given out for no action but to accept, and then only one that has been read
/// and is selected; what cancels gives out none.
pub proof fn law_only_accept_gives_a_line(state: StateView, action: Action)
    requires
        consistent(state),
    ensures
        outcome_of(state, action) matches OutcomeView::Accept(line) ==> state.lines.contains(line),
        outcome_of(state, action) is Accept ==> action == Action::Accept,
        outcome_of(state, Action::Cancel) is Cancel,
        outcome_of(state, Action::Accept) is Accept <==> state.selection_index < result_count(
            state,
        ),
{
    if outcome_of(state, action) is Accept {
        let index = result_line(state, state.selection_index as int);
        assert(0 <= index < state.lines.len());
        assert(state.lines.contains(state.lines[index]));
    }
}

/// What changes what shows changes its version; what changes the query changes the
/// version of the query too.
pub proof fn law_changes_change_versions(state: StateView, action: Action, reverse: bool)
    ensures
        after(state, action, reverse) != state ==> after(state, action, reverse).ui_version
            != state.ui_version,
        after(state, action, reverse).query != state.query ==> after(
            state,
            action,
            reverse,
        ).query_version != state.query_version,
        settled(state) != state ==> settled(state).ui_version != state.ui_version,
{
}

/// What a search found for a query that has changed since is dropped.
pub proof fn law_stale_matches_are_dropped(
    state: StateView,
    query: Seq<char>,
    lines: Seq<Seq<char>>,
    matches: Seq<MatchView>,
)
    ensures
        with_matches(with_query(state, query), state.query_version, matches) == with_query(
            state,
            query,
        ),
        state.query.len() > 0 ==> with_matches(
            with_lines(state, lines),
            state.query_version,
            matches,
        ) == with_lines(state, lines),
{
}

/// Without a query every line is a result, in its order; with one, each match stands for
/// the line that it names.
pub proof fn law_results_are_the_lines_or_the_matches(state: StateView, k: int)
    ensures
        state.query.len() == 0 ==> result_count(state) == state.lines.len() && result_line(state, k)
            == k,
        state.query.len() > 0 ==> result_count(state) == state.matches.len() && result_line(
            state,
            k,
        ) == state.matches[k].index,
{
}

/// To accept gives out the selected line, where the selection is one of the results, and
/// else nothing comes of it.
pub proof fn law_accept_gives_the_selected_line(state: StateView)
    ensures
        ({
            let sel = state.selection_index as int;
            let outcome = outcome_of(state, Action::Accept);
            &&& state.query.len() == 0 && sel < state.lines.len() ==> outcome
                == OutcomeView::Accept(state.lines[sel])
            &&& state.query.len() == 0 && sel >= state.lines.len() ==> outcome
                == OutcomeView::Continue
            &&& state.query.len() > 0 && sel < state.matches.len() ==> outcome
                == OutcomeView::Accept(state.lines[state.matches[sel].index as int])
            &&& state.query.len() > 0 && sel >= state.matches.len() ==> outcome
                == OutcomeView::Continue
        }),
{
}

/// Every action but to cancel and to accept goes on, whatever the state.
pub proof fn law_other_actions_go_on(state: StateView, action: Action)
    requires
        action != Action::Cancel,
        action != Action::Accept,
    ensures
        outcome_of(state, action) == OutcomeView::Continue,
{
}

/// What a search found for the query as it is takes the place of what was found before, the
/// first match is selected, and to accept then gives out the line that it names. Lines,
/// query and its version stay. What was found for another version changes nothing.
pub proof fn law_first_match_is_selected(
    state: StateView,
    version: usize,
    matches: Seq<MatchView>,
)
    ensures
        ({
            let s = with_matches(state, version, matches);
            &&& state.query_version != version ==> s == state
            &&& state.query_version == version ==> {
                &&& s.matches == matches
                &&& s.selection_index == 0
                &&& s.lines == state.lines
                &&& s.query == state.query
                &&& s.query_version == state.query_version
                &&& s.ui_version != state.ui_version
                &&& state.query.len() > 0 && matches.len() > 0 ==> outcome_of(s, Action::Accept)
                    == OutcomeView::Accept(state.lines[matches[0].index as int])
            }
        }),
{
}

/// New lines come behind those that are there. Query, matches and selection stay; what
/// shows changes, and a search is called for exactly where there is a query.
pub proof fn law_new_lines_come_last(state: StateView, lines: Seq<Seq<char>>)
    ensures
        ({
            let s = with_lines(state, lines);
            &&& s.lines == state.lines + lines
            &&& s.query == state.query
            &&& s.matches == state.matches
            &&& s.selection_index == state.selection_index
            &&& s.ui_version != state.ui_version
            &&& s.query_version != state.query_version <==> state.query.len() > 0
        }),
{
}

/// A selection that is one of the results stays, and so does the whole state then, and
/// where there are no results. Else the last result is selected, and nothing changes beside.
pub proof fn law_settling_moves_the_selection_only(state: StateView)
    requires
        result_count(state) <= usize::MAX,
    ensures
        state.selection_index < result_count(state) || result_count(state) == 0 ==> settled(state)
            == state,
        result_count(state) > 0 && state.selection_index >= result_count(state) ==> {
            &&& settled(state).selection_index == result_count(state) - 1
            &&& settled(state) == (StateView {
                selection_index: settled(state).selection_index,
                ui_version: settled(state).ui_version,
                ..state
            })
        },
{
}

/// Where the results go up the screen, up selects the next one and down the one before,
/// unless there is none there; nothing changes beside.
pub proof fn law_moves_go_by_one(state: StateView)
    requires
        result_count(state) <= usize::MAX,
    ensures
        ({
            let up = after(state, Action::Up, false);
            let down = after(state, Action::Down, false);
            &&& state.selection_index + 1 < result_count(state) ==> up.selection_index
                == state.selection_index + 1
            &&& state.selection_index + 1 >= result_count(state) ==> up == state
            &&& state.selection_index > 0 ==> down.selection_index == state.selection_index - 1
            &&& state.selection_index == 0 ==> down == state
            &&& up == (StateView {
                selection_index: up.selection_index,
                ui_version: up.ui_version,
                ..state
            })
            &&& down == (StateView {
                selection_index: down.selection_index,
                ui_version: down.ui_version,
                ..state
            })
        }),
{
}

/// To cancel, to accept and to do nothing leave the state as it is.
pub proof fn law_leaving_changes_nothing(state: StateView, reverse: bool)
    ensures
        after(state, Action::Cancel, reverse) == state,
        after(state, Action::Accept, reverse) == state,
        after(state, Action::Ignore, reverse) == state,
{
}

/// Typing puts the character at the end of the query, and deleting takes the last one off,
/// where there is one.
pub proof fn law_typing_goes_on_at_the_end(state: StateView, c: char, reverse: bool)
    ensures
        after(state, Action::Insert(c), reverse).query == state.query + seq![c],
        after(state, Action::DeleteChar, reverse).query == if state.query.len() > 0 {
            state.query.take(state.query.len() - 1)
        } else {
            seq![]
        },
        after(state, Action::DeleteSegment, reverse).query == without_segment(state.query),
{
    assert(state.query.push(c) =~= state.query + seq![c]);
    if state.query.len() > 0 {
        assert(state.query.drop_last() =~= state.query.take(state.query.len() - 1));
    } else {
        assert(state.query =~= seq![]);
    }
}

/// A change of the query changes both versions, and leaves the lines, the matches and the
/// selection as they are, until a search has ended.
pub proof fn law_typing_leaves_the_results(
    state: StateView,
    action: Action,
    reverse: bool,
)
    requires
        action is Insert || action is DeleteChar || action is DeleteSegment,
    ensures
        ({
            let s = after(state, action, reverse);
            &&& s.lines == state.lines
            &&& s.matches == state.matches
            &&& s.selection_index == state.selection_index
            &&& s.query_version != state.query_version
            &&& s.ui_version != state.ui_version
        }),
{
}

/// Deleting a segment takes the slashes and blanks at the end of the query, and then the
/// characters before them up to the next slash or blank.
pub proof fn law_segment_before_the_end_goes(
    head: Seq<char>,
    segment: Seq<char>,
    end: Seq<char>,
)
    requires
        head.len() > 0 ==> head.last() == '/' || head.last() == ' ',
        segment.len() > 0,
        forall|k: int|
            0 <= k < segment.len() ==> #[trigger] segment[k] != '/' && segment[k] != ' ',
        forall|k: int| 0 <= k < end.len() ==> #[trigger] end[k] == '/' || end[k] == ' ',
    ensures
        without_segment(head + segment + end) == head,
    decreases end.len(),
{
    let cut = delimiters();
    if end.len() == 0 {
        assert(head + segment + end =~= head + segment);
        law_delete_segment_undoes_typing(head, segment);
    } else {
        let front = end.drop_last();
        let whole = head + segment + end;
        assert(whole.last() == end[end.len() - 1]);
        assert(whole.drop_last() =~= head + segment + front);
        assert forall|k: int| 0 <= k < front.len() implies #[trigger] front[k] == '/' || front[k]
            == ' ' by {
            assert(front[k] == end[k]);
        }
        law_segment_before_the_end_goes(head, segment, front);
    }
}

/// Of a query of slashes and blanks nothing is left.
pub proof fn law_delimiters_alone_go(query: Seq<char>)
    requires
        forall|k: int| 0 <= k < query.len() ==> #[trigger] query[k] == '/' || query[k] == ' ',
    ensures
        without_segment(query) == Seq::<char>::empty(),
    decreases query.len(),
{
    if query.len() > 0 {
        let front = query.drop_last();
        assert(query.last() == query[query.len() - 1]);
        assert forall|k: int| 0 <= k < front.len() implies #[trigger] front[k] == '/' || front[k]
            == ' ' by {
            assert(front[k] == query[k]);
        }
        law_delimiters_alone_go(front);
    } else {
        assert(without_segment(query) =~= Seq::<char>::empty());
    }
}

} // verus!
