//! The picture on the screen: a prompt, a count, a header and the results.
use vstd::prelude::*;
use vstd::utf8::{encode_scalar, encode_utf8};

use crate::args::{optional_text, AppConfig};
use crate::draw::{
    blank, cell, drawn, inked, lemma_drawn_push, lemma_drawn_sum, lemma_sum, line_breaks, op_views,
    printed, put, put_text, with_cells, Cell, Color, DrawOp, DrawOpView, Drawing,
};
use crate::find::{contains, is_in};
use crate::matching::{match_views, tail, tail_of, MatchIndices};
use crate::query::{query_terms, terms_of};
use crate::state::{result_count, result_line, State, StateView};
use crate::text::{char_width, chars_of, decimal, lowercase, push_decimal, texts};

verus! {

/// How many results show at most where no height is asked for.
pub const DEFAULT_ROWS: usize = 15;

/// How wide the count is with the dashes behind it.
pub const INFO_WIDTH: usize = 30;

/// How many results can show: as many as are asked for, else what the terminal has less
/// two rows, up to the default. `asked` is the height asked for, in rows.
pub open spec fn row_limit(term_height: u16, asked: Option<usize>) -> nat {
    match asked {
        Some(rows) => rows as nat,
        None => if term_height < 2 {
            0
        } else if term_height - 2 > DEFAULT_ROWS {
            DEFAULT_ROWS as nat
        } else {
            (term_height - 2) as nat
        },
    }
}

/// How many results show.
pub open spec fn rows_shown(total: nat, limit: nat) -> nat {
    if total < limit {
        total
    } else {
        limit
    }
}

/// The first result that shows: such that the selected one is the last, or the first of
/// all.
pub open spec fn window_start(selection: nat, shown: nat) -> nat {
    if selection >= shown {
        (selection - shown + 1) as nat
    } else {
        0
    }
}

/// The result behind the last one that shows.
pub open spec fn window_end(selection: nat, shown: nat, total: nat) -> nat {
    if window_start(selection, shown) + shown < total {
        window_start(selection, shown) + shown
    } else {
        total
    }
}

/// A term stands in the last segment, or there are no terms.
pub open spec fn names_a_term(lower: Seq<char>, terms: Seq<Seq<char>>) -> bool {
    terms.len() == 0 || exists|t: int|
        0 <= t < terms.len() && contains(
            tail(encode_utf8(lower)),
            #[trigger] encode_utf8(terms[t]),
        )
}

/// The colour of a result: white where it is selected, and faint where no term stands in
/// its last segment.
pub open spec fn base_color(selected: bool, named: bool) -> Color {
    if selected {
        Color::Rgb { r: 255, g: 255, b: 255 }
    } else if named {
        Color::Rgb { r: 209, g: 209, b: 209 }
    } else {
        Color::Rgb { r: 107, g: 107, b: 107 }
    }
}

/// A character, in red where it is highlighted.
pub open spec fn char_ops(c: char, highlighted: bool, color: Color) -> Seq<DrawOpView> {
    if highlighted {
        seq![
            DrawOpView::SetForeground(Color::Red),
            DrawOpView::PrintChar(c),
            DrawOpView::SetForeground(color),
        ]
    } else {
        seq![DrawOpView::PrintChar(c)]
    }
}

/// The characters of a line, those that start at an offset of `indices` highlighted. The first
/// one starts at offset `at`.
pub open spec fn text_ops(
    line: Seq<char>,
    at: nat,
    indices: Seq<usize>,
    color: Color,
) -> Seq<DrawOpView>
    decreases line.len(),
{
    if line.len() == 0 {
        seq![]
    } else {
        char_ops(line[0], indices.contains(at as usize), color) + text_ops(
            line.drop_first(),
            at + encode_scalar(line[0] as u32).len(),
            indices,
            color,
        )
    }
}

/// What stands before a result.
pub open spec fn marker_ops(selected: bool, color: Color) -> Seq<DrawOpView> {
    if selected {
        seq![DrawOpView::SetForeground(color), DrawOpView::SetBold, DrawOpView::Print("> "@)]
    } else {
        seq![DrawOpView::SetForeground(color), DrawOpView::Print("  "@)]
    }
}

/// A result.
pub open spec fn row_ops(
    line: Seq<char>,
    indices: Seq<usize>,
    selected: bool,
    named: bool,
) -> Seq<DrawOpView> {
    let color = base_color(selected, named);
    marker_ops(selected, color) + text_ops(line, 0, indices, color) + seq![
        DrawOpView::NewLine,
        DrawOpView::ResetAttributes,
        DrawOpView::ResetColor,
    ]
}

/// Result `k`.
pub open spec fn result_ops(state: StateView, k: int) -> Seq<DrawOpView> {
    let line = state.lines[result_line(state, k)];
    row_ops(
        line,
        if state.query.len() == 0 {
            seq![]
        } else {
            state.matches[k].indices
        },
        k == state.selection_index,
        names_a_term(lowercase(line), terms_of(state.query)),
    )
}

/// The results from `start` on, up to `end`, downwards.
pub open spec fn results_down(state: StateView, start: nat, end: nat) -> Seq<DrawOpView>
    decreases end,
{
    if start >= end {
        seq![]
    } else {
        results_down(state, start, (end - 1) as nat) + result_ops(state, end - 1)
    }
}

/// The results from `start` on, up to `end`, upwards.
pub open spec fn results_up(state: StateView, start: nat, end: nat) -> Seq<DrawOpView>
    decreases end,
{
    if start >= end {
        seq![]
    } else {
        result_ops(state, end - 1) + results_up(state, start, (end - 1) as nat)
    }
}

/// The number of results and that of all lines.
pub open spec fn count_text(total: nat, lines: nat) -> Seq<char> {
    decimal(total).push('/') + decimal(lines)
}

/// The dashes behind the count.
pub open spec fn dashes(count: Seq<char>) -> Seq<char> {
    Seq::new(
        if count.len() < INFO_WIDTH {
            (INFO_WIDTH - count.len()) as nat
        } else {
            0
        },
        |k: int| '\u{2500}',
    )
}

/// The count and the dashes.
pub open spec fn info_ops(total: nat, lines: nat) -> Seq<DrawOpView> {
    let count = count_text(total, lines);
    seq![
        DrawOpView::Print("  "@),
        DrawOpView::SetForeground(Color::White),
        DrawOpView::Print(count),
        DrawOpView::SetForeground(Color::DarkGrey),
        DrawOpView::Print(" "@),
        DrawOpView::Print(dashes(count)),
        DrawOpView::NewLine,
        DrawOpView::ResetColor,
    ]
}

/// The header.
pub open spec fn header_ops(header: Option<Seq<char>>) -> Seq<DrawOpView> {
    match header {
        Some(text) => seq![
            DrawOpView::SetForeground(Color::Cyan),
            DrawOpView::Print("  "@),
            DrawOpView::Print(text),
            DrawOpView::NewLine,
            DrawOpView::ResetColor,
        ],
        None => seq![],
    }
}

/// The query behind its prompt.
pub open spec fn prompt_ops(query: Seq<char>) -> Seq<DrawOpView> {
    seq![DrawOpView::Print("> "@), DrawOpView::Print(query)]
}

/// Takes a picture away whose cursor is `height` rows below its top.
pub open spec fn clear_ops(height: usize) -> Seq<DrawOpView> {
    if height > 0 {
        seq![
            DrawOpView::MoveToColumn(0),
            DrawOpView::MoveUp(height as u16),
            DrawOpView::ClearFromCursorDown,
        ]
    } else {
        seq![DrawOpView::MoveToColumn(0), DrawOpView::ClearFromCursorDown]
    }
}

/// The picture of a state: from the prompt down to the results, or from the results down
/// to the prompt.
pub open spec fn picture_ops(
    state: StateView,
    limit: nat,
    header: Option<Seq<char>>,
    reverse: bool,
) -> Seq<DrawOpView> {
    let total = result_count(state);
    let shown = rows_shown(total, limit);
    let start = window_start(state.selection_index as nat, shown);
    let end = window_end(state.selection_index as nat, shown, total);
    if reverse {
        prompt_ops(state.query).push(DrawOpView::NewLine) + info_ops(total, state.lines.len())
            + header_ops(header) + results_down(state, start, end)
    } else {
        results_up(state, start, end) + header_ops(header) + info_ops(total, state.lines.len())
            + prompt_ops(state.query)
    }
}

/// How far below the top of the picture the cursor is taken to be.
pub open spec fn picture_height(
    state: StateView,
    limit: nat,
    header: Option<Seq<char>>,
    reverse: bool,
) -> nat {
    let span = rows_shown(result_count(state), limit) + 2 + if header is Some {
        1nat
    } else {
        0nat
    };
    if reverse {
        span
    } else {
        (span - 1) as nat
    }
}

/// How many results can show.
pub fn max_display(term_height: u16, asked: Option<usize>) -> (limit: usize)
    ensures
        limit == row_limit(term_height, asked),
{
    match asked {
        Some(rows) => rows,
        None => {
            let free: usize = (term_height as usize).saturating_sub(2);
            if free > DEFAULT_ROWS {
                DEFAULT_ROWS
            } else {
                free
            }
        },
    }
}

/// Whether a term stands in the last segment. `lower` is the line in lower case.
pub fn has_basename_term(lower: &str, terms: &Vec<String>) -> (yes: bool)
    ensures
        yes == names_a_term(lower@, texts(terms@)),
{
    let ghost all = texts(terms@);
    if terms.len() == 0 {
        return true;
    }
    let segment: &[u8] = tail_of(lower.as_bytes());
    let mut t: usize = 0;
    while t < terms.len()
        invariant
            all == texts(terms@),
            t <= terms@.len(),
            segment@ == tail(encode_utf8(lower@)),
            forall|k: int|
                0 <= k < t ==> !contains(
                    tail(encode_utf8(lower@)),
                    #[trigger] encode_utf8(all[k]),
                ),
        decreases terms@.len() - t,
    {
        let term: &[u8] = terms[t].as_str().as_bytes();
        assert(term@ == encode_utf8(all[t as int]));
        if is_in(segment, term) {
            return true;
        }
        t += 1;
    }
    false
}

/// Whether `at` is one of the offsets.
fn holds(indices: &Vec<usize>, at: usize) -> (yes: bool)
    ensures
        yes == indices@.contains(at),
{
    let mut k: usize = 0;
    while k < indices.len()
        invariant
            k <= indices@.len(),
            forall|j: int| 0 <= j < k ==> indices@[j] != at,
        decreases indices@.len() - k,
    {
        if indices[k] == at {
            return true;
        }
        k += 1;
    }
    false
}

/// Appends a character.
fn put_char(ops: &mut Vec<DrawOp>, c: char, highlighted: bool, color: Color)
    ensures
        op_views(final(ops)@) == op_views(old(ops)@) + char_ops(c, highlighted, color),
{
    if highlighted {
        put(ops, DrawOp::SetForeground(Color::Red));
        put(ops, DrawOp::PrintChar(c));
        put(ops, DrawOp::SetForeground(color));
    } else {
        put(ops, DrawOp::PrintChar(c));
    }
    assert(op_views(ops@) =~= op_views(old(ops)@) + char_ops(c, highlighted, color));
}

/// Appends the characters of a line.
fn put_line(ops: &mut Vec<DrawOp>, line: &str, indices: &Vec<usize>, color: Color)
    ensures
        op_views(final(ops)@) == op_views(old(ops)@) + text_ops(line@, 0, indices@, color),
{
    let chars: Vec<char> = chars_of(line);
    let size: usize = line.as_bytes().len();
    let ghost before = op_views(ops@);
    let mut at: usize = 0;
    let mut k: usize = 0;
    assert(chars@.skip(0) =~= line@);
    assert(op_views(ops@) + text_ops(line@, 0, indices@, color) =~= before + text_ops(
        line@,
        0,
        indices@,
        color,
    ));
    while k < chars.len()
        invariant
            chars@ == line@,
            k <= chars@.len(),
            at + encode_utf8(chars@.skip(k as int)).len() == size,
            op_views(ops@) + text_ops(chars@.skip(k as int), at as nat, indices@, color) == before
                + text_ops(line@, 0, indices@, color),
        decreases chars@.len() - k,
    {
        let c: char = chars[k];
        let ghost rest = chars@.skip(k as int);
        let ghost had = op_views(ops@);
        let width: usize = char_width(c);
        proof {
            assert(rest[0] == c);
            assert(rest.drop_first() =~= chars@.skip(k + 1));
        }
        put_char(ops, c, holds(indices, at), color);
        proof {
            let first = char_ops(c, indices@.contains(at), color);
            let next = text_ops(chars@.skip(k + 1), (at + width) as nat, indices@, color);
            assert(text_ops(rest, at as nat, indices@, color) == first + next);
            assert(had + (first + next) =~= (had + first) + next);
        }
        at += width;
        k += 1;
    }
    assert(op_views(ops@) + text_ops(chars@.skip(k as int), at as nat, indices@, color)
        =~= op_views(ops@));
}

/// Appends a result.
fn put_row(ops: &mut Vec<DrawOp>, line: &str, indices: &Vec<usize>, selected: bool, named: bool)
    ensures
        op_views(final(ops)@) == op_views(old(ops)@) + row_ops(line@, indices@, selected, named),
{
    let color: Color = if selected {
        Color::Rgb { r: 255, g: 255, b: 255 }
    } else if !named {
        Color::Rgb { r: 107, g: 107, b: 107 }
    } else {
        Color::Rgb { r: 209, g: 209, b: 209 }
    };
    put(ops, DrawOp::SetForeground(color));
    if selected {
        put(ops, DrawOp::SetBold);
        put_text(ops, "> ");
    } else {
        put_text(ops, "  ");
    }
    put_line(ops, line, indices, color);
    put(ops, DrawOp::NewLine);
    put(ops, DrawOp::ResetAttributes);
    put(ops, DrawOp::ResetColor);
    assert(op_views(ops@) =~= op_views(old(ops)@) + row_ops(line@, indices@, selected, named));
}

/// Appends result `k`.
fn put_result(ops: &mut Vec<DrawOp>, state: &State, terms: &Vec<String>, k: usize)
    requires
        state.inv(),
        k < result_count(state@),
        texts(terms@) == terms_of(state@.query),
    ensures
        op_views(final(ops)@) == op_views(old(ops)@) + result_ops(state@, k as int),
{
    let line: &str = state.lines().get(state.line_of_result(k));
    let selected: bool = k == state.selection_index();
    let lower: String = line.to_lowercase();
    let named: bool = has_basename_term(lower.as_str(), terms);
    if state.query().is_empty() {
        let none: Vec<usize> = Vec::new();
        put_row(ops, line, &none, selected, named);
    } else {
        let matches: &Vec<MatchIndices> = state.matches();
        assert(match_views(matches@)[k as int] == matches@[k as int]@);
        put_row(ops, line, &matches[k].indices, selected, named);
    }
}

/// Appends the count and the dashes.
fn put_info(ops: &mut Vec<DrawOp>, total: usize, lines: usize)
    ensures
        op_views(final(ops)@) == op_views(old(ops)@) + info_ops(total as nat, lines as nat),
{
    let mut count: String = String::new();
    push_decimal(&mut count, total);
    count.push('/');
    push_decimal(&mut count, lines);
    assert(count@ =~= count_text(total as nat, lines as nat));
    let dash_count: usize = INFO_WIDTH.saturating_sub(count.as_str().unicode_len());
    let mut line: String = String::new();
    let mut k: usize = 0;
    while k < dash_count
        invariant
            k <= dash_count,
            line@ == Seq::new(k as nat, |k: int| '\u{2500}'),
        decreases dash_count - k,
    {
        line.push('\u{2500}');
        k += 1;
        assert(line@ =~= Seq::new(k as nat, |k: int| '\u{2500}'));
    }
    assert(line@ =~= dashes(count@));
    put_text(ops, "  ");
    put(ops, DrawOp::SetForeground(Color::White));
    put_text(ops, count.as_str());
    put(ops, DrawOp::SetForeground(Color::DarkGrey));
    put_text(ops, " ");
    put_text(ops, line.as_str());
    put(ops, DrawOp::NewLine);
    put(ops, DrawOp::ResetColor);
    assert(op_views(ops@) =~= op_views(old(ops)@) + info_ops(total as nat, lines as nat));
}

/// Appends the header.
fn put_header(ops: &mut Vec<DrawOp>, header: &Option<String>)
    ensures
        op_views(final(ops)@) == op_views(old(ops)@) + header_ops(optional_text(*header)),
{
    if let Some(text) = header {
        put(ops, DrawOp::SetForeground(Color::Cyan));
        put_text(ops, "  ");
        put_text(ops, text.as_str());
        put(ops, DrawOp::NewLine);
        put(ops, DrawOp::ResetColor);
    }
    assert(op_views(ops@) =~= op_views(old(ops)@) + header_ops(optional_text(*header)));
}

/// Appends the query behind its prompt.
fn put_prompt(ops: &mut Vec<DrawOp>, query: &str)
    ensures
        op_views(final(ops)@) == op_views(old(ops)@) + prompt_ops(query@),
{
    put_text(ops, "> ");
    put_text(ops, query);
    assert(op_views(ops@) =~= op_views(old(ops)@) + prompt_ops(query@));
}

/// What takes a picture away whose cursor is `height` rows below its top.
fn clear(height: usize) -> (ops: Vec<DrawOp>)
    ensures
        op_views(ops@) == clear_ops(height),
{
    let mut ops: Vec<DrawOp> = Vec::new();
    put(&mut ops, DrawOp::MoveToColumn(0));
    if height > 0 {
        put(&mut ops, DrawOp::MoveUp(height as u16));
    }
    put(&mut ops, DrawOp::ClearFromCursorDown);
    assert(op_views(ops@) =~= clear_ops(height));
    ops
}

/// Appends the results from `start` on, up to `end`, downwards.
fn put_results_down(
    ops: &mut Vec<DrawOp>,
    state: &State,
    terms: &Vec<String>,
    start: usize,
    end: usize,
)
    requires
        state.inv(),
        end <= result_count(state@),
        texts(terms@) == terms_of(state@.query),
    ensures
        op_views(final(ops)@) == op_views(old(ops)@) + results_down(
            state@,
            start as nat,
            end as nat,
        ),
{
    let ghost top = op_views(ops@);
    let mut k: usize = start;
    assert(top + results_down(state@, start as nat, k as nat) =~= top);
    while k < end
        invariant
            state.inv(),
            texts(terms@) == terms_of(state@.query),
            end <= result_count(state@),
            start <= k,
            k <= end || k == start,
            op_views(ops@) == top + results_down(state@, start as nat, k as nat),
        decreases end - k,
    {
        put_result(ops, state, terms, k);
        proof {
            let above = results_down(state@, start as nat, k as nat);
            let row = result_ops(state@, k as int);
            assert(results_down(state@, start as nat, (k + 1) as nat) == above + row);
            assert((top + above) + row =~= top + (above + row));
        }
        k += 1;
    }
}

/// Appends the results from `start` on, up to `end`, upwards.
fn put_results_up(
    ops: &mut Vec<DrawOp>,
    state: &State,
    terms: &Vec<String>,
    start: usize,
    end: usize,
)
    requires
        state.inv(),
        end <= result_count(state@),
        texts(terms@) == terms_of(state@.query),
    ensures
        op_views(final(ops)@) == op_views(old(ops)@) + results_up(
            state@,
            start as nat,
            end as nat,
        ),
{
    let ghost whole = op_views(ops@) + results_up(state@, start as nat, end as nat);
    let mut k: usize = end;
    while k > start
        invariant
            state.inv(),
            texts(terms@) == terms_of(state@.query),
            k <= end <= result_count(state@),
            op_views(ops@) + results_up(state@, start as nat, k as nat) == whole,
        decreases k,
    {
        let ghost had = op_views(ops@);
        k -= 1;
        put_result(ops, state, terms, k);
        proof {
            let below = results_up(state@, start as nat, k as nat);
            let row = result_ops(state@, k as int);
            assert(results_up(state@, start as nat, (k + 1) as nat) == row + below);
            assert((had + row) + below =~= had + (row + below));
        }
    }
    assert(op_views(ops@) + results_up(state@, start as nat, k as nat) =~= op_views(ops@));
}

/// Five runs of operations in a row.
proof fn lemma_five(
    a: Seq<DrawOpView>,
    b: Seq<DrawOpView>,
    c: Seq<DrawOpView>,
    d: Seq<DrawOpView>,
    e: Seq<DrawOpView>,
)
    ensures
        a + b + c + d + e == a + (b + c + d + e),
{
    assert(a + b + c + d + e =~= a + (b + c + d + e));
}

/// Draws a state in place of the picture before it, and says how far below the top of the
/// new picture the cursor then is. `asked` is the height asked for, in rows.
pub fn render(
    state: &State,
    term_height: u16,
    asked: Option<usize>,
    last_height: usize,
    config: &AppConfig,
) -> (drawn: (Vec<DrawOp>, usize))
    requires
        state.inv(),
    ensures
        op_views(drawn.0@) == clear_ops(last_height) + picture_ops(
            state@,
            row_limit(term_height, asked),
            optional_text(config.header),
            config.reverse,
        ),
        drawn.1 == picture_height(
            state@,
            row_limit(term_height, asked),
            optional_text(config.header),
            config.reverse,
        ),
{
    let limit: usize = max_display(term_height, asked);
    let total: usize = state.total_results();
    let shown: usize = if total < limit {
        total
    } else {
        limit
    };
    let lines: usize = state.lines().len();
    let selection: usize = state.selection_index();
    let start: usize = if selection >= shown {
        selection - shown + 1
    } else {
        0
    };
    let end: usize = if total < start || total - start < shown {
        total
    } else {
        start + shown
    };
    let terms: Vec<String> = query_terms(state.query());
    let header_lines: usize = if config.header.is_some() {
        1
    } else {
        0
    };
    let span: usize = shown + 2 + header_lines;
    let mut ops: Vec<DrawOp> = clear(last_height);
    let ghost cleared = clear_ops(last_height);
    let ghost info = info_ops(total as nat, lines as nat);
    let ghost header = header_ops(optional_text(config.header));
    let ghost prompt = prompt_ops(state@.query);
    if config.reverse {
        put_prompt(&mut ops, state.query());
        put(&mut ops, DrawOp::NewLine);
        let ghost line = prompt.push(DrawOpView::NewLine);
        assert(op_views(ops@) =~= cleared + line);
        put_info(&mut ops, total, lines);
        put_header(&mut ops, &config.header);
        put_results_down(&mut ops, state, &terms, start, end);
        proof {
            lemma_five(
                cleared,
                line,
                info,
                header,
                results_down(state@, start as nat, end as nat),
            );
        }
        (ops, span)
    } else {
        put_results_up(&mut ops, state, &terms, start, end);
        put_header(&mut ops, &config.header);
        put_info(&mut ops, total, lines);
        put_prompt(&mut ops, state.query());
        proof {
            lemma_five(
                cleared,
                results_up(state@, start as nat, end as nat),
                header,
                info,
                prompt,
            );
        }
        (ops, span - 1)
    }
}

/// Takes the last picture away and puts the terminal back as it was.
pub fn cleanup(last_height: usize) -> (ops: Vec<DrawOp>)
    ensures
        op_views(ops@) == clear_ops(last_height) + seq![
            DrawOpView::ShowCursor,
            DrawOpView::EnableLineWrap,
        ],
{
    let mut ops: Vec<DrawOp> = clear(last_height);
    put(&mut ops, DrawOp::ShowCursor);
    put(&mut ops, DrawOp::EnableLineWrap);
    assert(op_views(ops@) =~= clear_ops(last_height) + seq![
        DrawOpView::ShowCursor,
        DrawOpView::EnableLineWrap,
    ]);
    ops
}

/// What is on the screen.
pub struct Screen {
    last_rendered_height: usize,
    last_rendered_version: usize,
}

impl Screen {
    /// How far below the top of the picture the cursor is.
    pub closed spec fn height(&self) -> usize {
        self.last_rendered_height
    }

    /// The version of what shows.
    pub closed spec fn version(&self) -> usize {
        self.last_rendered_version
    }

    /// Nothing drawn yet.
    pub fn new() -> (screen: Screen)
        ensures
            screen.height() == 0,
            screen.version() == 0,
    {
        Screen { last_rendered_height: 0, last_rendered_version: 0 }
    }

    /// Whether another version is to be drawn.
    pub fn is_behind(&self, version: usize) -> (yes: bool)
        ensures
            yes == (version != self.version()),
    {
        version != self.last_rendered_version
    }

    /// Draws the state in place of the picture before it.
    pub fn draw(
        &mut self,
        state: &State,
        term_height: u16,
        asked: Option<usize>,
        config: &AppConfig,
    ) -> (ops: Vec<DrawOp>)
        requires
            state.inv(),
        ensures
            op_views(ops@) == clear_ops(old(self).height()) + picture_ops(
                state@,
                row_limit(term_height, asked),
                optional_text(config.header),
                config.reverse,
            ),
            final(self).height() == picture_height(
                state@,
                row_limit(term_height, asked),
                optional_text(config.header),
                config.reverse,
            ),
            final(self).version() == state@.ui_version,
    {
        let (ops, height) = render(
            state,
            term_height,
            asked,
            self.last_rendered_height,
            config,
        );
        self.last_rendered_height = height;
        self.last_rendered_version = state.ui_version();
        ops
    }

    /// Takes the picture away and puts the terminal back as it was.
    pub fn leave(&self) -> (ops: Vec<DrawOp>)
        ensures
            op_views(ops@) == clear_ops(self.height()) + seq![
                DrawOpView::ShowCursor,
                DrawOpView::EnableLineWrap,
            ],
    {
        cleanup(self.last_rendered_height)
    }
}

/// The characters of a line print the line, in one row.
proof fn lemma_text(line: Seq<char>, at: nat, indices: Seq<usize>, color: Color)
    ensures
        printed(text_ops(line, at, indices, color)) == line,
        line_breaks(text_ops(line, at, indices, color)) == 0,
    decreases line.len(),
{
    if line.len() > 0 {
        let first = char_ops(line[0], indices.contains(at as usize), color);
        let next_at = at + encode_scalar(line[0] as u32).len();
        lemma_text(line.drop_first(), next_at, indices, color);
        lemma_char(line[0], indices.contains(at as usize), color);
        lemma_sum(first, text_ops(line.drop_first(), next_at, indices, color));
        assert(seq![line[0]] + line.drop_first() =~= line);
    }
}

/// A character prints itself.
proof fn lemma_char(c: char, highlighted: bool, color: Color)
    ensures
        printed(char_ops(c, highlighted, color)) == seq![c],
        line_breaks(char_ops(c, highlighted, color)) == 0,
{
    reveal_with_fuel(printed, 4);
    reveal_with_fuel(line_breaks, 4);
    let ops = char_ops(c, highlighted, color);
    if highlighted {
        assert(ops.drop_last() =~= seq![
            DrawOpView::SetForeground(Color::Red),
            DrawOpView::PrintChar(c),
        ]);
        assert(ops.drop_last().drop_last() =~= seq![DrawOpView::SetForeground(Color::Red)]);
        assert(ops.drop_last().drop_last().drop_last() =~= seq![]);
    } else {
        assert(ops.drop_last() =~= seq![]);
    }
    assert(printed(ops) =~= seq![c]);
}

/// A result takes one row, and shows its line behind a marker.
pub proof fn law_row_shows_its_line(
    line: Seq<char>,
    indices: Seq<usize>,
    selected: bool,
    named: bool,
)
    ensures
        printed(row_ops(line, indices, selected, named)) == if selected {
            "> "@ + line
        } else {
            "  "@ + line
        },
        line_breaks(row_ops(line, indices, selected, named)) == 1,
{
    let color = base_color(selected, named);
    let marker = marker_ops(selected, color);
    let text = text_ops(line, 0, indices, color);
    let end = seq![DrawOpView::NewLine, DrawOpView::ResetAttributes, DrawOpView::ResetColor];
    lemma_text(line, 0, indices, color);
    assert(printed(marker) == (if selected {
        "> "@
    } else {
        "  "@
    }) && line_breaks(marker) == 0) by {
        reveal_with_fuel(printed, 4);
        reveal_with_fuel(line_breaks, 4);
        if selected {
            let two = marker.drop_last();
            assert(two =~= seq![DrawOpView::SetForeground(color), DrawOpView::SetBold]);
            assert(two.drop_last() =~= seq![DrawOpView::SetForeground(color)]);
            assert(two.drop_last().drop_last() =~= seq![]);
            assert(printed(marker) =~= "> "@);
        } else {
            assert(marker.drop_last() =~= seq![DrawOpView::SetForeground(color)]);
            assert(marker.drop_last().drop_last() =~= seq![]);
            assert(printed(marker) =~= "  "@);
        }
    }
    assert(printed(end) =~= seq![] && line_breaks(end) == 1) by {
        reveal_with_fuel(printed, 4);
        reveal_with_fuel(line_breaks, 4);
        assert(end.drop_last() =~= seq![DrawOpView::NewLine, DrawOpView::ResetAttributes]);
        assert(end.drop_last().drop_last() =~= seq![DrawOpView::NewLine]);
        assert(end.drop_last().drop_last().drop_last() =~= seq![]);
    }
    lemma_sum(marker, text);
    lemma_sum(marker + text, end);
    assert(printed(marker) + line + printed(end) =~= printed(marker) + line);
}

/// As many rows as results.
proof fn lemma_result_rows(state: StateView, start: nat, end: nat)
    requires
        start <= end,
    ensures
        line_breaks(results_down(state, start, end)) == end - start,
        line_breaks(results_up(state, start, end)) == end - start,
    decreases end,
{
    if start < end {
        let before = (end - 1) as nat;
        lemma_result_rows(state, start, before);
        let row = result_ops(state, end - 1);
        let line = state.lines[result_line(state, end - 1)];
        law_row_shows_its_line(
            line,
            if state.query.len() == 0 {
                seq![]
            } else {
                state.matches[end - 1].indices
            },
            end - 1 == state.selection_index,
            names_a_term(lowercase(line), terms_of(state.query)),
        );
        lemma_sum(results_down(state, start, before), row);
        lemma_sum(row, results_up(state, start, before));
    }
}

/// The rows of what is not a result.
proof fn lemma_other_rows(query: Seq<char>, total: nat, lines: nat, header: Option<Seq<char>>)
    ensures
        line_breaks(prompt_ops(query)) == 0,
        line_breaks(prompt_ops(query).push(DrawOpView::NewLine)) == 1,
        line_breaks(info_ops(total, lines)) == 1,
        line_breaks(header_ops(header)) == if header is Some {
            1nat
        } else {
            0nat
        },
{
    reveal_with_fuel(line_breaks, 9);
    let prompt = prompt_ops(query);
    assert(prompt.push(DrawOpView::NewLine).drop_last() =~= prompt);
    assert(prompt.drop_last().drop_last() =~= seq![]);
    let info = info_ops(total, lines);
    let six = info.drop_last().drop_last();
    assert(info.drop_last().last() is NewLine);
    assert(six.drop_last().drop_last().drop_last().drop_last().drop_last().drop_last() =~= seq![]);
    if header is Some {
        let ops = header_ops(header);
        assert(ops.drop_last().last() is NewLine);
        assert(ops.drop_last().drop_last().drop_last().drop_last().drop_last() =~= seq![]);
    }
}

/// The selected result shows, wherever anything can show, and no row is wasted: as many
/// results show as can.
pub proof fn law_selected_result_shows(selection: nat, limit: nat, total: nat)
    requires
        selection < total,
        limit > 0,
    ensures
        window_start(selection, rows_shown(total, limit)) <= selection < window_end(
            selection,
            rows_shown(total, limit),
            total,
        ) <= total,
        window_end(selection, rows_shown(total, limit), total) - window_start(
            selection,
            rows_shown(total, limit),
        ) == rows_shown(total, limit),
{
}

/// The height that is kept of a picture is the number of rows that the cursor goes down
/// in it, where the selected result is one of the results or there is none.
pub proof fn law_height_counts_the_rows(
    state: StateView,
    limit: nat,
    header: Option<Seq<char>>,
    reverse: bool,
)
    requires
        result_count(state) > 0 ==> state.selection_index < result_count(state),
    ensures
        line_breaks(picture_ops(state, limit, header, reverse)) == picture_height(
            state,
            limit,
            header,
            reverse,
        ),
{
    let total = result_count(state);
    let shown = rows_shown(total, limit);
    let start = window_start(state.selection_index as nat, shown);
    let end = window_end(state.selection_index as nat, shown, total);
    let info = info_ops(total, state.lines.len());
    lemma_other_rows(state.query, total, state.lines.len(), header);
    if start <= end {
        lemma_result_rows(state, start, end);
    } else {
        assert(results_down(state, start, end) =~= seq![]);
        assert(results_up(state, start, end) =~= seq![]);
    }
    if reverse {
        let line = prompt_ops(state.query).push(DrawOpView::NewLine);
        lemma_sum(line, info);
        lemma_sum(line + info, header_ops(header));
        lemma_sum(line + info + header_ops(header), results_down(state, start, end));
    } else {
        let results = results_up(state, start, end);
        lemma_sum(results, header_ops(header));
        lemma_sum(results + header_ops(header), info);
        lemma_sum(results + header_ops(header) + info, prompt_ops(state.query));
    }
}

/// The next picture starts where the one before it did: its clearing goes up as many rows
/// as that one went down.
pub proof fn law_pictures_do_not_stack(
    state: StateView,
    limit: nat,
    header: Option<Seq<char>>,
    reverse: bool,
    height: usize,
)
    requires
        result_count(state) > 0 ==> state.selection_index < result_count(state),
        height == picture_height(state, limit, header, reverse),
        height <= u16::MAX,
    ensures
        clear_ops(height).len() == 3,
        clear_ops(height)[0] == DrawOpView::MoveToColumn(0),
        clear_ops(height)[1] matches DrawOpView::MoveUp(rows) && rows == line_breaks(
            picture_ops(state, limit, header, reverse),
        ),
        clear_ops(height)[2] is ClearFromCursorDown,
{
    law_height_counts_the_rows(state, limit, header, reverse);
}

/// The count and the dashes are of one width, where the count is not wider than that.
pub proof fn law_info_is_of_one_width(total: nat, lines: nat)
    requires
        count_text(total, lines).len() <= INFO_WIDTH,
    ensures
        count_text(total, lines).len() + dashes(count_text(total, lines)).len() == INFO_WIDTH,
{
}

/// The cells of the prompt: `> ` and the query, plain.
pub open spec fn prompt_cells(query: Seq<char>) -> Seq<Cell> {
    inked("> "@ + query, None, false)
}

/// The cells of the count: two blanks, the number of results and that of all lines with a
/// slash between them in white, a blank and dashes up to a width of 30 in grey.
pub open spec fn info_cells(total: nat, lines: nat) -> Seq<Cell> {
    let count = decimal(total) + seq!['/'] + decimal(lines);
    let rest = if count.len() < 30 {
        (30 - count.len()) as nat
    } else {
        0
    };
    inked("  "@, None, false) + inked(count, Some(Color::White), false) + inked(
        " "@ + Seq::new(rest, |k: int| '\u{2500}'),
        Some(Color::DarkGrey),
        false,
    )
}

/// The row of the header, where there is one: two blanks and the header in cyan.
pub open spec fn header_rows(header: Option<Seq<char>>) -> Seq<Seq<Cell>> {
    match header {
        Some(text) => seq![inked("  "@ + text, Some(Color::Cyan), false)],
        None => seq![],
    }
}

/// The cells of a line, those red that start at an offset of `indices`. The first one
/// starts at offset `at`.
pub open spec fn line_cells(
    line: Seq<char>,
    at: nat,
    indices: Seq<usize>,
    color: Color,
    bold: bool,
) -> Seq<Cell> {
    line.map(
        |p: int, c: char|
            cell(
                c,
                if indices.contains((at + encode_utf8(line.take(p)).len()) as usize) {
                    Some(Color::Red)
                } else {
                    Some(color)
                },
                bold,
            ),
    )
}

/// The cells of result `k`: a marker and the line. The selected result is marked, white and
/// bold; another is grey, and dark where no term stands in its last segment.
pub open spec fn result_cells(state: StateView, k: int) -> Seq<Cell> {
    let selected = k == state.selection_index;
    let line = if state.query.len() == 0 {
        state.lines[k]
    } else {
        state.lines[state.matches[k].index as int]
    };
    let indices = if state.query.len() == 0 {
        seq![]
    } else {
        state.matches[k].indices
    };
    let shade: u8 = if selected {
        255
    } else if names_a_term(lowercase(line), terms_of(state.query)) {
        209
    } else {
        107
    };
    let color = Color::Rgb { r: shade, g: shade, b: shade };
    inked(
        if selected {
            "> "@
        } else {
            "  "@
        },
        Some(color),
        selected,
    ) + line_cells(line, 0, indices, color, selected)
}

/// The rows of `count` results from result `first` on, from the top down.
pub open spec fn rows_down(state: StateView, first: int, count: nat) -> Seq<Seq<Cell>> {
    Seq::new(count, |j: int| result_cells(state, first + j))
}

/// The rows of `count` results from result `first` on, from the bottom up.
pub open spec fn rows_up(state: StateView, first: int, count: nat) -> Seq<Seq<Cell>> {
    Seq::new(count, |j: int| result_cells(state, first + count - 1 - j))
}

/// A drawing that goes on in plain text at the beginning of a row.
spec fn at_row_start(drawing: Drawing) -> bool {
    &&& drawing.rows.len() > 0
    &&& drawing.rows.last() == Seq::<Cell>::empty()
    &&& drawing.color is None
    &&& !drawing.bold
}

/// A drawing with more rows above that of the cursor, which is empty.
spec fn with_rows(drawing: Drawing, rows: Seq<Seq<Cell>>) -> Drawing {
    Drawing { rows: drawing.rows.drop_last() + rows + seq![seq![]], ..drawing }
}

/// Cells are added one behind the other.
proof fn lemma_cells(drawing: Drawing, a: Seq<Cell>, b: Seq<Cell>)
    ensures
        with_cells(with_cells(drawing, a), b) == with_cells(drawing, a + b),
{
    let first = with_cells(drawing, a);
    assert(first.rows.drop_last() =~= drawing.rows.drop_last());
    assert(first.rows.last() + b =~= drawing.rows.last() + (a + b));
}

/// No operations, no change.
proof fn lemma_nothing_drawn(drawing: Drawing)
    ensures
        drawn(drawing, seq![]) == drawing,
{
}

/// The characters of a line are drawn one by one.
proof fn lemma_line_drawn(
    drawing: Drawing,
    line: Seq<char>,
    at: nat,
    indices: Seq<usize>,
    color: Color,
)
    requires
        drawing.rows.len() > 0,
        drawing.color == Some(color),
    ensures
        drawn(drawing, text_ops(line, at, indices, color)) == with_cells(
            drawing,
            line_cells(line, at, indices, color, drawing.bold),
        ),
    decreases line.len(),
{
    let cells = line_cells(line, at, indices, color, drawing.bold);
    if line.len() == 0 {
        assert(drawing.rows.last() + cells =~= drawing.rows.last());
        assert(drawing.rows.drop_last().push(drawing.rows.last()) =~= drawing.rows);
    } else {
        let marked = indices.contains(at as usize);
        let first = char_ops(line[0], marked, color);
        let width = encode_scalar(line[0] as u32).len();
        let rest = line.drop_first();
        let more = line_cells(rest, at + width, indices, color, drawing.bold);
        let look = if marked {
            Some(Color::Red)
        } else {
            Some(color)
        };
        let one = inked(seq![line[0]], look, drawing.bold);
        let next = with_cells(drawing, one);
        assert(drawn(drawing, first) == next) by {
            lemma_char_drawn(drawing, line[0], marked, color);
        }
        lemma_line_drawn(next, rest, at + width, indices, color);
        lemma_drawn_sum(drawing, first, text_ops(rest, at + width, indices, color));
        lemma_cells(drawing, one, more);
        assert(one + more =~= cells) by {
            assert(encode_utf8(line.take(0)) =~= seq![]);
            assert forall|p: int| 1 <= p < line.len() implies cells[p] == more[p - 1] by {
                let taken = line.take(p);
                assert(taken[0] == line[0]);
                assert(taken.drop_first() =~= rest.take(p - 1));
                assert(encode_utf8(taken).len() == width + encode_utf8(rest.take(p - 1)).len());
            }
        }
    }
}

/// A character is drawn in red where it is highlighted.
proof fn lemma_char_drawn(drawing: Drawing, c: char, highlighted: bool, color: Color)
    requires
        drawing.rows.len() > 0,
        drawing.color == Some(color),
    ensures
        drawn(drawing, char_ops(c, highlighted, color)) == with_cells(
            drawing,
            inked(
                seq![c],
                if highlighted {
                    Some(Color::Red)
                } else {
                    Some(color)
                },
                drawing.bold,
            ),
        ),
{
    let none = Seq::<DrawOpView>::empty();
    let red = DrawOpView::SetForeground(Color::Red);
    let print = DrawOpView::PrintChar(c);
    let back = DrawOpView::SetForeground(color);
    lemma_nothing_drawn(drawing);
    if highlighted {
        lemma_drawn_push(drawing, none, red);
        lemma_drawn_push(drawing, none.push(red), print);
        lemma_drawn_push(drawing, none.push(red).push(print), back);
        assert(char_ops(c, highlighted, color) =~= none.push(red).push(print).push(back));
    } else {
        lemma_drawn_push(drawing, none, print);
        assert(char_ops(c, highlighted, color) =~= none.push(print));
    }
}

/// A result is drawn in a row of its own.
proof fn lemma_result_drawn(drawing: Drawing, state: StateView, k: int)
    requires
        at_row_start(drawing),
    ensures
        drawn(drawing, result_ops(state, k)) == with_rows(
            drawing,
            seq![result_cells(state, k)],
        ),
        at_row_start(with_rows(drawing, seq![result_cells(state, k)])),
{
    let selected = k == state.selection_index;
    let line = state.lines[result_line(state, k)];
    let indices = if state.query.len() == 0 {
        seq![]
    } else {
        state.matches[k].indices
    };
    let color = base_color(selected, names_a_term(lowercase(line), terms_of(state.query)));
    let none = Seq::<DrawOpView>::empty();
    let marker = if selected {
        "> "@
    } else {
        "  "@
    };
    let set = DrawOpView::SetForeground(color);
    let print = DrawOpView::Print(marker);
    let before = inked(marker, Some(color), selected);
    let inside = Drawing { color: Some(color), bold: selected, ..drawing };
    lemma_nothing_drawn(drawing);
    lemma_drawn_push(drawing, none, set);
    assert(drawn(drawing, marker_ops(selected, color)) == with_cells(inside, before)) by {
        if selected {
            lemma_drawn_push(drawing, none.push(set), DrawOpView::SetBold);
            lemma_drawn_push(drawing, none.push(set).push(DrawOpView::SetBold), print);
            assert(marker_ops(selected, color) =~= none.push(set).push(DrawOpView::SetBold).push(
                print,
            ));
        } else {
            lemma_drawn_push(drawing, none.push(set), print);
            assert(marker_ops(selected, color) =~= none.push(set).push(print));
        }
    }
    let cells = line_cells(line, 0, indices, color, selected);
    let text = text_ops(line, 0, indices, color);
    lemma_line_drawn(with_cells(inside, before), line, 0, indices, color);
    lemma_cells(inside, before, cells);
    lemma_drawn_sum(drawing, marker_ops(selected, color), text);
    let ahead = marker_ops(selected, color) + text;
    let row = with_cells(inside, before + cells);
    let end = seq![DrawOpView::NewLine, DrawOpView::ResetAttributes, DrawOpView::ResetColor];
    lemma_drawn_sum(drawing, ahead, end);
    lemma_nothing_drawn(row);
    lemma_drawn_push(row, none, DrawOpView::NewLine);
    lemma_drawn_push(row, none.push(DrawOpView::NewLine), DrawOpView::ResetAttributes);
    lemma_drawn_push(
        row,
        none.push(DrawOpView::NewLine).push(DrawOpView::ResetAttributes),
        DrawOpView::ResetColor,
    );
    assert(end =~= none.push(DrawOpView::NewLine).push(DrawOpView::ResetAttributes).push(
        DrawOpView::ResetColor,
    ));
    assert(drawing.rows.last() + (before + cells) =~= before + cells);
    assert(before + cells == result_cells(state, k));
    assert(drawn(row, end).rows =~= with_rows(drawing, seq![result_cells(state, k)]).rows);
}

/// Rows are added one below the other.
proof fn lemma_rows(drawing: Drawing, a: Seq<Seq<Cell>>, b: Seq<Seq<Cell>>)
    ensures
        with_rows(with_rows(drawing, a), b) == with_rows(drawing, a + b),
{
    assert(with_rows(drawing, a).rows.drop_last() =~= drawing.rows.drop_last() + a);
    assert(with_rows(with_rows(drawing, a), b).rows =~= with_rows(drawing, a + b).rows);
}

/// Without rows there is no change at the beginning of a row.
proof fn lemma_no_rows(drawing: Drawing)
    requires
        at_row_start(drawing),
    ensures
        with_rows(drawing, seq![]) == drawing,
{
    assert(with_rows(drawing, seq![]).rows =~= drawing.rows);
}

/// The results are drawn in rows of their own.
proof fn lemma_results_drawn(drawing: Drawing, state: StateView, start: nat, end: nat)
    requires
        at_row_start(drawing),
        start <= end,
    ensures
        drawn(drawing, results_down(state, start, end)) == with_rows(
            drawing,
            rows_down(state, start as int, (end - start) as nat),
        ),
        drawn(drawing, results_up(state, start, end)) == with_rows(
            drawing,
            rows_up(state, start as int, (end - start) as nat),
        ),
    decreases end,
{
    let count = (end - start) as nat;
    lemma_no_rows(drawing);
    if start == end {
        assert(rows_down(state, start as int, count) =~= seq![]);
        assert(rows_up(state, start as int, count) =~= seq![]);
    } else {
        let less = (end - 1) as nat;
        let row = result_ops(state, end - 1);
        let cells = seq![result_cells(state, end - 1)];
        let above = rows_down(state, start as int, (count - 1) as nat);
        let below = rows_up(state, start as int, (count - 1) as nat);
        lemma_results_drawn(drawing, state, start, less);
        lemma_result_drawn(with_rows(drawing, above), state, end - 1);
        lemma_drawn_sum(drawing, results_down(state, start, less), row);
        lemma_rows(drawing, above, cells);
        assert(above + cells =~= rows_down(state, start as int, count));
        lemma_result_drawn(drawing, state, end - 1);
        lemma_results_drawn(with_rows(drawing, cells), state, start, less);
        lemma_drawn_sum(drawing, row, results_up(state, start, less));
        lemma_rows(drawing, cells, below);
        assert(cells + below =~= rows_up(state, start as int, count));
    }
}

/// The count is drawn in a row of its own.
proof fn lemma_info_drawn(drawing: Drawing, total: nat, lines: nat)
    requires
        at_row_start(drawing),
    ensures
        drawn(drawing, info_ops(total, lines)) == with_rows(
            drawing,
            seq![info_cells(total, lines)],
        ),
{
    let count = count_text(total, lines);
    let dash = dashes(count);
    let none = Seq::<DrawOpView>::empty();
    let one = none.push(DrawOpView::Print("  "@));
    let two = one.push(DrawOpView::SetForeground(Color::White));
    let three = two.push(DrawOpView::Print(count));
    let four = three.push(DrawOpView::SetForeground(Color::DarkGrey));
    let five = four.push(DrawOpView::Print(" "@));
    let six = five.push(DrawOpView::Print(dash));
    let seven = six.push(DrawOpView::NewLine);
    let a = inked("  "@, None, false);
    let b = inked(count, Some(Color::White), false);
    let c = inked(" "@, Some(Color::DarkGrey), false);
    let d = inked(dash, Some(Color::DarkGrey), false);
    let white = Drawing { color: Some(Color::White), ..drawing };
    let grey = Drawing { color: Some(Color::DarkGrey), ..drawing };
    lemma_nothing_drawn(drawing);
    lemma_drawn_push(drawing, none, DrawOpView::Print("  "@));
    lemma_drawn_push(drawing, one, DrawOpView::SetForeground(Color::White));
    assert(drawn(drawing, two) == with_cells(white, a));
    lemma_drawn_push(drawing, two, DrawOpView::Print(count));
    lemma_cells(white, a, b);
    lemma_drawn_push(drawing, three, DrawOpView::SetForeground(Color::DarkGrey));
    assert(drawn(drawing, four) == with_cells(grey, a + b));
    lemma_drawn_push(drawing, four, DrawOpView::Print(" "@));
    lemma_cells(grey, a + b, c);
    lemma_drawn_push(drawing, five, DrawOpView::Print(dash));
    lemma_cells(grey, a + b + c, d);
    lemma_drawn_push(drawing, six, DrawOpView::NewLine);
    lemma_drawn_push(drawing, seven, DrawOpView::ResetColor);
    assert(info_ops(total, lines) =~= seven.push(DrawOpView::ResetColor));
    assert(count =~= decimal(total) + seq!['/'] + decimal(lines));
    assert(a + b + c + d =~= info_cells(total, lines));
    assert(drawing.rows.last() + (a + b + c + d) =~= info_cells(total, lines));
    assert(drawn(drawing, info_ops(total, lines)).rows =~= with_rows(
        drawing,
        seq![info_cells(total, lines)],
    ).rows);
}

/// The header is drawn in a row of its own, where there is one.
proof fn lemma_header_drawn(drawing: Drawing, header: Option<Seq<char>>)
    requires
        at_row_start(drawing),
    ensures
        drawn(drawing, header_ops(header)) == with_rows(drawing, header_rows(header)),
{
    lemma_nothing_drawn(drawing);
    lemma_no_rows(drawing);
    if let Some(text) = header {
        let none = Seq::<DrawOpView>::empty();
        let one = none.push(DrawOpView::SetForeground(Color::Cyan));
        let two = one.push(DrawOpView::Print("  "@));
        let three = two.push(DrawOpView::Print(text));
        let four = three.push(DrawOpView::NewLine);
        let a = inked("  "@, Some(Color::Cyan), false);
        let b = inked(text, Some(Color::Cyan), false);
        let cyan = Drawing { color: Some(Color::Cyan), ..drawing };
        lemma_drawn_push(drawing, none, DrawOpView::SetForeground(Color::Cyan));
        lemma_drawn_push(drawing, one, DrawOpView::Print("  "@));
        assert(drawn(drawing, two) == with_cells(cyan, a));
        lemma_drawn_push(drawing, two, DrawOpView::Print(text));
        lemma_cells(cyan, a, b);
        lemma_drawn_push(drawing, three, DrawOpView::NewLine);
        lemma_drawn_push(drawing, four, DrawOpView::ResetColor);
        assert(header_ops(header) =~= four.push(DrawOpView::ResetColor));
        let cells = inked("  "@ + text, Some(Color::Cyan), false);
        assert(drawing.rows.last() + (a + b) =~= cells);
        assert(drawn(drawing, header_ops(header)).rows =~= with_rows(
            drawing,
            header_rows(header),
        ).rows);
    }
}

/// The prompt is drawn where the cursor is.
proof fn lemma_prompt_drawn(drawing: Drawing, query: Seq<char>)
    requires
        at_row_start(drawing),
    ensures
        drawn(drawing, prompt_ops(query)) == with_cells(drawing, prompt_cells(query)),
        drawn(drawing, prompt_ops(query).push(DrawOpView::NewLine)) == with_rows(
            drawing,
            seq![prompt_cells(query)],
        ),
{
    let none = Seq::<DrawOpView>::empty();
    let one = none.push(DrawOpView::Print("> "@));
    let a = inked("> "@, None, false);
    let b = inked(query, None, false);
    lemma_nothing_drawn(drawing);
    lemma_drawn_push(drawing, none, DrawOpView::Print("> "@));
    lemma_drawn_push(drawing, one, DrawOpView::Print(query));
    lemma_cells(drawing, a, b);
    assert(a + b =~= prompt_cells(query));
    assert(prompt_ops(query) =~= one.push(DrawOpView::Print(query)));
    lemma_drawn_push(drawing, prompt_ops(query), DrawOpView::NewLine);
    assert(drawing.rows.last() + prompt_cells(query) =~= prompt_cells(query));
    assert(drawn(drawing, prompt_ops(query).push(DrawOpView::NewLine)).rows =~= with_rows(
        drawing,
        seq![prompt_cells(query)],
    ).rows);
}

/// Where the results go down, the picture is, from the top: the prompt and the query; the
/// count; the header, where there is one; the results from the first that shows on; and an
/// empty row. As many results show as there are and as can; the last of them is the selected
/// one, or the first of them is the first of all.
pub proof fn law_picture_going_down(state: StateView, limit: nat, header: Option<Seq<char>>)
    ensures
        ({
            let total = if state.query.len() == 0 {
                state.lines.len()
            } else {
                state.matches.len()
            };
            let room = if total < limit {
                total
            } else {
                limit
            };
            let first = if state.selection_index < room {
                0
            } else {
                state.selection_index - room + 1
            };
            let count = if first >= total {
                0
            } else if first + room <= total {
                room
            } else {
                (total - first) as nat
            };
            let picture = drawn(blank(), picture_ops(state, limit, header, true));
            &&& picture.rows == seq![
                prompt_cells(state.query),
                info_cells(total, state.lines.len()),
            ] + header_rows(header) + rows_down(state, first, count) + seq![seq![]]
            &&& picture.color is None
            &&& !picture.bold
            &&& !picture.strayed
        }),
{
    let total = result_count(state);
    let shown = rows_shown(total, limit);
    let start = window_start(state.selection_index as nat, shown);
    let end = window_end(state.selection_index as nat, shown, total);
    let count = if start < end {
        (end - start) as nat
    } else {
        0
    };
    let prompt = prompt_ops(state.query).push(DrawOpView::NewLine);
    let info = info_ops(total, state.lines.len());
    let results = results_down(state, start, end);
    let a = seq![prompt_cells(state.query)];
    let b = seq![info_cells(total, state.lines.len())];
    let c = header_rows(header);
    let d = rows_down(state, start as int, count);
    let top = blank();
    lemma_prompt_drawn(top, state.query);
    lemma_drawn_sum(top, prompt, info);
    lemma_info_drawn(with_rows(top, a), total, state.lines.len());
    lemma_rows(top, a, b);
    lemma_drawn_sum(top, prompt + info, header_ops(header));
    lemma_header_drawn(with_rows(top, a + b), header);
    lemma_rows(top, a + b, c);
    lemma_drawn_sum(top, prompt + info + header_ops(header), results);
    let above = with_rows(top, a + b + c);
    if start < end {
        lemma_results_drawn(above, state, start, end);
    } else {
        assert(d =~= seq![]);
        lemma_no_rows(above);
    }
    lemma_rows(top, a + b + c, d);
    assert(with_rows(top, a + b + c + d).rows =~= seq![
        prompt_cells(state.query),
        info_cells(total, state.lines.len()),
    ] + c + d + seq![seq![]]);
}

/// Where the results go up, the picture is, from the top: the results down to the first
/// that shows; the header, where there is one; the count; and the prompt and the query.
pub proof fn law_picture_going_up(state: StateView, limit: nat, header: Option<Seq<char>>)
    ensures
        ({
            let total = if state.query.len() == 0 {
                state.lines.len()
            } else {
                state.matches.len()
            };
            let room = if total < limit {
                total
            } else {
                limit
            };
            let first = if state.selection_index < room {
                0
            } else {
                state.selection_index - room + 1
            };
            let count = if first >= total {
                0
            } else if first + room <= total {
                room
            } else {
                (total - first) as nat
            };
            let picture = drawn(blank(), picture_ops(state, limit, header, false));
            &&& picture.rows == rows_up(state, first, count) + header_rows(header) + seq![
                info_cells(total, state.lines.len()),
                prompt_cells(state.query),
            ]
            &&& picture.color is None
            &&& !picture.bold
            &&& !picture.strayed
        }),
{
    let total = result_count(state);
    let shown = rows_shown(total, limit);
    let start = window_start(state.selection_index as nat, shown);
    let end = window_end(state.selection_index as nat, shown, total);
    let count = if start < end {
        (end - start) as nat
    } else {
        0
    };
    let prompt = prompt_ops(state.query);
    let info = info_ops(total, state.lines.len());
    let results = results_up(state, start, end);
    let a = rows_up(state, start as int, count);
    let b = header_rows(header);
    let c = seq![info_cells(total, state.lines.len())];
    let top = blank();
    if start < end {
        lemma_results_drawn(top, state, start, end);
    } else {
        assert(a =~= seq![]);
        lemma_no_rows(top);
    }
    lemma_drawn_sum(top, results, header_ops(header));
    lemma_header_drawn(with_rows(top, a), header);
    lemma_rows(top, a, b);
    lemma_drawn_sum(top, results + header_ops(header), info);
    lemma_info_drawn(with_rows(top, a + b), total, state.lines.len());
    lemma_rows(top, a + b, c);
    lemma_drawn_sum(top, results + header_ops(header) + info, prompt);
    let above = with_rows(top, a + b + c);
    lemma_prompt_drawn(above, state.query);
    assert(above.rows.last() + prompt_cells(state.query) =~= prompt_cells(state.query));
    assert(with_cells(above, prompt_cells(state.query)).rows =~= a + b + seq![
        info_cells(total, state.lines.len()),
        prompt_cells(state.query),
    ]);
}

/// Where the results go up, what is printed behind the last line break is the prompt and
/// the query; where they go down, so is what is printed before the first one.
pub proof fn law_the_query_shows(state: StateView, limit: nat, header: Option<Seq<char>>)
    ensures
        exists|before: Seq<DrawOpView>, behind: Seq<DrawOpView>|
            picture_ops(state, limit, header, false) == #[trigger] (before + behind)
                && line_breaks(behind) == 0 && printed(behind) == "> "@ + state.query
                && line_breaks(before) == line_breaks(picture_ops(state, limit, header, false)),
        exists|before: Seq<DrawOpView>, behind: Seq<DrawOpView>|
            picture_ops(state, limit, header, true) == #[trigger] (before.push(DrawOpView::NewLine)
                + behind) && line_breaks(before) == 0 && printed(before) == "> "@ + state.query,
{
    let total = result_count(state);
    let shown = rows_shown(total, limit);
    let start = window_start(state.selection_index as nat, shown);
    let end = window_end(state.selection_index as nat, shown, total);
    let info = info_ops(total, state.lines.len());
    let prompt = prompt_ops(state.query);
    assert(printed(prompt) == "> "@ + state.query && line_breaks(prompt) == 0) by {
        reveal_with_fuel(printed, 3);
        reveal_with_fuel(line_breaks, 3);
        assert(prompt.drop_last() =~= seq![DrawOpView::Print("> "@)]);
        assert(prompt.drop_last().drop_last() =~= seq![]);
        assert(printed(prompt) =~= "> "@ + state.query);
    }
    let above = results_up(state, start, end) + header_ops(header) + info;
    lemma_sum(above, prompt);
    assert(picture_ops(state, limit, header, false) == above + prompt);
    let below = info + header_ops(header) + results_down(state, start, end);
    assert(picture_ops(state, limit, header, true) =~= prompt.push(DrawOpView::NewLine) + below);
}

/// Where no height is asked for, two rows of the terminal are left free and no more than 15
/// results show; else as many as are asked for.
pub proof fn law_room_for_results(term_height: u16, rows: usize)
    ensures
        row_limit(term_height, Some(rows)) == rows,
        term_height <= 2 ==> row_limit(term_height, None) == 0,
        2 <= term_height <= 17 ==> row_limit(term_height, None) == term_height - 2,
        term_height >= 17 ==> row_limit(term_height, None) == 15,
{
}

/// The height of a picture: a row for each result that shows, one for the count and one for
/// the header, and one more for the prompt where the cursor ends up below it.
pub proof fn law_height_of_a_picture(
    state: StateView,
    limit: nat,
    text: Seq<char>,
    header: Option<Seq<char>>,
    reverse: bool,
)
    ensures
        picture_height(state, limit, None, false) == 1 + if result_count(state) < limit {
            result_count(state)
        } else {
            limit
        },
        picture_height(state, limit, Some(text), reverse) == picture_height(
            state,
            limit,
            None,
            reverse,
        ) + 1,
        picture_height(state, limit, header, true) == picture_height(state, limit, header, false)
            + 1,
{
}

/// A picture is taken away by going to the beginning of its first row and clearing from
/// there on; where the cursor is in its first row, it goes no row up.
pub proof fn law_clearing_starts_at_the_top(height: usize)
    ensures
        clear_ops(height).first() == DrawOpView::MoveToColumn(0),
        clear_ops(height).last() == DrawOpView::ClearFromCursorDown,
        height == 0 ==> clear_ops(height).len() == 2,
        0 < height <= u16::MAX ==> clear_ops(height).len() == 3 && (clear_ops(
            height,
        )[1] matches DrawOpView::MoveUp(rows) && rows == height),
{
}

/// A line is bright where there are no terms, or where one of them at least stands in its
/// last segment.
pub proof fn law_bright_lines(
    lower: Seq<char>,
    term: Seq<char>,
    some: Seq<Seq<char>>,
    more: Seq<Seq<char>>,
)
    ensures
        names_a_term(lower, seq![]),
        names_a_term(lower, seq![term]) <==> contains(tail(encode_utf8(lower)), encode_utf8(term)),
        some.len() > 0 && more.len() > 0 ==> (names_a_term(lower, some + more) <==> names_a_term(
            lower,
            some,
        ) || names_a_term(lower, more)),
{
    let segment = tail(encode_utf8(lower));
    let one = seq![term];
    assert(one[0] == term);
    let all = some + more;
    if some.len() > 0 && more.len() > 0 {
        if names_a_term(lower, some) {
            let t = choose|t: int|
                0 <= t < some.len() && contains(segment, #[trigger] encode_utf8(some[t]));
            assert(contains(segment, encode_utf8(all[t])));
        }
        if names_a_term(lower, more) {
            let t = choose|t: int|
                0 <= t < more.len() && contains(segment, #[trigger] encode_utf8(more[t]));
            assert(all[some.len() + t] == more[t]);
            assert(contains(segment, encode_utf8(all[some.len() + t])));
        }
        if names_a_term(lower, all) {
            let t = choose|t: int|
                0 <= t < all.len() && contains(segment, #[trigger] encode_utf8(all[t]));
            if t < some.len() {
                assert(contains(segment, encode_utf8(some[t])));
            } else {
                assert(contains(segment, encode_utf8(more[t - some.len()])));
            }
        }
    }
}

} // verus!
