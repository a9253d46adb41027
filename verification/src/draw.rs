//! What can be done to the screen.
use vstd::prelude::*;

verus! {

/// A colour of text.
#[derive(Clone, Copy, Debug, PartialEq, Eq, Structural)]
pub enum Color {
    Rgb { r: u8, g: u8, b: u8 },
    White,
    DarkGrey,
    Cyan,
    Red,
}

/// One thing to do to the screen.
#[derive(Debug, PartialEq, Eq)]
pub enum DrawOp {
    /// Put the cursor in this column of its row.
    MoveToColumn(u16),
    /// Put the cursor so many rows up.
    MoveUp(u16),
    /// Clear everything from the cursor on.
    ClearFromCursorDown,
    SetForeground(Color),
    SetBold,
    ResetAttributes,
    ResetColor,
    ShowCursor,
    EnableLineWrap,
    Print(String),
    PrintChar(char),
    /// Go to the beginning of the next row.
    NewLine,
}

/// What a `DrawOp` says.
pub enum DrawOpView {
    MoveToColumn(u16),
    MoveUp(u16),
    ClearFromCursorDown,
    SetForeground(Color),
    SetBold,
    ResetAttributes,
    ResetColor,
    ShowCursor,
    EnableLineWrap,
    Print(Seq<char>),
    PrintChar(char),
    NewLine,
}

impl View for DrawOp {
    type V = DrawOpView;

    open spec fn view(&self) -> DrawOpView {
        match *self {
            DrawOp::MoveToColumn(column) => DrawOpView::MoveToColumn(column),
            DrawOp::MoveUp(rows) => DrawOpView::MoveUp(rows),
            DrawOp::ClearFromCursorDown => DrawOpView::ClearFromCursorDown,
            DrawOp::SetForeground(color) => DrawOpView::SetForeground(color),
            DrawOp::SetBold => DrawOpView::SetBold,
            DrawOp::ResetAttributes => DrawOpView::ResetAttributes,
            DrawOp::ResetColor => DrawOpView::ResetColor,
            DrawOp::ShowCursor => DrawOpView::ShowCursor,
            DrawOp::EnableLineWrap => DrawOpView::EnableLineWrap,
            DrawOp::Print(text) => DrawOpView::Print(text@),
            DrawOp::PrintChar(c) => DrawOpView::PrintChar(c),
            DrawOp::NewLine => DrawOpView::NewLine,
        }
    }
}

/// What the operations say.
pub open spec fn op_views(ops: Seq<DrawOp>) -> Seq<DrawOpView> {
    ops.map_values(|op: DrawOp| op@)
}

/// Appends an operation.
pub fn put(ops: &mut Vec<DrawOp>, op: DrawOp)
    ensures
        op_views(final(ops)@) == op_views(old(ops)@).push(op@),
{
    ops.push(op);
    assert(op_views(ops@) =~= op_views(old(ops)@).push(op@));
}

/// Appends the printing of a text.
pub fn put_text(ops: &mut Vec<DrawOp>, text: &str)
    ensures
        op_views(final(ops)@) == op_views(old(ops)@).push(DrawOpView::Print(text@)),
{
    put(ops, DrawOp::Print(text.to_owned()));
}

/// How many rows the cursor goes down.
pub open spec fn line_breaks(ops: Seq<DrawOpView>) -> nat
    decreases ops.len(),
{
    if ops.len() == 0 {
        0
    } else {
        line_breaks(ops.drop_last()) + if ops.last() is NewLine {
            1nat
        } else {
            0nat
        }
    }
}

/// The text that is printed within a row.
pub open spec fn printed(ops: Seq<DrawOpView>) -> Seq<char>
    decreases ops.len(),
{
    if ops.len() == 0 {
        seq![]
    } else {
        printed(ops.drop_last()) + match ops.last() {
            DrawOpView::Print(text) => text,
            DrawOpView::PrintChar(c) => seq![c],
            _ => seq![],
        }
    }
}

/// What two runs of operations do, their sum does.
pub proof fn lemma_sum(left: Seq<DrawOpView>, right: Seq<DrawOpView>)
    ensures
        line_breaks(left + right) == line_breaks(left) + line_breaks(right),
        printed(left + right) == printed(left) + printed(right),
    decreases right.len(),
{
    if right.len() == 0 {
        assert(left + right =~= left);
        assert(printed(left) + printed(right) =~= printed(left));
    } else {
        assert((left + right).drop_last() =~= left + right.drop_last());
        lemma_sum(left, right.drop_last());
        assert(printed(left + right) =~= printed(left) + printed(right));
    }
}

/// A character on the screen.
pub struct Cell {
    pub c: char,
    /// The colour, where it is not the plain one.
    pub color: Option<Color>,
    pub bold: bool,
}

/// What a picture comes to as it is drawn.
#[verifier::ext_equal]
pub struct Drawing {
    /// The rows from the top down to that of the cursor.
    pub rows: Seq<Seq<Cell>>,
    /// The colour in which it goes on.
    pub color: Option<Color>,
    /// Whether it goes on in bold.
    pub bold: bool,
    /// Whether anything else was done than to print, to break lines and to change the look
    /// of the text.
    pub strayed: bool,
}

/// An empty row, and the cursor at its beginning.
pub open spec fn blank() -> Drawing {
    Drawing { rows: seq![seq![]], color: None, bold: false, strayed: false }
}

/// The character in this look.
pub open spec fn cell(c: char, color: Option<Color>, bold: bool) -> Cell {
    Cell { c, color, bold }
}

/// A text in one look.
pub open spec fn inked(text: Seq<char>, color: Option<Color>, bold: bool) -> Seq<Cell> {
    text.map_values(|c: char| cell(c, color, bold))
}

/// More cells in the row of the cursor.
pub open spec fn with_cells(drawing: Drawing, cells: Seq<Cell>) -> Drawing {
    Drawing {
        rows: drawing.rows.drop_last().push(drawing.rows.last() + cells),
        ..drawing
    }
}

/// What an operation adds to a drawing.
pub open spec fn after_op(drawing: Drawing, op: DrawOpView) -> Drawing {
    match op {
        DrawOpView::Print(text) => with_cells(drawing, inked(text, drawing.color, drawing.bold)),
        DrawOpView::PrintChar(c) => with_cells(
            drawing,
            inked(seq![c], drawing.color, drawing.bold),
        ),
        DrawOpView::NewLine => Drawing { rows: drawing.rows.push(seq![]), ..drawing },
        DrawOpView::SetForeground(color) => Drawing { color: Some(color), ..drawing },
        DrawOpView::SetBold => Drawing { bold: true, ..drawing },
        DrawOpView::ResetAttributes => Drawing { color: None, bold: false, ..drawing },
        DrawOpView::ResetColor => Drawing { color: None, ..drawing },
        _ => Drawing { strayed: true, ..drawing },
    }
}

/// What the operations add to a drawing.
pub open spec fn drawn(drawing: Drawing, ops: Seq<DrawOpView>) -> Drawing
    decreases ops.len(),
{
    if ops.len() == 0 {
        drawing
    } else {
        after_op(drawn(drawing, ops.drop_last()), ops.last())
    }
}

/// Of two runs of operations, the second goes on where the first ends.
pub proof fn lemma_drawn_sum(drawing: Drawing, left: Seq<DrawOpView>, right: Seq<DrawOpView>)
    ensures
        drawn(drawing, left + right) == drawn(drawn(drawing, left), right),
    decreases right.len(),
{
    if right.len() == 0 {
        assert(left + right =~= left);
    } else {
        assert((left + right).drop_last() =~= left + right.drop_last());
        lemma_drawn_sum(drawing, left, right.drop_last());
    }
}

/// One operation more.
pub proof fn lemma_drawn_push(drawing: Drawing, ops: Seq<DrawOpView>, op: DrawOpView)
    ensures
        drawn(drawing, ops.push(op)) == after_op(drawn(drawing, ops), op),
{
    assert(ops.push(op).drop_last() =~= ops);
}

} // verus!
