//! How the lines come in.
use vstd::prelude::*;

use crate::store::CHUNK_SIZE;
use crate::text::texts;

verus! {

/// `text` without its last character, where that is `c`.
pub open spec fn without_last(text: Seq<char>, c: char) -> Seq<char> {
    if text.len() > 0 && text.last() == c {
        text.drop_last()
    } else {
        text
    }
}

/// A line as it is kept: without its line feed, and then without a carriage return.
pub open spec fn stripped(raw: Seq<char>) -> Seq<char> {
    without_last(without_last(raw, '\n'), '\r')
}

/// Takes `c` off the end of `text`, where it is there.
fn drop_last_char(text: &mut String, c: char)
    ensures
        final(text)@ == without_last(old(text)@, c),
{
    if let Some(last) = text.pop() {
        if last != c {
            text.push(last);
            assert(text@ =~= old(text)@);
        }
    }
}

/// A line without what ends it.
pub fn strip_line(raw: String) -> (line: String)
    ensures
        line@ == stripped(raw@),
{
    let mut line: String = raw;
    drop_last_char(&mut line, '\n');
    drop_last_char(&mut line, '\r');
    line
}

/// What a line adds to a batch: the chunk that it completes, if it does, and what is in
/// the batch then.
pub open spec fn after_line(batch: Seq<Seq<char>>, raw: Seq<char>) -> (
    Option<Seq<Seq<char>>>,
    Seq<Seq<char>>,
) {
    let more = batch.push(stripped(raw));
    if more.len() == CHUNK_SIZE {
        (Some(more), seq![])
    } else {
        (None, more)
    }
}

/// The lines of an optional chunk.
pub open spec fn optional_lines(chunk: Option<Vec<String>>) -> Option<Seq<Seq<char>>> {
    match chunk {
        Some(lines) => Some(texts(lines@)),
        None => None,
    }
}

/// The lines that have come in since the last full chunk.
pub struct Batch {
    lines: Vec<String>,
}

impl View for Batch {
    type V = Seq<Seq<char>>;

    closed spec fn view(&self) -> Seq<Seq<char>> {
        texts(self.lines@)
    }
}

impl Batch {
    /// A full chunk does not stay.
    pub open spec fn inv(&self) -> bool {
        self@.len() < CHUNK_SIZE
    }

    /// No lines.
    pub fn new() -> (batch: Batch)
        ensures
            batch.inv(),
            batch@ == Seq::<Seq<char>>::empty(),
    {
        let batch = Batch { lines: Vec::with_capacity(CHUNK_SIZE) };
        assert(batch@ =~= Seq::<Seq<char>>::empty());
        batch
    }

    /// Takes in a line, and gives out the chunk that it completes.
    pub fn take_line(&mut self, raw: String) -> (chunk: Option<Vec<String>>)
        requires
            old(self).inv(),
        ensures
            final(self).inv(),
            (optional_lines(chunk), final(self)@) == after_line(old(self)@, raw@),
    {
        let line: String = strip_line(raw);
        self.lines.push(line);
        assert(self@ =~= old(self)@.push(line@));
        if self.lines.len() < CHUNK_SIZE {
            return None;
        }
        let mut full: Vec<String> = Vec::with_capacity(CHUNK_SIZE);
        full.append(&mut self.lines);
        assert(self@ =~= Seq::<Seq<char>>::empty());
        assert(texts(full@) =~= old(self)@.push(line@));
        Some(full)
    }

    /// Ends the reading, and gives out what is left.
    pub fn finish(self) -> (chunk: Option<Vec<String>>)
        requires
            self.inv(),
        ensures
            optional_lines(chunk) == if self@.len() > 0 {
                Some(self@)
            } else {
                None
            },
    {
        if self.lines.len() == 0 {
            None
        } else {
            Some(self.lines)
        }
    }
}

/// The chunks that a run of lines completes, and the lines that are left over.
pub open spec fn chunked(raws: Seq<Seq<char>>) -> (Seq<Seq<Seq<char>>>, Seq<Seq<char>>)
    decreases raws.len(),
{
    if raws.len() == 0 {
        (seq![], seq![])
    } else {
        let (chunks, batch) = chunked(raws.drop_last());
        let (chunk, rest) = after_line(batch, raws.last());
        match chunk {
            Some(full) => (chunks.push(full), rest),
            None => (chunks, rest),
        }
    }
}

/// Reading loses no line, adds none and keeps their order; every chunk but what is left
/// over is full.
pub proof fn law_reading_keeps_the_lines(raws: Seq<Seq<char>>)
    ensures
        chunked(raws).0.flatten() + chunked(raws).1 == raws.map_values(
            |raw: Seq<char>| stripped(raw),
        ),
        forall|k: int|
            0 <= k < chunked(raws).0.len() ==> (#[trigger] chunked(raws).0[k]).len() == CHUNK_SIZE,
        chunked(raws).1.len() < CHUNK_SIZE,
    decreases raws.len(),
{
    let f = |raw: Seq<char>| stripped(raw);
    if raws.len() == 0 {
        assert(chunked(raws).0.flatten() =~= seq![]);
        assert(chunked(raws).0.flatten() + chunked(raws).1 =~= raws.map_values(f));
    } else {
        let front = raws.drop_last();
        law_reading_keeps_the_lines(front);
        let (chunks, rest) = chunked(front);
        let more = rest.push(stripped(raws.last()));
        assert(raws.map_values(f) =~= front.map_values(f).push(stripped(raws.last())));
        assert(chunks.flatten() + more =~= raws.map_values(f));
        if more.len() == CHUNK_SIZE {
            chunks.lemma_flatten_push(more);
            assert(chunks.push(more).flatten() + Seq::<Seq<char>>::empty() =~= chunks.flatten()
                + more);
        }
    }
}

/// Only what ends a line goes: a line feed, a carriage return and a line feed, or a
/// carriage return where no line feed is behind it. A line without an end stays as it is.
pub proof fn law_only_the_line_end_goes(line: Seq<char>)
    ensures
        stripped(line + seq!['\r', '\n']) == line,
        line.len() == 0 || line.last() != '\r' ==> stripped(line.push('\n')) == line,
        stripped(line.push('\r')) == line,
        line.len() == 0 || (line.last() != '\n' && line.last() != '\r') ==> stripped(line) == line,
{
    let both = line + seq!['\r', '\n'];
    assert(both.last() == '\n');
    assert(both.drop_last() =~= line.push('\r'));
    assert(line.push('\r').drop_last() =~= line);
    assert(line.push('\n').drop_last() =~= line);
}

/// A line as it comes in is the line that is kept with nothing behind it, or with one of
/// the ends that a line can have.
pub proof fn law_line_and_its_end(raw: Seq<char>)
    ensures
        raw == stripped(raw) || raw == stripped(raw).push('\n') || raw == stripped(raw).push('\r')
            || raw == stripped(raw) + seq!['\r', '\n'],
{
    if raw.len() > 0 && raw.last() == '\n' {
        let line = raw.drop_last();
        if line.len() > 0 && line.last() == '\r' {
            assert(raw =~= stripped(raw) + seq!['\r', '\n']);
        } else {
            assert(raw =~= stripped(raw).push('\n'));
        }
    } else if raw.len() > 0 && raw.last() == '\r' {
        assert(raw =~= stripped(raw).push('\r'));
    }
}

/// An optional chunk stands for the texts of its lines, in their order, where there is one.
pub proof fn law_optional_lines_are_the_lines(chunk: Option<Vec<String>>)
    ensures
        chunk is None <==> optional_lines(chunk) is None,
        chunk matches Some(lines) ==> optional_lines(chunk) == Some(
            Seq::new(lines@.len(), |k: int| lines@[k]@),
        ),
{
    if let Some(lines) = chunk {
        assert(texts(lines@) =~= Seq::new(lines@.len(), |k: int| lines@[k]@));
    }
}

} // verus!
