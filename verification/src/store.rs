//! The lines to select from, kept in chunks of one size.
use std::sync::Arc;
use vstd::prelude::*;

use crate::text::texts;

verus! {

/// How many lines a chunk holds. Only the last chunk may hold fewer.
pub const CHUNK_SIZE: usize = 20_000;

/// How many lines can be kept, so that a count of rows on the screen fits in `usize`.
pub const LINE_LIMIT: usize = usize::MAX - 3;

/// The lines of the chunks, one after the other.
pub open spec fn flat(chunks: Seq<Arc<Vec<String>>>) -> Seq<Seq<char>>
    decreases chunks.len(),
{
    if chunks.len() == 0 {
        seq![]
    } else {
        flat(chunks.drop_last()) + texts(chunks.last()@)
    }
}

/// Every chunk but the last is full, and the last one is not empty.
pub open spec fn well_chunked(chunks: Seq<Arc<Vec<String>>>) -> bool {
    &&& forall|k: int|
        0 <= k < chunks.len() ==> 1 <= (#[trigger] chunks[k])@.len() <= CHUNK_SIZE
    &&& forall|k: int|
        0 <= k < chunks.len() - 1 ==> (#[trigger] chunks[k])@.len() == CHUNK_SIZE
}

/// The number of lines is that of the full chunks and the last one.
pub proof fn lemma_flat_len(chunks: Seq<Arc<Vec<String>>>)
    requires
        well_chunked(chunks),
    ensures
        chunks.len() == 0 ==> flat(chunks).len() == 0,
        chunks.len() > 0 ==> flat(chunks).len() == (chunks.len() - 1) * CHUNK_SIZE
            + chunks.last()@.len(),
    decreases chunks.len(),
{
    if chunks.len() > 0 {
        let front = chunks.drop_last();
        assert forall|k: int| 0 <= k < front.len() implies 1 <= (#[trigger] front[k])@.len()
            <= CHUNK_SIZE by {
            assert(front[k] == chunks[k]);
        }
        assert forall|k: int| 0 <= k < front.len() - 1 implies (#[trigger] front[k])@.len()
            == CHUNK_SIZE by {
            assert(front[k] == chunks[k]);
        }
        lemma_flat_len(front);
        if front.len() > 0 {
            assert(chunks[front.len() - 1]@.len() == CHUNK_SIZE);
        }
    }
}

/// Line `k` of chunk `c` is line `c * CHUNK_SIZE + k` of all.
pub proof fn lemma_flat_at(chunks: Seq<Arc<Vec<String>>>, c: int, k: int)
    requires
        well_chunked(chunks),
        0 <= c < chunks.len(),
        0 <= k < chunks[c]@.len(),
    ensures
        0 <= c * CHUNK_SIZE + k < flat(chunks).len(),
        flat(chunks)[c * CHUNK_SIZE + k] == chunks[c]@[k]@,
    decreases chunks.len(),
{
    lemma_flat_len(chunks);
    let front = chunks.drop_last();
    assert(well_chunked(front)) by {
        assert(forall|j: int| 0 <= j < front.len() ==> front[j] == chunks[j]);
    }
    lemma_flat_len(front);
    if front.len() > 0 {
        assert(chunks[front.len() - 1]@.len() == CHUNK_SIZE);
    }
    if c == chunks.len() - 1 {
        assert(flat(chunks)[flat(front).len() + k] == texts(chunks.last()@)[k]);
    } else {
        assert(front[c] == chunks[c]);
        lemma_flat_at(front, c, k);
    }
}

/// `Arc::clone` makes another pointer to the same value.
#[verifier::external_body]
fn share(chunk: &Arc<Vec<String>>) -> (other: Arc<Vec<String>>)
    ensures
        other == *chunk,
{
    Arc::clone(chunk)
}

/// The lines that have been read so far.
pub struct Lines {
    chunks: Vec<Arc<Vec<String>>>,
    total_len: usize,
}

impl View for Lines {
    type V = Seq<Seq<char>>;

    open spec fn view(&self) -> Seq<Seq<char>> {
        flat(self.chunk_seq())
    }
}

impl Lines {
    /// The chunks.
    pub closed spec fn chunk_seq(&self) -> Seq<Arc<Vec<String>>> {
        self.chunks@
    }

    /// The count that is kept beside the chunks.
    pub closed spec fn count(&self) -> usize {
        self.total_len
    }

    /// The chunks have their sizes, and the count is that of their lines.
    pub open spec fn inv(&self) -> bool {
        &&& well_chunked(self.chunk_seq())
        &&& self.count() == self@.len()
        &&& self@.len() <= LINE_LIMIT
    }

    /// No lines.
    pub fn new() -> (lines: Lines)
        ensures
            lines.inv(),
            lines@ == Seq::<Seq<char>>::empty(),
    {
        Lines { chunks: Vec::new(), total_len: 0 }
    }

    /// The number of lines.
    pub fn len(&self) -> (count: usize)
        requires
            self.inv(),
        ensures
            count == self@.len(),
    {
        self.total_len
    }

    /// The chunks of lines, to be searched side by side.
    pub fn chunks(&self) -> (chunks: &Vec<Arc<Vec<String>>>)
        ensures
            chunks@ == self.chunk_seq(),
    {
        &self.chunks
    }

    /// Line `index`.
    pub fn get(&self, index: usize) -> (line: &str)
        requires
            self.inv(),
            index < self@.len(),
        ensures
            line@ == self@[index as int],
    {
        let chunk_idx: usize = index / CHUNK_SIZE;
        let item_idx: usize = index % CHUNK_SIZE;
        proof {
            lemma_flat_len(self.chunks@);
            if chunk_idx < self.chunks@.len() - 1 {
                assert(self.chunks@[chunk_idx as int]@.len() == CHUNK_SIZE);
            }
            lemma_flat_at(self.chunks@, chunk_idx as int, item_idx as int);
        }
        let chunk: &Vec<String> = &self.chunks[chunk_idx];
        chunk[item_idx].as_str()
    }

    /// Appends the lines of a chunk. Only behind full chunks is there a place for one.
    pub fn push_chunk(&mut self, chunk: Vec<String>)
        requires
            old(self).inv(),
            old(self)@.len() % (CHUNK_SIZE as nat) == 0,
            1 <= chunk@.len() <= CHUNK_SIZE,
            old(self)@.len() + chunk@.len() <= LINE_LIMIT,
        ensures
            final(self).inv(),
            final(self)@ == old(self)@ + texts(chunk@),
    {
        let ghost before = self.chunks@;
        self.total_len = self.total_len + chunk.len();
        self.chunks.push(Arc::new(chunk));
        proof {
            lemma_flat_len(before);
            assert(self.chunks@.drop_last() =~= before);
            assert(self.chunks@.last()@ == chunk@);
        }
    }

    /// The same lines once more. The text of the lines is shared.
    pub fn snapshot(&self) -> (other: Lines)
        requires
            self.inv(),
        ensures
            other.inv(),
            other@ == self@,
    {
        let mut chunks: Vec<Arc<Vec<String>>> = Vec::new();
        let mut k: usize = 0;
        while k < self.chunks.len()
            invariant
                k <= self.chunks@.len(),
                chunks@ == self.chunks@.take(k as int),
            decreases self.chunks@.len() - k,
        {
            chunks.push(share(&self.chunks[k]));
            k += 1;
        }
        assert(chunks@ =~= self.chunks@);
        Lines { chunks, total_len: self.total_len }
    }
}

/// A line is found by its number: in the chunk of the quotient, at the place of the
/// remainder.
pub proof fn law_line_is_in_its_chunk(lines: Lines, index: nat)
    requires
        lines.inv(),
        index < lines@.len(),
    ensures
        ({
            let c = (index / CHUNK_SIZE as nat) as int;
            let k = (index % CHUNK_SIZE as nat) as int;
            &&& c < lines.chunk_seq().len()
            &&& k < lines.chunk_seq()[c]@.len()
            &&& lines@[index as int] == lines.chunk_seq()[c]@[k]@
        }),
{
    let chunks = lines.chunk_seq();
    let c = (index / CHUNK_SIZE as nat) as int;
    lemma_flat_len(chunks);
    if c < chunks.len() - 1 {
        assert(chunks[c]@.len() == CHUNK_SIZE);
    }
    lemma_flat_at(chunks, c, (index % CHUNK_SIZE as nat) as int);
}

} // verus!
