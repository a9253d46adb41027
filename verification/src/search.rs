//! The search through the lines.
use rayon::iter::{IndexedParallelIterator, IntoParallelRefIterator, ParallelIterator};
use std::sync::atomic::{AtomicUsize, Ordering};
use std::sync::Arc;
use vstd::prelude::*;
use vstd::utf8::encode_utf8;

use crate::find::contains;
use crate::matching::{all_stand, match_line, match_of, match_views, MatchIndices, MatchView};
use crate::query::{query_terms, terms_of};
use crate::ranking::{is_ranking_of, lemma_same_members, rank};
use crate::store::{flat, lemma_flat_len, well_chunked, Lines, CHUNK_SIZE};
use crate::text::{lowercase, texts};
use crate::utf8::{law_bytes_stand_where_characters_do, reads};

verus! {

/// The matches among `lines`, in their order, where the first of the lines has the number
/// `first`. A match names its line modulo the range of `u32`.
pub open spec fn matches_in(
    first: nat,
    lines: Seq<Seq<char>>,
    terms: Seq<Seq<char>>,
) -> Seq<MatchView>
    decreases lines.len(),
{
    if lines.len() == 0 {
        seq![]
    } else {
        let before = matches_in(first, lines.drop_last(), terms);
        let line = lines.last();
        if all_stand(lowercase(line), terms) {
            before.push(
                match_of((first + lines.len() - 1) as u32, line, lowercase(line), terms),
            )
        } else {
            before
        }
    }
}

/// The matches in a chunk of lines.
pub fn search_chunk(chunk_idx: usize, chunk: &Vec<String>, terms: &Vec<String>) -> (found: Vec<
    MatchIndices,
>)
    requires
        chunk_idx * CHUNK_SIZE + chunk@.len() <= usize::MAX,
    ensures
        match_views(found@) == matches_in(
            (chunk_idx * CHUNK_SIZE) as nat,
            texts(chunk@),
            texts(terms@),
        ),
{
    let ghost all = texts(chunk@);
    let first: usize = chunk_idx * CHUNK_SIZE;
    let mut found: Vec<MatchIndices> = Vec::new();
    assert(match_views(found@) =~= seq![]);
    let mut item_idx: usize = 0;
    while item_idx < chunk.len()
        invariant
            all == texts(chunk@),
            item_idx <= chunk@.len(),
            first + chunk@.len() <= usize::MAX,
            match_views(found@) == matches_in(
                first as nat,
                all.take(item_idx as int),
                texts(terms@),
            ),
        decreases chunk@.len() - item_idx,
    {
        let ghost had = found@;
        let line: &str = chunk[item_idx].as_str();
        let lower: String = line.to_lowercase();
        proof {
            assert(all.take(item_idx + 1).drop_last() =~= all.take(item_idx as int));
            assert(all.take(item_idx + 1).last() == line@);
        }
        let index: u32 = (first + item_idx) as u32;
        if let Some(m) = match_line(index, line, lower.as_str(), terms) {
            found.push(m);
            assert(match_views(found@) =~= match_views(had).push(m@));
        }
        item_idx += 1;
    }
    assert(all.take(item_idx as int) =~= all);
    found
}

/// What comes of a chunk: its matches, or nothing where the search was given up.
pub open spec fn searched_or_skipped(
    part: Option<Vec<MatchIndices>>,
    chunk_idx: int,
    chunk: Seq<String>,
    terms: Seq<Seq<char>>,
) -> bool {
    part matches Some(found) ==> match_views(found@) == matches_in(
        (chunk_idx * CHUNK_SIZE) as nat,
        texts(chunk),
        terms,
    )
}

/// Searches a chunk where the query still has the version that is searched for. `seen` is
/// the version that it was seen to have.
pub fn search_if_current(
    chunk_idx: usize,
    chunk: &Vec<String>,
    terms: &Vec<String>,
    seen: usize,
    version: usize,
) -> (part: Option<Vec<MatchIndices>>)
    requires
        chunk_idx * CHUNK_SIZE + chunk@.len() <= usize::MAX,
    ensures
        part is Some <==> seen == version,
        searched_or_skipped(part, chunk_idx as int, chunk@, texts(terms@)),
{
    if seen != version {
        return None;
    }
    Some(search_chunk(chunk_idx, chunk, terms))
}

/// The version that `live` holds, as far as this thread has heard.
fn glance(live: &AtomicUsize) -> usize {
    live.load(Ordering::Relaxed)
}

/// Searches a chunk, unless `live` holds another version by now.
pub fn search_unless_stale(
    chunk_idx: usize,
    chunk: &Vec<String>,
    terms: &Vec<String>,
    live: &AtomicUsize,
    version: usize,
) -> (part: Option<Vec<MatchIndices>>)
    requires
        chunk_idx * CHUNK_SIZE + chunk@.len() <= usize::MAX,
    ensures
        searched_or_skipped(part, chunk_idx as int, chunk@, texts(terms@)),
{
    search_if_current(chunk_idx, chunk, terms, glance(live), version)
}

/// `rayon`'s parallel iterator over a slice: `enumerate` numbers the chunks from 0 on,
/// `map` hands each with its number to `search_unless_stale`, once, and `collect` puts the
/// results in the order of the chunks. Which chunks are given up is left unsaid: it rests on
/// what other threads have put into `live` when each chunk is reached.
#[verifier::external_body]
fn search_chunks(
    chunks: &Vec<Arc<Vec<String>>>,
    terms: &Vec<String>,
    live: &AtomicUsize,
    version: usize,
) -> (parts: Vec<Option<Vec<MatchIndices>>>)
    requires
        forall|k: int|
            0 <= k < chunks@.len() ==> k * CHUNK_SIZE + (#[trigger] chunks@[k])@.len()
                <= usize::MAX,
    ensures
        parts@.len() == chunks@.len(),
        forall|k: int|
            0 <= k < chunks@.len() ==> searched_or_skipped(
                #[trigger] parts@[k],
                k,
                chunks@[k]@,
                texts(terms@),
            ),
{
    chunks
        .par_iter()
        .enumerate()
        .map(|(k, chunk)| search_unless_stale(k, chunk, terms, live, version))
        .collect()
}

/// No chunk was given up.
pub open spec fn complete(parts: Seq<Option<Vec<MatchIndices>>>) -> bool {
    forall|k: int| 0 <= k < parts.len() ==> (#[trigger] parts[k]) is Some
}

/// The matches of the chunks, one after the other.
pub open spec fn joined(parts: Seq<Option<Vec<MatchIndices>>>) -> Seq<MatchView>
    decreases parts.len(),
{
    if parts.len() == 0 {
        seq![]
    } else {
        joined(parts.drop_last()) + match parts.last() {
            Some(found) => match_views(found@),
            None => seq![],
        }
    }
}

/// The matches of all chunks, unless one of the chunks was given up.
fn assemble(parts: Vec<Option<Vec<MatchIndices>>>) -> (found: Option<Vec<MatchIndices>>)
    ensures
        found is Some <==> complete(parts@),
        found matches Some(all) ==> match_views(all@) == joined(parts@),
{
    let mut all: Vec<MatchIndices> = Vec::new();
    assert(match_views(all@) =~= seq![]);
    for part in iter: parts
        invariant
            iter.seq() == parts@,
            complete(parts@.take(iter.index())),
            match_views(all@) == joined(parts@.take(iter.index())),
    {
        let ghost n = iter.index();
        let ghost had = all@;
        proof {
            assert(parts@.take(n + 1).drop_last() =~= parts@.take(n));
            assert(parts@.take(n + 1).last() == part);
        }
        match part {
            None => {
                assert(parts@[n] is None);
                return None;
            },
            Some(found) => {
                let mut found: Vec<MatchIndices> = found;
                let ghost new = found@;
                all.append(&mut found);
                assert(match_views(all@) =~= match_views(had) + match_views(new));
                assert forall|k: int| 0 <= k < n + 1 implies (#[trigger] parts@.take(
                    n + 1,
                )[k]) is Some by {
                    if k < n {
                        assert(parts@.take(n)[k] is Some);
                    }
                }
            },
        }
    }
    assert(parts@.take(parts@.len() as int) =~= parts@);
    Some(all)
}

/// The matches in two stretches of lines are those of the one, then those of the other.
pub proof fn lemma_matches_in_parts(
    first: nat,
    left: Seq<Seq<char>>,
    right: Seq<Seq<char>>,
    terms: Seq<Seq<char>>,
)
    ensures
        matches_in(first, left + right, terms) == matches_in(first, left, terms) + matches_in(
            first + left.len(),
            right,
            terms,
        ),
    decreases right.len(),
{
    if right.len() == 0 {
        assert(left + right =~= left);
        assert(matches_in(first, left, terms) + seq![] =~= matches_in(first, left, terms));
    } else {
        assert((left + right).drop_last() =~= left + right.drop_last());
        lemma_matches_in_parts(first, left, right.drop_last(), terms);
        assert(matches_in(first, left + right, terms) =~= matches_in(first, left, terms)
            + matches_in(first + left.len(), right, terms));
    }
}

/// The matches of all chunks are the matches of all lines.
proof fn lemma_joined(
    chunks: Seq<Arc<Vec<String>>>,
    parts: Seq<Option<Vec<MatchIndices>>>,
    terms: Seq<Seq<char>>,
)
    requires
        well_chunked(chunks),
        parts.len() == chunks.len(),
        complete(parts),
        forall|k: int|
            0 <= k < chunks.len() ==> searched_or_skipped(
                #[trigger] parts[k],
                k,
                chunks[k]@,
                terms,
            ),
    ensures
        joined(parts) == matches_in(0, flat(chunks), terms),
    decreases chunks.len(),
{
    if chunks.len() > 0 {
        let front = chunks.drop_last();
        let last = chunks.len() - 1;
        assert(well_chunked(front)) by {
            assert(forall|j: int| 0 <= j < front.len() ==> front[j] == chunks[j]);
        }
        assert forall|k: int| 0 <= k < front.len() implies searched_or_skipped(
            #[trigger] parts.drop_last()[k],
            k,
            front[k]@,
            terms,
        ) by {
            assert(parts.drop_last()[k] == parts[k]);
        }
        assert(complete(parts.drop_last())) by {
            assert(forall|k: int|
                0 <= k < parts.drop_last().len() ==> parts.drop_last()[k] == parts[k]);
        }
        lemma_joined(front, parts.drop_last(), terms);
        lemma_flat_len(chunks);
        lemma_flat_len(front);
        if last > 0 {
            assert(chunks[last - 1]@.len() == CHUNK_SIZE);
        }
        assert(flat(front).len() == last * CHUNK_SIZE);
        assert(searched_or_skipped(parts[last], last, chunks[last]@, terms));
        assert(parts[last] is Some);
        lemma_matches_in_parts(0, flat(front), texts(chunks.last()@), terms);
    }
}

/// Ends a search: orders the matches of the chunks, unless one of the chunks was given up
/// or the query has another version. `seen` is the version that it was seen to have.
pub fn conclude(parts: Vec<Option<Vec<MatchIndices>>>, seen: usize, version: usize) -> (found:
    Option<Vec<MatchIndices>>)
    ensures
        found is Some <==> complete(parts@) && seen == version,
        found matches Some(all) ==> is_ranking_of(match_views(all@), joined(parts@)),
{
    if seen != version {
        return None;
    }
    match assemble(parts) {
        None => None,
        Some(all) => Some(rank(all)),
    }
}

/// What a search has found, and in how many lines.
pub struct Found {
    matches: Vec<MatchIndices>,
    searched: usize,
}

impl View for Found {
    type V = Seq<MatchView>;

    closed spec fn view(&self) -> Seq<MatchView> {
        match_views(self.matches@)
    }
}

impl Found {
    /// How many lines have been searched.
    pub closed spec fn line_count(&self) -> usize {
        self.searched
    }

    /// There are no more matches than lines, and they name lines that have been searched.
    pub open spec fn inv(&self) -> bool {
        &&& self@.len() <= self.line_count()
        &&& forall|k: int|
            0 <= k < self@.len() ==> (#[trigger] self@[k]).index < self.line_count()
    }

    /// Nothing, in no lines.
    pub fn nothing() -> (found: Found)
        ensures
            found.inv(),
            found@ == Seq::<MatchView>::empty(),
            found.line_count() == 0,
    {
        let found = Found { matches: Vec::new(), searched: 0 };
        assert(found@ =~= Seq::<MatchView>::empty());
        found
    }

    /// How many lines have been searched.
    pub fn searched(&self) -> (count: usize)
        ensures
            count == self.line_count(),
    {
        self.searched
    }

    /// The matches.
    pub fn matches(&self) -> (matches: &Vec<MatchIndices>)
        ensures
            match_views(matches@) == self@,
    {
        &self.matches
    }

    /// The matches, taken out.
    pub fn into_matches(self) -> (matches: Vec<MatchIndices>)
        ensures
            match_views(matches@) == self@,
    {
        self.matches
    }
}

/// There are no more matches than lines, and they name lines that are there.
proof fn lemma_matches_in_bounds(lines: Seq<Seq<char>>, terms: Seq<Seq<char>>)
    requires
        lines.len() <= usize::MAX,
    ensures
        matches_in(0, lines, terms).len() <= lines.len(),
        forall|k: int|
            0 <= k < matches_in(0, lines, terms).len() ==> (#[trigger] matches_in(
                0,
                lines,
                terms,
            )[k]).index < lines.len(),
    decreases lines.len(),
{
    if lines.len() > 0 {
        lemma_matches_in_bounds(lines.drop_last(), terms);
        let last = (lines.len() - 1) as usize;
        assert((last as u32) <= last) by (bit_vector);
    }
}

/// A ranking has the matches that it is a ranking of.
proof fn lemma_ranking_members(ordered: Seq<MatchView>, found: Seq<MatchView>, k: int)
    requires
        is_ranking_of(ordered, found),
    ensures
        ordered.len() == found.len(),
        0 <= k < ordered.len() ==> found.contains(ordered[k]),
{
    ordered.to_multiset_ensures();
    found.to_multiset_ensures();
    if 0 <= k < ordered.len() {
        assert(ordered.contains(ordered[k]));
        lemma_same_members(ordered, found, ordered[k]);
    }
}

/// Searches all lines for the query and orders the matches, unless the query has another
/// version before that is done. `live` holds the version that the query has at any time.
/// When a search is given up is left unsaid: that rests on what other threads put into
/// `live` meanwhile. `search_if_current` and `conclude` say it for each value seen there.
pub fn search(query: &str, lines: &Lines, live: &AtomicUsize, version: usize) -> (found: Option<
    Found,
>)
    requires
        lines.inv(),
    ensures
        found matches Some(found) ==> {
            &&& is_ranking_of(found@, matches_in(0, lines@, terms_of(query@)))
            &&& found.inv()
            &&& found.line_count() == lines@.len()
        },
{
    let terms: Vec<String> = query_terms(query);
    let chunks: &Vec<Arc<Vec<String>>> = lines.chunks();
    proof {
        lemma_flat_len(chunks@);
    }
    let parts: Vec<Option<Vec<MatchIndices>>> = search_chunks(chunks, &terms, live, version);
    let ghost all = matches_in(0, lines@, terms_of(query@));
    proof {
        if complete(parts@) {
            lemma_joined(chunks@, parts@, texts(terms@));
        }
    }
    match conclude(parts, live.load(Ordering::SeqCst), version) {
        None => None,
        Some(matches) => {
            let found = Found { matches, searched: lines.len() };
            proof {
                lemma_matches_in_bounds(lines@, terms_of(query@));
                lemma_ranking_members(found@, all, 0);
                assert forall|k: int| 0 <= k < found@.len() implies (#[trigger] found@[k]).index
                    < found.line_count() by {
                    lemma_ranking_members(found@, all, k);
                }
            }
            Some(found)
        },
    }
}

/// A line alone gives its match where every term stands in its lower case text, and else
/// nothing.
pub proof fn law_matches_of_one_line(first: nat, line: Seq<char>, terms: Seq<Seq<char>>)
    ensures
        (forall|t: int| 0 <= t < terms.len() ==> reads(lowercase(line), #[trigger] terms[t]))
            ==> matches_in(first, seq![line], terms) == seq![
            match_of(first as u32, line, lowercase(line), terms),
        ],
        !(forall|t: int| 0 <= t < terms.len() ==> reads(lowercase(line), #[trigger] terms[t]))
            ==> matches_in(first, seq![line], terms) == Seq::<MatchView>::empty(),
{
    let lower = lowercase(line);
    assert(seq![line].drop_last() =~= seq![]);
    assert(matches_in(first, seq![], terms) =~= seq![]);
    assert(seq![line].last() == line);
    if all_stand(lower, terms) {
        assert forall|t: int| 0 <= t < terms.len() implies reads(lower, #[trigger] terms[t]) by {
            assert(contains(encode_utf8(lower), encode_utf8(terms[t])));
            law_bytes_stand_where_characters_do(lower, terms[t]);
        }
    }
    if forall|t: int| 0 <= t < terms.len() ==> reads(lower, #[trigger] terms[t]) {
        assert forall|t: int| 0 <= t < terms.len() implies contains(
            encode_utf8(lower),
            #[trigger] encode_utf8(terms[t]),
        ) by {
            assert(reads(lower, terms[t]));
            law_bytes_stand_where_characters_do(lower, terms[t]);
        }
    }
}

/// The matches of two runs of chunks are those of the one, then those of the other, and a
/// chunk gives what was found in it.
pub proof fn law_chunks_are_joined_in_order(
    left: Seq<Option<Vec<MatchIndices>>>,
    right: Seq<Option<Vec<MatchIndices>>>,
    found: Vec<MatchIndices>,
)
    ensures
        joined(left + right) == joined(left) + joined(right),
        joined(seq![Some(found)]) == match_views(found@),
        complete(left + right) <==> complete(left) && complete(right),
        complete(seq![Some(found)]),
        !complete(seq![None]),
    decreases right.len(),
{
    let one = seq![Some(found)];
    assert(one.drop_last() =~= seq![]);
    reveal_with_fuel(joined, 2);
    assert(joined(one) =~= match_views(found@));
    let none: Seq<Option<Vec<MatchIndices>>> = seq![None];
    assert(none[0] is None);
    if right.len() == 0 {
        assert(left + right =~= left);
        assert(joined(left) + joined(right) =~= joined(left));
    } else {
        assert((left + right).drop_last() =~= left + right.drop_last());
        law_chunks_are_joined_in_order(left, right.drop_last(), found);
        assert(joined(left + right) =~= joined(left) + joined(right));
    }
    if complete(left + right) {
        assert forall|k: int| 0 <= k < left.len() implies (#[trigger] left[k]) is Some by {
            assert((left + right)[k] is Some);
        }
        assert forall|k: int| 0 <= k < right.len() implies (#[trigger] right[k]) is Some by {
            assert((left + right)[left.len() + k] is Some);
        }
    }
}

} // verus!
