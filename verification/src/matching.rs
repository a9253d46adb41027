//! How one line is held against the terms of a query.
use vstd::prelude::*;
use vstd::slice::slice_subrange;
use vstd::utf8::encode_utf8;

use crate::find::{
    contains, find_from, first_from, hits, is_in, law_hits_stand_apart, lemma_hits_step, occurs_at,
};
use crate::score::{count_terms_in, score, score_of, terms_in};
use crate::text::{last_segment, lemma_last_segment, lemma_trim_end, texts, trim_end};

verus! {

/// The byte of `/` in UTF-8.
pub const SLASH: u8 = 47;

/// The last segment of a path, slashes at its end set aside. A path made of slashes
/// alone is its own last segment.
pub open spec fn tail(path: Seq<u8>) -> Seq<u8> {
    let trimmed = trim_end(path, set![SLASH]);
    if trimmed.len() == 0 {
        path
    } else {
        last_segment(trimmed, set![SLASH])
    }
}

/// The last segment of `path`.
pub fn tail_of(path: &[u8]) -> (segment: &[u8])
    ensures
        segment@ == tail(path@),
{
    let ghost cut: Set<u8> = set![SLASH];
    let mut end: usize = path.len();
    assert(path@.subrange(0, end as int) =~= path@);
    while end > 0 && path[end - 1] == SLASH
        invariant
            end <= path@.len(),
            cut == set![SLASH],
            trim_end(path@.subrange(0, end as int), cut) == trim_end(path@, cut),
        decreases end,
    {
        let ghost kept = path@.subrange(0, end as int);
        assert(kept.drop_last() =~= path@.subrange(0, end - 1));
        end -= 1;
    }
    let ghost trimmed = path@.subrange(0, end as int);
    assert(trim_end(path@, cut) == trimmed);
    if end == 0 {
        return path;
    }
    let mut start: usize = end;
    assert(trimmed =~= path@.subrange(0, start as int));
    assert(last_segment(trimmed, cut) =~= last_segment(path@.subrange(0, start as int), cut)
        + path@.subrange(start as int, end as int));
    while start > 0 && path[start - 1] != SLASH
        invariant
            start <= end <= path@.len(),
            cut == set![SLASH],
            last_segment(trimmed, cut) == last_segment(path@.subrange(0, start as int), cut)
                + path@.subrange(start as int, end as int),
        decreases start,
    {
        let ghost head = path@.subrange(0, start as int);
        assert(head.drop_last() =~= path@.subrange(0, start - 1));
        assert(path@.subrange(start - 1, end as int) =~= seq![path@[start - 1]] + path@.subrange(
            start as int,
            end as int,
        ));
        assert(last_segment(head, cut) + path@.subrange(start as int, end as int) =~= last_segment(
            path@.subrange(0, start - 1),
            cut,
        ) + path@.subrange(start - 1, end as int));
        start -= 1;
    }
    let ghost head = path@.subrange(0, start as int);
    assert(last_segment(head, cut) =~= Seq::<u8>::empty());
    assert(last_segment(trimmed, cut) =~= path@.subrange(start as int, end as int));
    slice_subrange(path, start, end)
}

/// `pos` lies in one of the stretches of `width` bytes that start at `starts`.
pub open spec fn covered(starts: Seq<int>, width: nat, pos: int) -> bool {
    exists|k: int| 0 <= k < starts.len() && #[trigger] starts[k] <= pos < starts[k] + width
}

/// How many bytes a hit of `term` marks: all of them where offsets into the lower case
/// text are offsets into the line, else the first one.
pub open spec fn mark_width(term: Seq<u8>, whole: bool) -> nat {
    if whole {
        term.len()
    } else {
        1
    }
}

/// Some term marks the byte at `pos`.
pub open spec fn marked(lower: Seq<u8>, terms: Seq<Seq<char>>, whole: bool, pos: int) -> bool {
    exists|t: int|
        0 <= t < terms.len() && covered(
            hits(lower, #[trigger] encode_utf8(terms[t]), 0),
            mark_width(encode_utf8(terms[t]), whole),
            pos,
        )
}

/// The marked offsets below `limit`, from left to right.
pub open spec fn marked_below(
    lower: Seq<u8>,
    terms: Seq<Seq<char>>,
    whole: bool,
    limit: nat,
) -> Seq<usize>
    decreases limit,
{
    if limit == 0 {
        seq![]
    } else {
        let before = marked_below(lower, terms, whole, (limit - 1) as nat);
        if marked(lower, terms, whole, limit - 1) {
            before.push((limit - 1) as usize)
        } else {
            before
        }
    }
}

/// Every term stands in the lower case text.
pub open spec fn all_stand(lower: Seq<char>, terms: Seq<Seq<char>>) -> bool {
    forall|t: int|
        0 <= t < terms.len() ==> contains(encode_utf8(lower), #[trigger] encode_utf8(terms[t]))
}

/// The number of offsets at which a hit can start in a text of `len` bytes.
pub open spec fn offsets(len: nat) -> nat {
    if len == 0 {
        1
    } else {
        len
    }
}

/// The offsets to highlight in a line.
pub open spec fn highlight(line: Seq<char>, lower: Seq<char>, terms: Seq<Seq<char>>) -> Seq<usize> {
    let hay = encode_utf8(lower);
    marked_below(hay, terms, encode_utf8(line).len() == hay.len(), offsets(hay.len()))
}

/// Marks what the hits of `pat` in `hay` cover.
fn mark_hits(hay: &[u8], pat: &[u8], whole: bool, marks: &mut Vec<bool>)
    requires
        old(marks)@.len() == offsets(hay@.len()),
    ensures
        final(marks)@.len() == old(marks)@.len(),
        forall|pos: int|
            0 <= pos < old(marks)@.len() ==> #[trigger] final(marks)@[pos] == (old(marks)@[pos]
                || covered(hits(hay@, pat@, 0), mark_width(pat@, whole), pos)),
{
    let size: usize = hay.len();
    let width: usize = if whole {
        pat.len()
    } else {
        1
    };
    let mut from: usize = 0;
    let ghost mut seen: Seq<int> = seq![];
    let ghost all = hits(hay@, pat@, 0);
    let ghost before = marks@;
    assert(all =~= seen + hits(hay@, pat@, 0));
    loop
        invariant
            size == hay@.len(),
            width == mark_width(pat@, whole),
            from <= size,
            before == old(marks)@,
            before.len() == offsets(hay@.len()),
            marks@.len() == before.len(),
            all == hits(hay@, pat@, 0),
            all == seen + hits(hay@, pat@, from as int),
            pat@.len() == 0 ==> from == 0,
            forall|pos: int|
                0 <= pos < before.len() ==> #[trigger] marks@[pos] == (before[pos] || covered(
                    seen,
                    mark_width(pat@, whole),
                    pos,
                )),
        decreases size - from,
    {
        match find_from(hay, pat, from) {
            None => {
                assert(hits(hay@, pat@, from as int) =~= seq![]);
                assert(all =~= seen);
                return;
            },
            Some(at) => {
                proof {
                    lemma_hits_step(hay@, pat@, from as int, at as int);
                    assert(occurs_at(hay@, pat@, at as int));
                }
                let ghost held = marks@;
                proof {
                    if pat@.len() == 0 {
                        assert(hay@.subrange(0, 0) =~= pat@);
                        assert(occurs_at(hay@, pat@, 0));
                    }
                }
                let end: usize = at + width;
                let mut pos: usize = at;
                while pos < end
                    invariant
                        at <= pos <= end <= marks@.len() == held.len(),
                        forall|k: int|
                            0 <= k < held.len() ==> #[trigger] marks@[k] == (held[k] || at <= k
                                < pos),
                    decreases end - pos,
                {
                    marks.set(pos, true);
                    pos += 1;
                }
                let ghost rest = if pat@.len() == 0 {
                    Seq::<int>::empty()
                } else {
                    hits(hay@, pat@, at + pat@.len())
                };
                proof {
                    let more = seen.push(at as int);
                    assert(seen + hits(hay@, pat@, from as int) =~= more + rest);
                    assert forall|p: int|
                        0 <= p < before.len() implies #[trigger] marks@[p] == (before[p] || covered(
                        more,
                        mark_width(pat@, whole),
                        p,
                    )) by {
                        assert(held[p] == (before[p] || covered(
                            seen,
                            mark_width(pat@, whole),
                            p,
                        )));
                        assert(more[seen.len() as int] == at);
                        if covered(seen, mark_width(pat@, whole), p) {
                            let k = choose|k: int|
                                0 <= k < seen.len() && #[trigger] seen[k] <= p < seen[k]
                                    + mark_width(pat@, whole);
                            assert(more[k] == seen[k]);
                        }
                        if covered(more, mark_width(pat@, whole), p) {
                            let k = choose|k: int|
                                0 <= k < more.len() && #[trigger] more[k] <= p < more[k]
                                    + mark_width(pat@, whole);
                            if k < seen.len() {
                                assert(more[k] == seen[k]);
                            }
                        }
                    }
                    seen = more;
                }
                if pat.len() == 0 {
                    assert(all =~= seen);
                    return;
                }
                from = at + pat.len();
            },
        }
    }
}

/// A line that matches a query.
#[derive(Clone, Debug, PartialEq, Eq)]
pub struct MatchIndices {
    /// The number of the line.
    pub index: u32,
    /// Lines of a higher score come first.
    pub score: u16,
    /// The byte offsets to highlight, from left to right.
    pub indices: Vec<usize>,
    /// The terms stand in the line as they are.
    pub exact: bool,
}

/// What a `MatchIndices` says.
#[verifier::ext_equal]
pub struct MatchView {
    pub index: u32,
    pub score: u16,
    pub indices: Seq<usize>,
    pub exact: bool,
}

impl View for MatchIndices {
    type V = MatchView;

    open spec fn view(&self) -> MatchView {
        MatchView {
            index: self.index,
            score: self.score,
            indices: self.indices@,
            exact: self.exact,
        }
    }
}

/// What the matches say.
pub open spec fn match_views(matches: Seq<MatchIndices>) -> Seq<MatchView> {
    matches.map_values(|m: MatchIndices| m@)
}

/// The match of a line that has `lower` for its lower case text.
pub open spec fn match_of(
    index: u32,
    line: Seq<char>,
    lower: Seq<char>,
    terms: Seq<Seq<char>>,
) -> MatchView {
    MatchView {
        index,
        score: score(encode_utf8(line).len(), terms_in(tail(encode_utf8(lower)), terms)),
        indices: highlight(line, lower, terms),
        exact: true,
    }
}

/// Whether every term stands in the lower case text.
fn do_all_stand(lower: &str, terms: &Vec<String>) -> (yes: bool)
    ensures
        yes == all_stand(lower@, texts(terms@)),
{
    let ghost all = texts(terms@);
    let hay = lower.as_bytes();
    let mut t: usize = 0;
    while t < terms.len()
        invariant
            all == texts(terms@),
            t <= terms@.len(),
            hay@ == encode_utf8(lower@),
            forall|k: int|
                0 <= k < t ==> contains(encode_utf8(lower@), #[trigger] encode_utf8(all[k])),
        decreases terms@.len() - t,
    {
        let term = terms[t].as_str().as_bytes();
        assert(term@ == encode_utf8(all[t as int]));
        if !is_in(hay, term) {
            return false;
        }
        t += 1;
    }
    true
}

/// Holds a line against the terms. `lower` is the line in lower case.
pub fn match_line(index: u32, line: &str, lower: &str, terms: &Vec<String>) -> (found: Option<
    MatchIndices,
>)
    ensures
        found is Some <==> all_stand(lower@, texts(terms@)),
        found matches Some(m) ==> m@ == match_of(index, line@, lower@, texts(terms@)),
{
    if !do_all_stand(lower, terms) {
        return None;
    }
    let ghost all = texts(terms@);
    let hay = lower.as_bytes();
    let len: usize = line.as_bytes().len();
    let whole: bool = hay.len() == len;
    let size: usize = if hay.len() == 0 {
        1
    } else {
        hay.len()
    };
    let mut marks: Vec<bool> = vec![false;size];
    let mut t: usize = 0;
    while t < terms.len()
        invariant
            all == texts(terms@),
            t <= terms@.len(),
            hay@ == encode_utf8(lower@),
            size == offsets(hay@.len()),
            marks@.len() == size,
            forall|pos: int|
                0 <= pos < size ==> #[trigger] marks@[pos] == marked(
                    hay@,
                    all.take(t as int),
                    whole,
                    pos,
                ),
        decreases terms@.len() - t,
    {
        let term = terms[t].as_str().as_bytes();
        assert(term@ == encode_utf8(all[t as int]));
        let ghost held = marks@;
        mark_hits(hay, term, whole, &mut marks);
        proof {
            let old_terms = all.take(t as int);
            let new_terms = all.take(t + 1);
            assert forall|pos: int| 0 <= pos < size implies #[trigger] marks@[pos] == marked(
                hay@,
                new_terms,
                whole,
                pos,
            ) by {
                assert(held[pos] == marked(hay@, old_terms, whole, pos));
                assert(new_terms[t as int] == all[t as int]);
                if marked(hay@, old_terms, whole, pos) {
                    let k = choose|k: int|
                        0 <= k < old_terms.len() && covered(
                            hits(hay@, #[trigger] encode_utf8(old_terms[k]), 0),
                            mark_width(encode_utf8(old_terms[k]), whole),
                            pos,
                        );
                    assert(new_terms[k] == old_terms[k]);
                }
                if marked(hay@, new_terms, whole, pos) {
                    let k = choose|k: int|
                        0 <= k < new_terms.len() && covered(
                            hits(hay@, #[trigger] encode_utf8(new_terms[k]), 0),
                            mark_width(encode_utf8(new_terms[k]), whole),
                            pos,
                        );
                    if k < t {
                        assert(new_terms[k] == old_terms[k]);
                    }
                }
            }
        }
        t += 1;
    }
    assert(all.take(t as int) =~= all);
    let mut indices: Vec<usize> = Vec::new();
    let mut pos: usize = 0;
    while pos < size
        invariant
            pos <= size == marks@.len(),
            indices@ == marked_below(hay@, all, whole, pos as nat),
            forall|p: int| 0 <= p < size ==> #[trigger] marks@[p] == marked(hay@, all, whole, p),
        decreases size - pos,
    {
        if marks[pos] {
            indices.push(pos);
        }
        pos += 1;
    }
    let count: usize = count_terms_in(tail_of(hay), terms);
    Some(MatchIndices { index, score: score_of(len, count), indices, exact: true })
}

/// The last segment holds no slash, and stands between a slash, or the beginning of the
/// path, and slashes, or its end; unless the path is made of slashes alone.
pub proof fn law_tail_is_the_last_segment(path: Seq<u8>, end: int)
    requires
        0 < end <= path.len(),
        path[end - 1] != SLASH,
        forall|k: int| end <= k < path.len() ==> #[trigger] path[k] == SLASH,
    ensures
        ({
            let start = end - tail(path).len();
            &&& 0 <= start < end
            &&& tail(path) == path.subrange(start, end)
            &&& forall|k: int| start <= k < end ==> #[trigger] path[k] != SLASH
            &&& start > 0 ==> path[start - 1] == SLASH
        }),
{
    let cut: Set<u8> = set![SLASH];
    let trimmed = trim_end(path, cut);
    lemma_trim_end(path, cut);
    assert(path.subrange(0, trimmed.len() as int) == trimmed);
    if trimmed.len() > end {
        assert(trimmed.last() == path[trimmed.len() - 1]);
    }
    if trimmed.len() < end {
        assert(cut.contains(path[end - 1]));
    }
    assert(trimmed == path.subrange(0, end));
    lemma_last_segment(trimmed, cut);
    let start = end - tail(path).len();
    assert(trimmed.skip(start) =~= path.subrange(start, end));
    assert forall|k: int| start <= k < end implies #[trigger] path[k] != SLASH by {
        assert(!cut.contains(trimmed[k]));
    }
    if tail(path).len() == 0 {
        assert(cut.contains(trimmed[end - 1]));
    }
    if start > 0 {
        assert(cut.contains(trimmed[start - 1]));
    }
}

/// A marked offset is one at which a hit can start.
proof fn lemma_marked_bound(lower: Seq<u8>, terms: Seq<Seq<char>>, whole: bool, pos: int)
    requires
        marked(lower, terms, whole, pos),
    ensures
        0 <= pos < offsets(lower.len()),
{
    let t = choose|t: int|
        0 <= t < terms.len() && covered(
            hits(lower, #[trigger] encode_utf8(terms[t]), 0),
            mark_width(encode_utf8(terms[t]), whole),
            pos,
        );
    let term = encode_utf8(terms[t]);
    let starts = hits(lower, term, 0);
    law_hits_stand_apart(lower, term, 0);
    let k = choose|k: int|
        0 <= k < starts.len() && #[trigger] starts[k] <= pos < starts[k] + mark_width(term, whole);
    assert(occurs_at(lower, term, starts[k]));
    if term.len() == 0 {
        assert(lower.subrange(0, 0) =~= term);
        assert(occurs_at(lower, term, 0));
        let at = choose|at: int| first_from(lower, term, 0, at);
        assert(starts =~= seq![at]);
        assert(first_from(lower, term, 0, at));
    }
}

/// The marked offsets below a limit, one by one.
proof fn lemma_marked_below(
    lower: Seq<u8>,
    terms: Seq<Seq<char>>,
    whole: bool,
    limit: nat,
    pos: usize,
)
    requires
        limit <= usize::MAX,
    ensures
        marked_below(lower, terms, whole, limit).contains(pos) <==> pos < limit && marked(
            lower,
            terms,
            whole,
            pos as int,
        ),
        forall|k: int|
            0 <= k < marked_below(lower, terms, whole, limit).len() ==> #[trigger] marked_below(
                lower,
                terms,
                whole,
                limit,
            )[k] < limit,
        forall|j: int, k: int|
            0 <= j < k < marked_below(lower, terms, whole, limit).len() ==> #[trigger] marked_below(
                lower,
                terms,
                whole,
                limit,
            )[j] < #[trigger] marked_below(lower, terms, whole, limit)[k],
    decreases limit,
{
    if limit > 0 {
        let last = (limit - 1) as nat;
        lemma_marked_below(lower, terms, whole, last, pos);
        let before = marked_below(lower, terms, whole, last);
        let all = marked_below(lower, terms, whole, limit);
        if marked(lower, terms, whole, last as int) {
            assert(all[before.len() as int] == last);
            if before.contains(pos) {
                let k = choose|k: int| 0 <= k < before.len() && before[k] == pos;
                assert(all[k] == pos);
            }
            if all.contains(pos) {
                let k = choose|k: int| 0 <= k < all.len() && all[k] == pos;
                if k < before.len() {
                    assert(before[k] == pos);
                }
            }
        }
    }
}

/// The offsets to highlight go up, and they are those that the hits of the terms mark: all
/// bytes of a hit where the line is as long as its lower case text, and else the first.
pub proof fn law_highlight_is_what_the_hits_mark(
    line: Seq<char>,
    lower: Seq<char>,
    terms: Seq<Seq<char>>,
    pos: usize,
)
    requires
        encode_utf8(lower).len() <= usize::MAX,
    ensures
        highlight(line, lower, terms).contains(pos) <==> exists|t: int|
            0 <= t < terms.len() && covered(
                hits(encode_utf8(lower), #[trigger] encode_utf8(terms[t]), 0),
                if encode_utf8(line).len() == encode_utf8(lower).len() {
                    encode_utf8(terms[t]).len()
                } else {
                    1
                },
                pos as int,
            ),
        forall|j: int, k: int|
            0 <= j < k < highlight(line, lower, terms).len() ==> #[trigger] highlight(
                line,
                lower,
                terms,
            )[j] < #[trigger] highlight(line, lower, terms)[k],
{
    let hay = encode_utf8(lower);
    let whole = encode_utf8(line).len() == hay.len();
    lemma_marked_below(hay, terms, whole, offsets(hay.len()), pos);
    if marked(hay, terms, whole, pos as int) {
        lemma_marked_bound(hay, terms, whole, pos as int);
        let t = choose|t: int|
            0 <= t < terms.len() && covered(
                hits(hay, #[trigger] encode_utf8(terms[t]), 0),
                mark_width(encode_utf8(terms[t]), whole),
                pos as int,
            );
        assert(mark_width(encode_utf8(terms[t]), whole) == if whole {
            encode_utf8(terms[t]).len()
        } else {
            1
        });
    }
    if exists|t: int|
        0 <= t < terms.len() && covered(
            hits(hay, #[trigger] encode_utf8(terms[t]), 0),
            if whole {
                encode_utf8(terms[t]).len()
            } else {
                1
            },
            pos as int,
        ) {
        let t = choose|t: int|
            0 <= t < terms.len() && covered(
                hits(hay, #[trigger] encode_utf8(terms[t]), 0),
                if whole {
                    encode_utf8(terms[t]).len()
                } else {
                    1
                },
                pos as int,
            );
        assert(covered(
            hits(hay, encode_utf8(terms[t]), 0),
            mark_width(encode_utf8(terms[t]), whole),
            pos as int,
        ));
    }
}

/// The last segment of a path is what stands behind the last slash (byte 47), or behind
/// none, when the slashes at the end are set aside.
pub proof fn law_tail_of_a_path(head: Seq<u8>, segment: Seq<u8>, slashes: Seq<u8>)
    requires
        head.len() > 0 ==> head.last() == 47,
        segment.len() > 0,
        forall|k: int| 0 <= k < segment.len() ==> #[trigger] segment[k] != 47,
        forall|k: int| 0 <= k < slashes.len() ==> #[trigger] slashes[k] == 47,
    ensures
        tail(head + segment + slashes) == segment,
{
    let path = head + segment + slashes;
    let end = (head.len() + segment.len()) as int;
    assert(path[end - 1] == segment[segment.len() - 1]);
    assert forall|k: int| end <= k < path.len() implies #[trigger] path[k] == SLASH by {
        assert(path[k] == slashes[k - end]);
    }
    law_tail_is_the_last_segment(path, end);
    let start = end - tail(path).len();
    if start < head.len() {
        assert(path[head.len() - 1] == head.last());
    }
    if start > head.len() {
        assert(path[start - 1] == segment[start - 1 - head.len()]);
    }
    assert(path.subrange(start, end) =~= segment);
}

/// A path made of slashes alone is its own last segment, and so is the empty path.
pub proof fn law_slashes_are_their_own_tail(path: Seq<u8>)
    requires
        forall|k: int| 0 <= k < path.len() ==> #[trigger] path[k] == 47,
    ensures
        tail(path) == path,
{
    let cut: Set<u8> = set![SLASH];
    let trimmed = trim_end(path, cut);
    lemma_trim_end(path, cut);
    if trimmed.len() > 0 {
        assert(path.subrange(0, trimmed.len() as int) == trimmed);
        assert(trimmed.last() == path[trimmed.len() - 1]);
    }
}

/// A byte is highlighted where it is one of a hit of a term: any of its bytes where the line
/// is as long as its lower case text, and else the first.
pub proof fn law_highlighted_bytes_belong_to_hits(
    line: Seq<char>,
    lower: Seq<char>,
    terms: Seq<Seq<char>>,
    pos: usize,
)
    requires
        encode_utf8(lower).len() <= usize::MAX,
    ensures
        encode_utf8(line).len() == encode_utf8(lower).len() ==> (highlight(
            line,
            lower,
            terms,
        ).contains(pos) <==> exists|t: int, k: int|
            0 <= t < terms.len() && 0 <= k < hits(
                encode_utf8(lower),
                encode_utf8(terms[t]),
                0,
            ).len() && #[trigger] hits(encode_utf8(lower), encode_utf8(terms[t]), 0)[k] <= pos
                < hits(encode_utf8(lower), encode_utf8(terms[t]), 0)[k] + encode_utf8(
                terms[t],
            ).len()),
        encode_utf8(line).len() != encode_utf8(lower).len() ==> (highlight(
            line,
            lower,
            terms,
        ).contains(pos) <==> exists|t: int, k: int|
            0 <= t < terms.len() && 0 <= k < hits(
                encode_utf8(lower),
                encode_utf8(terms[t]),
                0,
            ).len() && #[trigger] hits(encode_utf8(lower), encode_utf8(terms[t]), 0)[k] == pos),
{
    law_highlight_is_what_the_hits_mark(line, lower, terms, pos);
    let hay = encode_utf8(lower);
    let whole = encode_utf8(line).len() == hay.len();
    if highlight(line, lower, terms).contains(pos) {
        let t = choose|t: int|
            0 <= t < terms.len() && covered(
                hits(hay, #[trigger] encode_utf8(terms[t]), 0),
                if whole {
                    encode_utf8(terms[t]).len()
                } else {
                    1
                },
                pos as int,
            );
        let starts = hits(hay, encode_utf8(terms[t]), 0);
        let width = if whole {
            encode_utf8(terms[t]).len()
        } else {
            1
        };
        let k = choose|k: int|
            0 <= k < starts.len() && #[trigger] starts[k] <= pos < starts[k] + width;
        assert(hits(hay, encode_utf8(terms[t]), 0)[k] <= pos);
    }
    assert forall|t: int, k: int|
        0 <= t < terms.len() && 0 <= k < hits(hay, encode_utf8(terms[t]), 0).len()
            && #[trigger] hits(hay, encode_utf8(terms[t]), 0)[k] <= pos < hits(hay, encode_utf8(terms[t]), 0)[k] + (if whole {
            encode_utf8(terms[t]).len()
        } else {
            1
        }) implies highlight(line, lower, terms).contains(pos) by {
        assert(covered(
            hits(hay, encode_utf8(terms[t]), 0),
            if whole {
                encode_utf8(terms[t]).len()
            } else {
                1
            },
            pos as int,
        ));
    }
}

/// A match names its line, is exact, has the offsets to highlight, and has the points that
/// the line has for its length in bytes and the terms in its last segment.
pub proof fn law_match_tells_of_its_line(
    index: u32,
    line: Seq<char>,
    lower: Seq<char>,
    terms: Seq<Seq<char>>,
)
    ensures
        match_of(index, line, lower, terms).index == index,
        match_of(index, line, lower, terms).exact,
        match_of(index, line, lower, terms).indices == highlight(line, lower, terms),
        match_of(index, line, lower, terms).score == score(
            encode_utf8(line).len(),
            terms_in(tail(encode_utf8(lower)), terms),
        ),
{
}

} // verus!
