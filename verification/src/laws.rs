//! What holds of the selector as a whole.
use vstd::prelude::*;
use vstd::seq_lib::{to_multiset_len, to_multiset_remove};
use vstd::utf8::encode_utf8;

use crate::find::contains;
use crate::keys::Action;
use crate::matching::{all_stand, match_of, MatchView};
use crate::query::{law_words_of_parts, terms_of, white_space, words};
use crate::ranking::{is_ranking_of, lemma_same_members, outranks, ranked};
use crate::reader::{
    chunked, law_only_the_line_end_goes, law_reading_keeps_the_lines, stripped,
};
use crate::search::matches_in;
use crate::state::{outcome_of, result_count, with_lines, OutcomeView, StateView};
use crate::store::CHUNK_SIZE;
use crate::text::lowercase;
use crate::utf8::{law_bytes_stand_where_characters_do, reads};

verus! {

/// How many lines a match can tell apart.
pub open spec fn index_limit() -> nat {
    0x1_0000_0000
}

/// A line matches where each term reads somewhere in its lower case text.
pub proof fn law_every_term_must_be_present(line: Seq<char>, query: Seq<char>)
    ensures
        all_stand(lowercase(line), terms_of(query)) <==> forall|w: int|
            0 <= w < words(query).len() ==> reads(
                lowercase(line),
                lowercase(#[trigger] words(query)[w]),
            ),
{
    let lower = lowercase(line);
    let terms = terms_of(query);
    if all_stand(lower, terms) {
        assert forall|w: int| 0 <= w < words(query).len() implies reads(
            lower,
            lowercase(#[trigger] words(query)[w]),
        ) by {
            assert(contains(encode_utf8(lower), encode_utf8(terms[w])));
            law_bytes_stand_where_characters_do(lower, terms[w]);
        }
    }
    if forall|w: int|
        0 <= w < words(query).len() ==> reads(lower, lowercase(#[trigger] words(query)[w])) {
        assert forall|t: int| 0 <= t < terms.len() implies contains(
            encode_utf8(lower),
            #[trigger] encode_utf8(terms[t]),
        ) by {
            assert(reads(lower, lowercase(words(query)[t])));
            law_bytes_stand_where_characters_do(lower, terms[t]);
        }
    }
}

/// The words of a query narrow the matches down one by one: a line matches two queries
/// with white space between them where it matches both.
pub proof fn law_more_words_match_less(
    line: Seq<char>,
    left: Seq<char>,
    blank: char,
    right: Seq<char>,
)
    requires
        white_space(blank),
    ensures
        all_stand(lowercase(line), terms_of(left.push(blank) + right)) <==> all_stand(
            lowercase(line),
            terms_of(left),
        ) && all_stand(lowercase(line), terms_of(right)),
{
    law_words_of_parts(left, blank, right);
    let l = terms_of(left);
    let r = terms_of(right);
    let all = terms_of(left.push(blank) + right);
    assert(all =~= l + r);
    let lower = lowercase(line);
    if all_stand(lower, all) {
        assert forall|t: int| 0 <= t < l.len() implies contains(
            encode_utf8(lower),
            #[trigger] encode_utf8(l[t]),
        ) by {
            assert(contains(encode_utf8(lower), encode_utf8(all[t])));
        }
        assert forall|t: int| 0 <= t < r.len() implies contains(
            encode_utf8(lower),
            #[trigger] encode_utf8(r[t]),
        ) by {
            assert(contains(encode_utf8(lower), encode_utf8(all[l.len() + t])));
        }
    }
    if all_stand(lower, l) && all_stand(lower, r) {
        assert forall|t: int| 0 <= t < all.len() implies contains(
            encode_utf8(lower),
            #[trigger] encode_utf8(all[t]),
        ) by {
            if t < l.len() {
                assert(contains(encode_utf8(lower), encode_utf8(l[t])));
            } else {
                assert(contains(encode_utf8(lower), encode_utf8(r[t - l.len()])));
            }
        }
    }
}

/// Case does not matter: lines that have one lower case text match the same queries, and
/// queries that have one set of terms match the same lines.
pub proof fn law_case_does_not_matter(
    line: Seq<char>,
    other_line: Seq<char>,
    query: Seq<char>,
    other_query: Seq<char>,
)
    requires
        lowercase(line) == lowercase(other_line),
        words(query).len() == words(other_query).len(),
        forall|w: int|
            0 <= w < words(query).len() ==> lowercase(#[trigger] words(query)[w]) == lowercase(
                words(other_query)[w],
            ),
    ensures
        all_stand(lowercase(line), terms_of(query)) <==> all_stand(
            lowercase(other_line),
            terms_of(other_query),
        ),
{
    assert(terms_of(query) =~= terms_of(other_query)) by {
        assert forall|t: int| 0 <= t < words(query).len() implies terms_of(query)[t] == terms_of(
            other_query,
        )[t] by {
            assert(lowercase(words(query)[t]) == lowercase(words(other_query)[t]));
        }
    }
}

/// A search finds matching lines: each match is that of the line that it names, and the
/// lines that the matches name go up.
pub proof fn law_matches_match(lines: Seq<Seq<char>>, terms: Seq<Seq<char>>)
    requires
        lines.len() <= index_limit(),
    ensures
        forall|k: int|
            0 <= k < matches_in(0, lines, terms).len() ==> {
                let m = #[trigger] matches_in(0, lines, terms)[k];
                &&& m.index < lines.len()
                &&& all_stand(lowercase(lines[m.index as int]), terms)
                &&& m == match_of(
                    m.index,
                    lines[m.index as int],
                    lowercase(lines[m.index as int]),
                    terms,
                )
            },
        forall|j: int, k: int|
            0 <= j < k < matches_in(0, lines, terms).len() ==> (#[trigger] matches_in(
                0,
                lines,
                terms,
            )[j]).index < (#[trigger] matches_in(0, lines, terms)[k]).index,
    decreases lines.len(),
{
    if lines.len() > 0 {
        let front = lines.drop_last();
        law_matches_match(front, terms);
        let before = matches_in(0, front, terms);
        let all = matches_in(0, lines, terms);
        assert forall|k: int| 0 <= k < all.len() implies {
            let m = #[trigger] all[k];
            &&& m.index < lines.len()
            &&& all_stand(lowercase(lines[m.index as int]), terms)
            &&& m == match_of(
                m.index,
                lines[m.index as int],
                lowercase(lines[m.index as int]),
                terms,
            )
        } by {
            if k < before.len() {
                assert(all[k] == before[k]);
                assert(front[before[k].index as int] == lines[before[k].index as int]);
            } else {
                assert(all[k].index == lines.len() - 1);
            }
        }
        assert forall|j: int, k: int| 0 <= j < k < all.len() implies (#[trigger] all[j]).index < (
        #[trigger] all[k]).index by {
            assert(all[j] == before[j]);
            if k < before.len() {
                assert(all[k] == before[k]);
            }
        }
    }
}

/// A search misses no matching line.
pub proof fn law_no_match_is_missed(lines: Seq<Seq<char>>, terms: Seq<Seq<char>>, g: int)
    requires
        lines.len() <= index_limit(),
        0 <= g < lines.len(),
        all_stand(lowercase(lines[g]), terms),
    ensures
        exists|k: int|
            0 <= k < matches_in(0, lines, terms).len() && (#[trigger] matches_in(
                0,
                lines,
                terms,
            )[k]).index == g,
    decreases lines.len(),
{
    let front = lines.drop_last();
    let before = matches_in(0, front, terms);
    let all = matches_in(0, lines, terms);
    if g == lines.len() - 1 {
        assert(all[before.len() as int].index == g);
    } else {
        assert(front[g] == lines[g]);
        law_no_match_is_missed(front, terms, g);
        let k = choose|k: int| 0 <= k < before.len() && (#[trigger] before[k]).index == g;
        assert(all[k] == before[k]);
    }
}

/// No two matches name one line.
spec fn apart(matches: Seq<MatchView>) -> bool {
    forall|j: int, k: int|
        0 <= j < matches.len() && 0 <= k < matches.len() && (#[trigger] matches[j]).index == (
        #[trigger] matches[k]).index ==> j == k
}

/// Two rankings of the same matches are one.
proof fn lemma_rankings_agree(a: Seq<MatchView>, b: Seq<MatchView>)
    requires
        ranked(a),
        ranked(b),
        a.to_multiset() == b.to_multiset(),
        apart(a),
    ensures
        a == b,
    decreases a.len(),
{
    to_multiset_len(a);
    to_multiset_len(b);
    a.to_multiset_ensures();
    b.to_multiset_ensures();
    if a.len() == 0 {
        assert(a =~= b);
    } else {
        assert(a.contains(a[0]));
        assert(b.contains(b[0]));
        lemma_same_members(a, b, a[0]);
        lemma_same_members(b, a, b[0]);
        let j = choose|j: int| 0 <= j < a.len() && a[j] == b[0];
        let k = choose|k: int| 0 <= k < b.len() && b[k] == a[0];
        if j != 0 {
            assert(outranks(a[0], a[j]));
            if k == 0 {
                assert(a[0] == a[j]);
            } else {
                assert(outranks(b[0], b[k]));
            }
            assert(a[0].index == a[j].index);
        }
        assert(a[0] == b[0]);
        let ra = a.remove(0);
        let rb = b.remove(0);
        to_multiset_remove(a, 0);
        to_multiset_remove(b, 0);
        assert forall|x: int, y: int| 0 <= x < y < ra.len() implies outranks(ra[x], ra[y]) by {
            assert(outranks(a[x + 1], a[y + 1]));
        }
        assert forall|x: int, y: int| 0 <= x < y < rb.len() implies outranks(rb[x], rb[y]) by {
            assert(outranks(b[x + 1], b[y + 1]));
        }
        assert forall|x: int, y: int|
            0 <= x < ra.len() && 0 <= y < ra.len() && (#[trigger] ra[x]).index == (
            #[trigger] ra[y]).index implies x == y by {
            assert(a[x + 1].index == a[y + 1].index);
        }
        lemma_rankings_agree(ra, rb);
        assert(a =~= seq![a[0]] + ra);
        assert(b =~= seq![b[0]] + rb);
    }
}

/// What is apart stays apart in another order.
proof fn lemma_ranking_apart(ordered: Seq<MatchView>, found: Seq<MatchView>)
    requires
        ordered.to_multiset() == found.to_multiset(),
        apart(found),
    ensures
        apart(ordered),
{
    ordered.to_multiset_ensures();
    found.to_multiset_ensures();
    assert(found.no_duplicates());
    found.lemma_multiset_has_no_duplicates();
    assert forall|x: MatchView| ordered.to_multiset().contains(x) implies ordered.to_multiset().count(
        x,
    ) == 1 by {
        assert(found.to_multiset().contains(x));
    }
    ordered.lemma_multiset_has_no_duplicates_conv();
    assert forall|j: int, k: int|
        0 <= j < ordered.len() && 0 <= k < ordered.len() && (#[trigger] ordered[j]).index == (
        #[trigger] ordered[k]).index implies j == k by {
        assert(ordered.contains(ordered[j]));
        assert(ordered.contains(ordered[k]));
        lemma_same_members(ordered, found, ordered[j]);
        lemma_same_members(ordered, found, ordered[k]);
        let x = choose|x: int| 0 <= x < found.len() && found[x] == ordered[j];
        let y = choose|y: int| 0 <= y < found.len() && found[y] == ordered[k];
        assert(found[x].index == found[y].index);
    }
}

/// The order of the results is settled by the lines and the terms: any two rankings of
/// what a search finds are the same.
pub proof fn law_order_is_determined(
    lines: Seq<Seq<char>>,
    terms: Seq<Seq<char>>,
    a: Seq<MatchView>,
    b: Seq<MatchView>,
)
    requires
        lines.len() <= index_limit(),
        is_ranking_of(a, matches_in(0, lines, terms)),
        is_ranking_of(b, matches_in(0, lines, terms)),
    ensures
        a == b,
{
    let found = matches_in(0, lines, terms);
    law_matches_match(lines, terms);
    assert(apart(found));
    lemma_ranking_apart(a, found);
    lemma_rankings_agree(a, b);
}

/// What is accepted with a query is a line that matches it: where the matches are those of
/// a search for `query` in the first `searched` lines.
pub proof fn law_accepted_line_matches(state: StateView, query: Seq<char>, searched: int)
    requires
        0 <= searched <= state.lines.len(),
        searched <= index_limit(),
        is_ranking_of(state.matches, matches_in(0, state.lines.take(searched), terms_of(query))),
        state.query.len() > 0,
        state.selection_index < result_count(state),
    ensures
        outcome_of(state, Action::Accept) matches OutcomeView::Accept(line) && all_stand(
            lowercase(line),
            terms_of(query),
        ),
{
    let lines = state.lines.take(searched);
    let found = matches_in(0, lines, terms_of(query));
    law_matches_match(lines, terms_of(query));
    let m = state.matches[state.selection_index as int];
    assert(state.matches.contains(m));
    lemma_same_members(state.matches, found, m);
    let k = choose|k: int| 0 <= k < found.len() && found[k] == m;
    assert(all_stand(lowercase(lines[found[k].index as int]), terms_of(query)));
    assert(lines[m.index as int] == state.lines[m.index as int]);
}

/// A state that has taken in the chunks, one by one.
pub open spec fn fed(state: StateView, chunks: Seq<Seq<Seq<char>>>) -> StateView
    decreases chunks.len(),
{
    if chunks.len() == 0 {
        state
    } else {
        with_lines(fed(state, chunks.drop_last()), chunks.last())
    }
}

/// Full chunks leave a place for the next one.
proof fn lemma_fed(state: StateView, chunks: Seq<Seq<Seq<char>>>)
    requires
        state.lines.len() == 0,
        forall|k: int| 0 <= k < chunks.len() ==> (#[trigger] chunks[k]).len() == CHUNK_SIZE,
    ensures
        fed(state, chunks).lines == chunks.flatten(),
        fed(state, chunks).lines.len() == chunks.len() * CHUNK_SIZE,
    decreases chunks.len(),
{
    if chunks.len() == 0 {
        assert(chunks.flatten() =~= seq![]);
        assert(state.lines =~= chunks.flatten());
    } else {
        let front = chunks.drop_last();
        assert forall|k: int| 0 <= k < front.len() implies (#[trigger] front[k]).len()
            == CHUNK_SIZE by {
            assert(front[k] == chunks[k]);
        }
        lemma_fed(state, front);
        assert(chunks =~= front.push(chunks.last()));
        front.lemma_flatten_push(chunks.last());
        assert(chunks[chunks.len() - 1].len() == CHUNK_SIZE);
    }
}

/// From an empty state on, there is a place for each chunk that reading completes, and for
/// what is left over; and then the lines of the state are those that were read, in their
/// order.
pub proof fn law_lines_read_are_lines_kept(state: StateView, raws: Seq<Seq<char>>, k: int)
    requires
        state.lines.len() == 0,
        0 <= k <= chunked(raws).0.len(),
    ensures
        fed(state, chunked(raws).0.take(k)).lines.len() % (CHUNK_SIZE as nat) == 0,
        with_lines(fed(state, chunked(raws).0), chunked(raws).1).lines == raws.map_values(
            |raw: Seq<char>| stripped(raw),
        ),
{
    law_reading_keeps_the_lines(raws);
    let chunks = chunked(raws).0;
    assert forall|j: int| 0 <= j < k implies (#[trigger] chunks.take(k)[j]).len()
        == CHUNK_SIZE by {
        assert(chunks.take(k)[j] == chunks[j]);
    }
    lemma_fed(state, chunks.take(k));
    lemma_fed(state, chunks);
}

/// Lines that come in with line feeds behind them are kept as they are, where they do not
/// end in carriage returns.
pub proof fn law_lines_come_through(state: StateView, lines: Seq<Seq<char>>)
    requires
        state.lines.len() == 0,
        forall|k: int|
            0 <= k < lines.len() ==> (#[trigger] lines[k]).len() == 0 || lines[k].last() != '\r',
    ensures
        ({
            let raws = lines.map_values(|line: Seq<char>| line.push('\n'));
            with_lines(fed(state, chunked(raws).0), chunked(raws).1).lines == lines
        }),
{
    let raws = lines.map_values(|line: Seq<char>| line.push('\n'));
    law_lines_read_are_lines_kept(state, raws, 0);
    let kept = raws.map_values(|raw: Seq<char>| stripped(raw));
    assert forall|k: int| 0 <= k < lines.len() implies kept[k] == lines[k] by {
        law_only_the_line_end_goes(lines[k]);
        assert(lines[k].len() == 0 || lines[k].last() != '\r');
    }
    assert(kept =~= lines);
}

} // verus!
