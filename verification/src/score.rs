//! The score that orders the matches.
use vstd::prelude::*;
use vstd::utf8::encode_utf8;

use crate::find::{contains, is_in, law_what_stands_parts_the_text};
use crate::text::texts;

verus! {

/// What a line of no length scores.
pub const FULL_SCORE: i32 = 20000;

/// What the first term in the last segment of a path adds.
pub const FIRST_TERM_BONUS: i32 = 4000;

/// What each further term in the last segment adds.
pub const NEXT_TERM_BONUS: i32 = 1500;

/// How many of the terms stand in `segment`, empty ones set aside.
pub open spec fn terms_in(segment: Seq<u8>, terms: Seq<Seq<char>>) -> nat
    decreases terms.len(),
{
    if terms.len() == 0 {
        0
    } else {
        let term = encode_utf8(terms.last());
        terms_in(segment, terms.drop_last()) + if term.len() > 0 && contains(segment, term) {
            1nat
        } else {
            0nat
        }
    }
}

/// What `count` terms in the last segment add. The sum wraps around at the ends of `i32`.
pub open spec fn tail_bonus(count: i32) -> i32 {
    if count > 0 {
        FIRST_TERM_BONUS.wrapping_add(((count - 1) as i32).wrapping_mul(NEXT_TERM_BONUS))
    } else {
        0
    }
}

/// The full score less the length of the line, at most the greatest `i32`.
pub open spec fn base_score(len: i32) -> i32 {
    if FULL_SCORE - len > i32::MAX {
        i32::MAX
    } else {
        (FULL_SCORE - len) as i32
    }
}

/// The nearest value to `points` that a score can have.
pub open spec fn clamped(points: i32) -> u16 {
    if points < 0 {
        0
    } else if points > u16::MAX {
        u16::MAX
    } else {
        points as u16
    }
}

/// The score of a line of `len` bytes with `count` terms in its last segment. Both are
/// taken modulo the range of `i32`.
pub open spec fn score(len: nat, count: nat) -> u16 {
    clamped(base_score(len as i32).wrapping_add(tail_bonus(count as i32)))
}

/// The number of terms in `segment`, empty ones set aside.
pub fn count_terms_in(segment: &[u8], terms: &Vec<String>) -> (count: usize)
    ensures
        count == terms_in(segment@, texts(terms@)),
        count <= terms@.len(),
{
    let ghost all = texts(terms@);
    let mut count: usize = 0;
    let mut t: usize = 0;
    while t < terms.len()
        invariant
            all == texts(terms@),
            t <= terms@.len(),
            count <= t,
            count == terms_in(segment@, all.take(t as int)),
        decreases terms@.len() - t,
    {
        let term = terms[t].as_str().as_bytes();
        assert(all.take(t + 1).drop_last() =~= all.take(t as int));
        assert(all.take(t + 1).last() == terms@[t as int]@);
        if term.len() > 0 && is_in(segment, term) {
            count += 1;
        }
        t += 1;
    }
    assert(all.take(t as int) =~= all);
    count
}

/// The score of a line.
pub fn score_of(len: usize, count: usize) -> (points: u16)
    ensures
        points == score(len as nat, count as nat),
{
    let size: i32 = len as i32;
    let found: i32 = count as i32;
    let bonus: i32 = if found > 0 {
        FIRST_TERM_BONUS.wrapping_add((found - 1).wrapping_mul(NEXT_TERM_BONUS))
    } else {
        0
    };
    let base: i32 = if size < FULL_SCORE - i32::MAX {
        i32::MAX
    } else {
        FULL_SCORE - size
    };
    let sum: i32 = base.wrapping_add(bonus);
    if sum < 0 {
        0
    } else if sum > 65535 {
        65535
    } else {
        sum as u16
    }
}

/// Where nothing wraps around, the score is the full score less the length, plus the
/// bonus of the terms, kept between 0 and 65535.
pub proof fn law_score_is_plain_sum(len: nat, count: nat)
    requires
        len <= i32::MAX,
        FULL_SCORE + FIRST_TERM_BONUS + (count - 1) * NEXT_TERM_BONUS <= i32::MAX,
    ensures
        ({
            let bonus = if count > 0 {
                FIRST_TERM_BONUS + (count - 1) * NEXT_TERM_BONUS
            } else {
                0
            };
            let sum = FULL_SCORE - len + bonus;
            score(len, count) == if sum < 0 {
                0
            } else if sum > 65535 {
                65535
            } else {
                sum
            }
        }),
{
}

/// Of two lines of one length, the one with more terms in its last segment does not
/// score less; and it scores more where its score is above 0 and the other's is below
/// the greatest.
pub proof fn law_tail_terms_come_first(len: nat, fewer: nat, more: nat)
    requires
        len <= i32::MAX,
        fewer < more,
        FULL_SCORE + FIRST_TERM_BONUS + (more - 1) * NEXT_TERM_BONUS <= i32::MAX,
    ensures
        score(len, fewer) <= score(len, more),
        score(len, more) > 0 && score(len, fewer) < u16::MAX ==> score(len, fewer) < score(
            len,
            more,
        ),
{
    law_score_is_plain_sum(len, fewer);
    law_score_is_plain_sum(len, more);
}

/// Of two lines with as many terms in their last segments, the shorter one does not
/// score less.
pub proof fn law_shorter_lines_come_first(shorter: nat, longer: nat, count: nat)
    requires
        shorter < longer <= i32::MAX,
        FULL_SCORE + FIRST_TERM_BONUS + (count - 1) * NEXT_TERM_BONUS <= i32::MAX,
    ensures
        score(longer, count) <= score(shorter, count),
        score(shorter, count) > 0 && score(longer, count) < u16::MAX ==> score(longer, count)
            < score(shorter, count),
{
    law_score_is_plain_sum(shorter, count);
    law_score_is_plain_sum(longer, count);
}

/// A term counts once where it is not empty and its bytes stand in the segment, at
/// whatever place; else it does not count.
pub proof fn law_a_term_counts_where_it_stands(segment: Seq<u8>, term: Seq<char>)
    ensures
        encode_utf8(term).len() > 0 && (exists|before: Seq<u8>, behind: Seq<u8>|
            segment == #[trigger] (before + encode_utf8(term) + behind)) ==> terms_in(
            segment,
            seq![term],
        ) == 1,
        encode_utf8(term).len() == 0 || !(exists|before: Seq<u8>, behind: Seq<u8>|
            segment == #[trigger] (before + encode_utf8(term) + behind)) ==> terms_in(
            segment,
            seq![term],
        ) == 0,
{
    let bytes = encode_utf8(term);
    assert(seq![term].drop_last() =~= seq![]);
    assert(seq![term].last() == term);
    reveal_with_fuel(terms_in, 2);
    law_what_stands_parts_the_text(segment, bytes);
}

/// The terms count one by one: two lists of terms count as many as both together.
pub proof fn law_term_counts_add_up(segment: Seq<u8>, a: Seq<Seq<char>>, b: Seq<Seq<char>>)
    ensures
        terms_in(segment, a + b) == terms_in(segment, a) + terms_in(segment, b),
    decreases b.len(),
{
    if b.len() == 0 {
        assert(a + b =~= a);
    } else {
        assert((a + b).drop_last() =~= a + b.drop_last());
        law_term_counts_add_up(segment, a, b.drop_last());
    }
}

/// The points of a line in numbers, where nothing wraps around: 20000 less a point for each
/// byte; 4000 for a term in the last segment and 1500 for each further one; no less than 0
/// and no more than 65535.
pub proof fn law_points_of_a_line(len: nat, count: nat)
    requires
        len <= i32::MAX,
        22500 + 1500 * count <= i32::MAX,
    ensures
        count == 0 && len >= 20000 ==> score(len, count) == 0,
        count == 0 && len < 20000 ==> score(len, count) == 20000 - len,
        count > 0 && len >= 22500 + 1500 * count ==> score(len, count) == 0,
        count > 0 && len < 22500 + 1500 * count && 22500 + 1500 * count - len <= 65535 ==> score(
            len,
            count,
        ) == 22500 + 1500 * count - len,
        count > 0 && 22500 + 1500 * count - len > 65535 ==> score(len, count) == 65535,
{
    law_score_is_plain_sum(len, count);
}

/// Lengths and counts go round with the range of `i32`: those that differ by a multiple of
/// 2^32 give the same points.
pub proof fn law_points_go_round(len: u64, other_len: u64, count: u64, other_count: u64)
    requires
        len % 0x1_0000_0000 == other_len % 0x1_0000_0000,
        count % 0x1_0000_0000 == other_count % 0x1_0000_0000,
    ensures
        score(len as nat, count as nat) == score(other_len as nat, other_count as nat),
{
    assert(len as i32 == other_len as i32) by (bit_vector)
        requires
            len % 0x1_0000_0000 == other_len % 0x1_0000_0000,
    ;
    assert(count as i32 == other_count as i32) by (bit_vector)
        requires
            count % 0x1_0000_0000 == other_count % 0x1_0000_0000,
    ;
}

/// A length beyond the greatest `i32` counts as the negative number that it wraps around to:
/// without a term in the last segment such a line gets points for it, up to the most.
pub proof fn law_points_of_a_huge_line(len: u64)
    requires
        0x8000_0000 <= len < 0x1_0000_0000,
    ensures
        0x1_0000_0000 - len <= 45535 ==> score(len as nat, 0) == 20000 + (0x1_0000_0000 - len),
        0x1_0000_0000 - len > 45535 ==> score(len as nat, 0) == 65535,
{
    assert(len as i32 == len - 0x1_0000_0000) by (bit_vector)
        requires
            0x8000_0000 <= len < 0x1_0000_0000,
    ;
}

} // verus!
