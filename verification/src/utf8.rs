//! Characters and the bytes that stand for them.
use vstd::prelude::*;
use vstd::utf8::{
    char_u32_cast, decode_first_scalar, decode_utf8, decode_utf8_encode_utf8, decode_utf8_split, encode_scalar,
    encode_utf8, encode_utf8_decode_utf8, encode_utf8_first_scalar, encode_utf8_valid_utf8,
    is_char_boundary, is_char_boundary_iff_not_is_continuation_byte, is_continuation_byte,
    valid_utf8_split,
};

use crate::find::{contains, occurs_at};

verus! {

/// `part` stands in `text`, character by character, from character `at` on.
pub open spec fn reads_at(text: Seq<char>, part: Seq<char>, at: int) -> bool {
    0 <= at && at + part.len() <= text.len() && text.subrange(at, at + part.len()) == part
}

/// `part` stands somewhere in `text`, character by character.
pub open spec fn reads(text: Seq<char>, part: Seq<char>) -> bool {
    exists|at: int| reads_at(text, part, at)
}

/// The bytes of two texts in a row are the bytes of the one, then those of the other.
pub proof fn lemma_encode_sum(left: Seq<char>, right: Seq<char>)
    ensures
        encode_utf8(left + right) == encode_utf8(left) + encode_utf8(right),
    decreases left.len(),
{
    if left.len() == 0 {
        assert(left + right =~= right);
        assert(encode_utf8(left) + encode_utf8(right) =~= encode_utf8(right));
    } else {
        lemma_encode_sum(left.drop_first(), right);
        assert((left + right).drop_first() =~= left.drop_first() + right);
        assert(encode_utf8(left + right) =~= encode_utf8(left) + encode_utf8(right));
    }
}

/// A text that starts with the bytes of another starts with its characters.
proof fn lemma_prefix(text: Seq<char>, part: Seq<char>)
    requires
        encode_utf8(part).is_prefix_of(encode_utf8(text)),
    ensures
        part.is_prefix_of(text),
    decreases part.len(),
{
    let long = encode_utf8(text);
    let short = encode_utf8(part);
    assert(forall|k: int| 0 <= k < short.len() ==> long[k] == short[k]) by {
        assert forall|k: int| 0 <= k < short.len() implies long[k] == short[k] by {
            assert(long.subrange(0, short.len() as int)[k] == short[k]);
        }
    }
    if part.len() == 0 {
        assert(text.subrange(0, 0) =~= part);
    } else {
        encode_utf8_first_scalar(part);
        assert(short.len() > 0);
        assert(text.len() > 0);
        encode_utf8_first_scalar(text);
        assert(decode_first_scalar(long) == decode_first_scalar(short));
        char_u32_cast(text[0], decode_first_scalar(long));
        char_u32_cast(part[0], decode_first_scalar(long));
        assert(text[0] == part[0]);
        let width = encode_scalar(part[0] as u32).len();
        let rest = text.drop_first();
        let more = part.drop_first();
        assert(encode_utf8(rest) =~= long.skip(width as int));
        assert(encode_utf8(more) =~= short.skip(width as int));
        assert(encode_utf8(rest).subrange(0, encode_utf8(more).len() as int) =~= encode_utf8(
            more,
        ));
        lemma_prefix(rest, more);
        assert(text.subrange(0, part.len() as int) =~= part) by {
            assert forall|k: int| 0 <= k < part.len() implies text[k] == part[k] by {
                if k > 0 {
                    assert(rest.subrange(0, more.len() as int)[k - 1] == more[k - 1]);
                }
            }
        }
    }
}

/// The bytes of a text stand in those of another just where its characters do.
pub proof fn law_bytes_stand_where_characters_do(text: Seq<char>, part: Seq<char>)
    ensures
        contains(encode_utf8(text), encode_utf8(part)) <==> reads(text, part),
{
    let long = encode_utf8(text);
    let short = encode_utf8(part);
    if reads(text, part) {
        let at = choose|at: int| reads_at(text, part, at);
        let before = text.take(at);
        let behind = text.skip(at + part.len());
        assert(text =~= before + part + behind);
        lemma_encode_sum(before, part);
        lemma_encode_sum(before + part, behind);
        let start = encode_utf8(before).len() as int;
        assert(long.subrange(start, start + short.len()) =~= short);
        assert(occurs_at(long, short, start));
    }
    if contains(long, short) {
        let at = choose|at: int| occurs_at(long, short, at);
        if part.len() == 0 {
            assert(text.subrange(0, 0) =~= part);
            assert(reads_at(text, part, 0));
        } else {
            encode_utf8_first_scalar(part);
            encode_utf8_valid_utf8(text);
            assert(long.subrange(at, at + short.len())[0] == short[0]);
            assert(!is_continuation_byte(long[at]));
            is_char_boundary_iff_not_is_continuation_byte(long, at);
            assert(is_char_boundary(long, at));
            let head = long.subrange(0, at);
            let end = long.subrange(at, long.len() as int);
            valid_utf8_split(long, at);
            decode_utf8_split(long, at);
            encode_utf8_decode_utf8(text);
            let before = decode_utf8(head);
            let behind = decode_utf8(end);
            assert(text == before + behind);
            decode_utf8_encode_utf8(end);
            assert(encode_utf8(behind) == end);
            assert(end.subrange(0, short.len() as int) =~= short);
            lemma_prefix(behind, part);
            let p = before.len() as int;
            assert(text.subrange(p, p + part.len()) =~= behind.subrange(0, part.len() as int));
            assert(reads_at(text, part, p));
        }
    }
}

} // verus!
