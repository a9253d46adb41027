//! The terms of a query.
use vstd::prelude::*;

use crate::text::{chars_of, lowercase, texts};

verus! {

/// The characters that Unicode calls white space.
pub open spec fn white_space(c: char) -> bool {
    ||| '\u{9}' <= c <= '\u{d}'
    ||| c == '\u{20}'
    ||| c == '\u{85}'
    ||| c == '\u{a0}'
    ||| c == '\u{1680}'
    ||| '\u{2000}' <= c <= '\u{200a}'
    ||| c == '\u{2028}'
    ||| c == '\u{2029}'
    ||| c == '\u{202f}'
    ||| c == '\u{205f}'
    ||| c == '\u{3000}'
}

/// The runs of other characters between white space, from left to right: a character
/// starts a word at the beginning of the text and behind white space, and else joins the
/// word before it.
pub open spec fn words(text: Seq<char>) -> Seq<Seq<char>>
    decreases text.len(),
{
    if text.len() == 0 {
        seq![]
    } else {
        let front = text.drop_last();
        let c = text.last();
        if white_space(c) {
            words(front)
        } else if front.len() == 0 || white_space(front.last()) {
            words(front).push(seq![c])
        } else {
            words(front).drop_last().push(words(front).last().push(c))
        }
    }
}

/// The terms of a query: its words in lower case.
pub open spec fn terms_of(query: Seq<char>) -> Seq<Seq<char>> {
    words(query).map_values(|word: Seq<char>| lowercase(word))
}

/// Whether `c` is white space.
pub fn is_white_space(c: char) -> (yes: bool)
    ensures
        yes == white_space(c),
{
    ('\u{9}' <= c && c <= '\u{d}') || c == '\u{20}' || c == '\u{85}' || c == '\u{a0}' || c
        == '\u{1680}' || ('\u{2000}' <= c && c <= '\u{200a}') || c == '\u{2028}' || c
        == '\u{2029}' || c == '\u{202f}' || c == '\u{205f}' || c == '\u{3000}'
}

/// The words of a text.
pub fn split_words(text: &str) -> (found: Vec<String>)
    ensures
        texts(found@) == words(text@),
{
    let chars: Vec<char> = chars_of(text);
    let mut found: Vec<String> = Vec::new();
    let mut word: String = String::new();
    let mut i: usize = 0;
    while i < chars.len()
        invariant
            i <= chars@.len(),
            word@.len() > 0 <==> i > 0 && !white_space(chars@[i - 1]),
            words(chars@.take(i as int)) == if word@.len() > 0 {
                texts(found@).push(word@)
            } else {
                texts(found@)
            },
        decreases chars@.len() - i,
    {
        let c: char = chars[i];
        let ghost front = chars@.take(i as int);
        let ghost next = chars@.take(i + 1);
        proof {
            assert(next.drop_last() =~= front);
            assert(next.last() == c);
            if i > 0 {
                assert(front.last() == chars@[i - 1]);
            }
        }
        if is_white_space(c) {
            if !word.as_str().is_empty() {
                let ghost had = found@;
                found.push(word);
                assert(texts(found@) =~= texts(had).push(word@));
                word = String::new();
            }
        } else {
            let ghost had = word@;
            word.push(c);
            proof {
                if had.len() > 0 {
                    assert(texts(found@).push(had).drop_last() =~= texts(found@));
                } else {
                    assert(word@ =~= seq![c]);
                }
            }
        }
        i += 1;
    }
    assert(chars@.take(i as int) =~= text@);
    if !word.as_str().is_empty() {
        let ghost had = found@;
        found.push(word);
        assert(texts(found@) =~= texts(had).push(word@));
    }
    found
}

/// The terms of a query.
pub fn query_terms(query: &str) -> (terms: Vec<String>)
    ensures
        texts(terms@) == terms_of(query@),
{
    let found: Vec<String> = split_words(query);
    let mut terms: Vec<String> = Vec::new();
    let mut i: usize = 0;
    while i < found.len()
        invariant
            i <= found@.len(),
            texts(found@) == words(query@),
            texts(terms@) == terms_of(query@).take(i as int),
        decreases found@.len() - i,
    {
        let ghost had = terms@;
        let lower: String = found[i].as_str().to_lowercase();
        assert(texts(found@)[i as int] == found@[i as int]@);
        terms.push(lower);
        assert(texts(terms@) =~= texts(had).push(lower@));
        assert(terms_of(query@).take(i + 1) =~= terms_of(query@).take(i as int).push(lower@));
        i += 1;
    }
    assert(words(query@).len() == texts(found@).len());
    assert(terms_of(query@).take(i as int) =~= terms_of(query@));
    terms
}

/// A word has characters, and none of them is white space.
pub proof fn law_words_hold_no_white_space(text: Seq<char>, w: int, k: int)
    requires
        0 <= w < words(text).len(),
    ensures
        words(text)[w].len() > 0,
        0 <= k < words(text)[w].len() ==> !white_space(words(text)[w][k]),
    decreases text.len(),
{
    if text.len() > 0 {
        let front = text.drop_last();
        if w < words(front).len() {
            law_words_hold_no_white_space(front, w, k);
        }
        lemma_last_word(front);
    }
}

/// A text that does not end in white space has a word.
proof fn lemma_last_word(text: Seq<char>)
    ensures
        text.len() > 0 && !white_space(text.last()) ==> words(text).len() > 0,
    decreases text.len(),
{
    if text.len() > 0 {
        lemma_last_word(text.drop_last());
    }
}

/// The words of two texts with white space between them are the words of the one,
/// then those of the other.
pub proof fn law_words_of_parts(left: Seq<char>, blank: char, right: Seq<char>)
    requires
        white_space(blank),
    ensures
        words(left.push(blank) + right) == words(left) + words(right),
    decreases right.len(),
{
    let whole = left.push(blank) + right;
    if right.len() == 0 {
        assert(whole =~= left.push(blank));
        assert(whole.drop_last() =~= left);
        assert(words(left) + words(right) =~= words(left));
    } else {
        let front = right.drop_last();
        assert(whole.drop_last() =~= left.push(blank) + front);
        law_words_of_parts(left, blank, front);
        lemma_last_word(front);
        if front.len() > 0 {
            assert((left.push(blank) + front).last() == front.last());
        } else {
            assert((left.push(blank) + front).last() == blank);
        }
        assert(words(whole) =~= words(left) + words(right));
    }
}

/// A text with characters, none of them white space, is its own only word.
pub proof fn law_text_without_white_space_is_one_word(text: Seq<char>)
    requires
        text.len() > 0,
        forall|k: int| 0 <= k < text.len() ==> !white_space(#[trigger] text[k]),
    ensures
        words(text) == seq![text],
    decreases text.len(),
{
    let front = text.drop_last();
    assert(!white_space(text[text.len() - 1]));
    if front.len() > 0 {
        assert forall|k: int| 0 <= k < front.len() implies !white_space(#[trigger] front[k]) by {
            assert(!white_space(text[k]));
        }
        law_text_without_white_space_is_one_word(front);
        assert(!white_space(front[front.len() - 1]));
        assert(front.push(text.last()) =~= text);
    } else {
        assert(words(front) =~= seq![]);
        assert(seq![text.last()] =~= text);
    }
    assert(words(text) =~= seq![text]);
}

/// White space alone holds no words, nor does the empty text.
pub proof fn law_white_space_holds_no_words(text: Seq<char>)
    requires
        forall|k: int| 0 <= k < text.len() ==> white_space(#[trigger] text[k]),
    ensures
        words(text) == Seq::<Seq<char>>::empty(),
    decreases text.len(),
{
    if text.len() > 0 {
        let front = text.drop_last();
        assert(white_space(text[text.len() - 1]));
        assert forall|k: int| 0 <= k < front.len() implies white_space(#[trigger] front[k]) by {
            assert(white_space(text[k]));
        }
        law_white_space_holds_no_words(front);
    }
}

/// There is a term for each word, in the order of the words: the word in lower case.
pub proof fn law_terms_are_the_words_in_lower_case(query: Seq<char>, t: int)
    ensures
        terms_of(query).len() == words(query).len(),
        0 <= t < words(query).len() ==> terms_of(query)[t] == lowercase(words(query)[t]),
{
}

} // verus!
