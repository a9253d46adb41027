//! Characters and strings.
use vstd::prelude::*;
use vstd::utf8::encode_scalar;

verus! {

/// The text in lower case, as `str::to_lowercase` gives it.
pub uninterp spec fn lowercase(text: Seq<char>) -> Seq<char>;

/// `str::to_lowercase` depends on the text alone; its result has the name `lowercase`.
/// Which characters it maps to which is left unsaid.
pub assume_specification[ str::to_lowercase ](text: &str) -> (lower: String)
    ensures
        lower@ == lowercase(text@),
;

/// `String::push` appends the character to the end of the string.
pub assume_specification[ String::push ](text: &mut String, c: char)
    ensures
        final(text)@ == old(text)@.push(c),
;

/// `String::pop` takes the last character off the string and returns it, or returns
/// `None` and leaves the string as it is where it is empty.
pub assume_specification[ String::pop ](text: &mut String) -> (c: Option<char>)
    ensures
        old(text)@.len() > 0 ==> c == Some(old(text)@.last()) && final(text)@ == old(
            text,
        )@.drop_last(),
        old(text)@.len() == 0 ==> c is None && final(text)@ == old(text)@,
;

/// The texts that the strings hold.
pub open spec fn texts(strings: Seq<String>) -> Seq<Seq<char>> {
    strings.map_values(|s: String| s@)
}

/// `s` without the longest run of elements of `cut` at its end.
pub open spec fn trim_end<A>(s: Seq<A>, cut: Set<A>) -> Seq<A>
    decreases s.len(),
{
    if s.len() > 0 && cut.contains(s.last()) {
        trim_end(s.drop_last(), cut)
    } else {
        s
    }
}

/// What stands in `s` behind its last element of `cut`; all of `s` where there is none.
pub open spec fn last_segment<A>(s: Seq<A>, cut: Set<A>) -> Seq<A>
    decreases s.len(),
{
    if s.len() == 0 || cut.contains(s.last()) {
        seq![]
    } else {
        last_segment(s.drop_last(), cut).push(s.last())
    }
}

/// Trimming leaves a beginning of the text that does not end in what is cut; all behind it
/// is cut.
pub proof fn lemma_trim_end<A>(text: Seq<A>, cut: Set<A>)
    ensures
        trim_end(text, cut).is_prefix_of(text),
        forall|k: int|
            trim_end(text, cut).len() <= k < text.len() ==> cut.contains(#[trigger] text[k]),
        trim_end(text, cut).len() > 0 ==> !cut.contains(trim_end(text, cut).last()),
    decreases text.len(),
{
    if text.len() > 0 && cut.contains(text.last()) {
        lemma_trim_end(text.drop_last(), cut);
        let kept = trim_end(text, cut);
        assert(text.subrange(0, kept.len() as int) =~= text.drop_last().subrange(
            0,
            kept.len() as int,
        ));
        assert forall|k: int| kept.len() <= k < text.len() implies cut.contains(
            #[trigger] text[k],
        ) by {
            if k < text.len() - 1 {
                assert(text.drop_last()[k] == text[k]);
            }
        }
    } else {
        assert(text.subrange(0, text.len() as int) =~= text);
    }
}

/// The last segment is the end of the text from the last element of the cut on.
pub proof fn lemma_last_segment<A>(text: Seq<A>, cut: Set<A>)
    ensures
        last_segment(text, cut).len() <= text.len(),
        last_segment(text, cut) == text.skip(text.len() - last_segment(text, cut).len()),
        forall|k: int|
            text.len() - last_segment(text, cut).len() <= k < text.len() ==> !cut.contains(
                #[trigger] text[k],
            ),
        last_segment(text, cut).len() < text.len() ==> cut.contains(
            text[text.len() - last_segment(text, cut).len() - 1],
        ),
    decreases text.len(),
{
    if text.len() == 0 || cut.contains(text.last()) {
        assert(text.skip(text.len() as int) =~= seq![]);
    } else {
        let front = text.drop_last();
        lemma_last_segment(front, cut);
        let n = last_segment(front, cut).len();
        assert(text.skip(front.len() - n) =~= front.skip(front.len() - n).push(text.last()));
        assert forall|k: int| front.len() - n <= k < text.len() implies !cut.contains(
            #[trigger] text[k],
        ) by {
            if k < front.len() {
                assert(front[k] == text[k]);
            }
        }
    }
}

/// The characters of `text`, one by one.
pub fn chars_of(text: &str) -> (chars: Vec<char>)
    ensures
        chars@ == text@,
{
    let mut chars: Vec<char> = Vec::new();
    for c in iter: text.chars()
        invariant
            iter.seq() == text@,
            chars@ == iter.seq().take(iter.index()),
    {
        chars.push(c);
    }
    chars
}

/// The digit of a number below 10.
pub open spec fn digit(n: nat) -> char {
    (48 + n) as char
}

/// A number in decimal digits.
pub open spec fn decimal(n: nat) -> Seq<char>
    decreases n,
{
    if n < 10 {
        seq![digit(n)]
    } else {
        decimal(n / 10).push(digit(n % 10))
    }
}

/// Appends a number in decimal digits.
pub fn push_decimal(text: &mut String, n: usize)
    ensures
        final(text)@ == old(text)@ + decimal(n as nat),
    decreases n,
{
    if n >= 10 {
        push_decimal(text, n / 10);
    }
    let last: u8 = (n % 10) as u8;
    text.push((48 + last) as char);
    assert(text@ =~= old(text)@ + decimal(n as nat));
}

/// How many bytes UTF-8 needs for the character.
pub fn char_width(c: char) -> (width: usize)
    ensures
        width == encode_scalar(c as u32).len(),
{
    let scalar: u32 = c as u32;
    if scalar <= 0x7f {
        1
    } else if scalar <= 0x7ff {
        2
    } else if scalar <= 0xffff {
        3
    } else {
        4
    }
}

/// The number that decimal digits stand for.
pub open spec fn number_of_digits(digits: Seq<char>) -> nat
    decreases digits.len(),
{
    if digits.len() == 0 {
        0
    } else {
        (number_of_digits(digits.drop_last()) * 10 + (digits.last() as int - '0' as int)) as nat
    }
}

/// A number is written in decimal digits that stand for it, with no zero before others.
pub proof fn law_digits_stand_for_the_number(n: nat)
    ensures
        decimal(n).len() > 0,
        forall|k: int| 0 <= k < decimal(n).len() ==> '0' <= #[trigger] decimal(n)[k] <= '9',
        decimal(n).len() > 1 ==> decimal(n)[0] != '0',
        number_of_digits(decimal(n)) == n,
    decreases n,
{
    if n < 10 {
        let one = seq![digit(n)];
        assert(one.drop_last() =~= seq![]);
        assert(number_of_digits(one.drop_last()) == 0);
    } else {
        law_digits_stand_for_the_number(n / 10);
        let front = decimal(n / 10);
        assert(decimal(n).drop_last() =~= front);
        if front.len() == 1 {
            assert(front.drop_last() =~= seq![]);
            assert(number_of_digits(front.drop_last()) == 0);
        }
        assert(decimal(n)[0] == front[0]);
    }
}

} // verus!
