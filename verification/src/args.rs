//! The command line.
use vstd::prelude::*;

use crate::text::{chars_of, texts, trim_end};

verus! {

/// What the command line asks for. The heights are still texts.
pub struct Args {
    /// The numbers given for the height, in their order.
    pub heights: Vec<String>,
    /// The results go down the screen from the first one on.
    pub reverse: bool,
    /// A line of text to show.
    pub header: Option<String>,
}

/// What an `Args` holds.
#[verifier::ext_equal]
pub struct ArgsView {
    pub heights: Seq<Seq<char>>,
    pub reverse: bool,
    pub header: Option<Seq<char>>,
}

/// The text of an optional string.
pub open spec fn optional_text(text: Option<String>) -> Option<Seq<char>> {
    match text {
        Some(text) => Some(text@),
        None => None,
    }
}

impl View for Args {
    type V = ArgsView;

    open spec fn view(&self) -> ArgsView {
        ArgsView {
            heights: texts(self.heights@),
            reverse: self.reverse,
            header: optional_text(self.header),
        }
    }
}

/// The number in the value of a height: percent signs at its end are set aside.
pub open spec fn number_text(value: Seq<char>) -> Seq<char> {
    trim_end(value, set!['%'])
}

/// What the arguments add to what has been asked for so far. Of what is asked for twice
/// the last counts, and arguments that mean nothing are passed over.
pub open spec fn parsed(so_far: ArgsView, args: Seq<Seq<char>>) -> ArgsView
    decreases args.len(),
{
    if args.len() == 0 {
        so_far
    } else {
        let arg = args[0];
        let rest = args.drop_first();
        if arg == "--reverse"@ {
            parsed(ArgsView { reverse: true, ..so_far }, rest)
        } else if "--height="@.is_prefix_of(arg) {
            let value = arg.skip("--height="@.len() as int);
            parsed(ArgsView { heights: so_far.heights.push(number_text(value)), ..so_far }, rest)
        } else if arg == "--height"@ {
            if rest.len() == 0 {
                so_far
            } else {
                parsed(
                    ArgsView { heights: so_far.heights.push(number_text(rest[0])), ..so_far },
                    rest.drop_first(),
                )
            }
        } else if "--header="@.is_prefix_of(arg) {
            parsed(ArgsView { header: Some(arg.skip("--header="@.len() as int)), ..so_far }, rest)
        } else {
            parsed(so_far, rest)
        }
    }
}

/// What is asked for by no arguments.
pub open spec fn no_args() -> ArgsView {
    ArgsView { heights: seq![], reverse: false, header: None }
}

/// What stands in `text` behind `prefix`, where it starts with it.
fn strip_prefix(text: &str, prefix: &str) -> (rest: Option<String>)
    ensures
        rest is Some <==> prefix@.is_prefix_of(text@),
        rest matches Some(rest) ==> rest@ == text@.skip(prefix@.len() as int),
{
    let chars: Vec<char> = chars_of(text);
    let head: Vec<char> = chars_of(prefix);
    if head.len() > chars.len() {
        return None;
    }
    let mut k: usize = 0;
    while k < head.len()
        invariant
            k <= head@.len() <= chars@.len(),
            chars@ == text@,
            head@ == prefix@,
            forall|j: int| 0 <= j < k ==> chars@[j] == #[trigger] head@[j],
        decreases head@.len() - k,
    {
        if chars[k] != head[k] {
            assert(text@.subrange(0, prefix@.len() as int)[k as int] != prefix@[k as int]);
            return None;
        }
        k += 1;
    }
    assert(text@.subrange(0, prefix@.len() as int) =~= prefix@);
    assert(text@.subrange(k as int, text@.len() as int) =~= text@.skip(prefix@.len() as int));
    Some(text.substring_char(k, chars.len()).to_owned())
}

/// Whether the texts are the same.
fn is_same(left: &str, right: &str) -> (yes: bool)
    ensures
        yes == (left@ == right@),
{
    match strip_prefix(left, right) {
        Some(rest) => {
            assert(rest@.len() == 0 ==> left@ =~= right@);
            rest.as_str().is_empty()
        },
        None => {
            assert(left@ == right@ ==> right@.is_prefix_of(left@)) by {
                assert(left@.subrange(0, left@.len() as int) =~= left@);
            }
            false
        },
    }
}

/// The number in the value of a height.
fn number_of(value: &str) -> (number: String)
    ensures
        number@ == number_text(value@),
{
    let chars: Vec<char> = chars_of(value);
    let ghost cut: Set<char> = set!['%'];
    let mut end: usize = chars.len();
    assert(value@.take(end as int) =~= value@);
    while end > 0 && chars[end - 1] == '%'
        invariant
            end <= chars@.len(),
            chars@ == value@,
            cut == set!['%'],
            trim_end(value@.take(end as int), cut) == trim_end(value@, cut),
        decreases end,
    {
        assert(value@.take(end as int).drop_last() =~= value@.take(end - 1));
        end -= 1;
    }
    value.substring_char(0, end).to_owned()
}

/// Reads the arguments. The name of the program is not one of them.
pub fn parse_args(args: &Vec<String>) -> (asked: Args)
    ensures
        asked@ == parsed(no_args(), texts(args@)),
{
    let ghost all = texts(args@);
    let mut asked: Args = Args { heights: Vec::new(), reverse: false, header: None };
    assert(asked@ =~= no_args());
    let mut i: usize = 0;
    assert(all.skip(0) =~= all);
    while i < args.len()
        invariant
            all == texts(args@),
            i <= args@.len(),
            parsed(asked@, all.skip(i as int)) == parsed(no_args(), all),
        decreases args@.len() - i,
    {
        let arg: &str = args[i].as_str();
        let ghost before = asked@;
        let ghost left = all.skip(i as int);
        proof {
            assert(left[0] == arg@);
            assert(left.drop_first() =~= all.skip(i + 1));
            if i + 1 < args@.len() {
                assert(left.drop_first()[0] == args@[i + 1]@);
                assert(left.drop_first().drop_first() =~= all.skip(i + 2));
            }
        }
        i += 1;
        if is_same(arg, "--reverse") {
            asked.reverse = true;
            assert(asked@ =~= ArgsView { reverse: true, ..before });
        } else if let Some(value) = strip_prefix(arg, "--height=") {
            let number: String = number_of(value.as_str());
            asked.heights.push(number);
            assert(asked@ =~= ArgsView { heights: before.heights.push(number@), ..before });
        } else if is_same(arg, "--height") {
            if i < args.len() {
                let number: String = number_of(args[i].as_str());
                asked.heights.push(number);
                assert(asked@ =~= ArgsView { heights: before.heights.push(number@), ..before });
                i += 1;
            } else {
                assert(parsed(asked@, all.skip(i as int)) == asked@);
            }
        } else if let Some(header) = strip_prefix(arg, "--header=") {
            asked.header = Some(header);
            assert(asked@ =~= ArgsView { header: Some(header@), ..before });
        }
    }
    assert(parsed(asked@, all.skip(i as int)) == asked@);
    asked
}

/// How the selector is to look.
pub struct AppConfig {
    /// The height of the list as a part of the height of the terminal: the bits of an
    /// IEEE 754 number of single precision.
    pub height_percent: Option<u32>,
    /// The results go down the screen from the first one on.
    pub reverse: bool,
    /// A line of text to show.
    pub header: Option<String>,
}

/// The last value that is there.
pub open spec fn last_given(values: Seq<Option<u32>>) -> Option<u32>
    decreases values.len(),
{
    if values.len() == 0 {
        None
    } else if values.last() is Some {
        values.last()
    } else {
        last_given(values.drop_last())
    }
}

/// What the arguments come to. `heights` holds what the texts of the heights say, as far
/// as they are numbers: the last number counts.
pub fn app_config(asked: Args, heights: &Vec<Option<u32>>) -> (config: AppConfig)
    ensures
        config.height_percent == last_given(heights@),
        config.reverse == asked.reverse,
        config.header == asked.header,
{
    let mut k: usize = heights.len();
    let mut height_percent: Option<u32> = None;
    assert(heights@.take(k as int) =~= heights@);
    while k > 0 && height_percent.is_none()
        invariant
            k <= heights@.len(),
            last_given(heights@) == match height_percent {
                Some(height) => Some(height),
                None => last_given(heights@.take(k as int)),
            },
        decreases k,
    {
        assert(heights@.take(k as int).drop_last() =~= heights@.take(k - 1));
        k -= 1;
        height_percent = heights[k];
    }
    AppConfig { height_percent, reverse: asked.reverse, header: asked.header }
}

/// A height means the same with a percent sign and without.
pub proof fn law_percent_sign_is_optional(number: Seq<char>)
    ensures
        number_text(number.push('%')) == number_text(number),
{
    assert(number.push('%').drop_last() =~= number);
}

/// A height can be given in one argument or in two.
pub proof fn law_height_in_one_argument_or_two(
    so_far: ArgsView,
    value: Seq<char>,
    rest: Seq<Seq<char>>,
)
    ensures
        parsed(so_far, seq!["--height="@ + value] + rest) == parsed(
            so_far,
            seq!["--height"@, value] + rest,
        ),
{
    reveal_strlit("--height=");
    reveal_strlit("--height");
    reveal_strlit("--reverse");
    let joined = "--height="@ + value;
    let one = seq![joined] + rest;
    let two = seq!["--height"@, value] + rest;
    assert(one[0] == joined);
    assert(one.drop_first() =~= rest);
    assert(joined[2] == 'h' && "--reverse"@[2] == 'r');
    assert(joined.subrange(0, "--height="@.len() as int) =~= "--height="@);
    assert(joined.skip("--height="@.len() as int) =~= value);
    assert(two[0] == "--height"@);
    assert("--height"@[2] == 'h');
    assert(two.drop_first()[0] == value);
    assert(two.drop_first().drop_first() =~= rest);
}

/// Nothing is asked for until an argument asks for it.
pub proof fn law_no_arguments_ask_for_nothing(so_far: ArgsView)
    ensures
        parsed(so_far, seq![]) == so_far,
        no_args().heights.len() == 0,
        !no_args().reverse,
        no_args().header is None,
{
}

/// `--reverse` asks for the other layout, and for nothing else.
pub proof fn law_reverse_is_asked_for(so_far: ArgsView, rest: Seq<Seq<char>>)
    ensures
        parsed(so_far, seq!["--reverse"@] + rest) == parsed(
            ArgsView { heights: so_far.heights, reverse: true, header: so_far.header },
            rest,
        ),
{
    let all = seq!["--reverse"@] + rest;
    assert(all[0] == "--reverse"@);
    assert(all.drop_first() =~= rest);
}

/// What stands behind `--header=` is the header, in place of one before it.
pub proof fn law_header_is_asked_for(so_far: ArgsView, text: Seq<char>, rest: Seq<Seq<char>>)
    ensures
        parsed(so_far, seq!["--header="@ + text] + rest) == parsed(
            ArgsView { heights: so_far.heights, reverse: so_far.reverse, header: Some(text) },
            rest,
        ),
{
    reveal_strlit("--height=");
    reveal_strlit("--height");
    reveal_strlit("--header=");
    reveal_strlit("--reverse");
    let arg = "--header="@ + text;
    let all = seq![arg] + rest;
    assert(all[0] == arg);
    assert(all.drop_first() =~= rest);
    assert(arg[2] == 'h' && arg[5] == 'd');
    assert("--reverse"@[2] == 'r');
    assert("--height"@[5] == 'g');
    if "--height="@.is_prefix_of(arg) {
        assert(arg.subrange(0, "--height="@.len() as int)[5] == "--height="@[5]);
    }
    assert(arg.subrange(0, "--header="@.len() as int) =~= "--header="@);
    assert(arg.skip("--header="@.len() as int) =~= text);
}

/// What stands behind `--height=` is one more height, percent signs at its end set aside.
pub proof fn law_height_is_asked_for(
    so_far: ArgsView,
    number: Seq<char>,
    percents: Seq<char>,
    rest: Seq<Seq<char>>,
)
    requires
        number.len() > 0 ==> number.last() != '%',
        forall|k: int| 0 <= k < percents.len() ==> #[trigger] percents[k] == '%',
    ensures
        parsed(so_far, seq!["--height="@ + number + percents] + rest) == parsed(
            ArgsView {
                heights: so_far.heights.push(number),
                reverse: so_far.reverse,
                header: so_far.header,
            },
            rest,
        ),
{
    reveal_strlit("--height=");
    reveal_strlit("--reverse");
    let arg = "--height="@ + number + percents;
    let all = seq![arg] + rest;
    assert(all[0] == arg);
    assert(all.drop_first() =~= rest);
    assert(arg[2] == 'h' && "--reverse"@[2] == 'r');
    assert(arg.subrange(0, "--height="@.len() as int) =~= "--height="@);
    assert(arg.skip("--height="@.len() as int) =~= number + percents);
    lemma_number(number, percents);
}

/// Percent signs behind a number that does not end in one are set aside.
proof fn lemma_number(number: Seq<char>, percents: Seq<char>)
    requires
        number.len() > 0 ==> number.last() != '%',
        forall|k: int| 0 <= k < percents.len() ==> #[trigger] percents[k] == '%',
    ensures
        number_text(number + percents) == number,
    decreases percents.len(),
{
    if percents.len() == 0 {
        assert(number + percents =~= number);
    } else {
        let front = percents.drop_last();
        assert((number + percents).drop_last() =~= number + front);
        assert((number + percents).last() == percents[percents.len() - 1]);
        assert forall|k: int| 0 <= k < front.len() implies #[trigger] front[k] == '%' by {
            assert(front[k] == percents[k]);
        }
        lemma_number(number, front);
    }
}

/// An argument that is no option is passed over, and so is `--height` with nothing behind
/// it.
pub proof fn law_other_arguments_are_passed_over(
    so_far: ArgsView,
    arg: Seq<char>,
    rest: Seq<Seq<char>>,
)
    requires
        arg != "--reverse"@,
        arg != "--height"@ || rest.len() == 0,
        !"--height="@.is_prefix_of(arg),
        !"--header="@.is_prefix_of(arg),
    ensures
        parsed(so_far, seq![arg] + rest) == parsed(so_far, rest),
{
    let all = seq![arg] + rest;
    assert(all[0] == arg);
    assert(all.drop_first() =~= rest);
}

/// The height that counts is the last one that is a number.
pub proof fn law_last_height_counts(values: Seq<Option<u32>>, value: u32)
    ensures
        last_given(seq![]) is None,
        last_given(values.push(Some(value))) == Some(value),
        last_given(values.push(None)) == last_given(values),
{
    assert(values.push(None).drop_last() =~= values);
}

/// The text of a string is taken as it is.
pub proof fn law_optional_text_is_the_text(text: Option<String>)
    ensures
        text is None <==> optional_text(text) is None,
        text matches Some(there) ==> optional_text(text) == Some(there@),
{
}

} // verus!
