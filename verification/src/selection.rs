//! Reading the operator's answer: a line of text that should hold the index
//! of one member of the group on show.

use vstd::prelude::*;

verus! {

/// Why a line of text is not an integer.
#[derive(Clone, Copy, Debug, PartialEq, Eq, Structural)]
pub enum ParseFailure {
    /// Nothing is left of the line once the white space around it is gone.
    Empty,
    /// A character that is not a decimal digit, or a sign with nothing behind it.
    InvalidDigit,
}

/// What the operator's answer means for a group of a given size.
#[derive(Clone, Copy, Debug, PartialEq, Eq, Structural)]
pub enum Selection {
    /// The member at this index is to be removed.
    Member(usize),
    /// The answer is an integer, but no member has it as its index.
    OutOfRange,
    /// The answer is not an integer.
    Unparsable(ParseFailure),
}

/// Whether `c` is white space: a character with the Unicode property
/// `White_Space`.
pub open spec fn is_space(c: char) -> bool {
    let code = c as u32;
    ||| 0x09 <= code <= 0x0d
    ||| code == 0x20
    ||| code == 0x85
    ||| code == 0xa0
    ||| code == 0x1680
    ||| 0x2000 <= code <= 0x200a
    ||| code == 0x2028
    ||| code == 0x2029
    ||| code == 0x202f
    ||| code == 0x205f
    ||| code == 0x3000
}

/// Whether `c` is one of the decimal digits `0` to `9`.
pub open spec fn is_digit(c: char) -> bool {
    0x30 <= c as u32 <= 0x39
}

/// The value of the decimal digit `c`.
pub open spec fn digit_value(c: char) -> nat {
    (c as u32 - 0x30) as nat
}

/// `text` without the white space at its start.
pub open spec fn trim_start(text: Seq<char>) -> Seq<char>
    decreases text.len(),
{
    if text.len() > 0 && is_space(text.first()) {
        trim_start(text.drop_first())
    } else {
        text
    }
}

/// `text` without the white space at its end.
pub open spec fn trim_end(text: Seq<char>) -> Seq<char>
    decreases text.len(),
{
    if text.len() > 0 && is_space(text.last()) {
        trim_end(text.drop_last())
    } else {
        text
    }
}

/// `text` without the white space at its start and at its end.
pub open spec fn trimmed(text: Seq<char>) -> Seq<char> {
    trim_end(trim_start(text))
}

/// Whether `text` is made of decimal digits alone.
pub open spec fn all_digits(text: Seq<char>) -> bool {
    forall|i: int| 0 <= i < text.len() ==> is_digit(#[trigger] text[i])
}

/// The number that a sequence of decimal digits stands for.
pub open spec fn decimal(digits: Seq<char>) -> nat
    decreases digits.len(),
{
    if digits.len() == 0 {
        0
    } else {
        decimal(digits.drop_last()) * 10 + digit_value(digits.last())
    }
}

/// The integer that a text without white space around it stands for: one
/// decimal digit or more, with one sign, `+` or `-`, before them or none.
/// The integer may be as large or as small as the digits make it. A text
/// with no character, with a sign alone, or with a character that is no
/// digit stands for no integer.
pub open spec fn integer_of_text(text: Seq<char>) -> Result<int, ParseFailure> {
    if text.len() == 0 {
        Err(ParseFailure::Empty)
    } else {
        let digits = if text.first() == '+' || text.first() == '-' {
            text.drop_first()
        } else {
            text
        };
        if digits.len() == 0 || !all_digits(digits) {
            Err(ParseFailure::InvalidDigit)
        } else if text.first() == '-' {
            Ok(-(decimal(digits) as int))
        } else {
            Ok(decimal(digits) as int)
        }
    }
}

/// The integer that a line of the operator stands for, white space around it
/// set aside.
pub open spec fn parsed(line: Seq<char>) -> Result<int, ParseFailure> {
    integer_of_text(trimmed(line))
}

/// The index that an integer names, if it names one at all: it does when it
/// is not negative and a `usize` can hold it.
pub open spec fn index_named(value: int) -> Option<usize> {
    if 0 <= value <= usize::MAX {
        Some(value as usize)
    } else {
        None
    }
}

/// What a line of the operator means for a group of `members` members: an
/// integer from 0 up to the last index selects its member, every other
/// integer is out of range, and a line that is no integer is unparsable.
pub open spec fn selection_of(members: nat, line: Seq<char>) -> Selection {
    match parsed(line) {
        Ok(value) => if 0 <= value < members {
            Selection::Member(value as usize)
        } else {
            Selection::OutOfRange
        },
        Err(failure) => Selection::Unparsable(failure),
    }
}

/// Whether `c` is white space.
pub fn is_whitespace(c: char) -> (space: bool)
    ensures
        space == is_space(c),
{
    let code: u32 = c as u32;
    (0x09 <= code && code <= 0x0d) || code == 0x20 || code == 0x85 || code == 0xa0 || code
        == 0x1680 || (0x2000 <= code && code <= 0x200a) || code == 0x2028 || code == 0x2029
        || code == 0x202f || code == 0x205f || code == 0x3000
}

/// The characters of `text`, one by one.
fn chars_of(text: &str) -> (chars: Vec<char>)
    ensures
        chars@ == text@,
{
    let mut chars: Vec<char> = Vec::new();
    for c in it: text.chars()
        invariant
            it.seq() == text@,
            chars@ == it.seq().take(it.index() as int),
    {
        chars.push(c);
        assert(chars@ =~= it.seq().take(it.index() + 1));
    }
    assert(chars@ =~= text@);
    chars
}

/// Trimming at the start may begin behind any white space at the start.
proof fn lemma_trim_start_skip(text: Seq<char>, n: int)
    requires
        0 <= n <= text.len(),
        forall|j: int| 0 <= j < n ==> is_space(#[trigger] text[j]),
    ensures
        trim_start(text) == trim_start(text.skip(n)),
    decreases n,
{
    if n > 0 {
        let rest = text.drop_first();
        assert forall|j: int| 0 <= j < n - 1 implies is_space(#[trigger] rest[j]) by {
            assert(rest[j] == text[j + 1]);
        }
        lemma_trim_start_skip(rest, n - 1);
        assert(rest.skip(n - 1) =~= text.skip(n));
    } else {
        assert(text.skip(0) =~= text);
    }
}

/// Trimming at the end may begin before any white space at the end.
proof fn lemma_trim_end_take(text: Seq<char>, n: int)
    requires
        0 <= n <= text.len(),
        forall|j: int| n <= j < text.len() ==> is_space(#[trigger] text[j]),
    ensures
        trim_end(text) == trim_end(text.take(n)),
    decreases text.len() - n,
{
    if n < text.len() {
        let front = text.drop_last();
        lemma_trim_end_take(front, n);
        assert(front.take(n) =~= text.take(n));
    } else {
        assert(text.take(n) =~= text);
    }
}

/// The integer that a text without white space around it stands for, as far
/// as it names an index.
fn integer_of_chars(text: &Vec<char>, from: usize, to: usize) -> (index: Result<
    Option<usize>,
    ParseFailure,
>)
    requires
        from <= to <= text@.len(),
    ensures
        match integer_of_text(text@.subrange(from as int, to as int)) {
            Ok(value) => index == Ok::<Option<usize>, ParseFailure>(index_named(value)),
            Err(failure) => index == Err::<Option<usize>, ParseFailure>(failure),
        },
{
    let ghost whole = text@.subrange(from as int, to as int);
    if from == to {
        return Err(ParseFailure::Empty);
    }
    let negative = text[from] == '-';
    let start: usize = if negative || text[from] == '+' {
        from + 1
    } else {
        from
    };
    let ghost digits = text@.subrange(start as int, to as int);
    proof {
        assert(whole.first() == text@[from as int]);
        if start == from {
            assert(digits =~= whole);
        } else {
            assert(digits =~= whole.drop_first());
        }
    }
    if start == to {
        return Err(ParseFailure::InvalidDigit);
    }
    let mut value: usize = 0;
    let mut beyond = false;
    let mut i: usize = start;
    assert(digits.take(0) =~= Seq::<char>::empty());
    while i < to
        invariant
            start <= i <= to <= text@.len(),
            start < to,
            whole == text@.subrange(from as int, to as int),
            whole.len() > 0,
            digits == text@.subrange(start as int, to as int),
            digits == if whole.first() == '+' || whole.first() == '-' {
                whole.drop_first()
            } else {
                whole
            },
            forall|j: int| 0 <= j < i - start ==> is_digit(#[trigger] digits[j]),
            !beyond ==> value == decimal(digits.take(i - start)),
            beyond ==> decimal(digits.take(i - start)) > usize::MAX,
        decreases to - i,
    {
        let c = text[i];
        let code: u32 = c as u32;
        assert(digits[i - start] == c);
        if code < 0x30 || code > 0x39 {
            return Err(ParseFailure::InvalidDigit);
        }
        let digit: usize = (code - 0x30) as usize;
        proof {
            assert(digits.take(i - start + 1).drop_last() =~= digits.take(i - start));
            assert(digits.take(i - start + 1).last() == c);
        }
        if !beyond {
            if value > (usize::MAX - digit) / 10 {
                beyond = true;
            } else {
                value = value * 10 + digit;
            }
        }
        i = i + 1;
    }
    proof {
        assert(digits.take(digits.len() as int) =~= digits);
        assert(all_digits(digits));
    }
    if beyond {
        Ok(None)
    } else if negative {
        if value == 0 {
            Ok(Some(0))
        } else {
            Ok(None)
        }
    } else {
        Ok(Some(value))
    }
}

/// Reads the operator's line as an integer and gives the index that it
/// names. White space around the integer is set aside; what is left must be
/// decimal digits, one at least, with one sign before them or none. An
/// integer that is negative, or larger than any index can be, names no index.
pub fn parse_index(line: &str) -> (index: Result<Option<usize>, ParseFailure>)
    ensures
        match parsed(line@) {
            Ok(value) => index == Ok::<Option<usize>, ParseFailure>(index_named(value)),
            Err(failure) => index == Err::<Option<usize>, ParseFailure>(failure),
        },
{
    let text = chars_of(line);
    let mut from: usize = 0;
    while from < text.len() && is_whitespace(text[from])
        invariant
            from <= text@.len(),
            forall|j: int| 0 <= j < from ==> is_space(#[trigger] text@[j]),
        decreases text@.len() - from,
    {
        from = from + 1;
    }
    let mut to: usize = text.len();
    while to > from && is_whitespace(text[to - 1])
        invariant
            from <= to <= text@.len(),
            forall|j: int| to <= j < text@.len() ==> is_space(#[trigger] text@[j]),
        decreases to,
    {
        to = to - 1;
    }
    proof {
        let tail = text@.skip(from as int);
        lemma_trim_start_skip(text@, from as int);
        assert(trim_start(text@) == tail) by {
            if tail.len() > 0 {
                assert(tail.first() == text@[from as int]);
            }
        }
        assert forall|j: int| to - from <= j < tail.len() implies is_space(
            #[trigger] tail[j],
        ) by {
            assert(tail[j] == text@[j + from]);
        }
        lemma_trim_end_take(tail, to - from);
        let core = tail.take(to - from);
        assert(core =~= text@.subrange(from as int, to as int));
        assert(trim_end(core) == core) by {
            if core.len() > 0 {
                assert(core.last() == text@[to - 1]);
            }
        }
    }
    integer_of_chars(&text, from, to)
}

/// Decides what the operator's line means for a group of `members` members.
pub fn select(members: usize, line: &str) -> (selection: Selection)
    ensures
        selection == selection_of(members as nat, line@),
{
    match parse_index(line) {
        Ok(Some(index)) => if index < members {
            Selection::Member(index)
        } else {
            Selection::OutOfRange
        },
        Ok(None) => Selection::OutOfRange,
        Err(failure) => Selection::Unparsable(failure),
    }
}

} // verus!
