//! The lines that the operator gets to see.

use vstd::prelude::*;
use std::path::PathBuf;
use crate::hasher::HashError;
use crate::path::{path_debug, show_path};
use crate::index::{DuplicateGroup, GroupView};
use crate::record::Hashed;
use crate::scanner::texts;
use crate::selection::{
    ParseFailure,
    Selection,
    all_digits,
    decimal,
    digit_value,
    integer_of_text,
    is_digit,
    is_space,
    parsed,
    selection_of,
    trim_end,
    trim_start,
    trimmed,
};

verus! {

/// The line that opens the presentation of a group.
pub open spec fn prompt_text() -> Seq<char> {
    "Which file to delete ? select the index, or other character for pass"@
}

/// The character that stands for a decimal digit.
pub open spec fn digit_char(digit: nat) -> char {
    seq!['0', '1', '2', '3', '4', '5', '6', '7', '8', '9'][digit as int]
}

/// A number in decimal digits, without leading zeros.
pub open spec fn decimal_text(number: nat) -> Seq<char>
    decreases number,
{
    if number < 10 {
        seq![digit_char(number)]
    } else {
        decimal_text(number / 10).push(digit_char(number % 10))
    }
}

/// The line that shows one member of a group: its index, a space, its path
/// as it is shown.
pub open spec fn listing_text(position: nat, path: Seq<char>) -> Seq<char> {
    decimal_text(position) + " "@ + path
}

/// The lines that show a group: the prompt, then one line for each member,
/// in order, under its index.
pub open spec fn presentation(group: GroupView) -> Seq<Seq<char>> {
    seq![prompt_text()] + Seq::new(
        group.members.len(),
        |i: int| listing_text(i as nat, group.members[i].path),
    )
}

/// The line that repeats the operator's answer.
pub open spec fn selected_text(line: Seq<char>) -> Seq<char> {
    "Number selected "@ + line
}

/// The line for an answer that names no member.
pub open spec fn wrong_selection_text() -> Seq<char> {
    "Wrong selection"@
}

/// What is wrong with an answer that is no number, in words.
pub open spec fn failure_text(failure: ParseFailure) -> Seq<char> {
    match failure {
        ParseFailure::Empty => "cannot parse integer from empty string"@,
        ParseFailure::InvalidDigit => "invalid digit found in string"@,
    }
}

/// The line for an answer that is no number.
pub open spec fn parse_error_text(failure: ParseFailure) -> Seq<char> {
    "Error parsing "@ + failure_text(failure)
}

/// The line for an answer that could not be read.
pub open spec fn no_answer_text(reason: Seq<char>) -> Seq<char> {
    "Can't read the answer "@ + reason
}

/// The line for a file that has been removed.
pub open spec fn deleted_text(path: Seq<char>) -> Seq<char> {
    path + " deleted"@
}

/// The line for a file that could not be removed.
pub open spec fn delete_failed_text(reason: Seq<char>) -> Seq<char> {
    "Can't delete file "@ + reason
}

/// Why a file has no fingerprint, in words.
pub open spec fn hash_error_text(error: HashError) -> Seq<char> {
    match error {
        HashError::Unreadable(reason) => reason@,
        HashError::TooLong => "content too long to fingerprint"@,
    }
}

/// The line for a file that is left out because it has no fingerprint.
pub open spec fn skipped_text(path: Seq<char>, error: HashError) -> Seq<char> {
    "Skipping "@ + path + ": "@ + hash_error_text(error)
}

/// The text of one decimal digit.
fn digit_str(digit: usize) -> (text: &'static str)
    requires
        digit < 10,
    ensures
        text@ == seq![digit_char(digit as nat)],
{
    proof {
        reveal_strlit("0");
        reveal_strlit("1");
        reveal_strlit("2");
        reveal_strlit("3");
        reveal_strlit("4");
        reveal_strlit("5");
        reveal_strlit("6");
        reveal_strlit("7");
        reveal_strlit("8");
        reveal_strlit("9");
    }
    let text = if digit == 0 {
        "0"
    } else if digit == 1 {
        "1"
    } else if digit == 2 {
        "2"
    } else if digit == 3 {
        "3"
    } else if digit == 4 {
        "4"
    } else if digit == 5 {
        "5"
    } else if digit == 6 {
        "6"
    } else if digit == 7 {
        "7"
    } else if digit == 8 {
        "8"
    } else {
        "9"
    };
    assert(text@ =~= seq![digit_char(digit as nat)]);
    text
}

/// Writes a number in decimal digits.
pub fn render_index(number: usize) -> (text: String)
    ensures
        text@ == decimal_text(number as nat),
    decreases number,
{
    if number < 10 {
        digit_str(number).to_owned()
    } else {
        let mut text = render_index(number / 10);
        let ghost front = text@;
        text.append(digit_str(number % 10));
        assert(text@ =~= front.push(digit_char((number % 10) as nat)));
        text
    }
}

/// The line that opens the presentation of a group.
pub fn prompt() -> (line: String)
    ensures
        line@ == prompt_text(),
{
    "Which file to delete ? select the index, or other character for pass".to_owned()
}

/// The line that shows one member of a group.
pub fn listing_line(position: usize, path: &PathBuf) -> (line: String)
    ensures
        line@ == listing_text(position as nat, path_debug(*path)),
{
    let mut line = render_index(position);
    line.append(" ");
    let shown = show_path(path);
    line.append(shown.as_str());
    line
}

/// The lines that show a group to the operator.
pub fn present(group: &DuplicateGroup) -> (lines: Vec<String>)
    ensures
        texts(lines@) == presentation(group@),
{
    let mut lines: Vec<String> = Vec::new();
    lines.push(prompt());
    let mut i: usize = 0;
    while i < group.len()
        invariant
            i <= group@.members.len(),
            lines@.len() == i + 1,
            lines@[0]@ == prompt_text(),
            forall|k: int|
                1 <= k <= i ==> (#[trigger] lines@[k])@ == listing_text(
                    (k - 1) as nat,
                    group@.members[k - 1].path,
                ),
        decreases group@.members.len() - i,
    {
        let member = group.member(i).unwrap();
        lines.push(listing_line(i, &member.path));
        i = i + 1;
    }
    proof {
        let shown = presentation(group@);
        assert(texts(lines@).len() == shown.len());
        assert forall|k: int| 0 <= k < shown.len() implies texts(lines@)[k] == shown[k] by {
            assert(texts(lines@)[k] == lines@[k]@);
        }
        assert(texts(lines@) =~= shown);
    }
    lines
}

/// The line that repeats the operator's answer.
pub fn selected_line(line: &str) -> (shown: String)
    ensures
        shown@ == selected_text(line@),
{
    let mut shown = "Number selected ".to_owned();
    shown.append(line);
    shown
}

/// The line for an answer that names no member.
pub fn wrong_selection_line() -> (line: String)
    ensures
        line@ == wrong_selection_text(),
{
    "Wrong selection".to_owned()
}

/// The line for an answer that is no number.
pub fn parse_error_line(failure: ParseFailure) -> (line: String)
    ensures
        line@ == parse_error_text(failure),
{
    let mut line = "Error parsing ".to_owned();
    match failure {
        ParseFailure::Empty => line.append("cannot parse integer from empty string"),
        ParseFailure::InvalidDigit => line.append("invalid digit found in string"),
    }
    line
}

/// The line for an answer that could not be read.
pub fn no_answer_line(reason: &str) -> (line: String)
    ensures
        line@ == no_answer_text(reason@),
{
    let mut line = "Can't read the answer ".to_owned();
    line.append(reason);
    line
}

/// The line for a file that has been removed.
pub fn deleted_line(path: &PathBuf) -> (line: String)
    ensures
        line@ == deleted_text(path_debug(*path)),
{
    let mut line = show_path(path);
    line.append(" deleted");
    line
}

/// The line for a file that could not be removed.
pub fn delete_failed_line(reason: &str) -> (line: String)
    ensures
        line@ == delete_failed_text(reason@),
{
    let mut line = "Can't delete file ".to_owned();
    line.append(reason);
    line
}

/// The line for a file that is left out because it has no fingerprint.
pub fn skipped_line(path: &PathBuf, error: &HashError) -> (line: String)
    ensures
        line@ == skipped_text(path_debug(*path), *error),
{
    let mut line = "Skipping ".to_owned();
    let shown = show_path(path);
    line.append(shown.as_str());
    line.append(": ");
    match error {
        HashError::Unreadable(reason) => line.append(reason.as_str()),
        HashError::TooLong => line.append("content too long to fingerprint"),
    }
    line
}

/// The lines for the files that are left out because they have no
/// fingerprint, in the order of their discovery.
pub open spec fn skipped_texts(files: Seq<Hashed>) -> Seq<Seq<char>> {
    files.filter(|hashed: Hashed| hashed.outcome is Err).map_values(
        |hashed: Hashed| skipped_text(path_debug(hashed.path), hashed.outcome->Err_0),
    )
}

/// One more file adds its line if it has no fingerprint.
proof fn lemma_skipped_push(files: Seq<Hashed>, hashed: Hashed)
    ensures
        skipped_texts(files.push(hashed)) == if hashed.outcome is Err {
            skipped_texts(files).push(skipped_text(path_debug(hashed.path), hashed.outcome->Err_0))
        } else {
            skipped_texts(files)
        },
{
    reveal(Seq::filter);
    assert(files.push(hashed).drop_last() =~= files);
    if hashed.outcome is Err {
        assert(skipped_texts(files.push(hashed)) =~= skipped_texts(files).push(
            skipped_text(path_debug(hashed.path), hashed.outcome->Err_0),
        ));
    }
}

/// One line for each file that is left out because it has no fingerprint,
/// in the order of their discovery.
pub fn skipped_lines(files: &Vec<Hashed>) -> (lines: Vec<String>)
    ensures
        texts(lines@) == skipped_texts(files@),
{
    let mut lines: Vec<String> = Vec::new();
    let mut i: usize = 0;
    proof {
        reveal(Seq::filter);
        assert(texts(lines@) =~= skipped_texts(files@.take(0)));
    }
    while i < files.len()
        invariant
            i <= files@.len(),
            texts(lines@) == skipped_texts(files@.take(i as int)),
        decreases files@.len() - i,
    {
        let ghost so_far = texts(lines@);
        proof {
            lemma_skipped_push(files@.take(i as int), files@[i as int]);
            assert(files@.take(i + 1) =~= files@.take(i as int).push(files@[i as int]));
        }
        match &files[i].outcome {
            Ok(_) => {},
            Err(error) => {
                let line = skipped_line(&files[i].path, error);
                lines.push(line);
                assert(texts(lines@) =~= so_far.push(line@));
            },
        }
        i = i + 1;
    }
    assert(files@.take(i as int) =~= files@);
    lines
}

/// A number written in decimal is made of digits, one at least, and they
/// stand for that number.
pub proof fn lemma_decimal_text(number: nat)
    ensures
        decimal_text(number).len() >= 1,
        forall|i: int|
            0 <= i < decimal_text(number).len() ==> is_digit(#[trigger] decimal_text(number)[i]),
        decimal(decimal_text(number)) == number,
    decreases number,
{
    let text = decimal_text(number);
    if number < 10 {
        assert(is_digit(digit_char(number)) && digit_value(digit_char(number)) == number);
        assert(text.drop_last() =~= Seq::<char>::empty());
        assert(decimal(text.drop_last()) == 0);
    } else {
        let front = decimal_text(number / 10);
        let last = digit_char(number % 10);
        lemma_decimal_text(number / 10);
        assert(is_digit(last) && digit_value(last) == number % 10);
        assert(text.drop_last() =~= front);
        assert forall|i: int| 0 <= i < text.len() implies is_digit(#[trigger] text[i]) by {
            if i < front.len() {
                assert(text[i] == front[i]);
            }
        }
    }
}

/// The index under which a member is listed selects that member when the
/// operator types it back, with or without the end of the line behind it.
pub proof fn lemma_listed_index_selects(members: nat, position: nat)
    requires
        position < members,
        position <= usize::MAX,
    ensures
        selection_of(members, decimal_text(position)) == Selection::Member(position as usize),
        selection_of(members, decimal_text(position).push('\n')) == Selection::Member(
            position as usize,
        ),
{
    let text = decimal_text(position);
    let line = text.push('\n');
    lemma_decimal_text(position);
    assert(is_digit(text.first()) && is_digit(text.last()));
    assert(trim_start(text) == text);
    assert(trim_end(text) == text);
    assert(line.first() == text.first());
    assert(trim_start(line) == line);
    assert(is_space('\n'));
    assert(line.drop_last() =~= text);
    assert(trim_end(line) == text);
    assert(trimmed(text) == text && trimmed(line) == text);
    assert(all_digits(text));
    assert(integer_of_text(text) == Ok::<int, ParseFailure>(position as int));
    assert(parsed(text) == Ok::<int, ParseFailure>(position as int));
    assert(parsed(line) == Ok::<int, ParseFailure>(position as int));
}

} // verus!
