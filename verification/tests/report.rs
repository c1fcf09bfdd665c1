use std::path::PathBuf;

use find_duplicates::hasher::HashError;
use find_duplicates::index::DuplicateGroup;
use find_duplicates::record::Hashed;
use find_duplicates::report::{
    delete_failed_line, deleted_line, listing_line, no_answer_line, parse_error_line, present,
    prompt, render_index, selected_line, skipped_line, skipped_lines, wrong_selection_line,
};
use find_duplicates::selection::ParseFailure;
use find_duplicates::FileIndex;

#[test]
fn numbers_are_written_in_decimal() {
    assert_eq!(render_index(0), "0");
    assert_eq!(render_index(7), "7");
    assert_eq!(render_index(10), "10");
    assert_eq!(render_index(109), "109");
    assert_eq!(render_index(4294967295), "4294967295");
    assert_eq!(render_index(usize::MAX), usize::MAX.to_string());
}

#[test]
fn every_number_up_to_a_few_thousand_is_written_as_std_writes_it() {
    for number in 0..5000usize {
        assert_eq!(render_index(number), number.to_string());
    }
}

#[test]
fn the_prompt_asks_which_file_to_delete() {
    assert_eq!(prompt(), "Which file to delete ? select the index, or other character for pass");
}

#[test]
fn a_member_is_listed_under_its_index() {
    assert_eq!(listing_line(0, &PathBuf::from("a.txt")), "0 \"a.txt\"");
    assert_eq!(listing_line(12, &PathBuf::from("./dir/b.txt")), "12 \"./dir/b.txt\"");
}

#[test]
fn a_path_is_shown_quoted_and_escaped() {
    assert_eq!(
        listing_line(1, &PathBuf::from("odd \"name\"\n.txt")),
        "1 \"odd \\\"name\\\"\\n.txt\""
    );
    assert_eq!(
        listing_line(3, &PathBuf::from("some dir/é.txt")),
        format!("3 {:?}", std::path::Path::new("some dir/é.txt"))
    );
}

#[test]
fn a_group_is_presented_with_the_prompt_first() {
    let mut group = DuplicateGroup::new(FileIndex::new("h".to_string(), PathBuf::from("a.txt")));
    assert_eq!(
        present(&group),
        vec![
            "Which file to delete ? select the index, or other character for pass",
            "0 \"a.txt\""
        ]
    );
    group = group.clone();
    assert_eq!(present(&group).len(), 2);
}

#[test]
fn the_answer_is_repeated_as_it_was_given() {
    assert_eq!(selected_line("1\n"), "Number selected 1\n");
    assert_eq!(selected_line(""), "Number selected ");
}

#[test]
fn a_wrong_selection_is_called_so() {
    assert_eq!(wrong_selection_line(), "Wrong selection");
}

#[test]
fn a_parse_error_says_what_is_wrong() {
    assert_eq!(
        parse_error_line(ParseFailure::Empty),
        "Error parsing cannot parse integer from empty string"
    );
    assert_eq!(
        parse_error_line(ParseFailure::InvalidDigit),
        "Error parsing invalid digit found in string"
    );
}

#[test]
fn parse_errors_are_worded_as_std_words_them() {
    let empty = "".parse::<usize>().unwrap_err();
    let invalid = "abc".parse::<usize>().unwrap_err();
    assert_eq!(parse_error_line(ParseFailure::Empty), format!("Error parsing {}", empty));
    assert_eq!(parse_error_line(ParseFailure::InvalidDigit), format!("Error parsing {}", invalid));
}

#[test]
fn an_answer_that_could_not_be_read_is_reported_with_its_reason() {
    assert_eq!(no_answer_line("stream closed"), "Can't read the answer stream closed");
}

#[test]
fn a_removed_file_is_reported() {
    assert_eq!(deleted_line(&PathBuf::from("a.txt")), "\"a.txt\" deleted");
}

#[test]
fn a_failed_removal_is_reported_with_its_reason() {
    assert_eq!(delete_failed_line("permission denied"), "Can't delete file permission denied");
}

#[test]
fn a_file_without_fingerprint_is_reported_with_its_reason() {
    assert_eq!(
        skipped_line(
            &PathBuf::from("a.txt"),
            &HashError::Unreadable("permission denied".to_string())
        ),
        "Skipping \"a.txt\": permission denied"
    );
    assert_eq!(
        skipped_line(&PathBuf::from("big.bin"), &HashError::TooLong),
        "Skipping \"big.bin\": content too long to fingerprint"
    );
}

#[test]
fn every_file_without_fingerprint_has_its_line() {
    let files = vec![
        Hashed { path: PathBuf::from("a.txt"), outcome: Ok("h1".to_string()) },
        Hashed {
            path: PathBuf::from("b.txt"),
            outcome: Err(HashError::Unreadable("vanished".to_string())),
        },
        Hashed { path: PathBuf::from("c.txt"), outcome: Ok("h2".to_string()) },
        Hashed { path: PathBuf::from("d.txt"), outcome: Err(HashError::TooLong) },
    ];
    assert_eq!(
        skipped_lines(&files),
        vec![
            "Skipping \"b.txt\": vanished",
            "Skipping \"d.txt\": content too long to fingerprint"
        ]
    );
}
