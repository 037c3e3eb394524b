use textutils::tally::{count, format_field, normalize_selection, tally_line, FileInfo, Selection};

#[test]
fn test_count() {
    let text = "I don't want the world. I just want your half.\r\n";
    let info = count(text.as_bytes());
    let expected = FileInfo { num_lines: 1, num_words: 10, num_chars: 48, num_bytes: 48 };
    assert_eq!(info, expected);
}

#[test]
fn test_format_field() {
    assert_eq!(format_field(1, false), "");
    assert_eq!(format_field(3, true), "       3");
    assert_eq!(format_field(10, true), "      10");
}

#[test]
fn count_empty_input_is_all_zero() {
    let info = count(b"");
    let expected = FileInfo { num_lines: 0, num_words: 0, num_bytes: 0, num_chars: 0 };
    assert_eq!(info, expected);
}

#[test]
fn count_final_unterminated_record() {
    let info = count(b"one two\nthree");
    assert_eq!(info.num_lines, 2);
    assert_eq!(info.num_words, 3);
    assert_eq!(info.num_bytes, 13);
    assert_eq!(info.num_chars, 13);
}

#[test]
fn count_multibyte_characters() {
    // "héllo\n": six characters in seven bytes.
    let text = "h\u{e9}llo\n";
    let info = count(text.as_bytes());
    assert_eq!(info.num_lines, 1);
    assert_eq!(info.num_words, 1);
    assert_eq!(info.num_bytes, 7);
    assert_eq!(info.num_chars, 6);
}

#[test]
fn count_repeated_calls_agree() {
    let text = "a b c\nd e\n\nf\n";
    let first = count(text.as_bytes());
    let second = count(text.as_bytes());
    assert_eq!(first, second);
    assert_eq!(first.num_lines, 4);
    assert_eq!(first.num_words, 6);
}

#[test]
fn normalize_selection_defaults_to_lines_words_bytes() {
    let sel = normalize_selection(false, false, false, false).unwrap();
    assert_eq!(sel, Selection { lines: true, words: true, bytes: true, chars: false });
}

#[test]
fn normalize_selection_keeps_explicit_choice() {
    let sel = normalize_selection(true, false, false, true).unwrap();
    assert_eq!(sel, Selection { lines: true, words: false, bytes: false, chars: true });
}

#[test]
fn normalize_selection_rejects_bytes_with_chars() {
    assert!(normalize_selection(false, false, true, true).is_none());
}

#[test]
fn tally_line_with_name() {
    let info = count(b"one two\n");
    let sel = normalize_selection(false, false, false, false).unwrap();
    let line = tally_line(&info, &sel, Some("notes.txt"));
    assert_eq!(line, "       1       2       8 notes.txt");
}

#[test]
fn tally_line_without_name() {
    let info = count(b"one two\n");
    let sel = normalize_selection(true, false, false, false).unwrap();
    let line = tally_line(&info, &sel, None);
    assert_eq!(line, "       1");
}
