use textutils::collapse::collapse;

#[test]
fn collapse_without_counts() {
    let out = collapse(b"a\na\nb\na\n", false);
    assert_eq!(out, b"a\nb\na\n");
}

#[test]
fn collapse_with_counts() {
    let out = collapse(b"a\na\nb\na\n", true);
    assert_eq!(out, b"   2 a\n   1 b\n   1 a\n");
}

#[test]
fn collapse_empty_input_emits_nothing() {
    let out = collapse(b"", false);
    assert_eq!(out, b"");
    let out = collapse(b"", true);
    assert_eq!(out, b"");
}

#[test]
fn collapse_is_fixed_point_without_counts() {
    let once = collapse(b"x\nx\ny\ny\ny\nx\n", false);
    let twice = collapse(&once, false);
    assert_eq!(once, twice);
}

#[test]
fn collapse_run_lengths_cover_all_lines() {
    // Four input lines: the emitted lengths are 2, 1 and 1.
    let out = collapse(b"a\na\nb\na\n", true);
    let text = String::from_utf8(out).unwrap();
    let total: usize = text
        .lines()
        .map(|l| l[..4].trim().parse::<usize>().unwrap())
        .sum();
    assert_eq!(total, 4);
}

#[test]
fn collapse_treats_terminator_variants_as_equal() {
    // "a\r\n" and "a\n" collapse into one run; the first line is emitted.
    let out = collapse(b"a\r\na\n", false);
    assert_eq!(out, b"a\r\n");
}

#[test]
fn collapse_final_unterminated_line_joins_run() {
    let out = collapse(b"a\na", false);
    assert_eq!(out, b"a\n");
    let out = collapse(b"a\na", true);
    assert_eq!(out, b"   2 a\n");
}

#[test]
fn collapse_leading_blank_lines_form_a_run() {
    let out = collapse(b"\n\nx\n", false);
    assert_eq!(out, b"\nx\n");
    let out = collapse(b"\n\nx\n", true);
    assert_eq!(out, b"   2 \n   1 x\n");
}

#[test]
fn collapse_single_line() {
    let out = collapse(b"solo\n", true);
    assert_eq!(out, b"   1 solo\n");
}

#[test]
fn collapse_run_longer_than_field_width() {
    let mut input = Vec::new();
    for _ in 0..12345 {
        input.extend_from_slice(b"z\n");
    }
    let out = collapse(&input, true);
    assert_eq!(out, b"12345 z\n");
}
