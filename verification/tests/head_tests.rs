use textutils::head::{head_bytes, head_lines};

#[test]
fn head_lines_takes_leading_lines() {
    let out = head_lines(b"a\nb\nc\nd\n", 2);
    assert_eq!(out, b"a\nb\n");
}

#[test]
fn head_lines_short_input_returned_whole() {
    let out = head_lines(b"a\nb", 10);
    assert_eq!(out, b"a\nb");
}

#[test]
fn head_lines_zero_is_empty() {
    let out = head_lines(b"a\nb\n", 0);
    assert_eq!(out, b"");
}

#[test]
fn head_bytes_takes_leading_bytes() {
    let out = head_bytes(b"abcdef", 4);
    assert_eq!(out, b"abcd");
}

#[test]
fn head_bytes_short_input_returned_whole() {
    let out = head_bytes(b"ab", 100);
    assert_eq!(out, b"ab");
}
