use textutils::lines::{eq_trimmed, split_lines};

#[test]
fn split_keeps_terminators() {
    let lines = split_lines(b"one\ntwo\n");
    assert_eq!(lines, vec![b"one\n".to_vec(), b"two\n".to_vec()]);
}

#[test]
fn split_final_fragment_is_a_line() {
    let lines = split_lines(b"one\ntwo");
    assert_eq!(lines, vec![b"one\n".to_vec(), b"two".to_vec()]);
}

#[test]
fn split_empty_input_has_no_lines() {
    let lines = split_lines(b"");
    assert!(lines.is_empty());
}

#[test]
fn split_blank_lines_kept() {
    let lines = split_lines(b"\n\na\n");
    assert_eq!(lines, vec![b"\n".to_vec(), b"\n".to_vec(), b"a\n".to_vec()]);
}

#[test]
fn trimmed_equality_ignores_terminators_only() {
    assert!(eq_trimmed(&b"a\r\n".to_vec(), &b"a\n".to_vec()));
    assert!(eq_trimmed(&b"a".to_vec(), &b"a\n".to_vec()));
    assert!(!eq_trimmed(&b"a ".to_vec(), &b"a".to_vec()));
    assert!(!eq_trimmed(&b"a\n".to_vec(), &b"b\n".to_vec()));
    assert!(eq_trimmed(&b"\r\n".to_vec(), &b"\n".to_vec()));
}
