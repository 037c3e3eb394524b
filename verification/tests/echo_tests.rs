use textutils::echo::joined;

fn strings(v: &[&str]) -> Vec<String> {
    v.iter().map(|s| s.to_string()).collect()
}

#[test]
fn joined_single_argument() {
    assert_eq!(joined(&strings(&["Hello there"]), false), "Hello there\n");
}

#[test]
fn joined_two_arguments_single_space() {
    assert_eq!(joined(&strings(&["Hello", "there"]), false), "Hello there\n");
}

#[test]
fn joined_omits_newline_when_asked() {
    assert_eq!(joined(&strings(&["Hello  there"]), true), "Hello  there");
}

#[test]
fn joined_no_arguments() {
    assert_eq!(joined(&Vec::new(), false), "\n");
    assert_eq!(joined(&Vec::new(), true), "");
}
