use textutils::cat::number_lines;

fn strings(v: &[&str]) -> Vec<String> {
    v.iter().map(|s| s.to_string()).collect()
}

#[test]
fn numbering_disabled_passes_through() {
    let lines = strings(&["alpha", "", "beta"]);
    let out = number_lines(&lines, false, false);
    assert_eq!(out, strings(&["alpha", "", "beta"]));
}

#[test]
fn number_all_lines() {
    let lines = strings(&["alpha", "", "beta"]);
    let out = number_lines(&lines, true, false);
    assert_eq!(out, strings(&["     1\talpha", "     2\t", "     3\tbeta"]));
}

#[test]
fn number_nonblank_lines_skips_blanks() {
    let lines = strings(&["alpha", "", "beta"]);
    let out = number_lines(&lines, false, true);
    assert_eq!(out, strings(&["     1\talpha", "", "     2\tbeta"]));
}

#[test]
fn number_lines_empty_input() {
    let out = number_lines(&Vec::new(), true, false);
    assert!(out.is_empty());
}
