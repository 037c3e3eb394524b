use textutils::find::{entry_selected, kind_selected, name_selected, EntryType};

#[test]
fn no_filters_selects_everything() {
    let r = entry_selected(&Vec::new(), true, false, false, &Vec::new(), "anything");
    assert_eq!(r, Some(true));
}

#[test]
fn kind_filter_selects_matching_kind() {
    let kinds = vec![EntryType::Dir, EntryType::Link];
    assert!(kind_selected(&kinds, false, true, false));
    assert!(kind_selected(&kinds, false, false, true));
    assert!(!kind_selected(&kinds, true, false, false));
}

#[test]
fn name_filter_uses_real_patterns() {
    let patterns = vec!["[.]csv$".to_string()];
    assert_eq!(name_selected(&patterns, "table.csv"), Some(true));
    assert_eq!(name_selected(&patterns, "table.txt"), Some(false));
}

#[test]
fn name_filter_any_pattern_suffices() {
    let patterns = vec!["^x".to_string(), "y$".to_string()];
    assert_eq!(name_selected(&patterns, "stone"), Some(false));
    assert_eq!(name_selected(&patterns, "xavier"), Some(true));
    assert_eq!(name_selected(&patterns, "grey"), Some(true));
}

#[test]
fn invalid_pattern_is_reported() {
    let patterns = vec!["(".to_string()];
    assert_eq!(name_selected(&patterns, "anything"), None);
    assert_eq!(
        entry_selected(&Vec::new(), true, false, false, &patterns, "anything"),
        None
    );
}

#[test]
fn both_filters_must_pass() {
    let kinds = vec![EntryType::File];
    let patterns = vec!["log$".to_string()];
    assert_eq!(entry_selected(&kinds, true, false, false, &patterns, "app.log"), Some(true));
    assert_eq!(entry_selected(&kinds, false, true, false, &patterns, "app.log"), Some(false));
    assert_eq!(entry_selected(&kinds, true, false, false, &patterns, "app.txt"), Some(false));
}
