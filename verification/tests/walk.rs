use cfgmk::walk::{filter_walk, is_rules};

#[test]
fn search_looks_at_what_is_not_hidden() {
    assert!(filter_walk(Some("Rules"), false));
    assert!(filter_walk(Some("sub"), true));
    assert!(filter_walk(Some("Rules"), true));
    assert!(filter_walk(Some("notes.txt"), false));
    assert!(filter_walk(Some(""), true));
    assert!(filter_walk(None, false));
    assert!(filter_walk(None, true));
}

#[test]
fn search_passes_over_what_is_hidden() {
    assert!(!filter_walk(Some(".git"), true));
    assert!(!filter_walk(Some(".hidden"), false));
    assert!(!filter_walk(Some(".Rules"), false));
    assert!(!filter_walk(Some("."), true));
    assert!(!filter_walk(Some(".."), true));
}

#[test]
fn rules_files_are_files_named_rules() {
    assert!(is_rules(Some("Rules"), false));
    assert!(!is_rules(Some("Rules"), true));
    assert!(!is_rules(Some("rules"), false));
    assert!(!is_rules(Some("Rules "), false));
    assert!(!is_rules(Some("Rule"), false));
    assert!(!is_rules(Some("Rulez"), false));
    assert!(!is_rules(Some(""), false));
    assert!(!is_rules(None, false));
}
