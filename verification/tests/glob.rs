use codimate::glob::glob_match;

#[test]
fn glob_matches_the_patterns_authors_actually_write() {
    assert!(glob_match("*", "bar_3"));
    assert!(glob_match("bar_*", "bar_3"));
    assert!(!glob_match("bar_*", "label_3"));
    assert!(glob_match("*_3", "bar_3"));
    assert!(glob_match("bar_?", "bar_3"));
    assert!(!glob_match("bar_?", "bar_33"));
    assert!(glob_match("bar_3", "bar_3"));
}

#[test]
fn a_star_matches_the_empty_run() {
    assert!(glob_match("bar*", "bar"));
    assert!(glob_match("*", ""));
    assert!(glob_match("**", ""));
    assert!(!glob_match("?", ""));
}

#[test]
fn the_matcher_backtracks_to_the_last_star() {
    assert!(glob_match("a*b*c", "axxbyyc"));
    assert!(glob_match("*ab", "aab"));
    assert!(!glob_match("a*b", "aXc"));
    assert!(glob_match("?*?", "ab"));
    assert!(!glob_match("?*?", "a"));
}

#[test]
fn an_empty_pattern_matches_only_the_empty_name() {
    assert!(glob_match("", ""));
    assert!(!glob_match("", "a"));
}

#[test]
fn a_pattern_star_matches_names_that_hold_stars() {
    assert!(glob_match("*", "**"));
    assert!(glob_match("*", "*"));
    assert!(glob_match("a*", "a*b"));
    assert!(glob_match("*b", "**b"));
    assert!(glob_match("x*y", "x*y"));
    assert!(!glob_match("*b", "*a"));
}
