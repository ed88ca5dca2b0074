use dockerstrator::config::{
    parse_depth_input, trim_str, AddOutcome, Config, DepthInput,
};

fn strings(items: &[&str]) -> Vec<String> {
    items.iter().map(|s| s.to_string()).collect()
}

#[test]
fn defaults_are_bounded_depth_and_modern_command() {
    let c = Config::default();
    assert_eq!(c.max_depth, Some(7));
    assert!(c.excluded_dirs.is_empty());
    assert!(!c.legacy_compose);
}

#[test]
fn blank_depth_input_means_unlimited() {
    assert_eq!(parse_depth_input(""), DepthInput::Unlimited);
    assert_eq!(parse_depth_input("   "), DepthInput::Unlimited);
    assert_eq!(parse_depth_input(" \t\n"), DepthInput::Unlimited);
}

#[test]
fn numeric_depth_input_parses_exactly() {
    assert_eq!(parse_depth_input("7"), DepthInput::Depth(7));
    assert_eq!(parse_depth_input("0"), DepthInput::Depth(0));
    assert_eq!(parse_depth_input("+12"), DepthInput::Depth(12));
    assert_eq!(parse_depth_input("304"), DepthInput::Depth(304));
}

#[test]
fn malformed_depth_input_is_invalid() {
    assert_eq!(parse_depth_input("abc"), DepthInput::Invalid);
    assert_eq!(parse_depth_input("1a"), DepthInput::Invalid);
    assert_eq!(parse_depth_input("-3"), DepthInput::Invalid);
    assert_eq!(parse_depth_input("+"), DepthInput::Invalid);
    // a space inside is not trimmed away by the parser
    assert_eq!(parse_depth_input(" 7"), DepthInput::Invalid);
    assert_eq!(
        parse_depth_input("99999999999999999999999999999"),
        DepthInput::Invalid
    );
}

#[test]
fn applying_depth_input_changes_only_the_bound() {
    let mut c = Config::default();
    assert!(c.apply_depth_input(DepthInput::Unlimited));
    assert_eq!(c.max_depth, None);
    assert!(c.apply_depth_input(DepthInput::Depth(3)));
    assert_eq!(c.max_depth, Some(3));
    assert!(!c.apply_depth_input(DepthInput::Invalid));
    assert_eq!(c.max_depth, Some(3));
}

#[test]
fn trimming_strips_surrounding_whitespace_only() {
    assert_eq!(trim_str("  cache \t"), "cache");
    assert_eq!(trim_str("cache"), "cache");
    assert_eq!(trim_str("   "), "");
    assert_eq!(trim_str("a b"), "a b");
}

#[test]
fn adding_an_exclusion_trims_and_refuses_duplicates() {
    let mut c = Config::default();
    assert_eq!(c.add_excluded(" cache "), AddOutcome::Added);
    assert_eq!(c.excluded_dirs, strings(&["cache"]));
    assert_eq!(c.add_excluded("cache"), AddOutcome::AlreadyExcluded);
    assert_eq!(c.excluded_dirs, strings(&["cache"]));
    assert_eq!(c.add_excluded("   "), AddOutcome::Empty);
    assert_eq!(c.excluded_dirs, strings(&["cache"]));
}

#[test]
fn removing_an_exclusion_keeps_the_rest_in_order() {
    let mut c = Config::default();
    c.excluded_dirs = strings(&["one", "two", "three"]);
    c.remove_excluded("two");
    assert_eq!(c.excluded_dirs, strings(&["one", "three"]));
    c.remove_excluded("absent");
    assert_eq!(c.excluded_dirs, strings(&["one", "three"]));
}

#[test]
fn clearing_exclusions_empties_the_list() {
    let mut c = Config::default();
    c.excluded_dirs = strings(&["one", "two"]);
    c.clear_excluded();
    assert!(c.excluded_dirs.is_empty());
}

#[test]
fn toggling_the_command_flavor_flips_only_the_flag() {
    let mut c = Config::default();
    c.toggle_legacy();
    assert!(c.legacy_compose);
    assert_eq!(c.max_depth, Some(7));
    c.toggle_legacy();
    assert!(!c.legacy_compose);
}
