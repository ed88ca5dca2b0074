use dockerstrator::strutil::{contains_string, has_prefix, has_suffix, sort_strings, str_eq, str_lt};

fn strings(items: &[&str]) -> Vec<String> {
    items.iter().map(|s| s.to_string()).collect()
}

#[test]
fn string_equality_is_by_characters() {
    assert!(str_eq("compose.yml", "compose.yml"));
    assert!(!str_eq("compose.yml", "compose.yaml"));
    assert!(str_eq("", ""));
    assert!(!str_eq("a", ""));
}

#[test]
fn prefix_and_suffix_tests_are_exact() {
    assert!(has_prefix("docker-compose.yml", "docker-compose"));
    assert!(!has_prefix("my-docker-compose.yml", "docker-compose"));
    assert!(has_prefix("abc", ""));
    assert!(!has_prefix("ab", "abc"));
    assert!(has_suffix("compose.yml", ".yml"));
    assert!(!has_suffix("compose.yml", ".yaml"));
    assert!(has_suffix("abc", ""));
}

#[test]
fn lexicographic_order_is_by_code_point_with_prefix_first() {
    assert!(str_lt("a", "b"));
    assert!(!str_lt("b", "a"));
    assert!(str_lt("a", "ab"));
    assert!(!str_lt("ab", "a"));
    assert!(!str_lt("a", "a"));
    assert!(str_lt("compose.yaml", "compose.yml"));
}

#[test]
fn sorting_strings_is_lexicographic_and_keeps_duplicates() {
    let sorted = sort_strings(&strings(&["b", "a", "c", "a"]));
    assert_eq!(sorted, strings(&["a", "a", "b", "c"]));
}

#[test]
fn containment_checks_the_whole_string() {
    let v = strings(&["target", "vendor"]);
    assert!(contains_string(&v, "target"));
    assert!(!contains_string(&v, "tar"));
    assert!(!contains_string(&v, "node_modules"));
}
