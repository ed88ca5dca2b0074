use dockerstrator::grouping::group_compose_files;
use dockerstrator::service::Service;

fn strings(items: &[&str]) -> Vec<String> {
    items.iter().map(|s| s.to_string()).collect()
}

fn labels(services: &[Service]) -> Vec<String> {
    services.iter().map(|s| s.label()).collect()
}

#[test]
fn single_file_yields_one_unqualified_unit() {
    let units = group_compose_files(&strings(&["compose.yml"]), "web", "/srv/web");
    assert_eq!(units.len(), 1);
    assert_eq!(units[0].name, "web");
    assert_eq!(units[0].path, "/srv/web");
    assert_eq!(units[0].variant, None);
    assert_eq!(units[0].compose_files, strings(&["compose.yml"]));
}

#[test]
fn base_plus_override_yields_one_unit_with_empty_files() {
    let units = group_compose_files(
        &strings(&["docker-compose.override.yml", "docker-compose.yml"]),
        "api",
        "/srv/api",
    );
    assert_eq!(units.len(), 1);
    assert_eq!(units[0].variant, None);
    assert!(units[0].compose_files.is_empty());
}

#[test]
fn base_plus_tagged_yields_default_and_variant_units() {
    let units = group_compose_files(
        &strings(&["docker-compose.prod.yml", "docker-compose.yml"]),
        "api",
        "/srv/api",
    );
    assert_eq!(units.len(), 2);
    assert_eq!(units[0].variant, None);
    assert!(units[0].compose_files.is_empty());
    assert_eq!(units[1].variant, Some("prod".to_string()));
    assert_eq!(units[1].compose_files, strings(&["docker-compose.prod.yml"]));
}

#[test]
fn a_single_override_file_is_one_unqualified_unit() {
    let units = group_compose_files(
        &strings(&["docker-compose.override.yml"]),
        "db",
        "/srv/db",
    );
    assert_eq!(units.len(), 1);
    // a single file never carries a variant label
    assert_eq!(units[0].variant, None);
    assert_eq!(
        units[0].compose_files,
        strings(&["docker-compose.override.yml"])
    );
}

#[test]
fn two_overrides_without_base_are_each_promoted() {
    let units = group_compose_files(
        &strings(&["compose.override.yaml", "docker-compose.override.yml"]),
        "db",
        "/srv/db",
    );
    assert_eq!(units.len(), 2);
    assert_eq!(units[0].variant, Some("override".to_string()));
    assert_eq!(units[0].compose_files, strings(&["compose.override.yaml"]));
    assert_eq!(units[1].variant, Some("override".to_string()));
    assert_eq!(
        units[1].compose_files,
        strings(&["docker-compose.override.yml"])
    );
}

#[test]
fn several_tagged_files_become_their_own_units() {
    let units = group_compose_files(
        &strings(&[
            "docker-compose.dev.yml",
            "docker-compose.prod.yml",
            "docker-compose.yml",
        ]),
        "svc",
        "/srv/svc",
    );
    assert_eq!(units.len(), 3);
    assert_eq!(units[0].variant, None);
    assert!(units[0].compose_files.is_empty());
    assert_eq!(units[1].variant, Some("dev".to_string()));
    assert_eq!(units[2].variant, Some("prod".to_string()));
    let ls = labels(&units);
    assert_eq!(ls, vec!["svc", "svc (dev)", "svc (prod)"]);
}

#[test]
fn grouping_is_deterministic_for_one_input() {
    let files = strings(&["docker-compose.prod.yml", "docker-compose.yml"]);
    let once = labels(&group_compose_files(&files, "api", "/srv/api"));
    let twice = labels(&group_compose_files(&files, "api", "/srv/api"));
    assert_eq!(once, twice);
}

#[test]
fn grouped_labels_are_distinct_in_one_directory() {
    let units = group_compose_files(
        &strings(&[
            "compose.staging.yaml",
            "docker-compose.dev.yml",
            "docker-compose.prod.yml",
            "docker-compose.yml",
        ]),
        "svc",
        "/srv/svc",
    );
    let mut ls = labels(&units);
    let before = ls.len();
    ls.sort();
    ls.dedup();
    assert_eq!(ls.len(), before);
}
