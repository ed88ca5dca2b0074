use dockerstrator::config::Config;
use dockerstrator::service::Service;
use dockerstrator::walker::{SubdirEntry, Walker};

fn strings(items: &[&str]) -> Vec<String> {
    items.iter().map(|s| s.to_string()).collect()
}

fn subdir(name: &str, path: &str, canon: &str, files: &[&str]) -> SubdirEntry {
    SubdirEntry {
        name: name.to_string(),
        path: path.to_string(),
        canon: canon.to_string(),
        file_names: strings(files),
    }
}

fn config(max_depth: Option<usize>) -> Config {
    Config { max_depth, excluded_dirs: Vec::new(), legacy_compose: false }
}

#[test]
fn walk_with_symlink_cycle_terminates_and_visits_once() {
    // The tree: /r holds a, and a holds a symlink back to /r and one to a
    // itself. Canonical paths expose the cycle.
    let mut w = Walker::new("/r", "/r", &strings(&[]), &config(None));
    let mut handed: Vec<String> = Vec::new();
    let mut rounds = 0usize;
    while let Some(dir) = w.next_dir() {
        rounds += 1;
        assert!(rounds <= 10, "the walk failed to terminate");
        let listing = match dir.as_str() {
            "/r" => vec![subdir("a", "/r/a", "/r/a", &[])],
            "/r/a" => vec![
                subdir("up", "/r/a/up", "/r", &[]),
                subdir("this", "/r/a/this", "/r/a", &[]),
            ],
            other => panic!("unexpected directory handed out: {}", other),
        };
        handed.push(dir);
        w.record_listing(&listing);
    }
    let mut unique = handed.clone();
    unique.sort();
    unique.dedup();
    assert_eq!(unique.len(), handed.len(), "a directory was handed out twice");
    assert_eq!(handed, vec!["/r".to_string(), "/r/a".to_string()]);
}

#[test]
fn root_is_considered_even_at_depth_zero() {
    let mut w = Walker::new(
        "/r",
        "/r",
        &strings(&["docker-compose.yml", "readme.md"]),
        &config(Some(0)),
    );
    // with max_depth = 0 no directory is ever listed
    assert_eq!(w.next_dir(), None);
    let services: Vec<Service> = w.finish();
    assert_eq!(services.len(), 1);
    assert_eq!(services[0].name, "root");
    assert_eq!(services[0].compose_files, strings(&["docker-compose.yml"]));
}

#[test]
fn no_unit_comes_from_beyond_the_depth_bound() {
    // /r -> a (compose at depth 1), b -> c (compose at depth 2)
    let mut w = Walker::new("/r", "/r", &strings(&[]), &config(Some(1)));
    while let Some(dir) = w.next_dir() {
        let listing = match dir.as_str() {
            "/r" => vec![
                subdir("a", "/r/a", "/r/a", &["compose.yml"]),
                subdir("b", "/r/b", "/r/b", &[]),
            ],
            "/r/b" => vec![subdir("c", "/r/b/c", "/r/b/c", &["compose.yml"])],
            other => panic!("descended too deep into {}", other),
        };
        // with max_depth = 1, /r/b (depth 1) must not be listed
        assert_eq!(dir, "/r");
        w.record_listing(&listing);
    }
    let services = w.finish();
    assert_eq!(services.len(), 1);
    assert_eq!(services[0].name, "a");
}

#[test]
fn unbounded_walk_descends_past_empty_directories() {
    let mut w = Walker::new("/r", "/r", &strings(&[]), &config(None));
    while let Some(dir) = w.next_dir() {
        let listing = match dir.as_str() {
            "/r" => vec![subdir("b", "/r/b", "/r/b", &[])],
            "/r/b" => vec![subdir("c", "/r/b/c", "/r/b/c", &["compose.yml"])],
            other => panic!("unexpected directory {}", other),
        };
        w.record_listing(&listing);
    }
    let services = w.finish();
    assert_eq!(services.len(), 1);
    assert_eq!(services[0].name, "c");
    assert_eq!(services[0].path, "/r/b/c");
}

#[test]
fn hidden_builtin_and_configured_names_are_skipped() {
    let mut cfg = config(None);
    cfg.excluded_dirs = strings(&["skipme"]);
    let mut w = Walker::new("/r", "/r", &strings(&[]), &cfg);
    while let Some(dir) = w.next_dir() {
        assert_eq!(dir, "/r");
        let listing = vec![
            subdir(".git", "/r/.git", "/r/.git", &["compose.yml"]),
            subdir("target", "/r/target", "/r/target", &["compose.yml"]),
            subdir("node_modules", "/r/node_modules", "/r/node_modules", &["compose.yml"]),
            subdir("vendor", "/r/vendor", "/r/vendor", &["compose.yml"]),
            subdir("skipme", "/r/skipme", "/r/skipme", &["compose.yml"]),
            subdir("ok", "/r/ok", "/r/ok", &["compose.yml"]),
        ];
        w.record_listing(&listing);
    }
    let services = w.finish();
    assert_eq!(services.len(), 1);
    assert_eq!(services[0].name, "ok");
}

#[test]
fn descriptor_directory_is_a_leaf_and_not_descended() {
    let mut w = Walker::new("/r", "/r", &strings(&[]), &config(None));
    while let Some(dir) = w.next_dir() {
        let listing = match dir.as_str() {
            "/r" => vec![subdir("a", "/r/a", "/r/a", &["compose.yml"])],
            other => panic!("descended into leaf {}", other),
        };
        w.record_listing(&listing);
    }
    assert_eq!(w.finish().len(), 1);
}

#[test]
fn discovery_result_is_sorted_by_name_then_variant() {
    let mut w = Walker::new("/r", "/r", &strings(&[]), &config(None));
    while let Some(dir) = w.next_dir() {
        let listing = match dir.as_str() {
            "/r" => vec![
                subdir("zeta", "/r/zeta", "/r/zeta", &["compose.yml"]),
                subdir(
                    "alpha",
                    "/r/alpha",
                    "/r/alpha",
                    &["docker-compose.yml", "docker-compose.prod.yml"],
                ),
            ],
            other => panic!("unexpected directory {}", other),
        };
        w.record_listing(&listing);
    }
    let services = w.finish();
    let labels: Vec<String> = services.iter().map(|s| s.label()).collect();
    assert_eq!(labels, vec!["alpha", "alpha (prod)", "zeta"]);
}

#[test]
fn finding_nothing_is_a_valid_outcome() {
    let mut w = Walker::new("/r", "/r", &strings(&["readme.md"]), &config(None));
    while let Some(dir) = w.next_dir() {
        assert_eq!(dir, "/r");
        w.record_listing(&Vec::new());
    }
    assert!(w.finish().is_empty());
}

#[test]
fn discovery_labels_are_unique_across_distinct_directories() {
    let mut w = Walker::new("/r", "/r", &strings(&["compose.yml"]), &config(None));
    while let Some(dir) = w.next_dir() {
        let listing = match dir.as_str() {
            "/r" => vec![
                subdir("api", "/r/api", "/r/api", &["docker-compose.yml", "docker-compose.dev.yml"]),
                subdir("web", "/r/web", "/r/web", &["compose.yml"]),
            ],
            other => panic!("unexpected directory {}", other),
        };
        w.record_listing(&listing);
    }
    let services = w.finish();
    let mut labels: Vec<String> = services.iter().map(|s| s.label()).collect();
    let n = labels.len();
    assert_eq!(n, 4);
    labels.sort();
    labels.dedup();
    assert_eq!(labels.len(), n);
}
