use dockerstrator::matching::{
    extract_variant, get_compose_files, is_base_file, is_descriptor_file, is_override_file,
};

fn strings(items: &[&str]) -> Vec<String> {
    items.iter().map(|s| s.to_string()).collect()
}

#[test]
fn descriptor_pattern_requires_prefix_and_extension() {
    assert!(is_descriptor_file("docker-compose.yml"));
    assert!(is_descriptor_file("docker-compose.prod.yaml"));
    assert!(is_descriptor_file("compose.yml"));
    assert!(is_descriptor_file("compose.staging.yaml"));
    assert!(!is_descriptor_file("Makefile"));
    assert!(!is_descriptor_file("compose.json"));
    assert!(!is_descriptor_file("my-compose.yml"));
    assert!(!is_descriptor_file(".compose.yml"));
    assert!(!is_descriptor_file("Compose.yml"));
}

#[test]
fn base_and_override_names_are_exact() {
    assert!(is_base_file("docker-compose.yml"));
    assert!(is_base_file("compose.yaml"));
    assert!(!is_base_file("docker-compose.prod.yml"));
    assert!(is_override_file("docker-compose.override.yml"));
    assert!(is_override_file("compose.override.yaml"));
    assert!(!is_override_file("docker-compose.yml"));
}

#[test]
fn variant_extraction_strips_prefix_and_extension() {
    assert_eq!(extract_variant("docker-compose.prod.yml"), "prod");
    assert_eq!(extract_variant("compose.staging.yaml"), "staging");
    assert_eq!(extract_variant("docker-compose.override.yml"), "override");
    assert_eq!(extract_variant("docker-compose.yml"), "docker-compose");
    assert_eq!(extract_variant("compose.yml"), "compose");
    assert_eq!(extract_variant("other.txt"), "other.txt");
}

#[test]
fn compose_files_are_filtered_and_sorted() {
    let found = get_compose_files(&strings(&[
        "readme.md",
        "docker-compose.prod.yml",
        "compose.yaml",
        "docker-compose.yml",
        "notes.yml",
    ]));
    assert_eq!(
        found,
        strings(&["compose.yaml", "docker-compose.prod.yml", "docker-compose.yml"])
    );
}

#[test]
fn no_descriptors_yields_empty_list() {
    let found = get_compose_files(&strings(&["main.rs", "Cargo.toml"]));
    assert!(found.is_empty());
}
