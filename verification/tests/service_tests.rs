use dockerstrator::service::{sort_services, Service};

fn service(name: &str, variant: Option<&str>) -> Service {
    Service {
        name: name.to_string(),
        path: format!("/srv/{}", name),
        compose_files: Vec::new(),
        variant: variant.map(|v| v.to_string()),
    }
}

#[test]
fn label_is_the_name_without_a_variant() {
    assert_eq!(service("rabbitmq", None).label(), "rabbitmq");
}

#[test]
fn label_appends_the_variant_in_parentheses() {
    assert_eq!(service("rabbitmq", Some("prod")).label(), "rabbitmq (prod)");
}

#[test]
fn sorting_orders_by_name_then_variant() {
    let list = vec![
        service("web", Some("dev")),
        service("api", Some("prod")),
        service("web", None),
        service("api", None),
    ];
    let sorted = sort_services(&list);
    let labels: Vec<String> = sorted.iter().map(|s| s.label()).collect();
    assert_eq!(labels, vec!["api", "api (prod)", "web", "web (dev)"]);
}

#[test]
fn absent_variant_sorts_before_any_present_variant() {
    let list = vec![service("api", Some("alpha")), service("api", None)];
    let sorted = sort_services(&list);
    assert_eq!(sorted[0].variant, None);
    assert_eq!(sorted[1].variant, Some("alpha".to_string()));
}

#[test]
fn variants_sort_lexicographically() {
    let list = vec![
        service("api", Some("prod")),
        service("api", Some("dev")),
        service("api", Some("beta")),
    ];
    let sorted = sort_services(&list);
    let variants: Vec<Option<String>> = sorted.iter().map(|s| s.variant.clone()).collect();
    assert_eq!(
        variants,
        vec![
            Some("beta".to_string()),
            Some("dev".to_string()),
            Some("prod".to_string())
        ]
    );
}

#[test]
fn duplicate_copies_every_field() {
    let s = service("api", Some("prod"));
    let d = s.duplicate();
    assert_eq!(d.name, s.name);
    assert_eq!(d.path, s.path);
    assert_eq!(d.compose_files, s.compose_files);
    assert_eq!(d.variant, s.variant);
}
