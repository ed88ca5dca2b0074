use dockerstrator::command::{Action, ComposeMode};
use dockerstrator::dispatch::{collect_results, count_successes, filter_running, plan_dispatch};
use dockerstrator::service::Service;

fn service(name: &str, variant: Option<&str>) -> Service {
    Service {
        name: name.to_string(),
        path: format!("/srv/{}", name),
        compose_files: Vec::new(),
        variant: variant.map(|v| v.to_string()),
    }
}

#[test]
fn one_job_per_service_in_order() {
    let services = vec![service("a", None), service("b", Some("prod")), service("c", None)];
    let jobs = plan_dispatch(&services, Action::Start, ComposeMode::Modern);
    assert_eq!(jobs.len(), 3);
    assert_eq!(jobs[0].label, "a");
    assert_eq!(jobs[1].label, "b (prod)");
    assert_eq!(jobs[2].label, "c");
    assert_eq!(jobs[1].program, "docker");
    assert_eq!(jobs[1].args, vec!["compose", "up", "-d"]);
    assert_eq!(jobs[1].dir, "/srv/b");
}

#[test]
fn every_label_appears_exactly_once_whatever_the_outcomes() {
    let services = vec![service("a", None), service("b", None), service("c", Some("dev"))];
    let outcomes = vec![true, false, true];
    let results = collect_results(&services, &outcomes);
    assert_eq!(results.len(), services.len());
    for (i, s) in services.iter().enumerate() {
        let occurrences = results.iter().filter(|(l, _)| *l == s.label()).count();
        assert_eq!(occurrences, 1, "label {} not reported exactly once", s.label());
    }
    assert_eq!(results[0], ("a".to_string(), true));
    assert_eq!(results[1], ("b".to_string(), false));
    assert_eq!(results[2], ("c (dev)".to_string(), true));
}

#[test]
fn all_failures_still_report_every_service() {
    let services = vec![service("a", None), service("b", None)];
    let results = collect_results(&services, &vec![false, false]);
    assert_eq!(results.len(), 2);
    assert_eq!(count_successes(&results), 0);
}

#[test]
fn success_count_matches_the_mixture() {
    let services = vec![service("a", None), service("b", None), service("c", None)];
    let results = collect_results(&services, &vec![true, false, true]);
    assert_eq!(count_successes(&results), 2);
}

#[test]
fn filter_running_keeps_only_reported_running_labels() {
    let services = vec![service("a", None), service("b", None), service("c", Some("dev"))];
    let statuses = vec![
        ("a".to_string(), false),
        ("c (dev)".to_string(), true),
        ("b".to_string(), true),
    ];
    let running = filter_running(&services, &statuses);
    let labels: Vec<String> = running.iter().map(|s| s.label()).collect();
    assert_eq!(labels, vec!["b", "c (dev)"]);
}

#[test]
fn filter_running_with_no_running_services_is_empty() {
    let services = vec![service("a", None)];
    let statuses = vec![("a".to_string(), false)];
    assert!(filter_running(&services, &statuses).is_empty());
}
