use dockerstrator::command::{action_args, action_of_key, build_compose_cmd, Action, ComposeMode};
use dockerstrator::service::Service;

fn strings(items: &[&str]) -> Vec<String> {
    items.iter().map(|s| s.to_string()).collect()
}

fn service(files: &[&str]) -> Service {
    Service {
        name: "api".to_string(),
        path: "/srv/api".to_string(),
        compose_files: strings(files),
        variant: None,
    }
}

#[test]
fn modern_mode_uses_subcommand_form() {
    let inv = build_compose_cmd(&service(&["compose.yml"]), ComposeMode::Modern);
    assert_eq!(inv.program, "docker");
    assert_eq!(inv.args, strings(&["compose", "-f", "compose.yml"]));
    assert_eq!(inv.dir, "/srv/api");
}

#[test]
fn legacy_mode_uses_single_binary() {
    let inv = build_compose_cmd(&service(&["compose.yml"]), ComposeMode::Legacy);
    assert_eq!(inv.program, "docker-compose");
    assert_eq!(inv.args, strings(&["-f", "compose.yml"]));
}

#[test]
fn empty_file_list_omits_file_flags_entirely() {
    let inv = build_compose_cmd(&service(&[]), ComposeMode::Modern);
    assert_eq!(inv.args, strings(&["compose"]));
}

#[test]
fn each_file_gets_its_own_flag_in_order() {
    let inv = build_compose_cmd(&service(&["a.yml", "b.yml"]), ComposeMode::Legacy);
    assert_eq!(inv.args, strings(&["-f", "a.yml", "-f", "b.yml"]));
}

#[test]
fn mode_comes_from_the_configuration_flag() {
    assert_eq!(ComposeMode::from_flag(true), ComposeMode::Legacy);
    assert_eq!(ComposeMode::from_flag(false), ComposeMode::Modern);
}

#[test]
fn action_argument_suffixes_are_exact() {
    assert_eq!(action_args(Action::Start), strings(&["up", "-d"]));
    assert_eq!(action_args(Action::Stop), strings(&["down"]));
    assert_eq!(action_args(Action::Restart), strings(&["restart"]));
    assert_eq!(action_args(Action::Status), strings(&["ps", "-q"]));
    assert_eq!(action_args(Action::Logs), strings(&["logs", "-f"]));
    assert_eq!(action_args(Action::Cleanup), strings(&["down", "-v"]));
}

#[test]
fn main_menu_keys_map_to_actions() {
    assert_eq!(action_of_key('s'), Some(Action::Start));
    assert_eq!(action_of_key('p'), Some(Action::Stop));
    assert_eq!(action_of_key('r'), Some(Action::Restart));
    assert_eq!(action_of_key('t'), Some(Action::Status));
    assert_eq!(action_of_key('l'), Some(Action::Logs));
    assert_eq!(action_of_key('c'), Some(Action::Cleanup));
    assert_eq!(action_of_key('g'), Some(Action::Settings));
    assert_eq!(action_of_key('q'), None);
    assert_eq!(action_of_key('x'), None);
}
