use dockerstrator::relay::{relay_decision, ChildProbe, RelayStep};
use dockerstrator::ui::{menu_step, KeyPress, MenuStep, UiKey};

fn press(code: UiKey) -> KeyPress {
    KeyPress { code, ctrl: false }
}

fn ctrl(code: UiKey) -> KeyPress {
    KeyPress { code, ctrl: true }
}

fn menu_keys() -> Vec<char> {
    vec!['s', 'p', 'r', 'q']
}

#[test]
fn cursor_moves_down_and_wraps() {
    let keys = menu_keys();
    assert_eq!(menu_step(&keys, 0, press(UiKey::Down)), MenuStep::Moved(1));
    assert_eq!(menu_step(&keys, 3, press(UiKey::Down)), MenuStep::Moved(0));
}

#[test]
fn cursor_moves_up_and_wraps() {
    let keys = menu_keys();
    assert_eq!(menu_step(&keys, 2, press(UiKey::Up)), MenuStep::Moved(1));
    assert_eq!(menu_step(&keys, 0, press(UiKey::Up)), MenuStep::Moved(3));
}

#[test]
fn enter_chooses_the_item_under_the_cursor() {
    let keys = menu_keys();
    assert_eq!(menu_step(&keys, 1, press(UiKey::Enter)), MenuStep::Chosen('p'));
}

#[test]
fn letter_keys_choose_case_insensitively() {
    let keys = menu_keys();
    assert_eq!(menu_step(&keys, 0, press(UiKey::Char('r'))), MenuStep::Chosen('r'));
    assert_eq!(menu_step(&keys, 0, press(UiKey::Char('R'))), MenuStep::Chosen('r'));
    assert_eq!(menu_step(&keys, 0, press(UiKey::Char('x'))), MenuStep::Ignored);
}

#[test]
fn escape_dismisses_the_menu() {
    assert_eq!(menu_step(&menu_keys(), 0, press(UiKey::Esc)), MenuStep::Cancelled);
}

#[test]
fn other_keys_are_ignored() {
    assert_eq!(menu_step(&menu_keys(), 0, press(UiKey::Other)), MenuStep::Ignored);
}

#[test]
fn cancellation_key_always_cancels_a_running_relay() {
    // the external process is simulated as never exiting: every probe says
    // Running, and the cancel key must still end the relay at this poll
    assert_eq!(
        relay_decision(Some(ctrl(UiKey::Char('c'))), ChildProbe::Running),
        RelayStep::Cancel
    );
    assert_eq!(
        relay_decision(Some(press(UiKey::Esc)), ChildProbe::Running),
        RelayStep::Cancel
    );
}

#[test]
fn plain_c_without_control_does_not_cancel() {
    assert_eq!(
        relay_decision(Some(press(UiKey::Char('c'))), ChildProbe::Running),
        RelayStep::Continue
    );
}

#[test]
fn relay_continues_while_the_process_runs() {
    assert_eq!(relay_decision(None, ChildProbe::Running), RelayStep::Continue);
}

#[test]
fn relay_finishes_when_the_process_exits_or_the_probe_fails() {
    assert_eq!(relay_decision(None, ChildProbe::Exited), RelayStep::Finish);
    assert_eq!(relay_decision(None, ChildProbe::ProbeError), RelayStep::Finish);
}
