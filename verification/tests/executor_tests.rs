use cyber_toolkit::executor::BatchState;
use cyber_toolkit::executor::Verb;
use cyber_toolkit::names::NameSet;

fn strings(items: &[&str]) -> Vec<String> {
    items.iter().map(|s| s.to_string()).collect()
}

fn tool_set(items: &[&str]) -> NameSet {
    NameSet::from_items(&strings(items))
}

#[test]
fn empty_tools_finish_without_any_command() {
    let state = BatchState::start(Verb::Install, tool_set(&[]));
    assert!(state.finished());
    assert!(state.pending_command().is_none());
    let result = state.into_result().unwrap();
    assert!(result.succeeded.is_empty());
    assert!(result.failed.is_empty());
}

#[test]
fn bulk_command_covers_every_tool() {
    let state = BatchState::start(Verb::Install, tool_set(&["b", "a", "c"]));
    assert_eq!(
        state.pending_command().unwrap(),
        "pacman -Syu --noconfirm --needed a b c"
    );
}

#[test]
fn uninstall_uses_remove_flags() {
    let state = BatchState::start(Verb::Uninstall, tool_set(&["nmap"]));
    assert_eq!(
        state.pending_command().unwrap(),
        "pacman -Runs --noconfirm nmap"
    );
}

#[test]
fn quoting_keeps_a_name_one_argument() {
    // a space or shell metacharacters in a tool name must not split or
    // extend the command: shlex wraps the name in quotes.
    let state = BatchState::start(Verb::Install, tool_set(&["a b"]));
    assert_eq!(
        state.pending_command().unwrap(),
        "pacman -Syu --noconfirm --needed 'a b'"
    );
    let sneaky = BatchState::start(Verb::Install, tool_set(&["x; rm"]));
    assert_eq!(
        sneaky.pending_command().unwrap(),
        "pacman -Syu --noconfirm --needed 'x; rm'"
    );
}

#[test]
fn bulk_success_marks_all_succeeded() {
    let state = BatchState::start(Verb::Install, tool_set(&["b", "a"]));
    let done = state.advance(true);
    assert!(done.finished());
    let result = done.into_result().unwrap();
    assert_eq!(result.succeeded, strings(&["a", "b"]));
    assert!(result.failed.is_empty());
}

#[test]
fn bulk_failure_falls_back_per_tool() {
    // bulk install of [a, b, c] fails; individually a and c succeed, b fails
    let mut state = BatchState::start(Verb::Install, tool_set(&["a", "b", "c"]));
    state = state.advance(false);
    assert!(!state.finished());
    assert_eq!(
        state.pending_command().unwrap(),
        "pacman -Syu --noconfirm --needed a"
    );
    state = state.advance(true);
    assert_eq!(
        state.pending_command().unwrap(),
        "pacman -Syu --noconfirm --needed b"
    );
    state = state.advance(false);
    assert_eq!(
        state.pending_command().unwrap(),
        "pacman -Syu --noconfirm --needed c"
    );
    state = state.advance(true);
    assert!(state.finished());
    let result = state.into_result().unwrap();
    assert_eq!(result.succeeded, strings(&["a", "c"]));
    assert_eq!(result.failed, strings(&["b"]));
}

#[test]
fn all_individual_failures_fail_everything() {
    let mut state = BatchState::start(Verb::Uninstall, tool_set(&["a", "b"]));
    state = state.advance(false);
    state = state.advance(false);
    state = state.advance(false);
    let result = state.into_result().unwrap();
    assert!(result.succeeded.is_empty());
    assert_eq!(result.failed, strings(&["a", "b"]));
}
