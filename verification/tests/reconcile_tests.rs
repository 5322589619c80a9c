use cyber_toolkit::catalog::resolve_outcomes;
use cyber_toolkit::catalog::FetchOutcome;
use cyber_toolkit::names::NameSet;
use cyber_toolkit::reconcile::add_plan;
use cyber_toolkit::reconcile::plan_add_roles;
use cyber_toolkit::reconcile::plan_remove_roles;
use cyber_toolkit::reconcile::plan_update_roles;
use cyber_toolkit::reconcile::remove_plan;

fn strings(items: &[&str]) -> Vec<String> {
    items.iter().map(|s| s.to_string()).collect()
}

#[test]
fn add_unions_and_resolves_across_roles() {
    // persisted {"blue-teamer"}; catalog: blue-teamer -> [nmap, wireshark],
    // red-teamer -> [nmap, metasploit]
    let persisted = NameSet::from_items(&strings(&["blue-teamer"]));
    let resulting = plan_add_roles(&persisted, &strings(&["red-teamer"]));
    assert_eq!(resulting.as_vec(), &strings(&["blue-teamer", "red-teamer"]));
    let outcomes = vec![
        FetchOutcome::Fetched("nmap\nwireshark\n".to_string()),
        FetchOutcome::Fetched("nmap\nmetasploit\n".to_string()),
    ];
    let resolved = resolve_outcomes(&outcomes);
    let plan = add_plan(resulting, resolved);
    assert_eq!(
        plan.resulting_roles.as_vec(),
        &strings(&["blue-teamer", "red-teamer"])
    );
    assert_eq!(
        plan.tools_to_install.as_vec(),
        &strings(&["metasploit", "nmap", "wireshark"])
    );
    assert!(plan.tools_to_uninstall.is_empty());
}

#[test]
fn add_twice_equals_add_once() {
    let persisted = NameSet::from_items(&strings(&["blue-teamer"]));
    let requested = strings(&[" red-teamer ", "blue-teamer"]);
    let once = plan_add_roles(&persisted, &requested);
    let twice = plan_add_roles(&once, &requested);
    assert_eq!(once.as_vec(), twice.as_vec());
}

#[test]
fn remove_keeps_shared_tools() {
    // persisted {"blue-teamer","red-teamer"}; removing blue-teamer uninstalls
    // only wireshark, since red-teamer still needs nmap.
    let persisted = NameSet::from_items(&strings(&["blue-teamer", "red-teamer"]));
    let (kept, removed) = plan_remove_roles(&persisted, &strings(&["blue-teamer"]));
    assert_eq!(kept.as_vec(), &strings(&["red-teamer"]));
    assert_eq!(removed.as_vec(), &strings(&["blue-teamer"]));
    let kept_tools = resolve_outcomes(&vec![FetchOutcome::Fetched(
        "nmap\nmetasploit\n".to_string(),
    )]);
    let removed_tools = resolve_outcomes(&vec![FetchOutcome::Fetched(
        "nmap\nwireshark\n".to_string(),
    )]);
    let plan = remove_plan(kept, &kept_tools, &removed_tools);
    assert_eq!(plan.resulting_roles.as_vec(), &strings(&["red-teamer"]));
    assert!(plan.tools_to_install.is_empty());
    assert_eq!(plan.tools_to_uninstall.as_vec(), &strings(&["wireshark"]));
}

#[test]
fn remove_of_absent_roles_removes_nothing() {
    let persisted = NameSet::from_items(&strings(&["a", "b"]));
    let (kept, removed) = plan_remove_roles(&persisted, &strings(&["c"]));
    assert_eq!(kept.as_vec(), &strings(&["a", "b"]));
    assert!(removed.is_empty());
}

#[test]
fn update_targets_exactly_and_drops_the_rest() {
    // persisted {"x","y"}; Update(["x"]) keeps x (nothing newly installed)
    // and removes tools unique to y.
    let persisted = NameSet::from_items(&strings(&["x", "y"]));
    let (resulting, to_remove) = plan_update_roles(&persisted, &strings(&["x"]));
    assert_eq!(resulting.as_vec(), &strings(&["x"]));
    assert_eq!(to_remove.as_vec(), &strings(&["y"]));
    // add step: x's tools are already resolved from the target set
    let x_tools = resolve_outcomes(&vec![FetchOutcome::Fetched("t1\nt2\n".to_string())]);
    let add_stage = add_plan(resulting, x_tools);
    assert_eq!(
        add_stage.tools_to_install.as_vec(),
        &strings(&["t1", "t2"])
    );
    // remove step: y's unique tools go
    let kept_tools = resolve_outcomes(&vec![FetchOutcome::Fetched("t1\nt2\n".to_string())]);
    let removed_tools = resolve_outcomes(&vec![FetchOutcome::Fetched("t2\nt3\n".to_string())]);
    let remove_stage = remove_plan(add_stage.resulting_roles, &kept_tools, &removed_tools);
    assert_eq!(remove_stage.tools_to_uninstall.as_vec(), &strings(&["t3"]));
}

#[test]
fn update_to_superset_removes_nothing() {
    let persisted = NameSet::from_items(&strings(&["x"]));
    let (resulting, to_remove) = plan_update_roles(&persisted, &strings(&["x", "y"]));
    assert_eq!(resulting.as_vec(), &strings(&["x", "y"]));
    assert!(to_remove.is_empty());
}
