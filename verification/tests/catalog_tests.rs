use cyber_toolkit::catalog::normalize_tool_line;
use cyber_toolkit::catalog::parse_tool_lines;
use cyber_toolkit::catalog::resolve_outcomes;
use cyber_toolkit::catalog::role_url;
use cyber_toolkit::catalog::FetchOutcome;
use cyber_toolkit::catalog::GitHubContentItem;

fn strings(items: &[&str]) -> Vec<String> {
    items.iter().map(|s| s.to_string()).collect()
}

#[test]
fn tool_line_trims_whitespace() {
    assert_eq!(normalize_tool_line("   nmap  "), "nmap");
}

#[test]
fn tool_line_strips_one_trailing_comma() {
    assert_eq!(normalize_tool_line("nmap,"), "nmap");
    assert_eq!(normalize_tool_line("nmap,,"), "nmap,");
}

#[test]
fn tool_line_strips_matching_quotes() {
    assert_eq!(normalize_tool_line("\"wireshark\""), "wireshark");
    assert_eq!(normalize_tool_line("'metasploit',"), "metasploit");
}

#[test]
fn tool_line_keeps_mismatched_quotes() {
    assert_eq!(normalize_tool_line("\"nmap'"), "\"nmap'");
    assert_eq!(normalize_tool_line("'"), "'");
}

#[test]
fn tool_line_blank_is_empty() {
    assert_eq!(normalize_tool_line("   "), "");
    assert_eq!(normalize_tool_line(","), "");
    assert_eq!(normalize_tool_line("''"), "");
}

#[test]
fn parse_tool_lines_collects_sorted_unique() {
    let tools = parse_tool_lines("wireshark\nnmap,\n\n'nmap'\n");
    assert_eq!(tools.as_vec(), &strings(&["nmap", "wireshark"]));
}

#[test]
fn resolve_unions_fetched_bodies() {
    let outcomes = vec![
        FetchOutcome::Fetched("nmap\nwireshark\n".to_string()),
        FetchOutcome::Fetched("nmap\nmetasploit\n".to_string()),
    ];
    let tools = resolve_outcomes(&outcomes);
    assert_eq!(tools.as_vec(), &strings(&["metasploit", "nmap", "wireshark"]));
}

#[test]
fn resolve_skips_failed_fetches() {
    let outcomes = vec![
        FetchOutcome::Fetched("a\n".to_string()),
        FetchOutcome::Failed,
        FetchOutcome::Fetched("b\n".to_string()),
    ];
    let tools = resolve_outcomes(&outcomes);
    assert_eq!(tools.as_vec(), &strings(&["a", "b"]));
}

#[test]
fn resolve_nothing_is_empty() {
    let tools = resolve_outcomes(&Vec::new());
    assert!(tools.is_empty());
}

#[test]
fn role_url_appends_role_to_repo() {
    assert_eq!(
        role_url("blue-teamer"),
        "https://raw.githubusercontent.com/jakubGodula/cyber-toolkit/main/roles/blue-teamer"
    );
}

#[test]
fn content_item_holds_name_and_kind() {
    let item = GitHubContentItem { name: "roles".to_string(), item_type: "dir".to_string() };
    assert_eq!(item.name, "roles");
    assert_eq!(item.item_type, "dir");
}
