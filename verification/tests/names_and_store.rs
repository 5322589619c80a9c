use cyber_toolkit::names::NameSet;
use cyber_toolkit::store::decode_roles;
use cyber_toolkit::store::encode_roles;

fn strings(items: &[&str]) -> Vec<String> {
    items.iter().map(|s| s.to_string()).collect()
}

#[test]
fn from_items_trims_sorts_dedups() {
    let set = NameSet::from_items(&strings(&["  b ", "a", "b", "", "   ", "\tc\n"]));
    assert_eq!(set.as_vec(), &strings(&["a", "b", "c"]));
}

#[test]
fn from_items_empty() {
    let set = NameSet::from_items(&strings(&[]));
    assert!(set.is_empty());
    assert_eq!(set.len(), 0);
}

#[test]
fn insert_is_idempotent() {
    let mut set = NameSet::from_items(&strings(&["b"]));
    set.insert("a".to_string());
    set.insert("a".to_string());
    assert_eq!(set.as_vec(), &strings(&["a", "b"]));
}

#[test]
fn union_dedups_and_sorts() {
    let a = NameSet::from_items(&strings(&["nmap", "wireshark"]));
    let b = NameSet::from_items(&strings(&["metasploit", "nmap"]));
    let u = a.union(&b);
    assert_eq!(u.as_vec(), &strings(&["metasploit", "nmap", "wireshark"]));
}

#[test]
fn difference_and_intersection() {
    let a = NameSet::from_items(&strings(&["a", "b", "c"]));
    let b = NameSet::from_items(&strings(&["b", "d"]));
    assert_eq!(a.difference(&b).as_vec(), &strings(&["a", "c"]));
    assert_eq!(a.intersection(&b).as_vec(), &strings(&["b"]));
}

#[test]
fn contains_name_works() {
    let a = NameSet::from_items(&strings(&["a", "b"]));
    assert!(a.contains_name(&"a".to_string()));
    assert!(!a.contains_name(&"c".to_string()));
}

#[test]
fn encode_is_one_role_per_line() {
    let set = NameSet::from_items(&strings(&["blue-teamer", "red-teamer"]));
    assert_eq!(encode_roles(&set), "blue-teamer\nred-teamer\n");
}

#[test]
fn encode_empty_is_empty() {
    let set = NameSet::from_items(&strings(&[]));
    assert_eq!(encode_roles(&set), "");
}

#[test]
fn decode_tolerates_blank_lines_and_whitespace() {
    let set = decode_roles("  b \n\na\n   \nb\n");
    assert_eq!(set.as_vec(), &strings(&["a", "b"]));
}

#[test]
fn decode_empty_body_is_empty_set() {
    let set = decode_roles("");
    assert!(set.is_empty());
}

#[test]
fn store_round_trip_preserves_roles() {
    let saved = NameSet::from_items(&strings(&["web-pentester", "blue-teamer", "red-teamer"]));
    let loaded = decode_roles(encode_roles(&saved).as_str());
    assert_eq!(loaded.as_vec(), saved.as_vec());
}

#[test]
fn to_vec_matches_as_vec() {
    let set = NameSet::from_items(&strings(&["b", "a"]));
    assert_eq!(&set.to_vec(), set.as_vec());
}
