use power_supply::parse::parse_uevent;
use power_supply::attrs::AttrMap;

fn entries(m: &AttrMap) -> Vec<(String, String)> {
    let mut out = Vec::new();
    let n = m.len();
    let mut i = 0;
    while i < n {
        out.push((m.key_at(i).clone(), m.value_at(i).clone()));
        i += 1;
    }
    out
}

#[test]
fn parse_simple_pairs() {
    let m = parse_uevent("POWER_SUPPLY_NAME=BAT0\nPOWER_SUPPLY_TYPE=Battery\n");
    assert_eq!(m.get("POWER_SUPPLY_NAME"), Some(String::from("BAT0")));
    assert_eq!(m.get("POWER_SUPPLY_TYPE"), Some(String::from("Battery")));
    assert_eq!(m.get("POWER_SUPPLY_STATUS"), None);
    assert_eq!(m.len(), 2);
}

#[test]
fn parse_is_deterministic_on_same_text() {
    let text = "B=2\nA=1\nC=3\nA=9\n";
    let m1 = parse_uevent(text);
    let m2 = parse_uevent(text);
    assert_eq!(entries(&m1), entries(&m2));
}

#[test]
fn parse_orders_keys_lexicographically() {
    let m = parse_uevent("B=2\nA=1\nC=3\n");
    assert_eq!(
        entries(&m),
        vec![
            (String::from("A"), String::from("1")),
            (String::from("B"), String::from("2")),
            (String::from("C"), String::from("3")),
        ]
    );
}

#[test]
fn parse_last_duplicate_wins() {
    let m = parse_uevent("A=1\nB=2\nA=9\n");
    assert_eq!(m.get("A"), Some(String::from("9")));
    assert_eq!(m.len(), 2);
}

#[test]
fn parse_drops_line_without_equals() {
    let m = parse_uevent("JUSTAWORD\nA=1\n");
    assert_eq!(m.len(), 1);
    assert_eq!(m.get("A"), Some(String::from("1")));
    assert_eq!(m.get("JUSTAWORD"), None);
}

#[test]
fn parse_drops_line_with_two_equals() {
    let m = parse_uevent("A=B=C\nX=1\n");
    assert_eq!(m.len(), 1);
    assert_eq!(m.get("A"), None);
    assert_eq!(m.get("X"), Some(String::from("1")));
}

#[test]
fn parse_drops_empty_key_or_value() {
    let m = parse_uevent("=VALUE\nKEY=\nA=1\n");
    assert_eq!(m.len(), 1);
    assert_eq!(m.get("A"), Some(String::from("1")));
    assert_eq!(m.get(""), None);
    assert_eq!(m.get("KEY"), None);
}

#[test]
fn parse_trims_surrounding_whitespace() {
    let m = parse_uevent("  \n\tA=1\nB=2\n  \n");
    assert_eq!(m.len(), 2);
    assert_eq!(m.get("A"), Some(String::from("1")));
    assert_eq!(m.get("B"), Some(String::from("2")));
}

#[test]
fn parse_empty_input_gives_empty_map() {
    let m = parse_uevent("");
    assert_eq!(m.len(), 0);
    let m2 = parse_uevent("   \n  ");
    assert_eq!(m2.len(), 0);
}

#[test]
fn parse_handles_crlf_endings() {
    let m = parse_uevent("A=1\r\nB=2\r\n");
    assert_eq!(m.get("A"), Some(String::from("1")));
    assert_eq!(m.get("B"), Some(String::from("2")));
    assert_eq!(m.len(), 2);
}

#[test]
fn insert_replaces_and_sorts() {
    let mut m = AttrMap::new();
    m.insert(String::from("B"), String::from("2"));
    m.insert(String::from("A"), String::from("1"));
    m.insert(String::from("B"), String::from("9"));
    assert_eq!(m.len(), 2);
    assert_eq!(m.key_at(0).as_str(), "A");
    assert_eq!(m.key_at(1).as_str(), "B");
    assert_eq!(m.get("B"), Some(String::from("9")));
}
