use hyprwindows::codec::address_from_u64;
use hyprwindows::directory::{Config, State, WindowRecord};
use hyprwindows::query::get_matches;

fn record(title: &str, address: &str) -> WindowRecord {
    WindowRecord::new(title.to_string(), address.to_string()).unwrap()
}

fn state_with(prefix: &str, records: Vec<WindowRecord>) -> State {
    State::new(
        Config {
            prefix: prefix.to_string(),
        },
        records,
    )
}

fn titles(matches: &[hyprwindows::query::Match]) -> Vec<String> {
    matches.iter().map(|m| m.title.clone()).collect()
}

#[test]
fn prefix_gate_blocks_other_inputs() {
    let state = state_with(
        "win ",
        vec![record("Firefox", "0x1"), record("Terminal", "0x2")],
    );
    assert!(get_matches("firefox", &state).is_empty());
    assert!(get_matches("wi", &state).is_empty());
    assert!(get_matches("WIN fire", &state).is_empty());
}

#[test]
fn filter_keeps_exactly_the_matching_titles() {
    let state = state_with(
        "",
        vec![
            record("Firefox", "0x1"),
            record("Terminal", "0x2"),
            record("Settings", "0x3"),
        ],
    );
    let result = get_matches("fire", &state);
    assert_eq!(titles(&result), vec!["Firefox".to_string()]);
    assert!(get_matches("zzz", &state).is_empty());
}

#[test]
fn smart_case_is_sensitive_only_for_uppercase_terms() {
    let state = state_with(
        "",
        vec![record("Firefox", "0x1"), record("firefox2", "0x2")],
    );
    let upper = get_matches("Fire", &state);
    assert_eq!(titles(&upper), vec!["Firefox".to_string()]);
    let lower = get_matches("fire", &state);
    assert_eq!(
        titles(&lower),
        vec!["Firefox".to_string(), "firefox2".to_string()]
    );
}

#[test]
fn order_follows_the_directory_not_the_score() {
    let state = state_with(
        "",
        vec![
            record("abc", "0x1"),
            record("xyz", "0x2"),
            record("a stray b", "0x3"),
        ],
    );
    let result = get_matches("ab", &state);
    assert_eq!(
        titles(&result),
        vec!["abc".to_string(), "a stray b".to_string()]
    );
}

#[test]
fn empty_directory_yields_no_matches() {
    let state = state_with("", Vec::new());
    assert!(get_matches("", &state).is_empty());
    assert!(get_matches("anything", &state).is_empty());
    let gated = state_with("win ", Vec::new());
    assert!(get_matches("win fire", &gated).is_empty());
}

#[test]
fn empty_term_matches_every_record() {
    let state = state_with(
        "win ",
        vec![record("Firefox", "0x1"), record("Terminal", "0x2")],
    );
    let result = get_matches("win ", &state);
    assert_eq!(
        titles(&result),
        vec!["Firefox".to_string(), "Terminal".to_string()]
    );
}

#[test]
fn full_scenario_prefix_term_and_encoded_id() {
    let state = state_with("win ", vec![record("Firefox", "0x55a1b2c3")]);
    let result = get_matches("win fire", &state);
    assert_eq!(result.len(), 1);
    assert_eq!(result[0].title, "Firefox".to_string());
    assert_eq!(result[0].description, "Window 0x55a1b2c3".to_string());
    assert_eq!(result[0].id, 0x55a1b2c3);
}

#[test]
fn selection_id_decodes_back_to_the_handle() {
    let state = state_with("", vec![record("Firefox", "0x55a1b2c3")]);
    let result = get_matches("fire", &state);
    assert_eq!(result.len(), 1);
    assert_eq!(address_from_u64(result[0].id), "0x55a1b2c3".to_string());
}

#[test]
fn default_config_has_empty_prefix() {
    let config = Config::default();
    assert_eq!(config.prefix, String::new());
}

#[test]
fn window_record_rejects_malformed_addresses() {
    assert!(WindowRecord::new("a".to_string(), "0x1f".to_string()).is_some());
    assert!(WindowRecord::new("a".to_string(), "1f".to_string()).is_none());
    assert!(WindowRecord::new("a".to_string(), "0x".to_string()).is_none());
    assert!(WindowRecord::new("a".to_string(), "0xg".to_string()).is_none());
}
