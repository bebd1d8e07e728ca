use hyprhue::decimal::{parse_index, parse_light_id, ParseFailure};
use hyprhue::hue::{BridgeConfig, Group};
use hyprhue::setup::{config_for_group, config_is_complete, light_ids_of, read_selection, require_groups, SetupError};

#[test]
fn light_ids_parse_like_u16() {
    assert_eq!(parse_light_id("12"), Some(12));
    assert_eq!(parse_light_id("+12"), Some(12));
    assert_eq!(parse_light_id("007"), Some(7));
    assert_eq!(parse_light_id("65535"), Some(65535));
    assert_eq!(parse_light_id("65536"), None);
    assert_eq!(parse_light_id(""), None);
    assert_eq!(parse_light_id("+"), None);
    assert_eq!(parse_light_id("-1"), None);
    assert_eq!(parse_light_id("1a"), None);
    assert_eq!(parse_light_id(" 1"), None);
    assert_eq!(parse_index("18446744073709551615"), Ok(18446744073709551615usize));
    assert_eq!(parse_index("18446744073709551616"), Err(ParseFailure::PosOverflow));
    assert_eq!(parse_index(""), Err(ParseFailure::Empty));
    assert_eq!(parse_index("+"), Err(ParseFailure::InvalidDigit));
    assert_eq!(parse_index("-3"), Err(ParseFailure::InvalidDigit));
    assert_eq!(parse_index("99999999999999999999x"), Err(ParseFailure::PosOverflow));
    assert_eq!(parse_index("9x9999999999999999999"), Err(ParseFailure::InvalidDigit));
}

fn group(id: &str, lights: &[&str]) -> Group {
    Group {
        id: id.to_string(),
        name: "Area".to_string(),
        lights: lights.iter().map(|s| s.to_string()).collect(),
        group_type: "Entertainment".to_string(),
    }
}

#[test]
fn lights_that_are_not_numbers_are_left_out() {
    assert_eq!(light_ids_of(&group("1", &["3", "x", "12", "70000"])), vec![3, 12]);
}

#[test]
fn selection_is_read_around_white_space() {
    assert_eq!(read_selection(" 2\n"), Ok(2));
    assert_eq!(read_selection("0"), Ok(0));
    assert_eq!(read_selection("two"), Err(SetupError::UnreadableSelection(ParseFailure::InvalidDigit)));
    assert_eq!(read_selection(""), Err(SetupError::UnreadableSelection(ParseFailure::Empty)));
    assert_eq!(read_selection(" \n"), Err(SetupError::UnreadableSelection(ParseFailure::Empty)));
    assert_eq!(
        read_selection("99999999999999999999999"),
        Err(SetupError::UnreadableSelection(ParseFailure::PosOverflow))
    );
}

#[test]
fn config_for_the_chosen_group() {
    let groups = vec![group("4", &["1"]), group("8", &["5", "6"])];
    let c = config_for_group("ip".to_string(), "user".to_string(), "key".to_string(), &groups, 1).unwrap();
    assert_eq!(c.ip, "ip");
    assert_eq!(c.username, "user");
    assert_eq!(c.clientkey, "key");
    assert_eq!(c.group_id, "8");
    assert_eq!(c.light_ids, vec![5, 6]);
    assert_eq!(
        config_for_group("ip".to_string(), "user".to_string(), "key".to_string(), &groups, 2).err(),
        Some(SetupError::InvalidSelection)
    );
}

#[test]
fn no_groups_stops_setup() {
    assert_eq!(require_groups(&vec![]), Err(SetupError::NoEntertainmentGroups));
    assert_eq!(require_groups(&vec![group("1", &[])]), Ok(()));
}

#[test]
fn config_without_client_key_is_incomplete() {
    let mut c = BridgeConfig {
        ip: "ip".to_string(),
        username: "u".to_string(),
        clientkey: String::new(),
        group_id: "1".to_string(),
        light_ids: vec![],
    };
    assert!(!config_is_complete(&c));
    c.clientkey = "ab".to_string();
    assert!(config_is_complete(&c));
}

#[test]
fn selection_ignores_ascii_white_space() {
    assert_eq!(read_selection("\t 7 \r\n"), Ok(7));
    assert_eq!(read_selection("\u{b}3\u{c}"), Ok(3));
    assert_eq!(read_selection("1 2"), Err(SetupError::UnreadableSelection(ParseFailure::InvalidDigit)));
    assert_eq!(read_selection("\u{a0}4\u{3000}"), Ok(4));
    assert_eq!(read_selection("\u{2003}5\u{2028}"), Ok(5));
}
