use hyprhue::hue::{
    activation_failed, credentials_from, entertainment_groups, first_bridge_ip, group_url,
    groups_url, registration_url, stream_address, BridgeConfig, Group, Registration,
    RegistrationResponse, RegistrationStep, RegistrationSuccess, REGISTRATION_ATTEMPTS,
};

fn group(name: &str, kind: &str) -> Group {
    Group { id: String::new(), name: name.to_string(), lights: vec![], group_type: kind.to_string() }
}

fn config() -> BridgeConfig {
    BridgeConfig {
        ip: "192.168.1.2".to_string(),
        username: "alice".to_string(),
        clientkey: "00ff".to_string(),
        group_id: "7".to_string(),
        light_ids: vec![1, 2],
    }
}

#[test]
fn urls_of_the_bridge_api() {
    assert_eq!(registration_url("10.0.0.1"), "http://10.0.0.1/api");
    assert_eq!(groups_url("10.0.0.1", "bob"), "http://10.0.0.1/api/bob/groups");
    assert_eq!(group_url(&config()), "https://192.168.1.2/api/alice/groups/7");
    assert_eq!(stream_address("10.0.0.1"), "10.0.0.1:2100");
}

#[test]
fn discovery_takes_the_first_bridge() {
    assert_eq!(first_bridge_ip(vec!["1.1.1.1".to_string(), "2.2.2.2".to_string()]), Some("1.1.1.1".to_string()));
    assert_eq!(first_bridge_ip(vec![]), None);
}

fn success(user: &str, key: Option<&str>) -> RegistrationResponse {
    RegistrationResponse {
        success: Some(RegistrationSuccess { username: user.to_string(), clientkey: key.map(|k| k.to_string()) }),
    }
}

#[test]
fn credentials_come_from_the_first_item() {
    assert_eq!(credentials_from(&vec![success("u", Some("k"))]), Some(("u".to_string(), "k".to_string())));
    assert_eq!(credentials_from(&vec![success("u", None)]), None);
    assert_eq!(credentials_from(&vec![RegistrationResponse { success: None }, success("u", Some("k"))]), None);
    assert_eq!(credentials_from(&vec![]), None);
}

#[test]
fn registration_retries_then_gives_up() {
    let mut reg = Registration::new();
    for _ in 0..REGISTRATION_ATTEMPTS - 1 {
        assert!(matches!(reg.attempted(None), RegistrationStep::PauseThenRetry));
    }
    assert!(matches!(reg.attempted(Some(&vec![success("u", None)])), RegistrationStep::PauseThenGiveUp));
    assert_eq!(reg.attempts, 30);
}

#[test]
fn registration_ends_when_granted() {
    let mut reg = Registration::new();
    assert!(matches!(reg.attempted(None), RegistrationStep::PauseThenRetry));
    match reg.attempted(Some(&vec![success("name", Some("key"))])) {
        RegistrationStep::Registered(u, k) => {
            assert_eq!(u, "name");
            assert_eq!(k, "key");
        }
        _ => panic!("not registered"),
    }
    assert_eq!(reg.attempts, 2);
}

#[test]
fn activation_reply_with_error_fails() {
    assert!(activation_failed("[{\"error\":{\"type\":7}}]"));
    assert!(!activation_failed("[{\"success\":{\"/groups/1/stream/active\":true}}]"));
    assert!(!activation_failed("err or"));
}

#[test]
fn entertainment_groups_are_filtered_labelled_and_sorted() {
    let entries = vec![
        ("3".to_string(), group("Lounge", "Entertainment")),
        ("1".to_string(), group("Kitchen", "Room")),
        ("9".to_string(), group("Cinema", "Entertainment")),
        ("4".to_string(), group("Lounge", "Entertainment")),
        ("5".to_string(), group("Attic", "Zone")),
    ];
    let groups = entertainment_groups(entries);
    let got: Vec<(String, String)> = groups.iter().map(|g| (g.id.clone(), g.name.clone())).collect();
    assert_eq!(
        got,
        vec![
            ("9".to_string(), "Cinema".to_string()),
            ("3".to_string(), "Lounge".to_string()),
            ("4".to_string(), "Lounge".to_string()),
        ]
    );
}

#[test]
fn names_sort_by_code_point() {
    let entries = vec![
        ("1".to_string(), group("b", "Entertainment")),
        ("2".to_string(), group("B", "Entertainment")),
        ("3".to_string(), group("ab", "Entertainment")),
        ("4".to_string(), group("a", "Entertainment")),
    ];
    let names: Vec<String> = entertainment_groups(entries).into_iter().map(|g| g.name).collect();
    assert_eq!(names, vec!["B", "a", "ab", "b"]);
}
