use hyprhue::recovery::{is_network_not_ready_error, mentions_unreachable, recovery_for, IoErrorKind, Recovery};

#[test]
fn network_down_kinds_mean_not_ready() {
    assert!(is_network_not_ready_error(&vec![IoErrorKind::Other, IoErrorKind::HostUnreachable], "x"));
    assert!(is_network_not_ready_error(&vec![IoErrorKind::NotConnected], ""));
    assert!(!is_network_not_ready_error(&vec![IoErrorKind::ConnectionRefused], "refused"));
}

#[test]
fn unreachable_text_means_not_ready_in_any_case() {
    assert!(is_network_not_ready_error(&vec![], "error sending request: Network Is Unreachable (os error 101)"));
    assert!(is_network_not_ready_error(&vec![], "NO ROUTE TO HOST"));
    assert!(!is_network_not_ready_error(&vec![], "timed out"));
    assert!(mentions_unreachable("host is unreachable"));
    assert!(!mentions_unreachable("Host is unreachable"));
}

#[test]
fn recovery_rules() {
    assert_eq!(recovery_for(&vec![IoErrorKind::NetworkUnreachable], "", ""), Recovery::AwaitNetwork);
    assert_eq!(recovery_for(&vec![IoErrorKind::ConnectionRefused], "", ""), Recovery::AwaitBridge);
    assert_eq!(recovery_for(&vec![], "x", "unauthorized user"), Recovery::ResetConfiguration);
    assert_eq!(recovery_for(&vec![], "x", "resource, /groups/9, not available"), Recovery::ResetConfiguration);
    assert_eq!(recovery_for(&vec![], "x", "resource busy"), Recovery::Fatal);
    assert_eq!(recovery_for(&vec![], "x", "Unauthorized User"), Recovery::Fatal);
    assert_eq!(
        recovery_for(&vec![IoErrorKind::ConnectionRefused], "no route to host", "unauthorized user"),
        Recovery::AwaitNetwork
    );
}

#[test]
fn retry_delays() {
    assert_eq!(Recovery::AwaitNetwork.retry_delay_secs(), Some(2));
    assert_eq!(Recovery::AwaitBridge.retry_delay_secs(), Some(5));
    assert_eq!(Recovery::ResetConfiguration.retry_delay_secs(), None);
    assert_eq!(Recovery::Fatal.retry_delay_secs(), None);
}

#[test]
fn context_in_front_keeps_not_ready() {
    let text = "Error sending request: No Route To Host";
    assert!(is_network_not_ready_error(&vec![], text));
    assert!(is_network_not_ready_error(&vec![], &format!("Fetching groups: {}", text)));
}
