use mesh_share::trackers::{builtin_tracker_url, parse_trackers, trackers_from_setting, trackers_with_builtin};

#[test]
fn parse_trackers_filters_invalid_values() {
    let trackers = parse_trackers("wss://ok,ftp://bad,udp://ok2,just-text,https://ok3");

    assert_eq!(trackers.len(), 3);
    assert!(trackers.iter().any(|s| s == "wss://ok"));
    assert!(trackers.iter().any(|s| s == "udp://ok2"));
    assert!(trackers.iter().any(|s| s == "https://ok3"));
}

#[test]
fn parse_trackers_trims_and_keeps_order() {
    let trackers = parse_trackers("  ws://b , wss://a,, http://c ,udp://");
    assert_eq!(trackers, vec!["ws://b", "wss://a", "http://c", "udp://"]);
    for t in &trackers {
        assert!(!t.contains(','));
    }
}

#[test]
fn parse_trackers_of_empty_text_is_empty() {
    assert!(parse_trackers("").is_empty());
    assert!(parse_trackers(" , ,").is_empty());
}

#[test]
fn default_tracker_setting_names_three_trackers() {
    let trackers = trackers_from_setting(None);
    assert_eq!(
        trackers,
        vec![
            "wss://tracker.openwebtorrent.com",
            "wss://tracker.btorrent.xyz",
            "wss://tracker.webtorrent.dev"
        ]
    );
    assert_eq!(trackers_from_setting(Some("udp://x")), vec!["udp://x"]);
}

#[test]
fn builtin_tracker_url_uses_websocket_scheme() {
    assert_eq!(builtin_tracker_url("https://192.168.1.2:8443"), "wss://192.168.1.2:8443/announce");
    assert_eq!(builtin_tracker_url("http://host:80"), "ws://host:80/announce");
    assert_eq!(builtin_tracker_url(""), "/announce");
}

#[test]
fn trackers_with_builtin_puts_builtin_first() {
    let external = vec!["wss://a".to_string(), "udp://b".to_string()];
    let all = trackers_with_builtin("https://10.0.0.1:9000", &external);
    assert_eq!(all, vec!["wss://10.0.0.1:9000/announce", "wss://a", "udp://b"]);
}
