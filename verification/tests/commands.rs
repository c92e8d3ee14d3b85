use wifi_manager::commands::{
    after_connect, apply_settings_commands, connect_args, connect_result, connecting_message,
    find_network, ip_with_prefix, needs_rescan, radio_state_arg, settings_outcome, ConnectAction,
};
use wifi_manager::networks::parse_networks;

#[test]
fn radio_arguments() {
    assert_eq!(radio_state_arg(true), "on");
    assert_eq!(radio_state_arg(false), "off");
}

#[test]
fn rescan_when_no_network_is_found() {
    assert!(needs_rescan(Some("")));
    assert!(needs_rescan(Some("garbage\n")));
    assert!(needs_rescan(Some("a:b:c:d\n\n")));
    assert!(!needs_rescan(Some("A:1:x: :1\n")));
    assert!(!needs_rescan(None));
}

#[test]
fn connect_arguments() {
    assert_eq!(connect_args("Home", None), vec!["dev", "wifi", "connect", "Home"]);
    assert_eq!(
        connect_args("Home Net", Some("s3cret")),
        vec!["dev", "wifi", "connect", "Home Net", "password", "s3cret"]
    );
}

#[test]
fn connect_result_follows_exit_status() {
    assert_eq!(connect_result(true, "ignored".to_string()), Ok(()));
    assert_eq!(connect_result(false, "Error: no network".to_string()), Err("Error: no network".to_string()));
}

#[test]
fn success_is_reported() {
    assert!(matches!(after_connect(&Ok(()), true), ConnectAction::Connected));
    assert!(matches!(after_connect(&Ok(()), false), ConnectAction::Connected));
}

#[test]
fn missing_password_opens_prompt() {
    let e = Err("Error: 802-11-wireless-security.psk: property is invalid: password needed".to_string());
    assert!(matches!(after_connect(&e, true), ConnectAction::AskPassword));
    let e = Err("no secrets provided".to_string());
    assert!(matches!(after_connect(&e, true), ConnectAction::AskPassword));
}

#[test]
fn other_errors_are_reported() {
    let e = Err("Error: No network with SSID 'X' found.".to_string());
    match after_connect(&e, true) {
        ConnectAction::Failed(m) => assert_eq!(m, "Connection failed: Error: No network with SSID 'X' found."),
        other => panic!("unexpected {:?}", other),
    }
    let e = Err("Secrets were required, but not provided".to_string());
    assert!(matches!(after_connect(&e, true), ConnectAction::Failed(_)));
}

#[test]
fn password_errors_after_prompt_are_reported() {
    let e = Err("wrong password".to_string());
    match after_connect(&e, false) {
        ConnectAction::Failed(m) => assert_eq!(m, "Connection failed: wrong password"),
        other => panic!("unexpected {:?}", other),
    }
}

#[test]
fn busy_message_names_network() {
    assert_eq!(connecting_message("Cafe"), "Connecting to Cafe...");
}

#[test]
fn prefix_is_added_once() {
    assert_eq!(ip_with_prefix("192.168.1.5"), "192.168.1.5/24");
    assert_eq!(ip_with_prefix("10.0.0.2/16"), "10.0.0.2/16");
    assert_eq!(ip_with_prefix(&ip_with_prefix("192.168.1.5")), "192.168.1.5/24");
}

#[test]
fn manual_settings_commands() {
    assert_eq!(
        apply_settings_commands("Home", "192.168.1.5", "192.168.1.1", "8.8.8.8"),
        vec![
            vec!["connection", "modify", "Home", "ipv4.method", "manual", "ipv4.addresses", "192.168.1.5/24",
                 "ipv4.gateway", "192.168.1.1", "ipv4.dns", "8.8.8.8"],
            vec!["connection", "up", "Home"],
        ]
    );
    assert_eq!(
        apply_settings_commands("Home", "10.1.2.3/8", "", "1.1.1.1"),
        vec![
            vec!["connection", "modify", "Home", "ipv4.method", "manual", "ipv4.addresses", "10.1.2.3/8",
                 "ipv4.dns", "1.1.1.1"],
            vec!["connection", "up", "Home"],
        ]
    );
}

#[test]
fn automatic_settings_commands() {
    assert_eq!(
        apply_settings_commands("Home", "", "192.168.1.1", "8.8.8.8"),
        vec![
            vec!["connection", "modify", "Home", "ipv4.method", "auto"],
            vec!["connection", "up", "Home"],
        ]
    );
}

#[test]
fn settings_outcome_messages() {
    assert_eq!(settings_outcome(&Ok(())), ("Settings applied".to_string(), true));
    assert_eq!(settings_outcome(&Err("No such file".to_string())), ("Failed: No such file".to_string(), false));
}

#[test]
fn network_is_found_by_ssid() {
    let nets = parse_networks("A:10:WPA2: :1\nB:20:WPA1:*:2\n");
    let b = find_network(&nets, "B").unwrap();
    assert_eq!((b.ssid.as_str(), b.signal, b.in_use), ("B", 20, true));
    assert!(find_network(&nets, "C").is_none());
}
