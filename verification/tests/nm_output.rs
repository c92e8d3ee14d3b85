use wifi_manager::nm_output::{
    local_address, parse_connection_settings, parse_local_subnet, parse_radio_enabled,
    parse_wireless_interface,
};

#[test]
fn radio_enabled_is_read() {
    assert!(parse_radio_enabled("enabled\n"));
    assert!(parse_radio_enabled("  enabled  "));
    assert!(!parse_radio_enabled("disabled\n"));
    assert!(!parse_radio_enabled(""));
    assert!(!parse_radio_enabled("enabled!"));
}

#[test]
fn first_wifi_device_is_the_interface() {
    let out = "lo:loopback\neth0:ethernet\nwlp2s0:wifi\nwlan1:wifi\n";
    assert_eq!(parse_wireless_interface(out), "wlp2s0");
}

#[test]
fn interface_defaults_to_wlan0() {
    assert_eq!(parse_wireless_interface("lo:loopback\neth0:ethernet\n"), "wlan0");
    assert_eq!(parse_wireless_interface(""), "wlan0");
    assert_eq!(parse_wireless_interface("wifi\n"), "wlan0");
}

#[test]
fn wifi_type_must_match_exactly() {
    assert_eq!(parse_wireless_interface("p2p-dev-wlan0:wifi-p2p\nwlan0x:wifi:extra\n"), "wlan0x");
}

#[test]
fn local_subnet_is_trimmed() {
    assert_eq!(parse_local_subnet("192.168.1.10/24\n"), Some("192.168.1.10/24".to_string()));
    assert_eq!(parse_local_subnet("  10.0.0.2/16  \n"), Some("10.0.0.2/16".to_string()));
}

#[test]
fn blank_address_output_is_none() {
    assert_eq!(parse_local_subnet(""), None);
    assert_eq!(parse_local_subnet(" \n\t"), None);
}

#[test]
fn connection_settings_are_read() {
    let out = "ipv4.addresses:192.168.1.5/24\nipv4.gateway:--\nipv4.dns:8.8.8.8,1.1.1.1\n";
    let st = parse_connection_settings(out);
    assert_eq!(st.ip, "192.168.1.5/24");
    assert_eq!(st.gateway, "");
    assert_eq!(st.dns, "8.8.8.8,1.1.1.1");
}

#[test]
fn connection_settings_keep_later_lines_and_colons() {
    let out = "ipv4.dns:1.1.1.1\nnoise\nipv4.dns:fe80::1\nother.key:x\n";
    let st = parse_connection_settings(out);
    assert_eq!(st.ip, "");
    assert_eq!(st.gateway, "");
    assert_eq!(st.dns, "fe80::1");
}

#[test]
fn unset_connection_settings_are_empty() {
    let st = parse_connection_settings("ipv4.addresses:--\nipv4.gateway:--\nipv4.dns:--\n");
    assert_eq!((st.ip.as_str(), st.gateway.as_str(), st.dns.as_str()), ("", "", ""));
}

#[test]
fn connected_wifi_device_is_preferred() {
    let out = "lo:loopback:unmanaged\nwlan0:wifi:disconnected\nwlan1:wifi:connected\n";
    assert_eq!(parse_wireless_interface(out), "wlan1");
    let out = "wlan0:wifi:unavailable\nwlp3s0:wifi:connected (externally)\n";
    assert_eq!(parse_wireless_interface(out), "wlp3s0");
    let out = "wlan0:wifi:connecting (getting IP configuration)\nwlan1:wifi:disconnected\n";
    assert_eq!(parse_wireless_interface(out), "wlan0");
}

#[test]
fn own_address_is_the_part_before_the_prefix() {
    assert_eq!(local_address("192.168.1.10/24"), "192.168.1.10");
    assert_eq!(local_address("10.0.0.2"), "10.0.0.2");
    assert_eq!(local_address(""), "");
}
