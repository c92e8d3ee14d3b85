use wifi_manager::devices::{discover_devices, ConnectedDevice};

fn rows(devs: &[ConnectedDevice]) -> Vec<(String, String, String, String)> {
    devs.iter()
        .map(|d| (d.ip.clone(), d.hostname.clone(), d.mac.clone(), d.vendor.clone()))
        .collect()
}

fn row(ip: &str, host: &str, mac: &str, vendor: &str) -> (String, String, String, String) {
    (ip.to_string(), host.to_string(), mac.to_string(), vendor.to_string())
}

const NMAP: &str = "Starting Nmap 7.94 ( https://nmap.org ) at 2024-05-01 10:00 UTC\n\
Nmap scan report for router.lan (192.168.1.1)\n\
Host is up (0.0020s latency).\n\
MAC Address: AA:BB:CC:DD:EE:FF (Some Vendor Inc)\n\
Nmap scan report for 192.168.1.20\n\
Host is up (0.00010s latency).\n\
Nmap scan report for my laptop here (192.168.1.100)\n\
Host is up.\n\
Nmap done: 256 IP addresses (3 hosts up) scanned in 2.50 seconds\n";

#[test]
fn nmap_report_is_read() {
    assert_eq!(
        rows(&discover_devices(Some(NMAP), None, None)),
        vec![
            row("192.168.1.1", "router.lan", "AA:BB:CC:DD:EE:FF", "Some Vendor Inc"),
            row("192.168.1.20", "", "Unknown", ""),
            row("192.168.1.100", "my laptop here", "Unknown", ""),
        ]
    );
}

#[test]
fn neighbours_fill_in_and_add() {
    let neigh = "192.168.1.20 dev wlan0 lladdr 11:22:33:44:55:66 REACHABLE\n\
192.168.1.1 dev wlan0 lladdr 00:00:00:00:00:01 STALE\n\
192.168.1.30 dev wlan0 lladdr 77:88:99:aa:bb:cc STALE\n\
192.168.1.40 dev wlan0  FAILED\n\
192.168.1.50 dev wlan0 lladdr de:ad:be:ef:00:01 FAILED\n\
192.168.1.60 dev wlan0 lladdr\n";
    assert_eq!(
        rows(&discover_devices(Some(NMAP), Some(neigh), None)),
        vec![
            row("192.168.1.1", "router.lan", "AA:BB:CC:DD:EE:FF", "Some Vendor Inc"),
            row("192.168.1.20", "", "11:22:33:44:55:66", ""),
            row("192.168.1.30", "", "77:88:99:aa:bb:cc", ""),
            row("192.168.1.100", "my laptop here", "Unknown", ""),
        ]
    );
}

#[test]
fn neighbours_alone_are_listed() {
    let neigh = "10.0.0.2 dev wlan0 lladdr aa:aa:aa:aa:aa:aa REACHABLE\n10.0.0.1 dev wlan0 lladdr bb:bb:bb:bb:bb:bb DELAY\n";
    assert_eq!(
        rows(&discover_devices(None, Some(neigh), None)),
        vec![
            row("10.0.0.1", "", "bb:bb:bb:bb:bb:bb", ""),
            row("10.0.0.2", "", "aa:aa:aa:aa:aa:aa", ""),
        ]
    );
}

#[test]
fn nothing_to_read_lists_nothing() {
    assert!(discover_devices(None, None, None).is_empty());
    assert!(discover_devices(Some(""), Some(""), None).is_empty());
}

#[test]
fn mac_line_without_host_is_ignored() {
    let out = "MAC Address: AA:BB:CC:DD:EE:FF (Vendor)\nHost is up.\n";
    assert!(discover_devices(Some(out), None, None).is_empty());
}

#[test]
fn mac_line_ends_the_host() {
    let out = "Nmap scan report for 10.0.0.9\nMAC Address: 01:02:03:04:05:06 (Acme (EU))\nHost is up.\n";
    assert_eq!(
        rows(&discover_devices(Some(out), None, None)),
        vec![row("10.0.0.9", "", "01:02:03:04:05:06", "Acme (EU")]
    );
}

#[test]
fn devices_are_ordered_numerically() {
    let neigh = "10.0.0.100 dev w lladdr a REACHABLE\n10.0.0.9 dev w lladdr b REACHABLE\n9.1.1.1 dev w lladdr c REACHABLE\n10.0.0 dev w lladdr d REACHABLE\n";
    let ips: Vec<String> = discover_devices(None, Some(neigh), None).into_iter().map(|d| d.ip).collect();
    assert_eq!(ips, vec!["9.1.1.1", "10.0.0", "10.0.0.9", "10.0.0.100"]);
}

#[test]
fn short_report_line_keeps_current_host() {
    let out = "Nmap scan report for 10.0.0.7\nNmap scan report for\nHost is up.\n";
    assert_eq!(rows(&discover_devices(Some(out), None, None)), vec![row("10.0.0.7", "", "Unknown", "")]);
}

#[test]
fn empty_parenthesised_address_is_no_host() {
    let out = "Nmap scan report for some host ()\nHost is up.\nMAC Address: 01:02:03:04:05:06 (V)\n";
    assert!(discover_devices(Some(out), None, None).is_empty());
}

#[test]
fn own_address_is_left_out() {
    let out = "Nmap scan report for me.lan (192.168.1.2)\nHost is up.\nNmap scan report for 192.168.1.7\nHost is up.\n";
    let neigh = "192.168.1.2 dev wlan0 lladdr 00:11:22:33:44:55 REACHABLE\n";
    assert_eq!(
        rows(&discover_devices(Some(out), Some(neigh), Some("192.168.1.2"))),
        vec![row("192.168.1.7", "", "Unknown", "")]
    );
    assert_eq!(discover_devices(Some(out), None, None).len(), 2);
    assert_eq!(discover_devices(Some(out), None, Some("10.9.9.9")).len(), 2);
}

#[test]
fn failed_neighbour_line_changes_nothing() {
    let base = "10.0.0.2 dev w lladdr aa REACHABLE\n";
    let with_failed = "10.0.0.2 dev w lladdr aa REACHABLE\n10.0.0.3 dev w lladdr bb FAILED\n";
    assert_eq!(
        rows(&discover_devices(Some(NMAP), Some(base), None)),
        rows(&discover_devices(Some(NMAP), Some(with_failed), None))
    );
}
