use wifi_manager::networks::{parse_networks, InternalNetwork};

fn summary(nets: &[InternalNetwork]) -> Vec<(String, i32, String, bool, String)> {
    nets.iter()
        .map(|n| (n.ssid.clone(), n.signal, n.security.clone(), n.in_use, n.channel.clone()))
        .collect()
}

fn net(ssid: &str, signal: i32, security: &str, in_use: bool, channel: &str) -> (String, i32, String, bool, String) {
    (ssid.to_string(), signal, security.to_string(), in_use, channel.to_string())
}

#[test]
fn network_in_use_comes_first() {
    let out = "Cafe:70:WPA2: :6\nHome:40:WPA1 WPA2:*:11\nLibrary:55::  :1\n";
    assert_eq!(
        summary(&parse_networks(out)),
        vec![
            net("Home", 40, "WPA1 WPA2", true, "11"),
            net("Cafe", 70, "WPA2", false, "6"),
            net("Library", 55, "", false, "1"),
        ]
    );
}

#[test]
fn escaped_colons_stay_in_the_field() {
    let out = "My\\:Net:50:WPA2: :1\n";
    assert_eq!(summary(&parse_networks(out)), vec![net("My:Net", 50, "WPA2", false, "1")]);
}

#[test]
fn empty_ssid_is_hidden() {
    let out = ":30:WPA2: :6\n";
    assert_eq!(summary(&parse_networks(out)), vec![net("<Hidden>", 30, "WPA2", false, "6")]);
}

#[test]
fn unreadable_signal_is_zero() {
    let out = "A:abc:WPA2: :1\nB:99999999999:WPA2: :2\nC:+12:WPA2: :3\nD:-3:WPA2: :4\nE: 7:WPA2: :5\n";
    assert_eq!(
        summary(&parse_networks(out)),
        vec![
            net("C", 12, "WPA2", false, "3"),
            net("A", 0, "WPA2", false, "1"),
            net("B", 0, "WPA2", false, "2"),
            net("E", 0, "WPA2", false, "5"),
            net("D", -3, "WPA2", false, "4"),
        ]
    );
}

#[test]
fn short_lines_are_skipped() {
    let out = "a:b:c\nonly:four:fields:here\n\n";
    assert!(parse_networks(out).is_empty());
}

#[test]
fn empty_output_lists_nothing() {
    assert!(parse_networks("").is_empty());
}

#[test]
fn in_use_access_point_wins_over_stronger_one() {
    let out = "Net:40:WPA2: :1\nNet:80:WPA2: :6\nNet:60:WPA2:*:11\nNet:90:WPA2: :36\n";
    assert_eq!(summary(&parse_networks(out)), vec![net("Net", 60, "WPA2", true, "11")]);
}

#[test]
fn strongest_access_point_wins() {
    let out = "Net:40:WPA2: :1\nNet:80:WPA2: :6\nNet:80:WPA3: :11\nNet:20:WPA2: :36\n";
    assert_eq!(summary(&parse_networks(out)), vec![net("Net", 80, "WPA2", false, "6")]);
}

#[test]
fn networks_are_ordered_by_signal() {
    let out = "A:10:: :1\nB:90:: :1\nC:50:: :1\n";
    let names: Vec<String> = parse_networks(out).into_iter().map(|n| n.ssid).collect();
    assert_eq!(names, vec!["B", "C", "A"]);
}

#[test]
fn crlf_line_endings_are_read() {
    let out = "A:10:WPA2: :1\r\nB:20:WPA2:*:2\r\n";
    assert_eq!(
        summary(&parse_networks(out)),
        vec![net("B", 20, "WPA2", true, "2"), net("A", 10, "WPA2", false, "1")]
    );
}

#[test]
fn in_use_marker_is_trimmed() {
    let out = "A:10:WPA2:  *  :1\n";
    assert!(parse_networks(out)[0].in_use);
}

#[test]
fn extra_fields_are_ignored() {
    let out = "A:10:WPA2: :1:extra:fields\n";
    assert_eq!(summary(&parse_networks(out)), vec![net("A", 10, "WPA2", false, "1")]);
}

#[test]
fn placeholder_text_reads_as_colon() {
    let out = "A___COLON___B:10:x: :1\n";
    assert_eq!(summary(&parse_networks(out)), vec![net("A:B", 10, "x", false, "1")]);
}

#[test]
fn unicode_ssid_is_kept() {
    let out = "Café\\:Ñ:65:WPA2: :6\n";
    assert_eq!(summary(&parse_networks(out)), vec![net("Café:Ñ", 65, "WPA2", false, "6")]);
}

#[test]
fn last_access_point_in_use_wins() {
    let out = "Net:60:WPA2:*:1\nNet:90:WPA2: :6\nNet:30:WPA3:*:11\n";
    assert_eq!(summary(&parse_networks(out)), vec![net("Net", 30, "WPA3", true, "11")]);
}
