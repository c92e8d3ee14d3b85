//! The smaller `nmcli` outputs: the radio state, the wireless interface, the
//! address of that interface, and the IPv4 settings of a connection.
use vstd::prelude::*;

use crate::text::{
    chars_eq_str, copy_chars, lines, lines_of, position_of_char, split, split_chars, split_once,
    string_from_chars, to_chars, trim, trim_ws, views, words, words_exec, lacks,
    lemma_split_once_concat, lemma_position_none,
};

verus! {

/// The interface assumed where `nmcli` names no Wi-Fi device.
pub const DEFAULT_INTERFACE: &'static str = "wlan0";

// ---------------------------------------------------------------------------
// Radio state (`nmcli radio wifi`)
// ---------------------------------------------------------------------------

/// The radio is on where the output, trimmed, is `enabled`.
pub open spec fn radio_enabled(out: Seq<char>) -> bool {
    trim(out) == "enabled"@
}

/// Whether the output of `nmcli radio wifi` reports the radio as on.
pub fn parse_radio_enabled(stdout: &str) -> (on: bool)
    ensures
        on == radio_enabled(stdout@),
{
    let text = to_chars(stdout);
    let t = trim_ws(&text);
    chars_eq_str(&t, "enabled")
}

// ---------------------------------------------------------------------------
// Wireless interface (`nmcli -t -f DEVICE,TYPE,STATE device`)
// ---------------------------------------------------------------------------

/// A line whose second field is `wifi`.
pub open spec fn is_wifi_line(line: Seq<char>) -> bool {
    split(line, ':').len() >= 2 && split(line, ':')[1] == "wifi"@
}

/// A Wi-Fi line whose state (third field) is `connected`, possibly with a
/// qualifier such as `connected (externally)`.
pub open spec fn is_active_wifi_line(line: Seq<char>) -> bool {
    let f = split(line, ':');
    &&& is_wifi_line(line)
    &&& f.len() >= 3
    &&& words(f[2]).len() > 0
    &&& words(f[2])[0] == "connected"@
}

/// The device named by the first line of `ls` for which `active` (or, where
/// `active` is false, `is_wifi_line`) holds.
pub open spec fn first_wifi_device(ls: Seq<Seq<char>>, active: bool) -> Option<Seq<char>>
    decreases ls.len(),
{
    if ls.len() == 0 {
        None
    } else if (if active {
        is_active_wifi_line(ls[0])
    } else {
        is_wifi_line(ls[0])
    }) {
        Some(split(ls[0], ':')[0])
    } else {
        first_wifi_device(ls.drop_first(), active)
    }
}

/// The active wireless interface: the first connected Wi-Fi device, else
/// the first Wi-Fi device, else [`DEFAULT_INTERFACE`].
pub open spec fn wireless_interface(out: Seq<char>) -> Seq<char> {
    match first_wifi_device(lines(out), true) {
        Some(d) => d,
        None => match first_wifi_device(lines(out), false) {
            Some(d) => d,
            None => DEFAULT_INTERFACE@,
        },
    }
}

/// The active wireless interface named in the output of
/// `nmcli -t -f DEVICE,TYPE,STATE device`.
pub fn parse_wireless_interface(stdout: &str) -> (iface: String)
    ensures
        iface@ == wireless_interface(stdout@),
{
    let text = to_chars(stdout);
    let ls = lines_of(&text);
    let ghost lv = views(ls@);
    let mut first: Option<Vec<char>> = None;
    let mut i: usize = 0;
    assert(lv.skip(0) =~= lv);
    while i < ls.len()
        invariant
            0 <= i <= ls.len(),
            lv == views(ls@),
            lv == lines(stdout@),
            first_wifi_device(lv, true) == first_wifi_device(lv.skip(i as int), true),
            match first {
                Some(d) => first_wifi_device(lv, false) == Some(d@),
                None => first_wifi_device(lv, false) == first_wifi_device(lv.skip(i as int), false),
            },
        decreases ls.len() - i,
    {
        let parts = split_chars(&ls[i], ':');
        assert(lv.skip(i as int)[0] == ls@[i as int]@);
        let wifi = parts.len() >= 2 && chars_eq_str(&parts[1], "wifi");
        if wifi && parts.len() >= 3 {
            let state = words_exec(&parts[2]);
            if state.len() > 0 && chars_eq_str(&state[0], "connected") {
                return string_from_chars(&parts[0]);
            }
        }
        if wifi && first.is_none() {
            first = Some(copy_chars(&parts[0]));
        }
        assert(lv.skip(i as int).drop_first() =~= lv.skip(i + 1));
        i += 1;
    }
    match first {
        Some(d) => string_from_chars(&d),
        None => String::from_str(DEFAULT_INTERFACE),
    }
}

// ---------------------------------------------------------------------------
// Interface address (`nmcli -g ip4.address device show <iface>`)
// ---------------------------------------------------------------------------

/// The address with its prefix length (such as `192.168.1.10/24`), where the
/// output is not blank.
pub open spec fn local_subnet(out: Seq<char>) -> Option<Seq<char>> {
    if trim(out).len() > 0 {
        Some(trim(out))
    } else {
        None
    }
}

/// The address and prefix length that `nmcli -g ip4.address device show`
/// printed, or `None` for blank output.
pub fn parse_local_subnet(stdout: &str) -> (r: Option<String>)
    ensures
        r matches Some(s) ==> local_subnet(stdout@) == Some(s@),
        r is None ==> local_subnet(stdout@) is None,
{
    let text = to_chars(stdout);
    let t = trim_ws(&text);
    if t.len() > 0 {
        Some(string_from_chars(&t))
    } else {
        None
    }
}

/// The address of `address/prefix`: the text before the first `/`.
pub open spec fn address_part(subnet: Seq<char>) -> Seq<char> {
    match split_once(subnet, '/') {
        Some((a, _)) => a,
        None => subnet,
    }
}

/// The interface's own address, from the `address/prefix` that
/// [`parse_local_subnet`] gives.
pub fn local_address(subnet: &str) -> (a: String)
    ensures
        a@ == address_part(subnet@),
{
    let text = to_chars(subnet);
    match position_of_char(&text, '/') {
        Some(k) => string_from_chars(&chars_to(&text, k)),
        None => String::from_str(subnet),
    }
}

// ---------------------------------------------------------------------------
// Connection settings
// (`nmcli -t -f ipv4.addresses,ipv4.gateway,ipv4.dns connection show <ssid>`)
// ---------------------------------------------------------------------------

/// The static IPv4 settings of a saved connection; empty where unset.
#[derive(Debug)]
pub struct ConnectionSettings {
    pub ip: String,
    pub gateway: String,
    pub dns: String,
}

/// The value of [`ConnectionSettings`].
pub struct SettingsView {
    pub ip: Seq<char>,
    pub gateway: Seq<char>,
    pub dns: Seq<char>,
}

impl View for ConnectionSettings {
    type V = SettingsView;

    open spec fn view(&self) -> SettingsView {
        SettingsView { ip: self.ip@, gateway: self.gateway@, dns: self.dns@ }
    }
}

/// A value as shown to the user: `nmcli` writes `--` for an unset one.
pub open spec fn setting_value(v: Seq<char>) -> Seq<char> {
    if v == "--"@ {
        Seq::<char>::empty()
    } else {
        v
    }
}

/// The settings after one more `key:value` line.
pub open spec fn apply_setting_line(st: SettingsView, line: Seq<char>) -> SettingsView {
    match split_once(line, ':') {
        Some((key, val)) => if key == "ipv4.addresses"@ {
            SettingsView { ip: setting_value(val), ..st }
        } else if key == "ipv4.gateway"@ {
            SettingsView { gateway: setting_value(val), ..st }
        } else if key == "ipv4.dns"@ {
            SettingsView { dns: setting_value(val), ..st }
        } else {
            st
        },
        None => st,
    }
}

/// The settings that the lines `ls` give, a later line overriding an earlier.
pub open spec fn settings_of(ls: Seq<Seq<char>>) -> SettingsView
    decreases ls.len(),
{
    if ls.len() == 0 {
        SettingsView { ip: Seq::empty(), gateway: Seq::empty(), dns: Seq::empty() }
    } else {
        apply_setting_line(settings_of(ls.drop_last()), ls.last())
    }
}

/// The settings that a `connection show` output gives.
pub open spec fn connection_settings(out: Seq<char>) -> SettingsView {
    settings_of(lines(out))
}

/// The characters of `s` from index `from` on.
fn chars_from(s: &Vec<char>, from: usize) -> (r: Vec<char>)
    requires
        from <= s.len(),
    ensures
        r@ == s@.skip(from as int),
{
    let mut r: Vec<char> = Vec::new();
    let mut i: usize = from;
    while i < s.len()
        invariant
            from <= i <= s.len(),
            r@ =~= s@.subrange(from as int, i as int),
        decreases s.len() - i,
    {
        r.push(s[i]);
        i += 1;
    }
    r
}

/// The characters of `s` before index `to`.
fn chars_to(s: &Vec<char>, to: usize) -> (r: Vec<char>)
    requires
        to <= s.len(),
    ensures
        r@ == s@.take(to as int),
{
    let mut r: Vec<char> = Vec::new();
    let mut i: usize = 0;
    while i < to
        invariant
            0 <= i <= to <= s.len(),
            r@ =~= s@.take(i as int),
        decreases to - i,
    {
        r.push(s[i]);
        i += 1;
    }
    r
}

/// A value as shown: empty for `--`.
fn setting_value_exec(v: Vec<char>) -> (r: String)
    ensures
        r@ == setting_value(v@),
{
    if chars_eq_str(&v, "--") {
        String::new()
    } else {
        string_from_chars(&v)
    }
}

/// The IPv4 address, gateway and DNS servers that a
/// `nmcli -t -f ipv4.addresses,ipv4.gateway,ipv4.dns connection show` output
/// gives.
pub fn parse_connection_settings(stdout: &str) -> (st: ConnectionSettings)
    ensures
        st@ == connection_settings(stdout@),
{
    let text = to_chars(stdout);
    let ls = lines_of(&text);
    let ghost lv = views(ls@);
    let mut st = ConnectionSettings { ip: String::new(), gateway: String::new(), dns: String::new() };
    let mut i: usize = 0;
    assert(lv.take(0) =~= Seq::<Seq<char>>::empty());
    while i < ls.len()
        invariant
            0 <= i <= ls.len(),
            lv == views(ls@),
            lv == lines(stdout@),
            st@ == settings_of(lv.take(i as int)),
        decreases ls.len() - i,
    {
        let line = &ls[i];
        assert(lv.take(i + 1).drop_last() =~= lv.take(i as int));
        assert(lv.take(i + 1).last() == line@);
        match position_of_char(line, ':') {
            Some(k) => {
                let key = chars_to(line, k);
                let val = chars_from(line, k + 1);
                if chars_eq_str(&key, "ipv4.addresses") {
                    st.ip = setting_value_exec(val);
                } else if chars_eq_str(&key, "ipv4.gateway") {
                    st.gateway = setting_value_exec(val);
                } else if chars_eq_str(&key, "ipv4.dns") {
                    st.dns = setting_value_exec(val);
                }
            },
            None => {},
        }
        i += 1;
    }
    assert(lv.take(ls.len() as int) =~= lv);
    st
}

proof fn lemma_first_wifi_device(ls: Seq<Seq<char>>, active: bool)
    ensures
        first_wifi_device(ls, active) matches Some(d) ==> exists|i: int|
            0 <= i < ls.len() && (if active {
                is_active_wifi_line(ls[i])
            } else {
                is_wifi_line(ls[i])
            }) && d == split(ls[i], ':')[0] && forall|j: int|
                0 <= j < i ==> !(if active {
                    is_active_wifi_line(#[trigger] ls[j])
                } else {
                    is_wifi_line(ls[j])
                }),
        first_wifi_device(ls, active) is None ==> forall|i: int|
            0 <= i < ls.len() ==> !(if active {
                is_active_wifi_line(#[trigger] ls[i])
            } else {
                is_wifi_line(ls[i])
            }),
    decreases ls.len(),
{
    if ls.len() > 0 {
        let rest = ls.drop_first();
        lemma_first_wifi_device(rest, active);
        assert forall|j: int| 0 <= j < rest.len() implies rest[j] == ls[j + 1] by {}
        if !(if active {
            is_active_wifi_line(ls[0])
        } else {
            is_wifi_line(ls[0])
        }) {
            match first_wifi_device(rest, active) {
                Some(d) => {
                    let i = choose|i: int|
                        0 <= i < rest.len() && (if active {
                            is_active_wifi_line(rest[i])
                        } else {
                            is_wifi_line(rest[i])
                        }) && d == split(rest[i], ':')[0] && forall|j: int|
                            0 <= j < i ==> !(if active {
                                is_active_wifi_line(#[trigger] rest[j])
                            } else {
                                is_wifi_line(rest[j])
                            });
                    assert forall|j: int| 0 <= j < i + 1 implies !(if active {
                        is_active_wifi_line(#[trigger] ls[j])
                    } else {
                        is_wifi_line(ls[j])
                    }) by {
                        if j > 0 {
                            assert(ls[j] == rest[j - 1]);
                        }
                    }
                    assert(ls[i + 1] == rest[i]);
                },
                None => {
                    assert forall|i: int| 0 <= i < ls.len() implies !(if active {
                        is_active_wifi_line(#[trigger] ls[i])
                    } else {
                        is_wifi_line(ls[i])
                    }) by {
                        if i > 0 {
                            assert(ls[i] == rest[i - 1]);
                        }
                    }
                },
            }
        }
    }
}

/// The interface is always a Wi-Fi device where the listing names one: the
/// first field of a line whose second field is exactly `wifi`; `wlan0` only
/// where no line is such.
pub proof fn law_interface_is_wifi(out: Seq<char>)
    ensures
        (exists|i: int|
            0 <= i < lines(out).len() && split(lines(out)[i], ':').len() >= 2 && split(
                lines(out)[i],
                ':',
            )[1] == "wifi"@) ==> exists|i: int|
            0 <= i < lines(out).len() && split(lines(out)[i], ':').len() >= 2 && split(
                lines(out)[i],
                ':',
            )[1] == "wifi"@ && wireless_interface(out) == split(lines(out)[i], ':')[0],
        !(exists|i: int|
            0 <= i < lines(out).len() && split(lines(out)[i], ':').len() >= 2 && split(
                lines(out)[i],
                ':',
            )[1] == "wifi"@) ==> wireless_interface(out) == "wlan0"@,
{
    let ls = lines(out);
    lemma_first_wifi_device(ls, true);
    lemma_first_wifi_device(ls, false);
    if exists|i: int| 0 <= i < ls.len() && split(ls[i], ':').len() >= 2 && split(ls[i], ':')[1]
        == "wifi"@ {
        let w = choose|i: int|
            0 <= i < ls.len() && split(ls[i], ':').len() >= 2 && split(ls[i], ':')[1] == "wifi"@;
        assert(is_wifi_line(ls[w]));
    }
}

/// A connected Wi-Fi device wins: where some line's second field is exactly
/// `wifi` and its state begins with the word `connected`, the interface is
/// the first such line's device; otherwise, where some line is a Wi-Fi
/// device, it is the first of those.
pub proof fn law_interface_prefers_connected(out: Seq<char>, i: int)
    requires
        0 <= i < lines(out).len(),
        split(lines(out)[i], ':').len() >= 3,
        split(lines(out)[i], ':')[1] == "wifi"@,
        words(split(lines(out)[i], ':')[2]).len() > 0,
        words(split(lines(out)[i], ':')[2])[0] == "connected"@,
        forall|j: int|
            0 <= j < i ==> !(split(#[trigger] lines(out)[j], ':').len() >= 3 && split(
                lines(out)[j],
                ':',
            )[1] == "wifi"@ && words(split(lines(out)[j], ':')[2]).len() > 0 && words(
                split(lines(out)[j], ':')[2],
            )[0] == "connected"@),
    ensures
        wireless_interface(out) == split(lines(out)[i], ':')[0],
{
    let ls = lines(out);
    lemma_first_wifi_device(ls, true);
    assert(is_active_wifi_line(ls[i]));
    match first_wifi_device(ls, true) {
        Some(d) => {
            let k = choose|k: int|
                0 <= k < ls.len() && is_active_wifi_line(ls[k]) && d == split(ls[k], ':')[0]
                    && forall|j: int| 0 <= j < k ==> !is_active_wifi_line(#[trigger] ls[j]);
            if k < i {
                assert(!is_active_wifi_line(ls[k]));
            } else if k > i {
                assert(!is_active_wifi_line(ls[i]));
            }
        },
        None => {
            assert(!is_active_wifi_line(ls[i]));
        },
    }
}

/// The setting `key` of `st`: the address, gateway or DNS servers.
pub open spec fn setting_of(st: SettingsView, key: Seq<char>) -> Seq<char> {
    if key == "ipv4.addresses"@ {
        st.ip
    } else if key == "ipv4.gateway"@ {
        st.gateway
    } else {
        st.dns
    }
}

/// The text before the first `:` of line `j` is `key`.
pub open spec fn line_key_is(ls: Seq<Seq<char>>, j: int, key: Seq<char>) -> bool {
    split_once(ls[j], ':') matches Some((k, _)) && k == key
}

proof fn lemma_setting_keys_differ()
    ensures
        "ipv4.addresses"@ != "ipv4.gateway"@,
        "ipv4.addresses"@ != "ipv4.dns"@,
        "ipv4.gateway"@ != "ipv4.dns"@,
{
    reveal_strlit("ipv4.addresses");
    reveal_strlit("ipv4.gateway");
    reveal_strlit("ipv4.dns");
    assert("ipv4.addresses"@[5] == 'a');
    assert("ipv4.gateway"@[5] == 'g');
    assert("ipv4.dns"@[5] == 'd');
}

proof fn lemma_last_setting(ls: Seq<Seq<char>>, key: Seq<char>, i: int, v: Seq<char>)
    requires
        key == "ipv4.addresses"@ || key == "ipv4.gateway"@ || key == "ipv4.dns"@,
        0 <= i < ls.len(),
        split_once(ls[i], ':') == Some((key, v)),
        forall|j: int| i < j < ls.len() ==> !#[trigger] line_key_is(ls, j, key),
    ensures
        setting_of(settings_of(ls), key) == (if v == "--"@ {
            Seq::<char>::empty()
        } else {
            v
        }),
    decreases ls.len(),
{
    lemma_setting_keys_differ();
    let prev = ls.drop_last();
    let last = ls.len() - 1;
    assert(ls.last() == ls[last]);
    if i < last {
        assert(prev[i] == ls[i]);
        assert forall|j: int| i < j < prev.len() implies !#[trigger] line_key_is(prev, j, key) by {
            assert(prev[j] == ls[j]);
            assert(!line_key_is(ls, j, key));
        }
        lemma_last_setting(prev, key, i, v);
        assert(!line_key_is(ls, last, key));
    }
}

proof fn lemma_unset_setting(ls: Seq<Seq<char>>, key: Seq<char>)
    requires
        key == "ipv4.addresses"@ || key == "ipv4.gateway"@ || key == "ipv4.dns"@,
        forall|j: int| 0 <= j < ls.len() ==> !#[trigger] line_key_is(ls, j, key),
    ensures
        setting_of(settings_of(ls), key) == Seq::<char>::empty(),
    decreases ls.len(),
{
    lemma_setting_keys_differ();
    if ls.len() > 0 {
        let prev = ls.drop_last();
        let last = ls.len() - 1;
        assert(ls.last() == ls[last]);
        assert forall|j: int| 0 <= j < prev.len() implies !#[trigger] line_key_is(prev, j, key) by {
            assert(prev[j] == ls[j]);
            assert(!line_key_is(ls, j, key));
        }
        lemma_unset_setting(prev, key);
        assert(!line_key_is(ls, last, key));
    }
}

/// Each setting is the value after the first `:` of the last line whose
/// text before that `:` is the setting's key (`ipv4.addresses` for the
/// address, `ipv4.gateway` for the gateway, `ipv4.dns` for the DNS
/// servers), shown empty where that value is `--`.
pub proof fn law_setting_from_last_line(out: Seq<char>, key: Seq<char>, i: int, v: Seq<char>)
    requires
        key == "ipv4.addresses"@ || key == "ipv4.gateway"@ || key == "ipv4.dns"@,
        0 <= i < lines(out).len(),
        split_once(lines(out)[i], ':') == Some((key, v)),
        forall|j: int| i < j < lines(out).len() ==> !#[trigger] line_key_is(lines(out), j, key),
    ensures
        key == "ipv4.addresses"@ ==> connection_settings(out).ip == (if v == "--"@ {
            Seq::<char>::empty()
        } else {
            v
        }),
        key == "ipv4.gateway"@ ==> connection_settings(out).gateway == (if v == "--"@ {
            Seq::<char>::empty()
        } else {
            v
        }),
        key == "ipv4.dns"@ ==> connection_settings(out).dns == (if v == "--"@ {
            Seq::<char>::empty()
        } else {
            v
        }),
{
    lemma_setting_keys_differ();
    lemma_last_setting(lines(out), key, i, v);
}

/// A setting that no line gives is empty.
pub proof fn law_setting_unset(out: Seq<char>, key: Seq<char>)
    requires
        key == "ipv4.addresses"@ || key == "ipv4.gateway"@ || key == "ipv4.dns"@,
        forall|j: int| 0 <= j < lines(out).len() ==> !#[trigger] line_key_is(lines(out), j, key),
    ensures
        key == "ipv4.addresses"@ ==> connection_settings(out).ip.len() == 0,
        key == "ipv4.gateway"@ ==> connection_settings(out).gateway.len() == 0,
        key == "ipv4.dns"@ ==> connection_settings(out).dns.len() == 0,
{
    lemma_setting_keys_differ();
    lemma_unset_setting(lines(out), key);
}

/// The own address of `<address>/<prefix>` is `<address>`, and an address
/// without a prefix is its own.
pub proof fn law_local_address(a: Seq<char>, prefix: Seq<char>)
    requires
        lacks(a, '/'),
    ensures
        address_part(a + seq!['/'] + prefix) == a,
        address_part(a) == a,
{
    lemma_split_once_concat(a, '/', prefix);
    lemma_position_none(a, '/', 0);
}

} // verus!
