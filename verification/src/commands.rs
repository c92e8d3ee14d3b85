//! What the manager asks `nmcli` to do and how it answers what comes back:
//! the argument lists of its commands and the decisions between them.
use vstd::prelude::*;

use crate::networks::{InternalNetwork, net_views, parse_networks, scanned_networks};
use crate::text::{contains, contains_str, opt_chars, to_chars};

verus! {

/// The views of a list of arguments.
pub open spec fn arg_views(v: Seq<String>) -> Seq<Seq<char>> {
    v.map_values(|a: String| a@)
}

/// The views of a list of commands.
pub open spec fn command_views(v: Seq<Vec<String>>) -> Seq<Seq<Seq<char>>> {
    v.map_values(|c: Vec<String>| arg_views(c@))
}

fn push_arg(args: &mut Vec<String>, a: &str)
    ensures
        arg_views(final(args)@) == arg_views(old(args)@).push(a@),
{
    let ghost prev = arg_views(args@);
    args.push(String::from_str(a));
    assert(arg_views(args@) =~= prev.push(a@));
}

// ---------------------------------------------------------------------------
// The radio
// ---------------------------------------------------------------------------

/// The argument of `nmcli radio wifi` that switches the radio on or off.
pub fn radio_state_arg(enable: bool) -> (arg: &'static str)
    ensures
        enable ==> arg@ == "on"@,
        !enable ==> arg@ == "off"@,
{
    if enable {
        "on"
    } else {
        "off"
    }
}

// ---------------------------------------------------------------------------
// Scanning
// ---------------------------------------------------------------------------

/// Whether a scan must be repeated after a `nmcli dev wifi rescan`: when the
/// listing ran and no network was found in it.
pub fn needs_rescan(first_listing: Option<&str>) -> (r: bool)
    ensures
        r == (first_listing matches Some(o) && scanned_networks(o@).dom() == Set::<
            Seq<char>,
        >::empty()),
{
    match first_listing {
        Some(o) => {
            let nets = parse_networks(o);
            let ghost m = scanned_networks(o@);
            proof {
                if nets.len() == 0 {
                    assert forall|k: Seq<char>| !m.dom().contains(k) by {
                        if m.contains_key(k) {
                            let i = choose|i: int|
                                0 <= i < net_views(nets@).len() && net_views(nets@)[i].ssid == k;
                        }
                    }
                    assert(m.dom() =~= Set::<Seq<char>>::empty());
                } else {
                    assert(m.contains_key(net_views(nets@)[0].ssid));
                    assert(m.dom().contains(net_views(nets@)[0].ssid));
                }
            }
            nets.len() == 0
        },
        None => false,
    }
}

/// A copy of the first network of `networks` with the SSID `ssid`.
pub fn find_network(networks: &Vec<InternalNetwork>, ssid: &str) -> (r: Option<InternalNetwork>)
    ensures
        r matches Some(n) ==> exists|i: int|
            0 <= i < networks@.len() && networks@[i]@ == n@ && n@.ssid == ssid@ && forall|j: int|
                0 <= j < i ==> networks@[j]@.ssid != ssid@,
        r is None ==> forall|i: int| 0 <= i < networks@.len() ==> networks@[i]@.ssid != ssid@,
{
    let target = String::from_str(ssid);
    let mut i: usize = 0;
    while i < networks.len()
        invariant
            0 <= i <= networks.len(),
            target@ == ssid@,
            forall|j: int| 0 <= j < i ==> networks@[j]@.ssid != ssid@,
        decreases networks.len() - i,
    {
        let n = &networks[i];
        if n.ssid == target {
            let copy = InternalNetwork {
                ssid: n.ssid.clone(),
                signal: n.signal,
                security: n.security.clone(),
                in_use: n.in_use,
                channel: n.channel.clone(),
            };
            assert(networks@[i as int]@ == copy@);
            return Some(copy);
        }
        i += 1;
    }
    None
}

// ---------------------------------------------------------------------------
// Connecting
// ---------------------------------------------------------------------------

/// The arguments of the `nmcli` call that connects to `ssid`, with the
/// password where one is given.
pub open spec fn connect_args_spec(ssid: Seq<char>, password: Option<Seq<char>>) -> Seq<Seq<char>> {
    let base = seq!["dev"@, "wifi"@, "connect"@, ssid];
    match password {
        Some(p) => base + seq!["password"@, p],
        None => base,
    }
}

/// The arguments of `nmcli dev wifi connect <ssid> [password <password>]`.
pub fn connect_args(ssid: &str, password: Option<&str>) -> (args: Vec<String>)
    ensures
        arg_views(args@) == connect_args_spec(ssid@, opt_chars(password)),
{
    let mut args: Vec<String> = Vec::new();
    push_arg(&mut args, "dev");
    push_arg(&mut args, "wifi");
    push_arg(&mut args, "connect");
    push_arg(&mut args, ssid);
    match password {
        Some(p) => {
            push_arg(&mut args, "password");
            push_arg(&mut args, p);
        },
        None => {},
    }
    assert(arg_views(args@) =~= connect_args_spec(ssid@, opt_chars(password)));
    args
}

/// The outcome of a connection attempt: success where `nmcli` exited with
/// success, else what it wrote to its error stream.
pub fn connect_result(success: bool, stderr: String) -> (r: Result<(), String>)
    ensures
        success ==> r is Ok,
        !success ==> (r matches Err(e) && e@ == stderr@),
{
    if success {
        Ok(())
    } else {
        Err(stderr)
    }
}

/// What the window does after a connection attempt.
#[derive(Debug)]
pub enum ConnectAction {
    /// Report the connection and list the networks again.
    Connected,
    /// Ask for the password of the network.
    AskPassword,
    /// Report the failure with this message.
    Failed(String),
}

/// An error that means the network needs a password.
pub open spec fn asks_for_secret(e: Seq<char>) -> bool {
    contains(e, "secrets"@) || contains(e, "password"@)
}

/// `prefix` followed by `detail`.
pub fn message_with(prefix: &str, detail: &str) -> (m: String)
    ensures
        m@ == prefix@ + detail@,
{
    let mut m = String::from_str(prefix);
    m.append(detail);
    m
}

/// The action after a connection attempt. Where the attempt was made
/// without a password (`may_ask_password`), an error about missing secrets
/// or a password leads to the password prompt; any other error is reported
/// as `Connection failed: <error>`.
pub fn after_connect(result: &Result<(), String>, may_ask_password: bool) -> (a: ConnectAction)
    ensures
        result is Ok ==> a is Connected,
        result matches Err(e) ==> (if may_ask_password && asks_for_secret(e@) {
            a is AskPassword
        } else {
            (a matches ConnectAction::Failed(m) && m@ == "Connection failed: "@ + e@)
        }),
{
    match result {
        Ok(()) => ConnectAction::Connected,
        Err(e) => {
            let chars = to_chars(e.as_str());
            if may_ask_password && (contains_str(&chars, "secrets") || contains_str(
                &chars,
                "password",
            )) {
                ConnectAction::AskPassword
            } else {
                ConnectAction::Failed(message_with("Connection failed: ", e.as_str()))
            }
        },
    }
}

/// The busy message while connecting to `ssid`.
pub fn connecting_message(ssid: &str) -> (m: String)
    ensures
        m@ == "Connecting to "@ + ssid@ + "..."@,
{
    let mut m = String::from_str("Connecting to ");
    m.append(ssid);
    m.append("...");
    m
}

// ---------------------------------------------------------------------------
// IPv4 settings
// ---------------------------------------------------------------------------

/// An address with a prefix length: `ip` where it has one, else `ip/24`.
pub open spec fn ip_with_prefix_spec(ip: Seq<char>) -> Seq<char> {
    if contains(ip, "/"@) {
        ip
    } else {
        ip + "/24"@
    }
}

/// `ip` with the prefix length `/24` added where it has none.
pub fn ip_with_prefix(ip: &str) -> (r: String)
    ensures
        r@ == ip_with_prefix_spec(ip@),
{
    let chars = to_chars(ip);
    if contains_str(&chars, "/") {
        String::from_str(ip)
    } else {
        message_with(ip, "/24")
    }
}

/// The `nmcli` calls that apply IPv4 settings to the connection `ssid`:
/// a manual address (with gateway and DNS servers where given) or, for an
/// empty address, automatic configuration; then the connection is brought
/// up.
pub open spec fn apply_settings_spec(
    ssid: Seq<char>,
    ip: Seq<char>,
    gw: Seq<char>,
    dns: Seq<char>,
) -> Seq<Seq<Seq<char>>> {
    let modify = if ip.len() > 0 {
        seq![
            "connection"@,
            "modify"@,
            ssid,
            "ipv4.method"@,
            "manual"@,
            "ipv4.addresses"@,
            ip_with_prefix_spec(ip),
        ] + (if gw.len() > 0 {
            seq!["ipv4.gateway"@, gw]
        } else {
            Seq::empty()
        }) + (if dns.len() > 0 {
            seq!["ipv4.dns"@, dns]
        } else {
            Seq::empty()
        })
    } else {
        seq!["connection"@, "modify"@, ssid, "ipv4.method"@, "auto"@]
    };
    seq![modify, seq!["connection"@, "up"@, ssid]]
}

/// The argument lists of the `nmcli` calls that apply IPv4 settings.
pub fn apply_settings_commands(ssid: &str, ip: &str, gw: &str, dns: &str) -> (cmds: Vec<
    Vec<String>,
>)
    ensures
        command_views(cmds@) == apply_settings_spec(ssid@, ip@, gw@, dns@),
{
    let mut modify: Vec<String> = Vec::new();
    push_arg(&mut modify, "connection");
    push_arg(&mut modify, "modify");
    push_arg(&mut modify, ssid);
    push_arg(&mut modify, "ipv4.method");
    if !ip.is_empty() {
        push_arg(&mut modify, "manual");
        push_arg(&mut modify, "ipv4.addresses");
        let ghost prev = arg_views(modify@);
        modify.push(ip_with_prefix(ip));
        assert(arg_views(modify@) =~= prev.push(ip_with_prefix_spec(ip@)));
        let ghost base = arg_views(modify@);
        if !gw.is_empty() {
            push_arg(&mut modify, "ipv4.gateway");
            push_arg(&mut modify, gw);
        }
        let ghost with_gw = arg_views(modify@);
        assert(with_gw =~= base + (if gw@.len() > 0 {
            seq!["ipv4.gateway"@, gw@]
        } else {
            Seq::empty()
        }));
        if !dns.is_empty() {
            push_arg(&mut modify, "ipv4.dns");
            push_arg(&mut modify, dns);
        }
        assert(arg_views(modify@) =~= with_gw + (if dns@.len() > 0 {
            seq!["ipv4.dns"@, dns@]
        } else {
            Seq::empty()
        }));
    } else {
        push_arg(&mut modify, "auto");
    }
    let mut up: Vec<String> = Vec::new();
    push_arg(&mut up, "connection");
    push_arg(&mut up, "up");
    push_arg(&mut up, ssid);
    let ghost mv = arg_views(modify@);
    let ghost uv = arg_views(up@);
    let mut cmds: Vec<Vec<String>> = Vec::new();
    cmds.push(modify);
    cmds.push(up);
    assert(command_views(cmds@) =~= seq![mv, uv]);
    assert(mv =~= apply_settings_spec(ssid@, ip@, gw@, dns@)[0]);
    assert(uv =~= apply_settings_spec(ssid@, ip@, gw@, dns@)[1]);
    cmds
}

/// The notification after settings were applied: `Settings applied`, or
/// `Failed: <error>` where bringing the connection up could not be started.
pub fn settings_outcome(result: &Result<(), String>) -> (r: (String, bool))
    ensures
        result is Ok ==> r.0@ == "Settings applied"@ && r.1,
        result matches Err(e) ==> r.0@ == "Failed: "@ + e@ && !r.1,
{
    match result {
        Ok(()) => (String::from_str("Settings applied"), true),
        Err(e) => (message_with("Failed: ", e.as_str()), false),
    }
}

// ---------------------------------------------------------------------------
// Laws
// ---------------------------------------------------------------------------

/// An address handed to `nmcli` always carries a prefix length.
pub proof fn law_prefix_present(ip: Seq<char>)
    ensures
        contains(ip_with_prefix_spec(ip), "/"@),
{
    reveal_strlit("/");
    reveal_strlit("/24");
    if !contains(ip, "/"@) {
        let r = ip + "/24"@;
        assert(r.subrange(ip.len() as int, ip.len() + 1int) =~= "/"@);
        assert(crate::text::matches_at(r, ip.len() as int, "/"@));
    }
}

/// Adding the prefix length twice is adding it once.
pub proof fn law_prefix_idempotent(ip: Seq<char>)
    ensures
        ip_with_prefix_spec(ip_with_prefix_spec(ip)) == ip_with_prefix_spec(ip),
{
    law_prefix_present(ip);
}

/// The gateway and the DNS servers are set independently: for a manual
/// address the modify command is the address part, then the pair
/// `ipv4.gateway <gw>` exactly where a gateway is given, then the pair
/// `ipv4.dns <dns>` exactly where DNS servers are given; the second command
/// always brings the connection up.
pub proof fn law_manual_settings(ssid: Seq<char>, ip: Seq<char>, gw: Seq<char>, dns: Seq<char>)
    requires
        ip.len() > 0,
    ensures
        ({
            let cmds = apply_settings_spec(ssid, ip, gw, dns);
            let m = cmds[0];
            let with_gw: int = if gw.len() > 0 {
                9
            } else {
                7
            };
            &&& cmds.len() == 2
            &&& cmds[1] == seq!["connection"@, "up"@, ssid]
            &&& m.len() == with_gw + (if dns.len() > 0 {
                2int
            } else {
                0int
            })
            &&& m.take(7) == seq![
                "connection"@,
                "modify"@,
                ssid,
                "ipv4.method"@,
                "manual"@,
                "ipv4.addresses"@,
                ip_with_prefix_spec(ip),
            ]
            &&& gw.len() > 0 ==> m[7] == "ipv4.gateway"@ && m[8] == gw
            &&& dns.len() > 0 ==> m[with_gw] == "ipv4.dns"@ && m[with_gw + 1] == dns
        }),
{
    let m = apply_settings_spec(ssid, ip, gw, dns)[0];
    let base = seq![
        "connection"@,
        "modify"@,
        ssid,
        "ipv4.method"@,
        "manual"@,
        "ipv4.addresses"@,
        ip_with_prefix_spec(ip),
    ];
    let g = if gw.len() > 0 {
        seq!["ipv4.gateway"@, gw]
    } else {
        Seq::<Seq<char>>::empty()
    };
    let d = if dns.len() > 0 {
        seq!["ipv4.dns"@, dns]
    } else {
        Seq::<Seq<char>>::empty()
    };
    assert(m == base + g + d);
    assert((base + g + d).take(7) =~= base);
}

/// Adding DNS servers appends their pair to the modify command and changes
/// nothing else; adding a gateway to settings without DNS servers appends
/// its pair; an empty address ignores both.
pub proof fn law_settings_compose(ssid: Seq<char>, ip: Seq<char>, gw: Seq<char>, dns: Seq<char>)
    ensures
        ip.len() > 0 && dns.len() > 0 ==> apply_settings_spec(ssid, ip, gw, dns)[0]
            == apply_settings_spec(ssid, ip, gw, Seq::empty())[0] + seq!["ipv4.dns"@, dns],
        ip.len() > 0 && gw.len() > 0 ==> apply_settings_spec(ssid, ip, gw, Seq::empty())[0]
            == apply_settings_spec(ssid, ip, Seq::empty(), Seq::empty())[0] + seq![
            "ipv4.gateway"@,
            gw,
        ],
        ip.len() == 0 ==> apply_settings_spec(ssid, ip, gw, dns) == apply_settings_spec(
            ssid,
            ip,
            Seq::empty(),
            Seq::empty(),
        ),
{
    let e = Seq::<char>::empty();
    let base = seq![
        "connection"@,
        "modify"@,
        ssid,
        "ipv4.method"@,
        "manual"@,
        "ipv4.addresses"@,
        ip_with_prefix_spec(ip),
    ];
    let g = if gw.len() > 0 {
        seq!["ipv4.gateway"@, gw]
    } else {
        Seq::<Seq<char>>::empty()
    };
    let none = Seq::<Seq<char>>::empty();
    if ip.len() > 0 {
        assert(apply_settings_spec(ssid, ip, gw, e)[0] == base + g + none);
        assert(base + g + none =~= base + g);
        assert(apply_settings_spec(ssid, ip, e, e)[0] == base + none + none);
        assert(base + none + none =~= base);
    }
}

} // verus!
