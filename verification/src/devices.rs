//! The devices on the local subnet, read from the output of
//! `nmap -sn --unprivileged <subnet>` and completed from `ip neighbor show`.
//!
//! One entry per IP address; the list is ordered by the numeric value of the
//! address's dot-separated parts.
use vstd::prelude::*;

use crate::tables::{distinct_keys, drawn_from, holds_all, lemma_insert_tracks};

use crate::numbers::{all_digits, digits_value, is_digit, law_decimal_u32, parse_u32, parse_u32_spec};
use crate::text::{
    Strip, chars_eq_str, contains, contains_str, copy_chars, join, join_exec,
    lemma_words_nonempty, lines, lines_of, opt_chars, position, position_from, position_of_word, split,
    split_chars, string_from_chars, sub_words, to_chars, trim_by, trim_exec, views, words,
    words_exec, no_ws, lemma_words_no_ws, lemma_trim_no_ws, lacks, lemma_split_join,
};

verus! {

/// The MAC address shown until one is known.
pub const UNKNOWN_MAC: &'static str = "Unknown";

/// A device found on the subnet.
#[derive(Debug)]
pub struct ConnectedDevice {
    pub hostname: String,
    pub mac: String,
    pub ip: String,
    pub vendor: String,
}

/// The value of a [`ConnectedDevice`].
pub struct DeviceView {
    pub hostname: Seq<char>,
    pub mac: Seq<char>,
    pub ip: Seq<char>,
    pub vendor: Seq<char>,
}

impl View for ConnectedDevice {
    type V = DeviceView;

    open spec fn view(&self) -> DeviceView {
        DeviceView {
            hostname: self.hostname@,
            mac: self.mac@,
            ip: self.ip@,
            vendor: self.vendor@,
        }
    }
}

/// The values of a sequence of devices.
pub open spec fn dev_views(v: Seq<ConnectedDevice>) -> Seq<DeviceView> {
    v.map_values(|d: ConnectedDevice| d@)
}

/// A table of devices by IP address.
pub type DeviceMap = Map<Seq<char>, DeviceView>;

// ---------------------------------------------------------------------------
// Specification: the nmap report
// ---------------------------------------------------------------------------

/// The state of reading an nmap report: the host being described (address
/// and name, empty between hosts) and the devices found so far.
pub struct NmapState {
    pub current_ip: Seq<char>,
    pub current_hostname: Seq<char>,
    pub devices: DeviceMap,
}

/// `s.trim_matches('(').trim_matches(')')`.
pub open spec fn strip_parens(s: Seq<char>) -> Seq<char> {
    trim_by(trim_by(s, Strip::Char('(')), Strip::Char(')'))
}

/// The state after one more line of the report.
///
/// - `Nmap scan report for <name> (<ip>)` or `Nmap scan report for <ip>`
///   starts a host: the last word is its address (in parentheses where a
///   name precedes it, the name being the words from the fifth to the
///   second-last).
/// - `MAC Address: <mac> (<vendor>)` completes the current host: it is
///   recorded with that MAC address and vendor, and no host is current.
/// - `Host is up` records the current host, with an unknown MAC address,
///   where it is not recorded yet.
pub open spec fn nmap_step(st: NmapState, line: Seq<char>) -> NmapState {
    if contains(line, "Nmap scan report for"@) {
        let parts = words(line);
        if parts.len() >= 5 {
            let last = parts.last();
            if last.len() > 0 && last[0] == '(' && last.last() == ')' {
                NmapState {
                    current_ip: strip_parens(last),
                    current_hostname: join(parts.subrange(4, parts.len() - 1), " "@),
                    ..st
                }
            } else {
                NmapState { current_ip: last, current_hostname: Seq::empty(), ..st }
            }
        } else {
            st
        }
    } else if contains(line, "MAC Address:"@) && st.current_ip.len() > 0 {
        let parts = words(line);
        if parts.len() >= 3 {
            NmapState {
                current_ip: Seq::empty(),
                current_hostname: Seq::empty(),
                devices: st.devices.insert(
                    st.current_ip,
                    DeviceView {
                        hostname: st.current_hostname,
                        mac: parts[2],
                        ip: st.current_ip,
                        vendor: strip_parens(join(parts.skip(3), " "@)),
                    },
                ),
            }
        } else {
            st
        }
    } else if contains(line, "Host is up"@) && st.current_ip.len() > 0
        && !st.devices.contains_key(st.current_ip) {
        NmapState {
            devices: st.devices.insert(
                st.current_ip,
                DeviceView {
                    hostname: st.current_hostname,
                    mac: UNKNOWN_MAC@,
                    ip: st.current_ip,
                    vendor: Seq::empty(),
                },
            ),
            ..st
        }
    } else {
        st
    }
}

/// The state after the lines `ls` of a report.
pub open spec fn nmap_state(ls: Seq<Seq<char>>) -> NmapState
    decreases ls.len(),
{
    if ls.len() == 0 {
        NmapState { current_ip: Seq::empty(), current_hostname: Seq::empty(), devices: Map::empty() }
    } else {
        nmap_step(nmap_state(ls.drop_last()), ls.last())
    }
}

/// The devices that an nmap report lists.
pub open spec fn nmap_devices(out: Seq<char>) -> DeviceMap {
    nmap_state(lines(out)).devices
}

// ---------------------------------------------------------------------------
// Specification: the neighbour table
// ---------------------------------------------------------------------------

/// A line of `ip neighbor show` that names a device: at least four words,
/// `<ip> ... lladdr <mac> ... <state>`, whose state is not `FAILED`.
pub open spec fn neighbor_usable(line: Seq<char>) -> bool {
    let p = words(line);
    &&& p.len() >= 4
    &&& position(p, "lladdr"@) matches Some(ll) && ll + 1 < p.len()
    &&& p.last() != "FAILED"@
}

/// The address that a neighbour line names: its first word.
pub open spec fn neighbor_ip(line: Seq<char>) -> Seq<char> {
    words(line)[0]
}

/// The MAC address that a neighbour line gives: the word after `lladdr`.
pub open spec fn neighbor_mac(line: Seq<char>) -> Seq<char> {
    words(line)[position(words(line), "lladdr"@)->0 + 1]
}

/// The table after one more line of `ip neighbor show`: a usable line fills
/// in the MAC address of a known device whose MAC address is unknown, and
/// adds a device not yet known; any other line changes nothing.
pub open spec fn neighbor_step(m: DeviceMap, line: Seq<char>) -> DeviceMap {
    if !neighbor_usable(line) {
        m
    } else {
        let ip = neighbor_ip(line);
        let mac = neighbor_mac(line);
        if m.contains_key(ip) {
            if m[ip].mac == UNKNOWN_MAC@ {
                m.insert(ip, DeviceView { mac: mac, ..m[ip] })
            } else {
                m
            }
        } else {
            m.insert(
                ip,
                DeviceView { hostname: Seq::empty(), mac: mac, ip: ip, vendor: Seq::empty() },
            )
        }
    }
}

/// The table after the lines `ls` of `ip neighbor show`, starting from `m`.
pub open spec fn neighbor_table(m: DeviceMap, ls: Seq<Seq<char>>) -> DeviceMap
    decreases ls.len(),
{
    if ls.len() == 0 {
        m
    } else {
        neighbor_step(neighbor_table(m, ls.drop_last()), ls.last())
    }
}

/// The devices that an nmap report (where there is one) and a neighbour
/// table (where there is one) list together.
pub open spec fn discovered_devices(nmap_out: Option<Seq<char>>, neigh_out: Option<Seq<char>>) -> DeviceMap {
    let m = match nmap_out {
        Some(o) => nmap_devices(o),
        None => Map::empty(),
    };
    match neigh_out {
        Some(o) => neighbor_table(m, lines(o)),
        None => m,
    }
}

/// The table without the device at the interface's own address, where that
/// address is known: the manager lists the other devices of the subnet.
pub open spec fn without_address(m: DeviceMap, local: Option<Seq<char>>) -> DeviceMap {
    match local {
        Some(a) => m.remove(a),
        None => m,
    }
}

// ---------------------------------------------------------------------------
// Specification: order
// ---------------------------------------------------------------------------

/// The parts of an address, each read as a number (0 where it is none).
pub open spec fn ip_key(ip: Seq<char>) -> Seq<u32> {
    split(ip, '.').map_values(
        |p: Seq<char>|
            match parse_u32_spec(p) {
                Some(v) => v,
                None => 0u32,
            },
    )
}

/// `a < b` in the lexicographic order of `Vec<u32>`.
pub open spec fn lex_lt(a: Seq<u32>, b: Seq<u32>) -> bool
    decreases a.len(),
{
    if a.len() == 0 {
        b.len() > 0
    } else if b.len() == 0 {
        false
    } else if a[0] < b[0] {
        true
    } else if a[0] > b[0] {
        false
    } else {
        lex_lt(a.drop_first(), b.drop_first())
    }
}

/// `s` is ordered by address.
pub open spec fn sorted_by_ip(s: Seq<DeviceView>) -> bool {
    forall|i: int, j: int| 0 <= i < j < s.len() ==> !lex_lt(ip_key(s[j].ip), ip_key(s[i].ip))
}

/// No two entries of `s` share an address.
pub open spec fn distinct_ips(s: Seq<DeviceView>) -> bool {
    forall|i: int, j: int| 0 <= i < s.len() && 0 <= j < s.len() && i != j ==> s[i].ip != s[j].ip
}

/// `s` lists exactly the entries of `m`, each once.
pub open spec fn lists_devices(s: Seq<DeviceView>, m: DeviceMap) -> bool {
    &&& distinct_ips(s)
    &&& forall|i: int| 0 <= i < s.len() ==> #[trigger] m.contains_key(s[i].ip) && m[s[i].ip] == s[i]
    &&& forall|k: Seq<char>| #[trigger] m.contains_key(k) ==> exists|i: int| 0 <= i < s.len() && s[i].ip == k
}

pub proof fn lemma_lex_irreflexive(a: Seq<u32>)
    ensures
        !lex_lt(a, a),
    decreases a.len(),
{
    if a.len() > 0 {
        lemma_lex_irreflexive(a.drop_first());
    }
}

pub proof fn lemma_lex_transitive(a: Seq<u32>, b: Seq<u32>, c: Seq<u32>)
    requires
        lex_lt(a, b),
        lex_lt(b, c),
    ensures
        lex_lt(a, c),
    decreases a.len(),
{
    if a.len() > 0 && b.len() > 0 && c.len() > 0 && a[0] == b[0] && b[0] == c[0] {
        lemma_lex_transitive(a.drop_first(), b.drop_first(), c.drop_first());
    }
}


// ---------------------------------------------------------------------------
// Implementation: the table of devices
// ---------------------------------------------------------------------------

fn copy_device(d: &ConnectedDevice) -> (r: ConnectedDevice)
    ensures
        r@ == d@,
{
    ConnectedDevice {
        hostname: d.hostname.clone(),
        mac: d.mac.clone(),
        ip: d.ip.clone(),
        vendor: d.vendor.clone(),
    }
}

/// The index of the device with address `ip` in `table`.
fn find_device(table: &Vec<ConnectedDevice>, ip: &String, m: Ghost<DeviceMap>) -> (r: Option<usize>)
    requires
        lists_devices(dev_views(table@), m@),
    ensures
        r matches Some(j) ==> j < table.len() && table@[j as int].ip@ == ip@ && m@.contains_key(
            ip@,
        ) && m@[ip@] == table@[j as int]@,
        r is None ==> !m@.contains_key(ip@),
{
    let ghost t = dev_views(table@);
    let mut j: usize = 0;
    while j < table.len()
        invariant
            0 <= j <= table.len(),
            t == dev_views(table@),
            lists_devices(t, m@),
            forall|k: int| 0 <= k < j ==> t[k].ip != ip@,
        decreases table.len() - j,
    {
        if table[j].ip == *ip {
            assert(t[j as int].ip == ip@);
            assert(m@.contains_key(t[j as int].ip));
            return Some(j);
        }
        j += 1;
    }
    assert(!m@.contains_key(ip@)) by {
        if m@.contains_key(ip@) {
            let i = choose|i: int| 0 <= i < t.len() && t[i].ip == ip@;
        }
    }
    None
}

/// Records `dev` under its address, in place of any device recorded there.
fn put_device(table: &mut Vec<ConnectedDevice>, dev: ConnectedDevice, m: Ghost<DeviceMap>)
    requires
        lists_devices(dev_views(old(table)@), m@),
    ensures
        lists_devices(dev_views(final(table)@), m@.insert(dev@.ip, dev@)),
{
    let ghost t0 = dev_views(table@);
    let ghost m1 = m@.insert(dev@.ip, dev@);
    match find_device(table, &dev.ip, m) {
        Some(j) => {
            table.set(j, dev);
            let ghost t1 = dev_views(table@);
            assert(t1 =~= t0.update(j as int, dev@));
            assert forall|k: Seq<char>| #[trigger] m1.contains_key(k) implies exists|i: int|
                0 <= i < t1.len() && t1[i].ip == k by {
                if k == dev@.ip {
                    assert(t1[j as int].ip == k);
                } else {
                    let i = choose|i: int| 0 <= i < t0.len() && t0[i].ip == k;
                    assert(t1[i].ip == k);
                }
            }
            assert forall|i: int| 0 <= i < t1.len() implies #[trigger] m1.contains_key(t1[i].ip)
                && m1[t1[i].ip] == t1[i] by {
                if i != j {
                    assert(t0[i].ip != t0[j as int].ip);
                }
            }
            assert(t0[j as int].ip == dev@.ip);
            assert forall|x: int, y: int|
                0 <= x < t1.len() && 0 <= y < t1.len() && x != y implies t1[x].ip != t1[y].ip by {
                assert(t0[x].ip != t0[y].ip);
                if x == j {
                    assert(t1[x].ip == t0[x].ip);
                }
                if y == j {
                    assert(t1[y].ip == t0[y].ip);
                }
            }
        },
        None => {
            table.push(dev);
            let ghost t1 = dev_views(table@);
            assert(t1 =~= t0.push(dev@));
            assert forall|k: Seq<char>| #[trigger] m1.contains_key(k) implies exists|i: int|
                0 <= i < t1.len() && t1[i].ip == k by {
                if k == dev@.ip {
                    assert(t1[t1.len() - 1].ip == k);
                } else {
                    let i = choose|i: int| 0 <= i < t0.len() && t0[i].ip == k;
                    assert(t1[i].ip == k);
                }
            }
            assert forall|i: int| 0 <= i < t1.len() implies #[trigger] m1.contains_key(t1[i].ip)
                && m1[t1[i].ip] == t1[i] by {
                if i < t0.len() {
                    assert(t0[i].ip != dev@.ip) by {
                        assert(m@.contains_key(t0[i].ip));
                    }
                }
            }
            assert forall|x: int, y: int|
                0 <= x < t1.len() && 0 <= y < t1.len() && x != y implies t1[x].ip != t1[y].ip by {
                if x < t0.len() && y < t0.len() {
                } else if x < t0.len() {
                    assert(m@.contains_key(t0[x].ip));
                } else {
                    assert(m@.contains_key(t0[y].ip));
                }
            }
        },
    }
}

// ---------------------------------------------------------------------------
// Implementation: the nmap report
// ---------------------------------------------------------------------------

/// `s.trim_matches('(').trim_matches(')')`.
fn strip_parens_exec(s: &Vec<char>) -> (r: Vec<char>)
    ensures
        r@ == strip_parens(s@),
{
    let a = trim_exec(s, &Strip::Char('('));
    trim_exec(&a, &Strip::Char(')'))
}

/// Reads one more line of an nmap report.
fn nmap_step_exec(
    line: &Vec<char>,
    cur_ip: &mut Vec<char>,
    cur_host: &mut Vec<char>,
    table: &mut Vec<ConnectedDevice>,
    st: Ghost<NmapState>,
)
    requires
        old(cur_ip)@ == st@.current_ip,
        old(cur_host)@ == st@.current_hostname,
        lists_devices(dev_views(old(table)@), st@.devices),
    ensures
        ({
            let st1 = nmap_step(st@, line@);
            &&& final(cur_ip)@ == st1.current_ip
            &&& final(cur_host)@ == st1.current_hostname
            &&& lists_devices(dev_views(final(table)@), st1.devices)
        }),
{
    let space = to_chars(" ");
    if contains_str(line, "Nmap scan report for") {
        let parts = words_exec(line);
        let n = parts.len();
        if n >= 5 {
            let last = &parts[n - 1];
            assert(views(parts@).last() == last@);
            if last.len() > 0 && last[0] == '(' && last[last.len() - 1] == ')' {
                *cur_ip = strip_parens_exec(last);
                let mid = sub_words(&parts, 4, n - 1);
                *cur_host = join_exec(&mid, &space);
            } else {
                *cur_ip = copy_chars(last);
                *cur_host = Vec::new();
            }
        }
    } else if contains_str(line, "MAC Address:") && cur_ip.len() > 0 {
        let parts = words_exec(line);
        let n = parts.len();
        if n >= 3 {
            let rest = sub_words(&parts, 3, n);
            assert(views(parts@).subrange(3, n as int) =~= views(parts@).skip(3));
            let joined = join_exec(&rest, &space);
            let vendor = strip_parens_exec(&joined);
            let dev = ConnectedDevice {
                hostname: string_from_chars(cur_host),
                mac: string_from_chars(&parts[2]),
                ip: string_from_chars(cur_ip),
                vendor: string_from_chars(&vendor),
            };
            put_device(table, dev, Ghost(st@.devices));
            *cur_ip = Vec::new();
            *cur_host = Vec::new();
        }
    } else if contains_str(line, "Host is up") && cur_ip.len() > 0 {
        let ip = string_from_chars(cur_ip);
        if find_device(table, &ip, Ghost(st@.devices)).is_none() {
            let dev = ConnectedDevice {
                hostname: string_from_chars(cur_host),
                mac: String::from_str(UNKNOWN_MAC),
                ip,
                vendor: String::new(),
            };
            put_device(table, dev, Ghost(st@.devices));
        }
    }
}

/// The devices that an nmap report lists, in the order first seen.
fn nmap_table(stdout: &str) -> (res: Vec<ConnectedDevice>)
    ensures
        lists_devices(dev_views(res@), nmap_devices(stdout@)),
{
    let text = to_chars(stdout);
    let ls = lines_of(&text);
    let ghost lv = views(ls@);
    let mut cur_ip: Vec<char> = Vec::new();
    let mut cur_host: Vec<char> = Vec::new();
    let mut table: Vec<ConnectedDevice> = Vec::new();
    let mut i: usize = 0;
    assert(lv.take(0) =~= Seq::<Seq<char>>::empty());
    while i < ls.len()
        invariant
            0 <= i <= ls.len(),
            lv == views(ls@),
            lv == lines(stdout@),
            cur_ip@ == nmap_state(lv.take(i as int)).current_ip,
            cur_host@ == nmap_state(lv.take(i as int)).current_hostname,
            lists_devices(dev_views(table@), nmap_state(lv.take(i as int)).devices),
        decreases ls.len() - i,
    {
        let ghost st = nmap_state(lv.take(i as int));
        assert(lv.take(i + 1).drop_last() =~= lv.take(i as int));
        assert(lv.take(i + 1).last() == ls@[i as int]@);
        nmap_step_exec(&ls[i], &mut cur_ip, &mut cur_host, &mut table, Ghost(st));
        i += 1;
    }
    assert(lv.take(ls.len() as int) =~= lv);
    table
}

// ---------------------------------------------------------------------------
// Implementation: the neighbour table
// ---------------------------------------------------------------------------

/// Reads one more line of `ip neighbor show`.
fn neighbor_step_exec(line: &Vec<char>, table: &mut Vec<ConnectedDevice>, m: Ghost<DeviceMap>)
    requires
        lists_devices(dev_views(old(table)@), m@),
    ensures
        lists_devices(dev_views(final(table)@), neighbor_step(m@, line@)),
{
    let p = words_exec(line);
    let n = p.len();
    if n < 4 {
        return;
    }
    let lladdr = to_chars("lladdr");
    match position_of_word(&p, &lladdr) {
        Some(ll) => {
            if ll + 1 < n {
                assert(views(p@).last() == p@[n - 1]@);
                if chars_eq_str(&p[n - 1], "FAILED") {
                    return;
                }
                let ip = string_from_chars(&p[0]);
                let mac = string_from_chars(&p[ll + 1]);
                match find_device(table, &ip, m) {
                    Some(j) => {
                        let old_dev = &table[j];
                        if chars_eq_str(&to_chars(old_dev.mac.as_str()), UNKNOWN_MAC) {
                            let dev = ConnectedDevice {
                                hostname: old_dev.hostname.clone(),
                                mac,
                                ip: old_dev.ip.clone(),
                                vendor: old_dev.vendor.clone(),
                            };
                            put_device(table, dev, m);
                            assert(neighbor_step(m@, line@) == m@.insert(ip@, dev@));
                        }
                    },
                    None => {
                        let dev = ConnectedDevice {
                            hostname: String::new(),
                            mac,
                            ip,
                            vendor: String::new(),
                        };
                        put_device(table, dev, m);
                    },
                }
            }
        },
        None => {},
    }
}

/// Completes `table`, which lists `m`, from the output of `ip neighbor show`.
fn merge_neighbors(table: &mut Vec<ConnectedDevice>, stdout: &str, m: Ghost<DeviceMap>)
    requires
        lists_devices(dev_views(old(table)@), m@),
    ensures
        lists_devices(dev_views(final(table)@), neighbor_table(m@, lines(stdout@))),
{
    let text = to_chars(stdout);
    let ls = lines_of(&text);
    let ghost lv = views(ls@);
    let mut i: usize = 0;
    assert(lv.take(0) =~= Seq::<Seq<char>>::empty());
    while i < ls.len()
        invariant
            0 <= i <= ls.len(),
            lv == views(ls@),
            lv == lines(stdout@),
            lists_devices(dev_views(table@), neighbor_table(m@, lv.take(i as int))),
        decreases ls.len() - i,
    {
        let ghost mi = neighbor_table(m@, lv.take(i as int));
        assert(lv.take(i + 1).drop_last() =~= lv.take(i as int));
        assert(lv.take(i + 1).last() == ls@[i as int]@);
        neighbor_step_exec(&ls[i], table, Ghost(mi));
        i += 1;
    }
    assert(lv.take(ls.len() as int) =~= lv);
}


// ---------------------------------------------------------------------------
// Implementation: order
// ---------------------------------------------------------------------------

/// The parts of an address, each read as a number.
pub fn ip_key_exec(ip: &String) -> (k: Vec<u32>)
    ensures
        k@ == ip_key(ip@),
{
    let text = to_chars(ip.as_str());
    let parts = split_chars(&text, '.');
    let ghost ps = views(parts@);
    let mut k: Vec<u32> = Vec::new();
    let mut i: usize = 0;
    while i < parts.len()
        invariant
            0 <= i <= parts.len(),
            ps == views(parts@),
            ps == split(ip@, '.'),
            k@ =~= ps.take(i as int).map_values(
                |p: Seq<char>|
                    match parse_u32_spec(p) {
                        Some(v) => v,
                        None => 0u32,
                    },
            ),
        decreases parts.len() - i,
    {
        let v = match parse_u32(&parts[i]) {
            Some(v) => v,
            None => 0,
        };
        k.push(v);
        assert(ps[i as int] == parts@[i as int]@);
        i += 1;
        assert(k@ =~= ps.take(i as int).map_values(
            |p: Seq<char>|
                match parse_u32_spec(p) {
                    Some(v) => v,
                    None => 0u32,
                },
        ));
    }
    assert(ps.take(parts.len() as int) =~= ps);
    k
}

/// `a < b` for `Vec<u32>`.
pub fn lex_lt_exec(a: &Vec<u32>, b: &Vec<u32>) -> (r: bool)
    ensures
        r == lex_lt(a@, b@),
{
    let mut i: usize = 0;
    assert(a@.skip(0) =~= a@ && b@.skip(0) =~= b@);
    loop
        invariant
            0 <= i <= a.len(),
            i <= b.len(),
            lex_lt(a@, b@) == lex_lt(a@.skip(i as int), b@.skip(i as int)),
        decreases a.len() - i,
    {
        if i == a.len() {
            return i < b.len();
        }
        if i == b.len() {
            return false;
        }
        if a[i] < b[i] {
            return true;
        }
        if a[i] > b[i] {
            return false;
        }
        assert(a@.skip(i as int).drop_first() =~= a@.skip(i + 1));
        assert(b@.skip(i as int).drop_first() =~= b@.skip(i + 1));
        i += 1;
    }
}

/// Inserts `dev` into `res`, ordered by address, after the entries of an
/// equal address key.
fn insert_by_ip(res: &mut Vec<ConnectedDevice>, dev: ConnectedDevice)
    requires
        sorted_by_ip(dev_views(old(res)@)),
    ensures
        sorted_by_ip(dev_views(final(res)@)),
        exists|p: int| 0 <= p <= old(res)@.len() && dev_views(final(res)@) == dev_views(
            old(res)@,
        ).insert(p, dev@),
{
    let kx = ip_key_exec(&dev.ip);
    let ghost s0 = dev_views(res@);
    let mut p: usize = 0;
    while p < res.len() && !lex_lt_exec(&kx, &ip_key_exec(&res[p].ip))
        invariant
            0 <= p <= res.len(),
            s0 == dev_views(res@),
            kx@ == ip_key(dev@.ip),
            forall|k: int| 0 <= k < p ==> !lex_lt(kx@, ip_key(#[trigger] s0[k].ip)),
        decreases res.len() - p,
    {
        p += 1;
    }
    res.insert(p, dev);
    let ghost s1 = dev_views(res@);
    assert(s1 =~= s0.insert(p as int, dev@));
    assert(p < s0.len() ==> lex_lt(kx@, ip_key(s0[p as int].ip)));
    assert forall|i: int, j: int| 0 <= i < j < s1.len() implies !lex_lt(
        ip_key(s1[j].ip),
        ip_key(s1[i].ip),
    ) by {
        if j < p {
        } else if j == p {
            assert(s1[j] == dev@);
        } else if i < p {
            assert(s1[j] == s0[j - 1]);
        } else if i == p {
            assert(s1[j] == s0[j - 1]);
            if lex_lt(ip_key(s0[j - 1].ip), kx@) {
                lemma_lex_transitive(ip_key(s0[j - 1].ip), kx@, ip_key(s0[p as int].ip));
                if j - 1 == p {
                    lemma_lex_irreflexive(ip_key(s0[p as int].ip));
                }
            }
        } else {
            assert(s1[i] == s0[i - 1] && s1[j] == s0[j - 1]);
        }
    }
}

/// Orders a table of devices by address.
fn sort_by_ip(table: Vec<ConnectedDevice>, m: Ghost<DeviceMap>) -> (res: Vec<ConnectedDevice>)
    requires
        lists_devices(dev_views(table@), m@),
    ensures
        lists_devices(dev_views(res@), m@),
        sorted_by_ip(dev_views(res@)),
{
    let ghost t = dev_views(table@);
    let mut res: Vec<ConnectedDevice> = Vec::new();
    let mut i: usize = 0;
    while i < table.len()
        invariant
            0 <= i <= table.len(),
            t == dev_views(table@),
            lists_devices(t, m@),
            sorted_by_ip(dev_views(res@)),
            dev_views(res@).len() == i,
            distinct_ips(dev_views(res@)),
            drawn_from(dev_views(res@), t, i as int),
            holds_all(dev_views(res@), t, i as int),
        decreases table.len() - i,
    {
        let ghost s0 = dev_views(res@);
        let dev = copy_device(&table[i]);
        insert_by_ip(&mut res, dev);
        let ghost s1 = dev_views(res@);
        proof {
            let p = choose|p: int| 0 <= p <= s0.len() && s1 == s0.insert(p, t[i as int]);
            assert(distinct_ips(s0) == distinct_keys(s0, |n: DeviceView| n.ip));
            assert(distinct_ips(t) == distinct_keys(t, |n: DeviceView| n.ip));
            lemma_insert_tracks(s0, t, i as int, p, |n: DeviceView| n.ip);
            assert(distinct_ips(s1) == distinct_keys(s1, |n: DeviceView| n.ip));
        }
        i += 1;
    }
    let ghost s = dev_views(res@);
    assert forall|a: int| 0 <= a < s.len() implies #[trigger] m@.contains_key(s[a].ip)
        && m@[s[a].ip] == s[a] by {
        let b = choose|b: int| 0 <= b < t.len() && s[a] == t[b];
        assert(m@.contains_key(t[b].ip));
    }
    assert forall|k: Seq<char>| #[trigger] m@.contains_key(k) implies exists|a: int|
        0 <= a < s.len() && s[a].ip == k by {
        let b = choose|b: int| 0 <= b < t.len() && t[b].ip == k;
        let a = choose|a: int| 0 <= a < s.len() && s[a] == t[b];
        assert(s[a].ip == k);
    }
    res
}

/// Drops the device at address `ip` from `table`, which lists `m`.
fn remove_device(table: &mut Vec<ConnectedDevice>, ip: &String, m: Ghost<DeviceMap>)
    requires
        lists_devices(dev_views(old(table)@), m@),
    ensures
        lists_devices(dev_views(final(table)@), m@.remove(ip@)),
{
    let ghost t0 = dev_views(table@);
    let ghost m1 = m@.remove(ip@);
    match find_device(table, ip, m) {
        Some(j) => {
            table.remove(j);
            let ghost t1 = dev_views(table@);
            assert(t1 =~= t0.remove(j as int));
            assert forall|i: int| 0 <= i < t1.len() implies #[trigger] m1.contains_key(t1[i].ip)
                && m1[t1[i].ip] == t1[i] by {
                let i0 = if i < j { i } else { i + 1 };
                assert(t1[i] == t0[i0]);
                assert(t0[i0].ip != t0[j as int].ip);
                assert(m@.contains_key(t0[i0].ip));
            }
            assert forall|k: Seq<char>| #[trigger] m1.contains_key(k) implies exists|i: int|
                0 <= i < t1.len() && t1[i].ip == k by {
                let i0 = choose|i: int| 0 <= i < t0.len() && t0[i].ip == k;
                assert(i0 != j);
                if i0 < j {
                    assert(t1[i0].ip == k);
                } else {
                    assert(t1[i0 - 1].ip == k);
                }
            }
            assert forall|x: int, y: int|
                0 <= x < t1.len() && 0 <= y < t1.len() && x != y implies t1[x].ip != t1[y].ip by {
                let x0 = if x < j { x } else { x + 1 };
                let y0 = if y < j { y } else { y + 1 };
                assert(t1[x] == t0[x0] && t1[y] == t0[y0]);
            }
        },
        None => {
            assert(m1 =~= m@);
        },
    }
}

/// The devices on the subnet other than this machine: those that the nmap
/// report lists (where a scan ran) completed from the neighbour table
/// (where it could be read), without the device at `local`, the
/// interface's own address (where it is known); one per address, ordered
/// by address.
pub fn discover_devices(nmap_out: Option<&str>, neighbor_out: Option<&str>, local: Option<&str>) -> (res: Vec<
    ConnectedDevice,
>)
    ensures
        lists_devices(
            dev_views(res@),
            without_address(
                discovered_devices(opt_chars(nmap_out), opt_chars(neighbor_out)),
                opt_chars(local),
            ),
        ),
        sorted_by_ip(dev_views(res@)),
{
    let mut table: Vec<ConnectedDevice> = match nmap_out {
        Some(o) => nmap_table(o),
        None => Vec::new(),
    };
    let ghost m = match nmap_out {
        Some(o) => nmap_devices(o@),
        None => Map::<Seq<char>, DeviceView>::empty(),
    };
    match neighbor_out {
        Some(o) => merge_neighbors(&mut table, o, Ghost(m)),
        None => {},
    }
    let ghost md = discovered_devices(opt_chars(nmap_out), opt_chars(neighbor_out));
    match local {
        Some(a) => remove_device(&mut table, &String::from_str(a), Ghost(md)),
        None => {},
    }
    sort_by_ip(table, Ghost(without_address(md, opt_chars(local))))
}

// ---------------------------------------------------------------------------
// Laws
// ---------------------------------------------------------------------------

/// Each device is recorded under its own address, which is non-empty and
/// holds no whitespace.
pub open spec fn keyed_by_address(m: DeviceMap) -> bool {
    forall|k: Seq<char>| #[trigger] m.contains_key(k) ==> m[k].ip == k && k.len() > 0 && no_ws(k)
}

proof fn lemma_last_word_no_ws(line: Seq<char>)
    requires
        words(line).len() > 0,
    ensures
        no_ws(words(line).last()),
        no_ws(strip_parens(words(line).last())),
        no_ws(words(line)[0]),
        words(line)[0].len() > 0,
{
    lemma_words_no_ws(line);
    lemma_words_nonempty(line);
    let w = words(line).last();
    assert(no_ws(words(line)[words(line).len() - 1]));
    lemma_trim_no_ws(w, Strip::Char('('));
    lemma_trim_no_ws(trim_by(w, Strip::Char('(')), Strip::Char(')'));
}

proof fn lemma_nmap_keyed(ls: Seq<Seq<char>>)
    ensures
        keyed_by_address(nmap_state(ls).devices),
        no_ws(nmap_state(ls).current_ip),
    decreases ls.len(),
{
    if ls.len() > 0 {
        lemma_nmap_keyed(ls.drop_last());
        if words(ls.last()).len() > 0 {
            lemma_last_word_no_ws(ls.last());
        }
    }
}

proof fn lemma_neighbor_keyed(m: DeviceMap, ls: Seq<Seq<char>>)
    requires
        keyed_by_address(m),
    ensures
        keyed_by_address(neighbor_table(m, ls)),
    decreases ls.len(),
{
    if ls.len() > 0 {
        lemma_neighbor_keyed(m, ls.drop_last());
        if words(ls.last()).len() > 0 {
            lemma_last_word_no_ws(ls.last());
        }
    }
}

/// Reading the neighbour table keeps each device already known, with its
/// name, address and vendor, and changes its MAC address only where that
/// was unknown.
pub open spec fn only_fills_in(m: DeviceMap, m1: DeviceMap) -> bool {
    forall|k: Seq<char>| #[trigger] m.contains_key(k) ==> {
        &&& m1.contains_key(k)
        &&& m1[k].hostname == m[k].hostname
        &&& m1[k].ip == m[k].ip
        &&& m1[k].vendor == m[k].vendor
        &&& (m[k].mac != UNKNOWN_MAC@ ==> m1[k].mac == m[k].mac)
    }
}

proof fn lemma_neighbor_fills_in(m: DeviceMap, ls: Seq<Seq<char>>)
    ensures
        only_fills_in(m, neighbor_table(m, ls)),
    decreases ls.len(),
{
    if ls.len() > 0 {
        lemma_neighbor_fills_in(m, ls.drop_last());
    }
}

/// Every listed device is listed under its own address, which is neither
/// empty nor holds whitespace.
pub proof fn law_devices_keyed_by_address(
    nmap_out: Option<Seq<char>>,
    neigh_out: Option<Seq<char>>,
)
    ensures
        keyed_by_address(discovered_devices(nmap_out, neigh_out)),
{
    let m = match nmap_out {
        Some(o) => nmap_devices(o),
        None => Map::<Seq<char>, DeviceView>::empty(),
    };
    match nmap_out {
        Some(o) => lemma_nmap_keyed(lines(o)),
        None => {},
    }
    match neigh_out {
        Some(o) => lemma_neighbor_keyed(m, lines(o)),
        None => {},
    }
}

/// The neighbour table adds devices and fills in unknown MAC addresses; it
/// drops no device of the nmap report and changes nothing else of it.
pub proof fn law_neighbors_only_fill_in(nmap_out: Seq<char>, neigh_out: Seq<char>)
    ensures
        only_fills_in(nmap_devices(nmap_out), discovered_devices(Some(nmap_out), Some(neigh_out))),
{
    lemma_neighbor_fills_in(nmap_devices(nmap_out), lines(neigh_out));
}

/// Line `i` of an nmap report records the current host, whose address is
/// `k`: a `MAC Address:` line of at least three words, or else a line with
/// `Host is up`, while a host is current.
pub open spec fn nmap_records(ls: Seq<Seq<char>>, i: int, k: Seq<char>) -> bool {
    &&& 0 <= i < ls.len()
    &&& !contains(ls[i], "Nmap scan report for"@)
    &&& nmap_state(ls.take(i)).current_ip == k
    &&& k.len() > 0
    &&& if contains(ls[i], "MAC Address:"@) {
        words(ls[i]).len() >= 3
    } else {
        contains(ls[i], "Host is up"@)
    }
}

/// The device that line `i` of a report records: the current host's name
/// and address, with the MAC address and vendor of a `MAC Address:` line,
/// or an unknown MAC address and no vendor.
pub open spec fn nmap_entry_at(ls: Seq<Seq<char>>, i: int) -> DeviceView {
    let st = nmap_state(ls.take(i));
    let p = words(ls[i]);
    if contains(ls[i], "MAC Address:"@) {
        DeviceView {
            hostname: st.current_hostname,
            mac: p[2],
            ip: st.current_ip,
            vendor: strip_parens(join(p.skip(3), " "@)),
        }
    } else {
        DeviceView {
            hostname: st.current_hostname,
            mac: UNKNOWN_MAC@,
            ip: st.current_ip,
            vendor: Seq::empty(),
        }
    }
}

/// Line `i` of a neighbour output names the device at address `k`.
pub open spec fn neighbor_names(ls: Seq<Seq<char>>, i: int, k: Seq<char>) -> bool {
    0 <= i < ls.len() && neighbor_usable(ls[i]) && neighbor_ip(ls[i]) == k
}

proof fn lemma_nmap_records(ls: Seq<Seq<char>>)
    ensures
        forall|k: Seq<char>| #[trigger]
            nmap_state(ls).devices.contains_key(k) <==> exists|i: int| nmap_records(ls, i, k),
        forall|k: Seq<char>| #[trigger]
            nmap_state(ls).devices.contains_key(k) ==> exists|i: int|
                nmap_records(ls, i, k) && nmap_state(ls).devices[k] == nmap_entry_at(ls, i)
                    && forall|j: int|
                    i < j && #[trigger] nmap_records(ls, j, k) ==> !contains(
                        ls[j],
                        "MAC Address:"@,
                    ),
    decreases ls.len(),
{
    if ls.len() > 0 {
        let prev = ls.drop_last();
        let last = ls.len() - 1;
        lemma_nmap_records(prev);
        assert(ls.take(last) =~= prev);
        assert(ls.last() == ls[last]);
        assert forall|i: int, k: Seq<char>| 0 <= i < last implies (#[trigger] nmap_records(
            ls,
            i,
            k,
        ) == nmap_records(prev, i, k) && nmap_entry_at(ls, i) == nmap_entry_at(prev, i)) by {
            assert(ls.take(i) =~= prev.take(i));
            assert(ls[i] == prev[i]);
        }
        let m = nmap_state(prev).devices;
        let m1 = nmap_state(ls).devices;
        assert forall|k: Seq<char>| #[trigger] m1.contains_key(k) <==> exists|i: int|
            nmap_records(ls, i, k) by {
            if m1.contains_key(k) && !nmap_records(ls, last, k) {
                let i = choose|i: int| nmap_records(prev, i, k);
                assert(nmap_records(ls, i, k));
            }
            if exists|i: int| nmap_records(ls, i, k) {
                let i = choose|i: int| nmap_records(ls, i, k);
                if i < last {
                    assert(nmap_records(prev, i, k));
                }
            }
        }
        assert forall|k: Seq<char>| #[trigger] m1.contains_key(k) implies exists|i: int|
            nmap_records(ls, i, k) && m1[k] == nmap_entry_at(ls, i) && forall|j: int|
                i < j && #[trigger] nmap_records(ls, j, k) ==> !contains(
                    ls[j],
                    "MAC Address:"@,
                ) by {
            if nmap_records(ls, last, k) && (contains(ls[last], "MAC Address:"@)
                || !m.contains_key(k)) {
                assert(m1[k] == nmap_entry_at(ls, last));
            } else {
                assert(m.contains_key(k));
                assert(m1[k] == m[k]);
                let i = choose|i: int|
                    nmap_records(prev, i, k) && m[k] == nmap_entry_at(prev, i) && forall|j: int|
                        i < j && #[trigger] nmap_records(prev, j, k) ==> !contains(
                            prev[j],
                            "MAC Address:"@,
                        );
                assert(nmap_records(ls, i, k));
                assert forall|j: int| i < j && #[trigger] nmap_records(ls, j, k) implies !contains(
                    ls[j],
                    "MAC Address:"@,
                ) by {
                    if j < last {
                        assert(nmap_records(prev, j, k));
                        assert(prev[j] == ls[j]);
                    }
                }
            }
        }
    }
}

proof fn lemma_neighbor_names(m: DeviceMap, ls: Seq<Seq<char>>)
    ensures
        forall|k: Seq<char>| #[trigger]
            neighbor_table(m, ls).contains_key(k) <==> (m.contains_key(k) || exists|i: int|
                neighbor_names(ls, i, k)),
        forall|k: Seq<char>| #[trigger]
            neighbor_table(m, ls).contains_key(k) && !m.contains_key(k) ==> neighbor_table(
                m,
                ls,
            )[k].hostname.len() == 0 && neighbor_table(m, ls)[k].vendor.len() == 0,
    decreases ls.len(),
{
    if ls.len() > 0 {
        let prev = ls.drop_last();
        let last = ls.len() - 1;
        lemma_neighbor_names(m, prev);
        assert(ls.last() == ls[last]);
        let m1 = neighbor_table(m, ls);
        assert(m1 == neighbor_step(neighbor_table(m, prev), ls[last]));
        assert forall|k: Seq<char>| #[trigger] m1.contains_key(k) <==> (m.contains_key(k)
            || exists|i: int| neighbor_names(ls, i, k)) by {
            let pt = neighbor_table(m, prev);
            if pt.contains_key(k) {
                assert(m1.contains_key(k));
            }
            if neighbor_names(ls, last, k) {
                assert(m1.contains_key(k));
            }
            if exists|i: int| neighbor_names(prev, i, k) {
                let i = choose|i: int| neighbor_names(prev, i, k);
                assert(neighbor_names(ls, i, k));
            }
            if exists|i: int| neighbor_names(ls, i, k) {
                let i = choose|i: int| neighbor_names(ls, i, k);
                if i < last {
                    assert(neighbor_names(prev, i, k));
                }
            }
            if m1.contains_key(k) && !neighbor_table(m, prev).contains_key(k) {
                assert(neighbor_names(ls, last, k));
            }
        }
        assert forall|k: Seq<char>| #[trigger] m1.contains_key(k) && !m.contains_key(k) implies
            m1[k].hostname.len() == 0 && m1[k].vendor.len() == 0 by {
            let p = neighbor_table(m, prev);
            if p.contains_key(k) {
                assert(p[k].hostname.len() == 0 && p[k].vendor.len() == 0);
            }
        }
    }
}

proof fn lemma_neighbor_untouched(m: DeviceMap, ls: Seq<Seq<char>>, k: Seq<char>)
    requires
        forall|j: int| !neighbor_names(ls, j, k),
    ensures
        neighbor_table(m, ls).contains_key(k) == m.contains_key(k),
        m.contains_key(k) ==> neighbor_table(m, ls)[k] == m[k],
    decreases ls.len(),
{
    if ls.len() > 0 {
        let prev = ls.drop_last();
        assert forall|j: int| !neighbor_names(prev, j, k) by {
            if 0 <= j < prev.len() {
                assert(prev[j] == ls[j]);
                assert(!neighbor_names(ls, j, k));
            }
        }
        lemma_neighbor_untouched(m, prev, k);
        assert(ls.last() == ls[ls.len() - 1]);
        assert(!neighbor_names(ls, ls.len() - 1, k));
    }
}

proof fn lemma_neighbor_mac(m: DeviceMap, ls: Seq<Seq<char>>, i: int, k: Seq<char>)
    requires
        !m.contains_key(k) || m[k].mac == UNKNOWN_MAC@,
        neighbor_names(ls, i, k),
        forall|j: int| 0 <= j < i ==> !neighbor_names(ls, j, k),
        neighbor_mac(ls[i]) != UNKNOWN_MAC@,
    ensures
        neighbor_table(m, ls).contains_key(k),
        neighbor_table(m, ls)[k].mac == neighbor_mac(ls[i]),
    decreases ls.len(),
{
    let prev = ls.drop_last();
    let last = ls.len() - 1;
    assert(ls.last() == ls[last]);
    if i == last {
        assert forall|j: int| !neighbor_names(prev, j, k) by {
            if 0 <= j < prev.len() {
                assert(prev[j] == ls[j]);
                assert(!neighbor_names(ls, j, k));
            }
        }
        lemma_neighbor_untouched(m, prev, k);
    } else {
        assert(prev[i] == ls[i]);
        assert forall|j: int| 0 <= j < i implies !neighbor_names(prev, j, k) by {
            assert(prev[j] == ls[j]);
            assert(!neighbor_names(ls, j, k));
        }
        lemma_neighbor_mac(m, prev, i, k);
    }
}

/// Reading the neighbour lines `a` and then `b` is reading `a + b`.
proof fn lemma_neighbor_split(m: DeviceMap, a: Seq<Seq<char>>, b: Seq<Seq<char>>)
    ensures
        neighbor_table(m, a + b) == neighbor_table(neighbor_table(m, a), b),
    decreases b.len(),
{
    if b.len() == 0 {
        assert(a + b =~= a);
    } else {
        assert((a + b).drop_last() =~= a + b.drop_last());
        assert((a + b).last() == b.last());
        lemma_neighbor_split(m, a, b.drop_last());
    }
}

/// The listed addresses are those that the nmap report records and those
/// that a usable neighbour line names, except this machine's own.
pub proof fn law_device_addresses(
    nmap_out: Seq<char>,
    neigh_out: Seq<char>,
    local: Option<Seq<char>>,
    k: Seq<char>,
)
    ensures
        without_address(discovered_devices(Some(nmap_out), Some(neigh_out)), local).contains_key(k)
            <==> (local != Some(k) && ((exists|i: int| nmap_records(lines(nmap_out), i, k))
            || (exists|i: int| neighbor_names(lines(neigh_out), i, k)))),
{
    lemma_nmap_records(lines(nmap_out));
    lemma_neighbor_names(nmap_devices(nmap_out), lines(neigh_out));
}

/// A device of the nmap report is as the last line that records it with a
/// MAC address describes it (or, where none does, the line that first
/// records it): its name is the current host's name at that line, and its
/// MAC address and vendor are those of that `MAC Address:` line, or unknown
/// and empty.
pub proof fn law_nmap_entry(nmap_out: Seq<char>, k: Seq<char>)
    requires
        nmap_devices(nmap_out).contains_key(k),
    ensures
        exists|i: int|
            nmap_records(lines(nmap_out), i, k) && nmap_devices(nmap_out)[k] == nmap_entry_at(
                lines(nmap_out),
                i,
            ) && forall|j: int|
                i < j && #[trigger] nmap_records(lines(nmap_out), j, k) ==> !contains(
                    lines(nmap_out)[j],
                    "MAC Address:"@,
                ),
{
    lemma_nmap_records(lines(nmap_out));
}

/// A device that nmap did not give a MAC address gets the one of the first
/// usable neighbour line that names it (where that is not itself the word
/// `Unknown`).
pub proof fn law_neighbor_mac(m: DeviceMap, neigh_out: Seq<char>, i: int, k: Seq<char>)
    requires
        !m.contains_key(k) || m[k].mac == UNKNOWN_MAC@,
        neighbor_names(lines(neigh_out), i, k),
        forall|j: int| 0 <= j < i ==> !neighbor_names(lines(neigh_out), j, k),
        neighbor_mac(lines(neigh_out)[i]) != UNKNOWN_MAC@,
    ensures
        neighbor_table(m, lines(neigh_out)).contains_key(k),
        neighbor_table(m, lines(neigh_out))[k].mac == neighbor_mac(lines(neigh_out)[i]),
{
    lemma_neighbor_mac(m, lines(neigh_out), i, k);
}

/// A device that only the neighbour table shows has no name and no vendor.
pub proof fn law_neighbor_only_unnamed(m: DeviceMap, neigh_out: Seq<char>, k: Seq<char>)
    requires
        neighbor_table(m, lines(neigh_out)).contains_key(k),
        !m.contains_key(k),
    ensures
        neighbor_table(m, lines(neigh_out))[k].hostname.len() == 0,
        neighbor_table(m, lines(neigh_out))[k].vendor.len() == 0,
{
    lemma_neighbor_names(m, lines(neigh_out));
}

/// A neighbour line in state `FAILED` changes nothing, wherever it stands.
pub proof fn law_failed_neighbor_line(
    m: DeviceMap,
    a: Seq<Seq<char>>,
    line: Seq<char>,
    b: Seq<Seq<char>>,
)
    requires
        words(line).len() > 0,
        words(line).last() == "FAILED"@,
    ensures
        neighbor_table(m, a + seq![line] + b) == neighbor_table(m, a + b),
{
    lemma_neighbor_split(m, a + seq![line], b);
    lemma_neighbor_split(m, a, b);
    assert((a + seq![line]).drop_last() =~= a);
    assert((a + seq![line]).last() == line);
    assert(neighbor_table(m, a + seq![line]) == neighbor_step(neighbor_table(m, a), line));
}

/// A neighbour line of the four words `<ip> lladdr <mac> <state>`, whose
/// state is not `FAILED`, records the device at `<ip>`: with the MAC address
/// `<mac>` where the device was not known or its MAC address was unknown,
/// and otherwise as it was.
pub proof fn law_four_word_neighbor_line(
    m: DeviceMap,
    line: Seq<char>,
    ip: Seq<char>,
    mac: Seq<char>,
    state: Seq<char>,
)
    requires
        words(line) == seq![ip, "lladdr"@, mac, state],
        ip != "lladdr"@,
        state != "FAILED"@,
    ensures
        neighbor_step(m, line).contains_key(ip),
        !m.contains_key(ip) || m[ip].mac == UNKNOWN_MAC@ ==> neighbor_step(m, line)[ip].mac == mac,
        !m.contains_key(ip) ==> neighbor_step(m, line)[ip].hostname.len() == 0
            && neighbor_step(m, line)[ip].vendor.len() == 0,
        m.contains_key(ip) ==> neighbor_step(m, line)[ip].hostname == m[ip].hostname
            && neighbor_step(m, line)[ip].vendor == m[ip].vendor,
        m.contains_key(ip) && m[ip].mac != UNKNOWN_MAC@ ==> neighbor_step(m, line)[ip] == m[ip],
{
    let p = words(line);
    assert(p[0] != "lladdr"@);
    assert(position_from(p, "lladdr"@, 1) == Some(1int));
    assert(position(p, "lladdr"@) == Some(1int));
    assert(p.last() == state);
    assert(neighbor_usable(line));
    assert(neighbor_ip(line) == ip);
    assert(neighbor_mac(line) == mac);
}

/// Each address that a four-word neighbour line `<ip> lladdr <mac> <state>`
/// (state not `FAILED`) names is listed, unless it is this machine's own.
pub proof fn law_four_word_neighbor_listed(
    nmap_out: Option<Seq<char>>,
    neigh_out: Seq<char>,
    local: Option<Seq<char>>,
    i: int,
    ip: Seq<char>,
    mac: Seq<char>,
    state: Seq<char>,
)
    requires
        0 <= i < lines(neigh_out).len(),
        words(lines(neigh_out)[i]) == seq![ip, "lladdr"@, mac, state],
        ip != "lladdr"@,
        state != "FAILED"@,
        local != Some(ip),
    ensures
        without_address(discovered_devices(nmap_out, Some(neigh_out)), local).contains_key(ip),
{
    law_four_word_neighbor_line(Map::empty(), lines(neigh_out)[i], ip, mac, state);
    assert(neighbor_names(lines(neigh_out), i, ip));
    let m = match nmap_out {
        Some(o) => nmap_devices(o),
        None => Map::<Seq<char>, DeviceView>::empty(),
    };
    lemma_neighbor_names(m, lines(neigh_out));
}

/// An address of dot-separated decimal parts is keyed by the numbers those
/// parts spell.
pub proof fn law_ip_key_numeric(parts: Seq<Seq<char>>)
    requires
        parts.len() > 0,
        forall|i: int|
            0 <= i < parts.len() ==> (#[trigger] parts[i]).len() > 0 && all_digits(parts[i])
                && digits_value(parts[i]) <= u32::MAX,
    ensures
        ip_key(join(parts, seq!['.'])).len() == parts.len(),
        forall|i: int|
            0 <= i < parts.len() ==> ip_key(join(parts, seq!['.']))[i] == digits_value(
                #[trigger] parts[i],
            ),
{
    assert forall|i: int| 0 <= i < parts.len() implies lacks(#[trigger] parts[i], '.') by {
        assert forall|k: int| 0 <= k < parts[i].len() implies parts[i][k] != '.' by {
            assert(is_digit(parts[i][k]));
        }
    }
    lemma_split_join(parts, '.');
    assert forall|i: int| 0 <= i < parts.len() implies ip_key(join(parts, seq!['.']))[i]
        == digits_value(#[trigger] parts[i]) by {
        law_decimal_u32(parts[i]);
    }
}

/// Keys compare by their first differing part; a key that is a proper
/// prefix of another comes first.
pub proof fn law_lex_order(a: Seq<u32>, b: Seq<u32>, i: int)
    requires
        0 <= i <= a.len(),
        i <= b.len(),
        a.take(i) == b.take(i),
    ensures
        i < a.len() && i < b.len() && a[i] < b[i] ==> lex_lt(a, b),
        i < a.len() && i < b.len() && a[i] > b[i] ==> !lex_lt(a, b),
        i == a.len() && i < b.len() ==> lex_lt(a, b),
        i == b.len() ==> !lex_lt(a, b),
    decreases i,
{
    if i > 0 {
        assert(a[0] == a.take(i)[0] && b[0] == b.take(i)[0]);
        assert(a.drop_first().take(i - 1) =~= a.take(i).drop_first());
        assert(b.drop_first().take(i - 1) =~= b.take(i).drop_first());
        law_lex_order(a.drop_first(), b.drop_first(), i - 1);
    }
}

/// Devices are listed in numeric order of their addresses: of two listed
/// devices whose keys first differ at part `i`, the one with the smaller
/// number there comes first.
pub proof fn law_listed_by_number(s: Seq<DeviceView>, x: int, y: int, i: int)
    requires
        sorted_by_ip(s),
        0 <= x < s.len(),
        0 <= y < s.len(),
        0 <= i < ip_key(s[x].ip).len(),
        i < ip_key(s[y].ip).len(),
        ip_key(s[x].ip).take(i) == ip_key(s[y].ip).take(i),
        ip_key(s[x].ip)[i] < ip_key(s[y].ip)[i],
    ensures
        x < y,
{
    law_lex_order(ip_key(s[x].ip), ip_key(s[y].ip), i);
    if y < x {
        assert(!lex_lt(ip_key(s[x].ip), ip_key(s[y].ip)));
    } else if y == x {
        lemma_lex_irreflexive(ip_key(s[x].ip));
    }
}

/// A report line `Nmap scan report for <name words> (<ip>)` makes `<ip>`
/// the current host, named by its name words joined with spaces; a line
/// `Nmap scan report for <ip>` makes `<ip>` current without a name. The
/// devices found so far stay as they were.
pub proof fn law_report_line(st: NmapState, line: Seq<char>, names: Seq<Seq<char>>, last: Seq<char>)
    requires
        contains(line, "Nmap scan report for"@),
        words(line) == seq!["Nmap"@, "scan"@, "report"@, "for"@] + names + seq![last],
        last.len() > 0,
    ensures
        nmap_step(st, line).devices == st.devices,
        names.len() > 0 && last[0] == '(' && last.last() == ')' ==> nmap_step(st, line).current_ip
            == strip_parens(last) && nmap_step(st, line).current_hostname == join(names, " "@),
        names.len() == 0 && !(last[0] == '(' && last.last() == ')') ==> nmap_step(
            st,
            line,
        ).current_ip == last && nmap_step(st, line).current_hostname.len() == 0,
{
    let p = words(line);
    assert(p.last() == last);
    assert(p.subrange(4, p.len() - 1) =~= names);
}

/// While a host is current, a `MAC Address: <mac> <vendor words>` line
/// records it with that MAC address and the vendor words joined by spaces
/// with the enclosing parentheses removed, and ends it; a `Host is up` line
/// records it with an unknown MAC address where it is not recorded yet.
pub proof fn law_host_lines(st: NmapState, line: Seq<char>)
    requires
        st.current_ip.len() > 0,
        !contains(line, "Nmap scan report for"@),
    ensures
        contains(line, "MAC Address:"@) && words(line).len() >= 3 ==> {
            let st1 = nmap_step(st, line);
            &&& st1.devices == st.devices.insert(
                st.current_ip,
                DeviceView {
                    hostname: st.current_hostname,
                    mac: words(line)[2],
                    ip: st.current_ip,
                    vendor: strip_parens(join(words(line).skip(3), " "@)),
                },
            )
            &&& st1.current_ip.len() == 0
        },
        !contains(line, "MAC Address:"@) && contains(line, "Host is up"@) ==> {
            let st1 = nmap_step(st, line);
            &&& st1.devices.contains_key(st.current_ip)
            &&& !st.devices.contains_key(st.current_ip) ==> st1.devices[st.current_ip]
                == DeviceView {
                hostname: st.current_hostname,
                mac: UNKNOWN_MAC@,
                ip: st.current_ip,
                vendor: Seq::empty(),
            }
            &&& st.devices.contains_key(st.current_ip) ==> st1.devices == st.devices
            &&& st1.current_ip == st.current_ip
        },
{
}

} // verus!
