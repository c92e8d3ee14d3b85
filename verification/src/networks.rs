//! The list of visible Wi-Fi networks, read from the terse output of
//! `nmcli -t -f SSID,SIGNAL,SECURITY,IN-USE,CHAN dev wifi list`.
//!
//! One line per access point; several access points may share an SSID. The
//! list keeps one entry per SSID (the one in use, else the strongest) and
//! puts the network in use first, then the others by falling signal.
use vstd::prelude::*;

use crate::tables::{distinct_keys, drawn_from, holds_all, lemma_insert_tracks};

use crate::numbers::{all_digits, digits_value, law_decimal_i32, parse_i32, parse_i32_spec};
use crate::text::{
    contains, join, lacks, lemma_join_lacks, lemma_lacks_not_contains, lemma_replace_absent,
    lemma_split_join, chars_eq_str, lines, lines_of, replace, replace_exec, split, split_chars, string_from_chars,
    to_chars, trim, trim_ws, views,
};

verus! {

/// How `nmcli` writes a colon inside a field of its terse output.
pub const ESCAPED_COLON: &'static str = "\\:";

/// What an escaped colon stands for while a line is cut into fields.
pub const COLON_PLACEHOLDER: &'static str = "___COLON___";

/// The SSID shown for a network that does not broadcast one.
pub const HIDDEN_SSID: &'static str = "<Hidden>";

/// One visible network.
#[derive(Debug, Clone)]
pub struct InternalNetwork {
    pub ssid: String,
    pub signal: i32,
    pub security: String,
    pub in_use: bool,
    pub channel: String,
}

/// The value of an [`InternalNetwork`].
pub struct NetworkView {
    pub ssid: Seq<char>,
    pub signal: i32,
    pub security: Seq<char>,
    pub in_use: bool,
    pub channel: Seq<char>,
}

impl View for InternalNetwork {
    type V = NetworkView;

    open spec fn view(&self) -> NetworkView {
        NetworkView {
            ssid: self.ssid@,
            signal: self.signal,
            security: self.security@,
            in_use: self.in_use,
            channel: self.channel@,
        }
    }
}

/// The values of a sequence of networks.
pub open spec fn net_views(v: Seq<InternalNetwork>) -> Seq<NetworkView> {
    v.map_values(|n: InternalNetwork| n@)
}

// ---------------------------------------------------------------------------
// Specification
// ---------------------------------------------------------------------------

/// The fields of one line: split at the colons that are not escaped, with
/// each escaped colon read as a colon.
pub open spec fn line_fields(line: Seq<char>) -> Seq<Seq<char>> {
    split(replace(line, ESCAPED_COLON@, COLON_PLACEHOLDER@), ':').map_values(
        |p: Seq<char>| replace(p, COLON_PLACEHOLDER@, ":"@),
    )
}

/// The network that one line describes; `None` for a line of fewer than five
/// fields. An empty SSID is shown as [`HIDDEN_SSID`], an unreadable signal
/// as 0, and the network is in use where its IN-USE field is `*`.
pub open spec fn parse_network_line(line: Seq<char>) -> Option<NetworkView> {
    let f = line_fields(line);
    if f.len() >= 5 {
        Some(
            NetworkView {
                ssid: if f[0].len() == 0 {
                    HIDDEN_SSID@
                } else {
                    f[0]
                },
                signal: match parse_i32_spec(f[1]) {
                    Some(v) => v,
                    None => 0,
                },
                security: f[2],
                in_use: trim(f[3]) == "*"@,
                channel: f[4],
            },
        )
    } else {
        None
    }
}

/// Whether `new` takes the place of `old`, an entry of the same SSID: a
/// network in use always does; otherwise a stronger one does, unless `old`
/// is in use.
pub open spec fn replaces(new: NetworkView, old: NetworkView) -> bool {
    new.in_use || (!old.in_use && old.signal < new.signal)
}

/// The table after one more network is read.
pub open spec fn merge_network(
    m: Map<Seq<char>, NetworkView>,
    net: NetworkView,
) -> Map<Seq<char>, NetworkView> {
    if m.contains_key(net.ssid) {
        if replaces(net, m[net.ssid]) {
            m.insert(net.ssid, net)
        } else {
            m
        }
    } else {
        m.insert(net.ssid, net)
    }
}

/// The table of networks by SSID after reading the lines `ls`.
pub open spec fn network_table(ls: Seq<Seq<char>>) -> Map<Seq<char>, NetworkView>
    decreases ls.len(),
{
    if ls.len() == 0 {
        Map::empty()
    } else {
        let m = network_table(ls.drop_last());
        match parse_network_line(ls.last()) {
            Some(net) => merge_network(m, net),
            None => m,
        }
    }
}

/// The table of networks by SSID that a scan's output describes.
pub open spec fn scanned_networks(out: Seq<char>) -> Map<Seq<char>, NetworkView> {
    network_table(lines(out))
}

/// The key the list is ordered by, largest first: the network in use before
/// the others, then by signal.
pub open spec fn rank(n: NetworkView) -> int {
    (if n.in_use {
        0x1_0000_0000int
    } else {
        0int
    }) + n.signal as int
}

/// `s` is ordered by falling rank.
pub open spec fn sorted_by_rank(s: Seq<NetworkView>) -> bool {
    forall|i: int, j: int| 0 <= i < j < s.len() ==> rank(s[i]) >= rank(s[j])
}

/// No two entries of `s` share an SSID.
pub open spec fn distinct_ssids(s: Seq<NetworkView>) -> bool {
    forall|i: int, j: int| 0 <= i < s.len() && 0 <= j < s.len() && i != j ==> s[i].ssid != s[j].ssid
}

/// `s` lists exactly the entries of `m`, each once.
pub open spec fn lists_table(s: Seq<NetworkView>, m: Map<Seq<char>, NetworkView>) -> bool {
    &&& distinct_ssids(s)
    &&& forall|i: int| 0 <= i < s.len() ==> #[trigger] m.contains_key(s[i].ssid) && m[s[i].ssid] == s[i]
    &&& forall|k: Seq<char>| #[trigger] m.contains_key(k) ==> exists|i: int| 0 <= i < s.len() && s[i].ssid == k
}

// ---------------------------------------------------------------------------
// Implementation
// ---------------------------------------------------------------------------

fn copy_network(n: &InternalNetwork) -> (r: InternalNetwork)
    ensures
        r@ == n@,
{
    InternalNetwork {
        ssid: n.ssid.clone(),
        signal: n.signal,
        security: n.security.clone(),
        in_use: n.in_use,
        channel: n.channel.clone(),
    }
}

/// The fields of one line of terse `nmcli` output.
pub fn line_fields_exec(line: &Vec<char>) -> (f: Vec<Vec<char>>)
    ensures
        views(f@) == line_fields(line@),
{
    let esc = to_chars(ESCAPED_COLON);
    let ph = to_chars(COLON_PLACEHOLDER);
    let colon = to_chars(":");
    proof {
        reveal_strlit("\\:");
        reveal_strlit("___COLON___");
    }
    let escaped = replace_exec(line, &esc, &ph);
    let parts = split_chars(&escaped, ':');
    let ghost ps = views(parts@);
    let mut f: Vec<Vec<char>> = Vec::new();
    let mut i: usize = 0;
    while i < parts.len()
        invariant
            0 <= i <= parts.len(),
            ps == views(parts@),
            ph@ == COLON_PLACEHOLDER@,
            ph@.len() > 0,
            colon@ == ":"@,
            views(f@) =~= ps.take(i as int).map_values(
                |p: Seq<char>| replace(p, COLON_PLACEHOLDER@, ":"@),
            ),
        decreases parts.len() - i,
    {
        let r = replace_exec(&parts[i], &ph, &colon);
        let ghost prev = views(f@);
        f.push(r);
        assert(views(f@) =~= prev.push(replace(ps[i as int], COLON_PLACEHOLDER@, ":"@)));
        assert(ps.take(i + 1).map_values(|p: Seq<char>| replace(p, COLON_PLACEHOLDER@, ":"@))
            =~= ps.take(i as int).map_values(
            |p: Seq<char>| replace(p, COLON_PLACEHOLDER@, ":"@),
        ).push(replace(ps[i as int], COLON_PLACEHOLDER@, ":"@)));
        i += 1;
    }
    assert(ps.take(parts.len() as int) =~= ps);
    f
}

/// The network that one line of terse `nmcli` output describes.
pub fn parse_network_line_exec(line: &Vec<char>) -> (r: Option<InternalNetwork>)
    ensures
        r matches Some(n) ==> parse_network_line(line@) == Some(n@),
        r is None ==> parse_network_line(line@) is None,
{
    let f = line_fields_exec(line);
    if f.len() < 5 {
        return None;
    }
    let ssid = if f[0].len() == 0 {
        String::from_str(HIDDEN_SSID)
    } else {
        string_from_chars(&f[0])
    };
    let signal = match parse_i32(&f[1]) {
        Some(v) => v,
        None => 0,
    };
    let flag = trim_ws(&f[3]);
    let in_use = chars_eq_str(&flag, "*");
    let net = InternalNetwork {
        ssid,
        signal,
        security: string_from_chars(&f[2]),
        in_use,
        channel: string_from_chars(&f[4]),
    };
    Some(net)
}

/// The rank of a network, computed.
fn rank_exec(n: &InternalNetwork) -> (r: i64)
    ensures
        r as int == rank(n@),
{
    let base: i64 = if n.in_use {
        0x1_0000_0000
    } else {
        0
    };
    base + n.signal as i64
}

/// Reads one more network into `table`.
#[verifier::spinoff_prover]
fn merge_into(table: &mut Vec<InternalNetwork>, net: InternalNetwork, m: Ghost<Map<Seq<char>, NetworkView>>)
    requires
        lists_table(net_views(old(table)@), m@),
    ensures
        lists_table(net_views(final(table)@), merge_network(m@, net@)),
{
    let ghost t0 = net_views(table@);
    let mut j: usize = 0;
    while j < table.len()
        invariant
            0 <= j <= table.len(),
            t0 == net_views(table@),
            forall|k: int| 0 <= k < j ==> t0[k].ssid != net@.ssid,
        ensures
            0 <= j <= table.len(),
            t0 == net_views(table@),
            forall|k: int| 0 <= k < j ==> t0[k].ssid != net@.ssid,
            j < table.len() ==> t0[j as int].ssid == net@.ssid,
        decreases table.len() - j,
    {
        if table[j].ssid == net.ssid {
            break;
        }
        j += 1;
    }
    if j == table.len() {
        assert(!m@.contains_key(net@.ssid));
        table.push(net);
        let ghost t1 = net_views(table@);
        assert(t1 =~= t0.push(net@));
        let ghost m1 = merge_network(m@, net@);
        assert(m1 == m@.insert(net@.ssid, net@));
        assert forall|k: Seq<char>| #[trigger] m1.contains_key(k) implies exists|i: int|
            0 <= i < t1.len() && t1[i].ssid == k by {
            if k == net@.ssid {
                assert(t1[t1.len() - 1].ssid == k);
            } else {
                assert(m@.contains_key(k));
                let i = choose|i: int| 0 <= i < t0.len() && t0[i].ssid == k;
                assert(t1[i].ssid == k);
            }
        }
        assert(lists_table(t1, m1));
    } else {
        assert(t0[j as int].ssid == net@.ssid);
        assert(lists_table(t0, m@));
        assert(0 <= j < t0.len());
        assert(m@.contains_key(t0[j as int].ssid) && m@[t0[j as int].ssid] == t0[j as int]) by {
            assert(0 <= j < t0.len());
        }
        let current = &table[j];
        let replace_it = net.in_use || (!current.in_use && current.signal
            < net.signal);
        if replace_it {
            table.set(j, net);
            let ghost t1 = net_views(table@);
            assert(t1 =~= t0.update(j as int, net@));
            let ghost m1 = merge_network(m@, net@);
            assert(m1 == m@.insert(net@.ssid, net@));
            assert forall|k: Seq<char>| #[trigger] m1.contains_key(k) implies exists|i: int|
                0 <= i < t1.len() && t1[i].ssid == k by {
                if k == net@.ssid {
                    assert(t1[j as int].ssid == k);
                } else {
                    let i = choose|i: int| 0 <= i < t0.len() && t0[i].ssid == k;
                    assert(t1[i].ssid == k);
                }
            }
            assert forall|i: int| 0 <= i < t1.len() implies #[trigger] m1.contains_key(
                t1[i].ssid,
            ) && m1[t1[i].ssid] == t1[i] by {
                if i != j {
                    assert(t0[i].ssid != t0[j as int].ssid);
                }
            }
            assert(lists_table(t1, m1));
        }
    }
}

/// Inserts `net` into the list `res`, ordered by falling rank, after the
/// entries of the same rank.
fn insert_by_rank(res: &mut Vec<InternalNetwork>, net: InternalNetwork)
    requires
        sorted_by_rank(net_views(old(res)@)),
    ensures
        sorted_by_rank(net_views(final(res)@)),
        exists|p: int| 0 <= p <= old(res)@.len() && net_views(final(res)@) == net_views(
            old(res)@,
        ).insert(p, net@),
{
    let r = rank_exec(&net);
    let ghost s0 = net_views(res@);
    let mut p: usize = 0;
    while p < res.len() && rank_exec(&res[p]) >= r
        invariant
            0 <= p <= res.len(),
            s0 == net_views(res@),
            r == rank(net@),
            forall|k: int| 0 <= k < p ==> rank(#[trigger] s0[k]) >= r,
        decreases res.len() - p,
    {
        p += 1;
    }
    res.insert(p, net);
    let ghost s1 = net_views(res@);
    assert(s1 =~= s0.insert(p as int, net@));
    assert(p < s0.len() ==> rank(s0[p as int]) < r);
    assert forall|i: int, j: int| 0 <= i < j < s1.len() implies rank(s1[i]) >= rank(s1[j]) by {
        if j < p {
        } else if j == p {
        } else if i < p {
        } else if i == p {
            assert(rank(s0[p as int]) >= rank(s0[j - 1]) || j - 1 == p);
        } else {
            assert(s1[i] == s0[i - 1] && s1[j] == s0[j - 1]);
        }
    }
}

/// Orders a table by falling rank.
fn sort_by_rank(table: Vec<InternalNetwork>, m: Ghost<Map<Seq<char>, NetworkView>>) -> (res: Vec<
    InternalNetwork,
>)
    requires
        lists_table(net_views(table@), m@),
    ensures
        lists_table(net_views(res@), m@),
        sorted_by_rank(net_views(res@)),
{
    let ghost t = net_views(table@);
    let mut res: Vec<InternalNetwork> = Vec::new();
    let mut i: usize = 0;
    while i < table.len()
        invariant
            0 <= i <= table.len(),
            t == net_views(table@),
            lists_table(t, m@),
            sorted_by_rank(net_views(res@)),
            net_views(res@).len() == i,
            distinct_ssids(net_views(res@)),
            drawn_from(net_views(res@), t, i as int),
            holds_all(net_views(res@), t, i as int),
        decreases table.len() - i,
    {
        let ghost s0 = net_views(res@);
        let net = copy_network(&table[i]);
        insert_by_rank(&mut res, net);
        let ghost s1 = net_views(res@);
        proof {
            let p = choose|p: int| 0 <= p <= s0.len() && s1 == s0.insert(p, t[i as int]);
            assert(distinct_ssids(s0) == distinct_keys(s0, |n: NetworkView| n.ssid));
            assert(distinct_ssids(t) == distinct_keys(t, |n: NetworkView| n.ssid));
            lemma_insert_tracks(s0, t, i as int, p, |n: NetworkView| n.ssid);
            assert(distinct_ssids(s1) == distinct_keys(s1, |n: NetworkView| n.ssid));
        }
        i += 1;
    }
    let ghost s = net_views(res@);
    assert forall|a: int| 0 <= a < s.len() implies #[trigger] m@.contains_key(s[a].ssid)
        && m@[s[a].ssid] == s[a] by {
        let b = choose|b: int| 0 <= b < t.len() && s[a] == t[b];
        assert(m@.contains_key(t[b].ssid));
    }
    assert forall|k: Seq<char>| #[trigger] m@.contains_key(k) implies exists|a: int|
        0 <= a < s.len() && s[a].ssid == k by {
        let b = choose|b: int| 0 <= b < t.len() && t[b].ssid == k;
        let a = choose|a: int| 0 <= a < s.len() && s[a] == t[b];
        assert(s[a].ssid == k);
    }
    res
}

/// The networks that a scan's output describes: one per SSID, the one in use
/// first, then the others by falling signal.
pub fn parse_networks(stdout: &str) -> (res: Vec<InternalNetwork>)
    ensures
        lists_table(net_views(res@), scanned_networks(stdout@)),
        sorted_by_rank(net_views(res@)),
{
    let text = to_chars(stdout);
    let ls = lines_of(&text);
    let ghost lv = views(ls@);
    let mut table: Vec<InternalNetwork> = Vec::new();
    let mut i: usize = 0;
    assert(lv.take(0) =~= Seq::<Seq<char>>::empty());
    while i < ls.len()
        invariant
            0 <= i <= ls.len(),
            lv == views(ls@),
            lv == lines(stdout@),
            lists_table(net_views(table@), network_table(lv.take(i as int))),
        decreases ls.len() - i,
    {
        let ghost m = network_table(lv.take(i as int));
        assert(lv.take(i + 1).drop_last() =~= lv.take(i as int));
        assert(lv.take(i + 1).last() == ls@[i as int]@);
        match parse_network_line_exec(&ls[i]) {
            Some(net) => {
                merge_into(&mut table, net, Ghost(m));
            },
            None => {},
        }
        i += 1;
    }
    assert(lv.take(ls.len() as int) =~= lv);
    sort_by_rank(table, Ghost(scanned_networks(stdout@)))
}


// ---------------------------------------------------------------------------
// Laws
// ---------------------------------------------------------------------------

/// The network that line `i` of `ls` describes, and that it has SSID `k`.
pub open spec fn line_names(ls: Seq<Seq<char>>, i: int, k: Seq<char>) -> bool {
    0 <= i < ls.len() && (parse_network_line(ls[i]) matches Some(n) && n.ssid == k)
}

proof fn lemma_parsed_ssid_nonempty(line: Seq<char>)
    ensures
        parse_network_line(line) matches Some(n) ==> n.ssid.len() > 0,
{
    reveal_strlit("<Hidden>");
}

proof fn lemma_network_table(ls: Seq<Seq<char>>)
    ensures
        forall|k: Seq<char>| #[trigger]
            network_table(ls).contains_key(k) <==> exists|i: int| line_names(ls, i, k),
        forall|k: Seq<char>| #[trigger]
            network_table(ls).contains_key(k) ==> network_table(ls)[k].ssid == k && k.len() > 0,
        forall|k: Seq<char>| #[trigger]
            network_table(ls).contains_key(k) ==> exists|i: int|
                0 <= i < ls.len() && parse_network_line(ls[i]) == Some(network_table(ls)[k]),
        forall|i: int, k: Seq<char>|
            #[trigger] line_names(ls, i, k) && parse_network_line(ls[i])->0.in_use
                ==> network_table(ls)[k].in_use,
        forall|i: int, k: Seq<char>|
            #[trigger] line_names(ls, i, k) && !network_table(ls)[k].in_use
                ==> parse_network_line(ls[i])->0.signal <= network_table(ls)[k].signal,
    decreases ls.len(),
{
    if ls.len() > 0 {
        let prev = ls.drop_last();
        lemma_network_table(prev);
        let m = network_table(prev);
        let m1 = network_table(ls);
        let last = ls.len() - 1;
        assert forall|i: int, k: Seq<char>| 0 <= i < last implies #[trigger] line_names(ls, i, k)
            == line_names(prev, i, k) by {
            assert(ls[i] == prev[i]);
        }
        lemma_parsed_ssid_nonempty(ls[last]);
        match parse_network_line(ls[last]) {
            None => {
                assert forall|k: Seq<char>| #[trigger]
                    m1.contains_key(k) <==> exists|i: int| line_names(ls, i, k) by {
                    if m1.contains_key(k) {
                        let i = choose|i: int| line_names(prev, i, k);
                        assert(line_names(ls, i, k));
                    }
                    if exists|i: int| line_names(ls, i, k) {
                        let i = choose|i: int| line_names(ls, i, k);
                        assert(i != last);
                        assert(line_names(prev, i, k));
                    }
                }
                assert forall|k: Seq<char>| #[trigger] m1.contains_key(k) implies exists|i: int|
                    0 <= i < ls.len() && parse_network_line(ls[i]) == Some(m1[k]) by {
                    let i = choose|i: int|
                        0 <= i < prev.len() && parse_network_line(prev[i]) == Some(m[k]);
                    assert(ls[i] == prev[i]);
                }
                assert forall|i: int, k: Seq<char>| #[trigger] line_names(ls, i, k) implies (
                parse_network_line(ls[i])->0.in_use ==> m1[k].in_use) && (!m1[k].in_use
                    ==> parse_network_line(ls[i])->0.signal <= m1[k].signal) by {
                    assert(i != last);
                    assert(line_names(prev, i, k));
                    assert(ls[i] == prev[i]);
                }
            },
            Some(net) => {
                assert(line_names(ls, last, net.ssid));
                assert forall|k: Seq<char>| #[trigger]
                    m1.contains_key(k) <==> exists|i: int| line_names(ls, i, k) by {
                    if k != net.ssid {
                        if m1.contains_key(k) {
                            let i = choose|i: int| line_names(prev, i, k);
                            assert(line_names(ls, i, k));
                        }
                        if exists|i: int| line_names(ls, i, k) {
                            let i = choose|i: int| line_names(ls, i, k);
                            assert(i != last);
                            assert(line_names(prev, i, k));
                        }
                    }
                }
                assert forall|k: Seq<char>| #[trigger] m1.contains_key(k) implies exists|i: int|
                    0 <= i < ls.len() && parse_network_line(ls[i]) == Some(m1[k]) by {
                    if m1[k] == net {
                    } else {
                        let i = choose|i: int|
                            0 <= i < prev.len() && parse_network_line(prev[i]) == Some(m[k]);
                        assert(ls[i] == prev[i]);
                    }
                }
                assert forall|i: int, k: Seq<char>| #[trigger] line_names(ls, i, k) implies (
                parse_network_line(ls[i])->0.in_use ==> m1[k].in_use) && (!m1[k].in_use
                    ==> parse_network_line(ls[i])->0.signal <= m1[k].signal) by {
                    if i != last {
                        assert(line_names(prev, i, k));
                        assert(ls[i] == prev[i]);
                    }
                }
            },
        }
    }
}

/// Each SSID that some line of the output names is listed, and only those.
pub proof fn law_listed_iff_named(out: Seq<char>, k: Seq<char>)
    ensures
        scanned_networks(out).contains_key(k) <==> exists|i: int| line_names(lines(out), i, k),
{
    lemma_network_table(lines(out));
}

/// Every listed network has a non-empty SSID, the key it is listed under,
/// and is what one of the lines describes.
pub proof fn law_listed_entries(out: Seq<char>, k: Seq<char>)
    requires
        scanned_networks(out).contains_key(k),
    ensures
        scanned_networks(out)[k].ssid == k,
        k.len() > 0,
        exists|i: int|
            0 <= i < lines(out).len() && parse_network_line(lines(out)[i]) == Some(
                scanned_networks(out)[k],
            ),
{
    lemma_network_table(lines(out));
}

/// In a list ordered by rank, every network in use comes before every
/// network not in use, and networks alike in that come by falling signal.
pub proof fn law_rank_order(s: Seq<NetworkView>, i: int, j: int)
    requires
        sorted_by_rank(s),
        0 <= i < j < s.len(),
    ensures
        s[j].in_use ==> s[i].in_use,
        s[i].in_use == s[j].in_use ==> s[i].signal >= s[j].signal,
{
}

/// Looking a listed SSID up in a list of the table finds that SSID's entry,
/// and an SSID is found exactly where the table holds it.
pub proof fn law_lookup_matches_table(s: Seq<NetworkView>, m: Map<Seq<char>, NetworkView>, k: Seq<char>)
    requires
        lists_table(s, m),
    ensures
        (exists|i: int| 0 <= i < s.len() && s[i].ssid == k) <==> m.contains_key(k),
        forall|i: int| 0 <= i < s.len() && s[i].ssid == k ==> s[i] == m[k],
{
    assert forall|i: int| 0 <= i < s.len() && s[i].ssid == k implies s[i] == m[k] by {
        assert(m.contains_key(s[i].ssid));
    }
    if exists|i: int| 0 <= i < s.len() && s[i].ssid == k {
        let i = choose|i: int| 0 <= i < s.len() && s[i].ssid == k;
        assert(m.contains_key(s[i].ssid));
    }
}

/// A network that some line shows in use is listed as in use.
pub proof fn law_in_use_wins(out: Seq<char>, i: int, k: Seq<char>)
    requires
        line_names(lines(out), i, k),
        parse_network_line(lines(out)[i])->0.in_use,
    ensures
        scanned_networks(out)[k].in_use,
{
    lemma_network_table(lines(out));
}

/// Where no line shows a network in use, it is listed with the strongest
/// signal among its lines.
pub proof fn law_strongest_wins(out: Seq<char>, i: int, k: Seq<char>)
    requires
        line_names(lines(out), i, k),
        !scanned_networks(out)[k].in_use,
    ensures
        parse_network_line(lines(out)[i])->0.signal <= scanned_networks(out)[k].signal,
{
    lemma_network_table(lines(out));
}

/// Line `i` of `ls` shows the network `k` in use.
pub open spec fn line_in_use(ls: Seq<Seq<char>>, i: int, k: Seq<char>) -> bool {
    line_names(ls, i, k) && parse_network_line(ls[i])->0.in_use
}

/// The signal that line `i` of `ls` gives.
pub open spec fn line_signal(ls: Seq<Seq<char>>, i: int) -> i32 {
    parse_network_line(ls[i])->0.signal
}

proof fn lemma_kept_in_use(ls: Seq<Seq<char>>, i: int, k: Seq<char>)
    requires
        line_in_use(ls, i, k),
        forall|j: int| i < j < ls.len() ==> !line_in_use(ls, j, k),
    ensures
        network_table(ls).contains_key(k),
        network_table(ls)[k] == parse_network_line(ls[i])->0,
    decreases ls.len(),
{
    let prev = ls.drop_last();
    let last = ls.len() - 1;
    lemma_network_table(ls);
    assert(line_names(ls, i, k));
    if i < last {
        assert(prev[i] == ls[i]);
        assert forall|j: int| i < j < prev.len() implies !line_in_use(prev, j, k) by {
            assert(prev[j] == ls[j]);
            assert(!line_in_use(ls, j, k));
        }
        lemma_kept_in_use(prev, i, k);
    }
    lemma_table_step(ls);
    if i < last {
        let m = network_table(prev);
        match parse_network_line(ls[last]) {
            Some(n) => {
                if n.ssid == k {
                    assert(!line_in_use(ls, last, k));
                    assert(!replaces(n, m[k]));
                }
            },
            None => {},
        }
    }
}

/// The table after the last line, in terms of the table before it.
proof fn lemma_table_step(ls: Seq<Seq<char>>)
    requires
        ls.len() > 0,
    ensures
        network_table(ls) == (match parse_network_line(ls[ls.len() - 1]) {
            Some(net) => merge_network(network_table(ls.drop_last()), net),
            None => network_table(ls.drop_last()),
        }),
{
    assert(ls.last() == ls[ls.len() - 1]);
}

proof fn lemma_kept_strongest(ls: Seq<Seq<char>>, i: int, k: Seq<char>)
    requires
        line_names(ls, i, k),
        forall|j: int| 0 <= j < ls.len() ==> !line_in_use(ls, j, k),
        forall|j: int| #[trigger] line_names(ls, j, k) ==> line_signal(ls, j) <= line_signal(ls, i),
        forall|j: int| 0 <= j < i && #[trigger] line_names(ls, j, k) ==> line_signal(ls, j)
            < line_signal(ls, i),
    ensures
        network_table(ls).contains_key(k),
        network_table(ls)[k] == parse_network_line(ls[i])->0,
    decreases ls.len(),
{
    let prev = ls.drop_last();
    let last = ls.len() - 1;
    lemma_network_table(ls);
    lemma_network_table(prev);
    assert forall|j: int, kk: Seq<char>| 0 <= j < last implies #[trigger] line_names(ls, j, kk)
        == line_names(prev, j, kk) by {
        assert(ls[j] == prev[j]);
    }
    if i < last {
        assert(prev[i] == ls[i]);
        assert forall|j: int| 0 <= j < prev.len() implies !line_in_use(prev, j, k) by {
            assert(prev[j] == ls[j]);
            assert(!line_in_use(ls, j, k));
        }
        assert forall|j: int| #[trigger] line_names(prev, j, k) implies line_signal(prev, j)
            <= line_signal(prev, i) by {
            assert(prev[j] == ls[j]);
            assert(line_names(ls, j, k));
        }
        assert forall|j: int| 0 <= j < i && #[trigger] line_names(prev, j, k) implies line_signal(
            prev,
            j,
        ) < line_signal(prev, i) by {
            assert(prev[j] == ls[j]);
            assert(line_names(ls, j, k));
        }
        lemma_kept_strongest(prev, i, k);
        if line_names(ls, last, k) {
            assert(line_signal(ls, last) <= line_signal(ls, i));
            assert(!line_in_use(ls, last, k));
        }
        let m = network_table(prev);
        lemma_table_step(ls);
        match parse_network_line(ls[last]) {
            Some(n) => {
                if n.ssid == k {
                    assert(line_names(ls, last, k));
                    assert(line_signal(ls, last) <= line_signal(ls, i));
                    assert(!line_in_use(ls, last, k));
                    assert(m[k] == parse_network_line(ls[i])->0);
                    assert(!replaces(n, m[k]));
                }
            },
            None => {},
        }
    } else {
        let m = network_table(prev);
        lemma_table_step(ls);
        if m.contains_key(k) {
            let j = choose|j: int|
                0 <= j < prev.len() && parse_network_line(prev[j]) == Some(m[k]);
            assert(m[k].ssid == k);
            assert(prev[j] == ls[j]);
            assert(line_names(ls, j, k));
            assert(line_signal(ls, j) < line_signal(ls, i));
            assert(!line_in_use(ls, j, k));
            assert(replaces(parse_network_line(ls[i])->0, m[k]));
        }
    }
}

/// Where some line shows a network in use, it is listed as the last such
/// line describes it.
pub proof fn law_last_in_use_kept(out: Seq<char>, i: int, k: Seq<char>)
    requires
        line_in_use(lines(out), i, k),
        forall|j: int| i < j < lines(out).len() ==> !line_in_use(lines(out), j, k),
    ensures
        scanned_networks(out).contains_key(k),
        scanned_networks(out)[k] == parse_network_line(lines(out)[i])->0,
{
    lemma_kept_in_use(lines(out), i, k);
}

/// Where no line shows a network in use, it is listed as the first of its
/// lines with the strongest signal describes it.
pub proof fn law_first_strongest_kept(out: Seq<char>, i: int, k: Seq<char>)
    requires
        line_names(lines(out), i, k),
        forall|j: int| 0 <= j < lines(out).len() ==> !line_in_use(lines(out), j, k),
        forall|j: int| #[trigger] line_names(lines(out), j, k) ==> line_signal(lines(out), j)
            <= line_signal(lines(out), i),
        forall|j: int| 0 <= j < i && #[trigger] line_names(lines(out), j, k) ==> line_signal(
            lines(out),
            j,
        ) < line_signal(lines(out), i),
    ensures
        scanned_networks(out).contains_key(k),
        scanned_networks(out)[k] == parse_network_line(lines(out)[i])->0,
{
    lemma_kept_strongest(lines(out), i, k);
}

/// A field that reads as itself: it holds no colon, no backslash and not the
/// placeholder text.
pub open spec fn plain_field(f: Seq<char>) -> bool {
    lacks(f, ':') && lacks(f, '\\') && !contains(f, COLON_PLACEHOLDER@)
}

/// A line made of plain fields joined by colons describes the network those
/// fields give: the SSID (or [`HIDDEN_SSID`] for an empty one), the signal
/// the second field reads as (0 only where it reads as no `i32`), the
/// security, whether the fourth field is `*` give or take whitespace, and
/// the channel; a line of fewer than five fields describes none.
pub proof fn law_plain_line(fields: Seq<Seq<char>>)
    requires
        fields.len() > 0,
        forall|i: int| 0 <= i < fields.len() ==> plain_field(#[trigger] fields[i]),
    ensures
        fields.len() < 5 ==> parse_network_line(join(fields, seq![':'])) is None,
        fields.len() >= 5 ==> ({
            let r = parse_network_line(join(fields, seq![':']));
            &&& r is Some
            &&& fields[0].len() > 0 ==> r->0.ssid == fields[0]
            &&& fields[0].len() == 0 ==> r->0.ssid == HIDDEN_SSID@
            &&& (parse_i32_spec(fields[1]) matches Some(n) ==> r->0.signal == n)
            &&& (parse_i32_spec(fields[1]) is None ==> r->0.signal == 0)
            &&& (fields[1].len() > 0 && all_digits(fields[1]) && digits_value(fields[1])
                <= i32::MAX ==> r->0.signal == digits_value(fields[1]))
            &&& r->0.security == fields[2]
            &&& r->0.in_use == (trim(fields[3]) == "*"@)
            &&& r->0.channel == fields[4]
        }),
{
    reveal_strlit("\\:");
    reveal_strlit("___COLON___");
    let line = join(fields, seq![':']);
    assert(lacks(seq![':'], '\\'));
    lemma_join_lacks(fields, seq![':'], '\\');
    lemma_lacks_not_contains(line, ESCAPED_COLON@);
    lemma_replace_absent(line, ESCAPED_COLON@, COLON_PLACEHOLDER@);
    lemma_split_join(fields, ':');
    assert forall|i: int| 0 <= i < fields.len() implies replace(
        #[trigger] fields[i],
        COLON_PLACEHOLDER@,
        ":"@,
    ) == fields[i] by {
        lemma_replace_absent(fields[i], COLON_PLACEHOLDER@, ":"@);
    }
    assert(line_fields(line) =~= fields);
    if fields.len() >= 5 && fields[1].len() > 0 && all_digits(fields[1]) && digits_value(
        fields[1],
    ) <= i32::MAX {
        law_decimal_i32(fields[1]);
    }
}

/// A network that a single line names is listed as that line describes it.
pub proof fn law_single_line_network(out: Seq<char>, i: int, k: Seq<char>)
    requires
        line_names(lines(out), i, k),
        forall|j: int| j != i ==> !#[trigger] line_names(lines(out), j, k),
    ensures
        scanned_networks(out).contains_key(k),
        scanned_networks(out)[k] == parse_network_line(lines(out)[i])->0,
{
    let ls = lines(out);
    if parse_network_line(ls[i])->0.in_use {
        assert forall|j: int| i < j < ls.len() implies !line_in_use(ls, j, k) by {
            assert(!line_names(ls, j, k));
        }
        lemma_kept_in_use(ls, i, k);
    } else {
        assert forall|j: int| 0 <= j < ls.len() implies !line_in_use(ls, j, k) by {
            if j != i {
                assert(!line_names(ls, j, k));
            }
        }
        lemma_kept_strongest(ls, i, k);
    }
}

} // verus!
