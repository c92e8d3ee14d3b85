# wifi_manager

The logic of a small Wi-Fi manager for Linux that drives NetworkManager
(`nmcli`), `nmap` and `ip`, verified with Verus.

- `src/` is the verified library:
  - `text.rs`: splitting into lines, fields and words, trimming, replacing,
    searching and joining, each proved against a specification of the `str`
    method it stands for;
  - `numbers.rs`: decimal integers as `str::parse` reads them for `i32` and `u32`;
  - `networks.rs`: the list of visible networks from `nmcli dev wifi list`:
    one entry per SSID (the one in use, else the strongest), the network in use
    first, then by signal;
  - `tables.rs`: facts about lists kept in step with a table (each entry once);
  - `nm_output.rs`: the radio state, the active wireless interface (connected
    Wi-Fi device first), its address and a connection's IPv4 settings;
  - `devices.rs`: the other devices on the subnet from `nmap -sn` and
    `ip neighbor`, without this machine's own address, one per address,
    ordered by address;
  - `commands.rs`: the argument lists of the `nmcli` calls and the decisions
    after a scan (a rescan where no network was found), a connection attempt
    or a change of settings.
- `app/` is the window (Slint) and the command runner (Tokio): it starts the
  programs, hands their output to the library and shows the result.
- `tests/` runs the library on concrete outputs.
