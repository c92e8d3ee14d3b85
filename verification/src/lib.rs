//! The decisions and the output parsing of a Wi-Fi manager that drives
//! NetworkManager's `nmcli`, `nmap` and `ip`.
pub mod text;
pub mod numbers;
pub mod tables;
pub mod networks;
pub mod nm_output;
pub mod devices;
pub mod commands;
