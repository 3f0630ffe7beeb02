//! Network dashboard logic: listening ports and their owning processes, LAN
//! devices from the ARP table, the rows and filters of the dashboard tables,
//! and the dashboard's key handling.
pub mod text;
pub mod ipaddr;
pub mod ports;
pub mod scanner;
pub mod tables;
pub mod dashboard;
