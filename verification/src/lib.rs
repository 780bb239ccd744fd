//! Verified core of a small IPv4 host-inventory tool.
//!
//! The library validates and expands CIDR ranges, parses the text that the
//! operating system's neighbor-table and ARP commands print, merges the
//! resulting observations with probe verdicts into one deduplicated record
//! set, and serializes that set as CSV. All logic is specified and proved;
//! the thin process/IO shell around it lives outside the library.

pub mod args;
pub mod cidr;
pub mod clock;
pub mod inventory;
pub mod ip;
pub mod laws;
pub mod neighbors;
pub mod num;
pub mod probe;
pub mod text;
