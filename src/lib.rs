//! Parsing, validation, normalisation and formatting of hosts-file text:
//! one address and its aliases per line, with optional `#` comments.

pub mod address;
pub mod chars;
pub mod data_line;
pub mod hosts_file;
pub mod line;
pub mod round_trip;
pub mod text_order;
pub mod text_out;

pub use address::{AddrParseError, IpAddr, Ipv4Addr, Ipv6Addr};
pub use data_line::{
    check_alias, lemma_forbidden_char_rejected, lemma_ipv4_alias_rejected, lemma_minify_disjoint,
    lemma_minify_repeated, minify_lines, DataLine, DataParseError,
};
pub use hosts_file::{DataLines, HostsFile, LineReadError, Lines, Pairs};
pub use line::Line;
pub use round_trip::{lemma_data_round_trip, lemma_ip_text_reads_back};
