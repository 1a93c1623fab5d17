//! An IPv4 → Autonomous System database.
//!
//! The library maps an IPv4 address to the AS record announcing the most
//! specific network prefix that contains it.  A database is built either from
//! tabular rows (range start, range end, AS number, country, owner) or from a
//! compact binary cache written by this same library, and is then queried
//! read-only with a binary-search floor lookup.
//!
//! Text fields (country, owner, row fields) are carried as raw bytes
//! (`Vec<u8>`); callers that work with strings convert at the boundary.

pub mod record;
pub mod decompose;
pub mod parse;
pub mod codec;
pub mod ingest;
pub mod db;

pub use db::{Db, DbError};
pub use decompose::subnets;
pub use ingest::{read_asn_tsv, parse_row, Row, TsvParseError};
pub use parse::{parse_ipv4, parse_u32};
pub use record::{Network, Record};
