//! IPv4 longest-prefix-match lookup over sets of CIDR blocks.
//!
//! A block is an [`Ipv4Cidr`]: a network address with a prefix length. A table that
//! implements [`RoutingTable`] holds blocks and finds, for an address, the block of
//! greatest prefix length that covers it. There are three tables with one contract:
//! [`HashRoutingTable`], [`ListRoutingTable`] and [`TrieRoutingTable`].
//!
//! Addresses are 32-bit integers. The most significant byte is the first byte of the
//! dotted-quad form, so that `192.168.0.1` is `0xC0A8_0001` and addresses compare as
//! their dotted-quad forms do.

pub mod cidr;
pub mod errors;
pub mod parse;
pub mod routing_table;
pub mod utils;

pub use cidr::{Ipv4Cidr, Prefix};
pub use errors::NetworkParseError;
pub use routing_table::{HashRoutingTable, ListRoutingTable, RoutingTable, TrieRoutingTable};
pub use utils::{cut_addr, get_cidr_mask, MAX_LENGTH};
