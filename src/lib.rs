//! IPv4 CIDR arithmetic: dotted-quad addresses, networks with their derived
//! quantities, and the expansion of terse address specifiers.

pub mod text;
pub mod address;
pub mod network;
pub mod expand;

pub use address::{address_text, parse_address};
pub use expand::{expand_args, DEFAULT_ADDRESS};
pub use network::{parse_network, prefix_from_mask, ErrorKind, Network, ParseError};
