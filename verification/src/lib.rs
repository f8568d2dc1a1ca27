//! Verified core of an iroh-based TCP proxy and file-transfer tool.
use vstd::prelude::*;

pub mod bits;
pub mod wire;
pub mod text;
pub mod codec;
pub mod record;
pub mod proxy_header;
pub mod ack;
pub mod ping;
pub mod file_send;
pub mod socks5;
pub mod http;
pub mod client;
pub mod node_ids;
pub mod keys;
