//! A small authoritative-plus-recursive DNS server core: the wire codec for
//! classic 512-byte DNS datagrams, the recursive query tracker, the host
//! table, the dynamic-update protocol and the hosts-file lexer.

pub mod buffer;
pub mod dns;
pub mod dyndns;
pub mod error;
pub mod hosts;
pub mod hostsconf;
pub mod name;
pub mod parse;
pub mod resolver;
pub mod roundtrip;
pub mod text;
