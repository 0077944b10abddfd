//! An authoritative DNS message codec and zone store.
//!
//! The heart of the crate is the wire-format codec: bit-exact parsing and
//! serialization of DNS messages per RFC 1035, including the label-compression
//! pointer scheme, per-type RDATA encoding, and the EDNS0 OPT overlay.
//! On top of the codec sit a per-zone domain trie, a master-file text codec,
//! and the pure decision logic of an authoritative server.

pub mod errors;
pub mod util;
pub mod header;
pub mod name;
pub mod compress;
pub mod question;
pub mod rdata;
pub mod rr;
pub mod edns;
pub mod message;
pub mod dnssec;
pub mod trie;
pub mod zone;
pub mod server;

use vstd::prelude::*;

verus! {

/// A record type code.
pub type Type = u16;

/// A record class code.
pub type Class = u16;

pub const TYPE_A: u16 = 1;

pub const TYPE_NS: u16 = 2;

pub const TYPE_MD: u16 = 3;

pub const TYPE_MF: u16 = 4;

pub const TYPE_CNAME: u16 = 5;

pub const TYPE_SOA: u16 = 6;

pub const TYPE_MB: u16 = 7;

pub const TYPE_MG: u16 = 8;

pub const TYPE_MR: u16 = 9;

pub const TYPE_NULL: u16 = 10;

pub const TYPE_WKS: u16 = 11;

pub const TYPE_PTR: u16 = 12;

pub const TYPE_HINFO: u16 = 13;

pub const TYPE_MINFO: u16 = 14;

pub const TYPE_MX: u16 = 15;

pub const TYPE_TXT: u16 = 16;

pub const TYPE_OPT: u16 = 41;

pub const TYPE_DS: u16 = 43;

pub const TYPE_RRSIG: u16 = 46;

pub const TYPE_NSEC: u16 = 47;

pub const TYPE_DNSKEY: u16 = 48;

pub const TYPE_AXFR: u16 = 252;

pub const TYPE_MAILB: u16 = 253;

pub const TYPE_MAILA: u16 = 254;

pub const TYPE_ANY: u16 = 255;

pub const CLASS_IN: u16 = 1;

pub const CLASS_CS: u16 = 2;

pub const CLASS_CH: u16 = 3;

pub const CLASS_HS: u16 = 4;

pub const CLASS_ANY: u16 = 255;

} // verus!
