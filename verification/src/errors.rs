//! Error kinds surfaced by the codec and the zone store.

use vstd::prelude::*;

verus! {

/// The failure classes of the library, from most to least local.
///
/// `Truncated` means a buffer ran out mid-parse; over TCP the caller may read
/// more bytes and retry.  `Malformed` covers inconsistent length bytes,
/// pointers to invalid offsets, pointer cycles, labels over 63 bytes and
/// names over 255 bytes; the message cannot be repaired.  `Unsupported` is a
/// known-unknown: a TYPE that cannot round-trip on the requested path, or an
/// OPT record outside the additional section.  `ZoneError` is a master-file
/// line that does not parse.
#[derive(Clone, Copy, Debug, PartialEq, Eq, Structural)]
pub enum DnsError {
    Truncated,
    Malformed,
    Unsupported,
    ZoneError,
}

impl DnsError {
    /// A short diagnostic name for the error kind.
    pub fn as_str(&self) -> (r: &'static str)
        ensures
            self is Truncated ==> r@ == "truncated message"@,
            self is Malformed ==> r@ == "malformed message"@,
            self is Unsupported ==> r@ == "unsupported record"@,
            self is ZoneError ==> r@ == "zone data error"@,
    {
        match self {
            DnsError::Truncated => "truncated message",
            DnsError::Malformed => "malformed message",
            DnsError::Unsupported => "unsupported record",
            DnsError::ZoneError => "zone data error",
        }
    }
}

} // verus!
