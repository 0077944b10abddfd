//! The EDNS0 OPT pseudo-record overlay (RFC 6891).
//!
//! An OPT record reuses its envelope fields: CLASS carries the sender's UDP
//! payload size, and TTL packs the extended RCODE (top 8 bits), the version
//! (next 8), the DO bit, and 15 reserved Z bits.  The overlay reads and
//! writes those fields on an ordinary resource record whose TYPE is OPT.

use vstd::prelude::*;
use crate::errors::DnsError;
use crate::compress::CompressList;
use crate::rdata::RDataType;
use crate::rr::{rr_cl_after, rr_encodable, rr_wire, RR};

verus! {

/// The EDNS0 view of a resource record.  The record is held whole; the
/// accessors interpret its CLASS and TTL as the OPT overlay, and most of
/// them answer neutrally unless the record's TYPE is OPT.
#[derive(Debug)]
pub struct PseudoRR(pub RR);

impl PseudoRR {
    /// Wraps a record in the overlay.
    pub fn from(rr: RR) -> (r: Self)
        ensures
            r.0 == rr,
    {
        PseudoRR(rr)
    }

    /// The underlying record.
    pub fn rr(&self) -> (r: &RR)
        ensures
            r == &self.0,
    {
        &self.0
    }

    /// The sender's UDP payload size: the CLASS field of an OPT record, and
    /// zero for any other type.
    pub fn udp_payload(&self) -> (r: u16)
        ensures
            self.0.typ == crate::TYPE_OPT ==> r == self.0.class,
            self.0.typ != crate::TYPE_OPT ==> r == 0,
    {
        if self.0.typ != crate::TYPE_OPT {
            return 0;
        }
        self.0.class
    }

    /// Sets the UDP payload size; ignored unless the record is an OPT.
    pub fn with_udp_payload(&mut self, payload: u16)
        ensures
            old(self).0.typ == crate::TYPE_OPT ==> final(self).0 == (RR {
                class: payload,
                ..old(self).0
            }),
            old(self).0.typ != crate::TYPE_OPT ==> *final(self) == *old(self),
    {
        if self.0.typ != crate::TYPE_OPT {
            return ;
        }
        self.0.with_class(payload);
    }

    /// The effective 12-bit response code: the extended RCODE from the top
    /// TTL byte forms the high 8 bits over the header's 4-bit code.  Zero
    /// for any type but OPT.
    pub fn rcode(&self, head_rcode: u8) -> (r: u16)
        ensures
            self.0.typ != crate::TYPE_OPT ==> r == 0,
            self.0.typ == crate::TYPE_OPT ==> r == {
                let ext = (self.0.ttl >> 24) as u8;
                (((ext >> 4) as u16) * 256 + (head_rcode | ((ext & 0x0F) << 4)) as u16) as u16
            },
    {
        if self.0.typ != crate::TYPE_OPT {
            return 0;
        }
        let ext: u8 = (self.0.ttl >> 24) as u8;
        let lower4: u8 = ext & 0x0F;
        proof {
            assert(lower4 < 16 ==> (lower4 << 4) < 256) by (bit_vector)
                requires
                    lower4 == ext & 0x0F,
            ;
        }
        let new_head: u8 = head_rcode | (lower4 << 4);
        let new_ext: u8 = ext >> 4;
        (new_ext as u16) * 256 + (new_head as u16)
    }

    /// Writes a 12-bit response code: the high 8 bits go to the extended
    /// RCODE in the TTL's top byte, and the low 4 come back as the header's
    /// code.
    pub fn with_rcode(&mut self, rcode: u16) -> (r: u8)
        ensures
            ({
                let hi = (rcode >> 8) as u8;
                let lo = (rcode & 0xFF) as u8;
                let new_ext = ((hi << 4) | ((lo & 0xF0) >> 4)) as u8;
                &&& final(self).0 == (RR {
                    ttl: (old(self).0.ttl & 0x00FFFFFF) | ((new_ext as u32) << 24),
                    ..old(self).0
                })
                &&& r == lo & 0x0F
            }),
    {
        let hi: u8 = (rcode >> 8) as u8;
        let lo: u8 = (rcode & 0xFF) as u8;
        let new_ext: u8 = (hi << 4) | ((lo & 0xF0) >> 4);
        let ttl = (self.0.ttl & 0x00FFFFFF) | ((new_ext as u32) << 24);
        self.0.with_ttl(ttl);
        lo & 0x0F
    }

    /// The EDNS0 version: the second TTL byte of an OPT record, zero for any
    /// other type.
    pub fn version(&self) -> (r: u8)
        ensures
            self.0.typ == crate::TYPE_OPT ==> r == ((self.0.ttl >> 16) & 0xFF) as u8,
            self.0.typ != crate::TYPE_OPT ==> r == 0,
    {
        if self.0.typ != crate::TYPE_OPT {
            return 0;
        }
        ((self.0.ttl >> 16) & 0xFF) as u8
    }

    /// Sets the EDNS0 version; ignored unless the record is an OPT.
    pub fn with_version(&mut self, v: u8)
        ensures
            old(self).0.typ != crate::TYPE_OPT ==> *final(self) == *old(self),
            old(self).0.typ == crate::TYPE_OPT ==> final(self).0 == (RR {
                ttl: (old(self).0.ttl & 0xFF00FFFF) | ((v as u32) << 16),
                ..old(self).0
            }),
    {
        if self.0.typ != crate::TYPE_OPT {
            return ;
        }
        let ttl = (self.0.ttl & 0xFF00FFFF) | ((v as u32) << 16);
        self.0.with_ttl(ttl);
    }

    /// The 15 reserved Z bits, without the DO bit; zero for any type but
    /// OPT.
    pub fn z(&self) -> (r: u16)
        ensures
            self.0.typ == crate::TYPE_OPT ==> r == (self.0.ttl & 0x7FFF) as u16,
            self.0.typ != crate::TYPE_OPT ==> r == 0,
    {
        if self.0.typ != crate::TYPE_OPT {
            return 0;
        }
        (self.0.ttl & 0x7FFF) as u16
    }

    /// Sets the Z bits; a value over 15 bits is ignored, and the DO bit is
    /// cleared, as writing the two low TTL bytes leaves it.
    pub fn with_z(&mut self, z: u16)
        ensures
            old(self).0.typ != crate::TYPE_OPT || z > 0x7FFF ==> *final(self) == *old(self),
            old(self).0.typ == crate::TYPE_OPT && z <= 0x7FFF ==> final(self).0 == (RR {
                ttl: (old(self).0.ttl & 0xFFFF0000) | (z as u32),
                ..old(self).0
            }),
    {
        if self.0.typ != crate::TYPE_OPT {
            return ;
        }
        if z > 0x7FFF {
            return ;
        }
        let ttl = (self.0.ttl & 0xFFFF0000) | (z as u32);
        self.0.with_ttl(ttl);
    }

    /// The DNSSEC-OK bit: the top bit of the TTL's third byte.
    pub fn dnssec_ok(&self) -> (r: bool)
        ensures
            r == (self.0.ttl & 0x8000u32 == 0x8000u32),
    {
        self.0.ttl & 0x8000 == 0x8000
    }

    /// Sets or clears the DNSSEC-OK bit.
    pub fn with_dnssec_ok(&mut self, ok: bool)
        ensures
            ok ==> final(self).0 == (RR { ttl: old(self).0.ttl | 0x8000, ..old(self).0 }),
            !ok ==> final(self).0 == (RR { ttl: old(self).0.ttl & 0xFFFF7FFF, ..old(self).0 }),
    {
        let ttl = if ok {
            self.0.ttl | 0x8000
        } else {
            self.0.ttl & 0xFFFF7FFF
        };
        self.0.with_ttl(ttl);
    }

    /// Appends the underlying record's wire form; see [`RR::encode`].
    pub fn encode(&mut self, raw: &mut Vec<u8>, cl: &mut CompressList, is_compressed: bool) -> (r:
        Result<(), DnsError>)
        ensures
            match r {
                Ok(_) => rr_encodable(old(self).0) && final(raw)@ == old(raw)@ + rr_wire(
                    old(self).0,
                    old(cl)@,
                    is_compressed,
                    old(raw)@.len() as int,
                ) && final(cl)@ == rr_cl_after(
                    old(self).0,
                    old(cl)@,
                    is_compressed,
                    old(raw)@.len() as int,
                ),
                Err(_) => !rr_encodable(old(self).0) && *final(raw) == *old(raw) && final(cl)@
                    == old(cl)@,
            },
    {
        self.0.encode(raw, cl, is_compressed)
    }
}

impl RR {
    /// Views this record through the EDNS0 overlay; refused unless its TYPE
    /// is OPT and its payload decoded as OPT options.  The record is
    /// consumed.
    pub fn convert_pseudo(self) -> (r: Result<PseudoRR, DnsError>)
        ensures
            match r {
                Ok(p) => self.typ == crate::TYPE_OPT && (self.rdata is OPT) && p.0 == self,
                Err(_) => self.typ != crate::TYPE_OPT || !(self.rdata is OPT),
            },
    {
        if self.typ != crate::TYPE_OPT {
            return Err(DnsError::Unsupported);
        }
        match &self.rdata {
            RDataType::OPT(_) => Ok(PseudoRR(self)),
            _ => Err(DnsError::Unsupported),
        }
    }
}

} // verus!
