//! The 12-byte DNS message header, with the flag word unpacked into fields.
//!
//! Wire layout (all integers big-endian):
//! `ID(16) | QR(1) Opcode(4) AA(1) TC(1) RD(1) | RA(1) Z(3) RCODE(4) |
//!  QDCOUNT(16) ANCOUNT(16) NSCOUNT(16) ARCOUNT(16)`.

use vstd::prelude::*;

verus! {

/// Relies on rand's `random` to draw a fresh 16-bit message id; nothing is
/// assumed of the value.
pub assume_specification<T>[ rand::random::<T> ]() -> (r: T)
    where
        rand::distributions::Standard: rand::distributions::Distribution<T>,
;

/// A DNS message header with every packed field held separately.
///
/// The twelve wire bytes are produced by [`Header::get_0`] and read by
/// [`Header::from`]; the two are exact inverses, so unknown Z bits survive a
/// round trip.
#[derive(Clone, Copy, Debug, PartialEq, Eq, Structural)]
pub struct Header {
    pub id: u16,
    pub qr: bool,
    pub opcode: u8,
    pub aa: bool,
    pub tc: bool,
    pub rd: bool,
    pub ra: bool,
    pub z: u8,
    pub rcode: u8,
    pub qdcount: u16,
    pub ancount: u16,
    pub nscount: u16,
    pub arcount: u16,
}

impl Header {
    /// The sub-byte fields fit their bit widths.
    pub open spec fn wf(self) -> bool {
        self.opcode < 16 && self.z < 8 && self.rcode < 16
    }

    /// The header a twelve-byte wire image denotes.
    pub open spec fn spec_from(s: Seq<u8>) -> Header {
        Header {
            id: ((s[0] as u16) * 256 + s[1] as u16) as u16,
            qr: s[2] & 0x80 == 0x80,
            opcode: (s[2] >> 3) & 0x0F,
            aa: s[2] & 0x04 == 0x04,
            tc: s[2] & 0x02 == 0x02,
            rd: s[2] & 0x01 == 0x01,
            ra: s[3] & 0x80 == 0x80,
            z: (s[3] >> 4) & 0x07,
            rcode: s[3] & 0x0F,
            qdcount: ((s[4] as u16) * 256 + s[5] as u16) as u16,
            ancount: ((s[6] as u16) * 256 + s[7] as u16) as u16,
            nscount: ((s[8] as u16) * 256 + s[9] as u16) as u16,
            arcount: ((s[10] as u16) * 256 + s[11] as u16) as u16,
        }
    }

    /// The wire byte that packs QR, Opcode, AA, TC and RD.
    pub open spec fn flag_byte_hi(self) -> u8 {
        (if self.qr {
            0x80u8
        } else {
            0u8
        }) | (self.opcode << 3) | (if self.aa {
            0x04u8
        } else {
            0u8
        }) | (if self.tc {
            0x02u8
        } else {
            0u8
        }) | (if self.rd {
            0x01u8
        } else {
            0u8
        })
    }

    /// The wire byte that packs RA, Z and RCODE.
    pub open spec fn flag_byte_lo(self) -> u8 {
        (if self.ra {
            0x80u8
        } else {
            0u8
        }) | (self.z << 4) | self.rcode
    }

    /// The twelve-byte wire image of a header.
    pub open spec fn spec_bytes(self) -> Seq<u8> {
        seq![
            (self.id >> 8) as u8,
            (self.id & 0xFF) as u8,
            self.flag_byte_hi(),
            self.flag_byte_lo(),
            (self.qdcount >> 8) as u8,
            (self.qdcount & 0xFF) as u8,
            (self.ancount >> 8) as u8,
            (self.ancount & 0xFF) as u8,
            (self.nscount >> 8) as u8,
            (self.nscount & 0xFF) as u8,
            (self.arcount >> 8) as u8,
            (self.arcount & 0xFF) as u8,
        ]
    }

    /// A fresh query header: a random id, every flag clear, all counts zero.
    pub fn new() -> (r: Self)
        ensures
            r.wf(),
            !r.qr,
            r.opcode == 0,
            !r.aa,
            !r.tc,
            !r.rd,
            !r.ra,
            r.z == 0,
            r.rcode == 0,
            r.qdcount == 0,
            r.ancount == 0,
            r.nscount == 0,
            r.arcount == 0,
    {
        let id: u16 = rand::random::<u16>();
        Header {
            id,
            qr: false,
            opcode: 0,
            aa: false,
            tc: false,
            rd: false,
            ra: false,
            z: 0,
            rcode: 0,
            qdcount: 0,
            ancount: 0,
            nscount: 0,
            arcount: 0,
        }
    }

    /// Unpacks a twelve-byte wire image.
    pub fn from(raw: [u8; 12]) -> (r: Self)
        ensures
            r == Self::spec_from(raw@),
            r.wf(),
    {
        let b2 = raw[2];
        let b3 = raw[3];
        proof {
            assert((b2 >> 3) & 0x0F < 16) by (bit_vector);
            assert((b3 >> 4) & 0x07 < 8) by (bit_vector);
            assert(b3 & 0x0F < 16) by (bit_vector);
        }
        Header {
            id: (raw[0] as u16) * 256 + raw[1] as u16,
            qr: b2 & 0x80 == 0x80,
            opcode: (b2 >> 3) & 0x0F,
            aa: b2 & 0x04 == 0x04,
            tc: b2 & 0x02 == 0x02,
            rd: b2 & 0x01 == 0x01,
            ra: b3 & 0x80 == 0x80,
            z: (b3 >> 4) & 0x07,
            rcode: b3 & 0x0F,
            qdcount: (raw[4] as u16) * 256 + raw[5] as u16,
            ancount: (raw[6] as u16) * 256 + raw[7] as u16,
            nscount: (raw[8] as u16) * 256 + raw[9] as u16,
            arcount: (raw[10] as u16) * 256 + raw[11] as u16,
        }
    }

    /// Packs the header into its twelve wire bytes.
    pub fn get_0(&self) -> (r: [u8; 12])
        ensures
            r@ == self.spec_bytes(),
    {
        let qrv: u8 = if self.qr {
            0x80
        } else {
            0
        };
        let aav: u8 = if self.aa {
            0x04
        } else {
            0
        };
        let tcv: u8 = if self.tc {
            0x02
        } else {
            0
        };
        let rdv: u8 = if self.rd {
            0x01
        } else {
            0
        };
        let rav: u8 = if self.ra {
            0x80
        } else {
            0
        };
        let hi: u8 = qrv | (self.opcode << 3) | aav | tcv | rdv;
        let lo: u8 = rav | (self.z << 4) | self.rcode;
        let r = [
            (self.id >> 8) as u8,
            (self.id & 0xFF) as u8,
            hi,
            lo,
            (self.qdcount >> 8) as u8,
            (self.qdcount & 0xFF) as u8,
            (self.ancount >> 8) as u8,
            (self.ancount & 0xFF) as u8,
            (self.nscount >> 8) as u8,
            (self.nscount & 0xFF) as u8,
            (self.arcount >> 8) as u8,
            (self.arcount & 0xFF) as u8,
        ];
        proof {
            assert(r@ =~= self.spec_bytes());
        }
        r
    }

    /// The 16-bit message id.
    pub fn id(&self) -> (r: u16)
        ensures
            r == self.id,
    {
        self.id
    }

    /// Sets the message id.
    pub fn with_id(&mut self, id: u16)
        ensures
            *final(self) == (Header { id, ..*old(self) }),
    {
        self.id = id;
    }

    /// The QR bit: query (false) or response (true).
    pub fn qr(&self) -> (r: bool)
        ensures
            r == self.qr,
    {
        self.qr
    }

    /// Sets the QR bit.
    pub fn with_qr(&mut self, qr: bool)
        ensures
            *final(self) == (Header { qr, ..*old(self) }),
    {
        self.qr = qr;
    }

    /// The 4-bit opcode.
    pub fn opcode(&self) -> (r: u8)
        ensures
            r == self.opcode,
    {
        self.opcode
    }

    /// Sets the opcode; a value over 15 is ignored, as it cannot be packed.
    pub fn with_opcode(&mut self, opcode: u8)
        ensures
            opcode > 0x0F ==> *final(self) == *old(self),
            opcode <= 0x0F ==> *final(self) == (Header { opcode, ..*old(self) }),
    {
        if opcode > 0x0F {
            return ;
        }
        self.opcode = opcode;
    }

    /// The AA (authoritative answer) bit.
    pub fn aa(&self) -> (r: bool)
        ensures
            r == self.aa,
    {
        self.aa
    }

    /// Sets the AA bit.
    pub fn with_aa(&mut self, aa: bool)
        ensures
            *final(self) == (Header { aa, ..*old(self) }),
    {
        self.aa = aa;
    }

    /// The TC (truncation) bit.
    pub fn tc(&self) -> (r: bool)
        ensures
            r == self.tc,
    {
        self.tc
    }

    /// Sets the TC bit.
    pub fn with_tc(&mut self, tc: bool)
        ensures
            *final(self) == (Header { tc, ..*old(self) }),
    {
        self.tc = tc;
    }

    /// The RD (recursion desired) bit.
    pub fn rd(&self) -> (r: bool)
        ensures
            r == self.rd,
    {
        self.rd
    }

    /// Sets the RD bit.
    pub fn with_rd(&mut self, rd: bool)
        ensures
            *final(self) == (Header { rd, ..*old(self) }),
    {
        self.rd = rd;
    }

    /// The RA (recursion available) bit.
    pub fn ra(&self) -> (r: bool)
        ensures
            r == self.ra,
    {
        self.ra
    }

    /// Sets the RA bit.
    pub fn with_ra(&mut self, ra: bool)
        ensures
            *final(self) == (Header { ra, ..*old(self) }),
    {
        self.ra = ra;
    }

    /// The 3 reserved Z bits, forwarded verbatim on a round trip.
    pub fn z(&self) -> (r: u8)
        ensures
            r == self.z,
    {
        self.z
    }

    /// Sets the Z bits; a value over 7 is ignored, as it cannot be packed.
    pub fn with_z(&mut self, z: u8)
        ensures
            z > 0x07 ==> *final(self) == *old(self),
            z <= 0x07 ==> *final(self) == (Header { z, ..*old(self) }),
    {
        if z > 0x07 {
            return ;
        }
        self.z = z;
    }

    /// The 4-bit response code.
    pub fn rcode(&self) -> (r: u8)
        ensures
            r == self.rcode,
    {
        self.rcode
    }

    /// Sets the response code; a value over 15 is ignored, as it cannot be
    /// packed.
    pub fn with_rcode(&mut self, rcode: u8)
        ensures
            rcode > 0x0F ==> *final(self) == *old(self),
            rcode <= 0x0F ==> *final(self) == (Header { rcode, ..*old(self) }),
    {
        if rcode > 0x0F {
            return ;
        }
        self.rcode = rcode;
    }

    /// The number of question entries.
    pub fn qdcount(&self) -> (r: u16)
        ensures
            r == self.qdcount,
    {
        self.qdcount
    }

    /// Sets the question count.
    pub fn with_qdcount(&mut self, qdcount: u16)
        ensures
            *final(self) == (Header { qdcount, ..*old(self) }),
    {
        self.qdcount = qdcount;
    }

    /// The number of answer records.
    pub fn ancount(&self) -> (r: u16)
        ensures
            r == self.ancount,
    {
        self.ancount
    }

    /// Sets the answer count.
    pub fn with_ancount(&mut self, ancount: u16)
        ensures
            *final(self) == (Header { ancount, ..*old(self) }),
    {
        self.ancount = ancount;
    }

    /// The number of authority records.
    pub fn nscount(&self) -> (r: u16)
        ensures
            r == self.nscount,
    {
        self.nscount
    }

    /// Sets the authority count.
    pub fn with_nscount(&mut self, nscount: u16)
        ensures
            *final(self) == (Header { nscount, ..*old(self) }),
    {
        self.nscount = nscount;
    }

    /// The number of additional records.
    pub fn arcount(&self) -> (r: u16)
        ensures
            r == self.arcount,
    {
        self.arcount
    }

    /// Sets the additional count.
    pub fn with_arcount(&mut self, arcount: u16)
        ensures
            *final(self) == (Header { arcount, ..*old(self) }),
    {
        self.arcount = arcount;
    }
}

/// Packing a header and unpacking the bytes gives the header back, field for
/// field; so the bit setters and getters of well-formed headers round-trip,
/// and the reserved Z bits are preserved verbatim.
pub proof fn lemma_header_bytes_roundtrip(h: Header)
    requires
        h.wf(),
    ensures
        Header::spec_from(h.spec_bytes()) == h,
{
    let s = h.spec_bytes();
    let id = h.id;
    assert(((id >> 8) as u8 as u16) * 256 + ((id & 0xFF) as u8 as u16) == id) by (bit_vector);
    let qd = h.qdcount;
    assert(((qd >> 8) as u8 as u16) * 256 + ((qd & 0xFF) as u8 as u16) == qd) by (bit_vector);
    let an = h.ancount;
    assert(((an >> 8) as u8 as u16) * 256 + ((an & 0xFF) as u8 as u16) == an) by (bit_vector);
    let ns = h.nscount;
    assert(((ns >> 8) as u8 as u16) * 256 + ((ns & 0xFF) as u8 as u16) == ns) by (bit_vector);
    let ar = h.arcount;
    assert(((ar >> 8) as u8 as u16) * 256 + ((ar & 0xFF) as u8 as u16) == ar) by (bit_vector);
    let hi = h.flag_byte_hi();
    let lo = h.flag_byte_lo();
    let op = h.opcode;
    let zz = h.z;
    let rc = h.rcode;
    let qr = h.qr;
    let aa = h.aa;
    let tc = h.tc;
    let rd = h.rd;
    let ra = h.ra;
    assert({
        let hib = (if qr {
            0x80u8
        } else {
            0u8
        }) | (op << 3) | (if aa {
            0x04u8
        } else {
            0u8
        }) | (if tc {
            0x02u8
        } else {
            0u8
        }) | (if rd {
            0x01u8
        } else {
            0u8
        });
        op < 16 ==> ((hib & 0x80 == 0x80) == qr && ((hib >> 3) & 0x0F) == op && (hib & 0x04 == 0x04)
            == aa && (hib & 0x02 == 0x02) == tc && (hib & 0x01 == 0x01) == rd)
    }) by (bit_vector);
    assert({
        let lob = (if ra {
            0x80u8
        } else {
            0u8
        }) | (zz << 4) | rc;
        zz < 8 && rc < 16 ==> ((lob & 0x80 == 0x80) == ra && ((lob >> 4) & 0x07) == zz && (lob
            & 0x0F) == rc)
    }) by (bit_vector);
    assert(Header::spec_from(s) == h);
}

} // verus!
