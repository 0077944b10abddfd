//! The DNSSEC record shapes: DNSKEY, DS, RRSIG and NSEC payloads, and the
//! key-tag computation of RFC 4034.  Only the shapes live here; signature
//! mathematics is outside this library's scope.

use vstd::prelude::*;
use crate::errors::DnsError;
use crate::name::{ascii_byte_name, name_text, name_wire_len};
use crate::name::parse_name_full;
use crate::util::{
    base64_chars_of, base64_decode, base64_decode_of, base64_encode, be16, be16_bytes, be32,
    push_u16, read_u16_at, read_u32_at,
};

verus! {

/// A DNSKEY RDATA: two flag octets, the protocol (always 3), the algorithm,
/// and the public key, carried in this library as decoded key bytes whose
/// RDATA text form is base64.
#[derive(Debug, Clone, PartialEq, Eq)]
pub struct DNSKEY {
    pub flags: u16,
    pub protocol: u8,
    pub algorithm: u8,
    pub pub_key: Vec<u8>,
}

impl DNSKEY {
    /// A fresh key record: no flags, protocol 3, no key material.
    pub fn new() -> (r: Self)
        ensures
            r.flags == 0,
            r.protocol == 3,
            r.algorithm == 0,
            r.pub_key@.len() == 0,
    {
        DNSKEY { flags: 0, protocol: 3, algorithm: 0, pub_key: Vec::new() }
    }

    /// The RDATA length this key stands for: the four fixed octets and the
    /// key bytes.
    pub fn all_len(&self) -> (r: usize)
        requires
            self.pub_key@.len() <= usize::MAX - 4,
        ensures
            r == 4 + self.pub_key@.len(),
    {
        4 + self.pub_key.len()
    }

    /// The wire image of the fixed fields followed by the key bytes.
    pub fn as_bytes(&self) -> (r: Vec<u8>)
        ensures
            r@ == be16_bytes(self.flags) + seq![self.protocol, self.algorithm] + self.pub_key@,
    {
        let mut r: Vec<u8> = Vec::new();
        push_u16(&mut r, self.flags);
        r.push(self.protocol);
        r.push(self.algorithm);
        let mut tmp = self.pub_key.clone();
        proof {
            assert(tmp@ =~= self.pub_key@);
        }
        r.append(&mut tmp);
        proof {
            assert(r@ =~= be16_bytes(self.flags) + seq![self.protocol, self.algorithm]
                + self.pub_key@);
        }
        r
    }

    /// Decodes a DNSKEY RDATA: flags, protocol, algorithm, then the key as
    /// base64 text.
    pub fn from(raw: &[u8], rdata: &[u8]) -> (r: Result<Self, DnsError>)
        ensures
            match r {
                Ok(v) => rdata@.len() >= 4 && base64_decode_of(rdata@.skip(4)) == Some(v.pub_key@)
                    && v.flags == be16(rdata@, 0) && v.protocol == rdata@[2] && v.algorithm
                    == rdata@[3],
                Err(_) => rdata@.len() < 4 || base64_decode_of(rdata@.skip(4)) is None,
            },
    {
        let mut v = DNSKEY::new();
        match v.decode(raw, rdata) {
            Ok(_) => Ok(v),
            Err(e) => Err(e),
        }
    }

    /// Re-reads this RDATA in place; on failure the value is unchanged.
    pub fn decode(&mut self, _raw: &[u8], rdata: &[u8]) -> (r: Result<(), DnsError>)
        ensures
            match r {
                Ok(_) => rdata@.len() >= 4 && base64_decode_of(rdata@.skip(4)) == Some(
                    final(self).pub_key@,
                ) && final(self).flags == be16(rdata@, 0) && final(self).protocol == rdata@[2]
                    && final(self).algorithm == rdata@[3],
                Err(_) => (rdata@.len() < 4 || base64_decode_of(rdata@.skip(4)) is None)
                    && *final(self) == *old(self),
            },
    {
        if rdata.len() < 4 {
            return Err(DnsError::Malformed);
        }
        let tail = vstd::slice::slice_subrange(rdata, 4, rdata.len());
        proof {
            assert(tail@ =~= rdata@.skip(4));
        }
        let key = match base64_decode(tail) {
            Ok(v) => v,
            Err(e) => {
                return Err(e);
            },
        };
        self.flags = read_u16_at(rdata, 0);
        self.protocol = rdata[2];
        self.algorithm = rdata[3];
        self.pub_key = key;
        Ok(())
    }

    /// The zone-key flag: bit 7 of the flags field, the low bit of its first
    /// octet.
    pub fn flag_zone_key(&self) -> (r: bool)
        ensures
            r == (self.flags & 0x0100u16 == 0x0100u16),
    {
        self.flags & 0x0100 == 0x0100
    }

    /// Sets or clears the zone-key flag.
    pub fn with_flag_zone_key(&mut self, zone_key: bool)
        ensures
            zone_key ==> *final(self) == (DNSKEY { flags: old(self).flags | 0x0100, ..*old(self) }),
            !zone_key ==> *final(self) == (DNSKEY {
                flags: old(self).flags & 0xFEFF,
                ..*old(self)
            }),
    {
        if zone_key {
            self.flags = self.flags | 0x0100;
        } else {
            self.flags = self.flags & 0xFEFF;
        }
    }

    /// The secure-entry-point flag: bit 15, the low bit of the second octet.
    pub fn flag_sec_entry_point(&self) -> (r: bool)
        ensures
            r == (self.flags & 0x0001u16 == 0x0001u16),
    {
        self.flags & 0x0001 == 0x0001
    }

    /// Sets or clears the secure-entry-point flag.
    pub fn with_flag_sec_entry_point(&mut self, sec_entry_point: bool)
        ensures
            sec_entry_point ==> *final(self) == (DNSKEY {
                flags: old(self).flags | 0x0001,
                ..*old(self)
            }),
            !sec_entry_point ==> *final(self) == (DNSKEY {
                flags: old(self).flags & 0xFFFE,
                ..*old(self)
            }),
    {
        if sec_entry_point {
            self.flags = self.flags | 0x0001;
        } else {
            self.flags = self.flags & 0xFFFE;
        }
    }

    /// Appends this RDATA's text wire form: the fixed fields, then the key
    /// as base64.
    pub fn encode(&self, raw: &mut Vec<u8>) -> (r: Result<usize, DnsError>)
        requires
            self.pub_key@.len() <= 0x10000000,
        ensures
            r matches Ok(n) && final(raw)@ == old(raw)@ + be16_bytes(self.flags) + seq![
                self.protocol,
                self.algorithm,
            ] + vstd::utf8::encode_utf8(base64_chars_of(self.pub_key@)),
    {
        let base = raw.len();
        push_u16(raw, self.flags);
        raw.push(self.protocol);
        raw.push(self.algorithm);
        let txt = base64_encode(self.pub_key.as_slice());
        let mut tb = txt.as_str().as_bytes_vec();
        raw.append(&mut tb);
        proof {
            assert(raw@ =~= old(raw)@ + be16_bytes(self.flags) + seq![
                self.protocol,
                self.algorithm,
            ] + vstd::utf8::encode_utf8(base64_chars_of(self.pub_key@)));
        }
        Ok(raw.len() - base)
    }
}

/// The running key-tag sum over the first `i` wire bytes: even positions
/// weigh 256, odd positions 1 (RFC 4034 appendix B).
pub open spec fn key_tag_sum(key: Seq<u8>, i: int) -> int
    decreases i,
{
    if i <= 0 {
        0
    } else {
        key_tag_sum(key, i - 1) + (if (i - 1) % 2 == 1 {
            key[i - 1] as int
        } else {
            key[i - 1] * 256
        })
    }
}

/// The key tag of a DNSKEY wire image: the folded 16-bit sum of its bytes.
pub open spec fn key_tag_of(key: Seq<u8>) -> u16 {
    let s = key_tag_sum(key, key.len() as int);
    (((s + (s / 65536) % 65536) % 65536) as u16)
}

/// Computes the key tag of a key record (RFC 4034 appendix B).
///
/// For every algorithm but 1 this is the folded 16-bit sum of the RDATA wire
/// bytes; for the historic algorithm 1 it is the 16 bits before the last
/// octet of the key modulus, which must therefore hold at least three bytes.
pub fn calc_key_tag(dnskey: &DNSKEY) -> (r: u16)
    requires
        dnskey.pub_key@.len() <= 65535,
        dnskey.algorithm == 1 ==> dnskey.pub_key@.len() >= 3,
    ensures
        dnskey.algorithm == 1 ==> r == be16(dnskey.pub_key@, dnskey.pub_key@.len() - 3),
        dnskey.algorithm != 1 ==> r == key_tag_of(
            be16_bytes(dnskey.flags) + seq![dnskey.protocol, dnskey.algorithm] + dnskey.pub_key@,
        ),
{
    if dnskey.algorithm == 1 {
        return calc_key_tag_for_1(dnskey);
    }
    let key = dnskey.as_bytes();
    let mut ac: u64 = 0;
    let mut i: usize = 0;
    while i < key.len()
        invariant
            i <= key@.len(),
            key@.len() <= 65539,
            ac == key_tag_sum(key@, i as int),
            ac <= i * 65280,
        decreases key@.len() - i,
    {
        if i % 2 == 1 {
            ac = ac + key[i] as u64;
        } else {
            ac = ac + (key[i] as u64) * 256;
        }
        i = i + 1;
    }
    let t: u64 = ac + (ac / 65536) % 65536;
    (t % 65536) as u16
}

/// The algorithm-1 key tag: the 16 bits before the key's last octet.
fn calc_key_tag_for_1(dnskey: &DNSKEY) -> (r: u16)
    requires
        dnskey.pub_key@.len() >= 3,
    ensures
        r == be16(dnskey.pub_key@, dnskey.pub_key@.len() - 3),
{
    let len = dnskey.pub_key.len();
    read_u16_at(dnskey.pub_key.as_slice(), len - 3)
}

/// One uncompressed domain name read from a slice at `*cursor`.  The NSEC
/// next-domain and RRSIG signer fields forbid compression, so a pointer
/// here is malformed; otherwise the usual bounds of [`Labels::parse`] hold.
fn parse_plain_name(rd: &[u8], cursor: &mut usize) -> (r: Result<crate::name::Labels, DnsError>)
    ensures
        match r {
            Ok(l) => {
                let p = parse_name_full(rd@, *old(cursor) as int);
                &&& p.ok
                &&& !p.ptr
                &&& name_wire_len(p.labels) <= 255
                &&& ascii_byte_name(p.labels)
                &&& crate::name::name_to_bytes(l@) == p.labels
                &&& l.wf()
                &&& *final(cursor) == p.end
                &&& *old(cursor) < p.end <= rd@.len()
            },
            Err(_) => {
                let p = parse_name_full(rd@, *old(cursor) as int);
                (!p.ok || p.ptr || name_wire_len(p.labels) > 255 || !ascii_byte_name(p.labels))
                    && *final(cursor) == *old(cursor)
            },
        },
{
    let start: usize = *cursor;
    let mut probe: usize = start;
    match crate::name::Labels::parse_with_ptr(rd, &mut probe) {
        Ok((l, ptr)) => {
            if ptr {
                return Err(DnsError::Malformed);
            }
            *cursor = probe;
            Ok(l)
        },
        Err(e) => Err(e),
    }
}

/// A DS RDATA: the referenced key's tag, algorithm, digest type, and the
/// digest bytes.
#[derive(Debug, Clone, PartialEq, Eq)]
pub struct DS {
    pub key_tag: u16,
    pub algorithm: u8,
    pub digest_type: u8,
    pub digest: Vec<u8>,
}

impl DS {
    /// An empty DS record.
    pub fn new() -> (r: Self)
        ensures
            r.key_tag == 0 && r.algorithm == 0 && r.digest_type == 0 && r.digest@.len() == 0,
    {
        DS { key_tag: 0, algorithm: 0, digest_type: 0, digest: Vec::new() }
    }

    /// Decodes a DS RDATA: key tag, algorithm, digest type, then the digest.
    pub fn from(raw: &[u8], rdata: &[u8]) -> (r: Result<Self, DnsError>)
        ensures
            match r {
                Ok(v) => rdata@.len() >= 4 && v.key_tag == be16(rdata@, 0) && v.algorithm
                    == rdata@[2] && v.digest_type == rdata@[3] && v.digest@ == rdata@.skip(4),
                Err(_) => rdata@.len() < 4,
            },
    {
        if rdata.len() < 4 {
            return Err(DnsError::Malformed);
        }
        let digest = vstd::slice::slice_to_vec(
            vstd::slice::slice_subrange(rdata, 4, rdata.len()),
        );
        proof {
            assert(rdata@.subrange(4, rdata@.len() as int) =~= rdata@.skip(4));
        }
        Ok(
            DS {
                key_tag: read_u16_at(rdata, 0),
                algorithm: rdata[2],
                digest_type: rdata[3],
                digest,
            },
        )
    }

    /// Appends this RDATA's wire form.
    pub fn encode(&self, raw: &mut Vec<u8>) -> (r: Result<usize, DnsError>)
        ensures
            r matches Ok(n) && final(raw)@ == old(raw)@ + be16_bytes(self.key_tag) + seq![
                self.algorithm,
                self.digest_type,
            ] + self.digest@ && n == 4 + self.digest@.len(),
    {
        let base = raw.len();
        push_u16(raw, self.key_tag);
        raw.push(self.algorithm);
        raw.push(self.digest_type);
        let mut tmp = self.digest.clone();
        proof {
            assert(tmp@ =~= self.digest@);
        }
        raw.append(&mut tmp);
        proof {
            assert(raw@ =~= old(raw)@ + be16_bytes(self.key_tag) + seq![
                self.algorithm,
                self.digest_type,
            ] + self.digest@);
        }
        Ok(raw.len() - base)
    }
}

/// An NSEC RDATA: the next owner name in canonical order and the type
/// bitmap, read here as one 32-bit window as the rest of the RDATA.
#[derive(Debug, Clone, PartialEq, Eq)]
pub struct NSEC {
    pub next_domain_name: String,
    pub type_bit_maps: u32,
}

impl NSEC {
    /// An empty NSEC record.
    pub fn new() -> (r: Self)
        ensures
            r.next_domain_name@.len() == 0 && r.type_bit_maps == 0,
    {
        NSEC { next_domain_name: String::new(), type_bit_maps: 0 }
    }

    /// Decodes an NSEC RDATA: one domain name, then exactly four bitmap
    /// bytes.
    pub fn from(_raw: &[u8], rdata: &[u8]) -> (r: Result<Self, DnsError>)
        ensures
            match r {
                Ok(v) => {
                    let p = parse_name_full(rdata@, 0);
                    &&& p.ok
                    &&& !p.ptr
                    &&& name_wire_len(p.labels) <= 255
                    &&& ascii_byte_name(p.labels)
                    &&& v.next_domain_name@ == name_text(p.labels)
                    &&& rdata@.len() == p.end + 4
                    &&& v.type_bit_maps == be32(rdata@, p.end)
                },
                Err(_) => {
                    let p = parse_name_full(rdata@, 0);
                    !p.ok || p.ptr || name_wire_len(p.labels) > 255 || !ascii_byte_name(p.labels)
                        || rdata@.len() != p.end + 4
                },
            },
    {
        let mut cursor: usize = 0;
        let labels = match parse_plain_name(rdata, &mut cursor) {
            Ok(v) => v,
            Err(e) => {
                return Err(e);
            },
        };
        if rdata.len() - cursor != 4 {
            return Err(DnsError::Malformed);
        }
        let bits = read_u32_at(rdata, cursor);
        let name = labels.encode_to_str();
        proof {
            let p = parse_name_full(rdata@, 0);
            crate::name::lemma_chars_bytes_roundtrip(labels@);
            assert(crate::name::chars_of_labels(p.labels) == labels@);
        }
        Ok(NSEC { next_domain_name: name, type_bit_maps: bits })
    }
}

/// An RRSIG RDATA: the covered type, algorithm, label count, original TTL,
/// validity window, key tag, signer name, and the signature bytes verbatim.
#[derive(Debug, Clone, PartialEq, Eq)]
pub struct RRSig {
    pub type_covered: u16,
    pub algorithm: u8,
    pub labels: u8,
    pub origin_ttl: u32,
    pub sig_expiration: u32,
    pub sig_inception: u32,
    pub key_tag: u16,
    pub signer_name: String,
    pub signature: Vec<u8>,
}

impl RRSig {
    /// An empty signature record.
    pub fn new() -> (r: Self)
        ensures
            r.type_covered == 0 && r.algorithm == 0 && r.labels == 0 && r.origin_ttl == 0
                && r.sig_expiration == 0 && r.sig_inception == 0 && r.key_tag == 0
                && r.signer_name@.len() == 0 && r.signature@.len() == 0,
    {
        RRSig {
            type_covered: 0,
            algorithm: 0,
            labels: 0,
            origin_ttl: 0,
            sig_expiration: 0,
            sig_inception: 0,
            key_tag: 0,
            signer_name: String::new(),
            signature: Vec::new(),
        }
    }

    /// Decodes an RRSIG RDATA: the eighteen fixed bytes, the signer name,
    /// and the rest as the signature.
    pub fn from(_raw: &[u8], rdata: &[u8]) -> (r: Result<Self, DnsError>)
        ensures
            match r {
                Ok(v) => {
                    let p = parse_name_full(rdata@.skip(18), 0);
                    &&& rdata@.len() >= 18
                    &&& p.ok
                    &&& !p.ptr
                    &&& name_wire_len(p.labels) <= 255
                    &&& ascii_byte_name(p.labels)
                    &&& v.type_covered == be16(rdata@, 0)
                    &&& v.algorithm == rdata@[2]
                    &&& v.labels == rdata@[3]
                    &&& v.origin_ttl == be32(rdata@, 4)
                    &&& v.sig_expiration == be32(rdata@, 8)
                    &&& v.sig_inception == be32(rdata@, 12)
                    &&& v.key_tag == be16(rdata@, 16)
                    &&& v.signer_name@ == name_text(p.labels)
                    &&& v.signature@ == rdata@.skip(18 + p.end)
                },
                Err(_) => rdata@.len() < 18 || {
                    let p = parse_name_full(rdata@.skip(18), 0);
                    !p.ok || p.ptr || name_wire_len(p.labels) > 255 || !ascii_byte_name(p.labels)
                },
            },
    {
        if rdata.len() < 18 {
            return Err(DnsError::Malformed);
        }
        let tail = vstd::slice::slice_subrange(rdata, 18, rdata.len());
        proof {
            assert(tail@ =~= rdata@.skip(18));
        }
        let mut cursor: usize = 0;
        let labels = match parse_plain_name(tail, &mut cursor) {
            Ok(v) => v,
            Err(e) => {
                return Err(e);
            },
        };
        let signature = vstd::slice::slice_to_vec(
            vstd::slice::slice_subrange(tail, cursor, tail.len()),
        );
        let name = labels.encode_to_str();
        proof {
            let p = parse_name_full(rdata@.skip(18), 0);
            crate::name::lemma_chars_bytes_roundtrip(labels@);
            assert(crate::name::chars_of_labels(p.labels) == labels@);
            assert(tail@.subrange(p.end, tail@.len() as int) =~= rdata@.skip(18 + p.end));
        }
        Ok(
            RRSig {
                type_covered: read_u16_at(rdata, 0),
                algorithm: rdata[2],
                labels: rdata[3],
                origin_ttl: read_u32_at(rdata, 4),
                sig_expiration: read_u32_at(rdata, 8),
                sig_inception: read_u32_at(rdata, 12),
                key_tag: read_u16_at(rdata, 16),
                signer_name: name,
                signature,
            },
        )
    }
}

} // verus!
