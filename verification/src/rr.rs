//! The resource record envelope: NAME, TYPE, CLASS, TTL, RDLENGTH, RDATA.

use vstd::prelude::*;
use crate::errors::DnsError;
use crate::compress::CompressList;
use crate::name::{dotted, name_text, parse_name_full, Labels};
use crate::rdata::{
    name_cl_after, name_wire_spec, rdata_cl_after, rdata_encodable, rdata_from_ok, rdata_from_post,
    rdata_wire, text_encodable, RDataType,
};
use crate::util::{be16, be16_bytes, be32, be32_bytes, push_u16, push_u32, read_u16_at, read_u32_at};

verus! {

/// One resource record: the owner name as dotted text, the envelope fields,
/// and the typed payload.
///
/// `rdlength` is an input when decoding (it bounds the RDATA slice) and is
/// recomputed from the payload when encoding.
#[derive(Debug, Clone, PartialEq, Eq)]
pub struct RR {
    pub name: String,
    pub typ: u16,
    pub class: u16,
    pub ttl: u32,
    pub rdlength: u16,
    pub rdata: RDataType,
}

/// Whether a record can be encoded at all: its owner name and payload are
/// well formed.
pub open spec fn rr_encodable(rr: RR) -> bool {
    text_encodable(rr.name@) && rdata_encodable(rr.rdata)
}

/// The bytes an encoded record appends at position `base` against the index
/// `cl`: the owner name, TYPE, CLASS, TTL, the RDLENGTH actually emitted,
/// and the payload.
pub open spec fn rr_wire(rr: RR, cl: Seq<(Seq<char>, int)>, comp: bool, base: int) -> Seq<u8> {
    let nw = name_wire_spec(rr.name@, cl, comp);
    let cl1 = name_cl_after(rr.name@, cl, comp, base);
    let rdw = rdata_wire(rr.rdata, cl1, comp, base + nw.len() + 10);
    nw + be16_bytes(rr.typ) + be16_bytes(rr.class) + be32_bytes(rr.ttl) + be16_bytes(
        rdw.len() as u16,
    ) + rdw
}

/// The index after one record is encoded at `base`.
pub open spec fn rr_cl_after(rr: RR, cl: Seq<(Seq<char>, int)>, comp: bool, base: int) -> Seq<
    (Seq<char>, int),
> {
    let nw = name_wire_spec(rr.name@, cl, comp);
    let cl1 = name_cl_after(rr.name@, cl, comp, base);
    rdata_cl_after(rr.rdata, cl1, comp, base + nw.len() + 10)
}

/// Whether one resource record can be read at `pos`: its name is accepted
/// with the usual ASCII and length bounds, the ten envelope bytes and
/// RDLENGTH bytes of payload fit, and the payload decodes for its TYPE.
pub open spec fn rr_ok_at(buf: Seq<u8>, pos: int) -> bool {
    let p = parse_name_full(buf, pos);
    let rdlen = be16(buf, p.end + 8) as int;
    &&& p.ok
    &&& crate::name::name_wire_len(p.labels) <= 255
    &&& crate::name::ascii_byte_name(p.labels)
    &&& p.end + 10 <= buf.len()
    &&& p.end + 10 + rdlen <= buf.len()
    &&& rdata_from_ok(buf, buf.subrange(p.end + 10, p.end + 10 + rdlen), p.end + 10, be16(
        buf,
        p.end,
    ))
}

/// The position just past the record at `pos`.
pub open spec fn rr_end_at(buf: Seq<u8>, pos: int) -> int {
    let p = parse_name_full(buf, pos);
    p.end + 10 + be16(buf, p.end + 8) as int
}

/// What a decoded record read at `pos` holds: the exact image of
/// [`RR::from`].
pub open spec fn rr_matches_at(rr: RR, buf: Seq<u8>, pos: int) -> bool {
    let p = parse_name_full(buf, pos);
    let rdlen = be16(buf, p.end + 8) as int;
    let rd = buf.subrange(p.end + 10, p.end + 10 + rdlen);
    &&& rr.name@ == name_text(p.labels)
    &&& rr.typ == be16(buf, p.end)
    &&& rr.class == be16(buf, p.end + 2)
    &&& rr.ttl == be32(buf, p.end + 4)
    &&& rr.rdlength == be16(buf, p.end + 8)
    &&& rdata_from_post(rr.rdata, buf, rd, p.end + 10, rr.typ)
}

impl RR {
    /// An empty record: root owner name, all fields zero, no payload.
    pub fn new() -> (r: Self)
        ensures
            r.name@.len() == 0,
            r.typ == 0,
            r.class == 0,
            r.ttl == 0,
            r.rdlength == 0,
            r.rdata is Empty,
    {
        RR {
            name: String::new(),
            typ: 0,
            class: 0,
            ttl: 0,
            rdlength: 0,
            rdata: RDataType::new(),
        }
    }

    /// Reads one record from `raw` at `*offset`: the owner name (possibly
    /// compressed), the four envelope fields, and RDLENGTH bytes of payload
    /// decoded by TYPE.  `*is_compressed` is set when the owner name
    /// followed a pointer.
    ///
    /// The read fails, with `*offset` and `*is_compressed` unmoved, exactly
    /// when the name is rejected, the envelope or payload overruns the
    /// buffer, or the payload does not decode for its TYPE.
    pub fn from(raw: &[u8], offset: &mut usize, is_compressed: &mut bool) -> (r: Result<
        Self,
        DnsError,
    >)
        ensures
            match r {
                Ok(rr) => {
                    &&& rr_ok_at(raw@, *old(offset) as int)
                    &&& rr_matches_at(rr, raw@, *old(offset) as int)
                    &&& *final(offset) == rr_end_at(raw@, *old(offset) as int)
                    &&& *old(offset) < *final(offset) <= raw@.len()
                    &&& *final(is_compressed) == (*old(is_compressed) || parse_name_full(
                        raw@,
                        *old(offset) as int,
                    ).ptr)
                },
                Err(e) => !rr_ok_at(raw@, *old(offset) as int) && *final(offset) == *old(offset)
                    && *final(is_compressed) == *old(is_compressed),
            },
    {
        let mut pos: usize = *offset;
        let (labels, ptr) = match Labels::parse_with_ptr(raw, &mut pos) {
            Ok(v) => v,
            Err(e) => {
                return Err(e);
            },
        };
        let ghost p = parse_name_full(raw@, *old(offset) as int);
        if raw.len() - pos < 10 {
            return Err(DnsError::Truncated);
        }
        let typ = read_u16_at(raw, pos);
        let class = read_u16_at(raw, pos + 2);
        let ttl = read_u32_at(raw, pos + 4);
        let rdlength = read_u16_at(raw, pos + 8);
        let rdstart = pos + 10;
        if raw.len() - rdstart < rdlength as usize {
            return Err(DnsError::Truncated);
        }
        let rdslice = vstd::slice::slice_subrange(raw, rdstart, rdstart + rdlength as usize);
        proof {
            assert(rdslice@ =~= raw@.subrange(p.end + 10, p.end + 10 + be16(raw@, p.end + 8)));
        }
        let rdata = match RDataType::from(raw, rdslice, rdstart, typ) {
            Ok(v) => v,
            Err(e) => {
                return Err(e);
            },
        };
        let name = labels.encode_to_str();
        proof {
            crate::name::lemma_chars_bytes_roundtrip(labels@);
            assert(crate::name::chars_of_labels(p.labels) == labels@);
        }
        *offset = rdstart + rdlength as usize;
        if ptr {
            *is_compressed = true;
        }
        Ok(RR { name, typ, class, ttl, rdlength, rdata })
    }

    /// The owner name, as dotted text.
    pub fn name(&self) -> (r: &str)
        ensures
            r@ == self.name@,
    {
        self.name.as_str()
    }

    /// Sets the owner name.
    pub fn with_name(&mut self, name: &str)
        ensures
            *final(self) == (RR { name: final(self).name, ..*old(self) }),
            final(self).name@ == name@,
    {
        self.name = name.to_owned();
    }

    /// The record type.
    pub fn typ(&self) -> (r: u16)
        ensures
            r == self.typ,
    {
        self.typ
    }

    /// Sets the record type.
    pub fn with_type(&mut self, typ: u16)
        ensures
            *final(self) == (RR { typ, ..*old(self) }),
    {
        self.typ = typ;
    }

    /// The record class.
    pub fn class(&self) -> (r: u16)
        ensures
            r == self.class,
    {
        self.class
    }

    /// Sets the record class.
    pub fn with_class(&mut self, class: u16)
        ensures
            *final(self) == (RR { class, ..*old(self) }),
    {
        self.class = class;
    }

    /// The time to live, in seconds.
    pub fn ttl(&self) -> (r: u32)
        ensures
            r == self.ttl,
    {
        self.ttl
    }

    /// Sets the time to live.
    pub fn with_ttl(&mut self, ttl: u32)
        ensures
            *final(self) == (RR { ttl, ..*old(self) }),
    {
        self.ttl = ttl;
    }

    /// The typed payload.
    pub fn rdata(&self) -> (r: &RDataType)
        ensures
            r == &self.rdata,
    {
        &self.rdata
    }

    /// Replaces the payload.
    pub fn with_rdata(&mut self, resource: RDataType)
        ensures
            *final(self) == (RR { rdata: resource, ..*old(self) }),
    {
        self.rdata = resource;
    }

    /// Appends this record's wire form through the compression index,
    /// backpatching RDLENGTH to the number of payload bytes actually
    /// emitted (truncated to 16 bits), and records that number in
    /// `self.rdlength`.
    pub fn encode(&mut self, raw: &mut Vec<u8>, cl: &mut CompressList, is_compressed: bool) -> (r:
        Result<(), DnsError>)
        ensures
            match r {
                Ok(_) => {
                    let wire = rr_wire(*old(self), old(cl)@, is_compressed, old(raw)@.len() as int);
                    &&& rr_encodable(*old(self))
                    &&& final(raw)@ == old(raw)@ + wire
                    &&& final(cl)@ == rr_cl_after(
                        *old(self),
                        old(cl)@,
                        is_compressed,
                        old(raw)@.len() as int,
                    )
                    &&& *final(self) == (RR { rdlength: final(self).rdlength, ..*old(self) })
                },
                Err(_) => !rr_encodable(*old(self)) && *final(raw) == *old(raw) && final(cl)@ == old(
                    cl,
                )@ && *final(self) == *old(self),
            },
    {
        if !crate::compress::name_encodable(self.name.as_str()) {
            return Err(DnsError::Malformed);
        }
        if !crate::rdata::rdata_is_encodable(&self.rdata) {
            return Err(DnsError::Malformed);
        }
        let ghost base = raw@.len() as int;
        let _ = match crate::rdata::encode_name_onto(self.name.as_str(), raw, cl, is_compressed)
        {
            Ok(n) => n,
            Err(_) => {
                return Err(DnsError::Malformed);
            },
        };
        push_u16(raw, self.typ);
        push_u16(raw, self.class);
        push_u32(raw, self.ttl);
        let patch_at = raw.len();
        push_u16(raw, 0);
        let ghost mid = raw@;
        let n = match self.rdata.encode(raw, cl, is_compressed) {
            Ok(n) => n,
            Err(_) => {
                return Err(DnsError::Malformed);
            },
        };
        let rdlen = n as u16;
        let cur_len = raw.len();
        proof {
            assert(cur_len >= 2 && patch_at <= cur_len - 2);
        }
        raw[patch_at] = (rdlen >> 8) as u8;
        raw[patch_at + 1] = (rdlen & 0xFF) as u8;
        self.rdlength = rdlen;
        proof {
            let wire = rr_wire(*old(self), old(cl)@, is_compressed, base);
            let nw = name_wire_spec(old(self).name@, old(cl)@, is_compressed);
            let cl1 = name_cl_after(old(self).name@, old(cl)@, is_compressed, base);
            let rdw = rdata_wire(old(self).rdata, cl1, is_compressed, base + nw.len() + 10);
            assert(raw@ =~= old(raw)@ + nw + be16_bytes(old(self).typ) + be16_bytes(
                old(self).class,
            ) + be32_bytes(old(self).ttl) + be16_bytes(rdw.len() as u16) + rdw);
            assert(raw@ =~= old(raw)@ + wire);
        }
        Ok(())
    }
}

/// An ordered run of resource records: one message section.
#[derive(Debug, Clone, PartialEq, Eq)]
pub struct RRs(pub Vec<RR>);

/// Whether every record of a section can be encoded.
pub open spec fn rrs_encodable(rrs: Seq<RR>) -> bool {
    forall|i: int| 0 <= i < rrs.len() ==> rr_encodable(#[trigger] rrs[i])
}

/// The bytes an encoded section appends at `base`: each record in order,
/// every one seeing the index as the previous ones left it.
pub open spec fn rrs_wire(rrs: Seq<RR>, cl: Seq<(Seq<char>, int)>, comp: bool, base: int) -> Seq<
    u8,
>
    decreases rrs.len(),
{
    if rrs.len() == 0 {
        Seq::empty()
    } else {
        let w = rr_wire(rrs[0], cl, comp, base);
        w + rrs_wire(rrs.drop_first(), rr_cl_after(rrs[0], cl, comp, base), comp, base + w.len())
    }
}

/// The index after a whole section is encoded at `base`.
pub open spec fn rrs_cl_after(
    rrs: Seq<RR>,
    cl: Seq<(Seq<char>, int)>,
    comp: bool,
    base: int,
) -> Seq<(Seq<char>, int)>
    decreases rrs.len(),
{
    if rrs.len() == 0 {
        cl
    } else {
        let w = rr_wire(rrs[0], cl, comp, base);
        rrs_cl_after(rrs.drop_first(), rr_cl_after(rrs[0], cl, comp, base), comp, base + w.len())
    }
}

impl RRs {
    /// An empty section.
    pub fn new() -> (r: Self)
        ensures
            r.0@.len() == 0,
    {
        RRs(Vec::new())
    }

    /// The number of records in the section.
    pub fn len(&self) -> (r: usize)
        ensures
            r == self.0@.len(),
    {
        self.0.len()
    }

    /// Appends one record.
    pub fn extend(&mut self, rr: RR)
        ensures
            final(self).0@ == old(self).0@.push(rr),
    {
        self.0.push(rr);
    }

    /// Appends the whole section's wire form through the compression index.
    /// Fails, leaving buffer and index unchanged, exactly when some record
    /// cannot be encoded.
    pub fn encode(&mut self, raw: &mut Vec<u8>, cl: &mut CompressList, is_compressed: bool) -> (r:
        Result<(), DnsError>)
        ensures
            match r {
                Ok(_) => {
                    &&& rrs_encodable(old(self).0@)
                    &&& final(raw)@ == old(raw)@ + rrs_wire(
                        old(self).0@,
                        old(cl)@,
                        is_compressed,
                        old(raw)@.len() as int,
                    )
                    &&& final(cl)@ == rrs_cl_after(
                        old(self).0@,
                        old(cl)@,
                        is_compressed,
                        old(raw)@.len() as int,
                    )
                    &&& final(self).0@.len() == old(self).0@.len()
                },
                Err(_) => !rrs_encodable(old(self).0@) && *final(raw) == *old(raw) && final(cl)@
                    == old(cl)@,
            },
    {
        let mut k: usize = 0;
        while k < self.0.len()
            invariant
                k <= self.0@.len(),
                *self == *old(self),
                *raw == *old(raw),
                *cl == *old(cl),
                forall|j: int| 0 <= j < k ==> rr_encodable(#[trigger] old(self).0@[j]),
            decreases self.0@.len() - k,
        {
            if !crate::compress::name_encodable(self.0[k].name.as_str()) {
                return Err(DnsError::Malformed);
            }
            if !crate::rdata::rdata_is_encodable(&self.0[k].rdata) {
                return Err(DnsError::Malformed);
            }
            k = k + 1;
        }
        let mut i: usize = 0;
        proof {
            assert(rrs_encodable(old(self).0@));
            assert(raw@.skip(old(raw)@.len() as int) =~= Seq::<u8>::empty());
            assert(self.0@.skip(0) =~= self.0@);
            assert(raw@.take(old(raw)@.len() as int) =~= old(raw)@);
        }
        loop
            invariant_except_break
                i <= self.0@.len(),
                self.0@.len() == old(self).0@.len(),
                forall|j: int| i <= j < self.0@.len() ==> self.0@[j] == old(self).0@[j],
                rrs_encodable(old(self).0@),
                old(raw)@.len() <= raw@.len(),
                raw@.take(old(raw)@.len() as int) == old(raw)@,
                rrs_wire(old(self).0@, old(cl)@, is_compressed, old(raw)@.len() as int) == raw@.skip(
                    old(raw)@.len() as int,
                ) + rrs_wire(old(self).0@.skip(i as int), cl@, is_compressed, raw@.len() as int),
                rrs_cl_after(old(self).0@, old(cl)@, is_compressed, old(raw)@.len() as int)
                    == rrs_cl_after(
                    old(self).0@.skip(i as int),
                    cl@,
                    is_compressed,
                    raw@.len() as int,
                ),
            ensures
                raw@ == old(raw)@ + rrs_wire(
                    old(self).0@,
                    old(cl)@,
                    is_compressed,
                    old(raw)@.len() as int,
                ),
                cl@ == rrs_cl_after(old(self).0@, old(cl)@, is_compressed, old(raw)@.len() as int),
                self.0@.len() == old(self).0@.len(),
            decreases self.0@.len() - i,
        {
            if i == self.0.len() {
                proof {
                    assert(old(self).0@.skip(i as int).len() == 0);
                    assert(raw@.skip(old(raw)@.len() as int) + Seq::<u8>::empty() =~= raw@.skip(
                        old(raw)@.len() as int,
                    ));
                    assert(raw@ =~= raw@.take(old(raw)@.len() as int) + raw@.skip(
                        old(raw)@.len() as int,
                    ));
                }
                break ;
            }
            let ghost pre_raw = raw@;
            let ghost pre_cl = cl@;
            let mut rr = self.0.remove(i);
            proof {
                assert(rr == old(self).0@[i as int]);
            }
            let res = rr.encode(raw, cl, is_compressed);
            proof {
                if res is Err {
                    assert(rr_encodable(old(self).0@[i as int]));
                    assert(false);
                }
            }
            self.0.insert(i, rr);
            proof {
                let rest = old(self).0@.skip(i as int);
                let w = rr_wire(old(self).0@[i as int], pre_cl, is_compressed, pre_raw.len() as int);
                assert(rest[0] == old(self).0@[i as int]);
                assert(rest.drop_first() =~= old(self).0@.skip(i + 1));
                assert(raw@.skip(old(raw)@.len() as int) =~= pre_raw.skip(old(raw)@.len() as int)
                    + w);
                assert(raw@.take(old(raw)@.len() as int) =~= old(raw)@);
                assert(raw@.len() == pre_raw.len() + w.len());
                assert(rrs_wire(rest, pre_cl, is_compressed, pre_raw.len() as int) == w + rrs_wire(
                    old(self).0@.skip(i + 1),
                    cl@,
                    is_compressed,
                    raw@.len() as int,
                ));
                assert(pre_raw.skip(old(raw)@.len() as int) + (w + rrs_wire(
                    old(self).0@.skip(i + 1),
                    cl@,
                    is_compressed,
                    raw@.len() as int,
                )) =~= raw@.skip(old(raw)@.len() as int) + rrs_wire(
                    old(self).0@.skip(i + 1),
                    cl@,
                    is_compressed,
                    raw@.len() as int,
                ));
                assert(rrs_cl_after(rest, pre_cl, is_compressed, pre_raw.len() as int)
                    == rrs_cl_after(
                    old(self).0@.skip(i + 1),
                    cl@,
                    is_compressed,
                    raw@.len() as int,
                ));
                assert(forall|j: int| i + 1 <= j < self.0@.len() ==> self.0@[j] == old(self).0@[j]);
            }
            i = i + 1;
        }
        Ok(())
    }
}


/// The pure image of a record: its fields lifted to spec views, so that two
/// records carrying the same data have the same image.
pub ghost struct RRView {
    pub name: Seq<char>,
    pub typ: u16,
    pub class: u16,
    pub ttl: u32,
    pub rdlength: u16,
    pub rdata: crate::rdata::RDataView,
}

impl View for RR {
    type V = RRView;

    open spec fn view(&self) -> RRView {
        RRView {
            name: self.name@,
            typ: self.typ,
            class: self.class,
            ttl: self.ttl,
            rdlength: self.rdlength,
            rdata: self.rdata@,
        }
    }
}

impl DeepView for RR {
    type V = RRView;

    open spec fn deep_view(&self) -> RRView {
        self.view()
    }
}

impl RR {
    /// A value-preserving copy: the copy has the same image.
    pub fn copy(&self) -> (c: RR)
        ensures
            c@ == self@,
    {
        RR {
            name: self.name.as_str().to_owned(),
            typ: self.typ,
            class: self.class,
            ttl: self.ttl,
            rdlength: self.rdlength,
            rdata: crate::rdata::copy_rdata(&self.rdata),
        }
    }
}


/// The canonical sort key of a record: its owner name's labels, rightmost
/// first, case-folded (RFC 4034 §6.1 over this library's ASCII names).
pub open spec fn canon_key(rr: RR) -> Seq<Seq<char>> {
    crate::trie::fold_path(crate::trie::name_path(rr.name@))
}

/// Strict lexicographic order on label paths: label by label in the
/// canonical character order, a proper prefix first.
pub open spec fn path_lt(a: Seq<Seq<char>>, b: Seq<Seq<char>>) -> bool
    decreases a.len(),
{
    if a.len() == 0 {
        b.len() > 0
    } else if b.len() == 0 {
        false
    } else if a[0] != b[0] {
        crate::trie::seq_lt(a[0], b[0])
    } else {
        path_lt(a.drop_first(), b.drop_first())
    }
}

/// The order is asymmetric: no two paths precede each other.
pub proof fn lemma_path_lt_asym(a: Seq<Seq<char>>, b: Seq<Seq<char>>)
    requires
        path_lt(a, b),
    ensures
        !path_lt(b, a),
    decreases a.len(),
{
    if a.len() > 0 && b.len() > 0 {
        if a[0] != b[0] {
            crate::trie::lemma_seq_lt_asym(a[0], b[0]);
        } else {
            lemma_path_lt_asym(a.drop_first(), b.drop_first());
        }
    }
}

/// Dropping the same matched prefix leaves the path order unchanged.
pub proof fn lemma_path_lt_skip(a: Seq<Seq<char>>, b: Seq<Seq<char>>, i: int)
    requires
        0 <= i <= a.len(),
        0 <= i <= b.len(),
        forall|j: int| 0 <= j < i ==> a[j] == b[j],
    ensures
        path_lt(a, b) == path_lt(a.skip(i), b.skip(i)),
    decreases i,
{
    if i > 0 {
        assert(a[0] == b[0]);
        assert(a.drop_first() =~= a.skip(1));
        assert(b.drop_first() =~= b.skip(1));
        assert forall|j: int| 0 <= j < i - 1 implies a.skip(1)[j] == b.skip(1)[j] by {
            assert(a[j + 1] == b[j + 1]);
        }
        lemma_path_lt_skip(a.skip(1), b.skip(1), i - 1);
        assert(a.skip(1).skip(i - 1) =~= a.skip(i));
        assert(b.skip(1).skip(i - 1) =~= b.skip(i));
        assert(a.len() > 0 && b.len() > 0);
    } else {
        assert(a.skip(0) =~= a);
        assert(b.skip(0) =~= b);
    }
}

/// A section in canonical owner-name order: no record's key precedes its
/// predecessor's.
pub open spec fn rrs_canonical(s: Seq<RR>) -> bool {
    forall|i: int|
        0 <= i < s.len() - 1 ==> !path_lt(canon_key(#[trigger] s[i + 1]), canon_key(s[i]))
}

/// Canonical comparison of two records by owner name, rightmost label
/// first.
fn rr_lt(a: &RR, b: &RR) -> (r: bool)
    requires
        vstd::utf8::is_ascii_chars(a.name@),
        vstd::utf8::is_ascii_chars(b.name@),
    ensures
        r == path_lt(canon_key(*a), canon_key(*b)),
{
    let pa = crate::name::split_name(a.name.as_str());
    let pb = crate::name::split_name(b.name.as_str());
    let la = pa.len();
    let lb = pb.len();
    let ghost ka = canon_key(*a);
    let ghost kb = canon_key(*b);
    proof {
        assert(ka.len() == la && kb.len() == lb);
        assert(ka.skip(0) =~= ka);
        assert(kb.skip(0) =~= kb);
    }
    let mut k: usize = 0;
    loop
        invariant_except_break
            k <= la,
            k <= lb,
            la == pa@.len() && lb == pb@.len(),
            pa.deep_view() == crate::name::split_dots(a.name@),
            pb.deep_view() == crate::name::split_dots(b.name@),
            ka == canon_key(*a) && kb == canon_key(*b),
            ka.len() == la && kb.len() == lb,
            forall|j: int| 0 <= j < k ==> ka[j] == kb[j],
            path_lt(ka, kb) == path_lt(ka.skip(k as int), kb.skip(k as int)),
        ensures
            true,
        decreases la - k,
    {
        proof {
            lemma_path_lt_skip(ka, kb, k as int);
        }
        if k >= la || k >= lb {
            proof {
                assert(ka.skip(k as int).len() == ka.len() - k);
                assert(kb.skip(k as int).len() == kb.len() - k);
            }
            return k >= la && k < lb;
        }
        let sa: &String = &pa[la - 1 - k];
        let sb: &String = &pb[lb - 1 - k];
        proof {
            assert(ka[k as int] == crate::name::lower_seq(sa@)) by {
                assert(crate::trie::name_path(a.name@)[k as int] == crate::name::split_dots(
                    a.name@,
                )[la - 1 - k]);
                assert(pa.deep_view()[la - 1 - k] == sa@);
            }
            assert(kb[k as int] == crate::name::lower_seq(sb@)) by {
                assert(crate::trie::name_path(b.name@)[k as int] == crate::name::split_dots(
                    b.name@,
                )[lb - 1 - k]);
                assert(pb.deep_view()[lb - 1 - k] == sb@);
            }
            assert(ka.skip(k as int)[0] == ka[k as int]);
            assert(kb.skip(k as int)[0] == kb[k as int]);
            assert(ka.skip(k as int).drop_first() =~= ka.skip(k + 1));
            assert(kb.skip(k as int).drop_first() =~= kb.skip(k + 1));
        }
        if !crate::name::str_eq_fold(sa.as_str(), sb.as_str()) {
            return crate::trie::str_lt_fold(sa.as_str(), sb.as_str());
        }
        k = k + 1;
    }
}

/// Inserting an element anywhere adds exactly it to the multiset.
proof fn lemma_insert_to_multiset(s: Seq<RR>, j: int, x: RR)
    requires
        0 <= j <= s.len(),
    ensures
        s.insert(j, x).to_multiset() == s.to_multiset().insert(x),
{
    broadcast use vstd::seq_lib::group_to_multiset_ensures;

    assert(s.insert(j, x) =~= s.take(j) + (seq![x] + s.skip(j)));
    vstd::seq_lib::lemma_multiset_commutative(s.take(j), seq![x] + s.skip(j));
    vstd::seq_lib::lemma_multiset_commutative(seq![x], s.skip(j));
    vstd::seq_lib::lemma_multiset_commutative(s.take(j), s.skip(j));
    assert(s =~= s.take(j) + s.skip(j));
    assert(seq![x] =~= Seq::<RR>::empty().push(x));
    assert(Seq::<RR>::empty().push(x).to_multiset() =~= Seq::<RR>::empty().to_multiset().insert(
        x,
    ));
    assert(Seq::<RR>::empty().to_multiset() =~= vstd::multiset::Multiset::<RR>::empty()) by {
        assert(Seq::<RR>::empty().to_multiset().len() == 0);
    }
    assert(s.insert(j, x).to_multiset() =~= s.to_multiset().insert(x));
}

impl RRs {
    /// Sorts the section into canonical owner-name order (case-folded
    /// labels, rightmost first, RFC 4034 §6.1), keeping exactly the same
    /// records.
    pub fn sort(&mut self)
        requires
            forall|m: int|
                0 <= m < old(self).0@.len() ==> vstd::utf8::is_ascii_chars(
                    (#[trigger] old(self).0@[m]).name@,
                ),
        ensures
            final(self).0@.to_multiset() == old(self).0@.to_multiset(),
            final(self).0@.len() == old(self).0@.len(),
            rrs_canonical(final(self).0@),
    {
        if self.0.len() < 2 {
            proof {
                assert(rrs_canonical(self.0@));
            }
            return ;
        }
        proof {
            broadcast use vstd::seq_lib::group_to_multiset_ensures;

            assert(rrs_canonical(self.0@.take(1)));
        }
        let mut i: usize = 1;
        while i < self.0.len()
            invariant
                1 <= i <= self.0@.len(),
                self.0@.len() == old(self).0@.len(),
                self.0@.to_multiset() == old(self).0@.to_multiset(),
                forall|m: int|
                    0 <= m < self.0@.len() ==> vstd::utf8::is_ascii_chars(
                        (#[trigger] self.0@[m]).name@,
                    ),
                rrs_canonical(self.0@.take(i as int)),
            decreases self.0@.len() - i,
        {
            let ghost cur = self.0@;
            let x = self.0.remove(i);
            proof {
                broadcast use vstd::seq_lib::group_to_multiset_ensures;

                assert(self.0@ =~= cur.remove(i as int));
                assert(x == cur[i as int]);
                assert(self.0@.to_multiset() =~= cur.to_multiset().remove(x));
                assert forall|m: int|
                    0 <= m < self.0@.len() implies vstd::utf8::is_ascii_chars(
                    (#[trigger] self.0@[m]).name@,
                ) by {
                    if m < i {
                        assert(self.0@[m] == cur[m]);
                    } else {
                        assert(self.0@[m] == cur[m + 1]);
                    }
                }
                assert(self.0@.take(i as int) =~= cur.take(i as int));
            }
            let mut j: usize = 0;
            loop
                invariant_except_break
                    j <= i,
                    i < cur.len(),
                    self.0@ == cur.remove(i as int),
                    x == cur[i as int],
                    vstd::utf8::is_ascii_chars(x.name@),
                    forall|m: int|
                        0 <= m < self.0@.len() ==> vstd::utf8::is_ascii_chars(
                            (#[trigger] self.0@[m]).name@,
                        ),
                    forall|m: int| 0 <= m < j ==> path_lt(canon_key(#[trigger] self.0@[m]), canon_key(x)),
                ensures
                    j <= i,
                    i < cur.len(),
                    self.0@ == cur.remove(i as int),
                    x == cur[i as int],
                    forall|m: int| 0 <= m < j ==> path_lt(canon_key(#[trigger] self.0@[m]), canon_key(x)),
                    j < i ==> !path_lt(canon_key(self.0@[j as int]), canon_key(x)),
                decreases i - j,
            {
                if j == i {
                    break ;
                }
                if !rr_lt(&self.0[j], &x) {
                    break ;
                }
                j = j + 1;
            }
            let ghost v = self.0@;
            let ghost jj = j as int;
            self.0.insert(j, x);
            proof {
                broadcast use vstd::seq_lib::group_to_multiset_ensures;

                assert(self.0@ =~= v.insert(jj, x));
                lemma_insert_to_multiset(v, jj, x);
                assert(cur.to_multiset().contains(x)) by {
                    assert(cur.contains(x)) by {
                        assert(cur[i as int] == x);
                    }
                }
                assert(self.0@.to_multiset() =~= cur.to_multiset());
                assert forall|m: int|
                    0 <= m < self.0@.len() implies vstd::utf8::is_ascii_chars(
                    (#[trigger] self.0@[m]).name@,
                ) by {
                    if m < jj {
                        assert(self.0@[m] == v[m]);
                    } else if m == jj {
                    } else {
                        assert(self.0@[m] == v[m - 1]);
                    }
                }
                assert(rrs_canonical(self.0@.take(i + 1))) by {
                    assert forall|m: int|
                        0 <= m < i implies !path_lt(
                        canon_key(#[trigger] self.0@.take(i + 1)[m + 1]),
                        canon_key(self.0@.take(i + 1)[m]),
                    ) by {
                        assert(self.0@.take(i + 1)[m] == self.0@[m]);
                        assert(self.0@.take(i + 1)[m + 1] == self.0@[m + 1]);
                        assert(v.take(i as int) =~= cur.take(i as int));
                        if m + 1 < jj {
                            assert(self.0@[m] == v[m] && self.0@[m + 1] == v[m + 1]);
                            assert(!path_lt(canon_key(cur[m + 1]), canon_key(cur[m])));
                        } else if m + 1 == jj {
                            assert(self.0@[m] == v[m]);
                            assert(self.0@[m + 1] == x);
                            lemma_path_lt_asym(canon_key(v[m]), canon_key(x));
                        } else if m == jj {
                            assert(self.0@[m] == x);
                            assert(self.0@[m + 1] == v[m]);
                        } else {
                            assert(self.0@[m] == v[m - 1] && self.0@[m + 1] == v[m]);
                            assert(v[m - 1] == cur[m - 1] && v[m] == cur[m]);
                            assert(cur.take(i as int)[m - 1] == cur[m - 1]);
                            assert(cur.take(i as int)[m] == cur[m]);
                            assert(!path_lt(
                                canon_key(cur.take(i as int)[m - 1 + 1]),
                                canon_key(cur.take(i as int)[m - 1]),
                            ));
                        }
                    }
                }
            }
            i = i + 1;
        }
        proof {
            assert(self.0@.take(self.0@.len() as int) =~= self.0@);
        }
    }
}

} // verus!
