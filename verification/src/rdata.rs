//! RDATA payloads: the per-type decoders and encoders, and the helpers they
//! share.
//!
//! Domain names inside RDATA may be compressed like any other: a pointer in
//! the RDATA bytes jumps into the whole message.  The helpers here therefore
//! read from two buffers at once, the RDATA slice for labels and the full
//! message for pointer targets.

use vstd::prelude::*;
use crate::errors::DnsError;
use crate::compress::{
    encodable_name, encode_domain_name_wrap, encode_wrap_bytes, name_encodable, push_spec,
    CompressList,
};
use crate::name::{dotted, name_text, plain_wire};
use crate::util::{be16, be16_bytes, be32, be32_bytes, push_u16, push_u32, read_u16_at, read_u32_at};
use crate::name::{
    ascii_byte_name, labels_from_bytes, labels_ok, name_parse_fail, name_to_bytes, name_wire_len,
    parse_name_full, parse_name_rec, NameParse, Labels,
};

verus! {

/// One domain name read from RDATA at `pos`: labels come from the RDATA
/// slice, and a pointer continues in the whole message, where the usual
/// decoder with its cycle guard takes over.  `base` is the RDATA slice's
/// absolute offset in the message: a pointer must land strictly before its
/// own absolute position `base + pos`, the same guard every other name
/// obeys.
pub open spec fn parse_rd_name(raw: Seq<u8>, rd: Seq<u8>, base: int, pos: int) -> NameParse
    decreases rd.len() - pos,
{
    if pos < 0 || pos >= rd.len() {
        name_parse_fail()
    } else {
        let b = rd[pos];
        if b == 0 {
            NameParse { ok: true, labels: Seq::empty(), end: pos + 1, ptr: false }
        } else if b & 0xC0 == 0xC0 {
            if pos + 1 >= rd.len() {
                name_parse_fail()
            } else {
                let target = (b & 0x3F) * 256 + rd[pos + 1];
                if target >= base + pos {
                    name_parse_fail()
                } else {
                    let inner = parse_name_full(raw, target as int);
                    if inner.ok {
                        NameParse { ok: true, labels: inner.labels, end: pos + 2, ptr: true }
                    } else {
                        name_parse_fail()
                    }
                }
            }
        } else if b > 63 {
            name_parse_fail()
        } else if pos + 1 + b > rd.len() {
            name_parse_fail()
        } else {
            let rest = parse_rd_name(raw, rd, base, pos + 1 + b);
            if rest.ok {
                NameParse {
                    ok: true,
                    labels: seq![rd.subrange(pos + 1, pos + 1 + b)] + rest.labels,
                    end: rest.end,
                    ptr: rest.ptr,
                }
            } else {
                name_parse_fail()
            }
        }
    }
}

/// A successful RDATA name read moves forward and stays inside the slice.
pub proof fn lemma_parse_rd_name_end(raw: Seq<u8>, rd: Seq<u8>, base: int, pos: int)
    requires
        parse_rd_name(raw, rd, base, pos).ok,
    ensures
        pos < parse_rd_name(raw, rd, base, pos).end <= rd.len(),
        labels_ok(parse_rd_name(raw, rd, base, pos).labels),
    decreases rd.len() - pos,
{
    let b = rd[pos];
    if b != 0 && !(b & 0xC0 == 0xC0) {
        lemma_parse_rd_name_end(raw, rd, base, pos + 1 + b);
        let rest = parse_rd_name(raw, rd, base, pos + 1 + b);
        let p = parse_rd_name(raw, rd, base, pos);
        assert(p.labels.drop_first() =~= rest.labels);
        assert(p.labels[0].len() == b);
    } else if b & 0xC0 == 0xC0 {
        let p = parse_rd_name(raw, rd, base, pos);
        assert(p.ok);
        assert(b != 0) by (bit_vector)
            requires
                b & 0xC0 == 0xC0,
        ;
        assert(0 <= pos < rd.len());
        assert(pos + 1 < rd.len()) by {
            if pos + 1 >= rd.len() {
                assert(p == name_parse_fail());
            }
        }
        let target = (b & 0x3F) * 256 + rd[pos + 1];
        let inner = parse_name_full(raw, target as int);
        assert(inner.ok) by {
            if !inner.ok {
                assert(p == name_parse_fail());
            }
        }
        crate::name::lemma_parse_labels_ok(raw, target as int, raw.len() as nat);
    }
}

/// The exact exec mirror of [`parse_rd_name`], bounded like the plain name
/// decoder: a name over 255 wire bytes is rejected.
pub fn parse_rd_name_rec(raw: &[u8], rd: &[u8], base: usize, pos: usize, budget: usize) -> (r:
    Result<(Vec<Vec<u8>>, usize, bool), DnsError>)
    ensures
        match r {
            Ok((labels, end, ptr)) => {
                let p = parse_rd_name(raw@, rd@, base as int, pos as int);
                p.ok && labels.deep_view() == p.labels && end == p.end && ptr == p.ptr
                    && name_wire_len(p.labels) <= budget && pos < end <= rd@.len() && labels_ok(
                    p.labels,
                )
            },
            Err(e) => {
                let p = parse_rd_name(raw@, rd@, base as int, pos as int);
                (!p.ok || name_wire_len(p.labels) > budget) && (e == DnsError::Truncated || e
                    == DnsError::Malformed)
            },
        },
    decreases rd@.len() - pos,
{
    if pos >= rd.len() {
        return Err(DnsError::Truncated);
    }
    let b = rd[pos];
    if b == 0 {
        if budget < 1 {
            return Err(DnsError::Malformed);
        }
        return Ok((Vec::new(), pos + 1, false));
    }
    if b & 0xC0 == 0xC0 {
        if pos + 1 >= rd.len() {
            return Err(DnsError::Truncated);
        }
        let target: usize = ((b & 0x3F) as usize) * 256 + rd[pos + 1] as usize;
        if target >= base && target - base >= pos {
            return Err(DnsError::Malformed);
        }
        match parse_name_rec(raw, target, raw.len(), budget) {
            Ok((labels, _, _)) => {
                return Ok((labels, pos + 2, true));
            },
            Err(e) => {
                return Err(e);
            },
        }
    }
    if b > 63 {
        return Err(DnsError::Malformed);
    }
    let blen = b as usize;
    let rem = rd.len() - pos;
    if blen + 1 > rem {
        return Err(DnsError::Truncated);
    }
    if budget < 2 + blen {
        proof {
            let p = parse_rd_name(raw@, rd@, base as int, pos as int);
            if p.ok {
                let rest = parse_rd_name(raw@, rd@, base as int, pos + 1 + blen);
                crate::name::lemma_name_wire_len_pos(rest.labels);
                assert(p.labels.drop_first() =~= rest.labels);
                assert(name_wire_len(p.labels) == 1 + blen + name_wire_len(rest.labels));
            }
        }
        return Err(DnsError::Malformed);
    }
    let label: Vec<u8> = vstd::slice::slice_to_vec(
        vstd::slice::slice_subrange(rd, pos + 1, pos + 1 + blen),
    );
    match parse_rd_name_rec(raw, rd, base, pos + 1 + blen, budget - (1 + blen)) {
        Ok((rest, end, ptr)) => {
            let mut out = rest;
            out.insert(0, label);
            proof {
                let p = parse_rd_name(raw@, rd@, base as int, pos as int);
                let restp = parse_rd_name(raw@, rd@, base as int, pos + 1 + blen);
                assert(out.deep_view() =~~= seq![rd@.subrange(pos + 1, pos + 1 + blen)]
                    + restp.labels);
                assert(p.labels.drop_first() =~= restp.labels);
                assert(name_wire_len(p.labels) == 1 + blen + name_wire_len(restp.labels));
            }
            Ok((out, end, ptr))
        },
        Err(e) => {
            proof {
                let p = parse_rd_name(raw@, rd@, base as int, pos as int);
                let restp = parse_rd_name(raw@, rd@, base as int, pos + 1 + blen);
                if p.ok {
                    assert(p.labels.drop_first() =~= restp.labels);
                    assert(name_wire_len(p.labels) == 1 + blen + name_wire_len(restp.labels));
                }
            }
            Err(e)
        },
    }
}

/// Every domain name packed back to back in an RDATA slice, which the names
/// must fill exactly; `None` when any name is rejected.
pub open spec fn rd_names_at(raw: Seq<u8>, rd: Seq<u8>, base: int, pos: int) -> Option<
    Seq<Seq<Seq<u8>>>,
>
    decreases rd.len() - pos,
    via rd_names_at_decreases
{
    if pos >= rd.len() {
        Some(Seq::empty())
    } else {
        let p = parse_rd_name(raw, rd, base, pos);
        if !p.ok || name_wire_len(p.labels) > 255 || !ascii_byte_name(p.labels) {
            None
        } else {
            match rd_names_at(raw, rd, base, p.end) {
                Some(rest) => Some(seq![p.labels] + rest),
                None => None,
            }
        }
    }
}

#[via_fn]
proof fn rd_names_at_decreases(raw: Seq<u8>, rd: Seq<u8>, base: int, pos: int) {
    if 0 <= pos < rd.len() {
        let p = parse_rd_name(raw, rd, base, pos);
        if p.ok {
            lemma_parse_rd_name_end(raw, rd, base, pos);
        }
    }
}

/// One domain name decoded from RDATA at `*cursor` into text labels,
/// reporting whether a pointer was followed; exact against
/// [`parse_rd_name`] at the slice's absolute offset `base`, with the same
/// ASCII and length bounds as [`Labels::parse`].
pub(crate) fn parse_one_rd_name(raw: &[u8], rd: &[u8], base: usize, cursor: &mut usize) -> (r: Result<
    (Labels, bool),
    DnsError,
>)
    ensures
        match r {
            Ok((l, ptr)) => {
                let p = parse_rd_name(raw@, rd@, base as int, *old(cursor) as int);
                p.ok && name_to_bytes(l@) == p.labels && l.wf() && ptr == p.ptr && *final(cursor)
                    == p.end && *old(cursor) < p.end <= rd@.len() && name_wire_len(p.labels) <= 255
                    && ascii_byte_name(p.labels)
            },
            Err(e) => {
                let p = parse_rd_name(raw@, rd@, base as int, *old(cursor) as int);
                (!p.ok || name_wire_len(p.labels) > 255 || !ascii_byte_name(p.labels))
                    && *final(cursor) == *old(cursor)
            },
        },
{
    let start: usize = *cursor;
    match parse_rd_name_rec(raw, rd, base, start, 255) {
        Err(e) => Err(e),
        Ok((labs, end, ptr)) => {
            let ghost p = parse_rd_name(raw@, rd@, base as int, start as int);
            match labels_from_bytes(&labs) {
                Ok(l) => {
                    proof {
                        assert(name_to_bytes(l@) == p.labels);
                    }
                    *cursor = end;
                    Ok((l, ptr))
                },
                Err(e) => {
                    proof {
                        assert(!ascii_byte_name(p.labels));
                    }
                    Err(e)
                },
            }
        },
    }
}

/// The domain names an RDATA slice holds, back to back until the slice is
/// exhausted.  `base` is the slice's absolute offset in the message.
///
/// Labels are read from the RDATA slice; a compression pointer continues in
/// the whole message, and must land strictly before its own absolute
/// position `base + pos`.  The read fails exactly when a name is malformed
/// or truncated, over 255 wire bytes, or not ASCII.
pub fn parse_domain_name(raw: &[u8], rdata: &[u8], base: usize) -> (r: Result<Vec<Labels>, DnsError>)
    ensures
        match r {
            Ok(v) => {
                &&& rd_names_at(raw@, rdata@, base as int, 0) matches Some(ns)
                &&& v@.len() == ns.len()
                &&& forall|i: int|
                    0 <= i < v@.len() ==> name_to_bytes(#[trigger] v@[i]@) == ns[i] && v@[i].wf()
            },
            Err(e) => rd_names_at(raw@, rdata@, base as int, 0) is None,
        },
{
    let mut out: Vec<Labels> = Vec::new();
    let ghost mut done: Seq<Seq<Seq<u8>>> = Seq::empty();
    let mut pos: usize = 0;
    loop
        invariant_except_break
            pos <= rdata@.len(),
            out@.len() == done.len(),
            forall|i: int|
                0 <= i < out@.len() ==> name_to_bytes((#[trigger] out@[i])@) == done[i]
                    && out@[i].wf(),
            rd_names_at(raw@, rdata@, base as int, 0) == (if rd_names_at(raw@, rdata@, base as int, pos as int) is Some {
                Some(done + rd_names_at(raw@, rdata@, base as int, pos as int)->Some_0)
            } else {
                None::<Seq<Seq<Seq<u8>>>>
            }),
        ensures
            rd_names_at(raw@, rdata@, base as int, 0) == Some(done),
            out@.len() == done.len(),
            forall|i: int|
                0 <= i < out@.len() ==> name_to_bytes((#[trigger] out@[i])@) == done[i]
                    && out@[i].wf(),
        decreases rdata@.len() - pos,
    {
        if pos >= rdata.len() {
            proof {
                assert(rd_names_at(raw@, rdata@, base as int, pos as int) == Some(Seq::<Seq<Seq<u8>>>::empty()));
                assert(done + Seq::<Seq<Seq<u8>>>::empty() =~= done);
                assert(rd_names_at(raw@, rdata@, base as int, 0) == Some(done));
            }
            break ;
        }
        let mut cursor: usize = pos;
        match parse_one_rd_name(raw, rdata, base, &mut cursor) {
            Ok((labels, _ptr)) => {
                let ghost p = parse_rd_name(raw@, rdata@, base as int, pos as int);
                out.push(labels);
                proof {
                    let olddone = done;
                    done = done.push(p.labels);
                    assert(done =~= olddone + seq![p.labels]);
                    if rd_names_at(raw@, rdata@, base as int, p.end) is Some {
                        let rest2 = rd_names_at(raw@, rdata@, base as int, p.end)->Some_0;
                        assert(rd_names_at(raw@, rdata@, base as int, pos as int) == Some(
                            seq![p.labels] + rest2,
                        ));
                        assert(olddone + (seq![p.labels] + rest2) =~= done + rest2);
                    } else {
                        assert(rd_names_at(raw@, rdata@, base as int, pos as int) is None);
                    }
                }
                pos = cursor;
            },
            Err(e) => {
                proof {
                    assert(rd_names_at(raw@, rdata@, base as int, pos as int) is None);
                    assert(rd_names_at(raw@, rdata@, base as int, 0) is None);
                }
                return Err(e);
            },
        }
    }
    Ok(out)
}


/// The character-strings packed back to back in an RDATA slice: each is a
/// length octet and that many bytes; `None` when a length overruns the slice.
pub open spec fn char_strings_at(rd: Seq<u8>, pos: int) -> Option<Seq<Seq<u8>>>
    decreases rd.len() - pos,
{
    if pos >= rd.len() {
        Some(Seq::empty())
    } else {
        let b = rd[pos];
        if pos + 1 + b > rd.len() {
            None
        } else {
            match char_strings_at(rd, pos + 1 + b) {
                Some(rest) => Some(seq![rd.subrange(pos + 1, pos + 1 + b)] + rest),
                None => None,
            }
        }
    }
}

/// Splits an RDATA slice into its character-strings: each is one length
/// octet and that many bytes, until the slice is exhausted.  Fails exactly
/// when a length octet overruns the slice.
pub fn parse_charactor_string(rdata: &[u8]) -> (r: Result<Vec<Vec<u8>>, DnsError>)
    ensures
        match r {
            Ok(v) => char_strings_at(rdata@, 0) == Some(v.deep_view()),
            Err(e) => char_strings_at(rdata@, 0) is None && e == DnsError::Truncated,
        },
{
    let mut out: Vec<Vec<u8>> = Vec::new();
    let mut pos: usize = 0;
    loop
        invariant_except_break
            pos <= rdata@.len(),
            char_strings_at(rdata@, 0) == (if char_strings_at(rdata@, pos as int) is Some {
                Some(out.deep_view() + char_strings_at(rdata@, pos as int)->Some_0)
            } else {
                None::<Seq<Seq<u8>>>
            }),
        ensures
            char_strings_at(rdata@, 0) == Some(out.deep_view()),
        decreases rdata@.len() - pos,
    {
        if pos >= rdata.len() {
            proof {
                assert(out.deep_view() + Seq::<Seq<u8>>::empty() =~= out.deep_view());
            }
            break ;
        }
        let b = rdata[pos] as usize;
        let rem = rdata.len() - pos;
        if b + 1 > rem {
            return Err(DnsError::Truncated);
        }
        let seg: Vec<u8> = vstd::slice::slice_to_vec(
            vstd::slice::slice_subrange(rdata, pos + 1, pos + 1 + b),
        );
        let ghost pre = out.deep_view();
        out.push(seg);
        proof {
            assert(out.deep_view() =~~= pre + seq![rdata@.subrange(pos + 1, pos + 1 + b)]);
            if char_strings_at(rdata@, pos + 1 + b) is Some {
                let rest = char_strings_at(rdata@, pos + 1 + b)->Some_0;
                assert(char_strings_at(rdata@, pos as int) == Some(
                    seq![rdata@.subrange(pos + 1, pos + 1 + b)] + rest,
                ));
                assert(pre + (seq![rdata@.subrange(pos + 1, pos + 1 + b)] + rest) =~= out.deep_view()
                    + rest);
            }
        }
        pos = pos + 1 + b;
    }
    Ok(out)
}

/// The first domain name an RDATA slice holds, as dotted text; the slice
/// must consist of names and hold at least one.
fn rd_single_name(raw: &[u8], rdata: &[u8], base: usize) -> (r: Result<String, DnsError>)
    ensures
        match r {
            Ok(s) => {
                &&& rd_names_at(raw@, rdata@, base as int, 0) matches Some(ns)
                &&& ns.len() >= 1
                &&& s@ == name_text(ns[0])
            },
            Err(e) => !(rd_names_at(raw@, rdata@, base as int, 0) matches Some(ns) && ns.len() >= 1),
        },
{
    let names = match parse_domain_name(raw, rdata, base) {
        Ok(v) => v,
        Err(e) => {
            return Err(e);
        },
    };
    if names.len() < 1 {
        return Err(DnsError::Malformed);
    }
    let s = names[0].encode_to_str();
    proof {
        let ns = rd_names_at(raw@, rdata@, base as int, 0)->Some_0;
        crate::name::lemma_chars_bytes_roundtrip(names@[0]@);
        assert(crate::name::chars_of_labels(ns[0]) == names@[0]@);
    }
    Ok(s)
}

/// Appends one domain name through the compression index; the byte count of
/// what was appended comes back.
pub(crate) fn encode_name_onto(
    domain: &str,
    out: &mut Vec<u8>,
    cl: &mut CompressList,
    is_compressed: bool,
) -> (r: Result<usize, DnsError>)
    requires
        encodable_name(domain@, domain.is_ascii()),
    ensures
        ({
            let wire = if is_compressed {
                encode_wrap_bytes(old(cl)@, domain@)
            } else {
                plain_wire(domain@)
            };
            match r {
                Ok(n) => final(out)@ == old(out)@ + wire && n == wire.len() && final(cl)@ == (
                if is_compressed {
                    push_spec(old(cl)@, domain@, old(out)@.len() as int)
                } else {
                    old(cl)@
                }),
                Err(_) => false,
            }
        }),
{
    let base = out.len();
    match encode_domain_name_wrap(domain, cl, is_compressed, base) {
        Ok(bytes) => {
            let n = bytes.len();
            let mut tmp = bytes;
            out.append(&mut tmp);
            Ok(n)
        },
        Err(e) => Err(e),
    }
}


/// Whether an RDATA slice holds at least one well-formed domain name and
/// nothing but names.
pub open spec fn single_name_ok(raw: Seq<u8>, rd: Seq<u8>, base: int) -> bool {
    rd_names_at(raw, rd, base, 0) matches Some(ns) && ns.len() >= 1
}

/// The dotted text of the first domain name in an RDATA slice.
pub open spec fn single_name_text(raw: Seq<u8>, rd: Seq<u8>, base: int) -> Seq<char> {
    name_text(rd_names_at(raw, rd, base, 0)->Some_0[0])
}

/// A name the encoders accept, stated over its text alone.
pub open spec fn text_encodable(s: Seq<char>) -> bool {
    encodable_name(s, vstd::utf8::is_ascii_chars(s))
}

/// The wire bytes of one name, compressed against the index or plain.
pub open spec fn name_wire_spec(name: Seq<char>, cl: Seq<(Seq<char>, int)>, comp: bool) -> Seq<
    u8,
> {
    if comp {
        encode_wrap_bytes(cl, name)
    } else {
        plain_wire(name)
    }
}

/// The index after one name is encoded at `base`: suffixes are offered only
/// when compression is on.
pub open spec fn name_cl_after(
    name: Seq<char>,
    cl: Seq<(Seq<char>, int)>,
    comp: bool,
    base: int,
) -> Seq<(Seq<char>, int)> {
    if comp {
        push_spec(cl, name, base)
    } else {
        cl
    }
}

/// RDATA holding one compressible domain name: the canonical name of an alias (TYPE 5).
#[derive(Debug, Clone, PartialEq, Eq)]
pub struct CName(pub String);

impl CName {
    /// Decodes the RDATA of a record of this type.
    pub fn from(raw: &[u8], rdata: &[u8], base: usize) -> (r: Result<Self, DnsError>)
        ensures
            match r {
                Ok(v) => single_name_ok(raw@, rdata@, base as int) && v.0@ == single_name_text(
                    raw@,
                    rdata@,
                    base as int,
                ),
                Err(_) => !single_name_ok(raw@, rdata@, base as int),
            },
    {
        let mut v = CName(String::new());
        match v.decode(raw, rdata, base) {
            Ok(_) => Ok(v),
            Err(e) => Err(e),
        }
    }

    /// Re-reads this RDATA in place; on failure the value is unchanged.
    pub fn decode(&mut self, raw: &[u8], rdata: &[u8], base: usize) -> (r: Result<(), DnsError>)
        ensures
            match r {
                Ok(_) => single_name_ok(raw@, rdata@, base as int) && final(self).0@
                    == single_name_text(raw@, rdata@, base as int),
                Err(_) => !single_name_ok(raw@, rdata@, base as int) && *final(self) == *old(
                    self,
                ),
            },
    {
        match rd_single_name(raw, rdata, base) {
            Ok(s) => {
                self.0 = s;
                Ok(())
            },
            Err(e) => Err(e),
        }
    }

    /// Appends this RDATA's wire form through the compression index; the
    /// count of bytes appended comes back.
    pub fn encode(&self, raw: &mut Vec<u8>, cl: &mut CompressList, is_compressed: bool) -> (r:
        Result<usize, DnsError>)
        ensures
            match r {
                Ok(n) => text_encodable(self.0@) && final(raw)@ == old(raw)@ + name_wire_spec(
                    self.0@,
                    old(cl)@,
                    is_compressed,
                ) && n == name_wire_spec(self.0@, old(cl)@, is_compressed).len() && final(cl)@
                    == name_cl_after(self.0@, old(cl)@, is_compressed, old(raw)@.len() as int),
                Err(_) => !text_encodable(self.0@) && *final(raw) == *old(raw) && final(cl)@ == old(
                    cl,
                )@,
            },
    {
        if !name_encodable(self.0.as_str()) {
            return Err(DnsError::Malformed);
        }
        encode_name_onto(self.0.as_str(), raw, cl, is_compressed)
    }
}

/// RDATA holding one compressible domain name: an authoritative name server (TYPE 2).
#[derive(Debug, Clone, PartialEq, Eq)]
pub struct NS(pub String);

impl NS {
    /// Decodes the RDATA of a record of this type.
    pub fn from(raw: &[u8], rdata: &[u8], base: usize) -> (r: Result<Self, DnsError>)
        ensures
            match r {
                Ok(v) => single_name_ok(raw@, rdata@, base as int) && v.0@ == single_name_text(
                    raw@,
                    rdata@,
                    base as int,
                ),
                Err(_) => !single_name_ok(raw@, rdata@, base as int),
            },
    {
        let mut v = NS(String::new());
        match v.decode(raw, rdata, base) {
            Ok(_) => Ok(v),
            Err(e) => Err(e),
        }
    }

    /// Re-reads this RDATA in place; on failure the value is unchanged.
    pub fn decode(&mut self, raw: &[u8], rdata: &[u8], base: usize) -> (r: Result<(), DnsError>)
        ensures
            match r {
                Ok(_) => single_name_ok(raw@, rdata@, base as int) && final(self).0@
                    == single_name_text(raw@, rdata@, base as int),
                Err(_) => !single_name_ok(raw@, rdata@, base as int) && *final(self) == *old(
                    self,
                ),
            },
    {
        match rd_single_name(raw, rdata, base) {
            Ok(s) => {
                self.0 = s;
                Ok(())
            },
            Err(e) => Err(e),
        }
    }

    /// Appends this RDATA's wire form through the compression index; the
    /// count of bytes appended comes back.
    pub fn encode(&self, raw: &mut Vec<u8>, cl: &mut CompressList, is_compressed: bool) -> (r:
        Result<usize, DnsError>)
        ensures
            match r {
                Ok(n) => text_encodable(self.0@) && final(raw)@ == old(raw)@ + name_wire_spec(
                    self.0@,
                    old(cl)@,
                    is_compressed,
                ) && n == name_wire_spec(self.0@, old(cl)@, is_compressed).len() && final(cl)@
                    == name_cl_after(self.0@, old(cl)@, is_compressed, old(raw)@.len() as int),
                Err(_) => !text_encodable(self.0@) && *final(raw) == *old(raw) && final(cl)@ == old(
                    cl,
                )@,
            },
    {
        if !name_encodable(self.0.as_str()) {
            return Err(DnsError::Malformed);
        }
        encode_name_onto(self.0.as_str(), raw, cl, is_compressed)
    }
}

/// RDATA holding one compressible domain name: a domain name pointer (TYPE 12).
#[derive(Debug, Clone, PartialEq, Eq)]
pub struct PTR(pub String);

impl PTR {
    /// Decodes the RDATA of a record of this type.
    pub fn from(raw: &[u8], rdata: &[u8], base: usize) -> (r: Result<Self, DnsError>)
        ensures
            match r {
                Ok(v) => single_name_ok(raw@, rdata@, base as int) && v.0@ == single_name_text(
                    raw@,
                    rdata@,
                    base as int,
                ),
                Err(_) => !single_name_ok(raw@, rdata@, base as int),
            },
    {
        let mut v = PTR(String::new());
        match v.decode(raw, rdata, base) {
            Ok(_) => Ok(v),
            Err(e) => Err(e),
        }
    }

    /// Re-reads this RDATA in place; on failure the value is unchanged.
    pub fn decode(&mut self, raw: &[u8], rdata: &[u8], base: usize) -> (r: Result<(), DnsError>)
        ensures
            match r {
                Ok(_) => single_name_ok(raw@, rdata@, base as int) && final(self).0@
                    == single_name_text(raw@, rdata@, base as int),
                Err(_) => !single_name_ok(raw@, rdata@, base as int) && *final(self) == *old(
                    self,
                ),
            },
    {
        match rd_single_name(raw, rdata, base) {
            Ok(s) => {
                self.0 = s;
                Ok(())
            },
            Err(e) => Err(e),
        }
    }

    /// Appends this RDATA's wire form through the compression index; the
    /// count of bytes appended comes back.
    pub fn encode(&self, raw: &mut Vec<u8>, cl: &mut CompressList, is_compressed: bool) -> (r:
        Result<usize, DnsError>)
        ensures
            match r {
                Ok(n) => text_encodable(self.0@) && final(raw)@ == old(raw)@ + name_wire_spec(
                    self.0@,
                    old(cl)@,
                    is_compressed,
                ) && n == name_wire_spec(self.0@, old(cl)@, is_compressed).len() && final(cl)@
                    == name_cl_after(self.0@, old(cl)@, is_compressed, old(raw)@.len() as int),
                Err(_) => !text_encodable(self.0@) && *final(raw) == *old(raw) && final(cl)@ == old(
                    cl,
                )@,
            },
    {
        if !name_encodable(self.0.as_str()) {
            return Err(DnsError::Malformed);
        }
        encode_name_onto(self.0.as_str(), raw, cl, is_compressed)
    }
}

/// RDATA holding one compressible domain name: a mailbox domain name (TYPE 7).
#[derive(Debug, Clone, PartialEq, Eq)]
pub struct MB(pub String);

impl MB {
    /// Decodes the RDATA of a record of this type.
    pub fn from(raw: &[u8], rdata: &[u8], base: usize) -> (r: Result<Self, DnsError>)
        ensures
            match r {
                Ok(v) => single_name_ok(raw@, rdata@, base as int) && v.0@ == single_name_text(
                    raw@,
                    rdata@,
                    base as int,
                ),
                Err(_) => !single_name_ok(raw@, rdata@, base as int),
            },
    {
        let mut v = MB(String::new());
        match v.decode(raw, rdata, base) {
            Ok(_) => Ok(v),
            Err(e) => Err(e),
        }
    }

    /// Re-reads this RDATA in place; on failure the value is unchanged.
    pub fn decode(&mut self, raw: &[u8], rdata: &[u8], base: usize) -> (r: Result<(), DnsError>)
        ensures
            match r {
                Ok(_) => single_name_ok(raw@, rdata@, base as int) && final(self).0@
                    == single_name_text(raw@, rdata@, base as int),
                Err(_) => !single_name_ok(raw@, rdata@, base as int) && *final(self) == *old(
                    self,
                ),
            },
    {
        match rd_single_name(raw, rdata, base) {
            Ok(s) => {
                self.0 = s;
                Ok(())
            },
            Err(e) => Err(e),
        }
    }

    /// Appends this RDATA's wire form through the compression index; the
    /// count of bytes appended comes back.
    pub fn encode(&self, raw: &mut Vec<u8>, cl: &mut CompressList, is_compressed: bool) -> (r:
        Result<usize, DnsError>)
        ensures
            match r {
                Ok(n) => text_encodable(self.0@) && final(raw)@ == old(raw)@ + name_wire_spec(
                    self.0@,
                    old(cl)@,
                    is_compressed,
                ) && n == name_wire_spec(self.0@, old(cl)@, is_compressed).len() && final(cl)@
                    == name_cl_after(self.0@, old(cl)@, is_compressed, old(raw)@.len() as int),
                Err(_) => !text_encodable(self.0@) && *final(raw) == *old(raw) && final(cl)@ == old(
                    cl,
                )@,
            },
    {
        if !name_encodable(self.0.as_str()) {
            return Err(DnsError::Malformed);
        }
        encode_name_onto(self.0.as_str(), raw, cl, is_compressed)
    }
}

/// RDATA holding one compressible domain name: a mail destination, obsolete but still decoded (TYPE 3).
#[derive(Debug, Clone, PartialEq, Eq)]
pub struct MD(pub String);

impl MD {
    /// Decodes the RDATA of a record of this type.
    pub fn from(raw: &[u8], rdata: &[u8], base: usize) -> (r: Result<Self, DnsError>)
        ensures
            match r {
                Ok(v) => single_name_ok(raw@, rdata@, base as int) && v.0@ == single_name_text(
                    raw@,
                    rdata@,
                    base as int,
                ),
                Err(_) => !single_name_ok(raw@, rdata@, base as int),
            },
    {
        let mut v = MD(String::new());
        match v.decode(raw, rdata, base) {
            Ok(_) => Ok(v),
            Err(e) => Err(e),
        }
    }

    /// Re-reads this RDATA in place; on failure the value is unchanged.
    pub fn decode(&mut self, raw: &[u8], rdata: &[u8], base: usize) -> (r: Result<(), DnsError>)
        ensures
            match r {
                Ok(_) => single_name_ok(raw@, rdata@, base as int) && final(self).0@
                    == single_name_text(raw@, rdata@, base as int),
                Err(_) => !single_name_ok(raw@, rdata@, base as int) && *final(self) == *old(
                    self,
                ),
            },
    {
        match rd_single_name(raw, rdata, base) {
            Ok(s) => {
                self.0 = s;
                Ok(())
            },
            Err(e) => Err(e),
        }
    }

    /// Appends this RDATA's wire form through the compression index; the
    /// count of bytes appended comes back.
    pub fn encode(&self, raw: &mut Vec<u8>, cl: &mut CompressList, is_compressed: bool) -> (r:
        Result<usize, DnsError>)
        ensures
            match r {
                Ok(n) => text_encodable(self.0@) && final(raw)@ == old(raw)@ + name_wire_spec(
                    self.0@,
                    old(cl)@,
                    is_compressed,
                ) && n == name_wire_spec(self.0@, old(cl)@, is_compressed).len() && final(cl)@
                    == name_cl_after(self.0@, old(cl)@, is_compressed, old(raw)@.len() as int),
                Err(_) => !text_encodable(self.0@) && *final(raw) == *old(raw) && final(cl)@ == old(
                    cl,
                )@,
            },
    {
        if !name_encodable(self.0.as_str()) {
            return Err(DnsError::Malformed);
        }
        encode_name_onto(self.0.as_str(), raw, cl, is_compressed)
    }
}

/// RDATA holding one compressible domain name: a mail forwarder, obsolete but still decoded (TYPE 4).
#[derive(Debug, Clone, PartialEq, Eq)]
pub struct MF(pub String);

impl MF {
    /// Decodes the RDATA of a record of this type.
    pub fn from(raw: &[u8], rdata: &[u8], base: usize) -> (r: Result<Self, DnsError>)
        ensures
            match r {
                Ok(v) => single_name_ok(raw@, rdata@, base as int) && v.0@ == single_name_text(
                    raw@,
                    rdata@,
                    base as int,
                ),
                Err(_) => !single_name_ok(raw@, rdata@, base as int),
            },
    {
        let mut v = MF(String::new());
        match v.decode(raw, rdata, base) {
            Ok(_) => Ok(v),
            Err(e) => Err(e),
        }
    }

    /// Re-reads this RDATA in place; on failure the value is unchanged.
    pub fn decode(&mut self, raw: &[u8], rdata: &[u8], base: usize) -> (r: Result<(), DnsError>)
        ensures
            match r {
                Ok(_) => single_name_ok(raw@, rdata@, base as int) && final(self).0@
                    == single_name_text(raw@, rdata@, base as int),
                Err(_) => !single_name_ok(raw@, rdata@, base as int) && *final(self) == *old(
                    self,
                ),
            },
    {
        match rd_single_name(raw, rdata, base) {
            Ok(s) => {
                self.0 = s;
                Ok(())
            },
            Err(e) => Err(e),
        }
    }

    /// Appends this RDATA's wire form through the compression index; the
    /// count of bytes appended comes back.
    pub fn encode(&self, raw: &mut Vec<u8>, cl: &mut CompressList, is_compressed: bool) -> (r:
        Result<usize, DnsError>)
        ensures
            match r {
                Ok(n) => text_encodable(self.0@) && final(raw)@ == old(raw)@ + name_wire_spec(
                    self.0@,
                    old(cl)@,
                    is_compressed,
                ) && n == name_wire_spec(self.0@, old(cl)@, is_compressed).len() && final(cl)@
                    == name_cl_after(self.0@, old(cl)@, is_compressed, old(raw)@.len() as int),
                Err(_) => !text_encodable(self.0@) && *final(raw) == *old(raw) && final(cl)@ == old(
                    cl,
                )@,
            },
    {
        if !name_encodable(self.0.as_str()) {
            return Err(DnsError::Malformed);
        }
        encode_name_onto(self.0.as_str(), raw, cl, is_compressed)
    }
}

/// RDATA holding one compressible domain name: a mail group member (TYPE 8).
#[derive(Debug, Clone, PartialEq, Eq)]
pub struct MG(pub String);

impl MG {
    /// Decodes the RDATA of a record of this type.
    pub fn from(raw: &[u8], rdata: &[u8], base: usize) -> (r: Result<Self, DnsError>)
        ensures
            match r {
                Ok(v) => single_name_ok(raw@, rdata@, base as int) && v.0@ == single_name_text(
                    raw@,
                    rdata@,
                    base as int,
                ),
                Err(_) => !single_name_ok(raw@, rdata@, base as int),
            },
    {
        let mut v = MG(String::new());
        match v.decode(raw, rdata, base) {
            Ok(_) => Ok(v),
            Err(e) => Err(e),
        }
    }

    /// Re-reads this RDATA in place; on failure the value is unchanged.
    pub fn decode(&mut self, raw: &[u8], rdata: &[u8], base: usize) -> (r: Result<(), DnsError>)
        ensures
            match r {
                Ok(_) => single_name_ok(raw@, rdata@, base as int) && final(self).0@
                    == single_name_text(raw@, rdata@, base as int),
                Err(_) => !single_name_ok(raw@, rdata@, base as int) && *final(self) == *old(
                    self,
                ),
            },
    {
        match rd_single_name(raw, rdata, base) {
            Ok(s) => {
                self.0 = s;
                Ok(())
            },
            Err(e) => Err(e),
        }
    }

    /// Appends this RDATA's wire form through the compression index; the
    /// count of bytes appended comes back.
    pub fn encode(&self, raw: &mut Vec<u8>, cl: &mut CompressList, is_compressed: bool) -> (r:
        Result<usize, DnsError>)
        ensures
            match r {
                Ok(n) => text_encodable(self.0@) && final(raw)@ == old(raw)@ + name_wire_spec(
                    self.0@,
                    old(cl)@,
                    is_compressed,
                ) && n == name_wire_spec(self.0@, old(cl)@, is_compressed).len() && final(cl)@
                    == name_cl_after(self.0@, old(cl)@, is_compressed, old(raw)@.len() as int),
                Err(_) => !text_encodable(self.0@) && *final(raw) == *old(raw) && final(cl)@ == old(
                    cl,
                )@,
            },
    {
        if !name_encodable(self.0.as_str()) {
            return Err(DnsError::Malformed);
        }
        encode_name_onto(self.0.as_str(), raw, cl, is_compressed)
    }
}

/// RDATA holding one compressible domain name: a mail rename domain name (TYPE 9).
#[derive(Debug, Clone, PartialEq, Eq)]
pub struct MR(pub String);

impl MR {
    /// Decodes the RDATA of a record of this type.
    pub fn from(raw: &[u8], rdata: &[u8], base: usize) -> (r: Result<Self, DnsError>)
        ensures
            match r {
                Ok(v) => single_name_ok(raw@, rdata@, base as int) && v.0@ == single_name_text(
                    raw@,
                    rdata@,
                    base as int,
                ),
                Err(_) => !single_name_ok(raw@, rdata@, base as int),
            },
    {
        let mut v = MR(String::new());
        match v.decode(raw, rdata, base) {
            Ok(_) => Ok(v),
            Err(e) => Err(e),
        }
    }

    /// Re-reads this RDATA in place; on failure the value is unchanged.
    pub fn decode(&mut self, raw: &[u8], rdata: &[u8], base: usize) -> (r: Result<(), DnsError>)
        ensures
            match r {
                Ok(_) => single_name_ok(raw@, rdata@, base as int) && final(self).0@
                    == single_name_text(raw@, rdata@, base as int),
                Err(_) => !single_name_ok(raw@, rdata@, base as int) && *final(self) == *old(
                    self,
                ),
            },
    {
        match rd_single_name(raw, rdata, base) {
            Ok(s) => {
                self.0 = s;
                Ok(())
            },
            Err(e) => Err(e),
        }
    }

    /// Appends this RDATA's wire form through the compression index; the
    /// count of bytes appended comes back.
    pub fn encode(&self, raw: &mut Vec<u8>, cl: &mut CompressList, is_compressed: bool) -> (r:
        Result<usize, DnsError>)
        ensures
            match r {
                Ok(n) => text_encodable(self.0@) && final(raw)@ == old(raw)@ + name_wire_spec(
                    self.0@,
                    old(cl)@,
                    is_compressed,
                ) && n == name_wire_spec(self.0@, old(cl)@, is_compressed).len() && final(cl)@
                    == name_cl_after(self.0@, old(cl)@, is_compressed, old(raw)@.len() as int),
                Err(_) => !text_encodable(self.0@) && *final(raw) == *old(raw) && final(cl)@ == old(
                    cl,
                )@,
            },
    {
        if !name_encodable(self.0.as_str()) {
            return Err(DnsError::Malformed);
        }
        encode_name_onto(self.0.as_str(), raw, cl, is_compressed)
    }
}


/// A host address: exactly four IPv4 octets (TYPE 1).
#[derive(Debug, Clone, PartialEq, Eq)]
pub struct A(pub [u8; 4]);

impl A {
    /// Decodes an A record's RDATA, which must be exactly four bytes.
    pub fn from(raw: &[u8], rdata: &[u8]) -> (r: Result<Self, DnsError>)
        ensures
            match r {
                Ok(v) => rdata@.len() == 4 && v.0@ == rdata@,
                Err(_) => rdata@.len() != 4,
            },
    {
        let mut v = A([0; 4]);
        match v.decode(raw, rdata) {
            Ok(_) => Ok(v),
            Err(e) => Err(e),
        }
    }

    /// Re-reads this RDATA in place; on failure the value is unchanged.
    pub fn decode(&mut self, _raw: &[u8], rdata: &[u8]) -> (r: Result<(), DnsError>)
        ensures
            match r {
                Ok(_) => rdata@.len() == 4 && final(self).0@ == rdata@,
                Err(_) => rdata@.len() != 4 && *final(self) == *old(self),
            },
    {
        if rdata.len() != 4 {
            return Err(DnsError::Malformed);
        }
        self.0 = [rdata[0], rdata[1], rdata[2], rdata[3]];
        proof {
            assert(self.0@ =~= rdata@);
        }
        Ok(())
    }

    /// Appends the four address octets.
    pub fn encode(&self, raw: &mut Vec<u8>, _cl: &mut CompressList, _is_compressed: bool) -> (r:
        Result<usize, DnsError>)
        ensures
            r matches Ok(n) && n == 4 && final(raw)@ == old(raw)@ + self.0@ && final(_cl)@ == old(_cl)@,
    {
        raw.push(self.0[0]);
        raw.push(self.0[1]);
        raw.push(self.0[2]);
        raw.push(self.0[3]);
        proof {
            assert(raw@ =~= old(raw)@ + self.0@);
        }
        Ok(4)
    }
}

/// Opaque RDATA carried verbatim: the NULL record (TYPE 10).
#[derive(Debug, Clone, PartialEq, Eq)]
pub struct Null(pub Vec<u8>);

impl Null {
    /// Takes the RDATA bytes as they are.
    pub fn from(raw: &[u8], rdata: &[u8]) -> (r: Result<Self, DnsError>)
        ensures
            r matches Ok(v) && v.0@ == rdata@,
    {
        let mut v = Null(Vec::new());
        let _ = v.decode(raw, rdata);
        Ok(v)
    }

    /// Re-reads this RDATA in place.
    pub fn decode(&mut self, _raw: &[u8], rdata: &[u8]) -> (r: Result<(), DnsError>)
        ensures
            r matches Ok(_) && final(self).0@ == rdata@,
    {
        self.0 = vstd::slice::slice_to_vec(rdata);
        Ok(())
    }

    /// Re-emits the bytes verbatim.
    pub fn encode(&self, raw: &mut Vec<u8>, _cl: &mut CompressList, _is_compressed: bool) -> (r:
        Result<usize, DnsError>)
        ensures
            r matches Ok(n) && n == self.0@.len() && final(raw)@ == old(raw)@ + self.0@ && final(_cl)@ == old(_cl)@,
    {
        let n = self.0.len();
        let mut tmp = self.0.clone();
        proof {
            assert(tmp@ =~= self.0@);
        }
        raw.append(&mut tmp);
        Ok(n)
    }
}

/// One or more character-strings of descriptive text, carried verbatim
/// (TYPE 16).
#[derive(Debug, Clone, PartialEq, Eq)]
pub struct TXT(pub Vec<u8>);

impl TXT {
    /// Takes the RDATA bytes as they are.
    pub fn from(raw: &[u8], rdata: &[u8]) -> (r: Result<Self, DnsError>)
        ensures
            r matches Ok(v) && v.0@ == rdata@,
    {
        let mut v = TXT(Vec::new());
        let _ = v.decode(raw, rdata);
        Ok(v)
    }

    /// Re-reads this RDATA in place.
    pub fn decode(&mut self, _raw: &[u8], rdata: &[u8]) -> (r: Result<(), DnsError>)
        ensures
            r matches Ok(_) && final(self).0@ == rdata@,
    {
        self.0 = vstd::slice::slice_to_vec(rdata);
        Ok(())
    }

    /// Re-emits the bytes verbatim.
    pub fn encode(&self, raw: &mut Vec<u8>, _cl: &mut CompressList, _is_compressed: bool) -> (r:
        Result<usize, DnsError>)
        ensures
            r matches Ok(n) && n == self.0@.len() && final(raw)@ == old(raw)@ + self.0@ && final(_cl)@ == old(_cl)@,
    {
        let n = self.0.len();
        let mut tmp = self.0.clone();
        proof {
            assert(tmp@ =~= self.0@);
        }
        raw.append(&mut tmp);
        Ok(n)
    }
}

/// The EDNS0 OPT pseudo-record's RDATA: zero or more {code, length, data}
/// option tuples.  The bytes are carried verbatim so the record round-trips
/// whatever it holds; the accessors below read the first tuple's fields.
/// Empty RDATA (zero tuples) is valid.
#[derive(Debug, Clone, PartialEq, Eq)]
pub struct OPT(pub Vec<u8>);

impl OPT {
    /// Takes the RDATA bytes as they are.
    pub fn from(raw: &[u8], rdata: &[u8]) -> (r: Result<Self, DnsError>)
        ensures
            r matches Ok(v) && v.0@ == rdata@,
    {
        let mut v = OPT(Vec::new());
        let _ = v.decode(raw, rdata);
        Ok(v)
    }

    /// Re-reads this RDATA in place.
    pub fn decode(&mut self, _raw: &[u8], rdata: &[u8]) -> (r: Result<(), DnsError>)
        ensures
            r matches Ok(_) && final(self).0@ == rdata@,
    {
        self.0 = vstd::slice::slice_to_vec(rdata);
        Ok(())
    }

    /// Re-emits the bytes verbatim.
    pub fn encode(&self, raw: &mut Vec<u8>, _cl: &mut CompressList, _is_compressed: bool) -> (r:
        Result<usize, DnsError>)
        ensures
            r matches Ok(n) && n == self.0@.len() && final(raw)@ == old(raw)@ + self.0@ && final(_cl)@ == old(_cl)@,
    {
        let n = self.0.len();
        let mut tmp = self.0.clone();
        proof {
            assert(tmp@ =~= self.0@);
        }
        raw.append(&mut tmp);
        Ok(n)
    }
}

impl OPT {
    /// The first option's code: the leading big-endian 16 bits, where a
    /// whole {code, length, data} tuple is present.
    pub fn code(&self) -> (r: Option<u16>)
        ensures
            self.0@.len() >= 4 ==> r == Some(be16(self.0@, 0)),
            self.0@.len() < 4 ==> r is None,
    {
        if self.0.len() >= 4 {
            Some(read_u16_at(self.0.as_slice(), 0))
        } else {
            None
        }
    }

    /// The first option's declared data length: the second big-endian 16
    /// bits, where a whole tuple is present.
    pub fn length(&self) -> (r: Option<u16>)
        ensures
            self.0@.len() >= 4 ==> r == Some(be16(self.0@, 2)),
            self.0@.len() < 4 ==> r is None,
    {
        if self.0.len() >= 4 {
            Some(read_u16_at(self.0.as_slice(), 2))
        } else {
            None
        }
    }

    /// The first option's data: everything after the two 16-bit fields.
    pub fn data(&self) -> (r: Vec<u8>)
        ensures
            self.0@.len() >= 4 ==> r@ == self.0@.skip(4),
            self.0@.len() < 4 ==> r@.len() == 0,
    {
        if self.0.len() >= 4 {
            let d = vstd::slice::slice_to_vec(
                vstd::slice::slice_subrange(self.0.as_slice(), 4, self.0.len()),
            );
            proof {
                assert(self.0@.subrange(4, self.0@.len() as int) =~= self.0@.skip(4));
            }
            d
        } else {
            Vec::new()
        }
    }
}

/// A well-known-service description: an address, a protocol octet, and a
/// service bitmap (TYPE 11).
#[derive(Debug, Clone, PartialEq, Eq)]
pub struct WKS {
    pub address: [u8; 4],
    pub protocol: u8,
    pub bitmap: Vec<u8>,
}

impl WKS {
    /// Decodes a WKS record's RDATA: four address octets, the protocol, and
    /// the rest as the bitmap.
    pub fn from(raw: &[u8], rdata: &[u8]) -> (r: Result<Self, DnsError>)
        ensures
            match r {
                Ok(v) => rdata@.len() >= 5 && v.address@ == rdata@.subrange(0, 4) && v.protocol
                    == rdata@[4] && v.bitmap@ == rdata@.skip(5),
                Err(_) => rdata@.len() < 5,
            },
    {
        let mut v = WKS { address: [0; 4], protocol: 0, bitmap: Vec::new() };
        match v.decode(raw, rdata) {
            Ok(_) => Ok(v),
            Err(e) => Err(e),
        }
    }

    /// Re-reads this RDATA in place; on failure the value is unchanged.
    pub fn decode(&mut self, _raw: &[u8], rdata: &[u8]) -> (r: Result<(), DnsError>)
        ensures
            match r {
                Ok(_) => rdata@.len() >= 5 && final(self).address@ == rdata@.subrange(0, 4) && final(self).protocol == rdata@[4] && final(self).bitmap@ == rdata@.skip(5),
                Err(_) => rdata@.len() < 5 && *final(self) == *old(self),
            },
    {
        if rdata.len() < 5 {
            return Err(DnsError::Malformed);
        }
        self.address = [rdata[0], rdata[1], rdata[2], rdata[3]];
        self.protocol = rdata[4];
        self.bitmap = vstd::slice::slice_to_vec(
            vstd::slice::slice_subrange(rdata, 5, rdata.len()),
        );
        proof {
            assert(self.address@ =~= rdata@.subrange(0, 4));
            assert(rdata@.subrange(5, rdata@.len() as int) =~= rdata@.skip(5));
        }
        Ok(())
    }

    /// Appends address, protocol and bitmap.
    pub fn encode(&self, raw: &mut Vec<u8>, _cl: &mut CompressList, _is_compressed: bool) -> (r:
        Result<usize, DnsError>)
        ensures
            r matches Ok(n) && n == 5 + self.bitmap@.len() && final(raw)@ == old(raw)@
                + self.address@ + seq![self.protocol] + self.bitmap@ && final(_cl)@ == old(_cl)@,
    {
        let base = raw.len();
        raw.push(self.address[0]);
        raw.push(self.address[1]);
        raw.push(self.address[2]);
        raw.push(self.address[3]);
        raw.push(self.protocol);
        let mut tmp = self.bitmap.clone();
        proof {
            assert(tmp@ =~= self.bitmap@);
        }
        let ghost pre = old(raw)@.len();
        raw.append(&mut tmp);
        let n = raw.len() - base;
        proof {
            assert(raw@ =~= old(raw)@ + self.address@ + seq![self.protocol] + self.bitmap@);
        }
        Ok(n)
    }
}


/// Whether an HINFO RDATA decodes: its character-strings parse, that is, no
/// length octet overruns the slice.
pub open spec fn hinfo_ok(rd: Seq<u8>) -> bool {
    char_strings_at(rd, 0) is Some
}

/// Host information: two character-strings naming CPU and OS (TYPE 13).
/// A single-string RDATA is accepted as a synthesized HINFO (RFC 8482).
#[derive(Debug, Clone, PartialEq, Eq)]
pub struct HInfo {
    /// True when the RDATA held exactly one character-string.
    pub synthesized: bool,
    pub cpu: Vec<u8>,
    pub os: Vec<u8>,
}

impl HInfo {
    /// What a successful decode leaves behind.
    pub open spec fn decoded_post(self, rd: Seq<u8>) -> bool {
        let list = char_strings_at(rd, 0)->Some_0;
        &&& (list.len() == 0 ==> !self.synthesized && self.cpu@.len() == 0 && self.os@.len() == 0)
        &&& (list.len() == 1 ==> self.synthesized && self.cpu@ == list[0] && self.os@.len() == 0)
        &&& (list.len() >= 2 ==> !self.synthesized && self.cpu@ == list[0] && self.os@ == list[1])
    }

    /// Decodes an HINFO RDATA.
    pub fn from(raw: &[u8], rdata: &[u8]) -> (r: Result<Self, DnsError>)
        ensures
            match r {
                Ok(v) => hinfo_ok(rdata@) && v.decoded_post(rdata@),
                Err(_) => !hinfo_ok(rdata@),
            },
    {
        let mut v = HInfo { synthesized: false, cpu: Vec::new(), os: Vec::new() };
        match v.decode(raw, rdata) {
            Ok(_) => Ok(v),
            Err(e) => Err(e),
        }
    }

    /// Re-reads this RDATA in place; on failure the value is unchanged.
    pub fn decode(&mut self, _raw: &[u8], rdata: &[u8]) -> (r: Result<(), DnsError>)
        ensures
            match r {
                Ok(_) => hinfo_ok(rdata@) && final(self).decoded_post(rdata@),
                Err(_) => !hinfo_ok(rdata@) && *final(self) == *old(self),
            },
    {
        let list = match parse_charactor_string(rdata) {
            Ok(l) => l,
            Err(e) => {
                return Err(e);
            },
        };
        let ghost lv = char_strings_at(rdata@, 0)->Some_0;
        if list.len() == 0 {
            self.synthesized = false;
            self.cpu = Vec::new();
            self.os = Vec::new();
            return Ok(());
        }
        let cpu = list[0].clone();
        proof {
            assert(cpu@ =~= lv[0]);
        }
        if list.len() == 1 {
            self.synthesized = true;
            self.cpu = cpu;
            self.os = Vec::new();
            return Ok(());
        }
        let os = list[1].clone();
        proof {
            assert(os@ =~= lv[1]);
        }
        self.synthesized = false;
        self.cpu = cpu;
        self.os = os;
        Ok(())
    }

    /// Appends the two character-strings: a length octet (truncated to
    /// eight bits) and the bytes of each.
    pub fn encode(&self, raw: &mut Vec<u8>, _cl: &mut CompressList, _is_compressed: bool) -> (r:
        Result<usize, DnsError>)
        ensures
            r matches Ok(n) && final(raw)@ == old(raw)@ + seq![self.cpu@.len() as u8] + self.cpu@
                + seq![self.os@.len() as u8] + self.os@ && n == 2 + self.cpu@.len()
                + self.os@.len() && final(_cl)@ == old(_cl)@,
    {
        let base = raw.len();
        raw.push(self.cpu.len() as u8);
        let mut tmp = self.cpu.clone();
        proof {
            assert(tmp@ =~= self.cpu@);
        }
        raw.append(&mut tmp);
        raw.push(self.os.len() as u8);
        let mut tmp2 = self.os.clone();
        proof {
            assert(tmp2@ =~= self.os@);
        }
        raw.append(&mut tmp2);
        let n = raw.len() - base;
        proof {
            assert(raw@ =~= old(raw)@ + seq![self.cpu@.len() as u8] + self.cpu@ + seq![
                self.os@.len() as u8,
            ] + self.os@);
        }
        Ok(n)
    }
}

/// Mail exchange: a preference and the exchange host name (TYPE 15).
#[derive(Debug, Clone, PartialEq, Eq)]
pub struct MX {
    pub preference: u16,
    pub exchange: String,
}

impl MX {
    /// Decodes an MX RDATA: a 16-bit preference, then one domain name.
    pub fn from(raw: &[u8], rdata: &[u8], base: usize) -> (r: Result<Self, DnsError>)
        requires
            base + rdata@.len() <= usize::MAX,
        ensures
            match r {
                Ok(v) => rdata@.len() >= 2 && single_name_ok(raw@, rdata@.skip(2), base + 2)
                    && v.preference == be16(rdata@, 0) && v.exchange@ == single_name_text(
                    raw@,
                    rdata@.skip(2),
                    base + 2,
                ),
                Err(_) => rdata@.len() < 2 || !single_name_ok(raw@, rdata@.skip(2), base + 2),
            },
    {
        let mut v = MX { preference: 0, exchange: String::new() };
        match v.decode(raw, rdata, base) {
            Ok(_) => Ok(v),
            Err(e) => Err(e),
        }
    }

    /// Re-reads this RDATA in place; on failure the value is unchanged.
    pub fn decode(&mut self, raw: &[u8], rdata: &[u8], base: usize) -> (r: Result<(), DnsError>)
        requires
            base + rdata@.len() <= usize::MAX,
        ensures
            match r {
                Ok(_) => rdata@.len() >= 2 && single_name_ok(raw@, rdata@.skip(2), base + 2)
                    && final(self).preference == be16(rdata@, 0) && final(self).exchange@
                    == single_name_text(raw@, rdata@.skip(2), base + 2),
                Err(_) => (rdata@.len() < 2 || !single_name_ok(raw@, rdata@.skip(2), base + 2))
                    && *final(self) == *old(self),
            },
    {
        if rdata.len() < 2 {
            return Err(DnsError::Malformed);
        }
        let pref = read_u16_at(rdata, 0);
        let tail = vstd::slice::slice_subrange(rdata, 2, rdata.len());
        proof {
            assert(tail@ =~= rdata@.skip(2));
        }
        match rd_single_name(raw, tail, base + 2) {
            Ok(s) => {
                self.preference = pref;
                self.exchange = s;
                Ok(())
            },
            Err(e) => Err(e),
        }
    }

    /// Appends the preference and the exchange name through the index.
    pub fn encode(&self, raw: &mut Vec<u8>, cl: &mut CompressList, is_compressed: bool) -> (r:
        Result<usize, DnsError>)
        ensures
            match r {
                Ok(n) => text_encodable(self.exchange@) && final(raw)@ == old(raw)@ + be16_bytes(
                    self.preference,
                ) + name_wire_spec(self.exchange@, old(cl)@, is_compressed) && n == 2
                    + name_wire_spec(self.exchange@, old(cl)@, is_compressed).len() && final(cl)@
                    == name_cl_after(
                    self.exchange@,
                    old(cl)@,
                    is_compressed,
                    old(raw)@.len() as int + 2,
                ),
                Err(_) => !text_encodable(self.exchange@) && *final(raw) == *old(raw) && final(cl)@
                    == old(cl)@,
            },
    {
        if !name_encodable(self.exchange.as_str()) {
            return Err(DnsError::Malformed);
        }
        let base = raw.len();
        push_u16(raw, self.preference);
        match encode_name_onto(self.exchange.as_str(), raw, cl, is_compressed) {
            Ok(_) => Ok(raw.len() - base),
            Err(_) => Err(DnsError::Malformed),
        }
    }
}

/// Mailbox or mail-list information: a responsible mailbox and an error
/// mailbox (TYPE 14).
#[derive(Debug, Clone, PartialEq, Eq)]
pub struct MInfo {
    pub rmail_bx: String,
    pub email_bx: String,
}

impl MInfo {
    /// Decodes a MINFO RDATA: two domain names.
    pub fn from(raw: &[u8], rdata: &[u8], base: usize) -> (r: Result<Self, DnsError>)
        ensures
            match r {
                Ok(v) => {
                    &&& rd_names_at(raw@, rdata@, base as int, 0) matches Some(ns)
                    &&& ns.len() >= 2
                    &&& v.rmail_bx@ == name_text(ns[0])
                    &&& v.email_bx@ == name_text(ns[1])
                },
                Err(_) => !(rd_names_at(raw@, rdata@, base as int, 0) matches Some(ns) && ns.len() >= 2),
            },
    {
        let names = match parse_domain_name(raw, rdata, base) {
            Ok(v) => v,
            Err(e) => {
                return Err(e);
            },
        };
        if names.len() < 2 {
            return Err(DnsError::Malformed);
        }
        let rmail = names[0].encode_to_str();
        let email = names[1].encode_to_str();
        proof {
            let ns = rd_names_at(raw@, rdata@, base as int, 0)->Some_0;
            crate::name::lemma_chars_bytes_roundtrip(names@[0]@);
            crate::name::lemma_chars_bytes_roundtrip(names@[1]@);
            assert(crate::name::chars_of_labels(ns[0]) == names@[0]@);
            assert(crate::name::chars_of_labels(ns[1]) == names@[1]@);
        }
        Ok(MInfo { rmail_bx: rmail, email_bx: email })
    }

    /// Appends both names through the index, the second seeing the suffixes
    /// of the first.
    pub fn encode(&self, raw: &mut Vec<u8>, cl: &mut CompressList, is_compressed: bool) -> (r:
        Result<usize, DnsError>)
        ensures
            match r {
                Ok(n) => {
                    let w1 = name_wire_spec(self.rmail_bx@, old(cl)@, is_compressed);
                    let cl1 = name_cl_after(
                        self.rmail_bx@,
                        old(cl)@,
                        is_compressed,
                        old(raw)@.len() as int,
                    );
                    let w2 = name_wire_spec(self.email_bx@, cl1, is_compressed);
                    &&& text_encodable(self.rmail_bx@)
                    &&& text_encodable(self.email_bx@)
                    &&& final(raw)@ == old(raw)@ + w1 + w2
                    &&& n == w1.len() + w2.len()
                    &&& final(cl)@ == name_cl_after(
                        self.email_bx@,
                        cl1,
                        is_compressed,
                        old(raw)@.len() as int + w1.len() as int,
                    )
                },
                Err(_) => (!text_encodable(self.rmail_bx@) || !text_encodable(self.email_bx@))
                    && *final(raw) == *old(raw) && final(cl)@ == old(cl)@,
            },
    {
        if !name_encodable(self.rmail_bx.as_str()) || !name_encodable(self.email_bx.as_str()) {
            return Err(DnsError::Malformed);
        }
        let base = raw.len();
        let _ = match encode_name_onto(self.rmail_bx.as_str(), raw, cl, is_compressed) {
            Ok(n) => n,
            Err(_) => {
                return Err(DnsError::Malformed);
            },
        };
        let _ = match encode_name_onto(self.email_bx.as_str(), raw, cl, is_compressed) {
            Ok(n) => n,
            Err(_) => {
                return Err(DnsError::Malformed);
            },
        };
        Ok(raw.len() - base)
    }
}

/// The start of authority: the primary server and responsible mailbox, then
/// serial, refresh, retry, expire and minimum (TYPE 6).
#[derive(Debug, Clone, PartialEq, Eq)]
pub struct SOA {
    pub mname: String,
    pub rname: String,
    pub serial: u32,
    pub refresh: u32,
    pub retry: u32,
    pub expire: u32,
    pub minimum: u32,
}

impl SOA {
    /// Whether an SOA RDATA decodes: at least twenty bytes, and the leading
    /// bytes before the five 32-bit fields hold exactly two names.
    pub open spec fn soa_ok(raw: Seq<u8>, rd: Seq<u8>, base: int) -> bool {
        rd.len() >= 20 && (rd_names_at(raw, rd.take(rd.len() - 20), base, 0) matches Some(ns)
            && ns.len() >= 2)
    }

    /// What a successful decode leaves behind.
    pub open spec fn decoded_post(self, raw: Seq<u8>, rd: Seq<u8>, base: int) -> bool {
        let ns = rd_names_at(raw, rd.take(rd.len() - 20), base, 0)->Some_0;
        &&& self.mname@ == name_text(ns[0])
        &&& self.rname@ == name_text(ns[1])
        &&& self.serial == be32(rd, rd.len() - 20)
        &&& self.refresh == be32(rd, rd.len() - 16)
        &&& self.retry == be32(rd, rd.len() - 12)
        &&& self.expire == be32(rd, rd.len() - 8)
        &&& self.minimum == be32(rd, rd.len() - 4)
    }

    /// Decodes an SOA RDATA: two names, then five 32-bit fields in the last
    /// twenty bytes.
    pub fn from(raw: &[u8], rdata: &[u8], base: usize) -> (r: Result<Self, DnsError>)
        ensures
            match r {
                Ok(v) => Self::soa_ok(raw@, rdata@, base as int) && v.decoded_post(
                    raw@,
                    rdata@,
                    base as int,
                ),
                Err(_) => !Self::soa_ok(raw@, rdata@, base as int),
            },
    {
        if rdata.len() < 20 {
            return Err(DnsError::Malformed);
        }
        let head = vstd::slice::slice_subrange(rdata, 0, rdata.len() - 20);
        proof {
            assert(head@ =~= rdata@.take(rdata@.len() - 20));
        }
        let names = match parse_domain_name(raw, head, base) {
            Ok(v) => v,
            Err(e) => {
                return Err(e);
            },
        };
        if names.len() < 2 {
            return Err(DnsError::Malformed);
        }
        let mname = names[0].encode_to_str();
        let rname = names[1].encode_to_str();
        proof {
            let ns = rd_names_at(raw@, head@, base as int, 0)->Some_0;
            crate::name::lemma_chars_bytes_roundtrip(names@[0]@);
            crate::name::lemma_chars_bytes_roundtrip(names@[1]@);
            assert(crate::name::chars_of_labels(ns[0]) == names@[0]@);
            assert(crate::name::chars_of_labels(ns[1]) == names@[1]@);
        }
        let base = rdata.len() - 20;
        Ok(
            SOA {
                mname,
                rname,
                serial: read_u32_at(rdata, base),
                refresh: read_u32_at(rdata, base + 4),
                retry: read_u32_at(rdata, base + 8),
                expire: read_u32_at(rdata, base + 12),
                minimum: read_u32_at(rdata, base + 16),
            },
        )
    }

    /// Appends both names through the index and the five 32-bit fields.
    pub fn encode(&self, raw: &mut Vec<u8>, cl: &mut CompressList, is_compressed: bool) -> (r:
        Result<usize, DnsError>)
        ensures
            match r {
                Ok(n) => {
                    let w1 = name_wire_spec(self.mname@, old(cl)@, is_compressed);
                    let cl1 = name_cl_after(
                        self.mname@,
                        old(cl)@,
                        is_compressed,
                        old(raw)@.len() as int,
                    );
                    let w2 = name_wire_spec(self.rname@, cl1, is_compressed);
                    &&& text_encodable(self.mname@)
                    &&& text_encodable(self.rname@)
                    &&& final(raw)@ == old(raw)@ + w1 + w2 + be32_bytes(self.serial) + be32_bytes(
                        self.refresh,
                    ) + be32_bytes(self.retry) + be32_bytes(self.expire) + be32_bytes(self.minimum)
                    &&& n == w1.len() + w2.len() + 20
                    &&& final(cl)@ == name_cl_after(
                        self.rname@,
                        cl1,
                        is_compressed,
                        old(raw)@.len() as int + w1.len() as int,
                    )
                },
                Err(_) => (!text_encodable(self.mname@) || !text_encodable(self.rname@))
                    && *final(raw) == *old(raw) && final(cl)@ == old(cl)@,
            },
    {
        if !name_encodable(self.mname.as_str()) || !name_encodable(self.rname.as_str()) {
            return Err(DnsError::Malformed);
        }
        let base = raw.len();
        let _ = match encode_name_onto(self.mname.as_str(), raw, cl, is_compressed) {
            Ok(n) => n,
            Err(_) => {
                return Err(DnsError::Malformed);
            },
        };
        let _ = match encode_name_onto(self.rname.as_str(), raw, cl, is_compressed) {
            Ok(n) => n,
            Err(_) => {
                return Err(DnsError::Malformed);
            },
        };
        push_u32(raw, self.serial);
        push_u32(raw, self.refresh);
        push_u32(raw, self.retry);
        push_u32(raw, self.expire);
        push_u32(raw, self.minimum);
        proof {
            let w1 = name_wire_spec(self.mname@, old(cl)@, is_compressed);
            let cl1 = name_cl_after(self.mname@, old(cl)@, is_compressed, old(raw)@.len() as int);
            let w2 = name_wire_spec(self.rname@, cl1, is_compressed);
            assert(raw@ =~= old(raw)@ + w1 + w2 + be32_bytes(self.serial) + be32_bytes(self.refresh)
                + be32_bytes(self.retry) + be32_bytes(self.expire) + be32_bytes(self.minimum));
        }
        Ok(raw.len() - base)
    }
}


/// A resource record's payload, tagged by TYPE.  A TYPE outside the known
/// set is carried verbatim in `Raw` so that it can round-trip.
#[derive(Debug, Clone, PartialEq, Eq)]
pub enum RDataType {
    Empty,
    CName(CName),
    HInfo(HInfo),
    MB(MB),
    MD(MD),
    MF(MF),
    MG(MG),
    MInfo(MInfo),
    MR(MR),
    MX(MX),
    Null(Null),
    NS(NS),
    PTR(PTR),
    SOA(SOA),
    TXT(TXT),
    A(A),
    WKS(WKS),
    OPT(OPT),
    Raw(Vec<u8>),
}

/// Whether RDATA bytes of the given TYPE decode.
pub open spec fn rdata_from_ok(raw: Seq<u8>, rd: Seq<u8>, base: int, typ: u16) -> bool {
    if typ == crate::TYPE_CNAME || typ == crate::TYPE_NS || typ == crate::TYPE_PTR || typ
        == crate::TYPE_MB || typ == crate::TYPE_MD || typ == crate::TYPE_MF || typ == crate::TYPE_MG
        || typ == crate::TYPE_MR {
        single_name_ok(raw, rd, base)
    } else if typ == crate::TYPE_HINFO {
        hinfo_ok(rd)
    } else if typ == crate::TYPE_MINFO {
        rd_names_at(raw, rd, base, 0) matches Some(ns) && ns.len() >= 2
    } else if typ == crate::TYPE_MX {
        rd.len() >= 2 && single_name_ok(raw, rd.skip(2), base + 2)
    } else if typ == crate::TYPE_SOA {
        SOA::soa_ok(raw, rd, base)
    } else if typ == crate::TYPE_A {
        rd.len() == 4
    } else if typ == crate::TYPE_WKS {
        rd.len() >= 5
    } else {
        true
    }
}

/// What a successful decode of RDATA bytes of the given TYPE yields.
pub open spec fn rdata_from_post(r: RDataType, raw: Seq<u8>, rd: Seq<u8>, base: int, typ: u16) -> bool {
    if typ == crate::TYPE_CNAME {
        r matches RDataType::CName(v) && v.0@ == single_name_text(raw, rd, base)
    } else if typ == crate::TYPE_NS {
        r matches RDataType::NS(v) && v.0@ == single_name_text(raw, rd, base)
    } else if typ == crate::TYPE_PTR {
        r matches RDataType::PTR(v) && v.0@ == single_name_text(raw, rd, base)
    } else if typ == crate::TYPE_MB {
        r matches RDataType::MB(v) && v.0@ == single_name_text(raw, rd, base)
    } else if typ == crate::TYPE_MD {
        r matches RDataType::MD(v) && v.0@ == single_name_text(raw, rd, base)
    } else if typ == crate::TYPE_MF {
        r matches RDataType::MF(v) && v.0@ == single_name_text(raw, rd, base)
    } else if typ == crate::TYPE_MG {
        r matches RDataType::MG(v) && v.0@ == single_name_text(raw, rd, base)
    } else if typ == crate::TYPE_MR {
        r matches RDataType::MR(v) && v.0@ == single_name_text(raw, rd, base)
    } else if typ == crate::TYPE_HINFO {
        r matches RDataType::HInfo(v) && v.decoded_post(rd)
    } else if typ == crate::TYPE_MINFO {
        r matches RDataType::MInfo(v) && {
            let ns = rd_names_at(raw, rd, base, 0)->Some_0;
            v.rmail_bx@ == name_text(ns[0]) && v.email_bx@ == name_text(ns[1])
        }
    } else if typ == crate::TYPE_MX {
        r matches RDataType::MX(v) && v.preference == be16(rd, 0) && v.exchange@
            == single_name_text(raw, rd.skip(2), base + 2)
    } else if typ == crate::TYPE_SOA {
        r matches RDataType::SOA(v) && v.decoded_post(raw, rd, base)
    } else if typ == crate::TYPE_A {
        r matches RDataType::A(v) && v.0@ == rd
    } else if typ == crate::TYPE_WKS {
        r matches RDataType::WKS(v) && v.address@ == rd.subrange(0, 4) && v.protocol == rd[4]
            && v.bitmap@ == rd.skip(5)
    } else if typ == crate::TYPE_NULL {
        r matches RDataType::Null(v) && v.0@ == rd
    } else if typ == crate::TYPE_TXT {
        r matches RDataType::TXT(v) && v.0@ == rd
    } else if typ == crate::TYPE_OPT {
        r matches RDataType::OPT(v) && v.0@ == rd
    } else {
        r matches RDataType::Raw(v) && v@ == rd
    }
}

/// Whether this payload can be encoded: every held name is encodable, the
/// HINFO strings are ASCII, and an empty payload cannot be written at all.
pub open spec fn rdata_encodable(r: RDataType) -> bool {
    match r {
        RDataType::Empty => false,
        RDataType::CName(v) => text_encodable(v.0@),
        RDataType::NS(v) => text_encodable(v.0@),
        RDataType::PTR(v) => text_encodable(v.0@),
        RDataType::MB(v) => text_encodable(v.0@),
        RDataType::MD(v) => text_encodable(v.0@),
        RDataType::MF(v) => text_encodable(v.0@),
        RDataType::MG(v) => text_encodable(v.0@),
        RDataType::MR(v) => text_encodable(v.0@),
        RDataType::HInfo(_) => true,
        RDataType::MInfo(v) => text_encodable(v.rmail_bx@) && text_encodable(v.email_bx@),
        RDataType::MX(v) => text_encodable(v.exchange@),
        RDataType::SOA(v) => text_encodable(v.mname@) && text_encodable(v.rname@),
        RDataType::Null(_) => true,
        RDataType::TXT(_) => true,
        RDataType::A(_) => true,
        RDataType::WKS(_) => true,
        RDataType::OPT(_) => true,
        RDataType::Raw(_) => true,
    }
}

/// The bytes an encoded payload appends at position `base`, against the
/// index `cl`.
pub open spec fn rdata_wire(r: RDataType, cl: Seq<(Seq<char>, int)>, comp: bool, base: int) -> Seq<
    u8,
> {
    match r {
        RDataType::Empty => Seq::empty(),
        RDataType::CName(v) => name_wire_spec(v.0@, cl, comp),
        RDataType::NS(v) => name_wire_spec(v.0@, cl, comp),
        RDataType::PTR(v) => name_wire_spec(v.0@, cl, comp),
        RDataType::MB(v) => name_wire_spec(v.0@, cl, comp),
        RDataType::MD(v) => name_wire_spec(v.0@, cl, comp),
        RDataType::MF(v) => name_wire_spec(v.0@, cl, comp),
        RDataType::MG(v) => name_wire_spec(v.0@, cl, comp),
        RDataType::MR(v) => name_wire_spec(v.0@, cl, comp),
        RDataType::HInfo(v) => seq![v.cpu@.len() as u8] + v.cpu@ + seq![v.os@.len() as u8] + v.os@,
        RDataType::MInfo(v) => {
            let w1 = name_wire_spec(v.rmail_bx@, cl, comp);
            w1 + name_wire_spec(v.email_bx@, name_cl_after(v.rmail_bx@, cl, comp, base), comp)
        },
        RDataType::MX(v) => be16_bytes(v.preference) + name_wire_spec(v.exchange@, cl, comp),
        RDataType::SOA(v) => {
            let w1 = name_wire_spec(v.mname@, cl, comp);
            let w2 = name_wire_spec(
                v.rname@,
                name_cl_after(v.mname@, cl, comp, base),
                comp,
            );
            w1 + w2 + be32_bytes(v.serial) + be32_bytes(v.refresh) + be32_bytes(v.retry)
                + be32_bytes(v.expire) + be32_bytes(v.minimum)
        },
        RDataType::Null(v) => v.0@,
        RDataType::TXT(v) => v.0@,
        RDataType::A(v) => v.0@,
        RDataType::WKS(v) => v.address@ + seq![v.protocol] + v.bitmap@,
        RDataType::OPT(v) => v.0@,
        RDataType::Raw(v) => v@,
    }
}

/// The index after an encoded payload: names offer their suffixes at the
/// offsets they were written to.
pub open spec fn rdata_cl_after(
    r: RDataType,
    cl: Seq<(Seq<char>, int)>,
    comp: bool,
    base: int,
) -> Seq<(Seq<char>, int)> {
    match r {
        RDataType::CName(v) => name_cl_after(v.0@, cl, comp, base),
        RDataType::NS(v) => name_cl_after(v.0@, cl, comp, base),
        RDataType::PTR(v) => name_cl_after(v.0@, cl, comp, base),
        RDataType::MB(v) => name_cl_after(v.0@, cl, comp, base),
        RDataType::MD(v) => name_cl_after(v.0@, cl, comp, base),
        RDataType::MF(v) => name_cl_after(v.0@, cl, comp, base),
        RDataType::MG(v) => name_cl_after(v.0@, cl, comp, base),
        RDataType::MR(v) => name_cl_after(v.0@, cl, comp, base),
        RDataType::MInfo(v) => {
            let cl1 = name_cl_after(v.rmail_bx@, cl, comp, base);
            name_cl_after(
                v.email_bx@,
                cl1,
                comp,
                base + name_wire_spec(v.rmail_bx@, cl, comp).len(),
            )
        },
        RDataType::MX(v) => name_cl_after(v.exchange@, cl, comp, base + 2),
        RDataType::SOA(v) => {
            let cl1 = name_cl_after(v.mname@, cl, comp, base);
            name_cl_after(
                v.rname@,
                cl1,
                comp,
                base + name_wire_spec(v.mname@, cl, comp).len(),
            )
        },
        _ => cl,
    }
}

impl RDataType {
    /// The empty payload, which cannot be encoded.
    pub fn new() -> (r: Self)
        ensures
            r is Empty,
    {
        RDataType::Empty
    }

    /// Decodes RDATA bytes as the given TYPE.  A TYPE outside the known set
    /// is kept verbatim in `Raw`.
    pub fn from(raw: &[u8], rdata: &[u8], base: usize, typ: u16) -> (r: Result<Self, DnsError>)
        requires
            base + rdata@.len() <= usize::MAX,
        ensures
            match r {
                Ok(v) => rdata_from_ok(raw@, rdata@, base as int, typ) && rdata_from_post(
                    v,
                    raw@,
                    rdata@,
                    base as int,
                    typ,
                ),
                Err(_) => !rdata_from_ok(raw@, rdata@, base as int, typ),
            },
    {
        if typ == crate::TYPE_CNAME {
            match CName::from(raw, rdata, base) {
                Ok(v) => Ok(RDataType::CName(v)),
                Err(e) => Err(e),
            }
        } else if typ == crate::TYPE_NS {
            match NS::from(raw, rdata, base) {
                Ok(v) => Ok(RDataType::NS(v)),
                Err(e) => Err(e),
            }
        } else if typ == crate::TYPE_PTR {
            match PTR::from(raw, rdata, base) {
                Ok(v) => Ok(RDataType::PTR(v)),
                Err(e) => Err(e),
            }
        } else if typ == crate::TYPE_MB {
            match MB::from(raw, rdata, base) {
                Ok(v) => Ok(RDataType::MB(v)),
                Err(e) => Err(e),
            }
        } else if typ == crate::TYPE_MD {
            match MD::from(raw, rdata, base) {
                Ok(v) => Ok(RDataType::MD(v)),
                Err(e) => Err(e),
            }
        } else if typ == crate::TYPE_MF {
            match MF::from(raw, rdata, base) {
                Ok(v) => Ok(RDataType::MF(v)),
                Err(e) => Err(e),
            }
        } else if typ == crate::TYPE_MG {
            match MG::from(raw, rdata, base) {
                Ok(v) => Ok(RDataType::MG(v)),
                Err(e) => Err(e),
            }
        } else if typ == crate::TYPE_MR {
            match MR::from(raw, rdata, base) {
                Ok(v) => Ok(RDataType::MR(v)),
                Err(e) => Err(e),
            }
        } else if typ == crate::TYPE_HINFO {
            match HInfo::from(raw, rdata) {
                Ok(v) => Ok(RDataType::HInfo(v)),
                Err(e) => Err(e),
            }
        } else if typ == crate::TYPE_MINFO {
            match MInfo::from(raw, rdata, base) {
                Ok(v) => Ok(RDataType::MInfo(v)),
                Err(e) => Err(e),
            }
        } else if typ == crate::TYPE_MX {
            match MX::from(raw, rdata, base) {
                Ok(v) => Ok(RDataType::MX(v)),
                Err(e) => Err(e),
            }
        } else if typ == crate::TYPE_SOA {
            match SOA::from(raw, rdata, base) {
                Ok(v) => Ok(RDataType::SOA(v)),
                Err(e) => Err(e),
            }
        } else if typ == crate::TYPE_A {
            match A::from(raw, rdata) {
                Ok(v) => Ok(RDataType::A(v)),
                Err(e) => Err(e),
            }
        } else if typ == crate::TYPE_WKS {
            match WKS::from(raw, rdata) {
                Ok(v) => Ok(RDataType::WKS(v)),
                Err(e) => Err(e),
            }
        } else if typ == crate::TYPE_NULL {
            match Null::from(raw, rdata) {
                Ok(v) => Ok(RDataType::Null(v)),
                Err(e) => Err(e),
            }
        } else if typ == crate::TYPE_TXT {
            match TXT::from(raw, rdata) {
                Ok(v) => Ok(RDataType::TXT(v)),
                Err(e) => Err(e),
            }
        } else if typ == crate::TYPE_OPT {
            match OPT::from(raw, rdata) {
                Ok(v) => Ok(RDataType::OPT(v)),
                Err(e) => Err(e),
            }
        } else {
            Ok(RDataType::Raw(vstd::slice::slice_to_vec(rdata)))
        }
    }

    /// Appends this payload's wire form through the compression index; the
    /// count of bytes appended comes back.  An empty or unencodable payload
    /// is refused, with the buffer and index unchanged.
    pub fn encode(&self, raw: &mut Vec<u8>, cl: &mut CompressList, is_compressed: bool) -> (r:
        Result<usize, DnsError>)
        ensures
            match r {
                Ok(n) => {
                    let wire = rdata_wire(*self, old(cl)@, is_compressed, old(raw)@.len() as int);
                    rdata_encodable(*self) && final(raw)@ == old(raw)@ + wire && n == wire.len()
                        && final(cl)@ == rdata_cl_after(
                        *self,
                        old(cl)@,
                        is_compressed,
                        old(raw)@.len() as int,
                    )
                },
                Err(_) => !rdata_encodable(*self) && *final(raw) == *old(raw) && final(cl)@ == old(
                    cl,
                )@,
            },
    {
        match self {
            RDataType::Empty => Err(DnsError::Unsupported),
            RDataType::CName(v) => v.encode(raw, cl, is_compressed),
            RDataType::NS(v) => v.encode(raw, cl, is_compressed),
            RDataType::PTR(v) => v.encode(raw, cl, is_compressed),
            RDataType::MB(v) => v.encode(raw, cl, is_compressed),
            RDataType::MD(v) => v.encode(raw, cl, is_compressed),
            RDataType::MF(v) => v.encode(raw, cl, is_compressed),
            RDataType::MG(v) => v.encode(raw, cl, is_compressed),
            RDataType::MR(v) => v.encode(raw, cl, is_compressed),
            RDataType::HInfo(v) => v.encode(raw, cl, is_compressed),
            RDataType::MInfo(v) => v.encode(raw, cl, is_compressed),
            RDataType::MX(v) => v.encode(raw, cl, is_compressed),
            RDataType::SOA(v) => v.encode(raw, cl, is_compressed),
            RDataType::Null(v) => v.encode(raw, cl, is_compressed),
            RDataType::TXT(v) => v.encode(raw, cl, is_compressed),
            RDataType::A(v) => v.encode(raw, cl, is_compressed),
            RDataType::WKS(v) => v.encode(raw, cl, is_compressed),
            RDataType::OPT(v) => v.encode(raw, cl, is_compressed),
            RDataType::Raw(v) => {
                let n = v.len();
                let mut tmp = v.clone();
                proof {
                    assert(tmp@ =~= v@);
                }
                raw.append(&mut tmp);
                Ok(n)
            },
        }
    }
}


/// True exactly when [`rdata_encodable`] holds of this payload.
pub fn rdata_is_encodable(r: &RDataType) -> (b: bool)
    ensures
        b == rdata_encodable(*r),
{
    match r {
        RDataType::Empty => false,
        RDataType::CName(v) => name_encodable(v.0.as_str()),
        RDataType::NS(v) => name_encodable(v.0.as_str()),
        RDataType::PTR(v) => name_encodable(v.0.as_str()),
        RDataType::MB(v) => name_encodable(v.0.as_str()),
        RDataType::MD(v) => name_encodable(v.0.as_str()),
        RDataType::MF(v) => name_encodable(v.0.as_str()),
        RDataType::MG(v) => name_encodable(v.0.as_str()),
        RDataType::MR(v) => name_encodable(v.0.as_str()),
        RDataType::HInfo(_) => true,
        RDataType::MInfo(v) => name_encodable(v.rmail_bx.as_str()) && name_encodable(
            v.email_bx.as_str(),
        ),
        RDataType::MX(v) => name_encodable(v.exchange.as_str()),
        RDataType::SOA(v) => name_encodable(v.mname.as_str()) && name_encodable(v.rname.as_str()),
        RDataType::Null(_) => true,
        RDataType::TXT(_) => true,
        RDataType::A(_) => true,
        RDataType::WKS(_) => true,
        RDataType::OPT(_) => true,
        RDataType::Raw(_) => true,
    }
}


/// The pure image of a payload: every field lifted to its spec view, so
/// that two records carrying the same data have the same image whatever
/// heap values hold it.
pub ghost enum RDataView {
    Empty,
    CName(Seq<char>),
    HInfo(bool, Seq<u8>, Seq<u8>),
    MB(Seq<char>),
    MD(Seq<char>),
    MF(Seq<char>),
    MG(Seq<char>),
    MInfo(Seq<char>, Seq<char>),
    MR(Seq<char>),
    MX(u16, Seq<char>),
    Null(Seq<u8>),
    NS(Seq<char>),
    PTR(Seq<char>),
    SOA(Seq<char>, Seq<char>, u32, u32, u32, u32, u32),
    TXT(Seq<u8>),
    A(Seq<u8>),
    WKS(Seq<u8>, u8, Seq<u8>),
    OPT(Seq<u8>),
    Raw(Seq<u8>),
}

impl View for RDataType {
    type V = RDataView;

    open spec fn view(&self) -> RDataView {
        match self {
            RDataType::Empty => RDataView::Empty,
            RDataType::CName(v) => RDataView::CName(v.0@),
            RDataType::HInfo(v) => RDataView::HInfo(v.synthesized, v.cpu@, v.os@),
            RDataType::MB(v) => RDataView::MB(v.0@),
            RDataType::MD(v) => RDataView::MD(v.0@),
            RDataType::MF(v) => RDataView::MF(v.0@),
            RDataType::MG(v) => RDataView::MG(v.0@),
            RDataType::MInfo(v) => RDataView::MInfo(v.rmail_bx@, v.email_bx@),
            RDataType::MR(v) => RDataView::MR(v.0@),
            RDataType::MX(v) => RDataView::MX(v.preference, v.exchange@),
            RDataType::Null(v) => RDataView::Null(v.0@),
            RDataType::NS(v) => RDataView::NS(v.0@),
            RDataType::PTR(v) => RDataView::PTR(v.0@),
            RDataType::SOA(v) => RDataView::SOA(
                v.mname@,
                v.rname@,
                v.serial,
                v.refresh,
                v.retry,
                v.expire,
                v.minimum,
            ),
            RDataType::TXT(v) => RDataView::TXT(v.0@),
            RDataType::A(v) => RDataView::A(v.0@),
            RDataType::WKS(v) => RDataView::WKS(v.address@, v.protocol, v.bitmap@),
            RDataType::OPT(v) => RDataView::OPT(v.0@),
            RDataType::Raw(v) => RDataView::Raw(v@),
        }
    }
}

/// A value-preserving copy of a payload: the copy has the same image.
pub fn copy_rdata(r: &RDataType) -> (c: RDataType)
    ensures
        c@ == r@,
{
    match r {
        RDataType::Empty => RDataType::Empty,
        RDataType::CName(v) => RDataType::CName(CName(v.0.as_str().to_owned())),
        RDataType::HInfo(v) => RDataType::HInfo(
            HInfo { synthesized: v.synthesized, cpu: copy_bytes(&v.cpu), os: copy_bytes(&v.os) },
        ),
        RDataType::MB(v) => RDataType::MB(MB(v.0.as_str().to_owned())),
        RDataType::MD(v) => RDataType::MD(MD(v.0.as_str().to_owned())),
        RDataType::MF(v) => RDataType::MF(MF(v.0.as_str().to_owned())),
        RDataType::MG(v) => RDataType::MG(MG(v.0.as_str().to_owned())),
        RDataType::MInfo(v) => RDataType::MInfo(
            MInfo {
                rmail_bx: v.rmail_bx.as_str().to_owned(),
                email_bx: v.email_bx.as_str().to_owned(),
            },
        ),
        RDataType::MR(v) => RDataType::MR(MR(v.0.as_str().to_owned())),
        RDataType::MX(v) => RDataType::MX(
            MX { preference: v.preference, exchange: v.exchange.as_str().to_owned() },
        ),
        RDataType::Null(v) => RDataType::Null(Null(copy_bytes(&v.0))),
        RDataType::NS(v) => RDataType::NS(NS(v.0.as_str().to_owned())),
        RDataType::PTR(v) => RDataType::PTR(PTR(v.0.as_str().to_owned())),
        RDataType::SOA(v) => RDataType::SOA(
            SOA {
                mname: v.mname.as_str().to_owned(),
                rname: v.rname.as_str().to_owned(),
                serial: v.serial,
                refresh: v.refresh,
                retry: v.retry,
                expire: v.expire,
                minimum: v.minimum,
            },
        ),
        RDataType::TXT(v) => RDataType::TXT(TXT(copy_bytes(&v.0))),
        RDataType::A(v) => RDataType::A(A(v.0)),
        RDataType::WKS(v) => RDataType::WKS(
            WKS { address: v.address, protocol: v.protocol, bitmap: copy_bytes(&v.bitmap) },
        ),
        RDataType::OPT(v) => RDataType::OPT(OPT(copy_bytes(&v.0))),
        RDataType::Raw(v) => RDataType::Raw(copy_bytes(v)),
    }
}

/// A fresh byte vector with the same contents.
fn copy_bytes(v: &Vec<u8>) -> (c: Vec<u8>)
    ensures
        c@ == v@,
{
    let c = v.clone();
    proof {
        assert(c@ =~= v@);
    }
    c
}

} // verus!
