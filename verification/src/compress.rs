//! The compression index kept while a message is encoded, and the name
//! encoder that consults it.
//!
//! The index remembers, for every name suffix already written, the offset at
//! which it first appeared.  When a later name is written, its suffixes are
//! probed longest first; on the first hit the leading labels are written in
//! full and a two-byte pointer to the recorded offset replaces the rest.
//! Only offsets below 2^14 are recorded, because a pointer has 14 bits, and
//! a suffix of one or two characters is never compressed: the pointer would
//! not be shorter.

use vstd::prelude::*;
use crate::errors::DnsError;
use crate::name::{
    dotted_ok, encode_domain_name, find_dot, first_dot, label_to_bytes, lemma_first_dot,
    plain_wire, str_eq,
};
use vstd::string::StrSliceExecFns;
use vstd::string::StringSliceAdditionalSpecFns;

verus! {

/// The first offset recorded for the suffix `s`, searching front to back.
pub open spec fn cl_lookup(cl: Seq<(Seq<char>, int)>, s: Seq<char>) -> Option<int>
    decreases cl.len(),
{
    if cl.len() == 0 {
        None
    } else if cl[0].0 == s {
        Some(cl[0].1)
    } else {
        cl_lookup(cl.drop_first(), s)
    }
}

/// The index after every suffix of `s` is offered at its offset: a suffix is
/// added when it is absent and its offset fits 14 bits, and existing entries
/// are never replaced, so the first occurrence wins.
pub open spec fn push_spec(cl: Seq<(Seq<char>, int)>, s: Seq<char>, offset: int) -> Seq<
    (Seq<char>, int),
>
    decreases s.len(),
    via push_spec_decreases
{
    let cl1 = if 0 <= offset < 0x4000 && cl_lookup(cl, s) is None {
        cl.push((s, offset))
    } else {
        cl
    };
    let i = first_dot(s);
    if i == s.len() {
        cl1
    } else {
        push_spec(cl1, s.skip(i + 1), offset + i + 1)
    }
}

#[via_fn]
proof fn push_spec_decreases(cl: Seq<(Seq<char>, int)>, s: Seq<char>, offset: int) {
    lemma_first_dot(s);
}

/// Offering suffixes at or beyond the 14-bit limit changes nothing: every
/// later suffix sits still further along.
pub proof fn lemma_push_spec_high(cl: Seq<(Seq<char>, int)>, s: Seq<char>, offset: int)
    requires
        offset >= 0x4000,
    ensures
        push_spec(cl, s, offset) == cl,
    decreases s.len(),
{
    lemma_first_dot(s);
    let i = first_dot(s);
    if i != s.len() {
        lemma_push_spec_high(cl, s.skip(i + 1), offset + i + 1);
    }
}

/// The bytes the compressing encoder emits for the dotted name `s` against
/// the index `cl`.
///
/// Labels are written left to right; before each one the whole remaining
/// suffix is probed, and on a hit of more than two characters whose offset
/// fits 14 bits a pointer ends the name.  Otherwise the final zero octet
/// does.
pub open spec fn encode_wrap_bytes(cl: Seq<(Seq<char>, int)>, s: Seq<char>) -> Seq<u8>
    decreases s.len(),
    via encode_wrap_bytes_decreases
{
    if s.len() == 0 {
        seq![0u8]
    } else if s.len() > 2 && (cl_lookup(cl, s) matches Some(off) && 0 <= off < 0x4000) {
        let off = cl_lookup(cl, s)->Some_0;
        seq![(192 + off / 256) as u8, (off % 256) as u8]
    } else {
        let i = first_dot(s);
        seq![i as u8] + label_to_bytes(s.take(i)) + (if i == s.len() {
            seq![0u8]
        } else {
            encode_wrap_bytes(cl, s.skip(i + 1))
        })
    }
}

#[via_fn]
proof fn encode_wrap_bytes_decreases(cl: Seq<(Seq<char>, int)>, s: Seq<char>) {
    lemma_first_dot(s);
}

/// The compression index: for each domain suffix seen so far, the offset of
/// its first appearance in the message being encoded.
#[derive(Debug)]
pub struct CompressList(pub Vec<(String, usize)>);

impl View for CompressList {
    type V = Seq<(Seq<char>, int)>;

    open spec fn view(&self) -> Seq<(Seq<char>, int)> {
        Seq::new(self.0@.len(), |i: int| ((self.0@[i].0)@, (self.0@[i].1) as int))
    }
}

impl CompressList {
    /// An empty index; every encoded message starts with one.
    pub fn new() -> (r: Self)
        ensures
            r@ == Seq::<(Seq<char>, int)>::empty(),
    {
        let r = CompressList(Vec::new());
        proof {
            assert(r@ =~= Seq::<(Seq<char>, int)>::empty());
        }
        r
    }

    /// The recorded pairs, in insertion order.
    pub fn get_0(&self) -> (r: &Vec<(String, usize)>)
        ensures
            r@.len() == self@.len(),
            forall|i: int|
                0 <= i < r@.len() ==> (#[trigger] r@[i]).0@ == self@[i].0 && r@[i].1 == self@[i].1,
    {
        &self.0
    }

    /// The first offset recorded for exactly this suffix, if any.
    fn get(&self, domain: &str) -> (r: Option<usize>)
        ensures
            match r {
                Some(off) => cl_lookup(self@, domain@) == Some(off as int),
                None => cl_lookup(self@, domain@) is None,
            },
    {
        let mut i: usize = 0;
        proof {
            assert(self@.skip(0) =~= self@);
        }
        while i < self.0.len()
            invariant
                i <= self@.len(),
                cl_lookup(self@, domain@) == cl_lookup(self@.skip(i as int), domain@),
            decreases self@.len() - i,
        {
            if str_eq(self.0[i].0.as_str(), domain) {
                proof {
                    assert(self@.skip(i as int)[0] == self@[i as int]);
                }
                return Some(self.0[i].1);
            }
            proof {
                assert(self@.skip(i as int)[0] == self@[i as int]);
                assert(self@.skip(i as int).drop_first() =~= self@.skip(i + 1));
            }
            i = i + 1;
        }
        proof {
            assert(self@.skip(i as int).len() == 0);
        }
        None
    }

    /// Offers every suffix of `domain` to the index, the whole name at
    /// `offset` and each shorter suffix at the offset of its first label.
    /// A suffix that is already recorded keeps its first offset, and one
    /// whose offset does not fit 14 bits is not recorded.  Entries stay in
    /// insertion order: lookups match a suffix exactly, and the encoder
    /// probes its suffixes longest first, so no by-length ordering of the
    /// list is needed for the longest suffix to win.
    pub fn push(&mut self, domain: &str, offset: usize)
        requires
            domain.is_ascii(),
        ensures
            final(self)@ == push_spec(old(self)@, domain@, offset as int),
    {
        let ghost target = push_spec(self@, domain@, offset as int);
        let mut pos: usize = 0;
        let mut off: usize = offset;
        proof {
            assert(domain@.skip(0) =~= domain@);
        }
        loop
            invariant
                domain.is_ascii(),
                pos <= domain@.len(),
                off as int == offset + pos,
                target == push_spec(old(self)@, domain@, offset as int),
                target == push_spec(self@, domain@.skip(pos as int), off as int),
            decreases domain@.len() - pos,
        {
            if off >= 0x4000 {
                proof {
                    lemma_push_spec_high(self@, domain@.skip(pos as int), off as int);
                }
                return ;
            }
            let sfx = domain.substring_ascii(pos, domain.unicode_len());
            proof {
                assert(sfx@ =~= domain@.skip(pos as int));
            }
            let hit = self.get(sfx);
            if hit.is_none() {
                let ghost pre = self@;
                self.0.push((sfx.to_owned(), off));
                proof {
                    assert(self@ =~= pre.push((domain@.skip(pos as int), off as int)));
                }
            }
            let j = find_dot(domain, pos);
            proof {
                let rem = domain@.skip(pos as int);
                assert(first_dot(rem) == j - pos);
                if j < domain@.len() {
                    assert(rem.skip(j - pos + 1) =~= domain@.skip(j + 1));
                }
            }
            if j == domain.unicode_len() {
                return ;
            }
            let delta = (j - pos) + 1;
            if delta >= 0x4000 {
                proof {
                    lemma_push_spec_high(self@, domain@.skip(j + 1), off + delta);
                }
                return ;
            }
            pos = j + 1;
            off = off + delta;
        }
    }
}


/// A dotted name the encoders accept: ASCII, and either empty (the root) or
/// at most 253 characters with every label 1 to 63 characters, so that the
/// wire form fits 255 bytes.
pub open spec fn encodable_name(s: Seq<char>, ascii: bool) -> bool {
    ascii && (s.len() == 0 || (s.len() <= 253 && dotted_ok(s)))
}

/// Encodes a domain name against the compression index.
///
/// With compression off the uncompressed wire form is emitted and the index
/// is left alone.  With compression on the bytes are exactly
/// [`encode_wrap_bytes`] of the name against the index as it was, and the
/// name's suffixes are then offered to the index at `raw_offset`, the
/// position in the message at which the emitted bytes will stand.  A name
/// that is not ASCII, or longer than 253 characters, or with a label outside
/// 1 to 63 characters, is rejected as malformed and the index is left alone.
pub fn encode_domain_name_wrap(
    domain: &str,
    cl: &mut CompressList,
    is_compressed: bool,
    raw_offset: usize,
) -> (r: Result<Vec<u8>, DnsError>)
    ensures
        match r {
            Ok(bytes) => encodable_name(domain@, domain.is_ascii()) && bytes@ == (if is_compressed {
                encode_wrap_bytes(old(cl)@, domain@)
            } else {
                plain_wire(domain@)
            }) && final(cl)@ == (if is_compressed {
                push_spec(old(cl)@, domain@, raw_offset as int)
            } else {
                old(cl)@
            }),
            Err(e) => !encodable_name(domain@, domain.is_ascii()) && e == DnsError::Malformed
                && final(cl)@ == old(cl)@,
        },
{
    if !domain.is_ascii() {
        return Err(DnsError::Malformed);
    }
    if !domain.is_empty() {
        if domain.unicode_len() > 253 {
            return Err(DnsError::Malformed);
        }
        let mut pos: usize = 0;
        proof {
            assert(domain@.skip(0) =~= domain@);
        }
        loop
            invariant_except_break
                domain.is_ascii(),
                pos <= domain@.len(),
                domain@.len() > 0,
                dotted_ok(domain@) == dotted_ok(domain@.skip(pos as int)),
            ensures
                dotted_ok(domain@),
            decreases domain@.len() - pos,
        {
            let j = find_dot(domain, pos);
            proof {
                let rem = domain@.skip(pos as int);
                assert(first_dot(rem) == j - pos);
                if j < domain@.len() {
                    assert(rem.skip(j - pos + 1) =~= domain@.skip(j + 1));
                }
            }
            let span = j - pos;
            if span < 1 || span > 63 {
                return Err(DnsError::Malformed);
            }
            if j == domain.unicode_len() {
                proof {
                    assert(dotted_ok(domain@.skip(pos as int)));
                }
                break ;
            }
            pos = j + 1;
        }
    }
    let ghost okname = encodable_name(domain@, domain.is_ascii());
    proof {
        assert(okname);
    }
    if !is_compressed {
        return Ok(encode_domain_name(domain));
    }
    let ghost cl0 = cl@;
    let ghost target = encode_wrap_bytes(cl@, domain@);
    let bytes = domain.as_bytes();
    proof {
        broadcast use vstd::string::is_ascii_spec_bytes;

        assert(domain@.skip(0) =~= domain@);
    }
    let mut out: Vec<u8> = Vec::new();
    let mut pos: usize = 0;
    loop
        invariant_except_break
            domain.is_ascii(),
            pos <= domain@.len(),
            bytes@ == domain.spec_bytes(),
            bytes@.len() == domain@.len(),
            forall|k: int| 0 <= k < domain@.len() ==> bytes@[k] == domain@[k] as u8,
            cl@ == cl0,
            *cl == *old(cl),
            cl0 == old(cl)@,
            target == encode_wrap_bytes(old(cl)@, domain@),
            target == out@ + encode_wrap_bytes(cl0, domain@.skip(pos as int)),
            encodable_name(domain@, domain.is_ascii()),
        ensures
            out@ == target,
            *cl == *old(cl),
            domain.is_ascii(),
            target == encode_wrap_bytes(old(cl)@, domain@),
            encodable_name(domain@, domain.is_ascii()),
        decreases domain@.len() - pos,
    {
        if pos == bytes.len() {
            out.push(0);
            proof {
                assert(domain@.skip(pos as int).len() == 0);
                assert(out@ =~= target);
            }
            break ;
        }
        let ghost rem = domain@.skip(pos as int);
        if bytes.len() - pos > 2 {
            let sfx = domain.substring_ascii(pos, domain.unicode_len());
            proof {
                assert(sfx@ =~= rem);
            }
            match cl.get(sfx) {
                Some(off) => {
                    if off < 0x4000 {
                        out.push((192 + off / 256) as u8);
                        out.push((off % 256) as u8);
                        proof {
                            assert(out@ =~= target);
                        }
                        break ;
                    }
                },
                None => {},
            }
        }
        let j = find_dot(domain, pos);
        proof {
            assert(first_dot(rem) == j - pos);
            if j < domain@.len() {
                assert(rem.skip(j - pos + 1) =~= domain@.skip(j + 1));
            }
        }
        out.push((j - pos) as u8);
        let ghost out0 = out@;
        let mut k: usize = pos;
        proof {
            assert(out@ =~= out0 + label_to_bytes(domain@.subrange(pos as int, pos as int)));
        }
        while k < j
            invariant
                pos <= k <= j <= domain@.len(),
                bytes@.len() == domain@.len(),
                forall|kk: int| 0 <= kk < domain@.len() ==> bytes@[kk] == domain@[kk] as u8,
                out@ == out0 + label_to_bytes(domain@.subrange(pos as int, k as int)),
            decreases j - k,
        {
            out.push(bytes[k]);
            k = k + 1;
            proof {
                assert(out@ =~= out0 + label_to_bytes(domain@.subrange(pos as int, k as int)));
            }
        }
        proof {
            assert(rem.take(j - pos) =~= domain@.subrange(pos as int, j as int));
            assert(label_to_bytes(rem.take(j - pos)) =~= label_to_bytes(
                domain@.subrange(pos as int, j as int),
            ));
        }
        if j == bytes.len() {
            out.push(0);
            proof {
                assert(encode_wrap_bytes(cl0, rem) =~= seq![(j - pos) as u8] + label_to_bytes(
                    rem.take(j - pos),
                ) + seq![0u8]);
                assert(out@ =~= target);
            }
            break ;
        }
        proof {
            assert(encode_wrap_bytes(cl0, rem) =~= seq![(j - pos) as u8] + label_to_bytes(
                rem.take(j - pos),
            ) + encode_wrap_bytes(cl0, domain@.skip(j + 1)));
            assert(target =~= out@ + encode_wrap_bytes(cl0, domain@.skip(j + 1)));
        }
        pos = j + 1;
    }
    cl.push(domain, raw_offset);
    Ok(out)
}


/// True exactly when the encoders accept this name; see [`encodable_name`].
pub fn name_encodable(domain: &str) -> (r: bool)
    ensures
        r == encodable_name(domain@, domain.is_ascii()),
{
    if !domain.is_ascii() {
        return false;
    }
    if domain.is_empty() {
        return true;
    }
    if domain.unicode_len() > 253 {
        return false;
    }
    let mut pos: usize = 0;
    proof {
        assert(domain@.skip(0) =~= domain@);
    }
    loop
        invariant_except_break
            domain.is_ascii(),
            pos <= domain@.len(),
            domain@.len() > 0,
            domain@.len() <= 253,
            dotted_ok(domain@) == dotted_ok(domain@.skip(pos as int)),
        ensures
            domain.is_ascii(),
            domain@.len() > 0,
            domain@.len() <= 253,
            dotted_ok(domain@),
        decreases domain@.len() - pos,
    {
        let j = find_dot(domain, pos);
        proof {
            let rem = domain@.skip(pos as int);
            assert(first_dot(rem) == j - pos);
            if j < domain@.len() {
                assert(rem.skip(j - pos + 1) =~= domain@.skip(j + 1));
            }
        }
        let span = j - pos;
        if span < 1 || span > 63 {
            return false;
        }
        if j == domain.unicode_len() {
            proof {
                assert(dotted_ok(domain@.skip(pos as int)));
            }
            break ;
        }
        pos = j + 1;
    }
    true
}

} // verus!
