//! Domain names on the wire: label sequences, the compression-pointer
//! scheme, and the exact decoder for both.
//!
//! A name is a sequence of labels, each 1 to 63 bytes, and its wire form is
//! one length octet per label, the label bytes, and a final zero octet; a
//! name's total wire length may not exceed 255.  Anywhere a length octet may
//! stand, a byte with its two top bits set starts a two-byte pointer whose
//! low 14 bits are an absolute offset into the message at which the rest of
//! the name continues.  A followed pointer must land strictly before its own
//! position, which rules out cycles.
//!
//! Names are carried through the library as text, and deliberately narrowed
//! to ASCII: a label byte of 0x80 or above is rejected as malformed, here
//! and in every decoder built on this one.  The wire format itself allows
//! arbitrary label bytes; within the ASCII universe the contracts below are
//! byte-exact, and the rejection is stated in each parser's failure
//! condition (`ascii_byte_name`).

use vstd::prelude::*;
use crate::errors::DnsError;
use vstd::string::StringSliceAdditionalSpecFns;

verus! {

/// The sanity cap on a name's total wire length (RFC 1035 §3.1).
pub const MAX_NAME_WIRE_LEN: usize = 255;

/// What one attempt to read a name from a buffer yields: whether it parsed,
/// the labels as byte strings, the position just past the name in the
/// original stream, and whether a compression pointer was followed.
pub ghost struct NameParse {
    pub ok: bool,
    pub labels: Seq<Seq<u8>>,
    pub end: int,
    pub ptr: bool,
}

/// The canonical failure value of [`parse_name_at`].
pub open spec fn name_parse_fail() -> NameParse {
    NameParse { ok: false, labels: Seq::empty(), end: 0, ptr: false }
}

/// The wire length of a name given as labels: one length octet and the bytes
/// of each label, and the final zero octet.
pub open spec fn name_wire_len(n: Seq<Seq<u8>>) -> int
    decreases n.len(),
{
    if n.len() == 0 {
        1
    } else {
        1 + n[0].len() + name_wire_len(n.drop_first())
    }
}

/// The uncompressed wire form of a name given as labels.
pub open spec fn wire_of_name(n: Seq<Seq<u8>>) -> Seq<u8>
    decreases n.len(),
{
    if n.len() == 0 {
        seq![0u8]
    } else {
        seq![n[0].len() as u8] + n[0] + wire_of_name(n.drop_first())
    }
}

/// Every label is 1 to 63 bytes long.
pub open spec fn labels_ok(n: Seq<Seq<u8>>) -> bool {
    forall|i: int| 0 <= i < n.len() ==> 1 <= #[trigger] n[i].len() <= 63
}

/// The name decoder, byte for byte.
///
/// At `pos` the buffer holds either a zero octet (end of name), a pointer
/// (top two bits set; the 14-bit offset must be strictly below `pos` and the
/// name continues there, while the reader resumes at `pos + 2`), or a length
/// octet up to 63 followed by that many label bytes.  Any other length octet,
/// a pointer at or past its own position, or a truncated buffer fails the
/// parse.  `fuel` bounds the pointer chain; since every hop goes strictly
/// backwards, a fuel of `buf.len()` never runs out first.
pub open spec fn parse_name_at(buf: Seq<u8>, pos: int, fuel: nat) -> NameParse
    decreases fuel, buf.len() - pos,
{
    if pos < 0 || pos >= buf.len() {
        name_parse_fail()
    } else {
        let b = buf[pos];
        if b == 0 {
            NameParse { ok: true, labels: Seq::empty(), end: pos + 1, ptr: false }
        } else if b & 0xC0 == 0xC0 {
            if pos + 1 >= buf.len() {
                name_parse_fail()
            } else {
                let target = (b & 0x3F) * 256 + buf[pos + 1];
                if target >= pos || fuel == 0 {
                    name_parse_fail()
                } else {
                    let inner = parse_name_at(buf, target as int, (fuel - 1) as nat);
                    if inner.ok {
                        NameParse { ok: true, labels: inner.labels, end: pos + 2, ptr: true }
                    } else {
                        name_parse_fail()
                    }
                }
            }
        } else if b > 63 {
            name_parse_fail()
        } else if pos + 1 + b > buf.len() {
            name_parse_fail()
        } else {
            let rest = parse_name_at(buf, pos + 1 + b, fuel);
            if rest.ok {
                NameParse {
                    ok: true,
                    labels: seq![buf.subrange(pos + 1, pos + 1 + b)] + rest.labels,
                    end: rest.end,
                    ptr: rest.ptr,
                }
            } else {
                name_parse_fail()
            }
        }
    }
}

/// [`parse_name_at`] with enough fuel that only a genuine cycle can fail:
/// every pointer hop lands strictly below its position, so a chain is shorter
/// than the buffer.
pub open spec fn parse_name_full(buf: Seq<u8>, pos: int) -> NameParse {
    parse_name_at(buf, pos, buf.len() as nat)
}

/// A name's wire length counts at least its final zero octet.
pub proof fn lemma_name_wire_len_pos(n: Seq<Seq<u8>>)
    ensures
        name_wire_len(n) >= 1,
    decreases n.len(),
{
    if n.len() > 0 {
        lemma_name_wire_len_pos(n.drop_first());
    }
}

/// The wire form of a name is as long as [`name_wire_len`] says.
pub proof fn lemma_wire_of_name_len(n: Seq<Seq<u8>>)
    ensures
        wire_of_name(n).len() == name_wire_len(n),
    decreases n.len(),
{
    if n.len() > 0 {
        lemma_wire_of_name_len(n.drop_first());
    }
}

/// The exact exec mirror of [`parse_name_at`], with a budget that rejects
/// names whose wire length would exceed it, so that a pointer-rich buffer
/// cannot blow the result up.
///
/// On success the result is precisely what the spec decoder yields, and the
/// name fits the budget.  On failure the spec decoder fails too, or its name
/// would overrun the budget.
pub(crate) fn parse_name_rec(raw: &[u8], pos: usize, fuel: usize, budget: usize) -> (r: Result<
    (Vec<Vec<u8>>, usize, bool),
    DnsError,
>)
    ensures
        match r {
            Ok((labels, end, ptr)) => {
                let p = parse_name_at(raw@, pos as int, fuel as nat);
                p.ok && labels.deep_view() == p.labels && end == p.end && ptr == p.ptr
                    && name_wire_len(p.labels) <= budget && pos < end <= raw@.len() && labels_ok(
                    p.labels,
                )
            },
            Err(e) => {
                let p = parse_name_at(raw@, pos as int, fuel as nat);
                (!p.ok || name_wire_len(p.labels) > budget) && (e == DnsError::Truncated || e
                    == DnsError::Malformed)
            },
        },
    decreases fuel, raw@.len() - pos,
{
    if pos >= raw.len() {
        return Err(DnsError::Truncated);
    }
    let b = raw[pos];
    if b == 0 {
        if budget < 1 {
            return Err(DnsError::Malformed);
        }
        return Ok((Vec::new(), pos + 1, false));
    }
    if b & 0xC0 == 0xC0 {
        if pos + 1 >= raw.len() {
            return Err(DnsError::Truncated);
        }
        let target: usize = ((b & 0x3F) as usize) * 256 + raw[pos + 1] as usize;
        if target >= pos {
            return Err(DnsError::Malformed);
        }
        if fuel == 0 {
            return Err(DnsError::Malformed);
        }
        match parse_name_rec(raw, target, fuel - 1, budget) {
            Ok((labels, _, _)) => {
                return Ok((labels, pos + 2, true));
            },
            Err(e) => {
                return Err(e);
            },
        }
    }
    if b > 63 {
        return Err(DnsError::Malformed);
    }
    let blen = b as usize;
    let rem = raw.len() - pos;
    if blen + 1 > rem {
        return Err(DnsError::Truncated);
    }
    if budget < 2 + blen {
        proof {
            let p = parse_name_at(raw@, pos as int, fuel as nat);
            if p.ok {
                let rest = parse_name_at(raw@, pos + 1 + blen, fuel as nat);
                lemma_name_wire_len_pos(rest.labels);
                assert(p.labels =~= seq![raw@.subrange(pos + 1, pos + 1 + blen)] + rest.labels);
                assert(p.labels.drop_first() =~= rest.labels);
            }
        }
        return Err(DnsError::Malformed);
    }
    let label: Vec<u8> = vstd::slice::slice_to_vec(
        vstd::slice::slice_subrange(raw, pos + 1, pos + 1 + blen),
    );
    match parse_name_rec(raw, pos + 1 + blen, fuel, budget - (1 + blen)) {
        Ok((rest, end, ptr)) => {
            let mut out = rest;
            out.insert(0, label);
            proof {
                let p = parse_name_at(raw@, pos as int, fuel as nat);
                let restp = parse_name_at(raw@, pos + 1 + blen, fuel as nat);
                assert(out.deep_view() =~~= seq![raw@.subrange(pos + 1, pos + 1 + blen)]
                    + restp.labels);
                assert(p.labels.drop_first() =~= restp.labels);
                assert(name_wire_len(p.labels) == 1 + blen + name_wire_len(restp.labels));
            }
            Ok((out, end, ptr))
        },
        Err(e) => {
            proof {
                let p = parse_name_at(raw@, pos as int, fuel as nat);
                let restp = parse_name_at(raw@, pos + 1 + blen, fuel as nat);
                if p.ok {
                    assert(p.labels.drop_first() =~= restp.labels);
                    assert(name_wire_len(p.labels) == 1 + blen + name_wire_len(restp.labels));
                }
            }
            Err(e)
        },
    }
}


/// Decoding the uncompressed wire form of a name gives the name back:
/// wherever a buffer holds `wire_of_name(n)` for labels of legal length, the
/// decoder accepts exactly those labels, consumes exactly that many bytes,
/// and follows no pointer.
pub proof fn lemma_parse_of_wire(buf: Seq<u8>, pos: int, n: Seq<Seq<u8>>, fuel: nat)
    requires
        labels_ok(n),
        0 <= pos,
        pos + name_wire_len(n) <= buf.len(),
        buf.subrange(pos, pos + name_wire_len(n)) == wire_of_name(n),
    ensures
        parse_name_at(buf, pos, fuel).ok,
        parse_name_at(buf, pos, fuel).labels == n,
        parse_name_at(buf, pos, fuel).end == pos + name_wire_len(n),
        !parse_name_at(buf, pos, fuel).ptr,
    decreases n.len(),
{
    lemma_wire_of_name_len(n);
    let w = buf.subrange(pos, pos + name_wire_len(n));
    if n.len() == 0 {
        assert(buf[pos] == w[0]);
        assert(buf[pos] == 0);
        assert(parse_name_at(buf, pos, fuel).labels =~= n);
    } else {
        let l = n[0];
        let b = l.len() as u8;
        let m = n.drop_first();
        lemma_wire_of_name_len(m);
        lemma_name_wire_len_pos(m);
        assert(buf[pos] == w[0]);
        assert(w[0] == wire_of_name(n)[0]);
        assert(wire_of_name(n) == seq![b] + l + wire_of_name(m));
        assert(wire_of_name(n)[0] == b);
        assert(b != 0 && b <= 63);
        assert(b & 0xC0 != 0xC0) by (bit_vector)
            requires
                b <= 63,
        ;
        assert(pos + 1 + b <= buf.len());
        assert(buf.subrange(pos + 1, pos + 1 + l.len() as int) =~= l) by {
            assert forall|j: int| 0 <= j < l.len() implies buf.subrange(
                pos + 1,
                pos + 1 + l.len() as int,
            )[j] == l[j] by {
                assert(buf[pos + 1 + j] == w[1 + j]);
                assert(w[1 + j] == (seq![b] + l + wire_of_name(m))[1 + j]);
            }
        }
        assert(buf.subrange(pos + 1 + l.len(), pos + 1 + l.len() + name_wire_len(m))
            =~= wire_of_name(m)) by {
            assert forall|j: int| 0 <= j < name_wire_len(m) implies buf.subrange(
                pos + 1 + l.len(),
                pos + 1 + l.len() + name_wire_len(m),
            )[j] == wire_of_name(m)[j] by {
                assert(buf[pos + 1 + l.len() + j] == w[1 + l.len() + j]);
                assert(w[1 + l.len() + j] == (seq![b] + l + wire_of_name(m))[1 + l.len() + j]);
            }
        }
        lemma_parse_of_wire(buf, pos + 1 + l.len(), m, fuel);
        assert(parse_name_at(buf, pos, fuel).labels =~= n);
    }
}

/// Re-encoding a name that was decoded without following any pointer gives
/// back exactly the bytes it was decoded from: label encoding is idempotent
/// on pointer-free wire names.
pub proof fn lemma_wire_of_parsed(buf: Seq<u8>, pos: int, fuel: nat)
    requires
        parse_name_at(buf, pos, fuel).ok,
        !parse_name_at(buf, pos, fuel).ptr,
    ensures
        labels_ok(parse_name_at(buf, pos, fuel).labels),
        parse_name_at(buf, pos, fuel).end - pos == name_wire_len(parse_name_at(buf, pos, fuel).labels),
        pos < parse_name_at(buf, pos, fuel).end <= buf.len(),
        buf.subrange(pos, parse_name_at(buf, pos, fuel).end) == wire_of_name(
            parse_name_at(buf, pos, fuel).labels,
        ),
    decreases fuel, buf.len() - pos,
{
    let p = parse_name_at(buf, pos, fuel);
    let b = buf[pos];
    if b == 0 {
        assert(buf.subrange(pos, pos + 1) =~= wire_of_name(p.labels));
    } else {
        assert(!(b & 0xC0 == 0xC0));
        let rest = parse_name_at(buf, pos + 1 + b, fuel);
        lemma_wire_of_parsed(buf, pos + 1 + b, fuel);
        assert(p.labels.drop_first() =~= rest.labels);
        assert(buf.subrange(pos, p.end) =~= wire_of_name(p.labels)) by {
            let lhs = buf.subrange(pos, p.end);
            let rhs = wire_of_name(p.labels);
            lemma_wire_of_name_len(p.labels);
            lemma_wire_of_name_len(rest.labels);
            assert(rhs == seq![p.labels[0].len() as u8] + p.labels[0] + wire_of_name(rest.labels));
            assert forall|j: int| 0 <= j < lhs.len() implies lhs[j] == rhs[j] by {
                if j == 0 {
                    assert(lhs[0] == b);
                } else if j < 1 + b {
                    assert(lhs[j] == buf[pos + j]);
                    assert(rhs[j] == p.labels[0][j - 1]);
                    assert(p.labels[0] == buf.subrange(pos + 1, pos + 1 + b));
                } else {
                    assert(lhs[j] == buf[pos + j]);
                    assert(rhs[j] == wire_of_name(rest.labels)[j - 1 - b]);
                    assert(buf.subrange(pos + 1 + b, rest.end) == wire_of_name(rest.labels));
                    assert(wire_of_name(rest.labels)[j - 1 - b] == buf.subrange(
                        pos + 1 + b,
                        rest.end,
                    )[j - 1 - b]);
                }
            }
        }
    }
}



/// The byte a label character stands for on the wire.
pub open spec fn label_to_bytes(l: Seq<char>) -> Seq<u8> {
    Seq::new(l.len(), |i: int| l[i] as u8)
}

/// The byte strings a name's labels stand for on the wire.
pub open spec fn name_to_bytes(n: Seq<Seq<char>>) -> Seq<Seq<u8>> {
    Seq::new(n.len(), |i: int| label_to_bytes(n[i]))
}

/// Every character of every label is ASCII.
pub open spec fn ascii_name(n: Seq<Seq<char>>) -> bool {
    forall|i: int| 0 <= i < n.len() ==> vstd::utf8::is_ascii_chars(#[trigger] n[i])
}

/// Every byte of every label is ASCII, so the label fits in a `String`
/// character for character.
pub open spec fn ascii_byte_name(n: Seq<Seq<u8>>) -> bool {
    forall|i: int, j: int| 0 <= i < n.len() && 0 <= j < n[i].len() ==> #[trigger] n[i][j] < 128
}

/// The dotted text form of a name: its labels joined by `'.'`.
pub open spec fn dotted(n: Seq<Seq<char>>) -> Seq<char>
    decreases n.len(),
{
    if n.len() == 0 {
        Seq::empty()
    } else if n.len() == 1 {
        n[0]
    } else {
        n[0] + seq!['.'] + dotted(n.drop_first())
    }
}

/// Appending a label to a name appends a dot and the label to its text form.
pub proof fn lemma_dotted_push(n: Seq<Seq<char>>, l: Seq<char>)
    ensures
        n.len() == 0 ==> dotted(n.push(l)) == l,
        n.len() > 0 ==> dotted(n.push(l)) == dotted(n) + seq!['.'] + l,
    decreases n.len(),
{
    if n.len() == 0 {
        assert(dotted(n.push(l)) == n.push(l)[0]);
        assert(n.push(l)[0] == l);
    } else if n.len() == 1 {
        assert(n.push(l).drop_first() =~= seq![l]);
        assert(dotted(n.push(l)) == n[0] + seq!['.'] + dotted(seq![l]));
        assert(dotted(seq![l]) == l);
    } else {
        assert(n.push(l).drop_first() =~= n.drop_first().push(l));
        lemma_dotted_push(n.drop_first(), l);
    }
}

/// Relies on `String::from_utf8`: bytes below 0x80 are one-byte UTF-8
/// encodings, so they decode to one character each with the same code point.
#[verifier::external_body]
pub(crate) fn string_from_ascii(bytes: &[u8]) -> (r: String)
    requires
        forall|i: int| 0 <= i < bytes@.len() ==> bytes@[i] < 128,
    ensures
        r@.len() == bytes@.len(),
        forall|i: int| 0 <= i < bytes@.len() ==> r@[i] == #[trigger] bytes@[i] as char,
{
    match String::from_utf8(bytes.to_vec()) {
        Ok(s) => s,
        Err(_) => String::new(),
    }
}

/// True iff every byte of the slice is ASCII.
pub fn all_ascii(bytes: &[u8]) -> (r: bool)
    ensures
        r == forall|i: int| 0 <= i < bytes@.len() ==> bytes@[i] < 128,
{
    let mut i: usize = 0;
    while i < bytes.len()
        invariant
            i <= bytes@.len(),
            forall|j: int| 0 <= j < i ==> bytes@[j] < 128,
        decreases bytes@.len() - i,
    {
        if bytes[i] >= 128 {
            return false;
        }
        i = i + 1;
    }
    true
}

/// A domain name as an ordered sequence of text labels.
///
/// Labels are case-preserving; in a well-formed name each label is 1 to 63
/// ASCII characters and the whole name fits 255 wire bytes.
#[derive(Debug, Clone)]
pub struct Labels(pub Vec<String>);

impl View for Labels {
    type V = Seq<Seq<char>>;

    open spec fn view(&self) -> Seq<Seq<char>> {
        self.0.deep_view()
    }
}

impl Labels {
    /// A well-formed name: ASCII labels of legal length, 255 wire bytes at
    /// most.
    pub open spec fn wf(self) -> bool {
        ascii_name(self@) && labels_ok(name_to_bytes(self@)) && name_wire_len(
            name_to_bytes(self@),
        ) <= 255
    }

    /// The empty name: the root.
    pub fn new() -> (r: Self)
        ensures
            r@ == Seq::<Seq<char>>::empty(),
            r.wf(),
    {
        let r = Labels(Vec::new());
        proof {
            assert(r@ =~= Seq::<Seq<char>>::empty());
            assert(name_to_bytes(r@) =~= Seq::<Seq<u8>>::empty());
        }
        r
    }

    /// A one-label name.  The text is taken as a single label, unsplit; it is
    /// accepted exactly when it is 1 to 63 ASCII characters.
    pub fn from(name: &str) -> (r: Result<Self, DnsError>)
        ensures
            match r {
                Ok(l) => l@ == seq![name@] && l.wf() && name.is_ascii() && 1 <= name@.len() <= 63,
                Err(e) => (!name.is_ascii() || name@.len() == 0 || name@.len() > 63) && e
                    == DnsError::Malformed,
            },
    {
        if !name.is_ascii() {
            return Err(DnsError::Malformed);
        }
        let n = name.unicode_len();
        if n < 1 || n > 63 {
            return Err(DnsError::Malformed);
        }
        let mut v: Vec<String> = Vec::new();
        v.push(name.to_owned());
        let r = Labels(v);
        proof {
            assert(v@.len() == 1);
            assert(r@.len() == 1);
            assert(r@[0] == v@[0]@);
            assert(r@ =~= seq![name@]);
            let nb = name_to_bytes(r@);
            assert(nb.drop_first() =~= Seq::<Seq<u8>>::empty());
            assert(name_wire_len(Seq::<Seq<u8>>::empty()) == 1);
            assert(name_wire_len(nb) == 1 + name@.len() + 1);
        }
        Ok(r)
    }

    /// Appends another name's labels after this one's.
    pub fn extend(&mut self, labels: Labels)
        ensures
            final(self)@ == old(self)@ + labels@,
    {
        let mut other = labels;
        self.0.append(&mut other.0);
        proof {
            assert(self@ =~= old(self)@ + labels@);
        }
    }

    /// Decodes a name from `raw` at `*offset`, reporting whether a
    /// compression pointer was followed.
    ///
    /// On success the labels are exactly what the spec decoder
    /// [`parse_name_full`] reads at that position, every byte is ASCII, the
    /// name fits 255 wire bytes, and `*offset` advances to just past the name
    /// (past the first pointer, where one was followed).  The parse fails,
    /// with `*offset` unmoved, exactly when the spec decoder rejects the
    /// bytes or the name would break the ASCII or length bounds.
    pub fn parse_with_ptr(raw: &[u8], offset: &mut usize) -> (r: Result<(Self, bool), DnsError>)
        ensures
            match r {
                Ok((labels, ptr)) => {
                    let p = parse_name_full(raw@, *old(offset) as int);
                    p.ok && name_to_bytes(labels@) == p.labels && labels.wf() && ptr == p.ptr
                        && *final(offset) == p.end && *old(offset) < p.end <= raw@.len()
                },
                Err(e) => {
                    let p = parse_name_full(raw@, *old(offset) as int);
                    (!p.ok || name_wire_len(p.labels) > 255 || !ascii_byte_name(p.labels)) && *final(offset) == *old(offset)
                },
            },
    {
        let start: usize = *offset;
        match parse_name_rec(raw, start, raw.len(), MAX_NAME_WIRE_LEN) {
            Err(e) => {
                proof {
                    assert(start == *old(offset));
                }
                Err(e)
            },
            Ok((labs, end, ptr)) => {
                let ghost p = parse_name_full(raw@, start as int);
                match labels_from_bytes(&labs) {
                    Ok(r) => {
                        proof {
                            assert(name_to_bytes(r@) == p.labels);
                        }
                        *offset = end;
                        Ok((r, ptr))
                    },
                    Err(e) => {
                        proof {
                            assert(!ascii_byte_name(p.labels));
                        }
                        Err(e)
                    },
                }
            },
        }
    }

    /// Decodes a name from `raw` at `*offset`; see [`Labels::parse_with_ptr`]
    /// for the exact success and failure conditions.
    pub fn parse(raw: &[u8], offset: &mut usize) -> (r: Result<Self, DnsError>)
        ensures
            match r {
                Ok(labels) => {
                    let p = parse_name_full(raw@, *old(offset) as int);
                    p.ok && name_to_bytes(labels@) == p.labels && labels.wf() && *final(offset)
                        == p.end && *old(offset) < p.end <= raw@.len()
                },
                Err(e) => {
                    let p = parse_name_full(raw@, *old(offset) as int);
                    (!p.ok || name_wire_len(p.labels) > 255 || !ascii_byte_name(p.labels)) && *final(offset) == *old(offset)
                },
            },
    {
        match Self::parse_with_ptr(raw, offset) {
            Ok((labels, _)) => Ok(labels),
            Err(e) => Err(e),
        }
    }

    /// The dotted text form of the name: its labels joined by `'.'`.
    pub fn encode_to_str(&self) -> (r: String)
        ensures
            r@ == dotted(self@),
    {
        let mut s = String::new();
        let mut i: usize = 0;
        proof {
            reveal_strlit(".");
            assert(s@ =~= dotted(self@.take(0)));
        }
        while i < self.0.len()
            invariant
                i <= self@.len(),
                s@ == dotted(self@.take(i as int)),
            decreases self@.len() - i,
        {
            if i > 0 {
                s.append(".");
                proof {
                    reveal_strlit(".");
                    assert("."@ =~= seq!['.']);
                }
            }
            s.append(self.0[i].as_str());
            proof {
                lemma_dotted_push(self@.take(i as int), self@[i as int]);
                assert(self@.take(i + 1) =~= self@.take(i as int).push(self@[i as int]));
            }
            i = i + 1;
        }
        proof {
            assert(self@.take(self@.len() as int) =~= self@);
        }
        s
    }
}


/// Exact string comparison, character for character.
pub fn str_eq(a: &str, b: &str) -> (r: bool)
    ensures
        r == (a@ == b@),
{
    let ab = a.as_bytes();
    let bb = b.as_bytes();
    proof {
        vstd::utf8::encode_utf8_decode_utf8(a@);
        vstd::utf8::encode_utf8_decode_utf8(b@);
    }
    if ab.len() != bb.len() {
        return false;
    }
    let mut i: usize = 0;
    while i < ab.len()
        invariant
            i <= ab@.len(),
            ab@.len() == bb@.len(),
            ab@ == a.spec_bytes(),
            bb@ == b.spec_bytes(),
            forall|j: int| 0 <= j < i ==> ab@[j] == bb@[j],
        decreases ab@.len() - i,
    {
        if ab[i] != bb[i] {
            proof {
                assert(a.spec_bytes() != b.spec_bytes());
                vstd::utf8::encode_utf8_decode_utf8(a@);
                vstd::utf8::encode_utf8_decode_utf8(b@);
            }
            return false;
        }
        i = i + 1;
    }
    proof {
        assert(a.spec_bytes() =~= b.spec_bytes());
        vstd::utf8::encode_utf8_decode_utf8(a@);
        vstd::utf8::encode_utf8_decode_utf8(b@);
    }
    true
}

/// The index of the first `'.'` in `s`, or `s.len()` if there is none.
pub open spec fn first_dot(s: Seq<char>) -> int
    decreases s.len(),
{
    if s.len() == 0 {
        0
    } else if s[0] == '.' {
        0
    } else {
        1 + first_dot(s.drop_first())
    }
}

/// What [`first_dot`] finds: a position up to `s.len()`, a dot there if it is
/// in range, and no dot before it.
pub proof fn lemma_first_dot(s: Seq<char>)
    ensures
        0 <= first_dot(s) <= s.len(),
        first_dot(s) < s.len() ==> s[first_dot(s)] == '.',
        forall|k: int| 0 <= k < first_dot(s) ==> s[k] != '.',
    decreases s.len(),
{
    if s.len() > 0 && s[0] != '.' {
        lemma_first_dot(s.drop_first());
        assert(forall|k: int| 0 <= k < first_dot(s.drop_first()) ==> s.drop_first()[k] != '.');
        assert forall|k: int| 0 <= k < first_dot(s) implies s[k] != '.' by {
            if k > 0 {
                assert(s.drop_first()[k - 1] != '.');
            }
        }
    }
}

/// A position that is a dot with no dot before it is what [`first_dot`]
/// finds.
pub proof fn lemma_first_dot_at(s: Seq<char>, j: int)
    requires
        0 <= j <= s.len(),
        forall|k: int| 0 <= k < j ==> s[k] != '.',
        j < s.len() ==> s[j] == '.',
    ensures
        first_dot(s) == j,
{
    lemma_first_dot(s);
    let fd = first_dot(s);
    if fd < j {
        assert(s[fd] == '.');
        assert(s[fd] != '.');
    }
    if fd > j {
        assert(j < s.len());
        assert(s[j] != '.');
    }
}

/// The text of a name split at its dots.  The empty text yields one empty
/// label, as splitting does; callers treat the empty text as the root name
/// before splitting.
pub open spec fn split_dots(s: Seq<char>) -> Seq<Seq<char>>
    decreases s.len(),
    via split_dots_decreases
{
    let i = first_dot(s);
    if i == s.len() {
        seq![s]
    } else {
        seq![s.take(i)] + split_dots(s.skip(i + 1))
    }
}

#[via_fn]
proof fn split_dots_decreases(s: Seq<char>) {
    lemma_first_dot(s);
}

/// A dotted name whose labels all have a legal length: every stretch between
/// dots is 1 to 63 characters.
pub open spec fn dotted_ok(s: Seq<char>) -> bool
    decreases s.len(),
    via dotted_ok_decreases
{
    let i = first_dot(s);
    1 <= i <= 63 && (i == s.len() || dotted_ok(s.skip(i + 1)))
}

#[via_fn]
proof fn dotted_ok_decreases(s: Seq<char>) {
    lemma_first_dot(s);
}

/// The uncompressed wire form of a dotted name: one length octet and the
/// bytes of each stretch between dots, and a final zero octet.  The empty
/// text is the root and encodes to the zero octet alone.
pub open spec fn plain_wire(s: Seq<char>) -> Seq<u8>
    decreases s.len(),
    via plain_wire_decreases
{
    if s.len() == 0 {
        seq![0u8]
    } else {
        let i = first_dot(s);
        seq![i as u8] + label_to_bytes(s.take(i)) + (if i == s.len() {
            seq![0u8]
        } else {
            plain_wire(s.skip(i + 1))
        })
    }
}

#[via_fn]
proof fn plain_wire_decreases(s: Seq<char>) {
    lemma_first_dot(s);
}

/// The index of the first `'.'` at or after `from`, or the text's length if
/// there is none.
pub fn find_dot(s: &str, from: usize) -> (j: usize)
    requires
        s.is_ascii(),
        from <= s@.len(),
    ensures
        from <= j <= s@.len(),
        first_dot(s@.skip(from as int)) == j - from,
        j < s@.len() ==> s@[j as int] == '.',
        forall|k: int| from <= k < j ==> s@[k] != '.',
{
    let bytes = s.as_bytes();
    proof {
        broadcast use vstd::string::is_ascii_spec_bytes;

    }
    let mut j: usize = from;
    while j < bytes.len()
        invariant
            s.is_ascii(),
            from <= j <= s@.len(),
            bytes@ == s.spec_bytes(),
            bytes@.len() == s@.len(),
            forall|k: int| 0 <= k < s@.len() ==> bytes@[k] == s@[k] as u8,
            forall|k: int| from <= k < j ==> s@[k] != '.',
        decreases bytes@.len() - j,
    {
        if bytes[j] == 46 {
            proof {
                assert(s@[j as int] as u8 == 46);
                assert(s@[j as int] <= '\u{7f}') by {
                    assert(vstd::utf8::is_ascii_chars(s@));
                }
                assert(s@[j as int] == '.');
                lemma_first_dot_at(s@.skip(from as int), j - from);
            }
            return j;
        }
        proof {
            assert(s@[j as int] as u8 == bytes@[j as int]);
            assert(s@[j as int] <= '\u{7f}') by {
                assert(vstd::utf8::is_ascii_chars(s@));
            }
            assert(s@[j as int] != '.') by {
                if s@[j as int] == '.' {
                    assert(s@[j as int] as u8 == 46);
                }
            }
        }
        j = j + 1;
    }
    proof {
        lemma_first_dot_at(s@.skip(from as int), j - from);
    }
    j
}

/// Emits the uncompressed wire form of a dotted ASCII name.
///
/// Every stretch between dots becomes a length octet and its bytes, with the
/// length truncated to an octet; the terminating zero octet follows.  Legal
/// label lengths are the caller's concern: [`plain_wire`] describes the
/// output exactly either way.
pub fn encode_domain_name(domain: &str) -> (r: Vec<u8>)
    requires
        domain.is_ascii(),
    ensures
        r@ == plain_wire(domain@),
{
    let mut out: Vec<u8> = Vec::new();
    if domain.is_empty() {
        out.push(0);
        proof {
            assert(out@ =~= plain_wire(domain@));
        }
        return out;
    }
    let bytes = domain.as_bytes();
    proof {
        broadcast use vstd::string::is_ascii_spec_bytes;

    }
    let mut pos: usize = 0;
    let ghost target = plain_wire(domain@);
    proof {
        assert(domain@.skip(0) =~= domain@);
    }
    loop
        invariant
            domain.is_ascii(),
            pos <= domain@.len(),
            bytes@ == domain.spec_bytes(),
            bytes@.len() == domain@.len(),
            forall|k: int| 0 <= k < domain@.len() ==> bytes@[k] == domain@[k] as u8,
            target == out@ + plain_wire(domain@.skip(pos as int)),
            target == plain_wire(domain@),
            domain@.len() > 0,
        decreases domain@.len() - pos,
    {
        if pos == bytes.len() {
            out.push(0);
            proof {
                assert(domain@.skip(pos as int).len() == 0);
                assert(plain_wire(domain@.skip(pos as int)) =~= seq![0u8]);
                assert(out@ =~= target);
            }
            return out;
        }
        let j = find_dot(domain, pos);
        let llen = j - pos;
        out.push(llen as u8);
        let ghost out0 = out@;
        let mut k: usize = pos;
        proof {
            assert(out@ =~= out0 + label_to_bytes(domain@.subrange(pos as int, pos as int)));
        }
        while k < j
            invariant
                pos <= k <= j <= domain@.len(),
                bytes@.len() == domain@.len(),
                forall|kk: int| 0 <= kk < domain@.len() ==> bytes@[kk] == domain@[kk] as u8,
                out@ == out0 + label_to_bytes(domain@.subrange(pos as int, k as int)),
            decreases j - k,
        {
            out.push(bytes[k]);
            k = k + 1;
            proof {
                assert(out@ =~= out0 + label_to_bytes(domain@.subrange(pos as int, k as int)));
            }
        }
        proof {
            let sfx = domain@.skip(pos as int);
            assert(first_dot(sfx) == j - pos);
            assert(sfx.take(j - pos) =~= domain@.subrange(pos as int, j as int));
            assert(label_to_bytes(sfx.take(j - pos)) =~= label_to_bytes(
                domain@.subrange(pos as int, j as int),
            ));
        }
        if j == bytes.len() {
            out.push(0);
            proof {
                let sfx = domain@.skip(pos as int);
                assert(plain_wire(sfx) =~= seq![(j - pos) as u8] + label_to_bytes(
                    sfx.take(j - pos),
                ) + seq![0u8]);
                assert(out@ =~= target);
            }
            return out;
        }
        proof {
            let sfx = domain@.skip(pos as int);
            assert(sfx.skip(j - pos + 1) =~= domain@.skip(j + 1));
            assert(plain_wire(sfx) =~= seq![(j - pos) as u8] + label_to_bytes(sfx.take(j - pos))
                + plain_wire(domain@.skip(j + 1)));
            assert(target =~= out@ + plain_wire(domain@.skip(j + 1)));
        }
        pos = j + 1;
    }
}


/// The wire bytes of the first `i` labels of a name: a length octet and the
/// bytes of each, without the final zero octet.
pub open spec fn wire_of_labels_pre(n: Seq<Seq<u8>>, i: int) -> Seq<u8>
    decreases i,
{
    if i <= 0 {
        Seq::empty()
    } else {
        wire_of_labels_pre(n, i - 1) + seq![n[i - 1].len() as u8] + n[i - 1]
    }
}

/// One more label extends the prefix bytes by its length octet and bytes.
pub proof fn lemma_wire_of_labels_pre_step(n: Seq<Seq<u8>>, i: int)
    requires
        0 <= i,
    ensures
        wire_of_labels_pre(n, i + 1) == wire_of_labels_pre(n, i) + seq![n[i].len() as u8] + n[i],
{
}

/// A name's wire form splits at any label boundary into the prefix bytes and
/// the wire form of the remaining labels.
pub proof fn lemma_wire_of_name_split(n: Seq<Seq<u8>>, k: int)
    requires
        0 <= k <= n.len(),
    ensures
        wire_of_name(n) == wire_of_labels_pre(n, k) + wire_of_name(n.skip(k)),
    decreases k,
{
    if k == 0 {
        assert(n.skip(0) =~= n);
        assert(wire_of_name(n) =~= wire_of_labels_pre(n, 0) + wire_of_name(n.skip(0)));
    } else {
        lemma_wire_of_name_split(n, k - 1);
        let m = n.skip(k - 1);
        assert(m[0] == n[k - 1]);
        assert(m.drop_first() =~= n.skip(k));
        assert(wire_of_name(m) == seq![m[0].len() as u8] + m[0] + wire_of_name(m.drop_first()));
        assert(wire_of_name(n) =~= wire_of_labels_pre(n, k) + wire_of_name(n.skip(k)));
    }
}

/// The whole name is its label prefix bytes and the final zero octet.
pub proof fn lemma_wire_of_labels_pre_all(n: Seq<Seq<u8>>)
    ensures
        wire_of_labels_pre(n, n.len() as int) + seq![0u8] == wire_of_name(n),
{
    lemma_wire_of_name_split(n, n.len() as int);
    assert(n.skip(n.len() as int) =~= Seq::<Seq<u8>>::empty());
    assert(wire_of_name(Seq::<Seq<u8>>::empty()) =~= seq![0u8]);
    assert(wire_of_labels_pre(n, n.len() as int) + seq![0u8] =~= wire_of_name(n));
}


/// Whatever the decoder accepts has labels of legal length.
pub proof fn lemma_parse_labels_ok(buf: Seq<u8>, pos: int, fuel: nat)
    requires
        parse_name_at(buf, pos, fuel).ok,
    ensures
        labels_ok(parse_name_at(buf, pos, fuel).labels),
    decreases fuel, buf.len() - pos,
{
    let b = buf[pos];
    let p = parse_name_at(buf, pos, fuel);
    if b == 0 {
    } else if b & 0xC0 == 0xC0 {
        let target = (b & 0x3F) * 256 + buf[pos + 1];
        lemma_parse_labels_ok(buf, target as int, (fuel - 1) as nat);
    } else {
        lemma_parse_labels_ok(buf, pos + 1 + b, fuel);
        let rest = parse_name_at(buf, pos + 1 + b, fuel);
        assert(p.labels.drop_first() =~= rest.labels);
        assert(p.labels[0].len() == b);
    }
}

/// Turns raw label bytes into text labels, character for character; rejected
/// exactly when some byte is not ASCII.
pub(crate) fn labels_from_bytes(labs: &Vec<Vec<u8>>) -> (r: Result<Labels, DnsError>)
    ensures
        match r {
            Ok(l) => name_to_bytes(l@) == labs.deep_view() && ascii_name(l@) && ascii_byte_name(
                labs.deep_view(),
            ) && l@.len() == labs@.len(),
            Err(e) => !ascii_byte_name(labs.deep_view()) && e == DnsError::Malformed,
        },
{
    let mut out: Vec<String> = Vec::new();
    let mut i: usize = 0;
    while i < labs.len()
        invariant
            i <= labs@.len(),
            out@.len() == i,
            forall|j: int| #![auto] 0 <= j < i ==> label_to_bytes(out@[j]@) == labs@[j]@,
            forall|j: int, k: int| #![trigger out@[j]@[k]]
                0 <= j < i && 0 <= k < out@[j]@.len() ==> '\0' <= out@[j]@[k] <= '\u{7f}',
        decreases labs@.len() - i,
    {
        if !all_ascii(labs[i].as_slice()) {
            proof {
                let bad = choose|k: int|
                    0 <= k < labs@[i as int]@.len() && labs@[i as int]@[k] >= 128;
                assert(labs.deep_view()[i as int] =~= labs@[i as int]@);
                assert(labs.deep_view()[i as int][bad] >= 128);
                assert(!ascii_byte_name(labs.deep_view()));
            }
            return Err(DnsError::Malformed);
        }
        let st = string_from_ascii(labs[i].as_slice());
        proof {
            assert(label_to_bytes(st@) =~= labs@[i as int]@);
            assert forall|k: int| 0 <= k < st@.len() implies '\0' <= #[trigger] st@[k]
                <= '\u{7f}' by {
                assert(st@[k] == labs@[i as int]@[k] as char);
                assert(labs@[i as int]@[k] < 128);
            }
        }
        out.push(st);
        i = i + 1;
    }
    let r = Labels(out);
    proof {
        assert forall|j: int| 0 <= j < r@.len() implies name_to_bytes(r@)[j]
            =~= labs.deep_view()[j] by {
            assert(label_to_bytes(out@[j]@) == labs@[j]@);
            assert(labs.deep_view()[j] =~= labs@[j]@);
        }
        assert(name_to_bytes(r@) =~~= labs.deep_view());
        assert forall|j: int| 0 <= j < r@.len() implies vstd::utf8::is_ascii_chars(
            #[trigger] r@[j],
        ) by {
            assert(r@[j] == out@[j]@);
            assert forall|k: int| 0 <= k < r@[j].len() implies '\0' <= #[trigger] r@[j][k]
                <= '\u{7f}' by {
                assert(r@[j][k] == out@[j]@[k]);
            }
        }
        assert(ascii_name(r@));
        assert forall|i2: int, j2: int|
            0 <= i2 < labs.deep_view().len() && 0 <= j2 < labs.deep_view()[i2].len() implies #[trigger] labs.deep_view()[i2][j2]
            < 128 by {
            assert(labs.deep_view()[i2] =~= labs@[i2]@);
            assert(labs.deep_view()[i2][j2] == label_to_bytes(out@[i2]@)[j2]);
            assert(out@[i2]@[j2] <= '\u{7f}');
        }
        assert(ascii_byte_name(labs.deep_view()));
    }
    Ok(r)
}


/// The text labels a byte-label name stands for, character for character.
pub open spec fn chars_of_labels(n: Seq<Seq<u8>>) -> Seq<Seq<char>> {
    Seq::new(n.len(), |i: int| Seq::new(n[i].len(), |j: int| n[i][j] as char))
}

/// The dotted text of a byte-label name.
pub open spec fn name_text(n: Seq<Seq<u8>>) -> Seq<char> {
    dotted(chars_of_labels(n))
}

/// ASCII text labels survive the round trip through their wire bytes.
pub proof fn lemma_chars_bytes_roundtrip(n: Seq<Seq<char>>)
    requires
        ascii_name(n),
    ensures
        chars_of_labels(name_to_bytes(n)) == n,
{
    let m = chars_of_labels(name_to_bytes(n));
    assert forall|i: int| 0 <= i < n.len() implies m[i] =~= n[i] by {
        assert(vstd::utf8::is_ascii_chars(n[i]));
        assert forall|j: int| 0 <= j < n[i].len() implies m[i][j] == n[i][j] by {
            assert(n[i][j] <= '\u{7f}');
            assert(name_to_bytes(n)[i][j] == n[i][j] as u8);
        }
    }
    assert(m =~= n);
}


/// The characters a byte string stands for, one per byte.
pub open spec fn text_of_bytes(s: Seq<u8>) -> Seq<char> {
    Seq::new(s.len(), |i: int| s[i] as char)
}

/// Appends an ASCII string's bytes, one per character.
pub fn push_str_bytes(out: &mut Vec<u8>, s: &str)
    requires
        s.is_ascii(),
    ensures
        final(out)@ == old(out)@ + label_to_bytes(s@),
{
    proof {
        broadcast use vstd::string::is_ascii_spec_bytes;

    }
    let mut v = s.as_bytes_vec();
    proof {
        assert(v@ =~= label_to_bytes(s@));
    }
    out.append(&mut v);
}


impl Labels {
    /// True exactly when the name is well formed; see [`Labels::wf`].
    pub fn check_wf(&self) -> (r: bool)
        ensures
            r == self.wf(),
    {
        let ghost nb = name_to_bytes(self@);
        let mut acc: usize = 0;
        let mut i: usize = 0;
        proof {
            assert(nb.skip(0) =~= nb);
        }
        while i < self.0.len()
            invariant_except_break
                i <= self@.len(),
                acc <= 254,
                name_wire_len(nb) == acc + name_wire_len(nb.skip(i as int)),
                nb == name_to_bytes(self@),
                forall|j: int| #![auto]
                    0 <= j < i ==> vstd::utf8::is_ascii_chars(self@[j]) && 1 <= nb[j].len() <= 63,
            ensures
                i == self@.len(),
                name_wire_len(nb) == acc + 1,
                acc <= 254,
                nb == name_to_bytes(self@),
                forall|j: int| #![auto]
                    0 <= j < i ==> vstd::utf8::is_ascii_chars(self@[j]) && 1 <= nb[j].len() <= 63,
            decreases self@.len() - i,
        {
            let lab: &String = &self.0[i];
            if !lab.as_str().is_ascii() {
                proof {
                    assert(!vstd::utf8::is_ascii_chars(self@[i as int]));
                }
                return false;
            }
            let n = lab.as_str().unicode_len();
            if n < 1 || n > 63 {
                proof {
                    assert(nb[i as int].len() == self@[i as int].len());
                }
                return false;
            }
            proof {
                assert(nb.skip(i as int)[0] == nb[i as int]);
                assert(nb.skip(i as int).drop_first() =~= nb.skip(i + 1));
                assert(nb[i as int].len() == self@[i as int].len());
                lemma_name_wire_len_pos(nb.skip(i + 1));
            }
            if acc + 1 + n > 254 {
                proof {
                    assert(name_wire_len(nb) > 255);
                }
                return false;
            }
            acc = acc + 1 + n;
            i = i + 1;
        }
        proof {
            assert(nb.skip(i as int).len() == 0);
            assert(labels_ok(nb));
            assert(ascii_name(self@));
            assert(name_wire_len(nb) <= 255);
        }
        true
    }
}


/// The dotted text of an ASCII name is ASCII.
pub proof fn lemma_dotted_ascii(n: Seq<Seq<char>>)
    requires
        ascii_name(n),
    ensures
        vstd::utf8::is_ascii_chars(dotted(n)),
    decreases n.len(),
{
    if n.len() == 0 {
    } else if n.len() == 1 {
        assert(vstd::utf8::is_ascii_chars(n[0]));
        assert(dotted(n) == n[0]);
    } else {
        assert(vstd::utf8::is_ascii_chars(n[0]));
        lemma_dotted_ascii(n.drop_first());
        let d = dotted(n);
        assert(d == n[0] + seq!['.'] + dotted(n.drop_first()));
        assert forall|i: int| 0 <= i < d.len() implies '\0' <= #[trigger] d[i] <= '\u{7f}' by {
            if i < n[0].len() {
                assert(d[i] == n[0][i]);
            } else if i == n[0].len() {
                assert(d[i] == '.');
            } else {
                assert(d[i] == dotted(n.drop_first())[i - n[0].len() - 1]);
            }
        }
    }
}


/// Splits a dotted ASCII name at its dots.
pub fn split_name(s: &str) -> (r: Vec<String>)
    requires
        s.is_ascii(),
    ensures
        r.deep_view() == split_dots(s@),
        forall|i: int| 0 <= i < r@.len() ==> vstd::utf8::is_ascii_chars((#[trigger] r@[i])@),
{
    let mut out: Vec<String> = Vec::new();
    let mut pos: usize = 0;
    proof {
        assert(s@.skip(0) =~= s@);
        assert(out.deep_view() + split_dots(s@) =~= split_dots(s@));
    }
    loop
        invariant_except_break
            s.is_ascii(),
            pos <= s@.len(),
            split_dots(s@) == out.deep_view() + split_dots(s@.skip(pos as int)),
            forall|i: int| 0 <= i < out@.len() ==> vstd::utf8::is_ascii_chars((#[trigger] out@[i])@),
        ensures
            out.deep_view() == split_dots(s@),
            forall|i: int| 0 <= i < out@.len() ==> vstd::utf8::is_ascii_chars((#[trigger] out@[i])@),
        decreases s@.len() - pos,
    {
        let j = find_dot(s, pos);
        let lab = s.substring_ascii(pos, j);
        proof {
            let rem = s@.skip(pos as int);
            lemma_first_dot(rem);
            assert(first_dot(rem) == j - pos);
            assert(lab@ =~= rem.take(j - pos));
            if j < s@.len() {
                assert(rem.skip(j - pos + 1) =~= s@.skip(j + 1));
            }
        }
        let ghost pre = out.deep_view();
        out.push(lab.to_owned());
        proof {
            assert(out.deep_view() =~~= pre.push(lab@));
        }
        if j == s.unicode_len() {
            proof {
                let rem = s@.skip(pos as int);
                assert(split_dots(rem) =~= seq![rem]);
                assert(rem.take(j - pos) =~= rem);
                assert(out.deep_view() =~= split_dots(s@));
            }
            break ;
        }
        proof {
            let rem = s@.skip(pos as int);
            assert(split_dots(rem) =~= seq![rem.take(j - pos)] + split_dots(s@.skip(j + 1)));
            assert(pre + split_dots(rem) =~= out.deep_view() + split_dots(s@.skip(j + 1)));
        }
        pos = j + 1;
    }
    out
}

/// The case-folded image of an ASCII capital, and every other character
/// unchanged: DNS names compare case-insensitively.
pub open spec fn lower_char(c: char) -> char {
    if 'A' <= c <= 'Z' {
        ((c as u8) + 32) as char
    } else {
        c
    }
}

/// A character sequence folded to lower case.
pub open spec fn lower_seq(s: Seq<char>) -> Seq<char> {
    Seq::new(s.len(), |i: int| lower_char(s[i]))
}

/// Case-insensitive string equality over ASCII text.
pub fn str_eq_fold(a: &str, b: &str) -> (r: bool)
    ensures
        r == (lower_seq(a@) == lower_seq(b@)),
{
    let an = a.unicode_len();
    let bn = b.unicode_len();
    if an != bn {
        proof {
            assert(lower_seq(a@).len() != lower_seq(b@).len());
        }
        return false;
    }
    let mut i: usize = 0;
    while i < an
        invariant
            an == a@.len() && an == b@.len(),
            i <= an,
            forall|j: int| 0 <= j < i ==> lower_seq(a@)[j] == lower_seq(b@)[j],
        decreases an - i,
    {
        let ca = a.get_char(i);
        let cb = b.get_char(i);
        let la: char = if 'A' <= ca && ca <= 'Z' {
            ((ca as u8) + 32) as char
        } else {
            ca
        };
        let lb: char = if 'A' <= cb && cb <= 'Z' {
            ((cb as u8) + 32) as char
        } else {
            cb
        };
        if la != lb {
            proof {
                assert(lower_seq(a@)[i as int] != lower_seq(b@)[i as int]);
            }
            return false;
        }
        i = i + 1;
    }
    proof {
        assert(lower_seq(a@) =~= lower_seq(b@));
    }
    true
}


/// The index of the first occurrence of `c` in `s`, or `s.len()` if there
/// is none.
pub open spec fn first_occ(s: Seq<char>, c: char) -> int
    decreases s.len(),
{
    if s.len() == 0 {
        0
    } else if s[0] == c {
        0
    } else {
        1 + first_occ(s.drop_first(), c)
    }
}

/// What [`first_occ`] finds: a position up to `s.len()`, the character
/// there if it is in range, and no earlier occurrence.
pub proof fn lemma_first_occ(s: Seq<char>, c: char)
    ensures
        0 <= first_occ(s, c) <= s.len(),
        first_occ(s, c) < s.len() ==> s[first_occ(s, c)] == c,
        forall|k: int| 0 <= k < first_occ(s, c) ==> s[k] != c,
    decreases s.len(),
{
    if s.len() > 0 && s[0] != c {
        lemma_first_occ(s.drop_first(), c);
        assert forall|k: int| 0 <= k < first_occ(s, c) implies s[k] != c by {
            if k > 0 {
                assert(s.drop_first()[k - 1] != c);
            }
        }
    }
}

/// A position holding `c` with no earlier occurrence is what [`first_occ`]
/// finds.
pub proof fn lemma_first_occ_at(s: Seq<char>, c: char, j: int)
    requires
        0 <= j <= s.len(),
        forall|k: int| 0 <= k < j ==> s[k] != c,
        j < s.len() ==> s[j] == c,
    ensures
        first_occ(s, c) == j,
{
    lemma_first_occ(s, c);
    let fd = first_occ(s, c);
    if fd < j {
        assert(s[fd] == c);
        assert(s[fd] != c);
    }
    if fd > j {
        assert(j < s.len());
        assert(s[j] != c);
    }
}

/// The text split at every occurrence of `c`.  The empty text yields one
/// empty piece, as splitting does.
pub open spec fn split_on(s: Seq<char>, c: char) -> Seq<Seq<char>>
    decreases s.len(),
    via split_on_decreases
{
    let i = first_occ(s, c);
    if i == s.len() {
        seq![s]
    } else {
        seq![s.take(i)] + split_on(s.skip(i + 1), c)
    }
}

#[via_fn]
proof fn split_on_decreases(s: Seq<char>, c: char) {
    lemma_first_occ(s, c);
}

/// The index of the first occurrence of the ASCII character `c` at or
/// after `from`, or the text's length if there is none.
pub fn find_char(s: &str, from: usize, c: char) -> (j: usize)
    requires
        s.is_ascii(),
        from <= s@.len(),
        c <= '\u{7f}',
    ensures
        from <= j <= s@.len(),
        first_occ(s@.skip(from as int), c) == j - from,
        j < s@.len() ==> s@[j as int] == c,
        forall|k: int| from <= k < j ==> s@[k] != c,
{
    let n = s.unicode_len();
    let mut j: usize = from;
    while j < n
        invariant
            s.is_ascii(),
            from <= j <= n,
            n == s@.len(),
            forall|k: int| from <= k < j ==> s@[k] != c,
        decreases n - j,
    {
        if s.get_char(j) == c {
            proof {
                lemma_first_occ_at(s@.skip(from as int), c, j - from);
            }
            return j;
        }
        j = j + 1;
    }
    proof {
        lemma_first_occ_at(s@.skip(from as int), c, j - from);
    }
    j
}

/// Splits ASCII text at every occurrence of the ASCII character `c`.
pub fn split_on_exec(s: &str, c: char) -> (r: Vec<String>)
    requires
        s.is_ascii(),
        c <= '\u{7f}',
    ensures
        r.deep_view() == split_on(s@, c),
        r@.len() >= 1,
        forall|i: int| 0 <= i < r@.len() ==> vstd::utf8::is_ascii_chars((#[trigger] r@[i])@),
{
    let mut out: Vec<String> = Vec::new();
    let mut pos: usize = 0;
    proof {
        assert(s@.skip(0) =~= s@);
        assert(out.deep_view() + split_on(s@, c) =~= split_on(s@, c));
    }
    loop
        invariant_except_break
            s.is_ascii(),
            c <= '\u{7f}',
            pos <= s@.len(),
            split_on(s@, c) == out.deep_view() + split_on(s@.skip(pos as int), c),
            forall|i: int| 0 <= i < out@.len() ==> vstd::utf8::is_ascii_chars((#[trigger] out@[i])@),
        ensures
            out.deep_view() == split_on(s@, c),
            out@.len() >= 1,
            forall|i: int| 0 <= i < out@.len() ==> vstd::utf8::is_ascii_chars((#[trigger] out@[i])@),
        decreases s@.len() - pos,
    {
        let j = find_char(s, pos, c);
        let piece = s.substring_ascii(pos, j);
        proof {
            let rem = s@.skip(pos as int);
            lemma_first_occ(rem, c);
            assert(first_occ(rem, c) == j - pos);
            assert(piece@ =~= rem.take(j - pos));
            if j < s@.len() {
                assert(rem.skip(j - pos + 1) =~= s@.skip(j + 1));
            }
        }
        let ghost pre = out.deep_view();
        out.push(piece.to_owned());
        proof {
            assert(out.deep_view() =~~= pre.push(piece@));
        }
        if j == s.unicode_len() {
            proof {
                let rem = s@.skip(pos as int);
                assert(split_on(rem, c) =~= seq![rem]);
                assert(rem.take(j - pos) =~= rem);
                assert(out.deep_view() =~= split_on(s@, c));
            }
            break ;
        }
        proof {
            let rem = s@.skip(pos as int);
            assert(split_on(rem, c) =~= seq![rem.take(j - pos)] + split_on(s@.skip(j + 1), c));
            assert(pre + split_on(rem, c) =~= out.deep_view() + split_on(s@.skip(j + 1), c));
        }
        pos = j + 1;
    }
    out
}


/// The pieces of ASCII text split at a separator are ASCII themselves.
pub proof fn lemma_split_on_ascii(s: Seq<char>, c: char, i: int)
    requires
        vstd::utf8::is_ascii_chars(s),
        0 <= i < split_on(s, c).len(),
    ensures
        vstd::utf8::is_ascii_chars(split_on(s, c)[i]),
    decreases s.len(),
{
    lemma_first_occ(s, c);
    let j = first_occ(s, c);
    if j == s.len() {
        assert(split_on(s, c)[0] == s);
    } else {
        if i == 0 {
            assert(split_on(s, c)[0] == s.take(j));
            assert forall|k: int| 0 <= k < s.take(j).len() implies '\0' <= #[trigger] s.take(j)[k]
                <= '\u{7f}' by {
                assert(s.take(j)[k] == s[k]);
            }
        } else {
            assert(vstd::utf8::is_ascii_chars(s.skip(j + 1))) by {
                assert forall|k: int| 0 <= k < s.skip(j + 1).len() implies '\0' <= #[trigger] s.skip(
                    j + 1,
                )[k] <= '\u{7f}' by {
                    assert(s.skip(j + 1)[k] == s[j + 1 + k]);
                }
            }
            lemma_split_on_ascii(s.skip(j + 1), c, i - 1);
            assert(split_on(s, c)[i] == split_on(s.skip(j + 1), c)[i - 1]);
        }
    }
}

} // verus!
