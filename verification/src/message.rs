//! The DNS message: header, question section, and the answer, authority and
//! additional record sections.

use vstd::prelude::*;
use crate::errors::DnsError;
use crate::compress::{push_spec, CompressList};
use crate::header::Header;
use crate::name::{dotted, split_dots};
use crate::question::{question_end_at, question_matches_at, question_ok_at, Question};
use crate::rr::{
    rr_end_at, rr_matches_at, rr_ok_at, rrs_cl_after, rrs_encodable, rrs_wire, RR, RRs,
};
use vstd::string::StrSliceExecFns;

verus! {

/// The position after `n` questions read from `pos`, or `None` where one is
/// rejected.
pub open spec fn questions_end(buf: Seq<u8>, pos: int, n: int) -> Option<int>
    decreases n,
{
    if n <= 0 {
        Some(pos)
    } else if !question_ok_at(buf, pos) {
        None
    } else {
        questions_end(buf, question_end_at(buf, pos), n - 1)
    }
}

/// One more readable question extends the run by one.
pub proof fn lemma_questions_end_snoc(buf: Seq<u8>, start: int, i: int, p: int)
    requires
        i >= 0,
        questions_end(buf, start, i) == Some(p),
        question_ok_at(buf, p),
    ensures
        questions_end(buf, start, i + 1) == Some(question_end_at(buf, p)),
    decreases i,
{
    reveal_with_fuel(questions_end, 3);
    if i > 0 {
        lemma_questions_end_snoc(buf, question_end_at(buf, start), i - 1, p);
    }
}

/// The position after `n` records read from `pos`, or `None` where one is
/// rejected.
pub open spec fn rrs_end(buf: Seq<u8>, pos: int, n: int) -> Option<int>
    decreases n,
{
    if n <= 0 {
        Some(pos)
    } else if !rr_ok_at(buf, pos) {
        None
    } else {
        rrs_end(buf, rr_end_at(buf, pos), n - 1)
    }
}

/// One more readable record extends the run by one.
pub proof fn lemma_rrs_end_snoc(buf: Seq<u8>, start: int, i: int, p: int)
    requires
        i >= 0,
        rrs_end(buf, start, i) == Some(p),
        rr_ok_at(buf, p),
    ensures
        rrs_end(buf, start, i + 1) == Some(rr_end_at(buf, p)),
    decreases i,
{
    reveal_with_fuel(rrs_end, 3);
    if i > 0 {
        lemma_rrs_end_snoc(buf, rr_end_at(buf, start), i - 1, p);
    }
}

/// Whether any of `n` records read from `pos` reached its owner name
/// through a compression pointer.
pub open spec fn rrs_any_ptr(buf: Seq<u8>, pos: int, n: int) -> bool
    decreases n,
{
    if n <= 0 {
        false
    } else {
        crate::name::parse_name_full(buf, pos).ptr || rrs_any_ptr(buf, rr_end_at(buf, pos), n - 1)
    }
}

/// One more record extends the pointer check by its own flag.
pub proof fn lemma_rrs_any_ptr_snoc(buf: Seq<u8>, start: int, i: int, p: int)
    requires
        i >= 0,
        rrs_end(buf, start, i) == Some(p),
    ensures
        rrs_any_ptr(buf, start, i + 1) == (rrs_any_ptr(buf, start, i) || crate::name::parse_name_full(
            buf,
            p,
        ).ptr),
    decreases i,
{
    reveal_with_fuel(rrs_any_ptr, 3);
    reveal_with_fuel(rrs_end, 3);
    if i > 0 {
        lemma_rrs_any_ptr_snoc(buf, rr_end_at(buf, start), i - 1, p);
    }
}

/// Reads `count` records from `raw` at `*offset` into one section, marking
/// `*is_compressed` when any owner name followed a pointer.
fn parse_section(raw: &[u8], offset: &mut usize, count: u16, is_compressed: &mut bool) -> (r:
    Result<RRs, DnsError>)
    ensures
        match r {
            Ok(rrs) => {
                &&& rrs_end(raw@, *old(offset) as int, count as int) == Some(*final(offset) as int)
                &&& rrs.0@.len() == count
                &&& forall|j: int|
                    0 <= j < count ==> rr_matches_at(
                        #[trigger] rrs.0@[j],
                        raw@,
                        rrs_end(raw@, *old(offset) as int, j)->Some_0,
                    )
                &&& *final(is_compressed) == (*old(is_compressed) || rrs_any_ptr(
                    raw@,
                    *old(offset) as int,
                    count as int,
                ))
            },
            Err(e) => rrs_end(raw@, *old(offset) as int, count as int) is None,
        },
{
    let mut out = RRs::new();
    let mut i: u16 = 0;
    let ghost start = *old(offset) as int;
    while i < count
        invariant
            i <= count,
            out.0@.len() == i,
            start == *old(offset),
            rrs_end(raw@, start, i as int) == Some(*offset as int),
            rrs_end(raw@, start, count as int) == rrs_end(
                raw@,
                *offset as int,
                count as int - i as int,
            ),
            rrs_any_ptr(raw@, start, count as int) == (rrs_any_ptr(raw@, start, i as int)
                || rrs_any_ptr(raw@, *offset as int, count as int - i as int)),
            *is_compressed == (*old(is_compressed) || rrs_any_ptr(raw@, start, i as int)),
            forall|j: int|
                0 <= j < i ==> rr_matches_at(
                    #[trigger] out.0@[j],
                    raw@,
                    rrs_end(raw@, start, j)->Some_0,
                ),
        decreases count - i,
    {
        let ghost pre = *offset as int;
        let rr = match RR::from(raw, offset, is_compressed) {
            Ok(rr) => rr,
            Err(e) => {
                return Err(e);
            },
        };
        proof {
            lemma_rrs_end_snoc(raw@, start, i as int, pre);
            lemma_rrs_any_ptr_snoc(raw@, start, i as int, pre);
        }
        out.extend(rr);
        i = i + 1;
    }
    Ok(out)
}

/// Whether a whole message parses: twelve header bytes, then as many
/// questions and records as the header's counts announce, each accepted.
pub open spec fn message_ok(buf: Seq<u8>) -> bool {
    let h = Header::spec_from(buf);
    &&& buf.len() >= 12
    &&& questions_end(buf, 12, h.qdcount as int) matches Some(qe)
    &&& rrs_end(buf, qe, h.ancount as int) matches Some(ae)
    &&& rrs_end(buf, ae, h.nscount as int) matches Some(ne)
    &&& rrs_end(buf, ne, h.arcount as int) is Some
}

/// The position just past a parsed message's last record.
pub open spec fn message_end(buf: Seq<u8>) -> int {
    let h = Header::spec_from(buf);
    let qe = questions_end(buf, 12, h.qdcount as int)->Some_0;
    let ae = rrs_end(buf, qe, h.ancount as int)->Some_0;
    let ne = rrs_end(buf, ae, h.nscount as int)->Some_0;
    rrs_end(buf, ne, h.arcount as int)->Some_0
}

/// A whole DNS message.
///
/// `raw` keeps the bytes the message was parsed from (compression pointers
/// refer into them), `is_compressed` records whether any pointer was
/// followed, and `parsed_len` is how many bytes the parse consumed.
#[derive(Debug)]
pub struct DNS {
    pub raw: Vec<u8>,
    pub is_compressed: bool,
    pub parsed_len: usize,
    pub head: Header,
    pub ques: Vec<Question>,
    pub answers: RRs,
    pub authority: RRs,
    pub additional: RRs,
}

impl DNS {
    /// A fresh empty message with a random id and cleared flags.
    pub fn new() -> (r: Self)
        ensures
            r.raw@.len() == 0,
            !r.is_compressed,
            r.parsed_len == 0,
            r.head.wf(),
            !r.head.qr && r.head.opcode == 0 && !r.head.aa && !r.head.tc && !r.head.rd
                && !r.head.ra && r.head.z == 0 && r.head.rcode == 0,
            r.head.qdcount == 0 && r.head.ancount == 0 && r.head.nscount == 0 && r.head.arcount
                == 0,
            r.ques@.len() == 0,
            r.answers.0@.len() == 0,
            r.authority.0@.len() == 0,
            r.additional.0@.len() == 0,
    {
        DNS {
            raw: Vec::new(),
            is_compressed: false,
            parsed_len: 0,
            head: Header::new(),
            ques: Vec::new(),
            answers: RRs::new(),
            authority: RRs::new(),
            additional: RRs::new(),
        }
    }

    /// The bytes this message was parsed from.
    pub fn raw(&self) -> (r: &Vec<u8>)
        ensures
            r == &self.raw,
    {
        &self.raw
    }

    /// Whether any compression pointer was followed during the parse.
    pub fn is_compressed(&self) -> (r: bool)
        ensures
            r == self.is_compressed,
    {
        self.is_compressed
    }

    /// How many bytes the parse consumed.
    pub fn parsed_len(&self) -> (r: usize)
        ensures
            r == self.parsed_len,
    {
        self.parsed_len
    }

    /// The message header.
    pub fn head(&self) -> (r: &Header)
        ensures
            r == &self.head,
    {
        &self.head
    }

    /// The question section.
    pub fn ques(&self) -> (r: &Vec<Question>)
        ensures
            r == &self.ques,
    {
        &self.ques
    }

    /// Parses a whole message: the header, `qdcount` questions, and the
    /// three record sections.  Succeeds exactly when [`message_ok`] accepts
    /// the bytes; every parsed part is then pinned to its position in them.
    pub fn from(raw: &[u8]) -> (r: Result<Self, DnsError>)
        ensures
            match r {
                Ok(m) => {
                    let h = Header::spec_from(raw@);
                    let qe = questions_end(raw@, 12, h.qdcount as int)->Some_0;
                    let ae = rrs_end(raw@, qe, h.ancount as int)->Some_0;
                    let ne = rrs_end(raw@, ae, h.nscount as int)->Some_0;
                    &&& message_ok(raw@)
                    &&& m.raw@ == raw@
                    &&& m.head == h
                    &&& m.parsed_len == message_end(raw@)
                    &&& m.ques@.len() == h.qdcount
                    &&& m.answers.0@.len() == h.ancount
                    &&& m.authority.0@.len() == h.nscount
                    &&& m.additional.0@.len() == h.arcount
                    &&& forall|j: int|
                        0 <= j < m.ques@.len() ==> question_matches_at(
                            #[trigger] m.ques@[j],
                            raw@,
                            questions_end(raw@, 12, j)->Some_0,
                        )
                    &&& forall|j: int|
                        0 <= j < m.answers.0@.len() ==> rr_matches_at(
                            #[trigger] m.answers.0@[j],
                            raw@,
                            rrs_end(raw@, qe, j)->Some_0,
                        )
                    &&& forall|j: int|
                        0 <= j < m.authority.0@.len() ==> rr_matches_at(
                            #[trigger] m.authority.0@[j],
                            raw@,
                            rrs_end(raw@, ae, j)->Some_0,
                        )
                    &&& forall|j: int|
                        0 <= j < m.additional.0@.len() ==> rr_matches_at(
                            #[trigger] m.additional.0@[j],
                            raw@,
                            rrs_end(raw@, ne, j)->Some_0,
                        )
                    &&& m.is_compressed == (rrs_any_ptr(raw@, qe, h.ancount as int) || rrs_any_ptr(
                        raw@,
                        ae,
                        h.nscount as int,
                    ) || rrs_any_ptr(raw@, ne, h.arcount as int))
                },
                Err(e) => !message_ok(raw@),
            },
    {
        if raw.len() < 12 {
            return Err(DnsError::Truncated);
        }
        let hb: [u8; 12] = [
            raw[0],
            raw[1],
            raw[2],
            raw[3],
            raw[4],
            raw[5],
            raw[6],
            raw[7],
            raw[8],
            raw[9],
            raw[10],
            raw[11],
        ];
        let head = Header::from(hb);
        proof {
            assert(head == Header::spec_from(raw@)) by {
                assert(hb@[0] == raw@[0]);
                assert(hb@[1] == raw@[1]);
                assert(hb@[2] == raw@[2]);
                assert(hb@[3] == raw@[3]);
                assert(hb@[4] == raw@[4]);
                assert(hb@[5] == raw@[5]);
                assert(hb@[6] == raw@[6]);
                assert(hb@[7] == raw@[7]);
                assert(hb@[8] == raw@[8]);
                assert(hb@[9] == raw@[9]);
                assert(hb@[10] == raw@[10]);
                assert(hb@[11] == raw@[11]);
            }
        }
        let mut offset: usize = 12;
        let mut ques: Vec<Question> = Vec::new();
        let mut i: u16 = 0;
        let qd = head.qdcount;
        while i < qd
            invariant
                i <= qd,
                ques@.len() == i,
                head == Header::spec_from(raw@),
                qd == head.qdcount,
                raw@.len() >= 12,
                questions_end(raw@, 12, i as int) == Some(offset as int),
                questions_end(raw@, 12, qd as int) == questions_end(
                    raw@,
                    offset as int,
                    qd as int - i as int,
                ),
                forall|j: int|
                    0 <= j < i ==> question_matches_at(
                        #[trigger] ques@[j],
                        raw@,
                        questions_end(raw@, 12, j)->Some_0,
                    ),
            decreases qd - i,
        {
            let ghost pre = offset as int;
            let q = match Question::from(raw, &mut offset) {
                Ok(q) => q,
                Err(e) => {
                    proof {
                        assert(questions_end(raw@, pre, qd as int - i as int) is None);
                        assert(questions_end(raw@, 12, qd as int) is None);
                    }
                    return Err(e);
                },
            };
            proof {
                lemma_questions_end_snoc(raw@, 12, i as int, pre);
            }
            ques.push(q);
            i = i + 1;
        }
        let ghost qe = offset as int;
        let mut is_compressed = false;
        let answers = match parse_section(raw, &mut offset, head.ancount, &mut is_compressed) {
            Ok(v) => v,
            Err(e) => {
                return Err(e);
            },
        };
        let ghost ae = offset as int;
        let authority = match parse_section(raw, &mut offset, head.nscount, &mut is_compressed) {
            Ok(v) => v,
            Err(e) => {
                return Err(e);
            },
        };
        let ghost ne = offset as int;
        let additional = match parse_section(raw, &mut offset, head.arcount, &mut is_compressed) {
            Ok(v) => v,
            Err(e) => {
                return Err(e);
            },
        };
        Ok(
            DNS {
                raw: vstd::slice::slice_to_vec(raw),
                is_compressed,
                parsed_len: offset,
                head,
                ques,
                answers,
                authority,
                additional,
            },
        )
    }

    /// Parses only the header and question section, for callers that need
    /// nothing more of a query.
    pub fn from_fake(raw: &[u8]) -> (r: Result<Self, DnsError>)
        ensures
            match r {
                Ok(m) => {
                    let h = Header::spec_from(raw@);
                    &&& raw@.len() >= 12
                    &&& questions_end(raw@, 12, h.qdcount as int) is Some
                    &&& m.raw@ == raw@
                    &&& m.head == h
                    &&& m.ques@.len() == h.qdcount
                    &&& forall|j: int|
                        0 <= j < m.ques@.len() ==> question_matches_at(
                            #[trigger] m.ques@[j],
                            raw@,
                            questions_end(raw@, 12, j)->Some_0,
                        )
                    &&& m.answers.0@.len() == 0 && m.authority.0@.len() == 0
                        && m.additional.0@.len() == 0
                },
                Err(e) => !(raw@.len() >= 12 && questions_end(
                    raw@,
                    12,
                    Header::spec_from(raw@).qdcount as int,
                ) is Some),
            },
    {
        if raw.len() < 12 {
            return Err(DnsError::Truncated);
        }
        let hb: [u8; 12] = [
            raw[0],
            raw[1],
            raw[2],
            raw[3],
            raw[4],
            raw[5],
            raw[6],
            raw[7],
            raw[8],
            raw[9],
            raw[10],
            raw[11],
        ];
        let head = Header::from(hb);
        proof {
            assert(head == Header::spec_from(raw@)) by {
                assert(hb@[0] == raw@[0]);
                assert(hb@[1] == raw@[1]);
                assert(hb@[2] == raw@[2]);
                assert(hb@[3] == raw@[3]);
                assert(hb@[4] == raw@[4]);
                assert(hb@[5] == raw@[5]);
                assert(hb@[6] == raw@[6]);
                assert(hb@[7] == raw@[7]);
                assert(hb@[8] == raw@[8]);
                assert(hb@[9] == raw@[9]);
                assert(hb@[10] == raw@[10]);
                assert(hb@[11] == raw@[11]);
            }
        }
        let mut offset: usize = 12;
        let mut ques: Vec<Question> = Vec::new();
        let mut i: u16 = 0;
        let qd = head.qdcount;
        while i < qd
            invariant
                i <= qd,
                ques@.len() == i,
                head == Header::spec_from(raw@),
                qd == head.qdcount,
                raw@.len() >= 12,
                questions_end(raw@, 12, i as int) == Some(offset as int),
                questions_end(raw@, 12, qd as int) == questions_end(
                    raw@,
                    offset as int,
                    qd as int - i as int,
                ),
                forall|j: int|
                    0 <= j < i ==> question_matches_at(
                        #[trigger] ques@[j],
                        raw@,
                        questions_end(raw@, 12, j)->Some_0,
                    ),
            decreases qd - i,
        {
            let ghost pre = offset as int;
            let q = match Question::from(raw, &mut offset) {
                Ok(q) => q,
                Err(e) => {
                    proof {
                        assert(questions_end(raw@, pre, qd as int - i as int) is None);
                        assert(questions_end(raw@, 12, qd as int) is None);
                    }
                    return Err(e);
                },
            };
            proof {
                lemma_questions_end_snoc(raw@, 12, i as int, pre);
            }
            ques.push(q);
            i = i + 1;
        }
        Ok(
            DNS {
                raw: vstd::slice::slice_to_vec(raw),
                is_compressed: false,
                parsed_len: 0,
                head,
                ques,
                answers: RRs::new(),
                authority: RRs::new(),
                additional: RRs::new(),
            },
        )
    }

    /// Appends a question for `domain` split at its dots, with the given
    /// type and class.
    pub fn with_ques(&mut self, domain: &str, qtype: u16, qclass: u16)
        requires
            domain.is_ascii(),
        ensures
            final(self).ques@.len() == old(self).ques@.len() + 1,
            final(self).ques@.take(old(self).ques@.len() as int) == old(self).ques@,
            ({
                let q = final(self).ques@[old(self).ques@.len() as int];
                &&& q.qtype == qtype
                &&& q.qclass == qclass
                &&& domain@.len() > 0 ==> q.qname@ == split_dots(domain@)
                &&& domain@.len() == 0 ==> q.qname@ == Seq::<Seq<char>>::empty()
            }),
            *final(self) == (DNS { ques: final(self).ques, ..*old(self) }),
    {
        let mut q = Question::new();
        q.with_qtype(qtype);
        q.with_qclass(qclass);
        if !domain.is_empty() {
            let mut pos: usize = 0;
            proof {
                assert(domain@.skip(0) =~= domain@);
                assert(q.qname@ + split_dots(domain@) =~= split_dots(domain@));
            }
            loop
                invariant_except_break
                    domain.is_ascii(),
                    pos <= domain@.len(),
                    q.qtype == qtype && q.qclass == qclass,
                    split_dots(domain@) == q.qname@ + split_dots(domain@.skip(pos as int)),
                ensures
                    q.qname@ == split_dots(domain@),
                    q.qtype == qtype && q.qclass == qclass,
                decreases domain@.len() - pos,
            {
                let j = crate::name::find_dot(domain, pos);
                let lab = domain.substring_ascii(pos, j);
                proof {
                    let rem = domain@.skip(pos as int);
                    crate::name::lemma_first_dot(rem);
                    assert(crate::name::first_dot(rem) == j - pos);
                    assert(lab@ =~= rem.take(j - pos));
                    if j < domain@.len() {
                        assert(rem.skip(j - pos + 1) =~= domain@.skip(j + 1));
                    }
                }
                q.with_name(lab);
                if j == domain.unicode_len() {
                    proof {
                        let rem = domain@.skip(pos as int);
                        assert(split_dots(rem) =~= seq![rem]);
                        assert(rem.take(j - pos) =~= rem);
                        assert(q.qname@ =~= split_dots(domain@));
                    }
                    break ;
                }
                proof {
                    let rem = domain@.skip(pos as int);
                    assert(split_dots(rem) =~= seq![rem.take(j - pos)] + split_dots(
                        domain@.skip(j + 1),
                    ));
                    assert(q.qname@ + split_dots(domain@.skip(j + 1)) =~= split_dots(domain@));
                }
                pos = j + 1;
            }
        }
        self.ques.push(q);
        proof {
            assert(self.ques@.take(old(self).ques@.len() as int) =~= old(self).ques@);
        }
    }

    /// Appends one answer record.
    pub fn with_answer(&mut self, rr: RR)
        ensures
            final(self).answers.0@ == old(self).answers.0@.push(rr),
            *final(self) == (DNS { answers: final(self).answers, ..*old(self) }),
    {
        self.answers.extend(rr);
    }

    /// Appends one authority record.
    pub fn with_authority(&mut self, ns: RR)
        ensures
            final(self).authority.0@ == old(self).authority.0@.push(ns),
            *final(self) == (DNS { authority: final(self).authority, ..*old(self) }),
    {
        self.authority.extend(ns);
    }

    /// Appends one additional record.
    pub fn with_additional(&mut self, ar: RR)
        ensures
            final(self).additional.0@ == old(self).additional.0@.push(ar),
            *final(self) == (DNS { additional: final(self).additional, ..*old(self) }),
    {
        self.additional.extend(ar);
    }
}


/// The uncompressed wire bytes of the question section, in order.
pub open spec fn questions_wire(qs: Seq<Question>) -> Seq<u8>
    decreases qs.len(),
{
    if qs.len() == 0 {
        Seq::empty()
    } else {
        qs[0].spec_wire() + questions_wire(qs.drop_first())
    }
}

/// The compression index after the question section: every question name's
/// suffixes are offered at the offset the name was written to.
pub open spec fn questions_cl(qs: Seq<Question>, cl: Seq<(Seq<char>, int)>, base: int) -> Seq<
    (Seq<char>, int),
>
    decreases qs.len(),
{
    if qs.len() == 0 {
        cl
    } else {
        questions_cl(
            qs.drop_first(),
            push_spec(cl, dotted(qs[0].qname@), base),
            base + qs[0].spec_wire().len(),
        )
    }
}

/// Whether every question of a message has a well-formed name.
pub open spec fn questions_encodable(qs: Seq<Question>) -> bool {
    forall|i: int| 0 <= i < qs.len() ==> (#[trigger] qs[i]).qname.wf()
}

/// The header a message is emitted with: its counts recomputed from the
/// section lengths (truncated to 16 bits).
pub open spec fn counted_head(m: DNS) -> Header {
    Header {
        qdcount: m.ques@.len() as u16,
        ancount: m.answers.0@.len() as u16,
        nscount: m.authority.0@.len() as u16,
        arcount: m.additional.0@.len() as u16,
        ..m.head
    }
}

/// The bytes a message encodes to: the header with recomputed counts, the
/// questions uncompressed, then the three record sections, each through the
/// compression index that the parts before it built up.
pub open spec fn dns_wire(m: DNS, comp: bool) -> Seq<u8> {
    let qw = questions_wire(m.ques@);
    let cl1 = questions_cl(m.ques@, Seq::empty(), 12);
    let aw = rrs_wire(m.answers.0@, cl1, comp, 12 + qw.len() as int);
    let cl2 = rrs_cl_after(m.answers.0@, cl1, comp, 12 + qw.len() as int);
    let uw = rrs_wire(m.authority.0@, cl2, comp, 12 + qw.len() as int + aw.len() as int);
    let cl3 = rrs_cl_after(m.authority.0@, cl2, comp, 12 + qw.len() as int + aw.len() as int);
    let dw = rrs_wire(
        m.additional.0@,
        cl3,
        comp,
        12 + qw.len() as int + aw.len() as int + uw.len() as int,
    );
    counted_head(m).spec_bytes() + qw + aw + uw + dw
}

/// A message with no questions and no records encodes to exactly its twelve
/// header bytes, whatever the compression mode.
pub proof fn lemma_empty_message_wire(m: DNS, comp: bool)
    requires
        m.ques@.len() == 0,
        m.answers.0@.len() == 0,
        m.authority.0@.len() == 0,
        m.additional.0@.len() == 0,
    ensures
        dns_wire(m, comp) == counted_head(m).spec_bytes(),
        dns_wire(m, comp).len() == 12,
{
    assert(dns_wire(m, comp) =~= counted_head(m).spec_bytes());
}

impl DNS {
    /// Emits the message: the header with counts recomputed from the
    /// sections, the questions, and the three record sections, compressing
    /// names against earlier ones when `is_compressed` is set.
    ///
    /// Fails exactly when some question name is not well formed or some
    /// record cannot be encoded; the counts in `self.head` are updated in
    /// either case only after validation passes.
    pub fn encode(&mut self, is_compressed: bool) -> (r: Result<Vec<u8>, DnsError>)
        ensures
            match r {
                Ok(bytes) => {
                    &&& questions_encodable(old(self).ques@)
                    &&& rrs_encodable(old(self).answers.0@)
                    &&& rrs_encodable(old(self).authority.0@)
                    &&& rrs_encodable(old(self).additional.0@)
                    &&& bytes@ == dns_wire(*old(self), is_compressed)
                    &&& final(self).head == counted_head(*old(self))
                    &&& final(self).ques == old(self).ques
                    &&& final(self).raw == old(self).raw
                    &&& final(self).is_compressed == old(self).is_compressed
                    &&& final(self).parsed_len == old(self).parsed_len
                    &&& final(self).answers.0@.len() == old(self).answers.0@.len()
                    &&& final(self).authority.0@.len() == old(self).authority.0@.len()
                    &&& final(self).additional.0@.len() == old(self).additional.0@.len()
                },
                Err(_) => !(questions_encodable(old(self).ques@) && rrs_encodable(
                    old(self).answers.0@,
                ) && rrs_encodable(old(self).authority.0@) && rrs_encodable(
                    old(self).additional.0@,
                )),
            },
    {
        let mut k: usize = 0;
        while k < self.ques.len()
            invariant
                k <= self.ques@.len(),
                *self == *old(self),
                forall|j: int| 0 <= j < k ==> (#[trigger] self.ques@[j]).qname.wf(),
            decreases self.ques@.len() - k,
        {
            if !self.ques[k].qname.check_wf() {
                return Err(DnsError::Malformed);
            }
            k = k + 1;
        }
        self.head.with_qdcount(#[verifier::truncate] (self.ques.len() as u16));
        let an = self.answers.len();
        self.head.with_ancount(#[verifier::truncate] (an as u16));
        let ns = self.authority.len();
        self.head.with_nscount(#[verifier::truncate] (ns as u16));
        let ar = self.additional.len();
        self.head.with_arcount(#[verifier::truncate] (ar as u16));
        proof {
            assert(self.head == counted_head(*old(self)));
        }
        let mut out: Vec<u8> = Vec::new();
        let hb = self.head.get_0();
        let mut hi: usize = 0;
        while hi < 12
            invariant
                hi <= 12,
                hb@ == counted_head(*old(self)).spec_bytes(),
                out@ == hb@.take(hi as int),
            decreases 12 - hi,
        {
            out.push(hb[hi]);
            hi = hi + 1;
            proof {
                assert(out@ =~= hb@.take(hi as int));
            }
        }
        proof {
            assert(out@ =~= counted_head(*old(self)).spec_bytes());
        }
        let mut cl = CompressList::new();
        let ghost qs = old(self).ques@;
        let mut i: usize = 0;
        proof {
            assert(cl@ =~= Seq::<(Seq<char>, int)>::empty());
            assert(qs.skip(0) =~= qs);
            assert(questions_wire(qs).take(0) =~= Seq::<u8>::empty());
            assert(out@ + Seq::<u8>::empty() =~= out@);
        }
        let ghost head_bytes = counted_head(*old(self)).spec_bytes();
        loop
            invariant_except_break
                i <= self.ques@.len(),
                self.head == counted_head(*old(self)),
                *self == (DNS { head: self.head, ..*old(self) }),
                self.ques@ == qs,
                qs == old(self).ques@,
                questions_encodable(qs),
                out@.len() >= 12,
                head_bytes == counted_head(*old(self)).spec_bytes(),
                out@ == head_bytes + questions_wire(qs.take(i as int)),
                questions_wire(qs) == questions_wire(qs.take(i as int)) + questions_wire(
                    qs.skip(i as int),
                ),
                cl@ == questions_cl(qs.take(i as int), Seq::<(Seq<char>, int)>::empty(), 12),
                questions_cl(qs, Seq::<(Seq<char>, int)>::empty(), 12) == questions_cl(
                    qs.skip(i as int),
                    cl@,
                    out@.len() as int,
                ),
            ensures
                out@ == head_bytes + questions_wire(qs),
                cl@ == questions_cl(qs, Seq::<(Seq<char>, int)>::empty(), 12),
                self.ques@ == qs,
                self.head == counted_head(*old(self)),
                *self == (DNS { head: self.head, ..*old(self) }),
                qs == old(self).ques@,
                head_bytes == counted_head(*old(self)).spec_bytes(),
            decreases self.ques@.len() - i,
        {
            if i == self.ques.len() {
                proof {
                    assert(qs.take(qs.len() as int) =~= qs);
                    assert(questions_wire(qs.skip(i as int)) =~= Seq::<u8>::empty());
                }
                break ;
            }
            let qpos = out.len();
            let qb = self.ques[i].encode();
            let mut tmp = qb;
            let ghost pre_out = out@;
            let ghost pre_cl = cl@;
            out.append(&mut tmp);
            let nm = self.ques[i].qname.encode_to_str();
            proof {
                crate::name::lemma_dotted_ascii(self.ques@[i as int].qname@);
                assert(nm.is_ascii());
            }
            cl.push(nm.as_str(), qpos);
            proof {
                let rest = qs.skip(i as int);
                assert(rest[0] == qs[i as int]);
                assert(rest.drop_first() =~= qs.skip(i + 1));
                assert(qs.take(i + 1) =~= qs.take(i as int).push(qs[i as int]));
                lemma_questions_wire_snoc(qs.take(i as int), qs[i as int]);
                lemma_questions_cl_snoc(
                    qs.take(i as int),
                    qs[i as int],
                    Seq::<(Seq<char>, int)>::empty(),
                    12,
                );
                assert(out@ =~= head_bytes + questions_wire(qs.take(i + 1)));
                assert(questions_wire(qs.take(i + 1)) + questions_wire(qs.skip(i + 1))
                    =~= questions_wire(qs.take(i as int)) + questions_wire(rest));
            }
            i = i + 1;
        }
        match self.answers.encode(&mut out, &mut cl, is_compressed) {
            Ok(_) => {},
            Err(e) => {
                return Err(e);
            },
        }
        match self.authority.encode(&mut out, &mut cl, is_compressed) {
            Ok(_) => {},
            Err(e) => {
                return Err(e);
            },
        }
        match self.additional.encode(&mut out, &mut cl, is_compressed) {
            Ok(_) => {},
            Err(e) => {
                return Err(e);
            },
        }
        proof {
            assert(out@ =~= dns_wire(*old(self), is_compressed));
        }
        Ok(out)
    }
}

/// Taking one more question extends the section bytes by its wire form.
pub proof fn lemma_questions_wire_snoc(qs: Seq<Question>, q: Question)
    ensures
        questions_wire(qs.push(q)) == questions_wire(qs) + q.spec_wire(),
    decreases qs.len(),
{
    reveal_with_fuel(questions_wire, 3);
    if qs.len() == 0 {
        assert(qs.push(q).drop_first() =~= Seq::<Question>::empty());
        assert(questions_wire(qs.push(q)) =~= questions_wire(qs) + q.spec_wire());
    } else {
        assert(qs.push(q).drop_first() =~= qs.drop_first().push(q));
        lemma_questions_wire_snoc(qs.drop_first(), q);
        assert(questions_wire(qs.push(q)) =~= questions_wire(qs) + q.spec_wire());
    }
}

/// Taking one more question offers its name to the index at the position
/// after the section so far.
pub proof fn lemma_questions_cl_snoc(
    qs: Seq<Question>,
    q: Question,
    cl: Seq<(Seq<char>, int)>,
    base: int,
)
    ensures
        questions_cl(qs.push(q), cl, base) == push_spec(
            questions_cl(qs, cl, base),
            dotted(q.qname@),
            base + questions_wire(qs).len(),
        ),
    decreases qs.len(),
{
    reveal_with_fuel(questions_cl, 3);
    reveal_with_fuel(questions_wire, 3);
    if qs.len() == 0 {
        assert(qs.push(q).drop_first() =~= Seq::<Question>::empty());
        assert(questions_wire(qs).len() == 0);
    } else {
        assert(qs.push(q).drop_first() =~= qs.drop_first().push(q));
        lemma_questions_cl_snoc(
            qs.drop_first(),
            q,
            push_spec(cl, dotted(qs[0].qname@), base),
            base + qs[0].spec_wire().len(),
        );
    }
}


/// Encode-then-parse is the identity on a whole well-formed question
/// section: wherever a buffer holds its wire bytes, they read back as the
/// same questions, one after the other, consuming exactly those bytes.
pub proof fn lemma_questions_wire_at(qs: Seq<Question>, buf: Seq<u8>, pos: int)
    requires
        questions_encodable(qs),
        0 <= pos,
        pos + questions_wire(qs).len() <= buf.len(),
        buf.subrange(pos, pos + questions_wire(qs).len()) == questions_wire(qs),
    ensures
        questions_end(buf, pos, qs.len() as int) == Some(pos + questions_wire(qs).len()),
        forall|j: int|
            0 <= j < qs.len() ==> question_matches_at(
                #[trigger] qs[j],
                buf,
                questions_end(buf, pos, j)->Some_0,
            ),
    decreases qs.len(),
{
    if qs.len() == 0 {
        assert(questions_wire(qs).len() == 0);
    } else {
        let q = qs[0];
        let w = q.spec_wire();
        let rest = qs.drop_first();
        let rw = questions_wire(rest);
        assert(questions_wire(qs) == w + rw);
        assert(buf.subrange(pos, pos + w.len() as int) =~= w) by {
            assert forall|k: int| 0 <= k < w.len() implies buf.subrange(
                pos,
                pos + w.len() as int,
            )[k] == w[k] by {
                assert(buf[pos + k] == buf.subrange(
                    pos,
                    pos + questions_wire(qs).len() as int,
                )[k]);
                assert((w + rw)[k] == w[k]);
            }
        }
        crate::question::lemma_question_wire_at(q, buf, pos);
        let mid = pos + w.len() as int;
        assert(buf.subrange(mid, mid + rw.len() as int) =~= rw) by {
            assert forall|k: int| 0 <= k < rw.len() implies buf.subrange(
                mid,
                mid + rw.len() as int,
            )[k] == rw[k] by {
                assert(buf[mid + k] == buf.subrange(
                    pos,
                    pos + questions_wire(qs).len() as int,
                )[w.len() + k]);
                assert((w + rw)[w.len() + k] == rw[k]);
            }
        }
        assert(questions_encodable(rest)) by {
            assert(forall|j: int| 0 <= j < rest.len() ==> rest[j] == qs[j + 1]);
        }
        lemma_questions_wire_at(rest, buf, mid);
        assert(question_end_at(buf, pos) == mid);
        assert(questions_end(buf, pos, qs.len() as int) == questions_end(
            buf,
            mid,
            qs.len() as int - 1,
        ));
        assert forall|j: int| 0 <= j < qs.len() implies question_matches_at(
            #[trigger] qs[j],
            buf,
            questions_end(buf, pos, j)->Some_0,
        ) by {
            if j == 0 {
                assert(questions_end(buf, pos, 0) == Some(pos));
            } else {
                assert(rest[j - 1] == qs[j]);
                assert(questions_end(buf, pos, j) == questions_end(buf, mid, j - 1)) by {
                    reveal_with_fuel(questions_end, 2);
                }
                assert(question_matches_at(
                    rest[j - 1],
                    buf,
                    questions_end(buf, mid, j - 1)->Some_0,
                ));
            }
        }
    }
}

/// Encode-then-parse is the identity on any message built by hand from
/// well-formed questions and no records: the wire bytes are accepted whole,
/// the header reads back with its counts, and every question reads back
/// unchanged at its position.
pub proof fn lemma_question_message_roundtrip(m: DNS, comp: bool)
    requires
        m.head.wf(),
        questions_encodable(m.ques@),
        m.ques@.len() <= 0xFFFF,
        m.answers.0@.len() == 0,
        m.authority.0@.len() == 0,
        m.additional.0@.len() == 0,
    ensures
        message_ok(dns_wire(m, comp)),
        Header::spec_from(dns_wire(m, comp)) == counted_head(m),
        message_end(dns_wire(m, comp)) == dns_wire(m, comp).len(),
        forall|j: int|
            0 <= j < m.ques@.len() ==> question_matches_at(
                #[trigger] m.ques@[j],
                dns_wire(m, comp),
                questions_end(dns_wire(m, comp), 12, j)->Some_0,
            ),
{
    let h = counted_head(m);
    let buf = dns_wire(m, comp);
    let hb = h.spec_bytes();
    let qw = questions_wire(m.ques@);
    assert(buf =~= hb + qw) by {
        assert(rrs_wire(
            m.answers.0@,
            questions_cl(m.ques@, Seq::empty(), 12),
            comp,
            12 + qw.len() as int,
        ) =~= Seq::<u8>::empty());
    }
    crate::header::lemma_header_bytes_roundtrip(h);
    assert(Header::spec_from(buf) == h) by {
        assert(buf[0] == hb[0]);
        assert(buf[1] == hb[1]);
        assert(buf[2] == hb[2]);
        assert(buf[3] == hb[3]);
        assert(buf[4] == hb[4]);
        assert(buf[5] == hb[5]);
        assert(buf[6] == hb[6]);
        assert(buf[7] == hb[7]);
        assert(buf[8] == hb[8]);
        assert(buf[9] == hb[9]);
        assert(buf[10] == hb[10]);
        assert(buf[11] == hb[11]);
    }
    assert(h.qdcount == m.ques@.len());
    assert(buf.subrange(12, 12 + qw.len() as int) =~= qw);
    lemma_questions_wire_at(m.ques@, buf, 12);
    let qe = 12 + qw.len() as int;
    assert(rrs_end(buf, qe, 0) == Some(qe));
    assert(message_ok(buf));
    assert(message_end(buf) == qe);
}

} // verus!
