//! The question section entry: QNAME, QTYPE, QCLASS.

use vstd::prelude::*;
use crate::errors::DnsError;
use crate::name::{label_to_bytes, name_to_bytes, parse_name_full, wire_of_name, Labels};
use crate::util::{be16, be16_bytes, push_u16, read_u16_at};

verus! {

/// Whether one question can be read at `pos`: its name is accepted with the
/// usual ASCII and length bounds, and four bytes follow it.
pub open spec fn question_ok_at(buf: Seq<u8>, pos: int) -> bool {
    let p = parse_name_full(buf, pos);
    p.ok && crate::name::name_wire_len(p.labels) <= 255 && crate::name::ascii_byte_name(p.labels)
        && p.end + 4 <= buf.len()
}

/// What a decoded question read at `pos` holds: the exact image of
/// [`Question::from`].
pub open spec fn question_matches_at(q: Question, buf: Seq<u8>, pos: int) -> bool {
    let p = parse_name_full(buf, pos);
    &&& name_to_bytes(q.qname@) == p.labels
    &&& q.qname.wf()
    &&& q.qtype == be16(buf, p.end)
    &&& q.qclass == be16(buf, p.end + 2)
}

/// The position just past the question at `pos`.
pub open spec fn question_end_at(buf: Seq<u8>, pos: int) -> int {
    parse_name_full(buf, pos).end + 4
}

/// One entry of the question section: the name asked about, the record type
/// wanted, and the class.
#[derive(Debug)]
pub struct Question {
    pub qname: Labels,
    pub qtype: u16,
    pub qclass: u16,
}

impl Question {
    /// The uncompressed wire form of the question: the name as labels with a
    /// zero terminator, then QTYPE and QCLASS big-endian.
    pub open spec fn spec_wire(self) -> Seq<u8> {
        wire_of_name(name_to_bytes(self.qname@)) + be16_bytes(self.qtype) + be16_bytes(self.qclass)
    }

    /// An empty question: the root name, QTYPE and QCLASS zero.
    pub fn new() -> (r: Self)
        ensures
            r.qname@ == Seq::<Seq<char>>::empty(),
            r.qname.wf(),
            r.qtype == 0,
            r.qclass == 0,
    {
        Question { qname: Labels::new(), qtype: 0, qclass: 0 }
    }

    /// Reads a question from `raw` at `*offset`: the name, then two 16-bit
    /// integers.
    ///
    /// The read fails, leaving `*offset` alone, exactly when the name is
    /// rejected (see [`Labels::parse`]) or fewer than four bytes follow it.
    pub fn from(raw: &[u8], offset: &mut usize) -> (r: Result<Self, DnsError>)
        ensures
            match r {
                Ok(q) => question_ok_at(raw@, *old(offset) as int) && question_matches_at(
                    q,
                    raw@,
                    *old(offset) as int,
                ) && *final(offset) == question_end_at(raw@, *old(offset) as int) && *old(offset)
                    < *final(offset) <= raw@.len(),
                Err(e) => !question_ok_at(raw@, *old(offset) as int) && *final(offset) == *old(
                    offset,
                ),
            },
    {
        let mut pos: usize = *offset;
        let qname = match Labels::parse(raw, &mut pos) {
            Ok(l) => l,
            Err(e) => {
                return Err(e);
            },
        };
        if raw.len() - pos < 4 {
            return Err(DnsError::Truncated);
        }
        let qtype = read_u16_at(raw, pos);
        let qclass = read_u16_at(raw, pos + 2);
        *offset = pos + 4;
        Ok(Question { qname, qtype, qclass })
    }

    /// The name asked about.
    pub fn qname(&self) -> (r: &Labels)
        ensures
            r == &self.qname,
    {
        &self.qname
    }

    /// Appends one label to the name.
    pub fn with_name(&mut self, name: &str)
        ensures
            final(self).qname@ == old(self).qname@.push(name@),
            final(self).qtype == old(self).qtype,
            final(self).qclass == old(self).qclass,
    {
        self.qname.0.push(name.to_owned());
        proof {
            assert(self.qname@ =~= old(self).qname@.push(name@));
        }
    }

    /// The record type asked for.
    pub fn qtype(&self) -> (r: u16)
        ensures
            r == self.qtype,
    {
        self.qtype
    }

    /// Sets the record type.
    pub fn with_qtype(&mut self, qtype: u16)
        ensures
            *final(self) == (Question { qtype, ..*old(self) }),
    {
        self.qtype = qtype;
    }

    /// The class asked for.
    pub fn qclass(&self) -> (r: u16)
        ensures
            r == self.qclass,
    {
        self.qclass
    }

    /// Sets the class.
    pub fn with_qclass(&mut self, qclass: u16)
        ensures
            *final(self) == (Question { qclass, ..*old(self) }),
    {
        self.qclass = qclass;
    }

    /// Emits the question in uncompressed wire form.
    ///
    /// Exact for well-formed names; a caller who built a name with labels
    /// outside the ASCII 1-to-63-byte bounds gets bytes whose length octets
    /// are truncated label lengths, as [`wire_of_name`] describes.
    pub fn encode(&self) -> (r: Vec<u8>)
        requires
            self.qname.wf(),
        ensures
            r@ == self.spec_wire(),
    {
        let mut out: Vec<u8> = Vec::new();
        let ghost names = name_to_bytes(self.qname@);
        let mut i: usize = 0;
        proof {
            assert(out@ =~= crate::name::wire_of_labels_pre(names, 0));
        }
        while i < self.qname.0.len()
            invariant
                i <= self.qname@.len(),
                self.qname.wf(),
                names == name_to_bytes(self.qname@),
                out@ == crate::name::wire_of_labels_pre(names, i as int),
            decreases self.qname@.len() - i,
        {
            let lab: &String = &self.qname.0[i];
            let labs: &str = lab.as_str();
            proof {
                broadcast use vstd::string::is_ascii_spec_bytes;

                assert(vstd::utf8::is_ascii_chars(self.qname@[i as int]));
                assert(labs@ == self.qname@[i as int]);
                assert(labs.is_ascii());
            }
            let lb = labs.as_bytes_vec();
            proof {
                broadcast use vstd::string::is_ascii_spec_bytes;

                assert(lb@ =~= label_to_bytes(labs@));
            }
            out.push(lb.len() as u8);
            let mut j: usize = 0;
            let ghost out0 = out@;
            proof {
                assert(out@ =~= out0 + lb@.take(0));
            }
            while j < lb.len()
                invariant
                    j <= lb@.len(),
                    out@ == out0 + lb@.take(j as int),
                decreases lb@.len() - j,
            {
                out.push(lb[j]);
                j = j + 1;
                proof {
                    assert(out@ =~= out0 + lb@.take(j as int));
                }
            }
            proof {
                assert(lb@.take(lb@.len() as int) =~= lb@);
                assert(lb@ == label_to_bytes(self.qname@[i as int]));
                assert(names[i as int] == label_to_bytes(self.qname@[i as int]));
                assert(names[i as int].len() == labs@.len());
                crate::name::lemma_wire_of_labels_pre_step(names, i as int);
                assert(out@ =~= crate::name::wire_of_labels_pre(names, i + 1));
            }
            i = i + 1;
        }
        out.push(0);
        proof {
            crate::name::lemma_wire_of_labels_pre_all(names);
            assert(out@ =~= wire_of_name(names));
        }
        push_u16(&mut out, self.qtype);
        push_u16(&mut out, self.qclass);
        proof {
            assert(out@ =~= self.spec_wire());
        }
        out
    }
}


/// Encode-then-parse is the identity on a well-formed question: wherever a
/// buffer holds its wire bytes, they read back as exactly the same name,
/// type and class, consuming exactly those bytes and following no pointer.
pub proof fn lemma_question_wire_at(q: Question, buf: Seq<u8>, pos: int)
    requires
        q.qname.wf(),
        0 <= pos,
        pos + q.spec_wire().len() <= buf.len(),
        buf.subrange(pos, pos + q.spec_wire().len()) == q.spec_wire(),
    ensures
        question_ok_at(buf, pos),
        question_matches_at(q, buf, pos),
        question_end_at(buf, pos) == pos + q.spec_wire().len(),
{
    let w = q.spec_wire();
    let nb = name_to_bytes(q.qname@);
    let nl = crate::name::name_wire_len(nb);
    crate::name::lemma_wire_of_name_len(nb);
    assert(w.len() == nl + 4);
    assert(buf.subrange(pos, pos + nl) =~= wire_of_name(nb)) by {
        assert forall|k: int| 0 <= k < nl implies buf.subrange(pos, pos + nl)[k] == wire_of_name(
            nb,
        )[k] by {
            assert(buf[pos + k] == buf.subrange(pos, pos + w.len() as int)[k]);
            assert(w[k] == wire_of_name(nb)[k]);
        }
    }
    crate::name::lemma_parse_of_wire(buf, pos, nb, buf.len() as nat);
    let p = parse_name_full(buf, pos);
    assert(p.end == pos + nl);
    assert(buf[pos + nl] == w[nl]) by {
        assert(buf.subrange(pos, pos + w.len() as int)[nl] == buf[pos + nl]);
    }
    assert(buf[pos + nl + 1] == w[nl + 1]) by {
        assert(buf.subrange(pos, pos + w.len() as int)[nl + 1] == buf[pos + nl + 1]);
    }
    assert(buf[pos + nl + 2] == w[nl + 2]) by {
        assert(buf.subrange(pos, pos + w.len() as int)[nl + 2] == buf[pos + nl + 2]);
    }
    assert(buf[pos + nl + 3] == w[nl + 3]) by {
        assert(buf.subrange(pos, pos + w.len() as int)[nl + 3] == buf[pos + nl + 3]);
    }
    assert(be16(buf, pos + nl) == q.qtype) by {
        let x = q.qtype;
        assert(buf[pos + nl] == (x >> 8) as u8);
        assert(buf[pos + nl + 1] == (x & 0xFF) as u8);
        assert(((x >> 8) as u8 as u16 * 256 + (x & 0xFF) as u8 as u16) as u16 == x)
            by (bit_vector);
    }
    assert(be16(buf, pos + nl + 2) == q.qclass) by {
        let x = q.qclass;
        assert(buf[pos + nl + 2] == (x >> 8) as u8);
        assert(buf[pos + nl + 3] == (x & 0xFF) as u8);
        assert(((x >> 8) as u8 as u16 * 256 + (x & 0xFF) as u8 as u16) as u16 == x)
            by (bit_vector);
    }
    assert(crate::name::ascii_byte_name(nb)) by {
        assert forall|i: int, j: int|
            0 <= i < nb.len() && 0 <= j < nb[i].len() implies #[trigger] nb[i][j] < 128 by {
            assert(vstd::utf8::is_ascii_chars(q.qname@[i]));
            assert(q.qname@[i][j] <= '\u{7f}');
            assert(nb[i][j] == q.qname@[i][j] as u8);
        }
    }
}

} // verus!
