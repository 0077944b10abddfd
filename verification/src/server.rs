//! The authoritative server's decision logic: from a parsed query and the
//! zone store to the response message.  Sockets and scheduling live outside
//! the library; this is the pure computation between them.

use vstd::prelude::*;
use crate::message::DNS;
use crate::name::Labels;
use crate::question::Question;
use crate::rr::RR;
use crate::zone::{zones_answers, Zones};

verus! {

/// Whether a query carries an OPT pseudo-record in its answer section; an
/// OPT may stand only in the additional section, so such a query is not
/// implemented.
pub open spec fn opt_in_answers(q: DNS) -> bool {
    exists|i: int| 0 <= i < q.answers.0@.len() && (#[trigger] q.answers.0@[i]).typ
        == crate::TYPE_OPT
}

/// A value-preserving copy of a name.
fn copy_labels(l: &Labels) -> (r: Labels)
    ensures
        r@ == l@,
{
    let mut v: Vec<String> = Vec::new();
    let mut i: usize = 0;
    while i < l.0.len()
        invariant
            i <= l.0@.len(),
            v@.len() == i,
            forall|j: int| 0 <= j < i ==> (#[trigger] v@[j])@ == l.0@[j]@,
        decreases l.0@.len() - i,
    {
        v.push(l.0[i].as_str().to_owned());
        i = i + 1;
    }
    let r = Labels(v);
    proof {
        assert(r@ =~~= l@);
    }
    r
}

/// The authoritative name server's state: the zones it answers for.
pub struct NameServer {
    pub zones: Zones,
}

impl NameServer {
    /// A server over the given zone store.
    pub fn new(zones: Zones) -> (r: Self)
        ensures
            r.zones == zones,
    {
        NameServer { zones }
    }

    /// Every record the zones hold for the given questions; exactly
    /// [`Zones::get_rr`]'s answer list.
    pub fn find(&self, ques: &Vec<Question>) -> (r: Vec<RR>)
        ensures
            r.deep_view() == zones_answers(self.zones.domains@, ques@),
    {
        self.zones.get_rr(ques)
    }

    /// Whether a response should be handed to the forwarder: the zones had
    /// no answer (NoError with an empty answer section, or NXDomain).
    pub fn should_forward(resp: &DNS) -> (r: bool)
        ensures
            r == (resp.answers.0@.len() == 0 && (resp.head.rcode == 0 || resp.head.rcode == 3)),
    {
        resp.answers.0.len() == 0 && (resp.head.rcode() == 0 || resp.head.rcode() == 3)
    }

    /// Builds the response to a parsed query: the query's id and RD bit are
    /// echoed, QR is set, the questions are copied back, and the zones'
    /// answers fill the answer section.  A query that carries an OPT
    /// pseudo-record in its answer section is answered NotImp with no
    /// answers, as the OPT may stand only in the additional section.  When
    /// zones are loaded but none has an answer, the response is NXDomain;
    /// otherwise the code is NoError, an empty answer section included.
    pub fn query(&self, dns_packet: &DNS) -> (r: DNS)
        ensures
            r.head.id == dns_packet.head.id,
            r.head.qr,
            r.head.rd == dns_packet.head.rd,
            r.head.wf(),
            opt_in_answers(*dns_packet) ==> r.head.rcode == 4 && r.answers.0@.len() == 0,
            !opt_in_answers(*dns_packet) ==> r.answers.0.deep_view() == zones_answers(
                self.zones.domains@,
                dns_packet.ques@,
            ) && r.head.rcode == (if self.zones.domains@.len() > 0 && zones_answers(
                self.zones.domains@,
                dns_packet.ques@,
            ).len() == 0 {
                3u8
            } else {
                0u8
            }),
            r.ques@.len() == dns_packet.ques@.len(),
            forall|i: int|
                0 <= i < r.ques@.len() ==> (#[trigger] r.ques@[i]).qname@
                    == dns_packet.ques@[i].qname@ && r.ques@[i].qtype == dns_packet.ques@[i].qtype
                    && r.ques@[i].qclass == dns_packet.ques@[i].qclass,
    {
        let mut resp = DNS::new();
        resp.head.with_id(dns_packet.head.id());
        resp.head.with_qr(true);
        resp.head.with_rd(dns_packet.head.rd());
        let mut i: usize = 0;
        while i < dns_packet.ques.len()
            invariant
                i <= dns_packet.ques@.len(),
                resp.ques@.len() == i,
                resp.head.id == dns_packet.head.id,
                resp.head.qr,
                resp.head.rd == dns_packet.head.rd,
                resp.head.wf(),
                resp.head.rcode == 0,
                resp.answers.0@.len() == 0,
                forall|j: int|
                    0 <= j < i ==> (#[trigger] resp.ques@[j]).qname@
                        == dns_packet.ques@[j].qname@ && resp.ques@[j].qtype
                        == dns_packet.ques@[j].qtype && resp.ques@[j].qclass
                        == dns_packet.ques@[j].qclass,
            decreases dns_packet.ques@.len() - i,
        {
            let src = &dns_packet.ques[i];
            let q = Question { qname: copy_labels(&src.qname), qtype: src.qtype, qclass: src.qclass };
            resp.ques.push(q);
            i = i + 1;
        }
        let mut k: usize = 0;
        let mut opt_seen = false;
        while k < dns_packet.answers.0.len()
            invariant
                k <= dns_packet.answers.0@.len(),
                opt_seen == exists|j: int|
                    0 <= j < k && (#[trigger] dns_packet.answers.0@[j]).typ == crate::TYPE_OPT,
            decreases dns_packet.answers.0@.len() - k,
        {
            if dns_packet.answers.0[k].typ == crate::TYPE_OPT {
                opt_seen = true;
                proof {
                    assert(dns_packet.answers.0@[k as int].typ == crate::TYPE_OPT);
                }
            }
            k = k + 1;
        }
        if opt_seen {
            resp.head.with_rcode(4);
            return resp;
        }
        let found = self.zones.get_rr(&dns_packet.ques);
        let ghost target = zones_answers(self.zones.domains@, dns_packet.ques@);
        let mut hits = found;
        proof {
            assert(resp.answers.0.deep_view() + hits.deep_view() =~= target);
        }
        while hits.len() > 0
            invariant
                resp.head.id == dns_packet.head.id,
                resp.head.qr,
                resp.head.rd == dns_packet.head.rd,
                resp.head.wf(),
                resp.head.rcode == 0,
                resp.ques@.len() == dns_packet.ques@.len(),
                target == zones_answers(self.zones.domains@, dns_packet.ques@),
                resp.answers.0.deep_view() + hits.deep_view() == target,
                forall|j: int|
                    0 <= j < resp.ques@.len() ==> (#[trigger] resp.ques@[j]).qname@
                        == dns_packet.ques@[j].qname@ && resp.ques@[j].qtype
                        == dns_packet.ques@[j].qtype && resp.ques@[j].qclass
                        == dns_packet.ques@[j].qclass,
            decreases hits@.len(),
        {
            let ghost pre_resp = resp.answers.0.deep_view();
            let ghost pre_hits = hits.deep_view();
            let rr = hits.remove(0);
            resp.with_answer(rr);
            proof {
                assert(hits.deep_view() =~= pre_hits.drop_first());
                assert(resp.answers.0.deep_view() =~= pre_resp.push(pre_hits[0]));
                assert(pre_resp.push(pre_hits[0]) + pre_hits.drop_first() =~= pre_resp
                    + pre_hits);
            }
        }
        proof {
            assert(hits.deep_view().len() == 0);
            assert(resp.answers.0.deep_view() + hits.deep_view() =~= resp.answers.0.deep_view());
        }
        if self.zones.domains.len() > 0 && resp.answers.0.len() == 0 {
            resp.head.with_rcode(3);
        }
        resp
    }
}

} // verus!
