//! The zone store and the master-file text codec.
//!
//! A master file holds one record per line: `<name> <type> <class> <ttl>
//! <rdata…>`, all numeric fields decimal, an A record's address in dotted
//! decimal, and an empty owner name written as the literal `NONE`.

use vstd::prelude::*;
use crate::errors::DnsError;

use crate::question::Question;
use crate::rdata::{RDataType, A, CName, MB, MD, MF, MG, MR, MX, NS, PTR};
use crate::rr::RR;
use crate::name::{split_on, split_on_exec};
use crate::trie::{name_path, tree_lookup, DomainTree};
use crate::util::decode_name;
use vstd::string::StrSliceExecFns;

verus! {

/// Whether a character is a decimal digit.
pub open spec fn is_digit(c: char) -> bool {
    '0' <= c <= '9'
}

/// Every character of the text is a decimal digit.
pub open spec fn all_digits(s: Seq<char>) -> bool {
    forall|i: int| 0 <= i < s.len() ==> is_digit(#[trigger] s[i])
}

/// The decimal value of a digit string.
pub open spec fn dec_val(s: Seq<char>) -> int
    decreases s.len(),
{
    if s.len() == 0 {
        0
    } else {
        dec_val(s.take(s.len() - 1)) * 10 + (s[s.len() - 1] as int - '0' as int)
    }
}

/// A digit string's value is never negative.
pub proof fn lemma_dec_val_nonneg(s: Seq<char>)
    requires
        all_digits(s),
    ensures
        dec_val(s) >= 0,
    decreases s.len(),
{
    if s.len() > 0 {
        assert(all_digits(s.take(s.len() - 1)));
        lemma_dec_val_nonneg(s.take(s.len() - 1));
    }
}

/// Longer digit prefixes have values at least as large.
pub proof fn lemma_dec_val_mono(s: Seq<char>, i: int, j: int)
    requires
        all_digits(s),
        0 <= i <= j <= s.len(),
    ensures
        dec_val(s.take(i)) <= dec_val(s.take(j)),
    decreases j - i,
{
    if i < j {
        lemma_dec_val_mono(s, i, j - 1);
        let t = s.take(j);
        assert(t.take(j - 1) =~= s.take(j - 1));
        assert(all_digits(s.take(j - 1)));
        lemma_dec_val_nonneg(s.take(j - 1));
        assert(dec_val(s.take(j)) == dec_val(s.take(j - 1)) * 10 + (s[j - 1] as int - '0' as int));
    }
}

/// A decimal number the parser accepts: nonempty, digits only, and in
/// 32-bit range.
pub open spec fn dec_ok(s: Seq<char>, max: int) -> bool {
    s.len() > 0 && all_digits(s) && dec_val(s) <= max
}

/// Parses a decimal number of at most `max`; accepted exactly when the text
/// is nonempty, all digits, and in range, and then worth its decimal value.
pub fn parse_decimal(s: &str, max: u32) -> (r: Result<u32, DnsError>)
    requires
        max >= 9,
    ensures
        match r {
            Ok(v) => dec_ok(s@, max as int) && v == dec_val(s@),
            Err(_) => !dec_ok(s@, max as int),
        },
{
    let n = s.unicode_len();
    if n == 0 {
        return Err(DnsError::ZoneError);
    }
    let mut acc: u32 = 0;
    let mut i: usize = 0;
    proof {
        assert(s@.take(0) =~= Seq::<char>::empty());
    }
    while i < n
        invariant
            max >= 9,
            i <= n,
            n == s@.len(),
            acc == dec_val(s@.take(i as int)),
            acc <= max,
            forall|j: int| 0 <= j < i ==> is_digit(#[trigger] s@[j]),
        decreases n - i,
    {
        let c = s.get_char(i);
        if c < '0' || c > '9' {
            return Err(DnsError::ZoneError);
        }
        let d: u32 = (c as u32) - 48;
        proof {
            assert(c as u32 <= 57);
            assert(d <= 9);
            assert(s@.take(i + 1).take(i as int) =~= s@.take(i as int));
            assert(s@.take(i + 1)[i as int] == s@[i as int]);
        }
        if acc > (max - d) / 10 {
            proof {
                assert(all_digits(s@.take(i + 1))) by {
                    assert(forall|j: int|
                        0 <= j < i + 1 ==> is_digit(#[trigger] s@.take(i + 1)[j]));
                }
                assert(dec_val(s@.take(i + 1)) == acc * 10 + d);
                if all_digits(s@) {
                    lemma_dec_val_mono(s@, i + 1, n as int);
                    assert(s@.take(n as int) =~= s@);
                    assert(dec_val(s@) > max);
                }
            }
            return Err(DnsError::ZoneError);
        }
        acc = acc * 10 + d;
        i = i + 1;
    }
    proof {
        assert(s@.take(n as int) =~= s@);
    }
    Ok(acc)
}

/// A dotted-decimal IPv4 text: exactly four dot-separated decimals, each
/// at most 255.
pub open spec fn ipv4_ok(s: Seq<char>) -> bool {
    let ps = split_on(s, '.');
    ps.len() == 4 && dec_ok(ps[0], 255) && dec_ok(ps[1], 255) && dec_ok(ps[2], 255) && dec_ok(
        ps[3],
        255,
    )
}

/// The four octets a dotted-decimal IPv4 text stands for.
pub open spec fn ipv4_val(s: Seq<char>) -> Seq<u8> {
    let ps = split_on(s, '.');
    seq![
        dec_val(ps[0]) as u8,
        dec_val(ps[1]) as u8,
        dec_val(ps[2]) as u8,
        dec_val(ps[3]) as u8,
    ]
}

/// Parses the dotted-decimal text of an IPv4 address into its four octets;
/// accepted exactly when the text is four dot-separated decimals, each at
/// most 255, and then worth those octets.
pub fn parse_ipv4(s: &str) -> (r: Result<[u8; 4], DnsError>)
    requires
        s.is_ascii(),
    ensures
        match r {
            Ok(v) => ipv4_ok(s@) && v@ == ipv4_val(s@),
            Err(_) => !ipv4_ok(s@),
        },
{
    let parts = split_on_exec(s, '.');
    proof {
        assert(parts.deep_view() == split_on(s@, '.'));
    }
    if parts.len() != 4 {
        return Err(DnsError::ZoneError);
    }
    let a = match parse_decimal(parts[0].as_str(), 255) {
        Ok(v) => v,
        Err(e) => {
            return Err(e);
        },
    };
    let b = match parse_decimal(parts[1].as_str(), 255) {
        Ok(v) => v,
        Err(e) => {
            return Err(e);
        },
    };
    let c = match parse_decimal(parts[2].as_str(), 255) {
        Ok(v) => v,
        Err(e) => {
            return Err(e);
        },
    };
    let d = match parse_decimal(parts[3].as_str(), 255) {
        Ok(v) => v,
        Err(e) => {
            return Err(e);
        },
    };
    let out = [a as u8, b as u8, c as u8, d as u8];
    proof {
        assert(parts@[0]@ == split_on(s@, '.')[0]);
        assert(parts@[1]@ == split_on(s@, '.')[1]);
        assert(parts@[2]@ == split_on(s@, '.')[2]);
        assert(parts@[3]@ == split_on(s@, '.')[3]);
        assert(out@ =~= ipv4_val(s@));
    }
    Ok(out)
}

/// A master-file line the loader accepts: at least five space-separated
/// columns; the TYPE column selects the RDATA format — an A line carries a
/// dotted-decimal address, a domain-name line (NS, CNAME, PTR, MB, MD, MF,
/// MG, MR) carries the name in dotted form, and an MX line carries a
/// preference column and then the exchange name.
pub open spec fn line_ok(s: Seq<char>) -> bool {
    let cols = split_on(s, ' ');
    &&& cols.len() >= 5
    &&& dec_ok(cols[1], 65535)
    &&& dec_ok(cols[2], 65535)
    &&& dec_ok(cols[3], 0xFFFFFFFF)
    &&& {
        let t = dec_val(cols[1]);
        ||| (t == crate::TYPE_A && ipv4_ok(cols[4]))
        ||| t == crate::TYPE_NS
        ||| t == crate::TYPE_CNAME
        ||| t == crate::TYPE_PTR
        ||| t == crate::TYPE_MB
        ||| t == crate::TYPE_MD
        ||| t == crate::TYPE_MF
        ||| t == crate::TYPE_MG
        ||| t == crate::TYPE_MR
        ||| (t == crate::TYPE_MX && cols.len() >= 6 && dec_ok(cols[4], 65535))
    }
}

/// The owner name a line files its record under: its first column, with
/// the literal `NONE` standing for the empty name.
pub open spec fn line_name(s: Seq<char>) -> Seq<char> {
    let c0 = split_on(s, ' ')[0];
    if c0 == "NONE"@ {
        Seq::empty()
    } else {
        c0
    }
}

/// The record a line stands for, field by field.
pub open spec fn line_rr_matches(rr: RR, s: Seq<char>) -> bool {
    let cols = split_on(s, ' ');
    let t = dec_val(cols[1]);
    &&& rr.name@ == line_name(s)
    &&& rr.typ == t
    &&& rr.class == dec_val(cols[2])
    &&& rr.ttl == dec_val(cols[3])
    &&& (t == crate::TYPE_A ==> (rr.rdata matches RDataType::A(a) && a.0@ == ipv4_val(cols[4])))
    &&& (t == crate::TYPE_NS ==> (rr.rdata matches RDataType::NS(v) && v.0@ == cols[4]))
    &&& (t == crate::TYPE_CNAME ==> (rr.rdata matches RDataType::CName(v) && v.0@ == cols[4]))
    &&& (t == crate::TYPE_PTR ==> (rr.rdata matches RDataType::PTR(v) && v.0@ == cols[4]))
    &&& (t == crate::TYPE_MB ==> (rr.rdata matches RDataType::MB(v) && v.0@ == cols[4]))
    &&& (t == crate::TYPE_MD ==> (rr.rdata matches RDataType::MD(v) && v.0@ == cols[4]))
    &&& (t == crate::TYPE_MF ==> (rr.rdata matches RDataType::MF(v) && v.0@ == cols[4]))
    &&& (t == crate::TYPE_MG ==> (rr.rdata matches RDataType::MG(v) && v.0@ == cols[4]))
    &&& (t == crate::TYPE_MR ==> (rr.rdata matches RDataType::MR(v) && v.0@ == cols[4]))
    &&& (t == crate::TYPE_MX ==> (rr.rdata matches RDataType::MX(v) && v.preference == dec_val(
        cols[4],
    ) && v.exchange@ == cols[5]))
}

/// The tree answers for the line's owner name with exactly the line's
/// record.
pub open spec fn line_record_at(t: DomainTree, s: Seq<char>) -> bool {
    tree_lookup(t, name_path(line_name(s))) matches Some(rr) && line_rr_matches(rr, s)
}

/// One zone loaded from one master file: the file's name and the records in
/// a domain trie.
pub struct DefaultMasterFiles {
    pub mf: String,
    pub tree: DomainTree,
}

impl DefaultMasterFiles {
    /// An empty zone for the master file `mf`.
    pub fn new(mf: &str) -> (r: Self)
        ensures
            r.mf@ == mf@,
    {
        DefaultMasterFiles { mf: mf.to_owned(), tree: DomainTree::new() }
    }

    /// The master files this zone draws on: just its own.
    pub fn calalog(&self) -> (r: Vec<String>)
        ensures
            r@.len() == 1,
            r@[0]@ == self.mf@,
    {
        let mut v: Vec<String> = Vec::new();
        v.push(self.mf.clone());
        v
    }

    /// Parses one master-file line into a record: the owner name (`NONE`
    /// for the empty name), numeric TYPE, CLASS and TTL columns, and the
    /// RDATA columns of the TYPE.  Accepted exactly when [`line_ok`] holds
    /// of the text, and then every field of the record equals its parsed
    /// column.
    pub fn parse_line(line: &str) -> (r: Result<RR, DnsError>)
        requires
            line.is_ascii(),
        ensures
            match r {
                Ok(rr) => line_ok(line@) && line_rr_matches(rr, line@),
                Err(e) => !line_ok(line@) && e == DnsError::ZoneError,
            },
    {
        let cols = split_on_exec(line, ' ');
        proof {
            assert(cols.deep_view() == split_on(line@, ' '));
        }
        if cols.len() < 5 {
            return Err(DnsError::ZoneError);
        }
        proof {
            assert(cols@[0]@ == split_on(line@, ' ')[0]);
            assert(cols@[1]@ == split_on(line@, ' ')[1]);
            assert(cols@[2]@ == split_on(line@, ' ')[2]);
            assert(cols@[3]@ == split_on(line@, ' ')[3]);
            assert(cols@[4]@ == split_on(line@, ' ')[4]);
        }
        let typ = match parse_decimal(cols[1].as_str(), 65535) {
            Ok(v) => v as u16,
            Err(_) => {
                return Err(DnsError::ZoneError);
            },
        };
        let class = match parse_decimal(cols[2].as_str(), 65535) {
            Ok(v) => v as u16,
            Err(_) => {
                return Err(DnsError::ZoneError);
            },
        };
        let ttl = match parse_decimal(cols[3].as_str(), 0xFFFFFFFF) {
            Ok(v) => v,
            Err(_) => {
                return Err(DnsError::ZoneError);
            },
        };
        let rdata: RDataType = if typ == crate::TYPE_A {
            let addr = match parse_ipv4(cols[4].as_str()) {
                Ok(v) => v,
                Err(_) => {
                    return Err(DnsError::ZoneError);
                },
            };
            RDataType::A(A(addr))
        } else if typ == crate::TYPE_NS {
            RDataType::NS(NS(cols[4].as_str().to_owned()))
        } else if typ == crate::TYPE_CNAME {
            RDataType::CName(CName(cols[4].as_str().to_owned()))
        } else if typ == crate::TYPE_PTR {
            RDataType::PTR(PTR(cols[4].as_str().to_owned()))
        } else if typ == crate::TYPE_MB {
            RDataType::MB(MB(cols[4].as_str().to_owned()))
        } else if typ == crate::TYPE_MD {
            RDataType::MD(MD(cols[4].as_str().to_owned()))
        } else if typ == crate::TYPE_MF {
            RDataType::MF(MF(cols[4].as_str().to_owned()))
        } else if typ == crate::TYPE_MG {
            RDataType::MG(MG(cols[4].as_str().to_owned()))
        } else if typ == crate::TYPE_MR {
            RDataType::MR(MR(cols[4].as_str().to_owned()))
        } else if typ == crate::TYPE_MX {
            if cols.len() < 6 {
                return Err(DnsError::ZoneError);
            }
            proof {
                assert(cols@[5]@ == split_on(line@, ' ')[5]);
            }
            let pref = match parse_decimal(cols[4].as_str(), 65535) {
                Ok(v) => v as u16,
                Err(_) => {
                    return Err(DnsError::ZoneError);
                },
            };
            RDataType::MX(MX { preference: pref, exchange: cols[5].as_str().to_owned() })
        } else {
            return Err(DnsError::ZoneError);
        };
        let name = decode_name(cols[0].as_str());
        proof {
            if cols@[0]@ == "NONE"@ {
                assert(name@ =~= Seq::<char>::empty());
            }
        }
        let mut rr = RR::new();
        rr.with_name(name);
        rr.with_type(typ);
        rr.with_class(class);
        rr.with_ttl(ttl);
        rr.with_rdata(rdata);
        Ok(rr)
    }

    /// Loads a whole master file's text: one record per line, each filed in
    /// the trie under its owner name (created as needed), later lines
    /// overriding earlier ones with the same name.  The load is accepted
    /// exactly when every nonempty line satisfies [`line_ok`]; on failure
    /// the zone value must be discarded, so that a partial zone is never
    /// installed.
    pub fn decode(&mut self, content: &str) -> (r: Result<(), DnsError>)
        requires
            content.is_ascii(),
        ensures
            ({
                let lines = split_on(content@, '\n');
                match r {
                    Ok(_) => {
                        &&& (forall|j: int|
                            0 <= j < lines.len() && (#[trigger] lines[j]).len() > 0 ==> line_ok(
                                lines[j],
                            ))
                        &&& final(self).mf == old(self).mf
                        &&& (forall|j: int|
                            #![trigger lines[j]]
                            0 <= j < lines.len() && lines[j].len() > 0 && (forall|k: int|
                                j < k < lines.len() ==> !(#[trigger] lines[k].len() > 0
                                    && crate::trie::fold_path(
                                    name_path(line_name(lines[k])),
                                ) == crate::trie::fold_path(name_path(line_name(lines[j])))))
                                ==> line_record_at(
                                final(self).tree,
                                lines[j],
                            ))
                    },
                    Err(_) => exists|j: int|
                        0 <= j < lines.len() && (#[trigger] lines[j]).len() > 0 && !line_ok(
                            lines[j],
                        ),
                }
            }),
    {
        let lines = split_on_exec(content, '\n');
        let ghost lv = split_on(content@, '\n');
        let mut i: usize = 0;
        while i < lines.len()
            invariant
                i <= lines@.len(),
                content.is_ascii(),
                lines.deep_view() == lv,
                lv == split_on(content@, '\n'),
                self.mf == old(self).mf,
                forall|j: int| 0 <= j < i && (#[trigger] lv[j]).len() > 0 ==> line_ok(lv[j]),
                forall|j: int|
                    #![trigger lv[j]]
                    0 <= j < i && lv[j].len() > 0 && (forall|k: int|
                        j < k < i ==> !(#[trigger] lv[k].len() > 0 && crate::trie::fold_path(
                            name_path(line_name(lv[k])),
                        ) == crate::trie::fold_path(name_path(line_name(lv[j]))))) ==> line_record_at(
                        self.tree,
                        lv[j],
                    ),
            decreases lines@.len() - i,
        {
            let line: &String = &lines[i];
            proof {
                assert(line@ == lv[i as int]);
                assert(vstd::utf8::is_ascii_chars(content@));
                crate::name::lemma_split_on_ascii(content@, '\n', i as int);
                assert(vstd::utf8::is_ascii_chars(line@));
            }
            if line.as_str().unicode_len() > 0 {
                let rr = match Self::parse_line(line.as_str()) {
                    Ok(rr) => rr,
                    Err(e) => {
                        proof {
                            assert(lv[i as int].len() > 0 && !line_ok(lv[i as int]));
                        }
                        return Err(e);
                    },
                };
                let name = rr.name.clone();
                proof {
                    assert(name@ == line_name(lv[i as int]));
                    assert(vstd::utf8::is_ascii_chars(name@)) by {
                        let c0 = split_on(lv[i as int], ' ')[0];
                        crate::name::lemma_split_on_ascii(lv[i as int], ' ', 0);
                        assert(vstd::utf8::is_ascii_chars(c0));
                    }
                }
                self.tree.push(name.as_str());
                self.tree.set_rr(name.as_str(), rr);
            }
            i = i + 1;
        }
        Ok(())
    }

    /// Files a record under `domain`, creating the path if need be; every
    /// other name answers as before.
    pub fn update(&mut self, domain: &str, rr: RR) -> (r: Result<(), DnsError>)
        requires
            domain.is_ascii(),
        ensures
            r is Ok,
            final(self).mf == old(self).mf,
            forall|q: Seq<Seq<char>>| #[trigger]
                tree_lookup(final(self).tree, q) == (if crate::trie::fold_path(q)
                    == crate::trie::fold_path(name_path(domain@)) {
                    Some(rr)
                } else {
                    tree_lookup(old(self).tree, q)
                }),
    {
        self.tree.push(domain);
        self.tree.set_rr(domain, rr);
        Ok(())
    }

    /// The record filed under `domain`, if any.
    pub fn query(&self, domain: &str) -> (r: Option<&RR>)
        requires
            domain.is_ascii(),
        ensures
            match r {
                Some(rr) => tree_lookup(self.tree, name_path(domain@)) == Some(*rr),
                None => tree_lookup(self.tree, name_path(domain@)) is None,
            },
    {
        self.tree.get_rr(domain)
    }
}

/// The record images every zone yields for one dotted name, in zone order.
pub open spec fn zone_hits(doms: Seq<DefaultMasterFiles>, dom: Seq<char>) -> Seq<crate::rr::RRView>
    decreases doms.len(),
{
    if doms.len() == 0 {
        Seq::empty()
    } else {
        (match tree_lookup(doms[0].tree, name_path(dom)) {
            Some(rr) => seq![rr@],
            None => Seq::empty(),
        }) + zone_hits(doms.drop_first(), dom)
    }
}

/// The record images the store yields for a question list: for each
/// question in order, every zone's answer for its dotted name, and nothing
/// else.  A question whose dotted name is not ASCII is outside the store's
/// name model and yields nothing.
pub open spec fn zones_answers(
    doms: Seq<DefaultMasterFiles>,
    qs: Seq<Question>,
) -> Seq<crate::rr::RRView>
    decreases qs.len(),
{
    if qs.len() == 0 {
        Seq::empty()
    } else {
        (if vstd::utf8::is_ascii_chars(crate::name::dotted(qs[0].qname@)) {
            zone_hits(doms, crate::name::dotted(qs[0].qname@))
        } else {
            Seq::empty()
        }) + zones_answers(doms, qs.drop_first())
    }
}

/// The zone store: every loaded zone, each answering for its own records.
pub struct Zones {
    pub domains: Vec<DefaultMasterFiles>,
}

impl Zones {
    /// An empty store.
    pub fn new() -> (r: Self)
        ensures
            r.domains@.len() == 0,
    {
        Zones { domains: Vec::new() }
    }

    /// Adds one loaded zone.
    pub fn add(&mut self, mf: DefaultMasterFiles)
        ensures
            final(self).domains@ == old(self).domains@.push(mf),
    {
        self.domains.push(mf);
    }

    /// Every record the store holds for the given questions: for each
    /// question in order, each zone's record under the question's dotted
    /// name (compared case-insensitively), copied out, in zone order, and
    /// nothing else.
    pub fn get_rr(&self, quess: &Vec<Question>) -> (r: Vec<RR>)
        ensures
            r.deep_view() == zones_answers(self.domains@, quess@),
    {
        let mut out: Vec<RR> = Vec::new();
        let mut i: usize = 0;
        proof {
            assert(quess@.skip(0) =~= quess@);
            assert(out.deep_view() + zones_answers(self.domains@, quess@) =~= zones_answers(
                self.domains@,
                quess@,
            ));
        }
        while i < quess.len()
            invariant
                i <= quess@.len(),
                zones_answers(self.domains@, quess@) == out.deep_view() + zones_answers(
                    self.domains@,
                    quess@.skip(i as int),
                ),
            decreases quess@.len() - i,
        {
            let domain = quess[i].qname.encode_to_str();
            let ghost rem = quess@.skip(i as int);
            proof {
                assert(rem[0] == quess@[i as int]);
                assert(rem.drop_first() =~= quess@.skip(i + 1));
            }
            if domain.as_str().is_ascii() {
                let mut z: usize = 0;
                let ghost pre = out.deep_view();
                proof {
                    assert(self.domains@.skip(0) =~= self.domains@);
                    assert(pre + zone_hits(self.domains@, domain@) =~= pre + zone_hits(
                        self.domains@,
                        domain@,
                    ));
                }
                while z < self.domains.len()
                    invariant
                        z <= self.domains@.len(),
                        domain.is_ascii(),
                        domain@ == crate::name::dotted(quess@[i as int].qname@),
                        pre + zone_hits(self.domains@, domain@) == out.deep_view() + zone_hits(
                            self.domains@.skip(z as int),
                            domain@,
                        ),
                    decreases self.domains@.len() - z,
                {
                    let ghost drem = self.domains@.skip(z as int);
                    proof {
                        assert(drem[0] == self.domains@[z as int]);
                        assert(drem.drop_first() =~= self.domains@.skip(z + 1));
                    }
                    match self.domains[z].query(domain.as_str()) {
                        Some(rr) => {
                            let ghost before = out.deep_view();
                            out.push(rr.copy());
                            proof {
                                assert(out.deep_view() =~= before.push(rr@));
                                assert(before.push(rr@) =~= before + seq![rr@]);
                            }
                        },
                        None => {},
                    }
                    z = z + 1;
                }
                proof {
                    assert(zone_hits(self.domains@.skip(self.domains@.len() as int), domain@)
                        =~= Seq::<crate::rr::RRView>::empty());
                    assert(out.deep_view() =~= pre + zone_hits(self.domains@, domain@));
                    assert(zones_answers(self.domains@, rem) == zone_hits(self.domains@, domain@)
                        + zones_answers(self.domains@, quess@.skip(i + 1)));
                    assert(out.deep_view() + zones_answers(self.domains@, quess@.skip(i + 1))
                        =~= pre + zones_answers(self.domains@, rem));
                }
            } else {
                proof {
                    assert(zones_answers(self.domains@, rem) == zones_answers(
                        self.domains@,
                        quess@.skip(i + 1),
                    )) by {
                        assert(Seq::<crate::rr::RRView>::empty() + zones_answers(
                            self.domains@,
                            quess@.skip(i + 1),
                        ) =~= zones_answers(self.domains@, quess@.skip(i + 1)));
                    }
                }
            }
            i = i + 1;
        }
        proof {
            assert(quess@.skip(quess@.len() as int).len() == 0);
            assert(out.deep_view() + Seq::<crate::rr::RRView>::empty() =~= out.deep_view());
        }
        out
    }
}

} // verus!
