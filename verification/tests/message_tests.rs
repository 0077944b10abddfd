use rsdns::edns::PseudoRR;
use rsdns::message::DNS;
use rsdns::rdata::{RDataType, A, OPT};
use rsdns::rr::{RR, RRs};
use rsdns::server::NameServer;
use rsdns::trie::DomainTree;
use rsdns::zone::{DefaultMasterFiles, Zones};
use rsdns::{CLASS_IN, TYPE_A, TYPE_MX, TYPE_OPT};

// A question-only, uncompressed query for baidu.com MX parses and encodes
// back to exactly its own bytes.
#[test]
fn test_question_only_roundtrip() {
    let raw: [u8; 27] = [
        22, 168, 1, 0, 0, 1, 0, 0, 0, 0, 0, 0, 5, 98, 97, 105, 100, 117, 3, 99, 111, 109, 0, 0,
        15, 0, 1,
    ];
    let mut dns = DNS::from(&raw).unwrap();
    assert_eq!(0x16A8, dns.head.id());
    assert_eq!(false, dns.head.qr());
    assert_eq!(true, dns.head.rd());
    assert_eq!(1, dns.head.qdcount());
    assert_eq!(1, dns.ques.len());
    assert_eq!("baidu", dns.ques[0].qname.0[0].as_str());
    assert_eq!("com", dns.ques[0].qname.0[1].as_str());
    assert_eq!(15, dns.ques[0].qtype());
    assert_eq!(1, dns.ques[0].qclass());
    assert_eq!(false, dns.is_compressed());
    assert_eq!(27, dns.parsed_len());
    let out = dns.encode(dns.is_compressed()).unwrap();
    assert_eq!(raw.to_vec(), out);
}

// A compressed response with six MX answers whose owner points at the
// question name re-encodes byte for byte.
#[test]
fn test_compressed_answer_roundtrip() {
    let mut raw: Vec<u8> = vec![
        54, 174, 129, 128, 0, 1, 0, 6, 0, 0, 0, 0, 5, 98, 97, 105, 100, 117, 3, 99, 111, 109, 0,
        0, 15, 0, 1,
    ];
    for i in 0..6u8 {
        raw.extend([192, 12, 0, 15, 0, 1, 0, 0, 1, 44, 0, 8]);
        raw.extend([0, 5 * (i + 1)]);
        raw.extend([3, b'm', b'x', b'1' + i, 192, 12]);
    }
    assert_eq!(147, raw.len());
    let mut dns = DNS::from(&raw).unwrap();
    assert_eq!(true, dns.is_compressed());
    assert_eq!(6, dns.answers.0.len());
    for rr in dns.answers.0.iter() {
        assert_eq!("baidu.com", rr.name());
        assert_eq!(TYPE_MX, rr.typ());
    }
    match dns.answers.0[2].rdata() {
        RDataType::MX(mx) => {
            assert_eq!(15, mx.preference);
            assert_eq!("mx3.baidu.com", mx.exchange.as_str());
        }
        _ => panic!("not an MX payload"),
    }
    let out = dns.encode(true).unwrap();
    assert_eq!(raw, out);
}

// An uncompressed response decodes with the compressed flag clear, encodes
// back byte for byte without compression, and no longer than that with it.
#[test]
fn test_uncompressed_response_roundtrip() {
    let mut raw: Vec<u8> = vec![0x12, 0x34, 0x81, 0x80, 0, 1, 0, 1, 0, 0, 0, 0];
    raw.extend([6, b'g', b'o', b'o', b'g', b'l', b'e', 3, b'c', b'o', b'm', 0, 0, 1, 0, 1]);
    raw.extend([6, b'g', b'o', b'o', b'g', b'l', b'e', 3, b'c', b'o', b'm', 0, 0, 1, 0, 1]);
    raw.extend([0, 0, 0, 60, 0, 4, 8, 7, 198, 46]);
    let mut dns = DNS::from(&raw).unwrap();
    assert_eq!(false, dns.is_compressed());
    let plain = dns.encode(false).unwrap();
    assert_eq!(raw, plain);
    let packed = dns.encode(true).unwrap();
    assert!(packed.len() <= plain.len());
    let back = DNS::from(&packed).unwrap();
    assert_eq!(1, back.answers.0.len());
    assert_eq!("google.com", back.answers.0[0].name());
    match back.answers.0[0].rdata() {
        RDataType::A(a) => assert_eq!([8, 7, 198, 46], a.0),
        _ => panic!("not an A payload"),
    }
}

// Parse, encode, and parse again: the structural message is unchanged.
#[test]
fn test_parse_encode_parse_idempotent() {
    let raw: [u8; 27] = [
        22, 168, 1, 0, 0, 1, 0, 0, 0, 0, 0, 0, 5, 98, 97, 105, 100, 117, 3, 99, 111, 109, 0, 0,
        15, 0, 1,
    ];
    let mut first = DNS::from(&raw).unwrap();
    let bytes = first.encode(first.is_compressed()).unwrap();
    let second = DNS::from(&bytes).unwrap();
    assert_eq!(first.head.get_0(), second.head.get_0());
    assert_eq!(first.ques[0].qname.0, second.ques[0].qname.0);
    assert_eq!(first.ques[0].qtype(), second.ques[0].qtype());
    assert_eq!(first.ques[0].qclass(), second.ques[0].qclass());
}

// A message built by hand encodes and parses back to the same structure.
#[test]
fn test_build_encode_parse_identity() {
    let mut dns = DNS::new();
    dns.with_ques("baidu.com", TYPE_A, CLASS_IN);
    dns.head.with_rd(true);
    let mut rr = RR::new();
    rr.with_name("baidu.com");
    rr.with_type(TYPE_A);
    rr.with_class(CLASS_IN);
    rr.with_ttl(600);
    rr.with_rdata(RDataType::A(A([10, 0, 0, 1])));
    dns.with_answer(rr);
    let bytes = dns.encode(false).unwrap();
    let back = DNS::from(&bytes).unwrap();
    assert_eq!(dns.head.id(), back.head.id());
    assert_eq!(1, back.ques.len());
    assert_eq!("baidu.com", back.ques[0].qname.encode_to_str().as_str());
    assert_eq!(TYPE_A, back.ques[0].qtype());
    assert_eq!(1, back.answers.0.len());
    assert_eq!("baidu.com", back.answers.0[0].name());
    assert_eq!(600, back.answers.0[0].ttl());
    match back.answers.0[0].rdata() {
        RDataType::A(a) => assert_eq!([10, 0, 0, 1], a.0),
        _ => panic!("not an A payload"),
    }
}

// All counts zero: a valid empty message that round-trips to 12 header
// bytes.
#[test]
fn test_empty_message_roundtrip() {
    let mut dns = DNS::new();
    dns.head.with_id(7);
    let bytes = dns.encode(true).unwrap();
    assert_eq!(12, bytes.len());
    let back = DNS::from(&bytes).unwrap();
    assert_eq!(7, back.head.id());
    assert_eq!(0, back.ques.len());
    assert_eq!(0, back.answers.0.len());
    assert_eq!(12, back.parsed_len());
}

// A malformed pointer fails the whole parse; nothing comes back.
#[test]
fn test_malformed_pointer_rejected() {
    // the answer's owner name points forward, past its own position
    let mut raw: Vec<u8> = vec![0, 1, 0, 0, 0, 1, 0, 1, 0, 0, 0, 0];
    raw.extend([1, b'a', 0, 0, 1, 0, 1]);
    raw.extend([0xC0, 0xFF, 0, 1, 0, 1, 0, 0, 0, 60, 0, 4, 1, 2, 3, 4]);
    assert!(DNS::from(&raw).is_err());

    // a pointer back at itself is a cycle
    let mut raw: Vec<u8> = vec![0, 2, 0, 0, 0, 1, 0, 0, 0, 0, 0, 0];
    raw.extend([0xC0, 12, 0, 1, 0, 1]);
    assert!(DNS::from(&raw).is_err());
}

// Truncated header bytes are refused.
#[test]
fn test_truncated_message_rejected() {
    assert!(DNS::from(&[0, 1, 2]).is_err());
}

// The EDNS0 overlay of an OPT record in the additional section.
#[test]
fn test_edns_opt_overlay() {
    let mut raw: Vec<u8> = vec![0, 9, 0, 0, 0, 1, 0, 0, 0, 0, 0, 1];
    raw.extend([1, b'a', 3, b'c', b'o', b'm', 0, 0, 1, 0, 1]);
    // OPT: root name, TYPE 41, CLASS 4096, TTL carries DO, empty RDATA
    raw.extend([0, 0, 41, 16, 0, 0, 0, 0x80, 0, 0, 0]);
    let dns = DNS::from(&raw).unwrap();
    assert_eq!(1, dns.additional.0.len());
    let rr = dns.additional.0[0].clone();
    assert_eq!(TYPE_OPT, rr.typ());
    let prr = rr.convert_pseudo().unwrap();
    assert_eq!(4096, prr.udp_payload());
    assert_eq!(0, prr.version());
    assert_eq!(true, prr.dnssec_ok());
    assert_eq!(0, prr.rcode(0));
    let mut prr2 = prr;
    assert_eq!(12, prr2.with_rcode(2044));
    assert_eq!(2044, prr2.rcode(12));
}

// An OPT record in the answer section is unsupported: the server answers
// NotImp and attaches nothing.
#[test]
fn test_opt_in_answer_not_implemented() {
    let mut query = DNS::new();
    query.with_ques("baidu.com", TYPE_A, CLASS_IN);
    let mut opt = RR::new();
    opt.with_type(TYPE_OPT);
    opt.with_rdata(RDataType::OPT(OPT(vec![])));
    query.with_answer(opt);
    let server = NameServer::new(Zones::new());
    let resp = server.query(&query);
    assert_eq!(4, resp.head.rcode());
    assert_eq!(0, resp.answers.0.len());
    assert_eq!(true, resp.head.qr());
}

#[test]
pub fn test_domaintree_push() {
    let mut tree = DomainTree::new();
    tree.push("baidu.com");
    println!("tree = {:?}", tree);
    tree.push("google.com");
    println!("tree = {:?}", tree);
}

#[test]
pub fn test_domaintree_set_rr() {
    let mut tree = DomainTree::new();
    tree.push("baidu.com");
    println!("tree = {:?}", tree);

    let mut rr = RR::new();
    rr.with_name("baidu.com");
    rr.with_class(11);
    rr.with_type(12);
    rr.with_ttl(13);

    tree.set_rr("baidu.com", rr.clone());
    println!("tree2 = {:?}", tree);

    tree.set_rr("baidu.com1", rr.clone());
    println!("tree3 = {:?}", tree);
}

#[test]
pub fn test_domaintree_get_rr() {
    let mut tree = DomainTree::new();
    tree.push("baidu.com");

    let mut rr = RR::new();
    rr.with_name("baidu.com");
    rr.with_class(11);
    rr.with_type(12);
    rr.with_ttl(13);

    tree.set_rr("baidu.com", rr);

    let rr = tree.get_rr("baidu.com");
    assert_eq!(true, rr.is_some());
    assert_eq!(11, rr.as_ref().unwrap().class());
    assert_eq!(12, rr.as_ref().unwrap().typ());
    assert_eq!(13, rr.as_ref().unwrap().ttl());

    let rr = tree.get_rr("baidu.com1");
    assert_eq!(true, rr.is_none());
    let rr = tree.get_rr("baidu1.com");
    assert_eq!(true, rr.is_none());
}

// Lookup folds case, as owner names compare case-insensitively.
#[test]
fn test_domaintree_case_insensitive() {
    let mut tree = DomainTree::new();
    tree.push("Baidu.Com");
    let mut rr = RR::new();
    rr.with_ttl(77);
    tree.set_rr("baidu.com", rr);
    assert_eq!(77, tree.get_rr("BAIDU.COM").unwrap().ttl());
}

#[test]
fn test_master_file_line() {
    let rr = DefaultMasterFiles::parse_line("baidu.com 1 1 300 8.8.8.8").unwrap();
    assert_eq!("baidu.com", rr.name());
    assert_eq!(TYPE_A, rr.typ());
    assert_eq!(1, rr.class());
    assert_eq!(300, rr.ttl());
    match rr.rdata() {
        RDataType::A(a) => assert_eq!([8, 8, 8, 8], a.0),
        _ => panic!("not an A payload"),
    }
    // an unknown type is a zone error on the text path
    assert!(DefaultMasterFiles::parse_line("baidu.com 99 1 300 x").is_err());
    // a bad number is a zone error
    assert!(DefaultMasterFiles::parse_line("baidu.com 1 1 30x 8.8.8.8").is_err());
}

#[test]
fn test_zone_store_answers() {
    let mut mf = DefaultMasterFiles::new("zone_a");
    mf.decode("baidu.com 1 1 300 8.8.8.8\ngoogle.com 1 1 60 1.1.1.1").unwrap();
    let mut zones = Zones::new();
    zones.add(mf);
    let server = NameServer::new(zones);
    let mut query = DNS::new();
    query.with_ques("google.com", TYPE_A, CLASS_IN);
    let resp = server.query(&query);
    assert_eq!(0, resp.head.rcode());
    assert_eq!(1, resp.answers.0.len());
    assert_eq!(60, resp.answers.0[0].ttl());
    match resp.answers.0[0].rdata() {
        RDataType::A(a) => assert_eq!([1, 1, 1, 1], a.0),
        _ => panic!("not an A payload"),
    }
}

// A name the zones do not hold is answered NXDomain when zones are loaded,
// and NoError when none are.
#[test]
fn test_nxdomain_on_miss() {
    let mut mf = DefaultMasterFiles::new("zone_a");
    mf.decode("baidu.com 1 1 300 8.8.8.8").unwrap();
    let mut zones = Zones::new();
    zones.add(mf);
    let server = NameServer::new(zones);
    let mut query = DNS::new();
    query.with_ques("missing.example", TYPE_A, CLASS_IN);
    let resp = server.query(&query);
    assert_eq!(3, resp.head.rcode());
    assert_eq!(0, resp.answers.0.len());

    let bare = NameServer::new(Zones::new());
    let resp = bare.query(&query);
    assert_eq!(0, resp.head.rcode());
}

// Master-file lines for name RDATA and MX parse into their typed payloads.
#[test]
fn test_master_file_name_and_mx_lines() {
    let ns = DefaultMasterFiles::parse_line("baidu.com 2 1 300 ns1.baidu.com").unwrap();
    match ns.rdata() {
        RDataType::NS(v) => assert_eq!("ns1.baidu.com", v.0.as_str()),
        _ => panic!("not an NS payload"),
    }
    let mx = DefaultMasterFiles::parse_line("baidu.com 15 1 300 10 mx.baidu.com").unwrap();
    match mx.rdata() {
        RDataType::MX(v) => {
            assert_eq!(10, v.preference);
            assert_eq!("mx.baidu.com", v.exchange.as_str());
        }
        _ => panic!("not an MX payload"),
    }
    // MX without its exchange column is a zone error
    assert!(DefaultMasterFiles::parse_line("baidu.com 15 1 300 10").is_err());
}

// The OPT accessors read the first option tuple.
#[test]
fn test_opt_option_fields() {
    let opt = OPT(vec![0x12, 0x34, 0, 2, 0xAA, 0xBB]);
    assert_eq!(Some(0x1234), opt.code());
    assert_eq!(Some(2), opt.length());
    assert_eq!(vec![0xAA, 0xBB], opt.data());
    let empty = OPT(vec![]);
    assert_eq!(None, empty.code());
}

// Siblings sit in canonical, case-folded order wherever they were pushed,
// so enumeration walks owner names canonically.
#[test]
fn test_domaintree_canonical_order() {
    let mut tree = DomainTree::new();
    for name in ["zz.example", "B.example", "a.example"] {
        tree.push(name);
        let mut rr = RR::new();
        rr.with_name(name);
        tree.set_rr(name, rr);
    }
    let all = tree.get_all_rrs();
    assert_eq!(3, all.len());
    assert_eq!("a.example", all[0].name());
    assert_eq!("B.example", all[1].name());
    assert_eq!("zz.example", all[2].name());
}

// Sorting a section orders records canonically by owner name, rightmost
// label first and case-folded, keeping every record.
#[test]
fn test_rrs_sort_canonical() {
    let mut rrs = RRs::new();
    for name in ["z.example", "a.example", "yljkjljk.a.example", "Z.a.example"] {
        let mut rr = RR::new();
        rr.with_name(name);
        rrs.extend(rr);
    }
    rrs.sort();
    assert_eq!(4, rrs.len());
    assert_eq!("a.example", rrs.0[0].name());
    assert_eq!("yljkjljk.a.example", rrs.0[1].name());
    assert_eq!("Z.a.example", rrs.0[2].name());
    assert_eq!("z.example", rrs.0[3].name());
}
