use rsdns::compress::CompressList;
use rsdns::dnssec::{calc_key_tag, DNSKEY, DS, RRSig, NSEC};
use rsdns::edns::PseudoRR;
use rsdns::errors::DnsError;
use rsdns::name::Labels;
use rsdns::question::Question;
use rsdns::rdata::{parse_charactor_string, parse_domain_name, RDataType, A, HInfo, MX, SOA};
use rsdns::rr::RR;
use rsdns::{TYPE_A, TYPE_MX, TYPE_OPT};

#[test]
pub fn test_question_from() {
    let mut offset = 0;
    let raw = [
        0x06, 0x67, 0x6f, 0x6f, 0x67, 0x6c, 0x65, 0x03, 0x63, 0x6f, 0x6d, 0x00, 0x11, 0x22, 0x33,
        0x44,
    ];
    let ques = Question::from(&raw, &mut offset);
    assert_eq!(true, ques.as_ref().is_ok());
    assert_eq!(16, offset);
    let q = ques.unwrap();
    assert_eq!(2, q.qname().0.len());
    assert_eq!("google", q.qname().0.get(0).unwrap().as_str());
    assert_eq!("com", q.qname().0.get(1).unwrap().as_str());

    let mut raw = vec![
        0x06, 0x67, 0x6f, 0x6f, 0x67, 0x6c, 0x65, 0x03, 0x63, 0x6f, 0x6d, 0x00, 0x11, 0x22, 0x33,
    ];
    while raw.len() != 0 {
        let mut offset = 0;
        let q = Question::from(&raw, &mut offset);
        assert_eq!(true, q.is_err());
        raw.pop();
    }
}

#[test]
pub fn test_question_encode() {
    let ques = Question {
        qname: Labels(vec!["google".to_string(), "com".to_string()]),
        qtype: 4386,
        qclass: 13124,
    };

    let raw1: Vec<u8> = vec![
        0x06, 0x67, 0x6f, 0x6f, 0x67, 0x6c, 0x65, 0x03, 0x63, 0x6f, 0x6d, 0x00, 0x11, 0x22, 0x33,
        0x44,
    ];
    let raw2: Vec<u8> = vec![
        0x06, 0x67, 0x6f, 0x6f, 0x67, 0x6c, 0x65, 0x03, 0x63, 0x6f, 0x6d, 0x00, 0x11, 0x22, 0x33,
        0x43,
    ];

    assert_eq!(raw1, ques.encode());
    assert_ne!(raw2, ques.encode());
}

#[test]
fn test_parse_domain_name_without_raw() {
    let rdatas: &[(&[u8], bool)] = &[
        (&[3, 100, 110, 115, 1, 115, 0, 3, 97, 98, 99, 1, 116, 0], true),
        (&[3, 100, 110, 115, 1, 115, 0, 3, 97, 98, 99, 1, 116], false),
    ];

    for rdata in rdatas {
        let labels = parse_domain_name(&[], rdata.0, 0);
        assert_eq!(rdata.1, labels.is_ok());
        if labels.is_ok() {
            println!("labels = {:?}", labels.unwrap().len());
        }
    }
}

#[test]
fn test_parse_charactor_string() {
    let list = parse_charactor_string(&[3, b'c', b'p', b'u', 2, b'o', b's']).unwrap();
    assert_eq!(2, list.len());
    assert_eq!(vec![b'c', b'p', b'u'], list[0]);
    assert_eq!(vec![b'o', b's'], list[1]);
    assert!(parse_charactor_string(&[5, b'x']).is_err());
}

#[test]
pub fn test_rr_with_name() {
    let mut rr = RR::new();
    rr.with_name("google.com");
    assert_eq!("google.com", rr.name());

    rr.with_name("amazon.com");
    assert_eq!("amazon.com", rr.name());
}

#[test]
pub fn test_rr_with_typ() {
    let mut rr = RR::new();
    rr.with_type(1);
    assert_eq!(1, rr.typ());

    rr.with_type(2);
    assert_eq!(2, rr.typ());
}

#[test]
pub fn test_rr_with_class() {
    let mut rr = RR::new();
    rr.with_class(1);
    assert_eq!(1, rr.class());

    rr.with_class(2);
    assert_eq!(2, rr.class());
}

#[test]
pub fn test_rr_with_ttl() {
    let mut rr = RR::new();
    rr.with_ttl(1);
    assert_eq!(1, rr.ttl());

    rr.with_ttl(2);
    assert_eq!(2, rr.ttl());
}

#[test]
pub fn test_rr_is_equal() {
    let new_rr = |name: &str, typ, class, ttl| {
        let mut rr = RR::new();
        rr.with_name(name);
        rr.with_type(typ);
        rr.with_class(class);
        rr.with_ttl(ttl);
        rr
    };

    let rr1 = new_rr("baidu.com", 1, 1, 32);
    let rr2 = new_rr("baidu.com", 1, 1, 32);
    let rr3 = new_rr("baidu.com", 1, 1, 33);
    assert_eq!(true, rr1 == rr2);
    assert_eq!(false, rr1 == rr3);
}

#[test]
fn test_rr_decode_mx() {
    // owner baidu.com, MX, IN, ttl 300, preference 10, exchange mx.baidu.com
    let raw = [
        5, b'b', b'a', b'i', b'd', b'u', 3, b'c', b'o', b'm', 0, 0, 15, 0, 1, 0, 0, 1, 44, 0, 7, 0,
        10, 2, b'm', b'x', 0xC0, 0x00,
    ];
    let mut offset = 0;
    let mut compressed = false;
    let rr = RR::from(&raw, &mut offset, &mut compressed).unwrap();
    assert_eq!("baidu.com", rr.name());
    assert_eq!(TYPE_MX, rr.typ());
    assert_eq!(1, rr.class());
    assert_eq!(300, rr.ttl());
    assert_eq!(raw.len(), offset);
    assert_eq!(false, compressed);
    match rr.rdata() {
        RDataType::MX(mx) => {
            assert_eq!(10, mx.preference);
            assert_eq!("mx.baidu.com", mx.exchange.as_str());
        }
        _ => panic!("not an MX payload"),
    }
}

#[test]
fn test_rr_encode_uncompressed() {
    let mut rr = RR::new();
    rr.with_name("a.b");
    rr.with_type(TYPE_A);
    rr.with_class(1);
    rr.with_ttl(7);
    rr.with_rdata(RDataType::A(A([1, 2, 3, 4])));
    let mut out: Vec<u8> = Vec::new();
    let mut cl = CompressList::new();
    rr.encode(&mut out, &mut cl, false).unwrap();
    assert_eq!(
        vec![1, b'a', 1, b'b', 0, 0, 1, 0, 1, 0, 0, 0, 7, 0, 4, 1, 2, 3, 4],
        out
    );
    assert_eq!(4, rr.rdlength);
}

#[test]
fn test_rr_encode_rejects_bad_label() {
    let mut rr = RR::new();
    rr.with_name("a..b");
    rr.with_type(TYPE_A);
    rr.with_rdata(RDataType::A(A([1, 2, 3, 4])));
    let mut out: Vec<u8> = Vec::new();
    let mut cl = CompressList::new();
    assert_eq!(Err(DnsError::Malformed), rr.encode(&mut out, &mut cl, false).map(|_| ()));
    assert!(out.is_empty());
}

#[test]
fn test_soa_decode() {
    // two names then serial/refresh/retry/expire/minimum
    let rdata = [
        1, b'a', 0, 1, b'b', 0, 0, 0, 0, 1, 0, 0, 0, 2, 0, 0, 0, 3, 0, 0, 0, 4, 0, 0, 0, 5,
    ];
    let soa = SOA::from(&rdata, &rdata, 0).unwrap();
    assert_eq!("a", soa.mname.as_str());
    assert_eq!("b", soa.rname.as_str());
    assert_eq!(1, soa.serial);
    assert_eq!(2, soa.refresh);
    assert_eq!(3, soa.retry);
    assert_eq!(4, soa.expire);
    assert_eq!(5, soa.minimum);
}

#[test]
fn test_hinfo_synthesized() {
    let one = HInfo::from(&[], &[3, b'c', b'p', b'u']).unwrap();
    assert_eq!(true, one.synthesized);
    assert_eq!(b"cpu".to_vec(), one.cpu);
    assert_eq!(0, one.os.len());

    let two = HInfo::from(&[], &[3, b'c', b'p', b'u', 2, b'o', b's']).unwrap();
    assert_eq!(false, two.synthesized);
    assert_eq!(b"cpu".to_vec(), two.cpu);
    assert_eq!(b"os".to_vec(), two.os);
}

// Character-strings are binary: a non-ASCII byte is still a valid HINFO.
#[test]
fn test_hinfo_accepts_binary_bytes() {
    let one = HInfo::from(&[], &[1, 0x80]).unwrap();
    assert_eq!(true, one.synthesized);
    assert_eq!(vec![0x80], one.cpu);
}

#[test]
fn test_a_rejects_wrong_length() {
    assert!(A::from(&[], &[1, 2, 3, 4]).is_ok());
    assert!(A::from(&[], &[1, 2, 3]).is_err());
    assert!(A::from(&[], &[1, 2, 3, 4, 5]).is_err());
}

#[test]
fn test_pseudo_rr_udp_payload() {
    let mut rr = RR::new();
    rr.with_type(TYPE_OPT);
    let mut prr = PseudoRR::from(rr);
    prr.0.with_class(512);
    assert_eq!(512, prr.udp_payload());

    prr.0.with_class(1024);
    assert_eq!(1024, prr.udp_payload());
}

#[test]
fn test_pseudo_rr_with_udp_payload() {
    let mut rr = RR::new();
    rr.with_type(TYPE_OPT);
    let mut prr = PseudoRR::from(rr);
    prr.with_udp_payload(512);
    assert_eq!(512, prr.udp_payload());

    prr.with_udp_payload(1024);
    assert_eq!(1024, prr.udp_payload());
}

#[test]
fn test_pseudo_rr_rcode() {
    let mut rr = RR::new();
    rr.with_type(TYPE_OPT);
    let mut prr = PseudoRR::from(rr);
    prr.0.with_ttl(u32::MAX / 2);
    assert_eq!(2044, prr.rcode(12));

    prr.0.with_ttl(u32::MAX);
    assert_eq!(4092, prr.rcode(12));
}

#[test]
fn test_pseudo_rr_with_rcode() {
    let mut rr = RR::new();
    rr.with_type(TYPE_OPT);
    let mut prr = PseudoRR::from(rr);
    prr.0.with_ttl(u32::MAX / 2);
    assert_eq!(12, prr.with_rcode(2044));
    assert_eq!(2044, prr.rcode(12));

    prr.0.with_ttl(u32::MAX);
    assert_eq!(12, prr.with_rcode(4092));
    assert_eq!(4092, prr.rcode(12));
}

#[test]
fn test_pseudo_rr_version() {
    let mut rr = RR::new();
    rr.with_type(TYPE_OPT);
    let mut prr = PseudoRR::from(rr);
    prr.0.with_ttl(u32::MAX / 2);
    assert_eq!(255, prr.version());

    prr.0.with_ttl(u32::MAX / (2_i32.pow(15) as u32));
    assert_eq!(1, prr.version());
    prr.0.with_ttl(u32::MAX / (2_i32.pow(14) as u32));
    assert_eq!(3, prr.version());
    prr.0.with_ttl(u32::MAX / (2_i32.pow(13) as u32));
    assert_eq!(7, prr.version());
}

#[test]
fn test_pseudo_rr_with_version() {
    let mut rr = RR::new();
    rr.with_type(TYPE_OPT);
    let mut prr = PseudoRR::from(rr);
    prr.with_version(155);
    assert_eq!(155, prr.version());

    prr.with_version(180);
    assert_eq!(180, prr.version());
}

#[test]
fn test_pseudo_rr_with_z() {
    let mut rr = RR::new();
    rr.with_type(TYPE_OPT);
    let mut prr = PseudoRR::from(rr);
    prr.with_z(u16::MAX / 4);
    assert_eq!(u16::MAX / 4, prr.z());

    prr.with_z(u16::MAX / 2);
    assert_eq!(u16::MAX / 2, prr.z());

    prr.with_z(u16::MAX);
    assert_eq!(u16::MAX / 2, prr.z());
}

#[test]
fn test_pseudo_rr_dnssec_ok() {
    let mut rr = RR::new();
    rr.with_type(TYPE_OPT);
    let prr = PseudoRR::from(rr);
    assert_eq!(false, prr.dnssec_ok());
}

#[test]
fn test_pseudo_rr_with_dnssec_ok() {
    let mut rr = RR::new();
    rr.with_type(TYPE_OPT);
    let mut prr = PseudoRR::from(rr);
    assert_eq!(false, prr.dnssec_ok());

    prr.with_dnssec_ok(true);
    assert_eq!(true, prr.dnssec_ok());
    prr.with_dnssec_ok(false);
    assert_eq!(false, prr.dnssec_ok());
}

#[test]
fn test_convert_pseudo() {
    let mut rr = RR::new();
    rr.with_type(TYPE_OPT);
    rr.with_rdata(RDataType::OPT(rsdns::rdata::OPT(vec![])));
    assert!(rr.convert_pseudo().is_ok());

    let plain = RR::new();
    assert_eq!(true, plain.convert_pseudo().is_err());
}

#[test]
fn test_with_flag_zone_key() {
    let mut dnskey: DNSKEY = DNSKEY::new();
    dnskey.with_flag_zone_key(true);
    assert_eq!(256, dnskey.flags);

    dnskey.with_flag_zone_key(false);
    assert_eq!(0, dnskey.flags);
}

#[test]
fn test_with_flag_sec_entry_point() {
    let mut dnskey: DNSKEY = DNSKEY::new();
    dnskey.with_flag_sec_entry_point(true);
    assert_eq!(1, dnskey.flags);

    dnskey.with_flag_sec_entry_point(false);
    assert_eq!(0, dnskey.flags);
}

#[test]
fn test_dnskey_decode() {
    let pub_key = "AQPSKmynfzW4kyBv015MUG2DeIQ3Cbl+BBZH4b/0PY1kxkmvHjcZc8nokfzj31GajIQKY+5CptLr3buXA10hWqTkF7H6RfoRqXQeogmMHfpftf6zMv1LyBUgia7za6ZEzOJBOztyvhjL742iU/TpPSEDhm2SNKLijfUppn1UaNvv4w==";
    let mut rdata = vec![16_u8, 11, 3, 1];
    rdata.extend(pub_key.as_bytes());

    let mut dnskey = DNSKEY::new();
    let result = dnskey.decode(&rdata, &rdata);
    assert_eq!(false, result.is_err());
}

#[test]
fn test_calc_key_tag() {
    let mut key = DNSKEY::new();
    key.flags = 256;
    key.algorithm = 8;
    key.pub_key = vec![1, 2, 3, 4];
    // wire image [1, 0, 3, 8, 1, 2, 3, 4]: 256 + 0 + 768 + 8 + 256 + 2 + 768 + 4
    assert_eq!(2062, calc_key_tag(&key));

    // algorithm 1 takes the 16 bits before the last key octet
    let mut key1 = DNSKEY::new();
    key1.algorithm = 1;
    key1.pub_key = vec![9, 0xAB, 0xCD, 7];
    assert_eq!(0xABCD, calc_key_tag(&key1));
}

#[test]
fn test_ds_decode() {
    let rdata = [0x12, 0x34, 8, 2, 0xDE, 0xAD];
    let ds = DS::from(&rdata, &rdata).unwrap();
    assert_eq!(0x1234, ds.key_tag);
    assert_eq!(8, ds.algorithm);
    assert_eq!(2, ds.digest_type);
    assert_eq!(vec![0xDE, 0xAD], ds.digest);
}

#[test]
fn test_nsec_decode() {
    let rdata = [1, b'a', 3, b'c', b'o', b'm', 0, 0, 0, 0, 9];
    let nsec = NSEC::from(&rdata, &rdata).unwrap();
    assert_eq!("a.com", nsec.next_domain_name.as_str());
    assert_eq!(9, nsec.type_bit_maps);
}

#[test]
fn test_rrsig_decode() {
    let mut rdata: Vec<u8> = vec![
        0, 1, 8, 2, 0, 0, 1, 44, 0, 0, 0, 9, 0, 0, 0, 5, 0x12, 0x34,
    ];
    rdata.extend([3, b'c', b'o', b'm', 0]);
    rdata.extend([0xAA, 0xBB]);
    let sig = RRSig::from(&rdata, &rdata).unwrap();
    assert_eq!(1, sig.type_covered);
    assert_eq!(8, sig.algorithm);
    assert_eq!(2, sig.labels);
    assert_eq!(300, sig.origin_ttl);
    assert_eq!(9, sig.sig_expiration);
    assert_eq!(5, sig.sig_inception);
    assert_eq!(0x1234, sig.key_tag);
    assert_eq!("com", sig.signer_name.as_str());
    assert_eq!(vec![0xAA, 0xBB], sig.signature);
}

// A compression pointer inside RDATA must land strictly before its own
// absolute position in the message, like any other pointer.
#[test]
fn test_rdata_pointer_forward_rejected() {
    // owner a, TYPE NS, then RDATA [0xC0, 13]: the pointer stands at
    // absolute offset 13 and points at itself
    let raw = [
        1, b'a', 0, 0, 2, 0, 1, 0, 0, 0, 60, 0, 2, 0xC0, 13,
    ];
    let mut offset = 0;
    let mut compressed = false;
    assert!(RR::from(&raw, &mut offset, &mut compressed).is_err());

    // and one pointing past its own position, at a name later in the buffer
    let raw2 = [
        1, b'a', 0, 0, 2, 0, 1, 0, 0, 0, 60, 0, 2, 0xC0, 15, 3, b'c', b'o', b'm', 0,
    ];
    let mut offset = 0;
    let mut compressed = false;
    assert!(RR::from(&raw2, &mut offset, &mut compressed).is_err());

    // a backward pointer into the owner name is still followed
    let raw3 = [
        1, b'a', 3, b'c', b'o', b'm', 0, 0, 2, 0, 1, 0, 0, 0, 60, 0, 2, 0xC0, 0,
    ];
    let mut offset = 0;
    let mut compressed = false;
    let rr = RR::from(&raw3, &mut offset, &mut compressed).unwrap();
    match rr.rdata() {
        RDataType::NS(ns) => assert_eq!("a.com", ns.0.as_str()),
        _ => panic!("not an NS payload"),
    }
}
