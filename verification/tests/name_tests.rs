use rsdns::compress::CompressList;
use rsdns::name::{encode_domain_name, Labels};
use rsdns::util;

#[test]
fn test_labels_from() {
    let mut offset = 0_usize;
    let label = Labels::parse(
        &[0x06, 0x67, 0x6f, 0x6f, 0x67, 0x6c, 0x65, 0x03, 0x63, 0x6f, 0x6d, 0x00],
        &mut offset,
    );
    assert_eq!(true, label.is_ok());
    let l = label.unwrap();
    assert_eq!("google", l.0.get(0).unwrap().as_str());
    assert_eq!("com", l.0.get(1).unwrap().as_str());

    let mut offset = 0_usize;
    let label = Labels::parse(
        &[0x06, 0x67, 0x6f, 0x6f, 0x67, 0x6c, 0x65, 0x03, 0x63, 0x6f, 0x6d],
        &mut offset,
    );
    assert_eq!(false, label.is_ok());
}

#[test]
fn compress_list_push() {
    let mut cl = CompressList::new();
    cl.push("baidu.com", 12);
    cl.push("google.com", 33);
    cl.push("mail.email.amazon.jp", 55);
    println!("cl = {:?}", cl);
}

#[test]
fn compress_list_records_suffixes() {
    let mut cl = CompressList::new();
    cl.push("mail.google.com", 12);
    let entries = cl.get_0();
    assert_eq!(3, entries.len());
    assert_eq!("mail.google.com", entries[0].0.as_str());
    assert_eq!(12, entries[0].1);
    assert_eq!("google.com", entries[1].0.as_str());
    assert_eq!(17, entries[1].1);
    assert_eq!("com", entries[2].0.as_str());
    assert_eq!(24, entries[2].1);
    // a suffix already recorded keeps its first offset
    cl.push("images.google.com", 40);
    let entries = cl.get_0();
    assert_eq!(4, entries.len());
    assert_eq!("images.google.com", entries[3].0.as_str());
    assert_eq!(40, entries[3].1);
}

#[test]
fn test_rr_is_compressed() {
    let cases = [([192_u8, 12], true, 12), ([6_u8, 13], false, 0)];
    for cs in cases {
        let (offset, is_compressed) = util::is_compressed(cs.0);
        assert_eq!(cs.1, is_compressed);
        if is_compressed {
            assert_eq!(cs.2, offset);
        }
    }
}

#[test]
fn test_base64_encode() {
    let out = util::base64_encode("123456".as_bytes());
    assert_eq!("MTIzNDU2", out);

    let out = util::base64_encode("!@#$%^&*()_+ []|';,./?><:\"~`".as_bytes());
    assert_eq!("IUAjJCVeJiooKV8rIFtdfCc7LC4vPz48OiJ+YA==", out);
}

#[test]
fn test_base64_decode() {
    let out = util::base64_decode("MTIzNDU2".as_bytes()).unwrap();
    let s = String::from_utf8(out).unwrap();
    assert_eq!("123456", s);

    let out = util::base64_decode("IUAjJCVeJiooKV8rIFtdfCc7LC4vPz48OiJ+YA==".as_bytes()).unwrap();
    let s = String::from_utf8(out).unwrap();
    assert_eq!("!@#$%^&*()_+ []|';,./?><:\"~`", s);
}

#[test]
fn test_base64_decode_rejects_bad_text() {
    assert!(util::base64_decode("not base64 !!".as_bytes()).is_err());
}

#[test]
fn test_encode_decode_name_literals() {
    assert_eq!("NONE", util::encode_name(""));
    assert_eq!("baidu.com", util::encode_name("baidu.com"));
    assert_eq!("", util::decode_name("NONE"));
    assert_eq!("baidu.com", util::decode_name("baidu.com"));
}

// The name codec round-trips: encoding a name and decoding the bytes gives
// the labels back.
#[test]
fn test_name_encode_then_decode() {
    let wire = encode_domain_name("mail.google.com");
    assert_eq!(
        vec![4, b'm', b'a', b'i', b'l', 6, b'g', b'o', b'o', b'g', b'l', b'e', 3, b'c', b'o', b'm', 0],
        wire
    );
    let mut offset = 0_usize;
    let back = Labels::parse(&wire, &mut offset).unwrap();
    assert_eq!(wire.len(), offset);
    assert_eq!("mail.google.com", back.encode_to_str());
}

// Label decoding then re-encoding reproduces pointer-free wire bytes.
#[test]
fn test_name_decode_then_encode() {
    let wire = [5, b'b', b'a', b'i', b'd', b'u', 3, b'c', b'o', b'm', 0];
    let mut offset = 0_usize;
    let labels = Labels::parse(&wire, &mut offset).unwrap();
    let again = encode_domain_name(labels.encode_to_str().as_str());
    assert_eq!(wire.to_vec(), again);
}

// A 63-byte label is accepted; a 64-byte length octet is malformed.
#[test]
fn test_label_length_limits() {
    let mut wire: Vec<u8> = vec![63];
    for _ in 0..63 {
        wire.push(b'a');
    }
    wire.push(0);
    let mut offset = 0_usize;
    assert!(Labels::parse(&wire, &mut offset).is_ok());

    let mut wire: Vec<u8> = vec![64];
    for _ in 0..64 {
        wire.push(b'a');
    }
    wire.push(0);
    let mut offset = 0_usize;
    assert!(Labels::parse(&wire, &mut offset).is_err());
}

// A name of exactly 255 wire bytes is accepted; 256 is rejected.
#[test]
fn test_name_total_length_limits() {
    // three 63-byte labels and one 61-byte label: 3*64 + 62 + 1 = 255
    let mut wire: Vec<u8> = Vec::new();
    for _ in 0..3 {
        wire.push(63);
        for _ in 0..63 {
            wire.push(b'a');
        }
    }
    wire.push(61);
    for _ in 0..61 {
        wire.push(b'a');
    }
    wire.push(0);
    assert_eq!(255, wire.len());
    let mut offset = 0_usize;
    assert!(Labels::parse(&wire, &mut offset).is_ok());

    // one byte more: 256 bytes in all is malformed
    let mut wire: Vec<u8> = Vec::new();
    for _ in 0..3 {
        wire.push(63);
        for _ in 0..63 {
            wire.push(b'a');
        }
    }
    wire.push(62);
    for _ in 0..62 {
        wire.push(b'a');
    }
    wire.push(0);
    assert_eq!(256, wire.len());
    let mut offset = 0_usize;
    assert!(Labels::parse(&wire, &mut offset).is_err());
}

// A pointer at or past its own position is rejected; so is one pointing
// outside the buffer.
#[test]
fn test_pointer_guards() {
    // pointer at position 0 to offset 0: back at itself
    let wire = [0xC0_u8, 0x00];
    let mut offset = 0_usize;
    assert!(Labels::parse(&wire, &mut offset).is_err());

    // pointer to an offset beyond its own position
    let wire = [5, b'b', b'a', b'i', b'd', b'u', 0xC0, 0x10];
    let mut offset = 0_usize;
    assert!(Labels::parse(&wire, &mut offset).is_err());
}

// A pointer strictly before its own position is followed.
#[test]
fn test_pointer_followed() {
    let wire = [3, b'c', b'o', b'm', 0, 5, b'b', b'a', b'i', b'd', b'u', 0xC0, 0x00];
    let mut offset = 5_usize;
    let labels = Labels::parse(&wire, &mut offset).unwrap();
    assert_eq!("baidu.com", labels.encode_to_str());
    assert_eq!(13, offset);
}
