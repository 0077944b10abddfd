use rsdns::header::Header;

#[test]
pub fn test_header_id() {
    let head = Header::from([1, 2, 0, 0, 0, 0, 0, 0, 0, 0, 0, 0]);
    assert_eq!(258, head.id());
}

#[test]
pub fn test_header_with_id() {
    let mut head = Header::from([0; 12]);
    head.with_id(12);
    assert_eq!(12, head.id());
}

#[test]
pub fn test_header_qr() {
    let mut head = Header::from([0, 0, 0xFF, 0, 0, 0, 0, 0, 0, 0, 0, 0]);
    assert_eq!(true, head.qr());
    head = Header::from([0, 0, 0xF, 0, 0, 0, 0, 0, 0, 0, 0, 0]);
    assert_eq!(false, head.qr());
}

#[test]
pub fn test_header_with_qr() {
    let mut head = Header::from([0; 12]);
    head.with_qr(false);
    assert_eq!(false, head.qr());
    head.with_qr(true);
    assert_eq!(true, head.qr());
    head.with_qr(false);
    assert_eq!(false, head.qr());
}

#[test]
pub fn test_header_opcode() {
    let mut head = Header::from([0, 0, u8::MAX, 0, 0, 0, 0, 0, 0, 0, 0, 0]);
    assert_eq!(15, head.opcode());
    head = Header::from([0, 0, 0b0111_1000, 0, 0, 0, 0, 0, 0, 0, 0, 0]);
    assert_eq!(15, head.opcode());
    head = Header::from([0, 0, 0b0000_1000, 0, 0, 0, 0, 0, 0, 0, 0, 0]);
    assert_eq!(1, head.opcode());
}

#[test]
pub fn test_header_with_opcode() {
    let mut head = Header::from([0; 12]);
    head.with_opcode(12);
    assert_eq!(12, head.opcode());
    head.with_opcode(99);
    assert_eq!(12, head.opcode());
    head.with_opcode(15);
    assert_eq!(15, head.opcode());
}

#[test]
pub fn test_header_aa() {
    let mut head = Header::from([0, 0, u8::MAX, 0, 0, 0, 0, 0, 0, 0, 0, 0]);
    assert_eq!(true, head.aa());
    head = Header::from([0, 0, 64, 0, 0, 0, 0, 0, 0, 0, 0, 0]);
    assert_eq!(false, head.aa());
}

#[test]
pub fn test_header_with_aa() {
    let mut head = Header::from([0; 12]);
    head.with_aa(true);
    assert_eq!(true, head.aa());
    head.with_aa(false);
    assert_eq!(false, head.aa());
}

#[test]
pub fn test_header_tc() {
    let mut head = Header::from([0, 0, u8::MAX, 0, 0, 0, 0, 0, 0, 0, 0, 0]);
    assert_eq!(true, head.tc());
    head = Header::from([0, 0, 0b0000_0010, 0, 0, 0, 0, 0, 0, 0, 0, 0]);
    assert_eq!(true, head.tc());
    head = Header::from([0, 0, 0b0000_0000, 0, 0, 0, 0, 0, 0, 0, 0, 0]);
    assert_eq!(false, head.tc());
}

#[test]
pub fn test_header_with_tc() {
    let mut head = Header::from([0; 12]);
    head.with_tc(true);
    assert_eq!(true, head.tc());
    head.with_tc(false);
    assert_eq!(false, head.tc());
}

#[test]
pub fn test_header_rd() {
    let mut head = Header::from([0, 0, u8::MAX, 0, 0, 0, 0, 0, 0, 0, 0, 0]);
    assert_eq!(true, head.rd());
    head = Header::from([0, 0, 0b0000_0001, 0, 0, 0, 0, 0, 0, 0, 0, 0]);
    assert_eq!(true, head.rd());
    head = Header::from([0, 0, 0b0000_0010, 0, 0, 0, 0, 0, 0, 0, 0, 0]);
    assert_eq!(false, head.rd());
}

#[test]
pub fn test_header_with_rd() {
    let mut head = Header::from([0; 12]);
    head.with_rd(true);
    assert_eq!(true, head.rd());
    head.with_rd(false);
    assert_eq!(false, head.rd());
}

#[test]
pub fn test_header_ra() {
    let mut head = Header::from([0, 0, 0, 0b1000_0000, 0, 0, 0, 0, 0, 0, 0, 0]);
    assert_eq!(true, head.ra());
    head = Header::from([0, 0, 0, u8::MAX, 0, 0, 0, 0, 0, 0, 0, 0]);
    assert_eq!(true, head.ra());
    head = Header::from([0, 0, 0, 0b0100_0000, 0, 0, 0, 0, 0, 0, 0, 0]);
    assert_eq!(false, head.ra());
}

#[test]
pub fn test_header_with_ra() {
    let mut head = Header::from([0; 12]);
    head.with_ra(true);
    assert_eq!(true, head.ra());
    head.with_ra(false);
    assert_eq!(false, head.ra());
}

#[test]
pub fn test_header_z() {
    let head = Header::from([0, 0, 0, 0b0111_0000, 0, 0, 0, 0, 0, 0, 0, 0]);
    assert_eq!(7, head.z());
}

#[test]
pub fn test_header_with_z() {
    let mut head = Header::from([0; 12]);
    head.with_z(1);
    assert_eq!(1, head.z());
    head.with_z(7);
    assert_eq!(7, head.z());
    head.with_z(8);
    assert_eq!(7, head.z());
}

#[test]
pub fn test_header_rcode() {
    let mut head = Header::from([0, 0, 0, 0b0000_1111, 0, 0, 0, 0, 0, 0, 0, 0]);
    assert_eq!(15, head.rcode());
    head = Header::from([0, 0, 0, 0b0000_0111, 0, 0, 0, 0, 0, 0, 0, 0]);
    assert_eq!(7, head.rcode());
}

#[test]
pub fn test_header_with_rcode() {
    let mut head = Header::from([0; 12]);
    head.with_rcode(1);
    assert_eq!(1, head.rcode());
    head.with_rcode(7);
    assert_eq!(7, head.rcode());
    head.with_rcode(15);
    assert_eq!(15, head.rcode());
    head.with_rcode(16);
    assert_eq!(15, head.rcode());
}

#[test]
pub fn test_header_qdcount() {
    let head = Header::from([0, 0, 0, 14, 2, 4, 0, 0, 0, 0, 0, 0]);
    assert_eq!(516, head.qdcount());
}

#[test]
pub fn test_header_with_qdcount() {
    let mut head = Header::from([0; 12]);
    head.with_qdcount(16);
    assert_eq!(16, head.qdcount());
    head.with_qdcount(516);
    assert_eq!(2, head.get_0()[4]);
    assert_eq!(4, head.get_0()[5]);
}

#[test]
pub fn test_header_ancount() {
    let head = Header::from([0, 0, 0, 14, 0, 0, 2, 4, 0, 0, 0, 0]);
    assert_eq!(516, head.ancount());
}

#[test]
pub fn test_header_with_ancount() {
    let mut head = Header::from([0; 12]);
    head.with_ancount(16);
    assert_eq!(16, head.ancount());
    head.with_ancount(516);
    assert_eq!(2, head.get_0()[6]);
    assert_eq!(4, head.get_0()[7]);
}

#[test]
pub fn test_header_nscount() {
    let head = Header::from([0, 0, 0, 14, 0, 0, 0, 0, 2, 4, 0, 0]);
    assert_eq!(516, head.nscount());
}

#[test]
pub fn test_header_with_nscount() {
    let mut head = Header::from([0; 12]);
    head.with_nscount(16);
    assert_eq!(16, head.nscount());
    head.with_nscount(516);
    assert_eq!(2, head.get_0()[8]);
    assert_eq!(4, head.get_0()[9]);
}

#[test]
pub fn test_header_arcount() {
    let head = Header::from([0, 0, 0, 14, 0, 0, 0, 0, 0, 0, 2, 4]);
    assert_eq!(516, head.arcount());
}

#[test]
pub fn test_header_with_arcount() {
    let mut head = Header::from([0; 12]);
    head.with_arcount(16);
    assert_eq!(16, head.arcount());
    head.with_arcount(516);
    assert_eq!(2, head.get_0()[10]);
    assert_eq!(4, head.get_0()[11]);
}

#[test]
pub fn test_header_bytes_roundtrip() {
    let raw = [0x12, 0x34, 0b1010_0101, 0b1011_0110, 0, 1, 0, 2, 0, 3, 0, 4];
    let head = Header::from(raw);
    assert_eq!(raw, head.get_0());
}
