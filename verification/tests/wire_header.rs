use nebuladns::wire::{Flags, Header, OpCode, ParseError, RCode, HEADER_LEN};

#[test]
fn roundtrip_default_header() {
    let h = Header::default();
    let mut buf = [0u8; HEADER_LEN];
    let n = h.encode(&mut buf).unwrap();
    assert_eq!(n, HEADER_LEN);
    let decoded = Header::decode(&buf).unwrap();
    assert_eq!(h, decoded);
}

#[test]
fn roundtrip_response_header() {
    let h = Header {
        id: 0xABCD,
        flags: Flags { qr: true, aa: true, tc: false, rd: true, ra: true, ad: false, cd: false },
        opcode: OpCode::Query,
        rcode: RCode::NxDomain,
        qdcount: 1,
        ancount: 0,
        nscount: 1,
        arcount: 0,
    };
    let mut buf = [0u8; HEADER_LEN];
    h.encode(&mut buf).unwrap();
    let decoded = Header::decode(&buf).unwrap();
    assert_eq!(h, decoded);
}

#[test]
fn truncated_header_rejected() {
    let buf = [0u8; 5];
    assert!(matches!(Header::decode(&buf), Err(ParseError::TruncatedHeader { got: 5 })));
}

#[test]
fn reserved_z_bit_rejected() {
    let mut buf = [0u8; HEADER_LEN];
    buf[3] = 0b0100_0000;
    assert!(matches!(Header::decode(&buf), Err(ParseError::ReservedBitsSet { .. })));
}

#[test]
fn ad_and_cd_accepted_and_roundtrip() {
    let h = Header {
        id: 1,
        flags: Flags { ad: true, cd: true, rd: true, ..Default::default() },
        opcode: OpCode::Query,
        rcode: RCode::NoError,
        qdcount: 1,
        ancount: 0,
        nscount: 0,
        arcount: 0,
    };
    let mut buf = [0u8; HEADER_LEN];
    h.encode(&mut buf).unwrap();
    let back = Header::decode(&buf).unwrap();
    assert_eq!(back, h);
    assert!(back.flags.ad && back.flags.cd);
}

#[test]
fn notify_opcode_roundtrips() {
    let h = Header { opcode: OpCode::Notify, ..Header::default() };
    let mut buf = [0u8; HEADER_LEN];
    h.encode(&mut buf).unwrap();
    let decoded = Header::decode(&buf).unwrap();
    assert_eq!(decoded.opcode, OpCode::Notify);
}

#[test]
fn unknown_opcode_rejected() {
    let mut buf = [0u8; HEADER_LEN];
    buf[2] = (6 & 0x0F) << 3;
    assert!(matches!(Header::decode(&buf), Err(ParseError::UnknownOpCode(6))));
}

#[test]
fn output_buffer_too_small_rejected() {
    let h = Header::default();
    let mut buf = [0u8; 5];
    assert!(matches!(h.encode(&mut buf), Err(ParseError::OutputBufferTooSmall { .. })));
}

#[test]
fn header_bytes_are_exact() {
    let h = Header {
        id: 0x1234,
        flags: Flags { qr: true, aa: true, tc: true, rd: true, ra: true, ad: true, cd: true },
        opcode: OpCode::Update,
        rcode: RCode::Refused,
        qdcount: 1,
        ancount: 2,
        nscount: 3,
        arcount: 0x0405,
    };
    let mut buf = [0xEEu8; 14];
    assert_eq!(h.encode(&mut buf), Ok(12));
    assert_eq!(buf, [0x12, 0x34, 0xAF, 0xB5, 0, 1, 0, 2, 0, 3, 4, 5, 0xEE, 0xEE]);
}

#[test]
fn unassigned_rcode_reads_as_servfail() {
    assert_eq!(RCode::from_u8(11), RCode::ServFail);
    assert_eq!(RCode::from_u8(3), RCode::NxDomain);
    assert_eq!(RCode::NotZone.as_u8(), 10);
    assert_eq!(OpCode::Notify.as_u8(), 4);
    assert!(matches!(OpCode::from_u8(3), Err(ParseError::UnknownOpCode(3))));
}
