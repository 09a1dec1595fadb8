use nebuladns::wire::{EncodeCtx, Name, ParseError, QClass, QType, Question};

#[test]
fn root_roundtrip() {
    let n = Name::root();
    let mut buf = [0u8; 1];
    let len = n.encode(&mut buf).unwrap();
    assert_eq!(len, 1);
    assert_eq!(buf, [0]);
    let (decoded, end) = Name::decode(&buf, 0).unwrap();
    assert_eq!(decoded, n);
    assert_eq!(end, 1);
}

#[test]
fn simple_name_roundtrip() {
    let n = Name::from_ascii("example.com").unwrap();
    let mut buf = vec![0u8; n.wire_len()];
    n.encode(&mut buf).unwrap();
    let (decoded, end) = Name::decode(&buf, 0).unwrap();
    assert_eq!(decoded, n);
    assert_eq!(end, buf.len());
}

#[test]
fn trailing_dot_is_tolerated() {
    let a = Name::from_ascii("example.com.").unwrap();
    let b = Name::from_ascii("example.com").unwrap();
    assert_eq!(a, b);
}

#[test]
fn oversize_label_rejected() {
    let long = "a".repeat(64);
    assert!(matches!(Name::from_ascii(&long), Err(ParseError::LabelTooLong { .. })));
}

#[test]
fn empty_middle_label_rejected() {
    assert!(matches!(Name::from_ascii("foo..bar"), Err(ParseError::LabelTooLong { .. })));
}

#[test]
fn decode_follows_pointer() {
    let base = Name::from_ascii("example.com").unwrap();
    let mut buf = vec![0u8; base.wire_len() + 2];
    base.encode(&mut buf[..base.wire_len()]).unwrap();
    buf[base.wire_len()] = 0xC0;
    buf[base.wire_len() + 1] = 0x00;
    let (decoded, end) = Name::decode(&buf, base.wire_len()).unwrap();
    assert_eq!(decoded, base);
    assert_eq!(end, base.wire_len() + 2);
}

#[test]
fn pointer_forward_rejected() {
    let buf = [0xC0u8, 0x05, 0x00, 0x00, 0x00, 0x00];
    assert!(matches!(Name::decode(&buf, 0), Err(ParseError::InvalidCompression(_))));
}

#[test]
fn pointer_self_reference_rejected() {
    let buf = [0xC0u8, 0x00];
    assert!(matches!(Name::decode(&buf, 0), Err(ParseError::InvalidCompression(_))));
}

#[test]
fn decode_does_not_panic_on_deep_chain() {
    let mut buf = vec![0u8; 512];
    buf[0] = 0;
    let mut prev: u16 = 0;
    let mut i = 1;
    while i + 2 <= buf.len() && i < 0x3FFF {
        buf[i] = 0xC0 | u8::try_from((prev >> 8) & 0x3F).unwrap();
        buf[i + 1] = (prev & 0xFF) as u8;
        prev = u16::try_from(i).unwrap();
        i += 2;
    }
    let _ = Name::decode(&buf, (i - 2) as usize);
}

#[test]
fn encode_ctx_compresses_shared_suffix() {
    let a = Name::from_ascii("www.example.com").unwrap();
    let b = Name::from_ascii("mail.example.com").unwrap();
    let mut buf = vec![0u8; 64];
    let mut ctx = EncodeCtx::new();
    let n1 = ctx.write_name(&a, &mut buf, 0).unwrap();
    let n2 = ctx.write_name(&b, &mut buf[n1..], n1).unwrap();
    assert_eq!(n1, 17);
    assert_eq!(n2, 7);
    let total = &buf[..n1 + n2];
    let (decoded_a, pos_a) = Name::decode(total, 0).unwrap();
    let (decoded_b, pos_b) = Name::decode(total, pos_a).unwrap();
    assert_eq!(decoded_a, a);
    assert_eq!(decoded_b, b);
    assert_eq!(pos_b, n1 + n2);
}

#[test]
fn encode_ctx_case_insensitive_suffix_dedup() {
    let a = Name::from_ascii("www.Example.COM").unwrap();
    let b = Name::from_ascii("mail.example.com").unwrap();
    let mut buf = vec![0u8; 64];
    let mut ctx = EncodeCtx::new();
    let n1 = ctx.write_name(&a, &mut buf, 0).unwrap();
    let n2 = ctx.write_name(&b, &mut buf[n1..], n1).unwrap();
    assert_eq!(n2, 7);
}

#[test]
fn name_too_long_rejected() {
    let label = "a".repeat(63);
    let s = format!("{label}.{label}.{label}.{label}");
    assert!(matches!(Name::from_ascii(&s), Err(ParseError::NameTooLong { len: 257 })));
}

#[test]
fn case_insensitive_equality_and_lowercase() {
    let a = Name::from_ascii("WwW.Example.CoM").unwrap();
    let b = Name::from_ascii("www.example.com").unwrap();
    assert!(a.eq_ignore_ascii_case(&b));
    assert_ne!(a, b);
    assert_eq!(a.to_ascii_lowercase(), b);
    assert_eq!(b.wire_len(), 17);
    assert!(Name::root().is_root());
    assert_eq!(b.labels().len(), 3);
}

#[test]
fn write_name_reports_short_buffer() {
    let a = Name::from_ascii("www.example.com").unwrap();
    let mut buf = vec![0u8; 10];
    let mut ctx = EncodeCtx::new();
    assert!(matches!(
        ctx.write_name(&a, &mut buf, 0),
        Err(ParseError::OutputBufferTooSmall { have: 10, .. })
    ));
}

#[test]
fn roundtrip_a_question() {
    let q = Question {
        qname: Name::from_ascii("www.example.com").unwrap(),
        qtype: QType::A(),
        qclass: QClass::IN(),
    };
    let mut buf = vec![0u8; q.wire_len()];
    q.encode(&mut buf).unwrap();
    let (decoded, end) = Question::decode(&buf, 0).unwrap();
    assert_eq!(decoded, q);
    assert_eq!(end, buf.len());
}

#[test]
fn roundtrip_root_axfr_question() {
    let q = Question { qname: Name::root(), qtype: QType::AXFR(), qclass: QClass::IN() };
    let mut buf = vec![0u8; q.wire_len()];
    q.encode(&mut buf).unwrap();
    let (decoded, _) = Question::decode(&buf, 0).unwrap();
    assert_eq!(decoded, q);
}

#[test]
fn truncated_qtype_tail_rejected() {
    let n = Name::from_ascii("example.com").unwrap();
    let mut buf = vec![0u8; n.wire_len()];
    n.encode(&mut buf).unwrap();
    assert!(matches!(Question::decode(&buf, 0), Err(ParseError::UnexpectedEof { .. })));
}

fn wire_of(label_lens: &[usize]) -> Vec<u8> {
    let mut buf = Vec::new();
    for &len in label_lens {
        buf.push(len as u8);
        buf.extend(std::iter::repeat(b'a').take(len));
    }
    buf.push(0);
    buf
}

#[test]
fn decode_accepts_255_byte_name() {
    let buf = wire_of(&[63, 63, 63, 61]);
    assert_eq!(buf.len(), 255);
    let (n, end) = Name::decode(&buf, 0).unwrap();
    assert_eq!(end, 255);
    assert_eq!(n.wire_len(), 255);
}

#[test]
fn decode_rejects_256_byte_name() {
    let buf = wire_of(&[63, 63, 63, 62]);
    assert_eq!(buf.len(), 256);
    assert!(matches!(Name::decode(&buf, 0), Err(ParseError::NameTooLong { len: 256 })));
}

#[test]
fn from_labels_counts_the_terminator() {
    let ok: Vec<Vec<u8>> = [63usize, 63, 63, 61].iter().map(|&l| vec![b'a'; l]).collect();
    assert_eq!(Name::from_labels(ok).unwrap().wire_len(), 255);
    let long: Vec<Vec<u8>> = [63usize, 63, 63, 62].iter().map(|&l| vec![b'a'; l]).collect();
    assert!(matches!(Name::from_labels(long), Err(ParseError::NameTooLong { len: 256 })));
}
