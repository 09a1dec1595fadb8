use nebuladns::wire::{
    EncodeCtx, Header, Message, Name, OpCode, ParseError, QClass, QType, Question, RCode, RData,
    ResourceRecord, Soa,
};
use nebuladns::wire::Edns;

fn roundtrip(rr: ResourceRecord) {
    let mut buf = vec![0u8; 512];
    let mut ctx = EncodeCtx::new();
    let n = rr.encode(&mut buf, 0, &mut ctx).unwrap();
    let (decoded, end) = ResourceRecord::decode(&buf[..n], 0).unwrap();
    assert_eq!(decoded, rr);
    assert_eq!(end, n);
}

#[test]
fn roundtrip_a() {
    roundtrip(ResourceRecord {
        name: Name::from_ascii("www.example.com").unwrap(),
        class: QClass::IN(),
        ttl: 300,
        data: RData::A([192, 0, 2, 1]),
    });
}

#[test]
fn roundtrip_aaaa() {
    let addr = nebuladns::addr::parse_ipv6(b"2001:db8::1").unwrap();
    roundtrip(ResourceRecord {
        name: Name::from_ascii("www.example.com").unwrap(),
        class: QClass::IN(),
        ttl: 300,
        data: RData::Aaaa(addr),
    });
}

#[test]
fn roundtrip_mx() {
    roundtrip(ResourceRecord {
        name: Name::from_ascii("example.com").unwrap(),
        class: QClass::IN(),
        ttl: 3600,
        data: RData::Mx { preference: 10, exchange: Name::from_ascii("mail.example.com").unwrap() },
    });
}

#[test]
fn roundtrip_txt_multi_string() {
    roundtrip(ResourceRecord {
        name: Name::from_ascii("example.com").unwrap(),
        class: QClass::IN(),
        ttl: 300,
        data: RData::Txt(vec![b"v=spf1 -all".to_vec(), b"key=value".to_vec()]),
    });
}

#[test]
fn roundtrip_soa() {
    roundtrip(ResourceRecord {
        name: Name::from_ascii("example.com").unwrap(),
        class: QClass::IN(),
        ttl: 3600,
        data: RData::Soa(Soa {
            mname: Name::from_ascii("ns1.example.com").unwrap(),
            rname: Name::from_ascii("hostmaster.example.com").unwrap(),
            serial: 2026_04_17_01,
            refresh: 10_800,
            retry: 3_600,
            expire: 604_800,
            minimum: 300,
        }),
    });
}

#[test]
fn roundtrip_srv() {
    roundtrip(ResourceRecord {
        name: Name::from_ascii("_sip._tcp.example.com").unwrap(),
        class: QClass::IN(),
        ttl: 60,
        data: RData::Srv {
            priority: 10,
            weight: 20,
            port: 5060,
            target: Name::from_ascii("sip.example.com").unwrap(),
        },
    });
}

#[test]
fn roundtrip_caa() {
    roundtrip(ResourceRecord {
        name: Name::from_ascii("example.com").unwrap(),
        class: QClass::IN(),
        ttl: 300,
        data: RData::Caa { flags: 0, tag: b"issue".to_vec(), value: b"letsencrypt.org".to_vec() },
    });
}

#[test]
fn unknown_rtype_preserved_verbatim() {
    roundtrip(ResourceRecord {
        name: Name::from_ascii("example.com").unwrap(),
        class: QClass::IN(),
        ttl: 60,
        data: RData::Unknown { rtype: QType(99), data: vec![1, 2, 3, 4, 5] },
    });
}

fn sample_query() -> Message {
    let mut header = Header::default();
    header.id = 0x1234;
    header.flags.rd = true;
    header.qdcount = 1;
    Message {
        header,
        questions: vec![Question {
            qname: Name::from_ascii("www.example.com").unwrap(),
            qtype: QType::A(),
            qclass: QClass::IN(),
        }],
        ..Default::default()
    }
}

#[test]
fn roundtrip_empty_query() {
    let msg = sample_query();
    let mut buf = vec![0u8; 512];
    let n = msg.encode(&mut buf).unwrap();
    let back = Message::decode(&buf[..n]).unwrap();
    assert_eq!(back, msg);
}

#[test]
fn roundtrip_response_with_answer() {
    let mut msg = sample_query();
    msg.header.flags.qr = true;
    msg.header.flags.aa = true;
    msg.header.rcode = RCode::NoError;
    msg.header.opcode = OpCode::Query;
    msg.answers.push(ResourceRecord {
        name: Name::from_ascii("www.example.com").unwrap(),
        class: QClass::IN(),
        ttl: 300,
        data: RData::A([192, 0, 2, 10]),
    });
    let mut buf = vec![0u8; 512];
    let n = msg.encode(&mut buf).unwrap();
    let back = Message::decode(&buf[..n]).unwrap();
    assert_eq!(back.header.qdcount, 1);
    assert_eq!(back.header.ancount, 1);
    assert_eq!(back.answers, msg.answers);
    assert_eq!(back.questions, msg.questions);
}

#[test]
fn edns_roundtrip() {
    let mut msg = sample_query();
    msg.edns = Some(Edns { udp_payload_size: 4096, extended_rcode: 0, version: 0, do_bit: true, options: Vec::new() });
    let mut buf = vec![0u8; 512];
    let n = msg.encode(&mut buf).unwrap();
    let back = Message::decode(&buf[..n]).unwrap();
    assert!(back.edns.is_some());
    let back_edns = back.edns.unwrap();
    assert_eq!(back_edns.udp_payload_size, 4096);
    assert!(back_edns.do_bit);
    assert_eq!(back.header.arcount, 1);
    assert!(back.additional.is_empty());
}

#[test]
fn decode_rejects_garbage() {
    for len in 0..20 {
        let bytes = vec![0xFFu8; len];
        let _ = Message::decode(&bytes);
    }
}

#[test]
fn message_encode_reports_short_buffer() {
    let msg = sample_query();
    let mut buf = vec![0u8; 8];
    assert!(matches!(msg.encode(&mut buf), Err(ParseError::OutputBufferTooSmall { need: 12, have: 8 })));
}

#[test]
fn edns_default_payload_size() {
    let e = Edns::default();
    assert_eq!(e.udp_payload_size, 1232);
    assert!(!e.do_bit);
}

#[test]
fn shared_suffix_decodes_up_to_case() {
    let mut msg = sample_query();
    msg.questions[0].qname = Name::from_ascii("WWW.Example.COM").unwrap();
    msg.answers.push(ResourceRecord {
        name: Name::from_ascii("www.example.com").unwrap(),
        class: QClass::IN(),
        ttl: 60,
        data: RData::Cname(Name::from_ascii("mail.EXAMPLE.com").unwrap()),
    });
    let mut buf = vec![0u8; 512];
    let n = msg.encode(&mut buf).unwrap();
    let back = Message::decode(&buf[..n]).unwrap();
    assert_eq!(back.answers[0].name.to_ascii(), "WWW.Example.COM.");
    match &back.answers[0].data {
        RData::Cname(t) => assert_eq!(t.to_ascii(), "mail.Example.COM."),
        _ => panic!("expected CNAME"),
    }
    assert!(back.answers[0].name.eq_ignore_ascii_case(&msg.answers[0].name));
}

#[test]
fn rdata_encode_reports_the_failing_step() {
    let mut ctx = EncodeCtx::new();
    let mut two = [0u8; 2];
    assert!(matches!(
        RData::A([192, 0, 2, 1]).encode(&mut two, 0, &mut ctx),
        Err(ParseError::OutputBufferTooSmall { need: 4, have: 2 })
    ));
    let mut one = [0u8; 1];
    let mx = RData::Mx { preference: 10, exchange: Name::from_ascii("mail.example.com.").unwrap() };
    assert!(matches!(mx.encode(&mut one, 0, &mut ctx), Err(ParseError::OutputBufferTooSmall { need: 2, have: 1 })));
    let mut big = [0u8; 512];
    let caa = RData::Caa { flags: 0, tag: vec![b'x'; 300], value: b"v".to_vec() };
    assert!(matches!(caa.encode(&mut big, 0, &mut ctx), Err(ParseError::LabelTooLong { len: 300 })));
    let txt = RData::Txt(vec![b"ok".to_vec(), vec![b'y'; 256]]);
    assert!(matches!(txt.encode(&mut big, 0, &mut ctx), Err(ParseError::LabelTooLong { len: 256 })));
    let mut five = [0u8; 5];
    let txt = RData::Txt(vec![b"abc".to_vec(), b"defg".to_vec()]);
    assert!(matches!(txt.encode(&mut five, 0, &mut ctx), Err(ParseError::OutputBufferTooSmall { need: 9, have: 5 })));
}

#[test]
fn record_encode_reports_short_header_room() {
    let rr = ResourceRecord {
        name: Name::from_ascii("a.b").unwrap(),
        class: QClass::IN(),
        ttl: 60,
        data: RData::A([10, 0, 0, 1]),
    };
    let mut buf = [0u8; 8];
    let mut ctx = EncodeCtx::new();
    // The 5-byte owner name fits; the 10 fixed bytes after it do not.
    assert!(matches!(rr.encode(&mut buf, 0, &mut ctx), Err(ParseError::OutputBufferTooSmall { need: 15, have: 8 })));
}

#[test]
fn lowercase_names_round_trip_exactly() {
    let mut msg = sample_query();
    msg.questions[0].qname = Name::from_ascii("www.example.com").unwrap();
    msg.answers.push(ResourceRecord {
        name: Name::from_ascii("www.example.com").unwrap(),
        class: QClass::IN(),
        ttl: 60,
        data: RData::Mx { preference: 10, exchange: Name::from_ascii("mail.example.com").unwrap() },
    });
    let mut buf = vec![0u8; 512];
    let n = msg.encode(&mut buf).unwrap();
    let back = Message::decode(&buf[..n]).unwrap();
    assert_eq!(back.questions, msg.questions);
    assert_eq!(back.answers, msg.answers);
}
