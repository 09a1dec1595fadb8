use nebuladns::metrics::{Proto, QTypeLabel, RcodeLabel};
use nebuladns::server::{respond, tcp_frame, tcp_message_len};
use nebuladns::wire::{Message, Name, QClass, QType, Question, RCode, RData};
use nebuladns::zone::registry::ZoneRegistry;
use nebuladns::zone::toml_schema::{Record, Soa, ZoneDoc};
use nebuladns::zone::Zone;

fn rec(name: &str, rtype: &str, value: &str) -> Record {
    Record { name: name.into(), rtype: rtype.into(), value: value.into(), ttl: None }
}

fn registry() -> ZoneRegistry {
    let doc = ZoneDoc {
        origin: "example.com.".into(),
        default_ttl: 300,
        soa: Soa {
            mname: "ns1.example.com.".into(),
            rname: "hostmaster.example.com.".into(),
            serial: 2026041701,
            refresh: 10800,
            retry: 3600,
            expire: 604800,
            minimum: 300,
            ttl: None,
        },
        records: vec![
            rec("@", "NS", "ns1.example.com."),
            rec("ns1", "A", "192.0.2.1"),
            rec("www", "A", "192.0.2.10"),
            rec("www", "A", "192.0.2.11"),
        ],
    };
    let mut zones = ZoneRegistry::new();
    zones.replace(vec![Zone::from_doc(doc).unwrap()]);
    zones
}

fn build_query(id: u16, name: &str, qtype: QType) -> Vec<u8> {
    let mut msg = Message::default();
    msg.header.id = id;
    msg.header.flags.rd = false;
    msg.header.qdcount = 1;
    msg.questions.push(Question { qname: Name::from_ascii(name).unwrap(), qtype, qclass: QClass::IN() });
    let mut buf = vec![0u8; 512];
    let n = msg.encode(&mut buf).unwrap();
    buf.truncate(n);
    buf
}

#[test]
fn udp_query_returns_a_records() {
    let zones = registry();
    let out = respond(&build_query(0xBEEF, "www.example.com", QType::A()), &zones, Proto::Udp);
    let resp = Message::decode(&out.bytes).unwrap();
    assert_eq!(resp.header.id, 0xBEEF);
    assert!(resp.header.flags.qr);
    assert!(resp.header.flags.aa);
    assert_eq!(resp.header.rcode, RCode::NoError);
    assert_eq!(resp.answers.len(), 2);
    let ips: Vec<[u8; 4]> = resp
        .answers
        .iter()
        .filter_map(|rr| match &rr.data {
            RData::A(ip) => Some(*ip),
            _ => None,
        })
        .collect();
    assert!(ips.contains(&[192, 0, 2, 10]));
    assert!(ips.contains(&[192, 0, 2, 11]));
    let labels = out.labels.unwrap();
    assert_eq!(labels.proto, Proto::Udp);
    assert_eq!(labels.qtype, QTypeLabel::A);
    assert_eq!(labels.rcode, RcodeLabel::NoError);
}

#[test]
fn udp_nxdomain_response_includes_soa() {
    let zones = registry();
    let out = respond(&build_query(1, "nope.example.com", QType::A()), &zones, Proto::Udp);
    let resp = Message::decode(&out.bytes).unwrap();
    assert_eq!(resp.header.rcode, RCode::NxDomain);
    assert_eq!(resp.authority.len(), 1);
    assert!(matches!(resp.authority[0].data, RData::Soa(_)));
}

#[test]
fn tcp_query_with_length_prefix() {
    let zones = registry();
    let q = build_query(0xCAFE, "www.example.com", QType::A());
    let framed = tcp_frame(&q).unwrap();
    let len = tcp_message_len([framed[0], framed[1]]);
    assert_eq!(len, q.len());
    let out = respond(&framed[2..], &zones, Proto::Tcp);
    let resp = Message::decode(&out.bytes).unwrap();
    assert_eq!(resp.header.rcode, RCode::NoError);
    assert_eq!(resp.answers.len(), 2);
    let back = tcp_frame(&out.bytes).unwrap();
    assert_eq!(tcp_message_len([back[0], back[1]]), out.bytes.len());
}

#[test]
fn refused_for_out_of_zone_query() {
    let zones = registry();
    let out = respond(&build_query(2, "www.not-in-our-zone.com", QType::A()), &zones, Proto::Udp);
    let resp = Message::decode(&out.bytes).unwrap();
    assert_eq!(resp.header.rcode, RCode::Refused);
    assert!(!resp.header.flags.aa);
}

#[test]
fn soa_query_returns_soa_record() {
    let zones = registry();
    let out = respond(&build_query(3, "example.com", QType::SOA()), &zones, Proto::Udp);
    let resp = Message::decode(&out.bytes).unwrap();
    assert_eq!(resp.header.rcode, RCode::NoError);
    assert_eq!(resp.answers.len(), 1);
    assert!(matches!(resp.answers[0].data, RData::Soa(_)));
}

#[test]
fn malformed_query_is_dropped() {
    let zones = registry();
    let out = respond(&[1, 2, 3], &zones, Proto::Udp);
    assert!(out.bytes.is_empty());
    assert!(out.labels.is_none());
}

#[test]
fn oversized_tcp_response_cannot_be_framed() {
    let big = vec![0u8; 70000];
    assert!(tcp_frame(&big).is_none());
    assert_eq!(tcp_message_len([1, 2]), 258);
}
