use nebuladns::wire::{Name, QType, RData};
use nebuladns::zone::rdata::{parse_rdata, rdata_presentation};
use nebuladns::zone::toml_schema::{Record, Soa, ZoneDoc};
use nebuladns::zone::{Zone, ZoneError};

fn record(name: &str, rtype: &str, value: &str) -> Record {
    Record { name: name.to_string(), rtype: rtype.to_string(), value: value.to_string(), ttl: None }
}

fn doc(serial: u32, records: Vec<Record>) -> ZoneDoc {
    ZoneDoc {
        origin: "example.com.".to_string(),
        default_ttl: 300,
        soa: Soa {
            mname: "ns1.example.com.".to_string(),
            rname: "hostmaster.example.com.".to_string(),
            serial,
            refresh: 10800,
            retry: 3600,
            expire: 604800,
            minimum: 300,
            ttl: None,
        },
        records,
    }
}

fn sample() -> Zone {
    Zone::from_doc(doc(
        2026041701,
        vec![
            record("@", "NS", "ns1.example.com."),
            record("@", "NS", "ns2.example.com."),
            record("ns1", "A", "192.0.2.1"),
            record("ns2", "A", "192.0.2.2"),
            record("www", "A", "192.0.2.10"),
            record("www", "A", "192.0.2.11"),
            record("www", "AAAA", "2001:db8::10"),
            record("@", "MX", "10 mail.example.com."),
            record("mail", "A", "192.0.2.25"),
        ],
    ))
    .unwrap()
}

fn small() -> Zone {
    Zone::from_doc(doc(1, vec![record("@", "NS", "ns1.example.com."), record("www", "A", "192.0.2.10")])).unwrap()
}

#[test]
fn loads_sample_zone() {
    let z = sample();
    assert_eq!(z.origin(), &Name::from_ascii("example.com").unwrap());
    let www = Name::from_ascii("www.example.com").unwrap();
    let a = z.find(&www, QType::A()).unwrap();
    assert_eq!(a.len(), 2);
    let aaaa = z.find(&www, QType::AAAA()).unwrap();
    assert_eq!(aaaa.len(), 1);
}

#[test]
fn case_insensitive_lookup() {
    let z = sample();
    let mixed = Name::from_ascii("WwW.Example.CoM").unwrap();
    let a = z.find(&mixed, QType::A()).unwrap();
    assert_eq!(a.len(), 2);
}

#[test]
fn ns_rrset_present() {
    let z = sample();
    let apex = Name::from_ascii("example.com").unwrap();
    let ns = z.find(&apex, QType::NS()).unwrap();
    assert_eq!(ns.len(), 2);
}

#[test]
fn soa_present() {
    let z = sample();
    let apex = Name::from_ascii("example.com").unwrap();
    assert!(z.find(&apex, QType::SOA()).is_some());
    match &z.soa().data {
        RData::Soa(soa) => assert_eq!(soa.serial, 2026_04_17_01),
        _ => panic!("expected SOA"),
    }
}

#[test]
fn owner_outside_origin_refused_at_load() {
    let r = Zone::from_doc(doc(1, vec![record("www.other.org.", "A", "192.0.2.1")]));
    assert!(matches!(r, Err(ZoneError::OwnerOutsideOrigin { .. })));
}

#[test]
fn bad_rdata_refused_at_load() {
    let r = Zone::from_doc(doc(1, vec![record("www", "A", "not-an-ip")]));
    assert!(matches!(r, Err(ZoneError::Rdata { .. })));
}

#[test]
fn upsert_cname_and_bump_serial() {
    let mut z = small();
    let owner = Name::from_ascii("app.example.com").unwrap();
    let out = z
        .upsert_rrset(owner.clone(), 5, vec![parse_rdata("CNAME", "west.example.net.").unwrap()])
        .unwrap();
    assert_eq!(out.serial, 2);
    let rrset = z.find(&owner, QType::CNAME()).unwrap();
    assert_eq!(rrset[0].ttl, 5);
    assert_eq!(z.serial(), 2);
}

#[test]
fn retarget_cname_replaces_rrset() {
    let mut z = small();
    let owner = Name::from_ascii("app.example.com").unwrap();
    z.upsert_rrset(owner.clone(), 5, vec![parse_rdata("CNAME", "west.example.net.").unwrap()]).unwrap();
    z.upsert_rrset(owner.clone(), 5, vec![parse_rdata("CNAME", "east.example.net.").unwrap()]).unwrap();
    let rrset = z.find(&owner, QType::CNAME()).unwrap();
    assert_eq!(rrset.len(), 1);
    match &rrset[0].data {
        RData::Cname(n) => assert_eq!(n.to_ascii(), "east.example.net."),
        _ => panic!("expected CNAME"),
    }
}

#[test]
fn cname_at_apex_rejected() {
    let mut z = small();
    let apex = Name::from_ascii("example.com").unwrap();
    let err = z
        .upsert_rrset(apex, 5, vec![parse_rdata("CNAME", "elsewhere.example.net.").unwrap()])
        .err().unwrap();
    assert!(matches!(err, ZoneError::CnameAtApex { .. }));
}

#[test]
fn cname_cannot_coexist_with_a() {
    let mut z = small();
    let www = Name::from_ascii("www.example.com").unwrap();
    let err = z.upsert_rrset(www, 5, vec![parse_rdata("CNAME", "other.example.net.").unwrap()]).err().unwrap();
    assert!(matches!(err, ZoneError::CnameConflict { .. }));
}

#[test]
fn soa_and_apex_ns_are_protected() {
    let mut z = small();
    let apex = Name::from_ascii("example.com").unwrap();
    assert!(matches!(z.delete_rrset(&apex, QType::SOA()).err().unwrap(), ZoneError::ProtectedRRset { .. }));
    assert!(matches!(z.delete_rrset(&apex, QType::NS()).err().unwrap(), ZoneError::ProtectedRRset { .. }));
}

#[test]
fn owner_outside_zone_rejected() {
    let mut z = small();
    let err = z
        .upsert_rrset(
            Name::from_ascii("www.not-example.com").unwrap(),
            5,
            vec![parse_rdata("A", "192.0.2.99").unwrap()],
        )
        .err().unwrap();
    assert!(matches!(err, ZoneError::OwnerOutsideOrigin { .. }));
}

#[test]
fn delete_then_add_cname_over_former_a() {
    let mut z = small();
    let www = Name::from_ascii("www.example.com").unwrap();
    z.delete_rrset(&www, QType::A()).unwrap();
    z.upsert_rrset(www.clone(), 5, vec![parse_rdata("CNAME", "cdn.example.net.").unwrap()]).unwrap();
    assert!(z.find(&www, QType::A()).is_none());
    assert_eq!(z.find(&www, QType::CNAME()).unwrap().len(), 1);
}

#[test]
fn empty_and_mixed_rrsets_rejected() {
    let mut z = small();
    let owner = Name::from_ascii("x.example.com").unwrap();
    assert!(matches!(z.upsert_rrset(owner.clone(), 5, vec![]), Err(ZoneError::EmptyRRset)));
    let mixed = vec![parse_rdata("A", "192.0.2.1").unwrap(), parse_rdata("AAAA", "2001:db8::1").unwrap()];
    assert!(matches!(z.upsert_rrset(owner.clone(), 5, mixed), Err(ZoneError::MixedRRset)));
    let two = vec![parse_rdata("CNAME", "a.example.net.").unwrap(), parse_rdata("CNAME", "b.example.net.").unwrap()];
    assert!(matches!(z.upsert_rrset(owner, 5, two), Err(ZoneError::CnameNotSingleton)));
}

#[test]
fn delete_missing_rrset_is_reported() {
    let mut z = small();
    let owner = Name::from_ascii("nothing.example.com").unwrap();
    match z.delete_rrset(&owner, QType::TXT()) {
        Err(ZoneError::NoSuchRRset { owner, rtype }) => {
            assert_eq!(owner, "nothing.example.com.");
            assert_eq!(rtype, "TXT");
        }
        _ => panic!("expected NoSuchRRset"),
    }
    assert_eq!(z.serial(), 1);
}

#[test]
fn delete_bumps_serial_and_returns_removed() {
    let mut z = small();
    let www = Name::from_ascii("www.example.com").unwrap();
    let out = z.delete_rrset(&www, QType::A()).unwrap();
    assert_eq!(out.serial, 2);
    assert_eq!(out.removed.len(), 1);
}

#[test]
fn roundtrip_cname() {
    let d = parse_rdata("cname", "lb.example.net.").unwrap();
    assert!(matches!(d, RData::Cname(_)));
    assert_eq!(rdata_presentation(&d), "lb.example.net.");
}

#[test]
fn a_parse_rejects_garbage() {
    assert!(parse_rdata("A", "not-an-ip").is_err());
}

#[test]
fn presentation_of_each_type() {
    assert_eq!(rdata_presentation(&parse_rdata("A", "192.0.2.1").unwrap()), "192.0.2.1");
    assert_eq!(rdata_presentation(&parse_rdata("AAAA", "2001:db8::1").unwrap()), "2001:db8::1");
    assert_eq!(rdata_presentation(&parse_rdata("MX", "10 mail.example.com.").unwrap()), "10 mail.example.com.");
    assert_eq!(rdata_presentation(&parse_rdata("SRV", "1 2 3 t.example.com.").unwrap()), "1 2 3 t.example.com.");
    assert_eq!(rdata_presentation(&parse_rdata("CAA", "0 issue ca.example").unwrap()), "0 issue ca.example");
    assert_eq!(rdata_presentation(&parse_rdata("TXT", "hello world").unwrap()), "hello world");
    let unknown = RData::Unknown { rtype: QType(99), data: vec![0xde, 0xad] };
    assert_eq!(rdata_presentation(&unknown), "\\# 2 dead");
}

#[test]
fn rdata_errors_carry_messages() {
    match parse_rdata("mx", "nopref") {
        Err(ZoneError::Rdata { rtype, msg, .. }) => {
            assert_eq!(rtype, "MX");
            assert_eq!(msg, "expected `<preference> <exchange>`");
        }
        _ => panic!("expected an rdata error"),
    }
    match parse_rdata("HINFO", "x") {
        Err(ZoneError::Rdata { msg, .. }) => assert_eq!(msg, "unsupported record type"),
        _ => panic!("expected an rdata error"),
    }
    match parse_rdata("A", "1.2.3") {
        Err(ZoneError::Rdata { msg, .. }) => assert_eq!(msg, "invalid IPv4 address syntax"),
        _ => panic!("expected an rdata error"),
    }
}
