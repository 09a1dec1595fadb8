use nebuladns::api::audit::{clamp_millis, unix_ms, AuditEvent, AuditLog};
use nebuladns::api::auth::{hex_encode, sha256_bytes, Auth, AuthDecision, AuthSetupError};
use nebuladns::api::handlers::{batch_records, delete_body, get_zone, list_records, list_zones};
use nebuladns::api::health::{livez, readyz, version};
use nebuladns::api::limits::{IdempotencyCache, WriteLimiter};
use nebuladns::api::records::{bearer_from, ApiError, BatchBody, RecordPolicy, UpsertBody};
use nebuladns::api::write::apply_writes;
use nebuladns::zone::registry::ZoneRegistry;
use nebuladns::zone::toml_schema::{Record, Soa, ZoneDoc};
use nebuladns::zone::{Zone, ZoneError};

#[test]
fn disabled_refuses_everything() {
    let auth = Auth::disabled();
    assert_eq!(auth.verify(Some("secret")), AuthDecision::NotConfigured);
    assert_eq!(auth.verify(None), AuthDecision::NotConfigured);
}

#[test]
fn matching_token_allows() {
    let auth = Auth::from_parts(None, Some("s3cret")).unwrap();
    assert_eq!(auth.verify(Some("s3cret")), AuthDecision::Allow);
    assert_eq!(auth.verify(Some("wrong")), AuthDecision::Deny);
    assert_eq!(auth.verify(None), AuthDecision::Deny);
    assert_eq!(auth.verify(Some("")), AuthDecision::Deny);
}

#[test]
fn hex_and_env_must_agree() {
    let hash = hex_encode(&sha256_bytes(b"s3cret"));
    assert!(Auth::from_parts(Some(&hash), Some("s3cret")).is_ok());
    assert!(matches!(Auth::from_parts(Some(&hash), Some("other")), Err(AuthSetupError::HashMismatch)));
}

#[test]
fn rejects_malformed_hex() {
    assert!(matches!(Auth::from_parts(Some("deadbeef"), None), Err(AuthSetupError::InvalidHash)));
}

#[test]
fn sha256_of_known_input() {
    let hash = hex_encode(&sha256_bytes(b"abc"));
    assert_eq!(hash, "ba7816bf8f01cfea414140de5dae2223b00361a396177a9cb410ff61f20015ad");
}

#[test]
fn hash_only_config_verifies_its_token() {
    let hash = hex_encode(&sha256_bytes(b"tok"));
    let auth = Auth::from_parts(Some(&hash.to_uppercase()), None).unwrap();
    assert!(auth.is_enabled());
    assert_eq!(auth.verify(Some("tok")), AuthDecision::Allow);
    assert_eq!(auth.verify(Some("tok2")), AuthDecision::Deny);
}

#[test]
fn bearer_header_parsing() {
    assert_eq!(bearer_from(Some("Bearer abc")), Some("abc".to_string()));
    assert_eq!(bearer_from(Some("Bearer   abc  ")), Some("abc".to_string()));
    assert_eq!(bearer_from(Some("Basic abc")), None);
    assert_eq!(bearer_from(None), None);
}

fn sample(action: &str) -> AuditEvent {
    AuditEvent {
        seq: 0,
        ts_unix_ms: 1,
        action: action.into(),
        zone: "example.com.".into(),
        name: "app.example.com.".into(),
        rtype: "CNAME".into(),
        ttl: Some(5),
        values: vec!["west.example.net.".into()],
        dry_run: false,
        result: "ok".into(),
        serial: Some(2),
        idempotency_key: None,
        prev_hash: String::new(),
        hash: String::new(),
    }
}

#[test]
fn chain_links() {
    let mut log = AuditLog::new();
    let a = log.append(sample("upsert"));
    let b = log.append(sample("upsert"));
    assert_eq!(a.seq, 1);
    assert_eq!(b.seq, 2);
    assert_eq!(b.prev_hash, a.hash);
    assert_ne!(a.hash, b.hash);
    assert_eq!(a.prev_hash, "0".repeat(64));
    assert_eq!(log.list().len(), 2);
}

#[test]
fn limiter_allows_a_window_then_refuses() {
    let mut l = WriteLimiter::new(2, 1000);
    assert!(l.allow(1000));
    assert!(l.allow(1500));
    assert!(!l.allow(1999));
    assert!(l.allow(2000));
}

fn zone_doc() -> ZoneDoc {
    ZoneDoc {
        origin: "example.com.".to_string(),
        default_ttl: 300,
        soa: Soa {
            mname: "ns1.example.com.".to_string(),
            rname: "hostmaster.example.com.".to_string(),
            serial: 1,
            refresh: 10800,
            retry: 3600,
            expire: 604800,
            minimum: 300,
            ttl: None,
        },
        records: vec![
            Record { name: "@".into(), rtype: "NS".into(), value: "ns1.example.com.".into(), ttl: None },
            Record { name: "www".into(), rtype: "A".into(), value: "192.0.2.10".into(), ttl: None },
        ],
    }
}

struct State {
    zones: ZoneRegistry,
    audit: AuditLog,
    idem: IdempotencyCache,
    limiter: WriteLimiter,
    policy: RecordPolicy,
}

fn state() -> State {
    let mut zones = ZoneRegistry::new();
    zones.replace(vec![Zone::from_doc(zone_doc()).unwrap()]);
    let policy = RecordPolicy::default();
    State {
        zones,
        audit: AuditLog::new(),
        idem: IdempotencyCache::new(),
        limiter: WriteLimiter::new(policy.max_writes_per_sec, 0),
        policy,
    }
}

fn cname_body(name: &str, ttl: Option<u32>) -> UpsertBody {
    UpsertBody {
        name: name.to_string(),
        rtype: "CNAME".to_string(),
        value: Some("west.example.net.".to_string()),
        values: None,
        ttl,
    }
}

fn put(s: &mut State, body: UpsertBody, dry_run: bool, key: Option<&str>) -> Result<(u16, nebuladns::api::records::MutationResponse), ApiError> {
    apply_writes(
        &mut s.zones,
        &mut s.audit,
        &mut s.idem,
        &mut s.limiter,
        &s.policy,
        "example.com",
        &vec![body],
        dry_run,
        key,
        b"{\"name\":\"app\",\"type\":\"CNAME\",\"value\":\"west.example.net.\"}",
        "upsert",
        10,
    )
}

#[test]
fn write_without_token_configured_is_forbidden() {
    let auth = Auth::disabled();
    let decision = auth.verify(bearer_from(Some("Bearer anything")).as_deref());
    assert_eq!(decision, AuthDecision::NotConfigured);
    assert_eq!(ApiError::NotConfigured.status(), 403);
    assert_eq!(ApiError::NotConfigured.code(), "not_configured");
}

#[test]
fn write_with_wrong_token_is_unauthorized() {
    let auth = Auth::from_parts(None, Some("test-token")).unwrap();
    assert_eq!(auth.verify(bearer_from(Some("Bearer wrong")).as_deref()), AuthDecision::Deny);
    assert_eq!(ApiError::Unauthorized.status(), 401);
}

#[test]
fn cname_upsert_with_default_low_ttl() {
    let mut s = state();
    let (status, body) = put(&mut s, cname_body("app", None), false, None).unwrap();
    assert_eq!(status, 200);
    assert!(body.ok);
    assert_eq!(body.records[0].ttl, 5);
    assert_eq!(body.records[0].value, "west.example.net.");
    assert_eq!(body.serial, 2);
    assert_eq!(s.audit.list().len(), 1);
}

#[test]
fn apex_cname_rejected() {
    let mut s = state();
    let err = put(&mut s, cname_body("@", None), false, None).err().unwrap();
    assert_eq!(err.status(), 400);
    assert!(matches!(err, ApiError::Zone(ZoneError::CnameAtApex { .. })));
}

#[test]
fn dry_run_does_not_bump_serial() {
    let mut s = state();
    let (status, body) = put(&mut s, cname_body("app", None), true, None).unwrap();
    assert_eq!(status, 200);
    assert!(body.dry_run);
    assert_eq!(body.serial, 1);
    let detail = get_zone(&s.zones, "example.com").unwrap();
    assert_eq!(detail.serial, 1);
}

#[test]
fn ttl_above_max_rejected() {
    let mut s = state();
    let err = put(&mut s, cname_body("app", Some(3600)), false, None).err().unwrap();
    assert_eq!(err.status(), 400);
    assert_eq!(err.code(), "validation");
}

#[test]
fn idempotent_replay_does_not_double_bump() {
    let mut s = state();
    let (s1, j1) = put(&mut s, cname_body("app", None), false, Some("failover-1")).unwrap();
    let (s2, j2) = put(&mut s, cname_body("app", None), false, Some("failover-1")).unwrap();
    assert_eq!(s1, 200);
    assert_eq!(s2, 200);
    assert_eq!(j1.serial, j2.serial);
    assert_eq!(j1.serial, 2);
}

#[test]
fn unknown_zone_is_not_found() {
    let mut s = state();
    let err = apply_writes(
        &mut s.zones,
        &mut s.audit,
        &mut s.idem,
        &mut s.limiter,
        &s.policy,
        "other.org",
        &vec![cname_body("app", None)],
        false,
        None,
        b"{}",
        "upsert",
        10,
    )
    .err().unwrap();
    match err {
        ApiError::NotFound(m) => assert_eq!(m, "unknown zone other.org."),
        _ => panic!("expected not found"),
    }
}

#[test]
fn rate_limit_refuses_excess_writes() {
    let mut s = state();
    s.limiter = WriteLimiter::new(1, 0);
    assert!(put(&mut s, cname_body("app", None), false, None).is_ok());
    let err = put(&mut s, cname_body("app", None), false, None).err().unwrap();
    assert!(matches!(err, ApiError::RateLimited));
    assert_eq!(err.status(), 429);
}

#[test]
fn listing_and_detail() {
    let s = state();
    let zs = list_zones(&s.zones);
    assert_eq!(zs.len(), 1);
    assert_eq!(zs[0].origin, "example.com.");
    assert_eq!(zs[0].serial, 1);
    let d = get_zone(&s.zones, "EXAMPLE.com.").unwrap();
    assert_eq!(d.origin, "example.com.");
    assert_eq!(d.soa.rtype, "SOA");
    assert!(matches!(get_zone(&s.zones, "nope.example"), Err(ApiError::NotFound(_))));
    assert!(matches!(get_zone(&s.zones, "."), Err(ApiError::Validation(_))));
}

#[test]
fn record_listing_filters() {
    let s = state();
    let all = list_records(&s.zones, "example.com", None, None).unwrap();
    assert_eq!(all.len(), 3);
    let www = list_records(&s.zones, "example.com", Some("www"), None).unwrap();
    assert_eq!(www.len(), 1);
    assert_eq!(www[0].value, "192.0.2.10");
    let ns = list_records(&s.zones, "example.com", None, Some("ns")).unwrap();
    assert_eq!(ns.len(), 1);
    assert_eq!(ns[0].rtype, "NS");
    let none = list_records(&s.zones, "example.com", Some("www"), Some("AAAA")).unwrap();
    assert!(none.is_empty());
}

#[test]
fn delete_needs_name_and_type() {
    let b = delete_body(Some("www".into()), Some("A".into())).unwrap();
    assert_eq!(b.name, "www");
    assert!(b.value.is_none());
    match delete_body(None, Some("A".into())) {
        Err(ApiError::Validation(m)) => assert_eq!(m, "query parameter `name` is required"),
        _ => panic!("expected validation error"),
    }
    match delete_body(Some("www".into()), None) {
        Err(ApiError::Validation(m)) => assert_eq!(m, "query parameter `type` is required"),
        _ => panic!("expected validation error"),
    }
}

#[test]
fn batch_size_is_bounded() {
    assert!(matches!(batch_records(BatchBody { records: vec![] }), Err(ApiError::Validation(_))));
    let many: Vec<UpsertBody> = (0..65).map(|_| cname_body("app", None)).collect();
    match batch_records(BatchBody { records: many }) {
        Err(ApiError::Validation(m)) => assert_eq!(m, "batch exceeds 64 records"),
        _ => panic!("expected validation error"),
    }
    assert_eq!(batch_records(BatchBody { records: vec![cname_body("app", None)] }).unwrap().len(), 1);
}

#[test]
fn health_bodies() {
    assert_eq!(livez().0, 200);
    assert_eq!(livez().1.status, "ok");
    assert_eq!(readyz(false).0, 503);
    assert_eq!(readyz(false).1.status, "starting");
    assert_eq!(readyz(true).0, 200);
    assert_eq!(readyz(true).1.status, "ready");
    let v = version("1.2.3", Some("abc"), None, None);
    assert_eq!(v.version, "1.2.3");
    assert_eq!(v.commit, "abc");
    assert_eq!(v.rustc, "unknown");
    assert_eq!(v.target, "unknown");
}

#[test]
fn clamp_millis_saturates_and_zeroes_before_epoch() {
    assert_eq!(clamp_millis(None), 0);
    assert_eq!(clamp_millis(Some(1_700_000_000_123)), 1_700_000_000_123);
    assert_eq!(clamp_millis(Some(u64::MAX as u128)), u64::MAX);
    assert_eq!(clamp_millis(Some(u64::MAX as u128 + 1)), u64::MAX);
}

#[test]
fn unix_ms_reads_a_current_clock() {
    // Any machine running this is past 2020-09-13.
    assert!(unix_ms() > 1_600_000_000_000);
}

#[test]
fn livez_is_ok() {
    let (status, body) = livez();
    assert_eq!(status, 200);
    assert_eq!(body.status, "ok");
}

#[test]
fn readyz_503_until_ready() {
    let (status, _) = readyz(false);
    assert_eq!(status, 503);
    let (status, _) = readyz(true);
    assert_eq!(status, 200);
}

#[test]
fn version_returns_something() {
    let body = version("0.1.0", None, None, None);
    assert!(!body.version.is_empty());
    assert_eq!(body.commit, "unknown");
}

#[test]
fn audit_chain_over_many_appends_keeps_newest_1024() {
    let mut log = AuditLog::new();
    let mut recorded: Vec<AuditEvent> = Vec::new();
    for _ in 0..1030 {
        recorded.push(log.append(sample("upsert")));
    }
    assert_eq!(recorded[0].prev_hash, "0".repeat(64));
    for i in 1..recorded.len() {
        assert_eq!(recorded[i].prev_hash, recorded[i - 1].hash);
        assert_eq!(recorded[i].hash, nebuladns::api::audit::hash_event(&recorded[i]));
    }
    for i in 0..recorded.len() {
        assert_eq!(recorded[i].seq, std::cmp::min(i as u64, 1024) + 1);
    }
    let kept = log.list();
    assert_eq!(kept.len(), 1024);
    assert_eq!(kept[0].hash, recorded[6].hash);
    assert_eq!(kept[1023].hash, recorded[1029].hash);
}
