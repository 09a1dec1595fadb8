//! The record API's request and response values and the steps that turn a
//! write request into RRsets: owner qualification, type and TTL checks, value
//! parsing, and the views the API answers with.
use super::audit::string_views;
use crate::text::{ascii_chars, decimal, push_decimal, str_bytes, text_from_bytes, trim, trim_bytes};
use crate::wire::message::record_views;
use crate::wire::name::{name_from_ascii, name_text, Name};
use crate::wire::question::{mnemonic_of, mnemonic_type, upper_bytes, QType};
use crate::wire::rr::{rdata_type, rdata_view, record_view, RData, RDataV, RecordV, ResourceRecord};
use crate::zone::load::{qualify, qualify_spec, utf8};
use crate::zone::mutate::{rdata_views, serial_of};
use crate::zone::rdata::{parse_rdata, rdata_from_text, rdata_presentation, rdata_text};
use crate::zone::{name_str, text, zone_error_view, Zone, ZoneError, ZoneErrorV};
use vstd::prelude::*;
use vstd::string::{StringExecFns, StringSliceAdditionalSpecFns};

verus! {

/// TTL / rate-limit policy for the fast record path.
pub struct RecordPolicy {
    pub default_ttl: u32,
    pub min_ttl: u32,
    pub max_ttl: u32,
    pub max_writes_per_sec: u32,
}

impl Default for RecordPolicy {
    /// TTL 5 s (1..=60), 50 writes per second.
    fn default() -> (r: Self)
        ensures
            r.default_ttl == 5,
            r.min_ttl == 1,
            r.max_ttl == 60,
            r.max_writes_per_sec == 50,
    {
        RecordPolicy { default_ttl: 5, min_ttl: 1, max_ttl: 60, max_writes_per_sec: 50 }
    }
}

/// Query parameters of the record endpoints.
pub struct DryRunQuery {
    pub dry_run: bool,
    pub name: Option<String>,
    pub rtype: Option<String>,
}

/// One RRset to write.
pub struct UpsertBody {
    pub name: String,
    pub rtype: String,
    pub value: Option<String>,
    pub values: Option<Vec<String>>,
    pub ttl: Option<u32>,
}

/// A batch of RRsets to write.
pub struct BatchBody {
    pub records: Vec<UpsertBody>,
}

/// A record as the API shows it.
pub struct RecordView {
    pub name: String,
    pub rtype: String,
    pub value: String,
    pub ttl: u32,
}

/// Abstract record view.
pub struct RecordViewV {
    pub name: Seq<char>,
    pub rtype: Seq<char>,
    pub value: Seq<char>,
    pub ttl: u32,
}

pub open spec fn record_view_view(r: RecordView) -> RecordViewV {
    RecordViewV { name: r.name@, rtype: r.rtype@, value: r.value@, ttl: r.ttl }
}

pub open spec fn record_view_views(v: Seq<RecordView>) -> Seq<RecordViewV> {
    v.map_values(|r: RecordView| record_view_view(r))
}

/// A zone in the zone list.
pub struct ZoneSummary {
    pub origin: String,
    pub serial: u32,
}

/// A zone's SOA and size.
pub struct ZoneDetail {
    pub origin: String,
    pub serial: u32,
    pub soa: RecordView,
    pub rrset_count: usize,
}

/// The answer to a write.
pub struct MutationResponse {
    pub ok: bool,
    pub dry_run: bool,
    pub serial: u32,
    pub records: Vec<RecordView>,
}

/// Abstract write answer.
pub struct MutationResponseV {
    pub ok: bool,
    pub dry_run: bool,
    pub serial: u32,
    pub records: Seq<RecordViewV>,
}

pub open spec fn mutation_view(m: MutationResponse) -> MutationResponseV {
    MutationResponseV { ok: m.ok, dry_run: m.dry_run, serial: m.serial, records: record_view_views(m.records@) }
}

/// API errors.
#[derive(Debug)]
pub enum ApiError {
    Unauthorized,
    NotConfigured,
    NotFound(String),
    Validation(String),
    Conflict(String),
    RateLimited,
    Zone(ZoneError),
}

/// Abstract API error.
pub enum ApiErrorV {
    Unauthorized,
    NotConfigured,
    NotFound(Seq<char>),
    Validation(Seq<char>),
    Conflict(Seq<char>),
    RateLimited,
    Zone(ZoneErrorV),
}

pub open spec fn api_error_view(e: ApiError) -> ApiErrorV {
    match e {
        ApiError::Unauthorized => ApiErrorV::Unauthorized,
        ApiError::NotConfigured => ApiErrorV::NotConfigured,
        ApiError::NotFound(m) => ApiErrorV::NotFound(m@),
        ApiError::Validation(m) => ApiErrorV::Validation(m@),
        ApiError::Conflict(m) => ApiErrorV::Conflict(m@),
        ApiError::RateLimited => ApiErrorV::RateLimited,
        ApiError::Zone(z) => ApiErrorV::Zone(zone_error_view(z)),
    }
}

/// How a zone error reaches the API: unknown zones and missing RRsets are
/// "not found"; every other rule violation keeps its own text (a 400).
pub open spec fn from_zone_error_spec(e: ZoneErrorV) -> ApiErrorV {
    match e {
        ZoneErrorV::UnknownZone { zone } => ApiErrorV::NotFound("unknown zone "@ + zone),
        ZoneErrorV::NoSuchRRset { owner, rtype } => ApiErrorV::NotFound("no such RRset "@ + owner + " "@ + rtype),
        other => ApiErrorV::Zone(other),
    }
}

impl ApiError {
    /// The API error for a zone error.
    pub fn from_zone_error(e: ZoneError) -> (r: ApiError)
        ensures
            api_error_view(r) == from_zone_error_spec(zone_error_view(e)),
    {
        match e {
            ZoneError::UnknownZone { zone } => {
                let mut m = text("unknown zone ");
                m.append(zone.as_str());
                ApiError::NotFound(m)
            },
            ZoneError::NoSuchRRset { owner, rtype } => {
                let mut m = text("no such RRset ");
                m.append(owner.as_str());
                m.append(" ");
                m.append(rtype.as_str());
                ApiError::NotFound(m)
            },
            other => ApiError::Zone(other),
        }
    }

    /// HTTP status of the error.
    pub fn status(&self) -> (r: u16)
        ensures
            r == (match self {
                ApiError::Unauthorized => 401u16,
                ApiError::NotConfigured => 403u16,
                ApiError::NotFound(_) => 404u16,
                ApiError::Validation(_) => 400u16,
                ApiError::Conflict(_) => 409u16,
                ApiError::RateLimited => 429u16,
                ApiError::Zone(_) => 400u16,
            }),
    {
        match self {
            ApiError::Unauthorized => 401,
            ApiError::NotConfigured => 403,
            ApiError::NotFound(_) => 404,
            ApiError::Validation(_) => 400,
            ApiError::Conflict(_) => 409,
            ApiError::RateLimited => 429,
            ApiError::Zone(_) => 400,
        }
    }

    /// Machine-readable error code.
    pub fn code(&self) -> (r: &'static str)
        ensures
            r@ == (match self {
                ApiError::Unauthorized => "unauthorized"@,
                ApiError::NotConfigured => "not_configured"@,
                ApiError::NotFound(_) => "not_found"@,
                ApiError::Validation(_) => "validation"@,
                ApiError::Conflict(_) => "conflict"@,
                ApiError::RateLimited => "rate_limited"@,
                ApiError::Zone(_) => "validation"@,
            }),
    {
        match self {
            ApiError::Unauthorized => "unauthorized",
            ApiError::NotConfigured => "not_configured",
            ApiError::NotFound(_) => "not_found",
            ApiError::Validation(_) => "validation",
            ApiError::Conflict(_) => "conflict",
            ApiError::RateLimited => "rate_limited",
            ApiError::Zone(_) => "validation",
        }
    }

    /// The message, for every error but a zone rule violation (whose text is
    /// the zone error's own).
    pub fn fixed_message(&self) -> (r: Option<String>)
        ensures
            match self {
                ApiError::Unauthorized => r matches Some(m) && m@ == "missing or invalid bearer token"@,
                ApiError::NotConfigured => r matches Some(m) && m@
                    == "API token not configured; refusing zone access"@,
                ApiError::NotFound(s) => r matches Some(m) && m@ == s@,
                ApiError::Validation(s) => r matches Some(m) && m@ == s@,
                ApiError::Conflict(s) => r matches Some(m) && m@ == s@,
                ApiError::RateLimited => r matches Some(m) && m@ == "write rate limit exceeded"@,
                ApiError::Zone(_) => r is None,
            },
    {
        match self {
            ApiError::Unauthorized => Some(text("missing or invalid bearer token")),
            ApiError::NotConfigured => Some(text("API token not configured; refusing zone access")),
            ApiError::NotFound(s) => Some(s.clone()),
            ApiError::Validation(s) => Some(s.clone()),
            ApiError::Conflict(s) => Some(s.clone()),
            ApiError::RateLimited => Some(text("write rate limit exceeded")),
            ApiError::Zone(_) => None,
        }
    }
}

/// A zone name from a path segment: any valid name but the root.
pub open spec fn zone_name_spec(s: Seq<u8>) -> Result<Seq<Seq<u8>>, ApiErrorV> {
    match name_from_ascii(s) {
        Err(_) => Err(ApiErrorV::Validation("invalid zone name"@)),
        Ok(ls) => if ls.len() == 0 {
            Err(ApiErrorV::Validation("zone name is empty"@))
        } else {
            Ok(ls)
        },
    }
}

/// Parse a zone name from a path segment.
pub fn parse_zone_name(s: &str) -> (r: Result<Name, ApiError>)
    ensures
        match zone_name_spec(s.spec_bytes()) {
            Ok(ls) => r matches Ok(n) && n@ == ls,
            Err(e) => r matches Err(x) && api_error_view(x) == e,
        },
{
    let name = match Name::from_ascii(s) {
        Ok(n) => n,
        Err(_) => return Err(ApiError::Validation(text("invalid zone name"))),
    };
    if name.is_root() {
        return Err(ApiError::Validation(text("zone name is empty")));
    }
    Ok(name)
}

/// The types the record API writes.
pub open spec fn writable_type(t: u16) -> bool {
    t == 1 || t == 28 || t == 5 || t == 16 || t == 15 || t == 12 || t == 2 || t == 33 || t == 257
}

/// A writable record type from its mnemonic (any case).
pub open spec fn rtype_spec(s: Seq<char>) -> Result<u16, ApiErrorV> {
    match mnemonic_type(upper_bytes(utf8(s))) {
        Some(t) => if writable_type(t) {
            Ok(t)
        } else {
            Err(ApiErrorV::Validation("unsupported record type "@ + s))
        },
        None => Err(ApiErrorV::Validation("unsupported record type "@ + s)),
    }
}

/// Parse a writable record type.
pub fn parse_rtype(s: &str) -> (r: Result<QType, ApiError>)
    ensures
        match rtype_spec(s@) {
            Ok(t) => r matches Ok(q) && q.0 == t,
            Err(e) => r matches Err(x) && api_error_view(x) == e,
        },
{
    match QType::from_mnemonic(s) {
        Some(t) => {
            let v = t.0;
            if v == 1 || v == 28 || v == 5 || v == 16 || v == 15 || v == 12 || v == 2 || v == 33 || v == 257 {
                return Ok(t);
            }
        },
        None => {},
    }
    let mut m = text("unsupported record type ");
    m.append(s);
    Err(ApiError::Validation(m))
}

/// Decimal text.
pub open spec fn dec_text(n: nat) -> Seq<char> {
    ascii_chars(decimal(n))
}

/// The requested TTL, or the default, if the policy allows it.
pub open spec fn ttl_spec(requested: Option<u32>, p: RecordPolicy) -> Result<u32, ApiErrorV> {
    let ttl = match requested {
        Some(t) => t,
        None => p.default_ttl,
    };
    if ttl < p.min_ttl || ttl > p.max_ttl {
        Err(
            ApiErrorV::Validation(
                "ttl "@ + dec_text(ttl as nat) + " outside allowed range "@ + dec_text(p.min_ttl as nat) + "–"@
                    + dec_text(p.max_ttl as nat),
            ),
        )
    } else {
        Ok(ttl)
    }
}

fn dec_string(n: u64) -> (r: String)
    ensures
        r@ == dec_text(n as nat),
{
    let mut b: Vec<u8> = Vec::new();
    push_decimal(&mut b, n);
    proof {
        assert(b@ =~= decimal(n as nat));
        crate::text::lemma_decimal_ascii(n as nat);
    }
    text_from_bytes(b.as_slice())
}

/// Resolve the TTL of a write.
pub fn resolve_ttl(requested: Option<u32>, policy: &RecordPolicy) -> (r: Result<u32, ApiError>)
    ensures
        match ttl_spec(requested, *policy) {
            Ok(t) => r == Ok::<u32, ApiError>(t),
            Err(e) => r matches Err(x) && api_error_view(x) == e,
        },
{
    let ttl = match requested {
        Some(t) => t,
        None => policy.default_ttl,
    };
    if ttl < policy.min_ttl || ttl > policy.max_ttl {
        let mut m = text("ttl ");
        m.append(dec_string(ttl as u64).as_str());
        m.append(" outside allowed range ");
        m.append(dec_string(policy.min_ttl as u64).as_str());
        m.append("–");
        m.append(dec_string(policy.max_ttl as u64).as_str());
        return Err(ApiError::Validation(m));
    }
    Ok(ttl)
}

/// The values of a write: exactly one of `value` and a non-empty `values`.
pub open spec fn values_spec(b: UpsertBody) -> Result<Seq<Seq<char>>, ApiErrorV> {
    match (b.value, b.values) {
        (Some(v), None) => Ok(seq![v@]),
        (None, Some(vs)) => if vs@.len() > 0 {
            Ok(string_views(vs@))
        } else {
            Err(ApiErrorV::Validation("`value` or `values` is required"@))
        },
        (Some(_), Some(_)) => Err(ApiErrorV::Validation("specify `value` or `values`, not both"@)),
        (None, None) => Err(ApiErrorV::Validation("`value` or `values` is required"@)),
    }
}

/// Collect the values of a write.
pub fn collect_values(body: &UpsertBody) -> (r: Result<Vec<String>, ApiError>)
    ensures
        match values_spec(*body) {
            Ok(vs) => r matches Ok(v) && string_views(v@) == vs,
            Err(e) => r matches Err(x) && api_error_view(x) == e,
        },
{
    match (&body.value, &body.values) {
        (Some(v), None) => {
            let mut out: Vec<String> = Vec::new();
            out.push(v.clone());
            proof {
                assert(string_views(out@) =~= seq![v@]);
            }
            Ok(out)
        },
        (None, Some(vs)) => {
            if vs.len() > 0 {
                let mut out: Vec<String> = Vec::new();
                let mut i: usize = 0;
                while i < vs.len()
                    invariant
                        i <= vs@.len(),
                        string_views(out@) == string_views(vs@).take(i as int),
                    decreases vs@.len() - i,
                {
                    let s = vs[i].clone();
                    let ghost before = out@;
                    out.push(s);
                    proof {
                        assert(string_views(out@) =~= string_views(before).push(s@));
                        assert(string_views(vs@).take(i as int + 1) =~= string_views(vs@).take(i as int).push(
                            vs@[i as int]@,
                        ));
                    }
                    i = i + 1;
                }
                proof {
                    assert(string_views(vs@).take(i as int) =~= string_views(vs@));
                }
                Ok(out)
            } else {
                Err(ApiError::Validation(text("`value` or `values` is required")))
            }
        },
        (Some(_), Some(_)) => Err(ApiError::Validation(text("specify `value` or `values`, not both"))),
        (None, None) => Err(ApiError::Validation(text("`value` or `values` is required"))),
    }
}

/// The stand-in RDATA a delete carries to name its type.
pub open spec fn placeholder_spec(t: u16) -> Result<RDataV, ApiErrorV> {
    if t == 1 {
        Ok(RDataV::A(seq![0u8, 0u8, 0u8, 0u8]))
    } else if t == 28 {
        Ok(RDataV::Aaaa(Seq::new(16, |i: int| 0u8)))
    } else if t == 5 {
        Ok(RDataV::Cname(seq![]))
    } else if t == 16 {
        Ok(RDataV::Txt(seq![seq![120u8]]))
    } else if t == 2 {
        Ok(RDataV::Ns(seq![]))
    } else if t == 12 {
        Ok(RDataV::Ptr(seq![]))
    } else if t == 15 {
        Ok(RDataV::Mx { preference: 0, exchange: seq![] })
    } else if t == 33 {
        Ok(RDataV::Srv { priority: 0, weight: 0, port: 0, target: seq![] })
    } else if t == 257 {
        Ok(RDataV::Caa { flags: 0, tag: seq![105u8, 115u8, 115u8, 117u8, 101u8], value: seq![46u8] })
    } else {
        Err(
            ApiErrorV::Validation(
                "unsupported record type "@ + match mnemonic_of(t) {
                    Some(m) => m,
                    None => "?"@,
                },
            ),
        )
    }
}

/// The stand-in RDATA of a delete.
pub fn placeholder_rdata(qtype: QType) -> (r: Result<RData, ApiError>)
    ensures
        match placeholder_spec(qtype.0) {
            Ok(d) => r matches Ok(x) && rdata_view(x) == d,
            Err(e) => r matches Err(x) && api_error_view(x) == e,
        },
{
    let t = qtype.0;
    if t == 1 {
        let a = [0u8; 4];
        proof {
            assert(a@ =~= seq![0u8, 0u8, 0u8, 0u8]);
        }
        Ok(RData::A(a))
    } else if t == 28 {
        let a = [0u8; 16];
        proof {
            assert(a@ =~= Seq::new(16, |i: int| 0u8));
        }
        Ok(RData::Aaaa(a))
    } else if t == 5 {
        Ok(RData::Cname(Name::root()))
    } else if t == 16 {
        let mut x: Vec<u8> = Vec::new();
        x.push(120u8);
        let mut v: Vec<Vec<u8>> = Vec::new();
        v.push(x);
        proof {
            assert(crate::wire::name::label_views(v@) =~= seq![seq![120u8]]);
        }
        Ok(RData::Txt(v))
    } else if t == 2 {
        Ok(RData::Ns(Name::root()))
    } else if t == 12 {
        Ok(RData::Ptr(Name::root()))
    } else if t == 15 {
        Ok(RData::Mx { preference: 0, exchange: Name::root() })
    } else if t == 33 {
        Ok(RData::Srv { priority: 0, weight: 0, port: 0, target: Name::root() })
    } else if t == 257 {
        let mut tag: Vec<u8> = Vec::new();
        tag.push(105u8);
        tag.push(115u8);
        tag.push(115u8);
        tag.push(117u8);
        tag.push(101u8);
        let mut value: Vec<u8> = Vec::new();
        value.push(46u8);
        proof {
            assert(tag@ =~= seq![105u8, 115u8, 115u8, 117u8, 101u8]);
            assert(value@ =~= seq![46u8]);
        }
        Ok(RData::Caa { flags: 0, tag, value })
    } else {
        let mut m = text("unsupported record type ");
        match qtype.mnemonic() {
            Some(s) => m.append(s),
            None => m.append("?"),
        }
        Err(ApiError::Validation(m))
    }
}

/// The API view of a record.
pub open spec fn view_of(r: RecordV) -> RecordViewV {
    RecordViewV {
        name: name_str(r.name),
        rtype: match mnemonic_of(rdata_type(r.data)) {
            Some(m) => m,
            None => "TYPE"@,
        },
        value: rdata_text(r.data),
        ttl: r.ttl,
    }
}

fn type_text_of(d: &RData, fallback: &str) -> (r: String)
    ensures
        r@ == match mnemonic_of(rdata_type(rdata_view(*d))) {
            Some(m) => m,
            None => fallback@,
        },
{
    match d.rtype().mnemonic() {
        Some(m) => text(m),
        None => text(fallback),
    }
}

/// The API view of a record.
pub fn record_view_of(rr: &ResourceRecord) -> (r: RecordView)
    ensures
        record_view_view(r) == view_of(record_view(*rr)),
{
    RecordView {
        name: rr.name.to_ascii(),
        rtype: type_text_of(&rr.data, "TYPE"),
        value: rdata_presentation(&rr.data),
        ttl: rr.ttl,
    }
}

/// Views of the records of an RRset about to be written.
pub open spec fn views_for_spec(owner: Seq<Seq<u8>>, ttl: u32, data: Seq<RDataV>) -> Seq<RecordViewV> {
    data.map_values(|d: RDataV| view_of(RecordV { name: owner, class: 1, ttl, data: d }))
}

/// Views of the records of an RRset about to be written.
pub fn views_for(owner: &Name, ttl: u32, data: &[RData]) -> (r: Vec<RecordView>)
    ensures
        record_view_views(r@) == views_for_spec(owner@, ttl, rdata_views(data@)),
{
    let mut out: Vec<RecordView> = Vec::new();
    let mut i: usize = 0;
    while i < data.len()
        invariant
            i <= data@.len(),
            record_view_views(out@) == views_for_spec(owner@, ttl, rdata_views(data@)).take(i as int),
        decreases data@.len() - i,
    {
        let d = &data[i];
        let v = RecordView {
            name: owner.to_ascii(),
            rtype: type_text_of(d, "TYPE"),
            value: rdata_presentation(d),
            ttl,
        };
        let ghost before = out@;
        out.push(v);
        proof {
            assert(rdata_views(data@)[i as int] == rdata_view(data@[i as int]));
            assert(record_view_views(out@) =~= record_view_views(before).push(record_view_view(v)));
            assert(views_for_spec(owner@, ttl, rdata_views(data@)).take(i as int + 1) =~= views_for_spec(
                owner@,
                ttl,
                rdata_views(data@),
            ).take(i as int).push(record_view_view(v)));
        }
        i = i + 1;
    }
    proof {
        assert(views_for_spec(owner@, ttl, rdata_views(data@)).take(i as int) =~= views_for_spec(
            owner@,
            ttl,
            rdata_views(data@),
        ));
    }
    out
}

/// Views of records.
pub fn views_of(rs: &[ResourceRecord]) -> (r: Vec<RecordView>)
    ensures
        record_view_views(r@) == record_views(rs@).map_values(|rv: RecordV| view_of(rv)),
{
    let mut out: Vec<RecordView> = Vec::new();
    let mut i: usize = 0;
    while i < rs.len()
        invariant
            i <= rs@.len(),
            record_view_views(out@) == record_views(rs@).map_values(|rv: RecordV| view_of(rv)).take(i as int),
        decreases rs@.len() - i,
    {
        let v = record_view_of(&rs[i]);
        let ghost before = out@;
        out.push(v);
        proof {
            assert(record_views(rs@)[i as int] == record_view(rs@[i as int]));
            assert(record_view_views(out@) =~= record_view_views(before).push(record_view_view(v)));
            assert(record_views(rs@).map_values(|rv: RecordV| view_of(rv)).take(i as int + 1) =~= record_views(
                rs@,
            ).map_values(|rv: RecordV| view_of(rv)).take(i as int).push(record_view_view(v)));
        }
        i = i + 1;
    }
    proof {
        assert(record_views(rs@).map_values(|rv: RecordV| view_of(rv)).take(i as int) =~= record_views(
            rs@,
        ).map_values(|rv: RecordV| view_of(rv)));
    }
    out
}

/// A zone's detail: origin, serial, SOA and number of records.
pub fn zone_detail(z: &Zone) -> (r: ZoneDetail)
    requires
        z.wf(),
    ensures
        r.origin@ == name_str(z.origin_v()),
        r.serial == serial_of(z.soa_v()),
        record_view_view(r.soa) == view_of(z.soa_v()),
        r.rrset_count == z.record_list().len(),
{
    let all = z.all_records();
    ZoneDetail {
        origin: z.origin().to_ascii(),
        serial: z.serial(),
        soa: record_view_of(z.soa()),
        rrset_count: all.len(),
    }
}

/// A zone's entry in the zone list.
pub fn zone_summary(z: &Zone) -> (r: ZoneSummary)
    ensures
        r.origin@ == name_str(z.origin_v()),
        r.serial == serial_of(z.soa_v()),
{
    ZoneSummary { origin: z.origin().to_ascii(), serial: z.serial() }
}

/// The bearer token of an `Authorization` header value: after `Bearer ` or
/// `bearer `, trimmed; none if that leaves nothing.
pub open spec fn bearer_spec(raw: Seq<u8>) -> Option<Seq<u8>> {
    let p1 = "Bearer ".spec_bytes();
    let p2 = "bearer ".spec_bytes();
    let rest = if raw.len() >= p1.len() && raw.take(p1.len() as int) == p1 {
        Some(raw.skip(p1.len() as int))
    } else if raw.len() >= p2.len() && raw.take(p2.len() as int) == p2 {
        Some(raw.skip(p2.len() as int))
    } else {
        None
    };
    match rest {
        None => None,
        Some(r) => if trim(r).len() == 0 {
            None
        } else {
            Some(trim(r))
        },
    }
}

fn strip_prefix_bytes(b: &[u8], p: &[u8]) -> (r: Option<Vec<u8>>)
    ensures
        match r {
            Some(rest) => b@.len() >= p@.len() && b@.take(p@.len() as int) == p@ && rest@ == b@.skip(
                p@.len() as int,
            ),
            None => !(b@.len() >= p@.len() && b@.take(p@.len() as int) == p@),
        },
{
    if b.len() < p.len() {
        return None;
    }
    let head = vstd::slice::slice_subrange(b, 0, p.len());
    proof {
        assert(head@ =~= b@.take(p@.len() as int));
    }
    if !crate::wire::compress::bytes_eq(head, p) {
        return None;
    }
    let rest = vstd::slice::slice_to_vec(vstd::slice::slice_subrange(b, p.len(), b.len()));
    proof {
        assert(rest@ =~= b@.skip(p@.len() as int));
    }
    Some(rest)
}

/// Extract a bearer token from an `Authorization` header value.
pub fn bearer_from(authorization: Option<&str>) -> (r: Option<String>)
    ensures
        match authorization {
            None => r is None,
            Some(raw) => match bearer_spec(raw.spec_bytes()) {
                None => r is None,
                Some(t) => r matches Some(s) && s@ == crate::text::lossy_text(t),
            },
        },
{
    let raw = match authorization {
        Some(a) => str_bytes(a),
        None => return None,
    };
    let rest = match strip_prefix_bytes(raw, str_bytes("Bearer ")) {
        Some(r) => r,
        None => match strip_prefix_bytes(raw, str_bytes("bearer ")) {
            Some(r) => r,
            None => return None,
        },
    };
    let t = trim_bytes(rest.as_slice());
    if t.len() == 0 {
        None
    } else {
        Some(text_from_bytes(t.as_slice()))
    }
}

} // verus!
