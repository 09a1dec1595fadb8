//! The read endpoints of the record API and the request checks of the
//! write endpoints, over the zone registry.
use super::limits::text_eq;
use super::records::{
    api_error_view, from_zone_error_spec, parse_zone_name, record_view_view, record_view_views, view_of,
    views_of, zone_detail, zone_name_spec, zone_summary, ApiError, ApiErrorV, BatchBody, RecordView,
    RecordViewV, UpsertBody, ZoneDetail, ZoneSummary,
};
use crate::text::{lossy_text, str_bytes, text_from_bytes};
use crate::wire::message::record_views;
use crate::wire::name::lower_labels;
use crate::wire::question::{upper_ascii, upper_bytes};
use crate::wire::rr::RecordV;
use crate::zone::load::{qualify, qualify_spec};
use crate::zone::mutate::serial_of;
use crate::zone::registry::{find_zone, ZoneRegistry};
use crate::zone::{name_str, text, Zone};
use vstd::prelude::*;
use vstd::string::{StringExecFns, StringSliceAdditionalSpecFns};

verus! {

/// The zone a path segment names: a valid non-root name of a loaded zone.
pub open spec fn lookup_spec(zs: Seq<Zone>, zone: Seq<u8>) -> Result<int, ApiErrorV> {
    match zone_name_spec(zone) {
        Err(e) => Err(e),
        Ok(o) => match find_zone(zs, lower_labels(o)) {
            Some(i) => Ok(i),
            None => Err(ApiErrorV::NotFound("unknown zone "@ + name_str(o))),
        },
    }
}

/// Find the zone a path segment names.
pub fn lookup_zone<'a>(zones: &'a ZoneRegistry, zone: &str) -> (r: Result<&'a Zone, ApiError>)
    requires
        zones.wf(),
    ensures
        match lookup_spec(zones.zones(), zone.spec_bytes()) {
            Ok(i) => r matches Ok(z) && *z == zones.zones()[i],
            Err(e) => r matches Err(x) && api_error_view(x) == e,
        },
{
    let origin = match parse_zone_name(zone) {
        Ok(n) => n,
        Err(e) => return Err(e),
    };
    match zones.get(&origin) {
        Some(z) => Ok(z),
        None => {
            let mut m = text("unknown zone ");
            m.append(origin.to_ascii().as_str());
            Err(ApiError::NotFound(m))
        },
    }
}

/// `GET /api/v1/zones`: every loaded zone's origin and serial, in order.
pub fn list_zones(zones: &ZoneRegistry) -> (r: Vec<ZoneSummary>)
    ensures
        r@.len() == zones.zones().len(),
        forall|i: int|
            0 <= i < r@.len() ==> (#[trigger] r@[i]).origin@ == name_str(zones.zones()[i].origin_v())
                && r@[i].serial == serial_of(zones.zones()[i].soa_v()),
{
    let all = zones.list();
    let mut out: Vec<ZoneSummary> = Vec::new();
    let mut i: usize = 0;
    while i < all.len()
        invariant
            i <= all@.len(),
            all@ == zones.zones(),
            out@.len() == i,
            forall|j: int|
                0 <= j < i ==> (#[trigger] out@[j]).origin@ == name_str(all@[j].origin_v()) && out@[j].serial
                    == serial_of(all@[j].soa_v()),
        decreases all@.len() - i,
    {
        out.push(zone_summary(&all[i]));
        i = i + 1;
    }
    out
}

/// `GET /api/v1/zones/{zone}`: the zone's detail.
pub fn get_zone(zones: &ZoneRegistry, zone: &str) -> (r: Result<ZoneDetail, ApiError>)
    requires
        zones.wf(),
    ensures
        match lookup_spec(zones.zones(), zone.spec_bytes()) {
            Ok(i) => r matches Ok(d) && d.origin@ == name_str(zones.zones()[i].origin_v()) && d.serial
                == serial_of(zones.zones()[i].soa_v()) && record_view_view(d.soa) == view_of(
                zones.zones()[i].soa_v(),
            ) && d.rrset_count == zones.zones()[i].record_list().len(),
            Err(e) => r matches Err(x) && api_error_view(x) == e,
        },
{
    match lookup_zone(zones, zone) {
        Ok(z) => {
            proof {
                let i = lookup_spec(zones.zones(), zone.spec_bytes())->Ok_0;
                crate::zone::registry::lemma_zone_wf_at(zones, i);
            }
            Ok(zone_detail(z))
        },
        Err(e) => Err(e),
    }
}

/// A record view passes the listing filters: its owner is the wanted name
/// and its type the wanted mnemonic, each when given.
pub open spec fn passes(v: RecordViewV, name: Option<Seq<char>>, rtype: Option<Seq<char>>) -> bool {
    (name matches Some(n) ==> v.name == n) && (rtype matches Some(t) ==> v.rtype == t)
}

/// The records of a zone, filtered.
pub open spec fn filtered(vs: Seq<RecordViewV>, name: Option<Seq<char>>, rtype: Option<Seq<char>>) -> Seq<
    RecordViewV,
> {
    vs.filter(pass_pred(name, rtype))
}

/// `passes` as a predicate.
pub open spec fn pass_pred(name: Option<Seq<char>>, rtype: Option<Seq<char>>) -> spec_fn(RecordViewV) -> bool {
    |v: RecordViewV| passes(v, name, rtype)
}

/// The text a type filter is matched against: ASCII upper case.
pub open spec fn type_filter_text(t: Seq<char>) -> Seq<char> {
    lossy_text(upper_bytes(vstd::utf8::encode_utf8(t)))
}

/// What `GET /api/v1/zones/{zone}/records` lists: the zone's records,
/// restricted to the owner `name` (qualified against the origin) and to the
/// type `rtype` (in any case) when given.
pub open spec fn list_records_spec(
    zs: Seq<Zone>,
    zone: Seq<u8>,
    name: Option<Seq<u8>>,
    rtype: Option<Seq<char>>,
) -> Result<Seq<RecordViewV>, ApiErrorV> {
    match lookup_spec(zs, zone) {
        Err(e) => Err(e),
        Ok(i) => {
            let all = zs[i].record_list().map_values(|rv: RecordV| view_of(rv));
            let want_type = match rtype {
                Some(t) => Some(type_filter_text(t)),
                None => None,
            };
            match name {
                None => Ok(filtered(all, None, want_type)),
                Some(n) => match qualify_spec(n, zs[i].origin_v()) {
                    Err(e) => Err(from_zone_error_spec(e)),
                    Ok(owner) => Ok(filtered(all, Some(name_str(owner)), want_type)),
                },
            }
        },
    }
}

fn keep(views: Vec<RecordView>, name: Option<&str>, rtype: Option<&str>) -> (r: Vec<RecordView>)
    ensures
        record_view_views(r@) == filtered(
            record_view_views(views@),
            match name {
                Some(n) => Some(n@),
                None => None,
            },
            match rtype {
                Some(t) => Some(t@),
                None => None,
            },
        ),
{
    let ghost want_name = match name {
        Some(n) => Some(n@),
        None => None::<Seq<char>>,
    };
    let ghost want_type = match rtype {
        Some(t) => Some(t@),
        None => None::<Seq<char>>,
    };
    let ghost all = record_view_views(views@);
    let mut out: Vec<RecordView> = Vec::new();
    let mut i: usize = 0;
    let n = views.len();
    let mut rest = views;
    proof {
        assert(all.take(0) =~= Seq::<RecordViewV>::empty());
        reveal(Seq::filter);
        assert(filtered(all.take(0), want_name, want_type) =~= Seq::<RecordViewV>::empty());
    }
    while i < n
        invariant
            n == all.len(),
            i <= n,
            rest@.len() == n,
            record_view_views(rest@) == all,
            record_view_views(out@) == filtered(all.take(i as int), want_name, want_type),
            want_name == match name {
                Some(x) => Some(x@),
                None => None::<Seq<char>>,
            },
            want_type == match rtype {
                Some(t) => Some(t@),
                None => None::<Seq<char>>,
            },
        decreases n - i,
    {
        let v = &rest[i];
        let ok_name = match name {
            Some(x) => text_eq(v.name.as_str(), x),
            None => true,
        };
        let ok_type = match rtype {
            Some(t) => text_eq(v.rtype.as_str(), t),
            None => true,
        };
        let ghost before = out@;
        proof {
            assert(all[i as int] == record_view_view(rest@[i as int]));
            assert(all.take(i as int + 1) =~= all.take(i as int).push(all[i as int]));
            all.take(i as int).lemma_filter_push(all[i as int], pass_pred(want_name, want_type));
        }
        if ok_name && ok_type {
            let copy = RecordView {
                name: v.name.clone(),
                rtype: v.rtype.clone(),
                value: v.value.clone(),
                ttl: v.ttl,
            };
            out.push(copy);
            proof {
                assert(record_view_views(out@) =~= record_view_views(before).push(all[i as int]));
            }
        }
        i = i + 1;
    }
    proof {
        assert(all.take(n as int) =~= all);
    }
    out
}

/// `GET /api/v1/zones/{zone}/records`: the zone's records, filtered by
/// owner and by type when asked.
pub fn list_records(zones: &ZoneRegistry, zone: &str, name: Option<&str>, rtype: Option<&str>) -> (r: Result<
    Vec<RecordView>,
    ApiError,
>)
    requires
        zones.wf(),
    ensures
        match list_records_spec(
            zones.zones(),
            zone.spec_bytes(),
            match name {
                Some(n) => Some(n.spec_bytes()),
                None => None,
            },
            match rtype {
                Some(t) => Some(t@),
                None => None,
            },
        ) {
            Ok(vs) => r matches Ok(v) && record_view_views(v@) == vs,
            Err(e) => r matches Err(x) && api_error_view(x) == e,
        },
{
    let z = match lookup_zone(zones, zone) {
        Ok(z) => z,
        Err(e) => return Err(e),
    };
    let ghost i = lookup_spec(zones.zones(), zone.spec_bytes())->Ok_0;
    proof {
        crate::zone::registry::lemma_zone_wf_at(zones, i);
    }
    let all = z.all_records();
    let views = views_of(all.as_slice());
    let want_type: Option<String> = match rtype {
        Some(t) => Some(text_from_bytes(upper_ascii(str_bytes(t)).as_slice())),
        None => None,
    };
    let want_name: Option<String> = match name {
        None => None,
        Some(n) => match qualify(n, z.origin()) {
            Err(e) => return Err(ApiError::from_zone_error(e)),
            Ok(owner) => Some(owner.to_ascii()),
        },
    };
    let kept = keep(
        views,
        match &want_name {
            Some(s) => Some(s.as_str()),
            None => None,
        },
        match &want_type {
            Some(s) => Some(s.as_str()),
            None => None,
        },
    );
    Ok(kept)
}

/// `DELETE .../records` needs the `name` and `type` query parameters; they
/// make the body of the delete.
pub fn delete_body(name: Option<String>, rtype: Option<String>) -> (r: Result<UpsertBody, ApiError>)
    ensures
        match (name, rtype) {
            (Some(n), Some(t)) => r matches Ok(b) && b.name == n && b.rtype == t && b.value is None && b.values is None
                && b.ttl is None,
            (None, _) => r matches Err(x) && api_error_view(x) == ApiErrorV::Validation(
                "query parameter `name` is required"@,
            ),
            (Some(_), None) => r matches Err(x) && api_error_view(x) == ApiErrorV::Validation(
                "query parameter `type` is required"@,
            ),
        },
{
    let name = match name {
        Some(n) => n,
        None => return Err(ApiError::Validation(text("query parameter `name` is required"))),
    };
    let rtype = match rtype {
        Some(t) => t,
        None => return Err(ApiError::Validation(text("query parameter `type` is required"))),
    };
    Ok(UpsertBody { name, rtype, value: None, values: None, ttl: None })
}

/// Most RRsets one batch may write.
pub const MAX_BATCH: usize = 64;

/// `POST .../records` takes between one and `MAX_BATCH` RRsets.
pub fn batch_records(body: BatchBody) -> (r: Result<Vec<UpsertBody>, ApiError>)
    ensures
        body.records@.len() == 0 ==> (r matches Err(x) && api_error_view(x) == ApiErrorV::Validation(
            "records array is empty"@,
        )),
        body.records@.len() > MAX_BATCH ==> (r matches Err(x) && api_error_view(x) == ApiErrorV::Validation(
            "batch exceeds 64 records"@,
        )),
        0 < body.records@.len() <= MAX_BATCH ==> r == Ok::<Vec<UpsertBody>, ApiError>(body.records),
{
    if body.records.len() == 0 {
        return Err(ApiError::Validation(text("records array is empty")));
    }
    if body.records.len() > MAX_BATCH {
        return Err(ApiError::Validation(text("batch exceeds 64 records")));
    }
    Ok(body.records)
}

} // verus!
