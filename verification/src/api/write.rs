//! The record write pipeline: rate limit, zone lookup, idempotent replay,
//! preparation of the RRsets, dry run or sequential application, audit, and
//! the answer.
use super::audit::{
    event_view, log_after, log_after_all, string_views, AuditEvent, AuditEventV, AuditLog, MAX_EVENTS,
};
use super::auth::{hex_encode, sha256, sha256_bytes};
use super::limits::{
    cache_get_spec, cache_put_spec, limiter_step, text_eq, CacheEntryV, IdempotencyCache, WriteLimiter,
};
use super::records::{
    api_error_view, collect_values, from_zone_error_spec, mutation_view, parse_rtype, parse_zone_name,
    placeholder_rdata, placeholder_spec, record_view_views, resolve_ttl, rtype_spec, ttl_spec, values_spec,
    view_of, views_for, views_for_spec, views_of, zone_name_spec, ApiError, ApiErrorV, MutationResponse,
    MutationResponseV, RecordPolicy, RecordView, UpsertBody,
};
use crate::text::{ascii_chars, hex_bytes, lossy_text, str_bytes, text_from_bytes, trim, trim_bytes};
use crate::wire::message::record_views;
use crate::wire::name::{lower_labels, Name};
use crate::wire::question::{mnemonic_of, upper_bytes, QType};
use crate::wire::rr::{rdata_type, rdata_view, RData, RDataV, RecordV};
use crate::zone::load::{qualify, qualify_spec, utf8};
use crate::zone::mutate::{delete_state, rdata_views, serial_of, upsert_state, ZoneState};
use crate::zone::rdata::{parse_rdata, rdata_from_text, rdata_presentation, rdata_text};
use crate::zone::registry::{find_zone, ZoneRegistry};
use crate::zone::{name_str, text, zone_error_view, Zone, ZoneErrorV};
use vstd::prelude::*;
use vstd::string::{StringExecFns, StringSliceAdditionalSpecFns};

verus! {

/// An RRset ready to write: owner, TTL and data.
pub struct PreparedRRset {
    pub owner: Name,
    pub ttl: u32,
    pub data: Vec<RData>,
}

/// Abstract prepared RRset.
pub struct PreparedV {
    pub owner: Seq<Seq<u8>>,
    pub ttl: u32,
    pub data: Seq<RDataV>,
}

pub open spec fn prepared_view(p: PreparedRRset) -> PreparedV {
    PreparedV { owner: p.owner@, ttl: p.ttl, data: rdata_views(p.data@) }
}

pub open spec fn prepared_views(v: Seq<PreparedRRset>) -> Seq<PreparedV> {
    v.map_values(|p: PreparedRRset| prepared_view(p))
}

/// The RDATA of each value, parsed as type `rt`; the first failure wins.
pub open spec fn parse_values(rt: Seq<char>, vs: Seq<Seq<char>>) -> Result<Seq<RDataV>, ApiErrorV>
    decreases vs.len(),
{
    if vs.len() == 0 {
        Ok(seq![])
    } else {
        match parse_values(rt, vs.drop_last()) {
            Err(e) => Err(e),
            Ok(ds) => match rdata_from_text(Seq::<char>::empty(), upper_bytes(utf8(rt)), utf8(vs.last()), true) {
                Ok(d) => Ok(ds.push(d)),
                Err(e) => Err(from_zone_error_spec(e)),
            },
        }
    }
}

/// One write body prepared against a zone with origin `origin`.
pub open spec fn prepare_one(origin: Seq<Seq<u8>>, b: UpsertBody, is_delete: bool, p: RecordPolicy) -> Result<
    PreparedV,
    ApiErrorV,
> {
    match qualify_spec(utf8(b.name@), origin) {
        Err(e) => Err(from_zone_error_spec(e)),
        Ok(owner) => match rtype_spec(b.rtype@) {
            Err(e) => Err(e),
            Ok(t) => if is_delete {
                match placeholder_spec(t) {
                    Err(e) => Err(e),
                    Ok(d) => Ok(PreparedV { owner, ttl: 0, data: seq![d] }),
                }
            } else {
                match values_spec(b) {
                    Err(e) => Err(e),
                    Ok(vs) => match ttl_spec(b.ttl, p) {
                        Err(e) => Err(e),
                        Ok(ttl) => match parse_values(b.rtype@, vs) {
                            Err(e) => Err(e),
                            Ok(ds) => Ok(PreparedV { owner, ttl, data: ds }),
                        },
                    },
                }
            },
        },
    }
}

/// Every body prepared in order; the first failure wins.
pub open spec fn prepare_spec(origin: Seq<Seq<u8>>, bodies: Seq<UpsertBody>, is_delete: bool, p: RecordPolicy) -> Result<
    Seq<PreparedV>,
    ApiErrorV,
>
    decreases bodies.len(),
{
    if bodies.len() == 0 {
        Ok(seq![])
    } else {
        match prepare_spec(origin, bodies.drop_last(), is_delete, p) {
            Err(e) => Err(e),
            Ok(ps) => match prepare_one(origin, bodies.last(), is_delete, p) {
                Err(e) => Err(e),
                Ok(x) => Ok(ps.push(x)),
            },
        }
    }
}

proof fn lemma_prepare_err_sticky(origin: Seq<Seq<u8>>, bodies: Seq<UpsertBody>, d: bool, p: RecordPolicy, i: int)
    requires
        0 <= i <= bodies.len(),
        prepare_spec(origin, bodies.take(i), d, p) is Err,
    ensures
        prepare_spec(origin, bodies, d, p) == prepare_spec(origin, bodies.take(i), d, p),
    decreases bodies.len() - i,
{
    if i < bodies.len() {
        assert(bodies.take(i + 1).drop_last() =~= bodies.take(i));
        lemma_prepare_err_sticky(origin, bodies, d, p, i + 1);
    } else {
        assert(bodies.take(i) =~= bodies);
    }
}

proof fn lemma_values_err_sticky(rt: Seq<char>, vs: Seq<Seq<char>>, i: int)
    requires
        0 <= i <= vs.len(),
        parse_values(rt, vs.take(i)) is Err,
    ensures
        parse_values(rt, vs) == parse_values(rt, vs.take(i)),
    decreases vs.len() - i,
{
    if i < vs.len() {
        assert(vs.take(i + 1).drop_last() =~= vs.take(i));
        lemma_values_err_sticky(rt, vs, i + 1);
    } else {
        assert(vs.take(i) =~= vs);
    }
}

fn parse_values_exec(rt: &String, vs: &Vec<String>) -> (r: Result<Vec<RData>, ApiError>)
    ensures
        match parse_values(rt@, string_views(vs@)) {
            Ok(ds) => r matches Ok(v) && rdata_views(v@) == ds,
            Err(e) => r matches Err(x) && api_error_view(x) == e,
        },
{
    let ghost sv = string_views(vs@);
    let mut out: Vec<RData> = Vec::new();
    let mut i: usize = 0;
    proof {
        assert(sv.take(0) =~= Seq::<Seq<char>>::empty());
        assert(rdata_views(out@) =~= Seq::<RDataV>::empty());
    }
    while i < vs.len()
        invariant
            i <= vs@.len(),
            sv == string_views(vs@),
            parse_values(rt@, sv.take(i as int)) == Ok::<Seq<RDataV>, ApiErrorV>(rdata_views(out@)),
        decreases vs@.len() - i,
    {
        proof {
            assert(sv.take(i as int + 1).drop_last() =~= sv.take(i as int));
            assert(sv.take(i as int + 1).last() == vs@[i as int]@);
        }
        match parse_rdata(rt.as_str(), vs[i].as_str()) {
            Ok(d) => {
                let ghost before = out@;
                out.push(d);
                proof {
                    assert(rdata_views(out@) =~= rdata_views(before).push(rdata_view(d)));
                }
            },
            Err(e) => {
                proof {
                    lemma_values_err_sticky(rt@, sv, i as int + 1);
                }
                return Err(ApiError::from_zone_error(e));
            },
        }
        i = i + 1;
    }
    proof {
        assert(sv.take(i as int) =~= sv);
    }
    Ok(out)
}

fn is_delete_action(action: &str) -> (r: bool)
    ensures
        r == (action@ == "delete"@),
{
    text_eq(action, "delete")
}

fn prepare_one_exec(zone: &Zone, body: &UpsertBody, is_delete: bool, policy: &RecordPolicy) -> (r: Result<
    PreparedRRset,
    ApiError,
>)
    ensures
        match prepare_one(zone.origin_v(), *body, is_delete, *policy) {
            Ok(pv) => r matches Ok(x) && prepared_view(x) == pv,
            Err(e) => r matches Err(x) && api_error_view(x) == e,
        },
{
    let owner = match qualify(body.name.as_str(), zone.origin()) {
        Ok(n) => n,
        Err(e) => return Err(ApiError::from_zone_error(e)),
    };
    let rtype = match parse_rtype(body.rtype.as_str()) {
        Ok(t) => t,
        Err(e) => return Err(e),
    };
    if is_delete {
        let placeholder = match placeholder_rdata(rtype) {
            Ok(d) => d,
            Err(e) => return Err(e),
        };
        let mut data: Vec<RData> = Vec::new();
        data.push(placeholder);
        let p = PreparedRRset { owner, ttl: 0, data };
        proof {
            assert(rdata_views(p.data@) =~= seq![rdata_view(placeholder)]);
        }
        return Ok(p);
    }
    let values = match collect_values(body) {
        Ok(v) => v,
        Err(e) => return Err(e),
    };
    let ttl = match resolve_ttl(body.ttl, policy) {
        Ok(t) => t,
        Err(e) => return Err(e),
    };
    let data = match parse_values_exec(&body.rtype, &values) {
        Ok(d) => d,
        Err(e) => return Err(e),
    };
    Ok(PreparedRRset { owner, ttl, data })
}

/// Prepare the RRsets of a write against `zone`.
pub fn prepare_rrsets(zone: &Zone, bodies: &Vec<UpsertBody>, action: &str, policy: &RecordPolicy) -> (r: Result<
    Vec<PreparedRRset>,
    ApiError,
>)
    ensures
        match prepare_spec(zone.origin_v(), bodies@, action@ == "delete"@, *policy) {
            Ok(ps) => r matches Ok(v) && prepared_views(v@) == ps,
            Err(e) => r matches Err(x) && api_error_view(x) == e,
        },
{
    let is_delete = is_delete_action(action);
    let mut out: Vec<PreparedRRset> = Vec::new();
    let mut i: usize = 0;
    proof {
        assert(bodies@.take(0) =~= Seq::<UpsertBody>::empty());
        assert(prepared_views(out@) =~= Seq::<PreparedV>::empty());
    }
    while i < bodies.len()
        invariant
            i <= bodies@.len(),
            is_delete == (action@ == "delete"@),
            prepare_spec(zone.origin_v(), bodies@.take(i as int), is_delete, *policy) == Ok::<
                Seq<PreparedV>,
                ApiErrorV,
            >(prepared_views(out@)),
        decreases bodies@.len() - i,
    {
        proof {
            assert(bodies@.take(i as int + 1).drop_last() =~= bodies@.take(i as int));
            assert(bodies@.take(i as int + 1).last() == bodies@[i as int]);
        }
        match prepare_one_exec(zone, &bodies[i], is_delete, policy) {
            Ok(p) => {
                let ghost before = out@;
                out.push(p);
                proof {
                    assert(prepared_views(out@) =~= prepared_views(before).push(prepared_view(p)));
                }
            },
            Err(e) => {
                proof {
                    lemma_prepare_err_sticky(zone.origin_v(), bodies@, is_delete, *policy, i as int + 1);
                }
                return Err(e);
            },
        }
        i = i + 1;
    }
    proof {
        assert(bodies@.take(i as int) =~= bodies@);
    }
    Ok(out)
}

// ---------------------------------------------------------------------------
// Audit of a write
// ---------------------------------------------------------------------------

/// The audit event recorded for one prepared RRset (seq, links and hash are
/// filled in by the log).
pub open spec fn audit_event_for(
    action: Seq<char>,
    origin: Seq<Seq<u8>>,
    p: PreparedV,
    dry_run: bool,
    serial: Option<u32>,
    key: Option<Seq<char>>,
    now: u64,
) -> AuditEventV {
    AuditEventV {
        seq: 0,
        ts_unix_ms: now,
        action,
        zone: name_str(origin),
        name: name_str(p.owner),
        rtype: if p.data.len() > 0 {
            match mnemonic_of(rdata_type(p.data[0])) {
                Some(m) => m,
                None => "?"@,
            }
        } else {
            "?"@
        },
        ttl: Some(p.ttl),
        values: p.data.map_values(|d: RDataV| rdata_text(d)),
        dry_run,
        result: "ok"@,
        serial,
        idempotency_key: key,
        prev_hash: seq![],
        hash: seq![],
    }
}

pub open spec fn audit_events_for(
    action: Seq<char>,
    origin: Seq<Seq<u8>>,
    ps: Seq<PreparedV>,
    dry_run: bool,
    serial: Option<u32>,
    key: Option<Seq<char>>,
    now: u64,
) -> Seq<AuditEventV> {
    ps.map_values(|p: PreparedV| audit_event_for(action, origin, p, dry_run, serial, key, now))
}

fn opt_string(o: &Option<String>) -> (r: Option<String>)
    ensures
        match o {
            Some(s) => r matches Some(t) && t@ == s@,
            None => r is None,
        },
{
    match o {
        Some(s) => Some(s.clone()),
        None => None,
    }
}

/// Record one audit event per prepared RRset.
fn audit_prepared(
    log: &mut AuditLog,
    action: &str,
    origin: &Name,
    prepared: &Vec<PreparedRRset>,
    dry_run: bool,
    serial: Option<u32>,
    key: &Option<String>,
    now_ms: u64,
)
    requires
        old(log).events().len() <= MAX_EVENTS,
    ensures
        final(log).events().len() <= MAX_EVENTS,
        (final(log).events(), final(log).head()) == log_after_all(
            old(log).events(),
            old(log).head(),
            audit_events_for(
                action@,
                origin@,
                prepared_views(prepared@),
                dry_run,
                serial,
                match key {
                    Some(k) => Some(k@),
                    None => None,
                },
                now_ms,
            ),
        ),
{
    let ghost kv = match key {
        Some(k) => Some(k@),
        None => None::<Seq<char>>,
    };
    let ghost es = audit_events_for(action@, origin@, prepared_views(prepared@), dry_run, serial, kv, now_ms);
    let mut i: usize = 0;
    proof {
        assert(es.take(0) =~= Seq::<AuditEventV>::empty());
    }
    while i < prepared.len()
        invariant
            i <= prepared@.len(),
            es == audit_events_for(action@, origin@, prepared_views(prepared@), dry_run, serial, kv, now_ms),
            kv == match key {
                Some(k) => Some(k@),
                None => None::<Seq<char>>,
            },
            log.events().len() <= MAX_EVENTS,
            (log.events(), log.head()) == log_after_all(old(log).events(), old(log).head(), es.take(i as int)),
        decreases prepared@.len() - i,
    {
        let p = &prepared[i];
        let rtype = if p.data.len() > 0 {
            match p.data[0].rtype().mnemonic() {
                Some(m) => text(m),
                None => text("?"),
            }
        } else {
            text("?")
        };
        let mut values: Vec<String> = Vec::new();
        let mut j: usize = 0;
        while j < p.data.len()
            invariant
                j <= p.data@.len(),
                string_views(values@) == rdata_views(p.data@).map_values(|d: RDataV| rdata_text(d)).take(j as int),
            decreases p.data@.len() - j,
        {
            let v = rdata_presentation(&p.data[j]);
            let ghost before = values@;
            values.push(v);
            proof {
                assert(rdata_views(p.data@)[j as int] == rdata_view(p.data@[j as int]));
                assert(string_views(values@) =~= string_views(before).push(v@));
                assert(rdata_views(p.data@).map_values(|d: RDataV| rdata_text(d)).take(j as int + 1)
                    =~= rdata_views(p.data@).map_values(|d: RDataV| rdata_text(d)).take(j as int).push(v@));
            }
            j = j + 1;
        }
        proof {
            assert(rdata_views(p.data@).map_values(|d: RDataV| rdata_text(d)).take(j as int) =~= rdata_views(
                p.data@,
            ).map_values(|d: RDataV| rdata_text(d)));
        }
        let event = AuditEvent {
            seq: 0,
            ts_unix_ms: now_ms,
            action: text(action),
            zone: origin.to_ascii(),
            name: p.owner.to_ascii(),
            rtype,
            ttl: Some(p.ttl),
            values,
            dry_run,
            result: text("ok"),
            serial,
            idempotency_key: opt_string(key),
            prev_hash: String::new(),
            hash: String::new(),
        };
        proof {
            assert(prepared_views(prepared@)[i as int] == prepared_view(prepared@[i as int]));
            if p.data@.len() > 0 {
                assert(rdata_views(p.data@)[0] == rdata_view(p.data@[0]));
            }
            assert(string_views(event.values@) =~= rdata_views(p.data@).map_values(|d: RDataV| rdata_text(d)));
            assert(event_view(event) == es[i as int]);
            assert(es.take(i as int + 1).drop_last() =~= es.take(i as int));
            assert(es.take(i as int + 1).last() == es[i as int]);
        }
        let _recorded = log.append(event);
        i = i + 1;
    }
    proof {
        assert(es.take(i as int) =~= es);
    }
}

// ---------------------------------------------------------------------------
// Applying a write
// ---------------------------------------------------------------------------

/// Upserts of the prepared RRsets in order: the state reached and the first
/// error (later RRsets are not tried; earlier ones stay applied).
pub open spec fn apply_upserts(z: ZoneState, ps: Seq<PreparedV>) -> (ZoneState, Option<ZoneErrorV>)
    decreases ps.len(),
{
    if ps.len() == 0 {
        (z, None)
    } else {
        let (z1, e1) = apply_upserts(z, ps.drop_last());
        match e1 {
            Some(e) => (z1, Some(e)),
            None => match upsert_state(z1, ps.last().owner, ps.last().ttl, ps.last().data) {
                Ok(z2) => (z2, None),
                Err(e) => (z1, Some(e)),
            },
        }
    }
}

/// Deletes of the prepared RRsets in order (each names its type by its
/// first RDATA): the state reached, the records removed, the first error.
pub open spec fn apply_deletes(z: ZoneState, ps: Seq<PreparedV>) -> (ZoneState, Seq<RecordV>, Option<ZoneErrorV>)
    decreases ps.len(),
{
    if ps.len() == 0 {
        (z, seq![], None)
    } else {
        let (z1, rm, e1) = apply_deletes(z, ps.drop_last());
        match e1 {
            Some(e) => (z1, rm, Some(e)),
            None => match delete_state(z1, ps.last().owner, rdata_type(ps.last().data[0])) {
                Ok((z2, removed)) => (z2, rm + removed, None),
                Err(e) => (z1, rm, Some(e)),
            },
        }
    }
}

/// The views answered for upserted RRsets.
pub open spec fn upsert_views(ps: Seq<PreparedV>) -> Seq<super::records::RecordViewV>
    decreases ps.len(),
{
    if ps.len() == 0 {
        seq![]
    } else {
        upsert_views(ps.drop_last()) + views_for_spec(ps.last().owner, ps.last().ttl, ps.last().data)
    }
}

pub open spec fn record_views_of(rs: Seq<RecordV>) -> Seq<super::records::RecordViewV> {
    rs.map_values(|r: RecordV| view_of(r))
}

fn copy_data(v: &Vec<RData>) -> (r: Vec<RData>)
    ensures
        rdata_views(r@) == rdata_views(v@),
{
    let mut out: Vec<RData> = Vec::new();
    let mut i: usize = 0;
    while i < v.len()
        invariant
            i <= v@.len(),
            rdata_views(out@) == rdata_views(v@).take(i as int),
        decreases v@.len() - i,
    {
        let d = v[i].clone();
        let ghost before = out@;
        out.push(d);
        proof {
            assert(rdata_views(out@) =~= rdata_views(before).push(rdata_view(d)));
            assert(rdata_views(v@).take(i as int + 1) =~= rdata_views(v@).take(i as int).push(rdata_view(v@[i as int])));
        }
        i = i + 1;
    }
    proof {
        assert(rdata_views(v@).take(i as int) =~= rdata_views(v@));
    }
    out
}

fn append_views(out: &mut Vec<RecordView>, more: Vec<RecordView>)
    ensures
        record_view_views(final(out)@) == record_view_views(old(out)@) + record_view_views(more@),
{
    let mut more = more;
    let ghost m = more@;
    let ghost o0 = out@;
    let mut i: usize = 0;
    let ghost mut k: int = 0;
    proof {
        assert(record_view_views(m).take(0) =~= Seq::<super::records::RecordViewV>::empty());
        assert(record_view_views(o0) + Seq::<super::records::RecordViewV>::empty() =~= record_view_views(o0));
        assert(m.skip(0) =~= m);
    }
    while more.len() > 0
        invariant
            0 <= k <= m.len(),
            more@ == m.skip(k),
            record_view_views(out@) == record_view_views(o0) + record_view_views(m).take(k),
        decreases more@.len(),
    {
        let v = more.remove(0);
        proof {
            assert(v == m[k]);
            assert(more@ =~= m.skip(k + 1));
        }
        let ghost before = out@;
        out.push(v);
        proof {
            assert(record_view_views(out@) =~= record_view_views(before).push(super::records::record_view_view(v)));
            assert(record_view_views(m).take(k + 1) =~= record_view_views(m).take(k).push(
                super::records::record_view_view(m[k]),
            ));
            k = k + 1;
        }
    }
    proof {
        assert(m.skip(k).len() == 0);
        assert(record_view_views(m).take(k) =~= record_view_views(m));
    }
}

/// Apply upserts of `prepared` to the zone registered as `origin` (at `zi`).
fn apply_upserts_exec(zones: &mut ZoneRegistry, origin: &Name, prepared: &Vec<PreparedRRset>, zi: usize) -> (r:
    Result<(u32, Vec<RecordView>), ApiError>)
    requires
        old(zones).wf(),
        zi < old(zones).zones().len(),
        find_zone(old(zones).zones(), lower_labels(origin@)) == Some(zi as int),
    ensures
        final(zones).wf(),
        final(zones).zones().len() == old(zones).zones().len(),
        forall|j: int| 0 <= j < old(zones).zones().len() && j != zi ==> #[trigger] final(zones).zones()[j] == old(
            zones,
        ).zones()[j],
        final(zones).zones()[zi as int].origin_v() == old(zones).zones()[zi as int].origin_v(),
        ({
            let (zf, err) = apply_upserts(old(zones).zones()[zi as int].state(), prepared_views(prepared@));
            &&& final(zones).zones()[zi as int].state() == zf
            &&& match err {
                Some(e) => r matches Err(x) && api_error_view(x) == from_zone_error_spec(e),
                None => r matches Ok((serial, views)) && serial == serial_of(zf.soa) && record_view_views(views@)
                    == upsert_views(prepared_views(prepared@)),
            }
        }),
{
    let ghost pv = prepared_views(prepared@);
    let ghost z0 = zones.zones()[zi as int].state();
    let ghost zs0 = zones.zones();
    let mut serial = zones.list()[zi].serial();
    let mut views: Vec<RecordView> = Vec::new();
    let mut i: usize = 0;
    proof {
        assert(pv.take(0) =~= Seq::<PreparedV>::empty());
        assert(record_view_views(views@) =~= Seq::<super::records::RecordViewV>::empty());
    }
    while i < prepared.len()
        invariant
            i <= prepared@.len(),
            pv == prepared_views(prepared@),
            zs0 == old(zones).zones(),
            zones.wf(),
            zones.zones().len() == zs0.len(),
            0 <= zi < zs0.len(),
            forall|j: int| 0 <= j < zs0.len() && j != zi ==> #[trigger] zones.zones()[j] == zs0[j],
            zones.zones()[zi as int].origin_v() == zs0[zi as int].origin_v(),
            z0 == zs0[zi as int].state(),
            find_zone(zs0, lower_labels(origin@)) == Some(zi as int),
            apply_upserts(z0, pv.take(i as int)) == (zones.zones()[zi as int].state(), None::<ZoneErrorV>),
            serial == serial_of(zones.zones()[zi as int].state().soa),
            record_view_views(views@) == upsert_views(pv.take(i as int)),
        decreases prepared@.len() - i,
    {
        proof {
            crate::zone::registry::lemma_lookup(zones, lower_labels(origin@), zi as int);
            assert(pv.take(i as int + 1).drop_last() =~= pv.take(i as int));
            assert(pv.take(i as int + 1).last() == pv[i as int]);
            assert(pv[i as int] == prepared_view(prepared@[i as int]));
        }
        let p = &prepared[i];
        let data = copy_data(&p.data);
        let out = match zones.upsert_rrset(origin, p.owner.clone(), p.ttl, data) {
            Ok(o) => o,
            Err(e) => {
                proof {
                    lemma_upserts_err_sticky(z0, pv, i as int + 1);
                }
                return Err(ApiError::from_zone_error(e));
            },
        };
        serial = out.serial;
        let vs = views_for(&p.owner, p.ttl, p.data.as_slice());
        append_views(&mut views, vs);
        i = i + 1;
    }
    proof {
        assert(pv.take(i as int) =~= pv);
    }
    Ok((serial, views))
}

proof fn lemma_upserts_err_sticky(z: ZoneState, ps: Seq<PreparedV>, i: int)
    requires
        0 <= i <= ps.len(),
        apply_upserts(z, ps.take(i)).1 is Some,
    ensures
        apply_upserts(z, ps) == apply_upserts(z, ps.take(i)),
    decreases ps.len() - i,
{
    if i < ps.len() {
        assert(ps.take(i + 1).drop_last() =~= ps.take(i));
        lemma_upserts_err_sticky(z, ps, i + 1);
    } else {
        assert(ps.take(i) =~= ps);
    }
}

/// Apply deletes of `prepared` to the zone registered as `origin` (at `zi`).
fn apply_deletes_exec(zones: &mut ZoneRegistry, origin: &Name, prepared: &Vec<PreparedRRset>, zi: usize) -> (r:
    Result<(u32, Vec<RecordView>), ApiError>)
    requires
        old(zones).wf(),
        zi < old(zones).zones().len(),
        find_zone(old(zones).zones(), lower_labels(origin@)) == Some(zi as int),
        forall|i: int| 0 <= i < prepared@.len() ==> (#[trigger] prepared@[i]).data@.len() > 0,
    ensures
        final(zones).wf(),
        final(zones).zones().len() == old(zones).zones().len(),
        forall|j: int| 0 <= j < old(zones).zones().len() && j != zi ==> #[trigger] final(zones).zones()[j] == old(
            zones,
        ).zones()[j],
        final(zones).zones()[zi as int].origin_v() == old(zones).zones()[zi as int].origin_v(),
        ({
            let (zf, removed, err) = apply_deletes(old(zones).zones()[zi as int].state(), prepared_views(prepared@));
            &&& final(zones).zones()[zi as int].state() == zf
            &&& match err {
                Some(e) => r matches Err(x) && api_error_view(x) == from_zone_error_spec(e),
                None => r matches Ok((serial, views)) && serial == serial_of(zf.soa) && record_view_views(views@)
                    == record_views_of(removed),
            }
        }),
{
    let ghost pv = prepared_views(prepared@);
    let ghost z0 = zones.zones()[zi as int].state();
    let ghost zs0 = zones.zones();
    let mut serial = zones.list()[zi].serial();
    let mut views: Vec<RecordView> = Vec::new();
    let mut i: usize = 0;
    proof {
        assert(pv.take(0) =~= Seq::<PreparedV>::empty());
        assert(record_view_views(views@) =~= Seq::<super::records::RecordViewV>::empty());
        assert(record_views_of(Seq::<RecordV>::empty()) =~= Seq::<super::records::RecordViewV>::empty());
    }
    while i < prepared.len()
        invariant
            i <= prepared@.len(),
            pv == prepared_views(prepared@),
            forall|k: int| 0 <= k < prepared@.len() ==> (#[trigger] prepared@[k]).data@.len() > 0,
            zs0 == old(zones).zones(),
            zones.wf(),
            zones.zones().len() == zs0.len(),
            0 <= zi < zs0.len(),
            forall|j: int| 0 <= j < zs0.len() && j != zi ==> #[trigger] zones.zones()[j] == zs0[j],
            zones.zones()[zi as int].origin_v() == zs0[zi as int].origin_v(),
            z0 == zs0[zi as int].state(),
            find_zone(zs0, lower_labels(origin@)) == Some(zi as int),
            apply_deletes(z0, pv.take(i as int)).0 == zones.zones()[zi as int].state(),
            apply_deletes(z0, pv.take(i as int)).2 is None,
            serial == serial_of(zones.zones()[zi as int].state().soa),
            record_view_views(views@) == record_views_of(apply_deletes(z0, pv.take(i as int)).1),
        decreases prepared@.len() - i,
    {
        proof {
            crate::zone::registry::lemma_lookup(zones, lower_labels(origin@), zi as int);
            assert(pv.take(i as int + 1).drop_last() =~= pv.take(i as int));
            assert(pv.take(i as int + 1).last() == pv[i as int]);
            assert(pv[i as int] == prepared_view(prepared@[i as int]));
            assert(prepared@[i as int].data@.len() > 0);
            assert(rdata_views(prepared@[i as int].data@)[0] == rdata_view(prepared@[i as int].data@[0]));
        }
        let p = &prepared[i];
        let qtype = p.data[0].rtype();
        let ghost rm0 = apply_deletes(z0, pv.take(i as int)).1;
        let out = match zones.delete_rrset(origin, &p.owner, qtype) {
            Ok(o) => o,
            Err(e) => {
                proof {
                    lemma_deletes_err_sticky(z0, pv, i as int + 1);
                }
                return Err(ApiError::from_zone_error(e));
            },
        };
        serial = out.serial;
        let vs = views_of(out.removed.as_slice());
        append_views(&mut views, vs);
        proof {
            let removed = record_views(out.removed@);
            assert(record_views_of(rm0 + removed) =~= record_views_of(rm0) + record_views_of(removed));
        }
        i = i + 1;
    }
    proof {
        assert(pv.take(i as int) =~= pv);
    }
    Ok((serial, views))
}

proof fn lemma_deletes_err_sticky(z: ZoneState, ps: Seq<PreparedV>, i: int)
    requires
        0 <= i <= ps.len(),
        apply_deletes(z, ps.take(i)).2 is Some,
    ensures
        apply_deletes(z, ps) == apply_deletes(z, ps.take(i)),
    decreases ps.len() - i,
{
    if i < ps.len() {
        assert(ps.take(i + 1).drop_last() =~= ps.take(i));
        lemma_deletes_err_sticky(z, ps, i + 1);
    } else {
        assert(ps.take(i) =~= ps);
    }
}

/// The Idempotency-Key of a request: the header value trimmed, if not blank.
pub open spec fn idem_key_spec(h: Option<&str>) -> Option<Seq<char>> {
    match h {
        Some(v) => if trim(v.spec_bytes()).len() > 0 {
            Some(lossy_text(trim(v.spec_bytes())))
        } else {
            None
        },
        None => None,
    }
}

/// The hash a request body is remembered by: hex SHA-256 of its canonical
/// JSON.
pub open spec fn body_hash_spec(request_json: Seq<u8>) -> Seq<char> {
    ascii_chars(hex_bytes(sha256(request_json)))
}

fn idem_key(h: Option<&str>) -> (r: Option<String>)
    ensures
        match idem_key_spec(h) {
            Some(k) => r matches Some(s) && s@ == k,
            None => r is None,
        },
{
    match h {
        Some(v) => {
            let t = trim_bytes(str_bytes(v));
            if t.len() > 0 {
                Some(text_from_bytes(t.as_slice()))
            } else {
                None
            }
        },
        None => None,
    }
}

proof fn lemma_prepare_delete_nonempty(origin: Seq<Seq<u8>>, bodies: Seq<UpsertBody>, p: RecordPolicy)
    ensures
        match prepare_spec(origin, bodies, true, p) {
            Ok(ps) => forall|i: int| 0 <= i < ps.len() ==> (#[trigger] ps[i]).data.len() > 0,
            Err(_) => true,
        },
    decreases bodies.len(),
{
    if bodies.len() > 0 {
        lemma_prepare_delete_nonempty(origin, bodies.drop_last(), p);
    }
}

/// The answer and the state a write leaves.
pub open spec fn write_effects(
    z: Zone,
    o: Seq<Seq<u8>>,
    ps: Seq<PreparedV>,
    is_delete: bool,
    dry_run: bool,
) -> (ZoneState, Option<ZoneErrorV>, MutationResponseV) {
    if dry_run {
        (
            z.state(),
            None,
            MutationResponseV { ok: true, dry_run: true, serial: serial_of(z.soa_v()), records: upsert_views(ps) },
        )
    } else if is_delete {
        let (zf, removed, err) = apply_deletes(z.state(), ps);
        (zf, err, MutationResponseV { ok: true, dry_run: false, serial: serial_of(zf.soa), records: record_views_of(removed) })
    } else {
        let (zf, err) = apply_upserts(z.state(), ps);
        (zf, err, MutationResponseV { ok: true, dry_run: false, serial: serial_of(zf.soa), records: upsert_views(ps) })
    }
}

/// Handle a record write: `bodies` for zone `zone` with `action`
/// (`upsert`, `batch_upsert` or `delete`), at time `now_ms`.
///
/// Rate limit, then zone name and zone; a repeated Idempotency-Key with the
/// same body replays the first answer and a different body conflicts; then
/// every RRset is prepared (any failure changes nothing). A dry run answers
/// what would be written and audits it; otherwise the RRsets are written in
/// order (a failure leaves earlier ones written and is not audited), the
/// write is audited, and the answer is remembered under the key.
#[verifier::rlimit(80)]
pub fn apply_writes(
    zones: &mut ZoneRegistry,
    audit: &mut AuditLog,
    idem: &mut IdempotencyCache,
    limiter: &mut WriteLimiter,
    policy: &RecordPolicy,
    zone: &str,
    bodies: &Vec<UpsertBody>,
    dry_run: bool,
    idempotency_header: Option<&str>,
    request_json: &[u8],
    action: &str,
    now_ms: u64,
) -> (r: Result<(u16, MutationResponse), ApiError>)
    requires
        old(zones).wf(),
        old(audit).events().len() <= MAX_EVENTS,
    ensures
        final(zones).wf(),
        final(audit).events().len() <= MAX_EVENTS,
        final(limiter).view() == limiter_step(old(limiter).view(), now_ms).0,
        ({
            let zs = old(zones).zones();
            let unchanged = final(zones).zones() == zs && final(audit).events() == old(audit).events()
                && final(audit).head() == old(audit).head() && final(idem).entries() == old(idem).entries();
            if !limiter_step(old(limiter).view(), now_ms).1 {
                r matches Err(x) && api_error_view(x) == ApiErrorV::RateLimited && unchanged
            } else {
                match zone_name_spec(zone.spec_bytes()) {
                    Err(e) => r matches Err(x) && api_error_view(x) == e && unchanged,
                    Ok(o) => match find_zone(zs, lower_labels(o)) {
                        None => r matches Err(x) && api_error_view(x) == ApiErrorV::NotFound(
                            "unknown zone "@ + name_str(o),
                        ) && unchanged,
                        Some(zi) => {
                            let key = idem_key_spec(idempotency_header);
                            let hash = body_hash_spec(request_json@);
                            let cached = match key {
                                None => Ok(None),
                                Some(k) => cache_get_spec(old(idem).entries(), k, hash),
                            };
                            match cached {
                                Err(e) => r matches Err(x) && api_error_view(x) == e && unchanged,
                                Ok(Some((st, b))) => r matches Ok((st2, b2)) && st2 == st && mutation_view(b2) == b
                                    && unchanged,
                                Ok(None) => match prepare_spec(
                                    zs[zi].origin_v(),
                                    bodies@,
                                    action@ == "delete"@,
                                    *policy,
                                ) {
                                    Err(e) => r matches Err(x) && api_error_view(x) == e && unchanged,
                                    Ok(ps) => {
                                        let (zf, err, resp) = write_effects(
                                            zs[zi],
                                            o,
                                            ps,
                                            action@ == "delete"@,
                                            dry_run,
                                        );
                                        &&& final(zones).zones().len() == zs.len()
                                        &&& forall|j: int|
                                            0 <= j < zs.len() && j != zi ==> #[trigger] final(zones).zones()[j]
                                                == zs[j]
                                        &&& final(zones).zones()[zi].state() == zf
                                        &&& match err {
                                            Some(e) => r matches Err(x) && api_error_view(x) == from_zone_error_spec(
                                                e,
                                            ) && final(audit).events() == old(audit).events() && final(audit).head()
                                                == old(audit).head() && final(idem).entries() == old(
                                                idem,
                                            ).entries(),
                                            None => {
                                                &&& r matches Ok((st, b)) && st == 200 && mutation_view(b) == resp
                                                &&& (final(audit).events(), final(audit).head()) == log_after_all(
                                                    old(audit).events(),
                                                    old(audit).head(),
                                                    audit_events_for(
                                                        action@,
                                                        o,
                                                        ps,
                                                        dry_run,
                                                        Some(resp.serial),
                                                        key,
                                                        now_ms,
                                                    ),
                                                )
                                                &&& final(idem).entries() == if dry_run || key is None {
                                                    old(idem).entries()
                                                } else {
                                                    cache_put_spec(
                                                        old(idem).entries(),
                                                        CacheEntryV {
                                                            key: key->0,
                                                            body_hash: hash,
                                                            status: 200,
                                                            body: resp,
                                                        },
                                                    )
                                                }
                                            },
                                        }
                                    },
                                },
                            }
                        },
                    },
                }
            }
        }),
{
    if !limiter.allow(now_ms) {
        return Err(ApiError::RateLimited);
    }
    let origin = match parse_zone_name(zone) {
        Ok(n) => n,
        Err(e) => return Err(e),
    };
    let zi = match zones.index_of(&origin) {
        Some(i) => i,
        None => {
            let mut m = text("unknown zone ");
            m.append(origin.to_ascii().as_str());
            return Err(ApiError::NotFound(m));
        },
    };
    let key = idem_key(idempotency_header);
    let digest = sha256_bytes(request_json);
    let body_hash = hex_encode(digest.as_slice());
    match &key {
        Some(k) => match idem.get(k.as_str(), body_hash.as_str()) {
            Err(e) => return Err(e),
            Ok(Some((status, body))) => return Ok((status, body)),
            Ok(None) => {},
        },
        None => {},
    }
    let prepared = {
        let z = &zones.list()[zi];
        match prepare_rrsets(z, bodies, action, policy) {
            Ok(p) => p,
            Err(e) => return Err(e),
        }
    };
    let ghost ps = prepared_views(prepared@);
    let ghost z0 = zones.zones()[zi as int];
    let is_delete = is_delete_action(action);
    if dry_run {
        let serial = zones.list()[zi].serial();
        let mut views: Vec<RecordView> = Vec::new();
        let mut i: usize = 0;
        proof {
            assert(ps.take(0) =~= Seq::<PreparedV>::empty());
            assert(record_view_views(views@) =~= Seq::<super::records::RecordViewV>::empty());
        }
        while i < prepared.len()
            invariant
                i <= prepared@.len(),
                ps == prepared_views(prepared@),
                record_view_views(views@) == upsert_views(ps.take(i as int)),
            decreases prepared@.len() - i,
        {
            proof {
                assert(ps.take(i as int + 1).drop_last() =~= ps.take(i as int));
                assert(ps.take(i as int + 1).last() == ps[i as int]);
                assert(ps[i as int] == prepared_view(prepared@[i as int]));
            }
            let p = &prepared[i];
            let vs = views_for(&p.owner, p.ttl, p.data.as_slice());
            append_views(&mut views, vs);
            i = i + 1;
        }
        proof {
            assert(ps.take(i as int) =~= ps);
        }
        audit_prepared(audit, action, &origin, &prepared, true, Some(serial), &key, now_ms);
        return Ok((200, MutationResponse { ok: true, dry_run: true, serial, records: views }));
    }
    let applied = if is_delete {
        proof {
            lemma_prepare_delete_nonempty(z0.origin_v(), bodies@, *policy);
            assert forall|i: int| 0 <= i < prepared@.len() implies (#[trigger] prepared@[i]).data@.len() > 0 by {
                assert(ps[i] == prepared_view(prepared@[i]));
            }
        }
        apply_deletes_exec(zones, &origin, &prepared, zi)
    } else {
        apply_upserts_exec(zones, &origin, &prepared, zi)
    };
    let (serial, views) = match applied {
        Ok(v) => v,
        Err(e) => return Err(e),
    };
    audit_prepared(audit, action, &origin, &prepared, false, Some(serial), &key, now_ms);
    let resp = MutationResponse { ok: true, dry_run: false, serial, records: views };
    match key {
        Some(k) => {
            let cached = super::limits::copy_response(&resp);
            idem.put(k, body_hash, 200, cached);
        },
        None => {},
    }
    Ok((200, resp))
}

} // verus!
