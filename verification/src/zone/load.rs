//! Building a zone from its document: owner names are qualified against the
//! origin, records converted from presentation text and indexed.
use super::index::{keys_unique, rrset_views, RRKey, RRset};
use super::rdata::{name_result, parse_name, parse_name_bytes, rdata_from_text, rdata_from_text_exec};
use super::toml_schema::{Record, ZoneDoc};
use super::{
    ends_with_labels, ends_with_name, in_zone, index_add, insert_record, lemma_in_zone_ci, soa_key, zone_error_view,
    Zone, ZoneError, ZoneErrorV,
};
use crate::text::{lossy_text, str_bytes, text_from_bytes};
use crate::wire::name::{join_labels, joined_labels, label_views, lower_labels, Name};
use crate::wire::question::{upper_ascii, upper_bytes, QClass};
use crate::wire::rr::{rdata_type, record_view, RData, RDataV, RecordV, ResourceRecord, Soa, SoaV};
use vstd::prelude::*;
use vstd::string::{StringExecFns, StringSliceAdditionalSpecFns};

verus! {

/// The UTF-8 bytes of a text.
pub open spec fn utf8(s: Seq<char>) -> Seq<u8> {
    vstd::utf8::encode_utf8(s)
}

/// The owner name that record text `n` names inside `origin`: `"@"` is the
/// origin, a trailing dot makes it absolute, anything else is relative to
/// the origin.
pub open spec fn qualify_spec(n: Seq<u8>, origin: Seq<Seq<u8>>) -> Result<Seq<Seq<u8>>, ZoneErrorV> {
    if n == "@".spec_bytes() {
        Ok(origin)
    } else if n.len() > 0 && n.last() == 46 {
        name_result(n)
    } else if origin.len() == 0 {
        name_result(n)
    } else {
        name_result(n + seq![46u8] + joined_labels(origin))
    }
}

/// Resolve a relative or absolute record name against the origin.
///
/// - `"@"` → the origin itself
/// - `"foo"` (no trailing dot) → `foo.<origin>`
/// - `"foo.example.com."` (trailing dot) → absolute; origin ignored
pub fn qualify(name: &str, origin: &Name) -> (r: Result<Name, ZoneError>)
    ensures
        match qualify_spec(name.spec_bytes(), origin@) {
            Ok(ls) => r matches Ok(n) && n@ == ls,
            Err(e) => r matches Err(err) && zone_error_view(err) == e,
        },
{
    let n = str_bytes(name);
    if crate::wire::compress::bytes_eq(n, str_bytes("@")) {
        return Ok(origin.clone());
    }
    if n.len() > 0 && n[n.len() - 1] == 46 {
        return parse_name_bytes(n);
    }
    if origin.is_root() {
        return parse_name_bytes(n);
    }
    let mut full = vstd::slice::slice_to_vec(n);
    full.push(46u8);
    let tail = join_labels(origin.labels());
    crate::text::push_bytes(&mut full, tail.as_slice());
    proof {
        assert(full@ =~= n@ + seq![46u8] + joined_labels(origin@));
    }
    parse_name_bytes(full.as_slice())
}

/// The labels' texts joined by dots.
pub open spec fn labels_text(ls: Seq<Seq<u8>>) -> Seq<char>
    decreases ls.len(),
{
    if ls.len() == 0 {
        seq![]
    } else if ls.len() == 1 {
        lossy_text(ls[0])
    } else {
        labels_text(ls.drop_last()) + seq!['.'] + lossy_text(ls.last())
    }
}

/// The text a loader error names an owner by: labels joined by dots, `"."`
/// for the root.
pub open spec fn format_name_text(ls: Seq<Seq<u8>>) -> Seq<char> {
    if ls.len() == 0 {
        "."@
    } else {
        labels_text(ls)
    }
}

/// Labels joined by dots (`"."` for the root).
pub fn format_name(n: &Name) -> (r: String)
    ensures
        r@ == format_name_text(n@),
{
    let ls = n.labels();
    if ls.len() == 0 {
        return super::text(".");
    }
    let mut s = String::new();
    let mut i: usize = 0;
    while i < ls.len()
        invariant
            i <= ls@.len(),
            label_views(ls@) == n@,
            ls@.len() == n@.len(),
            n@.len() > 0,
            s@ == labels_text(n@.take(i as int)),
        decreases ls@.len() - i,
    {
        proof {
            assert(n@.take(i as int + 1).drop_last() =~= n@.take(i as int));
            assert(n@[i as int] == ls@[i as int]@);
        }
        if i > 0 {
            s.append(".");
            proof {
                reveal_strlit(".");
            }
        }
        let piece = text_from_bytes(ls[i].as_slice());
        s.append(piece.as_str());
        i = i + 1;
        proof {
            if i == 1 {
                assert(n@.take(1) =~= seq![n@[0]]);
                assert(s@ =~= labels_text(n@.take(1)));
            } else {
                assert(s@ =~= labels_text(n@.take(i as int)));
            }
        }
    }
    proof {
        assert(n@.take(i as int) =~= n@);
    }
    s
}

/// The record a document entry describes, at owner `owner` with TTL `ttl`.
pub open spec fn convert_spec(owner: Seq<Seq<u8>>, ttl: u32, rec: Record) -> Result<RecordV, ZoneErrorV> {
    match rdata_from_text(format_name_text(owner), upper_bytes(utf8(rec.rtype@)), utf8(rec.value@), false) {
        Ok(d) => Ok(RecordV { name: owner, class: 1, ttl, data: d }),
        Err(e) => Err(e),
    }
}

/// Convert one document entry into a record (A, AAAA, NS, CNAME, PTR, TXT, MX).
pub fn convert_record(owner: Name, ttl: u32, rec: &Record) -> (r: Result<ResourceRecord, ZoneError>)
    ensures
        match convert_spec(owner@, ttl, *rec) {
            Ok(rv) => r matches Ok(rr) && record_view(rr) == rv,
            Err(e) => r matches Err(err) && zone_error_view(err) == e,
        },
{
    let owner_str = format_name(&owner);
    let u = upper_ascii(str_bytes(rec.rtype.as_str()));
    match rdata_from_text_exec(&owner_str, &u, str_bytes(rec.value.as_str()), false) {
        Ok(data) => Ok(ResourceRecord { name: owner, class: QClass(1), ttl, data }),
        Err(e) => Err(e),
    }
}

/// The TTL of an entry: its own, or the zone default.
pub open spec fn ttl_or(t: Option<u32>, default_ttl: u32) -> u32 {
    match t {
        Some(v) => v,
        None => default_ttl,
    }
}

/// The index after loading `recs` in order into `idx0`, or the first error.
pub open spec fn load_records(
    origin: Seq<Seq<u8>>,
    origin_text: Seq<char>,
    recs: Seq<Record>,
    default_ttl: u32,
    idx0: Map<RRKey, Seq<RecordV>>,
) -> Result<Map<RRKey, Seq<RecordV>>, ZoneErrorV>
    decreases recs.len(),
{
    if recs.len() == 0 {
        Ok(idx0)
    } else {
        match load_records(origin, origin_text, recs.drop_last(), default_ttl, idx0) {
            Err(e) => Err(e),
            Ok(idx) => {
                let rec = recs.last();
                match qualify_spec(utf8(rec.name@), origin) {
                    Err(e) => Err(e),
                    Ok(owner) => if !in_zone(owner, origin) {
                        Err(ZoneErrorV::OwnerOutsideOrigin { owner: rec.name@, origin: origin_text })
                    } else {
                        match convert_spec(owner, ttl_or(rec.ttl, default_ttl), rec) {
                            Err(e) => Err(e),
                            Ok(rv) => Ok(index_add(idx, (lower_labels(owner), rdata_type(rv.data)), rv)),
                        }
                    },
                }
            },
        }
    }
}

/// The zone a document describes, as origin, SOA record and index; or the
/// first error met loading it.
pub open spec fn zone_from_doc(doc: ZoneDoc) -> Result<(Seq<Seq<u8>>, RecordV, Map<RRKey, Seq<RecordV>>), ZoneErrorV> {
    match name_result(utf8(doc.origin@)) {
        Err(e) => Err(e),
        Ok(origin) => match name_result(utf8(doc.soa.mname@)) {
            Err(e) => Err(e),
            Ok(mname) => match name_result(utf8(doc.soa.rname@)) {
                Err(e) => Err(e),
                Ok(rname) => {
                    let soa = RecordV {
                        name: origin,
                        class: 1,
                        ttl: ttl_or(doc.soa.ttl, doc.default_ttl),
                        data: RDataV::Soa(
                            SoaV {
                                mname,
                                rname,
                                serial: doc.soa.serial,
                                refresh: doc.soa.refresh,
                                retry: doc.soa.retry,
                                expire: doc.soa.expire,
                                minimum: doc.soa.minimum,
                            },
                        ),
                    };
                    let idx0 = Map::<RRKey, Seq<RecordV>>::empty().insert(soa_key(origin), seq![soa]);
                    match load_records(origin, doc.origin@, doc.records@, doc.default_ttl, idx0) {
                        Err(e) => Err(e),
                        Ok(idx) => Ok((origin, soa, idx)),
                    }
                },
            },
        },
    }
}

/// Records converted by the loader never have type SOA.
proof fn lemma_converted_not_soa(owner: Seq<Seq<u8>>, ttl: u32, rec: Record)
    ensures
        match convert_spec(owner, ttl, rec) {
            Ok(rv) => rdata_type(rv.data) != 6,
            Err(_) => true,
        },
{
    reveal(super::rdata::rdata_from_text);
}

impl Zone {
    /// Build a zone from a parsed zone document.
    #[verifier::rlimit(80)]
    pub fn from_doc(doc: ZoneDoc) -> (r: Result<Zone, ZoneError>)
        ensures
            match zone_from_doc(doc) {
                Ok((o, s, m)) => r matches Ok(z) && z.wf() && z.origin_v() == o && z.soa_v() == s && z.index() == m,
                Err(e) => r matches Err(err) && zone_error_view(err) == e,
            },
    {
        let origin = match parse_name(doc.origin.as_str()) {
            Ok(n) => n,
            Err(e) => return Err(e),
        };
        let origin_lower = origin.to_ascii_lowercase();
        let mname = match parse_name(doc.soa.mname.as_str()) {
            Ok(n) => n,
            Err(e) => return Err(e),
        };
        let rname = match parse_name(doc.soa.rname.as_str()) {
            Ok(n) => n,
            Err(e) => return Err(e),
        };
        let soa_ttl = match doc.soa.ttl {
            Some(t) => t,
            None => doc.default_ttl,
        };
        let soa = ResourceRecord {
            name: origin.clone(),
            class: QClass(1),
            ttl: soa_ttl,
            data: RData::Soa(
                Soa {
                    mname,
                    rname,
                    serial: doc.soa.serial,
                    refresh: doc.soa.refresh,
                    retry: doc.soa.retry,
                    expire: doc.soa.expire,
                    minimum: doc.soa.minimum,
                },
            ),
        };
        let ghost sv = record_view(soa);
        let mut sets: Vec<RRset> = Vec::new();
        proof {
            assert(keys_unique(rrset_views(sets@)));
            assert(super::index::index_map(rrset_views(sets@)) =~= Map::<RRKey, Seq<RecordV>>::empty());
        }
        insert_record(&mut sets, soa.clone());
        let ghost idx0 = Map::<RRKey, Seq<RecordV>>::empty().insert(soa_key(origin@), seq![sv]);
        proof {
            assert(super::index::index_map(rrset_views(sets@)) =~= idx0);
            assert(lower_labels(origin@).skip(0) =~= lower_labels(origin@));
            assert(doc.records@.take(0) =~= Seq::<Record>::empty());
        }
        let mut i: usize = 0;
        while i < doc.records.len()
            invariant
                i <= doc.records@.len(),
                keys_unique(rrset_views(sets@)),
                origin_lower@ == lower_labels(origin@),
                sv == record_view(soa),
                idx0 == Map::<RRKey, Seq<RecordV>>::empty().insert(soa_key(origin@), seq![sv]),
                zone_from_doc(doc) == match load_records(origin@, doc.origin@, doc.records@, doc.default_ttl, idx0) {
                    Err(e) => Err(e),
                    Ok(idx) => Ok((origin@, sv, idx)),
                },
                load_records(origin@, doc.origin@, doc.records@.take(i as int), doc.default_ttl, idx0) == Ok::<
                    Map<RRKey, Seq<RecordV>>,
                    ZoneErrorV,
                >(super::index::index_map(rrset_views(sets@))),
                super::index::index_map(rrset_views(sets@)).contains_key(soa_key(origin@)),
                super::index::index_map(rrset_views(sets@))[soa_key(origin@)] == seq![sv],
                forall|k: RRKey| #[trigger]
                    super::index::index_map(rrset_views(sets@)).contains_key(k) ==> ends_with_labels(
                        k.0,
                        lower_labels(origin@),
                    ),
            decreases doc.records@.len() - i,
        {
            let ghost idx = super::index::index_map(rrset_views(sets@));
            let ghost pre = doc.records@.take(i as int);
            let ghost pre1 = doc.records@.take(i as int + 1);
            proof {
                assert(pre1.drop_last() =~= pre);
                assert(pre1.last() == doc.records@[i as int]);
            }
            let rec = &doc.records[i];
            let owner_full = match qualify(rec.name.as_str(), &origin) {
                Ok(n) => n,
                Err(e) => {
                    proof {
                        lemma_load_err_sticky(origin@, doc.origin@, doc.records@, doc.default_ttl, idx0, i as int + 1);
                    }
                    return Err(e);
                },
            };
            let owner_lower = owner_full.to_ascii_lowercase();
            proof {
                lemma_in_zone_ci(owner_full@, origin@);
            }
            if !ends_with_name(&owner_lower, &origin_lower) {
                proof {
                    lemma_load_err_sticky(origin@, doc.origin@, doc.records@, doc.default_ttl, idx0, i as int + 1);
                }
                return Err(ZoneError::OwnerOutsideOrigin { owner: rec.name.clone(), origin: doc.origin.clone() });
            }
            let ttl = match rec.ttl {
                Some(t) => t,
                None => doc.default_ttl,
            };
            let ghost ov = owner_full@;
            let rr = match convert_record(owner_full, ttl, rec) {
                Ok(rr) => rr,
                Err(e) => {
                    proof {
                        lemma_load_err_sticky(origin@, doc.origin@, doc.records@, doc.default_ttl, idx0, i as int + 1);
                    }
                    return Err(e);
                },
            };
            proof {
                lemma_converted_not_soa(ov, ttl, *rec);
            }
            let ghost rv = record_view(rr);
            insert_record(&mut sets, rr);
            proof {
                let k = (lower_labels(ov), rdata_type(rv.data));
                assert(k != soa_key(origin@));
                assert(super::index::index_map(rrset_views(sets@)) == index_add(idx, k, rv));
                assert forall|k2: RRKey| #[trigger]
                    super::index::index_map(rrset_views(sets@)).contains_key(k2) implies ends_with_labels(
                    k2.0,
                    lower_labels(origin@),
                ) by {
                    if k2 != k {
                        assert(idx.contains_key(k2));
                    }
                }
            }
            i = i + 1;
        }
        proof {
            assert(doc.records@.take(i as int) =~= doc.records@);
            assert(lower_labels(origin@).skip(0) =~= lower_labels(origin@));
        }
        Ok(Zone { origin, sets, soa })
    }
}

proof fn lemma_load_err_sticky(
    origin: Seq<Seq<u8>>,
    origin_text: Seq<char>,
    recs: Seq<Record>,
    default_ttl: u32,
    idx0: Map<RRKey, Seq<RecordV>>,
    i: int,
)
    requires
        0 <= i <= recs.len(),
        load_records(origin, origin_text, recs.take(i), default_ttl, idx0) is Err,
    ensures
        load_records(origin, origin_text, recs, default_ttl, idx0) == load_records(
            origin,
            origin_text,
            recs.take(i),
            default_ttl,
            idx0,
        ),
    decreases recs.len() - i,
{
    if i < recs.len() {
        assert(recs.take(i + 1).drop_last() =~= recs.take(i));
        lemma_load_err_sticky(origin, origin_text, recs, default_ttl, idx0, i + 1);
    } else {
        assert(recs.take(i) =~= recs);
    }
}


/// Adding a record to the index keeps every record it held, and holds the
/// added one under its key.
proof fn lemma_index_add_keeps(m: Map<RRKey, Seq<RecordV>>, k: RRKey, rv: RecordV, k2: RRKey, x: RecordV)
    ensures
        index_add(m, k, rv).contains_key(k) && index_add(m, k, rv)[k].contains(rv),
        m.contains_key(k2) && m[k2].contains(x) ==> index_add(m, k, rv).contains_key(k2) && index_add(
            m,
            k,
            rv,
        )[k2].contains(x),
{
    let n = index_add(m, k, rv);
    if m.contains_key(k) {
        assert(n[k][m[k].len() as int] == rv);
    } else {
        assert(n[k][0] == rv);
    }
    if m.contains_key(k2) && m[k2].contains(x) {
        if k2 == k {
            let j = choose|j: int| 0 <= j < m[k2].len() && m[k2][j] == x;
            assert(n[k2][j] == x);
        }
    }
}

/// Each entry loaded into an index is there, under its owner and type, as
/// the record it converts to with its TTL.
proof fn lemma_load_records_has(
    origin: Seq<Seq<u8>>,
    origin_text: Seq<char>,
    recs: Seq<Record>,
    default_ttl: u32,
    idx0: Map<RRKey, Seq<RecordV>>,
    i: int,
)
    requires
        load_records(origin, origin_text, recs, default_ttl, idx0) is Ok,
        0 <= i < recs.len(),
    ensures
        qualify_spec(utf8(recs[i].name@), origin) matches Ok(owner) && convert_spec(
            owner,
            ttl_or(recs[i].ttl, default_ttl),
            recs[i],
        ) matches Ok(rv) && ({
            let idx = load_records(origin, origin_text, recs, default_ttl, idx0)->Ok_0;
            let k = (lower_labels(owner), rdata_type(rv.data));
            idx.contains_key(k) && idx[k].contains(rv)
        }),
    decreases recs.len(),
{
    let init = recs.drop_last();
    let idx = load_records(origin, origin_text, init, default_ttl, idx0)->Ok_0;
    let rec = recs.last();
    let owner = qualify_spec(utf8(rec.name@), origin)->Ok_0;
    let rv = convert_spec(owner, ttl_or(rec.ttl, default_ttl), rec)->Ok_0;
    let k = (lower_labels(owner), rdata_type(rv.data));
    if i == recs.len() - 1 {
        lemma_index_add_keeps(idx, k, rv, k, rv);
    } else {
        lemma_load_records_has(origin, origin_text, init, default_ttl, idx0, i);
        assert(init[i] == recs[i]);
        let owner_i = qualify_spec(utf8(recs[i].name@), origin)->Ok_0;
        let rv_i = convert_spec(owner_i, ttl_or(recs[i].ttl, default_ttl), recs[i])->Ok_0;
        lemma_index_add_keeps(idx, k, rv, (lower_labels(owner_i), rdata_type(rv_i.data)), rv_i);
    }
}

/// Per-record TTLs survive loading: when a document loads, every entry is in
/// the zone, under its owner and type, as a record whose TTL is the entry's
/// own when it gives one and the zone's `default_ttl` only when it does not.
pub proof fn lemma_load_keeps_ttl(doc: ZoneDoc, i: int)
    requires
        zone_from_doc(doc) is Ok,
        0 <= i < doc.records@.len(),
    ensures
        ({
            let rec = doc.records@[i];
            let (origin, soa, idx) = zone_from_doc(doc)->Ok_0;
            let t = match rec.ttl {
                Some(own) => own,
                None => doc.default_ttl,
            };
            qualify_spec(utf8(rec.name@), origin) matches Ok(owner) && convert_spec(owner, t, rec) matches Ok(rv)
                && rv.ttl == t && rv.name == owner && idx.contains_key((lower_labels(owner), rdata_type(rv.data)))
                && idx[(lower_labels(owner), rdata_type(rv.data))].contains(rv)
        }),
{
    let origin = zone_from_doc(doc)->Ok_0.0;
    let soa = zone_from_doc(doc)->Ok_0.1;
    let idx0 = Map::<RRKey, Seq<RecordV>>::empty().insert(soa_key(origin), seq![soa]);
    lemma_load_records_has(origin, doc.origin@, doc.records@, doc.default_ttl, idx0, i);
}

} // verus!
