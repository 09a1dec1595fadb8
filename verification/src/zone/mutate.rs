//! In-place RRset mutation with RFC-facing safety checks.
//!
//! - SOA is never mutated through this path (serial bump is internal).
//! - Apex NS is never mutated through this path (delegation identity).
//! - CNAME at the apex is rejected (SOA + NS already occupy the name).
//! - CNAME cannot coexist with any other type at the same owner (RFC 1034 §3.6.2).
//! - CNAME RRsets are singletons.
//! - Owners must fall inside the zone origin.
use super::index::{
    has_key, index_map, keys_unique, lemma_index_at, lemma_index_push, lemma_index_remove, lemma_index_update,
    position, rrset_view, rrset_views, set_key, RRKey, RRset, RRsetV,
};
use super::{
    ends_with_name, in_zone, lemma_in_zone_ci, name_str, soa_key, text, zone_error_view, Zone, ZoneError,
    ZoneErrorV,
};
use crate::wire::message::record_views;
use crate::wire::name::{lower_labels, Name};
use crate::wire::question::{mnemonic_of, QClass, QType};
use crate::wire::rr::{rdata_type, rdata_view, record_view, RData, RDataV, RecordV, ResourceRecord, Soa, SoaV};
use vstd::prelude::*;

verus! {

/// Result of a successful upsert.
pub struct UpsertOutcome {
    pub rtype: QType,
    /// Previous RDATA at this owner/type, if any.
    pub previous: Option<Vec<RData>>,
    pub serial: u32,
}

/// Result of a successful delete.
pub struct DeleteOutcome {
    pub removed: Vec<ResourceRecord>,
    pub serial: u32,
}

/// The serial a record's SOA data holds (0 for other data).
pub open spec fn serial_of(r: RecordV) -> u32 {
    match r.data {
        RDataV::Soa(s) => s.serial,
        _ => 0,
    }
}

/// The serial after one bump: wrapping increment that skips 0.
pub open spec fn next_serial(s: u32) -> u32 {
    if s == 0xFFFF_FFFFu32 {
        1
    } else {
        (s + 1) as u32
    }
}

/// `r` with its SOA serial bumped.
pub open spec fn bumped(r: RecordV) -> RecordV {
    match r.data {
        RDataV::Soa(s) => RecordV { data: RDataV::Soa(SoaV { serial: next_serial(s.serial), ..s }), ..r },
        _ => r,
    }
}

/// The views of the RDATA values.
pub open spec fn rdata_views(v: Seq<RData>) -> Seq<RDataV> {
    v.map_values(|d: RData| rdata_view(d))
}

/// The RDATA of each record.
pub open spec fn records_data(v: Seq<RecordV>) -> Seq<RDataV> {
    v.map_values(|r: RecordV| r.data)
}

/// Records of one RRset built from its data.
pub open spec fn rrset_records(owner: Seq<Seq<u8>>, ttl: u32, data: Seq<RDataV>) -> Seq<RecordV> {
    data.map_values(|d: RDataV| RecordV { name: owner, class: 1u16, ttl, data: d })
}

/// Types other than `rtype` present at the lowercased owner `ol`.
pub open spec fn other_type_at(idx: Map<RRKey, Seq<RecordV>>, ol: Seq<Seq<u8>>, rtype: u16) -> bool {
    exists|t: u16| t != rtype && #[trigger] idx.contains_key((ol, t))
}

/// The error, if any, that the mutation rules raise for changing the RRset
/// `(owner, rtype)`; `is_cname` marks a CNAME insert.
pub open spec fn mutation_error(
    idx: Map<RRKey, Seq<RecordV>>,
    origin: Seq<Seq<u8>>,
    owner: Seq<Seq<u8>>,
    rtype: u16,
    is_cname: bool,
) -> Option<ZoneErrorV> {
    let ol = lower_labels(owner);
    let gl = lower_labels(origin);
    if !in_zone(owner, origin) {
        Some(ZoneErrorV::OwnerOutsideOrigin { owner: name_str(owner), origin: name_str(origin) })
    } else if rtype == 6 {
        Some(ZoneErrorV::ProtectedRRset { owner: name_str(owner), rtype: "SOA"@ })
    } else if rtype == 2 && ol == gl {
        Some(ZoneErrorV::ProtectedRRset { owner: name_str(owner), rtype: "NS"@ })
    } else if is_cname && ol == gl {
        Some(ZoneErrorV::CnameAtApex { origin: name_str(origin) })
    } else if is_cname && other_type_at(idx, ol, rtype) {
        Some(ZoneErrorV::CnameConflict { owner: name_str(owner) })
    } else if !is_cname && rtype != 5 && idx.contains_key((ol, 5u16)) {
        Some(ZoneErrorV::CnameConflict { owner: name_str(owner) })
    } else {
        None
    }
}

/// All the RDATA share the type of the first.
pub open spec fn same_type(data: Seq<RDataV>) -> bool {
    forall|i: int| 0 <= i < data.len() ==> rdata_type(#[trigger] data[i]) == rdata_type(data[0])
}

/// The error, if any, an upsert of `data` at `owner` raises.
pub open spec fn upsert_error(
    idx: Map<RRKey, Seq<RecordV>>,
    origin: Seq<Seq<u8>>,
    owner: Seq<Seq<u8>>,
    data: Seq<RDataV>,
) -> Option<ZoneErrorV> {
    if data.len() == 0 {
        Some(ZoneErrorV::EmptyRRset)
    } else if !same_type(data) {
        Some(ZoneErrorV::MixedRRset)
    } else {
        let t = rdata_type(data[0]);
        match mutation_error(idx, origin, owner, t, t == 5) {
            Some(e) => Some(e),
            None => if t == 5 && data.len() != 1 {
                Some(ZoneErrorV::CnameNotSingleton)
            } else {
                None
            },
        }
    }
}

/// The text a delete names a type by.
pub open spec fn type_text(t: u16) -> Seq<char> {
    match mnemonic_of(t) {
        Some(m) => m,
        None => "TYPE?"@,
    }
}

/// A zone's abstract state: origin, index and SOA record.
pub struct ZoneState {
    pub origin: Seq<Seq<u8>>,
    pub index: Map<RRKey, Seq<RecordV>>,
    pub soa: RecordV,
}

impl Zone {
    pub open spec fn state(&self) -> ZoneState {
        ZoneState { origin: self.origin_v(), index: self.index(), soa: self.soa_v() }
    }
}

/// The zone after an upsert of `data` at `owner`, or the error raised.
pub open spec fn upsert_state(z: ZoneState, owner: Seq<Seq<u8>>, ttl: u32, dv: Seq<RDataV>) -> Result<
    ZoneState,
    ZoneErrorV,
> {
    match upsert_error(z.index, z.origin, owner, dv) {
        Some(e) => Err(e),
        None => {
            let k = (lower_labels(owner), rdata_type(dv[0]));
            let s = bumped(z.soa);
            Ok(
                ZoneState {
                    origin: z.origin,
                    index: z.index.insert(k, rrset_records(owner, ttl, dv)).insert(soa_key(z.origin), seq![s]),
                    soa: s,
                },
            )
        },
    }
}

/// The zone after deleting the RRset `(owner, t)` and the records removed,
/// or the error raised.
pub open spec fn delete_state(z: ZoneState, owner: Seq<Seq<u8>>, t: u16) -> Result<
    (ZoneState, Seq<RecordV>),
    ZoneErrorV,
> {
    let k = (lower_labels(owner), t);
    match mutation_error(z.index, z.origin, owner, t, false) {
        Some(e) => Err(e),
        None => if z.index.contains_key(k) {
            let s = bumped(z.soa);
            Ok(
                (
                    ZoneState {
                        origin: z.origin,
                        index: z.index.remove(k).insert(soa_key(z.origin), seq![s]),
                        soa: s,
                    },
                    z.index[k],
                ),
            )
        } else {
            Err(ZoneErrorV::NoSuchRRset { owner: name_str(owner), rtype: type_text(t) })
        },
    }
}

/// Copy RDATA values.
pub fn copy_rdata(v: &[ResourceRecord]) -> (r: Vec<RData>)
    ensures
        rdata_views(r@) == records_data(record_views(v@)),
{
    let mut out: Vec<RData> = Vec::new();
    let mut i: usize = 0;
    while i < v.len()
        invariant
            i <= v@.len(),
            rdata_views(out@) == records_data(record_views(v@)).take(i as int),
        decreases v@.len() - i,
    {
        let d = v[i].data.clone();
        proof {
            assert(record_views(v@)[i as int] == record_view(v@[i as int]));
            assert(records_data(record_views(v@))[i as int] == rdata_view(v@[i as int].data));
        }
        let ghost before = out@;
        let ghost dv = rdata_view(d);
        out.push(d);
        proof {
            assert(rdata_views(out@) =~= rdata_views(before).push(dv));
            assert(records_data(record_views(v@)).take(i as int + 1) =~= records_data(record_views(v@)).take(
                i as int,
            ).push(dv));
        }
        i = i + 1;
    }
    proof {
        assert(records_data(record_views(v@)).take(i as int) =~= records_data(record_views(v@)));
    }
    out
}

impl Zone {
    /// Current SOA serial.
    pub fn serial(&self) -> (r: u32)
        ensures
            r == serial_of(self.soa_v()),
    {
        match &self.soa.data {
            RData::Soa(soa) => soa.serial,
            _ => 0,
        }
    }

    /// Bump the SOA serial (wrapping, skipping 0) and store the new SOA in its
    /// RRset. Returns the new serial.
    pub fn bump_serial(&mut self) -> (r: u32)
        requires
            old(self).wf(),
        ensures
            final(self).wf(),
            final(self).origin_v() == old(self).origin_v(),
            final(self).soa_v() == bumped(old(self).soa_v()),
            final(self).index() == old(self).index().insert(soa_key(old(self).origin_v()), seq![final(self).soa_v()]),
            r == next_serial(serial_of(old(self).soa_v())),
            r == serial_of(final(self).soa_v()),
    {
        let ghost v0 = rrset_views(self.sets@);
        let ghost sv = record_view(self.soa);
        let (new_soa, serial) = match &self.soa.data {
            RData::Soa(soa) => {
                let mut n = soa.serial.wrapping_add(1);
                if n == 0 {
                    n = 1;
                }
                let data = RData::Soa(
                    Soa {
                        mname: soa.mname.clone(),
                        rname: soa.rname.clone(),
                        serial: n,
                        refresh: soa.refresh,
                        retry: soa.retry,
                        expire: soa.expire,
                        minimum: soa.minimum,
                    },
                );
                (ResourceRecord { name: self.soa.name.clone(), class: self.soa.class, ttl: self.soa.ttl, data }, n)
            },
            _ => (self.soa.clone(), 1),
        };
        proof {
            assert(record_view(new_soa) == bumped(sv));
        }
        let key = self.origin.to_ascii_lowercase();
        let mut recs: Vec<ResourceRecord> = Vec::new();
        recs.push(new_soa.clone());
        let set = RRset { owner: key, qtype: QType(6), records: recs };
        proof {
            assert(record_views(set.records@) =~= seq![record_view(new_soa)]);
        }
        match position(&self.sets, &set.owner, QType(6)) {
            Some(i) => {
                proof {
                    lemma_index_update(v0, i as int, rrset_view(set));
                }
                let _old = self.sets.remove(i);
                self.sets.insert(i, set);
                proof {
                    assert(rrset_views(self.sets@) =~= v0.update(i as int, rrset_view(set)));
                }
            },
            None => {
                proof {
                    lemma_index_push(v0, rrset_view(set));
                }
                self.sets.push(set);
                proof {
                    assert(rrset_views(self.sets@) =~= v0.push(rrset_view(set)));
                }
            },
        }
        self.soa = new_soa;
        proof {
            assert forall|k: RRKey| #[trigger] self.index().contains_key(k) implies super::ends_with_labels(
                k.0,
                lower_labels(self.origin@),
            ) by {
                if k != soa_key(self.origin@) {
                    assert(old(self).index().contains_key(k));
                } else {
                    assert(lower_labels(self.origin@).skip(0) =~= lower_labels(self.origin@));
                }
            }
        }
        serial
    }

    /// Check the mutation rules for changing the RRset `(owner, rtype)`.
    pub fn validate_mutation(&self, owner: &Name, rtype: QType, is_cname_insert: bool) -> (r: Result<(), ZoneError>)
        requires
            self.wf(),
        ensures
            match mutation_error(self.index(), self.origin_v(), owner@, rtype.0, is_cname_insert) {
                Some(e) => r matches Err(err) && zone_error_view(err) == e,
                None => r is Ok,
            },
    {
        let origin_lower = self.origin.to_ascii_lowercase();
        let owner_lower = owner.to_ascii_lowercase();
        proof {
            lemma_in_zone_ci(owner@, self.origin@);
        }
        if !ends_with_name(&owner_lower, &origin_lower) {
            return Err(ZoneError::OwnerOutsideOrigin { owner: owner.to_ascii(), origin: self.origin.to_ascii() });
        }
        if rtype.0 == 6 {
            return Err(ZoneError::ProtectedRRset { owner: owner.to_ascii(), rtype: text("SOA") });
        }
        let at_apex = owner_lower.equals(&origin_lower);
        if rtype.0 == 2 && at_apex {
            return Err(ZoneError::ProtectedRRset { owner: owner.to_ascii(), rtype: text("NS") });
        }
        if is_cname_insert && at_apex {
            return Err(ZoneError::CnameAtApex { origin: self.origin.to_ascii() });
        }
        let (other, cname) = self.types_at(&owner_lower, rtype);
        if is_cname_insert && other {
            return Err(ZoneError::CnameConflict { owner: owner.to_ascii() });
        }
        if !is_cname_insert && cname {
            return Err(ZoneError::CnameConflict { owner: owner.to_ascii() });
        }
        Ok(())
    }

    /// Whether some type other than `rtype` has an RRset at `owner_lower`, and
    /// whether one of those is CNAME.
    fn types_at(&self, owner_lower: &Name, rtype: QType) -> (r: (bool, bool))
        requires
            self.wf(),
        ensures
            r.0 == other_type_at(self.index(), owner_lower@, rtype.0),
            r.1 == (rtype.0 != 5 && self.index().contains_key((owner_lower@, 5u16))),
    {
        let ghost v = rrset_views(self.sets@);
        let mut other = false;
        let mut cname = false;
        let mut i: usize = 0;
        while i < self.sets.len()
            invariant
                i <= self.sets@.len(),
                v == rrset_views(self.sets@),
                self.wf(),
                other == exists|j: int| 0 <= j < i && #[trigger] v[j].owner == owner_lower@ && v[j].qtype != rtype.0,
                cname == exists|j: int|
                    0 <= j < i && #[trigger] v[j].owner == owner_lower@ && v[j].qtype != rtype.0 && v[j].qtype == 5,
            decreases self.sets@.len() - i,
        {
            let s = &self.sets[i];
            proof {
                assert(v[i as int] == rrset_view(self.sets@[i as int]));
                assert(v[i as int].owner == s.owner@ && v[i as int].qtype == s.qtype.0);
            }
            let ghost other0 = other;
            let ghost cname0 = cname;
            if s.qtype.0 != rtype.0 && s.owner.equals(owner_lower) {
                other = true;
                if s.qtype.0 == 5 {
                    cname = true;
                }
            }
            proof {
                let hit = v[i as int].owner == owner_lower@ && v[i as int].qtype != rtype.0;
                assert(other == (other0 || hit));
                assert(cname == (cname0 || (hit && v[i as int].qtype == 5)));
                assert((exists|j: int| 0 <= j < i + 1 && #[trigger] v[j].owner == owner_lower@ && v[j].qtype != rtype.0)
                    == (other0 || hit)) by {
                    if hit {
                        assert(0 <= i < i + 1 && v[i as int].owner == owner_lower@ && v[i as int].qtype != rtype.0);
                    }
                }
                assert((exists|j: int|
                    0 <= j < i + 1 && #[trigger] v[j].owner == owner_lower@ && v[j].qtype != rtype.0 && v[j].qtype == 5)
                    == (cname0 || (hit && v[i as int].qtype == 5))) by {
                    if hit && v[i as int].qtype == 5 {
                        assert(0 <= i < i + 1 && v[i as int].owner == owner_lower@ && v[i as int].qtype != rtype.0
                            && v[i as int].qtype == 5);
                    }
                }
            }
            i = i + 1;
        }
        proof {
            if other {
                let j = choose|j: int| 0 <= j < i && #[trigger] v[j].owner == owner_lower@ && v[j].qtype != rtype.0;
                lemma_index_at(v, j);
                assert(self.index().contains_key((owner_lower@, v[j].qtype)));
            }
            if other_type_at(self.index(), owner_lower@, rtype.0) {
                let t = choose|t: u16| t != rtype.0 && #[trigger] self.index().contains_key((owner_lower@, t));
                assert(has_key(v, (owner_lower@, t)));
                let j = choose|j: int| 0 <= j < v.len() && #[trigger] set_key(v[j]) == (owner_lower@, t);
                assert(v[j].owner == owner_lower@ && v[j].qtype != rtype.0);
            }
            if cname {
                let j = choose|j: int|
                    0 <= j < i && #[trigger] v[j].owner == owner_lower@ && v[j].qtype != rtype.0 && v[j].qtype == 5;
                lemma_index_at(v, j);
            }
            if rtype.0 != 5 && self.index().contains_key((owner_lower@, 5u16)) {
                assert(has_key(v, (owner_lower@, 5u16)));
                let j = choose|j: int| 0 <= j < v.len() && #[trigger] set_key(v[j]) == (owner_lower@, 5u16);
                assert(v[j].owner == owner_lower@ && v[j].qtype != rtype.0 && v[j].qtype == 5);
            }
        }
        (other, cname)
    }
}

impl Zone {
    /// Replace the RRset at `(owner, type)` with `data`. All RDATA values must
    /// share one type. Bumps the SOA serial on success; on error the zone is
    /// unchanged.
    pub fn upsert_rrset(&mut self, owner: Name, ttl: u32, data: Vec<RData>) -> (r: Result<UpsertOutcome, ZoneError>)
        requires
            old(self).wf(),
        ensures
            final(self).wf(),
            final(self).origin_v() == old(self).origin_v(),
            match upsert_state(old(self).state(), owner@, ttl, rdata_views(data@)) {
                Ok(st) => r matches Ok(o) && final(self).state() == st && o.serial == serial_of(st.soa),
                Err(e) => r matches Err(x) && zone_error_view(x) == e && final(self).state() == old(self).state(),
            },
            ({
                let idx = old(self).index();
                let dv = rdata_views(data@);
                match upsert_error(idx, old(self).origin_v(), owner@, dv) {
                    Some(e) => r matches Err(err) && zone_error_view(err) == e && final(self).index() == idx
                        && final(self).soa_v() == old(self).soa_v(),
                    None => {
                        let k = (lower_labels(owner@), rdata_type(dv[0]));
                        &&& r matches Ok(o) && o.rtype.0 == rdata_type(dv[0]) && o.serial == next_serial(
                            serial_of(old(self).soa_v()),
                        ) && match o.previous {
                            Some(p) => idx.contains_key(k) && rdata_views(p@) == records_data(idx[k]),
                            None => !idx.contains_key(k),
                        }
                        &&& final(self).soa_v() == bumped(old(self).soa_v())
                        &&& final(self).index() == idx.insert(k, rrset_records(owner@, ttl, dv)).insert(
                            soa_key(old(self).origin_v()),
                            seq![final(self).soa_v()],
                        )
                    },
                }
            }),
    {
        let ghost dv = rdata_views(data@);
        let ghost idx = self.index();
        if data.len() == 0 {
            return Err(ZoneError::EmptyRRset);
        }
        let rtype = data[0].rtype();
        let mut i: usize = 1;
        while i < data.len()
            invariant
                1 <= i <= data@.len(),
                dv == rdata_views(data@),
                rtype.0 == rdata_type(dv[0]),
                forall|j: int| 0 <= j < i ==> rdata_type(#[trigger] dv[j]) == rdata_type(dv[0]),
                *self == *old(self),
                old(self).wf(),
            decreases data@.len() - i,
        {
            let t = data[i].rtype();
            if t.0 != rtype.0 {
                proof {
                    assert(dv[i as int] == rdata_view(data@[i as int]));
                    assert(rdata_type(dv[i as int]) != rdata_type(dv[0]));
                    assert(!same_type(dv));
                }
                return Err(ZoneError::MixedRRset);
            }
            i = i + 1;
        }
        match self.validate_mutation(&owner, rtype, rtype.0 == 5) {
            Ok(()) => {},
            Err(e) => return Err(e),
        }
        if rtype.0 == 5 && data.len() != 1 {
            return Err(ZoneError::CnameNotSingleton);
        }
        let ghost v0 = rrset_views(self.sets@);
        let owner_lower = owner.to_ascii_lowercase();
        let pos = position(&self.sets, &owner_lower, rtype);
        let previous = match pos {
            Some(p) => {
                proof {
                    lemma_index_at(v0, p as int);
                    assert(v0[p as int] == rrset_view(self.sets@[p as int]));
                }
                Some(copy_rdata(self.sets[p].records.as_slice()))
            },
            None => None,
        };
        let mut records: Vec<ResourceRecord> = Vec::new();
        let mut j: usize = 0;
        while j < data.len()
            invariant
                j <= data@.len(),
                dv == rdata_views(data@),
                record_views(records@) == rrset_records(owner@, ttl, dv).take(j as int),
                *self == *old(self),
                old(self).wf(),
            decreases data@.len() - j,
        {
            let rr = ResourceRecord { name: owner.clone(), class: QClass(1), ttl, data: data[j].clone() };
            let ghost before = records@;
            records.push(rr);
            proof {
                assert(record_views(records@) =~= record_views(before).push(record_view(rr)));
                assert(rrset_records(owner@, ttl, dv).take(j as int + 1) =~= rrset_records(owner@, ttl, dv).take(
                    j as int,
                ).push(record_view(rr)));
            }
            j = j + 1;
        }
        proof {
            assert(rrset_records(owner@, ttl, dv).take(j as int) =~= rrset_records(owner@, ttl, dv));
        }
        let set = RRset { owner: owner_lower, qtype: rtype, records };
        match pos {
            Some(p) => {
                proof {
                    lemma_index_update(v0, p as int, rrset_view(set));
                }
                let _old = self.sets.remove(p);
                self.sets.insert(p, set);
                proof {
                    assert(rrset_views(self.sets@) =~= v0.update(p as int, rrset_view(set)));
                }
            },
            None => {
                proof {
                    lemma_index_push(v0, rrset_view(set));
                }
                self.sets.push(set);
                proof {
                    assert(rrset_views(self.sets@) =~= v0.push(rrset_view(set)));
                }
            },
        }
        proof {
            let k = (lower_labels(owner@), rtype.0);
            assert(k != soa_key(self.origin@));
            assert forall|k2: RRKey| #[trigger] self.index().contains_key(k2) implies super::ends_with_labels(
                k2.0,
                lower_labels(self.origin@),
            ) by {
                if k2 != k {
                    assert(idx.contains_key(k2));
                }
            }
        }
        let serial = self.bump_serial();
        Ok(UpsertOutcome { rtype, previous, serial })
    }

    /// Remove the RRset at `(owner, type)`. Bumps the SOA serial on success; on
    /// error the zone is unchanged.
    pub fn delete_rrset(&mut self, owner: &Name, qtype: QType) -> (r: Result<DeleteOutcome, ZoneError>)
        requires
            old(self).wf(),
        ensures
            final(self).wf(),
            final(self).origin_v() == old(self).origin_v(),
            match delete_state(old(self).state(), owner@, qtype.0) {
                Ok((st, removed)) => r matches Ok(o) && final(self).state() == st && o.serial == serial_of(st.soa)
                    && record_views(o.removed@) == removed,
                Err(e) => r matches Err(x) && zone_error_view(x) == e && final(self).state() == old(self).state(),
            },
            ({
                let idx = old(self).index();
                let k = (lower_labels(owner@), qtype.0);
                match mutation_error(idx, old(self).origin_v(), owner@, qtype.0, false) {
                    Some(e) => r matches Err(err) && zone_error_view(err) == e && final(self).index() == idx
                        && final(self).soa_v() == old(self).soa_v(),
                    None => if idx.contains_key(k) {
                        &&& r matches Ok(o) && record_views(o.removed@) == idx[k] && o.serial == next_serial(
                            serial_of(old(self).soa_v()),
                        )
                        &&& final(self).soa_v() == bumped(old(self).soa_v())
                        &&& final(self).index() == idx.remove(k).insert(
                            soa_key(old(self).origin_v()),
                            seq![final(self).soa_v()],
                        )
                    } else {
                        &&& r matches Err(err) && zone_error_view(err) == ZoneErrorV::NoSuchRRset {
                            owner: name_str(owner@),
                            rtype: type_text(qtype.0),
                        }
                        &&& final(self).index() == idx
                        &&& final(self).soa_v() == old(self).soa_v()
                    },
                }
            }),
    {
        let ghost idx = self.index();
        match self.validate_mutation(owner, qtype, false) {
            Ok(()) => {},
            Err(e) => return Err(e),
        }
        let ghost v0 = rrset_views(self.sets@);
        let key = owner.to_ascii_lowercase();
        match position(&self.sets, &key, qtype) {
            Some(p) => {
                proof {
                    lemma_index_at(v0, p as int);
                    lemma_index_remove(v0, p as int);
                    assert(v0[p as int] == rrset_view(self.sets@[p as int]));
                }
                let set = self.sets.remove(p);
                proof {
                    assert(rrset_views(self.sets@) =~= v0.remove(p as int));
                    let k = (lower_labels(owner@), qtype.0);
                    assert(k != soa_key(self.origin@));
                    assert forall|k2: RRKey| #[trigger] self.index().contains_key(k2) implies super::ends_with_labels(
                        k2.0,
                        lower_labels(self.origin@),
                    ) by {
                        assert(idx.contains_key(k2));
                    }
                }
                let serial = self.bump_serial();
                Ok(DeleteOutcome { removed: set.records, serial })
            },
            None => {
                let rtype = match qtype.mnemonic() {
                    Some(m) => text(m),
                    None => text("TYPE?"),
                };
                Err(ZoneError::NoSuchRRset { owner: owner.to_ascii(), rtype })
            },
        }
    }
}


/// CNAME exclusivity after an upsert: when an upsert succeeds and its owner
/// then holds a CNAME RRset, it holds no RRset of any other type.
pub proof fn lemma_upsert_cname_exclusive(z: ZoneState, owner: Seq<Seq<u8>>, ttl: u32, dv: Seq<RDataV>, t: u16)
    requires
        t != 5,
    ensures
        upsert_state(z, owner, ttl, dv) matches Ok(z2) ==> !(z2.index.contains_key((lower_labels(owner), 5u16))
            && z2.index.contains_key((lower_labels(owner), t))),
{
    if let Ok(z2) = upsert_state(z, owner, ttl, dv) {
        let ol = lower_labels(owner);
        let ty = rdata_type(dv[0]);
        if ty == 5 {
            if z2.index.contains_key((ol, t)) {
                assert((ol, t) != (ol, 5u16));
                if (ol, t) != soa_key(z.origin) {
                    assert(z.index.contains_key((ol, t)));
                    assert(other_type_at(z.index, ol, 5));
                }
            }
        }
    }
}

/// An upsert of data of another type at an owner that holds a CNAME RRset is
/// refused with `CnameConflict`, once the owner is inside the zone and the
/// RRset is not one of the protected ones (the SOA, the apex NS).
pub proof fn lemma_upsert_beside_cname_refused(z: ZoneState, owner: Seq<Seq<u8>>, ttl: u32, dv: Seq<RDataV>)
    requires
        z.index.contains_key((lower_labels(owner), 5u16)),
        dv.len() > 0,
        forall|i: int| 0 <= i < dv.len() ==> rdata_type(#[trigger] dv[i]) == rdata_type(dv[0]),
        rdata_type(dv[0]) != 5,
        in_zone(owner, z.origin),
        rdata_type(dv[0]) != 6,
        !(rdata_type(dv[0]) == 2 && lower_labels(owner) == lower_labels(z.origin)),
    ensures
        upsert_state(z, owner, ttl, dv) == Err::<ZoneState, ZoneErrorV>(
            ZoneErrorV::CnameConflict { owner: name_str(owner) },
        ),
{
}

} // verus!
