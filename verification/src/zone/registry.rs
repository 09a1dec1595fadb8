//! The set of loaded zones, keyed by lowercased origin. Sharing it between
//! readers and one writer at a time is the server's concern; this is the
//! value that is shared.
use super::mutate::{delete_state, rdata_views, serial_of, upsert_state, DeleteOutcome, UpsertOutcome};
use crate::wire::message::record_views;
use super::{zone_error_view, Zone, ZoneError, ZoneErrorV, name_str};
use crate::wire::name::{lower_labels, Name};
use crate::wire::question::QType;
use crate::wire::rr::RData;
use vstd::prelude::*;

verus! {

/// The key a zone is registered under.
pub open spec fn zone_key(z: Zone) -> Seq<Seq<u8>> {
    lower_labels(z.origin_v())
}

/// Position of the zone registered under `key`, if any.
pub open spec fn find_zone(zs: Seq<Zone>, key: Seq<Seq<u8>>) -> Option<int> {
    if exists|i: int| 0 <= i < zs.len() && #[trigger] zone_key(zs[i]) == key {
        Some(choose|i: int| 0 <= i < zs.len() && #[trigger] zone_key(zs[i]) == key)
    } else {
        None
    }
}

/// No two zones share a key, and each is well-formed.
pub open spec fn zones_wf(zs: Seq<Zone>) -> bool {
    &&& forall|i: int| 0 <= i < zs.len() ==> (#[trigger] zs[i]).wf()
    &&& forall|i: int, j: int|
        0 <= i < zs.len() && 0 <= j < zs.len() && i != j ==> zone_key(#[trigger] zs[i]) != zone_key(#[trigger] zs[j])
}

/// Registering `z` into `zs`: it replaces a zone with the same key, else is
/// appended.
pub open spec fn register(zs: Seq<Zone>, z: Zone) -> Seq<Zone> {
    match find_zone(zs, zone_key(z)) {
        Some(i) => zs.update(i, z),
        None => zs.push(z),
    }
}

/// Registering every zone of `input` in order.
pub open spec fn register_all(zs: Seq<Zone>, input: Seq<Zone>) -> Seq<Zone>
    decreases input.len(),
{
    if input.len() == 0 {
        zs
    } else {
        register(register_all(zs, input.drop_last()), input.last())
    }
}

/// The zone most specific for `q`: the one registered under the longest
/// suffix of `q` (lowercased), searching from `skip` leading labels dropped.
pub open spec fn zone_for_from(zs: Seq<Zone>, q: Seq<Seq<u8>>, skip: int) -> Option<int>
    decreases q.len() + 1 - skip,
{
    if skip < 0 || skip > q.len() {
        None
    } else {
        match find_zone(zs, lower_labels(q).skip(skip)) {
            Some(i) => Some(i),
            None => zone_for_from(zs, q, skip + 1),
        }
    }
}

/// The zone answering for `q`.
pub open spec fn zone_for_spec(zs: Seq<Zone>, q: Seq<Seq<u8>>) -> Option<int> {
    zone_for_from(zs, q, 0)
}

proof fn lemma_find_zone(zs: Seq<Zone>, key: Seq<Seq<u8>>, i: int)
    requires
        zones_wf(zs),
        0 <= i < zs.len(),
        zone_key(zs[i]) == key,
    ensures
        find_zone(zs, key) == Some(i),
{
    let j = choose|j: int| 0 <= j < zs.len() && #[trigger] zone_key(zs[j]) == key;
    if j != i {
        assert(zone_key(zs[i]) != zone_key(zs[j]));
    }
}

proof fn lemma_register_wf(zs: Seq<Zone>, z: Zone)
    requires
        zones_wf(zs),
        z.wf(),
    ensures
        zones_wf(register(zs, z)),
{
    let n = register(zs, z);
    match find_zone(zs, zone_key(z)) {
        Some(i) => {
            assert forall|a: int, b: int| 0 <= a < n.len() && 0 <= b < n.len() && a != b implies zone_key(
                #[trigger] n[a],
            ) != zone_key(#[trigger] n[b]) by {
                assert(zone_key(n[a]) == zone_key(zs[a]));
                assert(zone_key(n[b]) == zone_key(zs[b]));
            }
        },
        None => {
            let last = zs.len() as int;
            assert forall|a: int, b: int| 0 <= a < n.len() && 0 <= b < n.len() && a != b implies zone_key(
                #[trigger] n[a],
            ) != zone_key(#[trigger] n[b]) by {
                if a == last {
                    assert(zone_key(zs[b]) != zone_key(z));
                } else if b == last {
                    assert(zone_key(zs[a]) != zone_key(z));
                }
            }
        },
    }
}

/// The loaded zones.
pub struct ZoneRegistry {
    zones: Vec<Zone>,
}

impl ZoneRegistry {
    /// The registered zones.
    pub closed spec fn zones(&self) -> Seq<Zone> {
        self.zones@
    }

    /// Keys are unique and every zone is well-formed.
    pub closed spec fn wf(&self) -> bool {
        zones_wf(self.zones@)
    }

    /// An empty registry.
    pub fn new() -> (r: Self)
        ensures
            r.wf(),
            r.zones() == Seq::<Zone>::empty(),
    {
        ZoneRegistry { zones: Vec::new() }
    }

    /// Replace the registry contents: each zone registered in turn, a later
    /// one replacing an earlier one with the same origin.
    pub fn replace(&mut self, zones: Vec<Zone>)
        requires
            forall|i: int| 0 <= i < zones@.len() ==> (#[trigger] zones@[i]).wf(),
        ensures
            final(self).wf(),
            final(self).zones() == register_all(Seq::<Zone>::empty(), zones@),
    {
        let mut out: Vec<Zone> = Vec::new();
        let mut input = zones;
        let ghost all = input@;
        let ghost mut i: int = 0;
        proof {
            assert(all.take(0) =~= Seq::<Zone>::empty());
            assert(all.skip(0) =~= all);
        }
        while input.len() > 0
            invariant
                0 <= i <= all.len(),
                input@ == all.skip(i),
                forall|k: int| 0 <= k < all.len() ==> (#[trigger] all[k]).wf(),
                zones_wf(out@),
                out@ == register_all(Seq::<Zone>::empty(), all.take(i)),
            decreases input@.len(),
        {
            let z = input.remove(0);
            proof {
                assert(z == all[i]);
                assert(input@ =~= all.skip(i + 1));
                assert(all.take(i + 1).drop_last() =~= all.take(i));
                assert(all.take(i + 1).last() == all[i]);
            }
            let ghost o0 = out@;
            let key = z.origin().to_ascii_lowercase();
            match position_of(&out, &key) {
                Some(p) => {
                    proof {
                        lemma_find_zone(o0, zone_key(z), p as int);
                        lemma_register_wf(o0, z);
                    }
                    let _old = out.remove(p);
                    out.insert(p, z);
                    proof {
                        assert(out@ =~= o0.update(p as int, z));
                    }
                },
                None => {
                    proof {
                        lemma_register_wf(o0, z);
                    }
                    out.push(z);
                },
            }
            proof {
                i = i + 1;
            }
        }
        proof {
            assert(all.skip(i).len() == 0);
            assert(all.take(i) =~= all);
        }
        self.zones = out;
    }

    /// Every loaded zone.
    pub fn list(&self) -> (r: &[Zone])
        ensures
            r@ == self.zones(),
    {
        self.zones.as_slice()
    }

    /// The zone whose origin is `origin` (case-insensitively).
    pub fn get(&self, origin: &Name) -> (r: Option<&Zone>)
        requires
            self.wf(),
        ensures
            match find_zone(self.zones(), lower_labels(origin@)) {
                Some(i) => r matches Some(z) && *z == self.zones()[i],
                None => r is None,
            },
    {
        let key = origin.to_ascii_lowercase();
        match position_of(&self.zones, &key) {
            Some(p) => {
                proof {
                    lemma_find_zone(self.zones@, key@, p as int);
                }
                Some(&self.zones[p])
            },
            None => None,
        }
    }

    /// Position of the zone whose origin is `origin` (case-insensitively).
    pub fn index_of(&self, origin: &Name) -> (r: Option<usize>)
        requires
            self.wf(),
        ensures
            match find_zone(self.zones(), lower_labels(origin@)) {
                Some(i) => r matches Some(x) && x == i && 0 <= i < self.zones().len(),
                None => r is None,
            },
    {
        let key = origin.to_ascii_lowercase();
        match position_of(&self.zones, &key) {
            Some(p) => {
                proof {
                    lemma_find_zone(self.zones@, key@, p as int);
                }
                Some(p)
            },
            None => None,
        }
    }

    /// The most specific zone containing `qname`.
    pub fn zone_for(&self, qname: &Name) -> (r: Option<&Zone>)
        requires
            self.wf(),
        ensures
            match zone_for_spec(self.zones(), qname@) {
                Some(i) => r matches Some(z) && *z == self.zones()[i] && 0 <= i < self.zones().len(),
                None => r is None,
            },
    {
        let lower = qname.to_ascii_lowercase();
        let labels = lower.labels();
        let n = labels.len();
        let mut skip: usize = 0;
        loop
            invariant
                skip <= n,
                n == qname@.len(),
                lower@ == lower_labels(qname@),
                crate::wire::name::label_views(labels@) == lower@,
                labels@.len() == n,
                self.wf(),
                zone_for_spec(self.zones(), qname@) == zone_for_from(self.zones(), qname@, skip as int),
            decreases n + 1 - skip,
        {
            let tail = vstd::slice::slice_subrange(labels, skip, n);
            let mut v: Vec<Vec<u8>> = Vec::new();
            let mut j: usize = 0;
            while j < tail.len()
                invariant
                    j <= tail@.len(),
                    v@.len() == j,
                    forall|m: int| 0 <= m < j ==> (#[trigger] v@[m])@ == tail@[m]@,
                decreases tail@.len() - j,
            {
                v.push(crate::wire::name::copy_bytes(tail[j].as_slice()));
                j = j + 1;
            }
            proof {
                assert(crate::wire::name::label_views(v@) =~= lower_labels(qname@).skip(skip as int));
            }
            match position_of_labels(&self.zones, &v) {
                Some(p) => {
                    proof {
                        lemma_find_zone(self.zones@, lower_labels(qname@).skip(skip as int), p as int);
                    }
                    return Some(&self.zones[p]);
                },
                None => {},
            }
            if skip == n {
                proof {
                    assert(zone_for_from(self.zones(), qname@, n + 1) is None);
                }
                return None;
            }
            skip = skip + 1;
        }
    }

    /// Upsert an RRset in the zone `origin`. Fails if the zone is not loaded.
    pub fn upsert_rrset(&mut self, origin: &Name, owner: Name, ttl: u32, data: Vec<RData>) -> (r: Result<
        UpsertOutcome,
        ZoneError,
    >)
        requires
            old(self).wf(),
        ensures
            final(self).wf(),
            match find_zone(old(self).zones(), lower_labels(origin@)) {
                None => r matches Err(err) && zone_error_view(err) == ZoneErrorV::UnknownZone {
                    zone: name_str(origin@),
                } && final(self).zones() == old(self).zones(),
                Some(i) => final(self).zones().len() == old(self).zones().len() && (forall|j: int|
                    0 <= j < old(self).zones().len() && j != i ==> #[trigger] final(self).zones()[j] == old(
                        self,
                    ).zones()[j]) && final(self).zones()[i].origin_v() == old(self).zones()[i].origin_v()
                    && match upsert_state(old(self).zones()[i].state(), owner@, ttl, rdata_views(data@)) {
                    Ok(st) => r matches Ok(o) && final(self).zones()[i].state() == st && o.serial == serial_of(st.soa),
                    Err(e) => r matches Err(x) && zone_error_view(x) == e && final(self).zones()[i].state() == old(
                        self,
                    ).zones()[i].state(),
                },
            },
    {
        let key = origin.to_ascii_lowercase();
        match position_of(&self.zones, &key) {
            None => Err(ZoneError::UnknownZone { zone: origin.to_ascii() }),
            Some(p) => {
                proof {
                    lemma_find_zone(self.zones@, key@, p as int);
                }
                let ghost z0 = self.zones@;
                let mut zone = self.zones.remove(p);
                proof {
                    assert(zone == z0[p as int]);
                }
                let r = zone.upsert_rrset(owner, ttl, data);
                self.zones.insert(p, zone);
                proof {
                    assert(self.zones@ =~= z0.update(p as int, zone));
                    assert forall|a: int, b: int|
                        0 <= a < self.zones@.len() && 0 <= b < self.zones@.len() && a != b implies zone_key(
                        #[trigger] self.zones@[a],
                    ) != zone_key(#[trigger] self.zones@[b]) by {
                        assert(zone_key(self.zones@[a]) == zone_key(z0[a]));
                        assert(zone_key(self.zones@[b]) == zone_key(z0[b]));
                    }
                }
                r
            },
        }
    }

    /// Delete an RRset in the zone `origin`. Fails if the zone is not loaded.
    pub fn delete_rrset(&mut self, origin: &Name, owner: &Name, qtype: QType) -> (r: Result<
        DeleteOutcome,
        ZoneError,
    >)
        requires
            old(self).wf(),
        ensures
            final(self).wf(),
            match find_zone(old(self).zones(), lower_labels(origin@)) {
                None => r matches Err(err) && zone_error_view(err) == ZoneErrorV::UnknownZone {
                    zone: name_str(origin@),
                } && final(self).zones() == old(self).zones(),
                Some(i) => final(self).zones().len() == old(self).zones().len() && (forall|j: int|
                    0 <= j < old(self).zones().len() && j != i ==> #[trigger] final(self).zones()[j] == old(
                        self,
                    ).zones()[j]) && final(self).zones()[i].origin_v() == old(self).zones()[i].origin_v()
                    && match delete_state(old(self).zones()[i].state(), owner@, qtype.0) {
                    Ok((st, removed)) => r matches Ok(o) && final(self).zones()[i].state() == st && o.serial
                        == serial_of(st.soa) && record_views(o.removed@) == removed,
                    Err(e) => r matches Err(x) && zone_error_view(x) == e && final(self).zones()[i].state() == old(
                        self,
                    ).zones()[i].state(),
                },
            },
    {
        let key = origin.to_ascii_lowercase();
        match position_of(&self.zones, &key) {
            None => Err(ZoneError::UnknownZone { zone: origin.to_ascii() }),
            Some(p) => {
                proof {
                    lemma_find_zone(self.zones@, key@, p as int);
                }
                let ghost z0 = self.zones@;
                let mut zone = self.zones.remove(p);
                proof {
                    assert(zone == z0[p as int]);
                }
                let r = zone.delete_rrset(owner, qtype);
                self.zones.insert(p, zone);
                proof {
                    assert(self.zones@ =~= z0.update(p as int, zone));
                    assert forall|a: int, b: int|
                        0 <= a < self.zones@.len() && 0 <= b < self.zones@.len() && a != b implies zone_key(
                        #[trigger] self.zones@[a],
                    ) != zone_key(#[trigger] self.zones@[b]) by {
                        assert(zone_key(self.zones@[a]) == zone_key(z0[a]));
                        assert(zone_key(self.zones@[b]) == zone_key(z0[b]));
                    }
                }
                r
            },
        }
    }
}

/// In a well-formed registry the zone registered under a key is the one
/// lookups find.
pub proof fn lemma_lookup(reg: &ZoneRegistry, key: Seq<Seq<u8>>, i: int)
    requires
        reg.wf(),
        0 <= i < reg.zones().len(),
        zone_key(reg.zones()[i]) == key,
    ensures
        find_zone(reg.zones(), key) == Some(i),
{
    lemma_find_zone(reg.zones(), key, i);
}

/// Every registered zone of a well-formed registry is well-formed.
pub proof fn lemma_zone_wf_at(reg: &ZoneRegistry, i: int)
    requires
        reg.wf(),
        0 <= i < reg.zones().len(),
    ensures
        reg.zones()[i].wf(),
{
}

/// Position of the zone registered under `key@` (already lowercased).
fn position_of(zones: &Vec<Zone>, key: &Name) -> (r: Option<usize>)
    ensures
        match r {
            Some(p) => p < zones@.len() && zone_key(zones@[p as int]) == key@,
            None => forall|i: int| 0 <= i < zones@.len() ==> zone_key(#[trigger] zones@[i]) != key@,
        },
{
    let mut i: usize = 0;
    while i < zones.len()
        invariant
            i <= zones@.len(),
            forall|j: int| 0 <= j < i ==> zone_key(#[trigger] zones@[j]) != key@,
        decreases zones@.len() - i,
    {
        let o = zones[i].origin().to_ascii_lowercase();
        if o.equals(key) {
            return Some(i);
        }
        i = i + 1;
    }
    None
}

/// Like [`position_of`], for a key given as labels.
fn position_of_labels(zones: &Vec<Zone>, key: &Vec<Vec<u8>>) -> (r: Option<usize>)
    ensures
        match r {
            Some(p) => p < zones@.len() && zone_key(zones@[p as int]) == crate::wire::name::label_views(key@),
            None => forall|i: int|
                0 <= i < zones@.len() ==> zone_key(#[trigger] zones@[i]) != crate::wire::name::label_views(key@),
        },
{
    let mut i: usize = 0;
    while i < zones.len()
        invariant
            i <= zones@.len(),
            forall|j: int|
                0 <= j < i ==> zone_key(#[trigger] zones@[j]) != crate::wire::name::label_views(key@),
        decreases zones@.len() - i,
    {
        let o = zones[i].origin().to_ascii_lowercase();
        let ol = o.labels();
        let mut same = ol.len() == key.len();
        let mut k: usize = 0;
        while same && k < ol.len()
            invariant
                k <= ol@.len(),
                same ==> ol@.len() == key@.len(),
                same ==> forall|m: int| 0 <= m < k ==> (#[trigger] ol@[m])@ == key@[m]@,
                !same ==> crate::wire::name::label_views(ol@) != crate::wire::name::label_views(key@),
            decreases ol@.len() - k,
        {
            let eq = crate::wire::compress::bytes_eq(ol[k].as_slice(), key[k].as_slice());
            if !eq {
                proof {
                    assert(crate::wire::name::label_views(ol@)[k as int] != crate::wire::name::label_views(key@)[k as int]);
                }
                same = false;
            }
            k = k + 1;
        }
        proof {
            if same {
                assert(crate::wire::name::label_views(ol@) =~= crate::wire::name::label_views(key@));
            }
        }
        if same {
            return Some(i);
        }
        i = i + 1;
    }
    None
}

} // verus!
