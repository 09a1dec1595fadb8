//! In-memory zones: an index of RRsets keyed by lowercased owner and TYPE,
//! the zone document loader, and the mutation rules.

pub mod index;
pub mod toml_schema;
pub mod mutate;
pub mod rdata;
pub mod load;
pub mod registry;




use crate::text::{lossy_text, text_from_bytes};
use crate::wire::message::record_views;
use crate::wire::name::{lower_labels, name_text, Name};
use crate::wire::question::QType;
use crate::wire::rr::{rdata_view, record_view, RDataV, RecordV, ResourceRecord};
use crate::wire::ParseError;
use index::{
    has_key, index_map, keys_unique, lemma_index_at, lemma_index_push, lemma_index_update, position, rrset_view,
    rrset_views, set_key, RRKey, RRset, RRsetV,
};
use vstd::prelude::*;
use vstd::string::StringExecFns;

verus! {

/// Error raised while loading, validating or mutating a zone.
#[derive(Debug)]
pub enum ZoneError {
    Toml(String),
    Name { name: String, source: ParseError },
    Rdata { owner: String, rtype: String, msg: String },
    OwnerOutsideOrigin { owner: String, origin: String },
    EmptyRRset,
    MixedRRset,
    CnameNotSingleton,
    CnameAtApex { origin: String },
    CnameConflict { owner: String },
    ProtectedRRset { owner: String, rtype: String },
    NoSuchRRset { owner: String, rtype: String },
    UnknownZone { zone: String },
}

/// Abstract zone error: texts as character sequences.
pub enum ZoneErrorV {
    Toml(Seq<char>),
    Name { name: Seq<char>, source: ParseError },
    Rdata { owner: Seq<char>, rtype: Seq<char>, msg: Seq<char> },
    OwnerOutsideOrigin { owner: Seq<char>, origin: Seq<char> },
    EmptyRRset,
    MixedRRset,
    CnameNotSingleton,
    CnameAtApex { origin: Seq<char> },
    CnameConflict { owner: Seq<char> },
    ProtectedRRset { owner: Seq<char>, rtype: Seq<char> },
    NoSuchRRset { owner: Seq<char>, rtype: Seq<char> },
    UnknownZone { zone: Seq<char> },
}

pub open spec fn zone_error_view(e: ZoneError) -> ZoneErrorV {
    match e {
        ZoneError::Toml(m) => ZoneErrorV::Toml(m@),
        ZoneError::Name { name, source } => ZoneErrorV::Name { name: name@, source },
        ZoneError::Rdata { owner, rtype, msg } => ZoneErrorV::Rdata { owner: owner@, rtype: rtype@, msg: msg@ },
        ZoneError::OwnerOutsideOrigin { owner, origin } => ZoneErrorV::OwnerOutsideOrigin {
            owner: owner@,
            origin: origin@,
        },
        ZoneError::EmptyRRset => ZoneErrorV::EmptyRRset,
        ZoneError::MixedRRset => ZoneErrorV::MixedRRset,
        ZoneError::CnameNotSingleton => ZoneErrorV::CnameNotSingleton,
        ZoneError::CnameAtApex { origin } => ZoneErrorV::CnameAtApex { origin: origin@ },
        ZoneError::CnameConflict { owner } => ZoneErrorV::CnameConflict { owner: owner@ },
        ZoneError::ProtectedRRset { owner, rtype } => ZoneErrorV::ProtectedRRset { owner: owner@, rtype: rtype@ },
        ZoneError::NoSuchRRset { owner, rtype } => ZoneErrorV::NoSuchRRset { owner: owner@, rtype: rtype@ },
        ZoneError::UnknownZone { zone } => ZoneErrorV::UnknownZone { zone: zone@ },
    }
}

/// The presentation text of a name, as `Name::to_ascii` renders it.
pub open spec fn name_str(ls: Seq<Seq<u8>>) -> Seq<char> {
    lossy_text(name_text(ls))
}

/// A `String` holding `s`.
pub fn text(s: &str) -> (r: String)
    ensures
        r@ == s@,
{
    String::from_str(s)
}

/// Key of the SOA RRset of a zone with origin `origin`.
pub open spec fn soa_key(origin: Seq<Seq<u8>>) -> RRKey {
    (lower_labels(origin), 6u16)
}

/// `b` is a suffix of `a`, label by label.
pub open spec fn ends_with_labels(a: Seq<Seq<u8>>, b: Seq<Seq<u8>>) -> bool {
    b.len() <= a.len() && a.skip(a.len() - b.len()) == b
}

/// `b` is a suffix of `a`, labels compared ASCII case-insensitively.
pub open spec fn ends_with_ci(a: Seq<Seq<u8>>, b: Seq<Seq<u8>>) -> bool {
    b.len() <= a.len() && lower_labels(a.skip(a.len() - b.len())) == lower_labels(b)
}

/// `owner` lies at or below `origin` (case-insensitively).
pub open spec fn in_zone(owner: Seq<Seq<u8>>, origin: Seq<Seq<u8>>) -> bool {
    ends_with_labels(lower_labels(owner), lower_labels(origin))
}

/// Case-insensitive suffix test on names.
pub fn ends_with_name(a: &Name, suffix: &Name) -> (r: bool)
    ensures
        r == ends_with_ci(a@, suffix@),
{
    let al = a.labels();
    let bl = suffix.labels();
    if bl.len() > al.len() {
        return false;
    }
    let alen = al.len();
    let off = alen - bl.len();
    let ghost t = a@.skip(off as int);
    let mut i: usize = 0;
    while i < bl.len()
        invariant
            i <= bl@.len(),
            bl@.len() == suffix@.len(),
            al@.len() == a@.len(),
            off + bl@.len() == alen,
            alen == al@.len(),
            t == a@.skip(off as int),
            crate::wire::name::label_views(al@) == a@,
            crate::wire::name::label_views(bl@) == suffix@,
            forall|j: int| 0 <= j < i ==> #[trigger] lower_labels(t)[j] == lower_labels(suffix@)[j],
        decreases bl@.len() - i,
    {
        let eq = crate::wire::name::label_eq_ignore_case(al[off + i].as_slice(), bl[i].as_slice());
        proof {
            assert(a@[off + i] == al@[off + i]@);
            assert(suffix@[i as int] == bl@[i as int]@);
            assert(t[i as int] == a@[off + i]);
        }
        if !eq {
            proof {
                assert(lower_labels(t)[i as int] != lower_labels(suffix@)[i as int]);
            }
            return false;
        }
        i = i + 1;
    }
    proof {
        assert(lower_labels(t) =~= lower_labels(suffix@));
    }
    true
}

/// Lower-casing twice changes nothing, so the case-insensitive suffix test on
/// lowercased names is the plain one.
pub proof fn lemma_in_zone_ci(owner: Seq<Seq<u8>>, origin: Seq<Seq<u8>>)
    ensures
        ends_with_ci(lower_labels(owner), lower_labels(origin)) == in_zone(owner, origin),
{
    index::lemma_lower_idempotent(origin);
    let lo = lower_labels(owner);
    let lg = lower_labels(origin);
    if lg.len() <= lo.len() {
        let t = lo.skip(lo.len() - lg.len());
        assert(lower_labels(t) =~= lower_labels(owner.skip(owner.len() - origin.len())).map_values(
            |l: Seq<u8>| crate::wire::name::lower_label(l),
        ));
        assert forall|i: int| 0 <= i < t.len() implies #[trigger] lower_labels(t)[i] == t[i] by {
            assert(crate::wire::name::lower_label(crate::wire::name::lower_label(owner[owner.len() - origin.len()
                + i])) =~= crate::wire::name::lower_label(owner[owner.len() - origin.len() + i]));
        }
        assert(lower_labels(t) =~= t);
    }
}

/// A loaded, indexed zone.
pub struct Zone {
    origin: Name,
    sets: Vec<RRset>,
    soa: ResourceRecord,
}

impl Zone {
    /// The origin's labels.
    pub closed spec fn origin_v(&self) -> Seq<Seq<u8>> {
        self.origin@
    }

    /// The RRsets: key to records.
    pub closed spec fn index(&self) -> Map<RRKey, Seq<RecordV>> {
        index_map(rrset_views(self.sets@))
    }

    /// The SOA record.
    pub closed spec fn soa_v(&self) -> RecordV {
        record_view(self.soa)
    }

    /// Well-formedness: RRset keys are unique; the SOA RRset is exactly the
    /// zone's SOA record, owned by the origin and holding SOA data; every
    /// RRset lies inside the origin.
    pub closed spec fn wf(&self) -> bool {
        &&& keys_unique(rrset_views(self.sets@))
        &&& self.index().contains_key(soa_key(self.origin@))
        &&& self.index()[soa_key(self.origin@)] == seq![record_view(self.soa)]
        &&& record_view(self.soa).name == self.origin@
        &&& record_view(self.soa).data is Soa
        &&& forall|k: RRKey| #[trigger] self.index().contains_key(k) ==> ends_with_labels(k.0, lower_labels(self.origin@))
    }

    /// What well-formedness promises, spelled out.
    pub proof fn lemma_wf(&self)
        requires
            self.wf(),
        ensures
            self.index().contains_key(soa_key(self.origin_v())),
            self.index()[soa_key(self.origin_v())] == seq![self.soa_v()],
            self.soa_v().name == self.origin_v(),
            self.soa_v().data is Soa,
            forall|k: RRKey| #[trigger]
                self.index().contains_key(k) ==> ends_with_labels(k.0, lower_labels(self.origin_v())),
    {
    }

    /// The zone's origin (apex).
    pub fn origin(&self) -> (r: &Name)
        ensures
            r@ == self.origin_v(),
    {
        &self.origin
    }

    /// SOA record for this zone.
    pub fn soa(&self) -> (r: &ResourceRecord)
        ensures
            record_view(*r) == self.soa_v(),
    {
        &self.soa
    }

    /// The RRset matching `(owner, qtype)`; the owner is compared
    /// case-insensitively.
    pub fn find(&self, owner: &Name, qtype: QType) -> (r: Option<&[ResourceRecord]>)
        requires
            self.wf(),
        ensures
            ({
                let k = (lower_labels(owner@), qtype.0);
                match r {
                    Some(s) => self.index().contains_key(k) && record_views(s@) == self.index()[k],
                    None => !self.index().contains_key(k),
                }
            }),
    {
        let key = owner.to_ascii_lowercase();
        match position(&self.sets, &key, qtype) {
            Some(i) => {
                proof {
                    lemma_index_at(rrset_views(self.sets@), i as int);
                    assert(rrset_views(self.sets@)[i as int] == rrset_view(self.sets@[i as int]));
                }
                Some(self.sets[i].records.as_slice())
            },
            None => None,
        }
    }

    /// Every record, RRset by RRset.
    pub closed spec fn record_list(&self) -> Seq<RecordV> {
        flatten_sets(rrset_views(self.sets@))
    }

    /// Every record of the zone, RRset by RRset.
    pub fn all_records(&self) -> (r: Vec<ResourceRecord>)
        requires
            self.wf(),
        ensures
            record_views(r@) == self.record_list(),
            forall|i: int| 0 <= i < r@.len() ==> exists|k: RRKey| #[trigger]
                self.index().contains_key(k) && self.index()[k].contains(record_view(#[trigger] r@[i])),
    {
        let ghost v = rrset_views(self.sets@);
        let mut out: Vec<ResourceRecord> = Vec::new();
        let mut i: usize = 0;
        proof {
            assert(record_views(out@) =~= flatten_sets(v.take(0)));
        }
        while i < self.sets.len()
            invariant
                i <= self.sets@.len(),
                v == rrset_views(self.sets@),
                self.wf(),
                record_views(out@) == flatten_sets(v.take(i as int)),
                forall|j: int| 0 <= j < out@.len() ==> exists|k: RRKey| #[trigger]
                    self.index().contains_key(k) && self.index()[k].contains(record_view(#[trigger] out@[j])),
            decreases self.sets@.len() - i,
        {
            let recs = &self.sets[i].records;
            let ghost base = record_views(out@);
            proof {
                lemma_index_at(v, i as int);
                assert(v[i as int] == rrset_view(self.sets@[i as int]));
                assert(self.index()[set_key(v[i as int])] == record_views(recs@));
                assert(record_views(recs@).take(0) =~= Seq::<RecordV>::empty());
                assert(base + Seq::<RecordV>::empty() =~= base);
            }
            let mut j: usize = 0;
            while j < recs.len()
                invariant
                    i < self.sets@.len(),
                    j <= recs@.len(),
                    recs@ == self.sets@[i as int].records@,
                    v == rrset_views(self.sets@),
                    self.index().contains_key(set_key(v[i as int])),
                    self.index()[set_key(v[i as int])] == record_views(recs@),
                    record_views(out@) == base + record_views(recs@).take(j as int),
                    forall|m: int| 0 <= m < out@.len() ==> exists|k: RRKey| #[trigger]
                        self.index().contains_key(k) && self.index()[k].contains(record_view(#[trigger] out@[m])),
                decreases recs@.len() - j,
            {
                let rr = recs[j].clone();
                proof {
                    let k = set_key(v[i as int]);
                    assert(record_views(recs@)[j as int] == record_view(recs@[j as int]));
                    assert(self.index()[k].contains(record_view(rr)));
                }
                let ghost before = out@;
                out.push(rr);
                proof {
                    assert(record_views(out@) =~= record_views(before).push(record_view(rr)));
                    assert(record_views(recs@).take(j as int + 1) =~= record_views(recs@).take(j as int).push(
                        record_view(recs@[j as int]),
                    ));
                }
                j = j + 1;
            }
            proof {
                assert(record_views(recs@).take(j as int) =~= record_views(recs@));
                assert(v.take(i as int + 1).drop_last() =~= v.take(i as int));
                assert(v.take(i as int + 1).last() == v[i as int]);
            }
            i = i + 1;
        }
        proof {
            assert(v.take(i as int) =~= v);
        }
        out
    }
}

/// The records of the RRsets, in order.
pub open spec fn flatten_sets(v: Seq<RRsetV>) -> Seq<RecordV>
    decreases v.len(),
{
    if v.len() == 0 {
        seq![]
    } else {
        flatten_sets(v.drop_last()) + v.last().records
    }
}

/// The index after adding `rv` to the RRset at key `k`.
pub open spec fn index_add(m: Map<RRKey, Seq<RecordV>>, k: RRKey, rv: RecordV) -> Map<RRKey, Seq<RecordV>> {
    m.insert(
        k,
        if m.contains_key(k) {
            m[k].push(rv)
        } else {
            seq![rv]
        },
    )
}

/// Add `rr` to the RRset of its lowercased owner and type.
pub fn insert_record(sets: &mut Vec<RRset>, rr: ResourceRecord)
    requires
        keys_unique(rrset_views(old(sets)@)),
    ensures
        keys_unique(rrset_views(final(sets)@)),
        index_map(rrset_views(final(sets)@)) == index_add(
            index_map(rrset_views(old(sets)@)),
            (lower_labels(record_view(rr).name), crate::wire::rr::rdata_type(record_view(rr).data)),
            record_view(rr),
        ),
{
    let ghost v0 = rrset_views(sets@);
    let ghost rv = record_view(rr);
    let owner = rr.name.to_ascii_lowercase();
    let qtype = rr.rtype();
    match position(sets, &owner, qtype) {
        Some(i) => {
            proof {
                lemma_index_at(v0, i as int);
                assert(v0[i as int] == rrset_view(sets@[i as int]));
            }
            let mut set = sets.remove(i);
            let ghost before = set.records@;
            set.records.push(rr);
            proof {
                assert(record_views(set.records@) =~= record_views(before).push(rv));
                lemma_index_update(v0, i as int, rrset_view(set));
            }
            sets.insert(i, set);
            proof {
                assert(rrset_views(sets@) =~= v0.update(i as int, rrset_view(set)));
            }
        },
        None => {
            let mut records: Vec<ResourceRecord> = Vec::new();
            records.push(rr);
            let set = RRset { owner, qtype, records };
            proof {
                assert(record_views(set.records@) =~= seq![rv]);
                lemma_index_push(v0, rrset_view(set));
            }
            sets.push(set);
            proof {
                assert(rrset_views(sets@) =~= v0.push(rrset_view(set)));
            }
        },
    }
}

} // verus!
