//! The RRset index of a zone, modelled as a map from `(lowercased owner, TYPE)`
//! to the records of that RRset.
use crate::wire::message::record_views;
use crate::wire::name::{lower_label, lower_labels, Name};
use crate::wire::question::QType;
use crate::wire::rr::{RecordV, ResourceRecord};
use vstd::prelude::*;

verus! {

/// The key of an RRset: lowercased owner labels and TYPE.
pub type RRKey = (Seq<Seq<u8>>, u16);

/// The records sharing one owner and type.
pub struct RRset {
    pub owner: Name,
    pub qtype: QType,
    pub records: Vec<ResourceRecord>,
}

/// Abstract RRset.
pub struct RRsetV {
    pub owner: Seq<Seq<u8>>,
    pub qtype: u16,
    pub records: Seq<RecordV>,
}

pub open spec fn rrset_view(s: RRset) -> RRsetV {
    RRsetV { owner: s.owner@, qtype: s.qtype.0, records: record_views(s.records@) }
}

pub open spec fn rrset_views(v: Seq<RRset>) -> Seq<RRsetV> {
    v.map_values(|s: RRset| rrset_view(s))
}

pub open spec fn set_key(s: RRsetV) -> RRKey {
    (s.owner, s.qtype)
}

/// Some RRset in `sets` has key `k`.
pub open spec fn has_key(sets: Seq<RRsetV>, k: RRKey) -> bool {
    exists|i: int| 0 <= i < sets.len() && #[trigger] set_key(sets[i]) == k
}

/// The index as a map from key to records.
pub open spec fn index_map(sets: Seq<RRsetV>) -> Map<RRKey, Seq<RecordV>> {
    Map::new(
        |k: RRKey| has_key(sets, k),
        |k: RRKey| sets[choose|i: int| 0 <= i < sets.len() && #[trigger] set_key(sets[i]) == k].records,
    )
}

/// No two RRsets share a key.
pub open spec fn keys_unique(sets: Seq<RRsetV>) -> bool {
    forall|i: int, j: int|
        0 <= i < sets.len() && 0 <= j < sets.len() && i != j ==> #[trigger] set_key(sets[i]) != #[trigger] set_key(
            sets[j],
        )
}

/// The index entry of the RRset at position `i`.
pub proof fn lemma_index_at(sets: Seq<RRsetV>, i: int)
    requires
        keys_unique(sets),
        0 <= i < sets.len(),
    ensures
        index_map(sets).contains_key(set_key(sets[i])),
        index_map(sets)[set_key(sets[i])] == sets[i].records,
{
    let k = set_key(sets[i]);
    assert(has_key(sets, k));
    let j = choose|j: int| 0 <= j < sets.len() && #[trigger] set_key(sets[j]) == k;
    assert(set_key(sets[j]) == k);
    if j != i {
        assert(set_key(sets[i]) != set_key(sets[j]));
    }
}

/// Replacing the RRset at `i` by one with the same key.
pub proof fn lemma_index_update(sets: Seq<RRsetV>, i: int, s: RRsetV)
    requires
        keys_unique(sets),
        0 <= i < sets.len(),
        set_key(s) == set_key(sets[i]),
    ensures
        keys_unique(sets.update(i, s)),
        index_map(sets.update(i, s)) == index_map(sets).insert(set_key(s), s.records),
{
    let n = sets.update(i, s);
    assert forall|a: int, b: int| 0 <= a < n.len() && 0 <= b < n.len() && a != b implies #[trigger] set_key(n[a])
        != #[trigger] set_key(n[b]) by {
        assert(set_key(n[a]) == set_key(sets[a]));
        assert(set_key(n[b]) == set_key(sets[b]));
    }
    let m1 = index_map(n);
    let m2 = index_map(sets).insert(set_key(s), s.records);
    assert forall|k: RRKey| m1.contains_key(k) <==> m2.contains_key(k) by {
        if has_key(n, k) {
            let j = choose|j: int| 0 <= j < n.len() && #[trigger] set_key(n[j]) == k;
            assert(set_key(sets[j]) == k);
        }
        if has_key(sets, k) {
            let j = choose|j: int| 0 <= j < sets.len() && #[trigger] set_key(sets[j]) == k;
            assert(set_key(n[j]) == k);
        }
        if k == set_key(s) {
            assert(set_key(n[i]) == k);
        }
    }
    assert forall|k: RRKey| m1.contains_key(k) implies m1[k] == m2[k] by {
        let j = choose|j: int| 0 <= j < n.len() && #[trigger] set_key(n[j]) == k;
        assert(set_key(n[j]) == k);
        lemma_index_at(n, j);
        if j == i {
        } else {
            assert(set_key(sets[j]) == k);
            lemma_index_at(sets, j);
        }
    }
    assert(m1 =~= m2);
}

/// Appending an RRset whose key is new.
pub proof fn lemma_index_push(sets: Seq<RRsetV>, s: RRsetV)
    requires
        keys_unique(sets),
        !has_key(sets, set_key(s)),
    ensures
        keys_unique(sets.push(s)),
        index_map(sets.push(s)) == index_map(sets).insert(set_key(s), s.records),
{
    let n = sets.push(s);
    let last = sets.len() as int;
    assert forall|a: int, b: int| 0 <= a < n.len() && 0 <= b < n.len() && a != b implies #[trigger] set_key(n[a])
        != #[trigger] set_key(n[b]) by {
        if a == last {
            assert(set_key(sets[b]) != set_key(s));
        } else if b == last {
            assert(set_key(sets[a]) != set_key(s));
        } else {
            assert(set_key(n[a]) == set_key(sets[a]));
            assert(set_key(n[b]) == set_key(sets[b]));
        }
    }
    let m1 = index_map(n);
    let m2 = index_map(sets).insert(set_key(s), s.records);
    assert forall|k: RRKey| m1.contains_key(k) <==> m2.contains_key(k) by {
        if has_key(n, k) {
            let j = choose|j: int| 0 <= j < n.len() && #[trigger] set_key(n[j]) == k;
            if j < last {
                assert(set_key(sets[j]) == k);
            }
        }
        if has_key(sets, k) {
            let j = choose|j: int| 0 <= j < sets.len() && #[trigger] set_key(sets[j]) == k;
            assert(set_key(n[j]) == k);
        }
        if k == set_key(s) {
            assert(set_key(n[last]) == k);
        }
    }
    assert forall|k: RRKey| m1.contains_key(k) implies m1[k] == m2[k] by {
        let j = choose|j: int| 0 <= j < n.len() && #[trigger] set_key(n[j]) == k;
        assert(set_key(n[j]) == k);
        lemma_index_at(n, j);
        if j < last {
            assert(set_key(sets[j]) == k);
            lemma_index_at(sets, j);
        }
    }
    assert(m1 =~= m2);
}

/// Removing the RRset at `i`.
pub proof fn lemma_index_remove(sets: Seq<RRsetV>, i: int)
    requires
        keys_unique(sets),
        0 <= i < sets.len(),
    ensures
        keys_unique(sets.remove(i)),
        index_map(sets.remove(i)) == index_map(sets).remove(set_key(sets[i])),
{
    let n = sets.remove(i);
    assert forall|j: int| 0 <= j < n.len() implies #[trigger] n[j] == sets[if j < i {
        j
    } else {
        j + 1
    }] by {}
    assert forall|a: int, b: int| 0 <= a < n.len() && 0 <= b < n.len() && a != b implies #[trigger] set_key(n[a])
        != #[trigger] set_key(n[b]) by {
        let a2 = if a < i {
            a
        } else {
            a + 1
        };
        let b2 = if b < i {
            b
        } else {
            b + 1
        };
        assert(n[a] == sets[a2]);
        assert(n[b] == sets[b2]);
        assert(set_key(sets[a2]) != set_key(sets[b2]));
    }
    let ki = set_key(sets[i]);
    let m1 = index_map(n);
    let m2 = index_map(sets).remove(ki);
    assert forall|k: RRKey| m1.contains_key(k) <==> m2.contains_key(k) by {
        if has_key(n, k) {
            let j = choose|j: int| 0 <= j < n.len() && #[trigger] set_key(n[j]) == k;
            let j2 = if j < i {
                j
            } else {
                j + 1
            };
            assert(n[j] == sets[j2]);
            assert(set_key(sets[j2]) == k);
            assert(j2 != i);
            assert(set_key(sets[j2]) != set_key(sets[i]));
        }
        if has_key(sets, k) && k != ki {
            let j = choose|j: int| 0 <= j < sets.len() && #[trigger] set_key(sets[j]) == k;
            assert(j != i);
            let j2 = if j < i {
                j
            } else {
                j - 1
            };
            assert(n[j2] == sets[j]);
            assert(set_key(n[j2]) == k);
        }
    }
    assert forall|k: RRKey| m1.contains_key(k) implies m1[k] == m2[k] by {
        let j = choose|j: int| 0 <= j < n.len() && #[trigger] set_key(n[j]) == k;
        assert(set_key(n[j]) == k);
        lemma_index_at(n, j);
        let j2 = if j < i {
            j
        } else {
            j + 1
        };
        assert(n[j] == sets[j2]);
        lemma_index_at(sets, j2);
    }
    assert(m1 =~= m2);
}

/// Position of the RRset with owner `owner` (already lowercased) and type
/// `qtype`, if any.
pub fn position(sets: &Vec<RRset>, owner: &Name, qtype: QType) -> (r: Option<usize>)
    ensures
        match r {
            Some(i) => i < sets@.len() && set_key(rrset_views(sets@)[i as int]) == (owner@, qtype.0),
            None => !has_key(rrset_views(sets@), (owner@, qtype.0)),
        },
{
    let ghost v = rrset_views(sets@);
    let mut i: usize = 0;
    while i < sets.len()
        invariant
            i <= sets@.len(),
            v == rrset_views(sets@),
            v.len() == sets@.len(),
            forall|j: int| 0 <= j < i ==> #[trigger] set_key(v[j]) != (owner@, qtype.0),
        decreases sets@.len() - i,
    {
        let s = &sets[i];
        if s.qtype.0 == qtype.0 && s.owner.equals(owner) {
            proof {
                assert(v[i as int] == rrset_view(sets@[i as int]));
            }
            return Some(i);
        }
        proof {
            assert(v[i as int] == rrset_view(sets@[i as int]));
        }
        i = i + 1;
    }
    proof {
        if has_key(v, (owner@, qtype.0)) {
            let j = choose|j: int| 0 <= j < v.len() && #[trigger] set_key(v[j]) == (owner@, qtype.0);
            assert(set_key(v[j]) != (owner@, qtype.0));
        }
    }
    None
}

/// Lower-casing twice is lower-casing once.
pub proof fn lemma_lower_idempotent(ls: Seq<Seq<u8>>)
    ensures
        lower_labels(lower_labels(ls)) == lower_labels(ls),
{
    assert forall|i: int| 0 <= i < ls.len() implies #[trigger] lower_labels(lower_labels(ls))[i] == lower_labels(
        ls,
    )[i] by {
        assert(lower_label(lower_label(ls[i])) =~= lower_label(ls[i]));
    }
    assert(lower_labels(lower_labels(ls)) =~= lower_labels(ls));
}

} // verus!
