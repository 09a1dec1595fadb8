//! Compressing name encoder (RFC 1035 §4.1.4).
//!
//! The context records the offset of every name suffix it has written (keyed by
//! the lower-cased labels) so later occurrences become two-byte pointers. Only
//! offsets below 0x4000 are representable as pointers.
use super::name::{label_views, lower_bytes, lower_labels, Name};
use super::ParseError;
use vstd::prelude::*;

verus! {

/// The offset recorded for `key`, if any (first match).
pub open spec fn ctx_lookup(entries: Seq<(Seq<Seq<u8>>, u16)>, key: Seq<Seq<u8>>) -> Option<u16>
    decreases entries.len(),
{
    if entries.len() == 0 {
        None
    } else if entries[0].0 == key {
        Some(entries[0].1)
    } else {
        ctx_lookup(entries.drop_first(), key)
    }
}

/// The two bytes of a compression pointer to `ptr`.
pub open spec fn pointer_bytes(ptr: u16) -> Seq<u8> {
    seq![(0xC0 + ptr / 256) as u8, (ptr % 256) as u8]
}

/// Writing the labels `ls` (a suffix of the name being written) with `written`
/// bytes already emitted at absolute offset `abs`, into room for `cap` bytes:
/// the bytes emitted from here on (or the size that did not fit) and the
/// recorded suffixes afterwards.
pub open spec fn compress_write(
    entries: Seq<(Seq<Seq<u8>>, u16)>,
    ls: Seq<Seq<u8>>,
    abs: int,
    written: int,
    cap: int,
) -> (Result<Seq<u8>, usize>, Seq<(Seq<Seq<u8>>, u16)>)
    decreases ls.len(),
{
    if ls.len() == 0 {
        if written + 1 > cap {
            (Err((written + 1) as usize), entries)
        } else {
            (Ok(seq![0u8]), entries)
        }
    } else {
        let key = lower_labels(ls);
        match ctx_lookup(entries, key) {
            Some(ptr) => if written + 2 > cap {
                (Err((written + 2) as usize), entries)
            } else {
                (Ok(pointer_bytes(ptr)), entries)
            },
            None => {
                let e2 = if abs + written < 0x4000 {
                    entries.push((key, (abs + written) as u16))
                } else {
                    entries
                };
                let len = ls[0].len();
                if written + 1 + len > cap {
                    (Err((written + 1 + len) as usize), e2)
                } else {
                    let (rest, e3) = compress_write(e2, ls.drop_first(), abs, written + 1 + len, cap);
                    (
                        match rest {
                            Ok(b) => Ok(seq![len as u8] + ls[0] + b),
                            Err(n) => Err(n),
                        },
                        e3,
                    )
                }
            },
        }
    }
}

/// Encode context that tracks suffix offsets so repeated suffixes become pointers.
#[derive(Debug)]
pub struct EncodeCtx {
    suffixes: Vec<(Vec<Vec<u8>>, u16)>,
}

/// The view of one recorded suffix.
pub open spec fn entry_view(e: (Vec<Vec<u8>>, u16)) -> (Seq<Seq<u8>>, u16) {
    (label_views(e.0@), e.1)
}

/// The views of recorded suffixes.
pub open spec fn entry_views(v: Seq<(Vec<Vec<u8>>, u16)>) -> Seq<(Seq<Seq<u8>>, u16)> {
    v.map_values(|e: (Vec<Vec<u8>>, u16)| entry_view(e))
}

impl View for EncodeCtx {
    type V = Seq<(Seq<Seq<u8>>, u16)>;

    closed spec fn view(&self) -> Seq<(Seq<Seq<u8>>, u16)> {
        entry_views(self.suffixes@)
    }
}

/// Every recorded offset is representable as a pointer.
pub open spec fn ctx_offsets_ok(entries: Seq<(Seq<Seq<u8>>, u16)>) -> bool {
    forall|i: int| 0 <= i < entries.len() ==> (#[trigger] entries[i]).1 < 0x4000
}

pub proof fn lemma_lookup_bound(entries: Seq<(Seq<Seq<u8>>, u16)>, key: Seq<Seq<u8>>)
    requires
        ctx_offsets_ok(entries),
    ensures
        ctx_lookup(entries, key) matches Some(p) ==> p < 0x4000,
    decreases entries.len(),
{
    if entries.len() > 0 {
        assert(entries[0].1 < 0x4000);
        let d = entries.drop_first();
        assert forall|i: int| 0 <= i < d.len() implies (#[trigger] d[i]).1 < 0x4000 by {
            assert(d[i] == entries[i + 1]);
        }
        lemma_lookup_bound(d, key);
    }
}

impl EncodeCtx {
    /// Every recorded offset is below 0x4000.
    #[verifier::type_invariant]
    pub closed spec fn inv(self) -> bool {
        ctx_offsets_ok(self@)
    }

    /// What the invariant says, in terms of the view.
    pub proof fn lemma_inv(c: EncodeCtx)
        requires
            c.inv(),
        ensures
            ctx_offsets_ok(c@),
    {
    }

    /// A context that has recorded nothing.
    pub fn new() -> (r: Self)
        ensures
            r@ == Seq::<(Seq<Seq<u8>>, u16)>::empty(),
    {
        let r = EncodeCtx { suffixes: Vec::new() };
        assert(r@ =~= Seq::<(Seq<Seq<u8>>, u16)>::empty());
        r
    }

    /// Write `name` into `out` starting at `out[0]`, which lies at
    /// `absolute_offset` in the message, emitting a pointer for any suffix seen
    /// previously in this context. Returns bytes written.
    pub fn write_name(&mut self, name: &Name, out: &mut [u8], absolute_offset: usize) -> (r: Result<
        usize,
        ParseError,
    >)
        ensures
            ({
                let (res, e) = compress_write(
                    old(self)@,
                    name@,
                    absolute_offset as int,
                    0,
                    old(out)@.len() as int,
                );
                &&& final(self)@ == e
                &&& final(out)@.len() == old(out)@.len()
                &&& match res {
                    Ok(b) => r == Ok::<usize, ParseError>(b.len() as usize) && final(out)@ == b + old(
                        out,
                    )@.skip(b.len() as int),
                    Err(need) => r == Err::<usize, ParseError>(
                        ParseError::OutputBufferTooSmall { need, have: old(out)@.len() as usize },
                    ),
                }
            }),
    {
        let r = self.write_name_into(name, out, 0, absolute_offset);
        proof {
            assert(old(out)@.subrange(0, 0) =~= Seq::<u8>::empty());
            match compress_write(old(self)@, name@, absolute_offset as int, 0, old(out)@.len() as int).0 {
                Ok(b) => {
                    assert(Seq::<u8>::empty() + b =~= b);
                },
                Err(_) => {},
            }
        }
        r
    }

    /// Like [`EncodeCtx::write_name`], but writes at `out[start..]`.
    #[verifier::rlimit(60)]
    pub fn write_name_into(&mut self, name: &Name, out: &mut [u8], start: usize, absolute_offset: usize) -> (r:
        Result<usize, ParseError>)
        requires
            start <= old(out)@.len(),
        ensures
            ({
                let (res, e) = compress_write(
                    old(self)@,
                    name@,
                    absolute_offset as int,
                    0,
                    old(out)@.len() - start,
                );
                &&& final(self)@ == e
                &&& final(out)@.len() == old(out)@.len()
                &&& match res {
                    Ok(b) => r == Ok::<usize, ParseError>(b.len() as usize) && final(out)@ == old(
                        out,
                    )@.subrange(0, start as int) + b + old(out)@.skip(start + b.len()),
                    Err(need) => r == Err::<usize, ParseError>(
                        ParseError::OutputBufferTooSmall { need, have: (old(out)@.len() - start) as usize },
                    ),
                }
            }),
    {
        proof {
            use_type_invariant(name);
            Name::lemma_inv(*name);
            use_type_invariant(&*self);
        }
        let ghost ls = name@;
        let ghost start_out = out@;
        let out_len = out.len();
        proof {
            assert(ls.skip(0) =~= ls);
            assert(ls.take(0) =~= Seq::<Seq<u8>>::empty());
            assert(start_out =~= start_out.subrange(0, start as int) + super::name::labels_bytes(ls.take(0))
                + start_out.skip(start + 0));
        }
        let ghost cap = out@.len() - start;
        let ghost target = compress_write(self@, ls, absolute_offset as int, 0, cap);
        let have = out.len() - start;
        let n = name.label_count();
        let mut written: usize = 0;
        let mut k: usize = 0;
        loop
            invariant
                0 <= k <= n,
                n == ls.len(),
                ls == name@,
                super::name::name_wf(ls),
                start <= start_out.len(),
                have == cap,
                target == compress_write(old(self)@, name@, absolute_offset as int, 0, cap),
                start_out == old(out)@,
                out_len == start_out.len(),
                cap == start_out.len() - start,
                ctx_offsets_ok(self@),
                out@.len() == start_out.len(),
                written == super::name::labels_sum(ls.take(k as int)),
                written <= cap,
                ({
                    let (res, e) = compress_write(self@, ls.skip(k as int), absolute_offset as int, written as int, cap);
                    &&& e == target.1
                    &&& match (res, target.0) {
                        (Ok(b), Ok(tb)) => tb == super::name::labels_bytes(ls.take(k as int)) + b,
                        (Err(x), Err(y)) => x == y,
                        _ => false,
                    }
                }),
                out@ == start_out.subrange(0, start as int) + super::name::labels_bytes(ls.take(k as int))
                    + start_out.skip(start + written),
            decreases n - k,
        {
            proof {
                super::name::lemma_labels_sum_prefix(ls, k as int);
                super::name::lemma_labels_bytes_len(ls.take(k as int));
            }
            let ghost suffix = ls.skip(k as int);
            if k == n {
                proof {
                    assert(suffix.len() == 0);
                }
                if written + 1 > have {
                    proof {
                        assert(compress_write(self@, suffix, absolute_offset as int, written as int, cap).0
                            == Err::<Seq<u8>, usize>((written + 1) as usize));
                        assert(target.0 == Err::<Seq<u8>, usize>((written + 1) as usize));
                        assert(self@ == target.1);
                    }
                    return Err(ParseError::OutputBufferTooSmall { need: written + 1, have });
                }
                out[start + written] = 0;
                written = written + 1;
                proof {
                    assert(ls.take(k as int) =~= ls);
                    let tb = super::name::labels_bytes(ls) + seq![0u8];
                    assert(out@ =~= start_out.subrange(0, start as int) + tb + start_out.skip(start + tb.len()))
                        by {
                        super::name::lemma_labels_bytes_len(ls);
                    }
                    super::name::lemma_labels_bytes_len(ls);
                }
                return Ok(written);
            }
            let key = lower_suffix(name, k);
            let found = self.lookup(&key);
            proof {
                lemma_lookup_bound(self@, lower_labels(suffix));
            }
            match found {
                Some(ptr) => {
                    if written + 2 > have {
                        return Err(ParseError::OutputBufferTooSmall { need: written + 2, have });
                    }
                    let hi: u8 = (0xC0 + ptr / 256) as u8;
                    let lo: u8 = (ptr % 256) as u8;
                    out[start + written] = hi;
                    out[start + written + 1] = lo;
                    written = written + 2;
                    proof {
                        let tb = super::name::labels_bytes(ls.take(k as int)) + pointer_bytes(ptr);
                        super::name::lemma_labels_bytes_len(ls.take(k as int));
                        assert(out@ =~= start_out.subrange(0, start as int) + tb + start_out.skip(start + tb.len()));
                    }
                    return Ok(written);
                },
                None => {
                    let ghost entries0 = self@;
                    let ghost e2 = if absolute_offset + written < 0x4000 {
                        entries0.push((lower_labels(suffix), (absolute_offset + written) as u16))
                    } else {
                        entries0
                    };
                    if written < 0x4000 && absolute_offset < 0x4000 - written {
                        let off: u16 = (absolute_offset + written) as u16;
                        self.push_entry(key, off);
                        proof {
                            assert(self@ =~= e2);
                        }
                    }
                    proof {
                        assert(self@ == e2);
                        assert(suffix[0] == ls[k as int]);
                        super::name::lemma_labels_sum_take_mono_pub(ls, k as int + 1);
                    }
                    let label = name.label(k);
                    let len = label.len();
                    if written + 1 + len > have {
                        return Err(ParseError::OutputBufferTooSmall { need: written + 1 + len, have });
                    }
                    out[start + written] = len as u8;
                    super::name::copy_into(out, start + written + 1, label.as_slice());
                    proof {
                        let t1 = ls.take(k as int + 1);
                        assert(t1.drop_last() =~= ls.take(k as int));
                        assert(t1.last() == ls[k as int]);
                        assert(ls.skip(k as int + 1) =~= suffix.drop_first());
                        assert(out@ =~= start_out.subrange(0, start as int) + super::name::labels_bytes(t1)
                            + start_out.skip(start + written + 1 + len));
                        let (rest, e3) = compress_write(e2, suffix.drop_first(), absolute_offset as int, written + 1 + len, cap);
                        match rest {
                            Ok(b) => {
                                assert(super::name::labels_bytes(ls.take(k as int)) + (seq![len as u8] + ls[k as int] + b)
                                    =~= super::name::labels_bytes(t1) + b);
                            },
                            Err(_) => {},
                        }
                    }
                    written = written + 1 + len;
                    k = k + 1;
                },
            }
        }
    }

    /// Record `key` at `off`.
    fn push_entry(&mut self, key: Vec<Vec<u8>>, off: u16)
        requires
            off < 0x4000,
        ensures
            final(self)@ == old(self)@.push((label_views(key@), off)),
    {
        proof {
            use_type_invariant(&*self);
        }
        let mut v: Vec<(Vec<Vec<u8>>, u16)> = Vec::new();
        std::mem::swap(&mut v, &mut self.suffixes);
        v.push((key, off));
        proof {
            let nv = entry_views(v@);
            assert(nv =~= old(self)@.push((label_views(key@), off)));
            assert forall|i: int| 0 <= i < nv.len() implies (#[trigger] nv[i]).1 < 0x4000 by {
                if i < old(self)@.len() {
                    assert(nv[i] == old(self)@[i]);
                }
            }
        }
        self.suffixes = v;
    }

    /// The offset recorded for `key`, if any.
    fn lookup(&self, key: &Vec<Vec<u8>>) -> (r: Option<u16>)
        ensures
            r == ctx_lookup(self@, label_views(key@)),
    {
        let ghost kv = label_views(key@);
        assert(self@.skip(0) =~= self@);
        let mut i: usize = 0;
        while i < self.suffixes.len()
            invariant
                0 <= i <= self@.len(),
                self@.len() == self.suffixes@.len(),
                kv == label_views(key@),
                ctx_lookup(self@.skip(i as int), kv) == ctx_lookup(self@, kv),
            decreases self@.len() - i,
        {
            proof {
                assert(self@[i as int] == entry_view(self.suffixes@[i as int]));
                assert(self@.skip(i as int)[0] == entry_view(self.suffixes@[i as int]));
                assert(self@.skip(i as int).drop_first() =~= self@.skip(i + 1));
            }
            let entry = &self.suffixes[i];
            let eq = labels_vec_eq(&entry.0, key);
            proof {
                assert(*entry == self.suffixes@[i as int]);
                assert(eq == (label_views(entry.0@) == kv));
            }
            if eq {
                proof {
                    assert(self@.skip(i as int)[0] == self@[i as int]);
                    assert(self@[i as int].0 == label_views(self.suffixes@[i as int].0@));
                    assert(label_views(self.suffixes@[i as int].0@) == kv);
                    assert(self@.skip(i as int)[0].0 == kv);
                    assert(ctx_lookup(self@.skip(i as int), kv) == Some(self@.skip(i as int)[0].1));
                }
                return Some(self.suffixes[i].1);
            }
            proof {
                assert(self@.skip(i as int)[0].0 != kv);
                assert(ctx_lookup(self@.skip(i as int), kv) == ctx_lookup(self@.skip(i as int).drop_first(), kv));
            }
            i = i + 1;
        }
        None
    }
}

/// Equality of two label vectors by value.
pub fn labels_vec_eq(a: &Vec<Vec<u8>>, b: &Vec<Vec<u8>>) -> (r: bool)
    ensures
        r == (label_views(a@) == label_views(b@)),
{
    let ghost av = label_views(a@);
    let ghost bv = label_views(b@);
    if a.len() != b.len() {
        proof {
            assert(av.len() != bv.len());
        }
        return false;
    }
    let mut i: usize = 0;
    while i < a.len()
        invariant
            0 <= i <= a@.len(),
            a@.len() == b@.len(),
            av == label_views(a@),
            bv == label_views(b@),
            forall|j: int| 0 <= j < i ==> av[j] == bv[j],
        decreases a@.len() - i,
    {
        if !bytes_eq(a[i].as_slice(), b[i].as_slice()) {
            proof {
                assert(av[i as int] != bv[i as int]);
            }
            return false;
        }
        i = i + 1;
    }
    assert(av =~= bv);
    true
}

/// Equality of two byte strings by value.
pub fn bytes_eq(a: &[u8], b: &[u8]) -> (r: bool)
    ensures
        r == (a@ == b@),
{
    if a.len() != b.len() {
        return false;
    }
    let mut i: usize = 0;
    while i < a.len()
        invariant
            0 <= i <= a@.len(),
            a@.len() == b@.len(),
            forall|j: int| 0 <= j < i ==> a@[j] == b@[j],
        decreases a@.len() - i,
    {
        if a[i] != b[i] {
            return false;
        }
        i = i + 1;
    }
    assert(a@ =~= b@);
    true
}

/// The lower-cased labels of `name` from the `k`-th on.
fn lower_suffix(name: &Name, k: usize) -> (r: Vec<Vec<u8>>)
    requires
        k <= name@.len(),
    ensures
        label_views(r@) == lower_labels(name@.skip(k as int)),
{
    let n = name.label_count();
    let mut out: Vec<Vec<u8>> = Vec::new();
    let mut i: usize = k;
    while i < n
        invariant
            k <= i <= n,
            n == name@.len(),
            out@.len() == i - k,
            forall|j: int| 0 <= j < out@.len() ==> (#[trigger] out@[j])@ == super::name::lower_label(name@[k + j]),
        decreases n - i,
    {
        let l = name.label(i);
        out.push(lower_bytes(l.as_slice()));
        i = i + 1;
    }
    assert(label_views(out@) =~= lower_labels(name@.skip(k as int)));
    out
}

} // verus!

verus! {

/// Capacity large enough that no well-formed name can overflow it.
pub open spec fn unbounded_cap() -> int {
    0x10000
}

/// The bytes (and recorded suffixes) of writing `ls` compressed at `abs`, with
/// room to spare.
pub open spec fn compress_bytes(entries: Seq<(Seq<Seq<u8>>, u16)>, ls: Seq<Seq<u8>>, abs: int) -> (Seq<u8>, Seq<(Seq<Seq<u8>>, u16)>) {
    let (r, e) = compress_write(entries, ls, abs, 0, unbounded_cap());
    (
        match r {
            Ok(b) => b,
            Err(_) => seq![],
        },
        e,
    )
}

/// A write that fits in `cap` gives the same outcome as one with room to spare;
/// one that does not fit needs more than `cap` bytes.
pub proof fn lemma_compress_cap(
    entries: Seq<(Seq<Seq<u8>>, u16)>,
    ls: Seq<Seq<u8>>,
    abs: int,
    written: int,
    cap: int,
)
    requires
        super::name::labels_ok(ls),
        0 <= written,
        written + super::name::labels_sum(ls) + 1 <= unbounded_cap(),
    ensures
        ({
            let (r1, e1) = compress_write(entries, ls, abs, written, cap);
            let (r2, e2) = compress_write(entries, ls, abs, written, unbounded_cap());
            &&& r2 is Ok
            &&& r2 matches Ok(b) ==> b.len() <= super::name::labels_sum(ls) + 1
            &&& r1 is Ok ==> r1 == r2 && e1 == e2
            &&& r1 matches Err(need) ==> (r2 matches Ok(b) && written + b.len() > cap && need > cap)
        }),
    decreases ls.len(),
{
    super::name::lemma_labels_bytes_len(ls);
    if ls.len() > 0 {
        let d = ls.drop_first();
        assert(super::name::labels_ok(d)) by {
            assert forall|i: int| 0 <= i < d.len() implies super::name::label_ok(#[trigger] d[i]) by {
                assert(d[i] == ls[i + 1]);
            }
        }
        lemma_labels_sum_drop_first(ls);
        let key = lower_labels(ls);
        match ctx_lookup(entries, key) {
            Some(_) => {},
            None => {
                let e2 = if abs + written < 0x4000 {
                    entries.push((key, (abs + written) as u16))
                } else {
                    entries
                };
                assert(super::name::label_ok(ls[0]));
                lemma_compress_cap(e2, d, abs, written + 1 + ls[0].len(), cap);
            },
        }
    }
}

/// Removing the first label lowers the length sum by that label's share.
pub proof fn lemma_labels_sum_drop_first(ls: Seq<Seq<u8>>)
    requires
        ls.len() > 0,
    ensures
        super::name::labels_sum(ls) == 1 + ls[0].len() + super::name::labels_sum(ls.drop_first()),
    decreases ls.len(),
{
    if ls.len() > 1 {
        lemma_labels_sum_drop_first(ls.drop_last());
        assert(ls.drop_last().drop_first() =~= ls.drop_first().drop_last());
        assert(ls.drop_first().last() == ls.last());
        assert(ls.drop_last()[0] == ls[0]);
        assert(super::name::labels_sum(ls.drop_first()) == super::name::labels_sum(ls.drop_first().drop_last())
            + 1 + ls.drop_first().last().len());
        assert(super::name::labels_sum(ls) == super::name::labels_sum(ls.drop_last()) + 1 + ls.last().len());
    } else {
        assert(ls.drop_first().len() == 0);
        assert(ls.drop_last().len() == 0);
        assert(ls.last() == ls[0]);
        assert(super::name::labels_sum(ls.drop_last()) == 0);
        assert(super::name::labels_sum(ls.drop_first()) == 0);
        assert(super::name::labels_sum(ls) == super::name::labels_sum(ls.drop_last()) + 1 + ls.last().len());
    }
}

} // verus!
