//! DNS names (RFC 1035 §3.1 / §4.1.4).
//!
//! The decoder follows compression pointers with a hop limit and rejects
//! forward and self pointers; the compressing encoder lives in `compress`.
use super::{ParseError, MAX_LABEL_LEN, MAX_NAME_LEN};
use vstd::prelude::*;
use vstd::string::StringSliceAdditionalSpecFns;

verus! {

/// The byte strings held by a vector of labels.
pub open spec fn label_views(v: Seq<Vec<u8>>) -> Seq<Seq<u8>> {
    v.map_values(|l: Vec<u8>| l@)
}

/// ASCII lower-casing of one byte (`u8::to_ascii_lowercase`).
pub open spec fn lower_byte(b: u8) -> u8 {
    if 65 <= b <= 90 {
        (b + 32) as u8
    } else {
        b
    }
}

/// ASCII lower-casing of a label.
pub open spec fn lower_label(l: Seq<u8>) -> Seq<u8> {
    l.map_values(|b: u8| lower_byte(b))
}

/// ASCII lower-casing of every label of a name.
pub open spec fn lower_labels(ls: Seq<Seq<u8>>) -> Seq<Seq<u8>> {
    ls.map_values(|l: Seq<u8>| lower_label(l))
}

/// Sum over the labels of `1 + len`: the wire length of a name without its
/// terminating zero byte.
pub open spec fn labels_sum(ls: Seq<Seq<u8>>) -> int
    decreases ls.len(),
{
    if ls.len() == 0 {
        0
    } else {
        labels_sum(ls.drop_last()) + 1 + ls.last().len()
    }
}

/// A label may be 1 to 63 bytes long.
pub open spec fn label_ok(l: Seq<u8>) -> bool {
    1 <= l.len() <= MAX_LABEL_LEN
}

/// The labels of a well-formed name: each 1 to 63 bytes, and at most 255 bytes
/// on the wire in all, the terminating zero byte included.
pub open spec fn name_wf(ls: Seq<Seq<u8>>) -> bool {
    &&& forall|i: int| 0 <= i < ls.len() ==> label_ok(#[trigger] ls[i])
    &&& labels_sum(ls) + 1 <= MAX_NAME_LEN
}

/// Every label is 1 to 63 bytes long.
pub open spec fn labels_ok(ls: Seq<Seq<u8>>) -> bool {
    forall|i: int| 0 <= i < ls.len() ==> label_ok(#[trigger] ls[i])
}

/// Uncompressed wire length of a name, terminator included.
pub open spec fn wire_len_of(ls: Seq<Seq<u8>>) -> int {
    labels_sum(ls) + 1
}

/// The length-prefixed labels of a name, without the terminator.
pub open spec fn labels_bytes(ls: Seq<Seq<u8>>) -> Seq<u8>
    decreases ls.len(),
{
    if ls.len() == 0 {
        seq![]
    } else {
        labels_bytes(ls.drop_last()) + seq![ls.last().len() as u8] + ls.last()
    }
}

/// The uncompressed wire form of a name.
pub open spec fn name_bytes(ls: Seq<Seq<u8>>) -> Seq<u8> {
    labels_bytes(ls).push(0u8)
}

pub proof fn lemma_labels_bytes_len(ls: Seq<Seq<u8>>)
    ensures
        labels_bytes(ls).len() == labels_sum(ls),
        labels_sum(ls) >= 0,
    decreases ls.len(),
{
    if ls.len() > 0 {
        lemma_labels_bytes_len(ls.drop_last());
    }
}

pub proof fn lemma_labels_sum_prefix(ls: Seq<Seq<u8>>, i: int)
    requires
        0 <= i <= ls.len(),
    ensures
        labels_sum(ls.take(i)) <= labels_sum(ls),
        i < ls.len() ==> labels_sum(ls.take(i + 1)) == labels_sum(ls.take(i)) + 1 + ls[i].len(),
    decreases ls.len() - i,
{
    if i < ls.len() {
        assert(ls.take(i + 1).drop_last() =~= ls.take(i));
        lemma_labels_sum_prefix(ls, i + 1);
    } else {
        assert(ls.take(i) =~= ls);
    }
}

/// Decoder state machine for a name starting at `pos` in `buf`: `hops` labels or
/// pointers seen so far, `total` bytes of length-prefixed labels collected,
/// `labels` collected, `jumped` whether a pointer was followed, `adv` where the
/// caller resumes.
pub open spec fn decode_name_from(
    buf: Seq<u8>,
    pos: int,
    hops: nat,
    total: int,
    labels: Seq<Seq<u8>>,
    jumped: bool,
    adv: int,
) -> Result<(Seq<Seq<u8>>, int), ParseError>
    decreases 128 - hops,
{
    if hops >= 128 {
        Err(ParseError::InvalidCompression("too many pointer hops"))
    } else if pos < 0 || pos >= buf.len() {
        Err(ParseError::UnexpectedEof { offset: pos as usize, context: "name" })
    } else {
        let b = buf[pos];
        if b & 0xC0 == 0 {
            let len = (b & 0x3F) as int;
            if len == 0 {
                Ok((labels, if jumped { adv } else { pos + 1 }))
            } else if pos + 1 + len > buf.len() {
                Err(ParseError::UnexpectedEof { offset: (pos + 1) as usize, context: "label bytes" })
            } else if total + 1 + len + 1 > MAX_NAME_LEN {
                Err(ParseError::NameTooLong { len: (total + 1 + len + 1) as usize })
            } else {
                decode_name_from(
                    buf,
                    pos + 1 + len,
                    hops + 1,
                    total + 1 + len,
                    labels.push(buf.subrange(pos + 1, pos + 1 + len)),
                    jumped,
                    if jumped { adv } else { pos + 1 + len },
                )
            }
        } else if b & 0xC0 == 0xC0 {
            if pos + 1 >= buf.len() {
                Err(ParseError::UnexpectedEof { offset: (pos + 1) as usize, context: "pointer low byte" })
            } else {
                let target = (b & 0x3F) as int * 256 + buf[pos + 1] as int;
                if target >= pos {
                    Err(ParseError::InvalidCompression("pointer does not point backwards"))
                } else {
                    decode_name_from(
                        buf,
                        target,
                        hops + 1,
                        total,
                        labels,
                        true,
                        if jumped { adv } else { pos + 2 },
                    )
                }
            }
        } else {
            Err(ParseError::InvalidCompression("reserved label form"))
        }
    }
}

/// The name (as labels) that starts at `offset` in `buf`, with the offset just
/// past its non-compressed portion, or the error that decoding reports.
pub open spec fn decode_name(buf: Seq<u8>, offset: int) -> Result<(Seq<Seq<u8>>, int), ParseError> {
    decode_name_from(buf, offset, 0, 0, seq![], false, offset)
}

proof fn lemma_decode_name_from_wf(
    buf: Seq<u8>,
    pos: int,
    hops: nat,
    total: int,
    labels: Seq<Seq<u8>>,
    jumped: bool,
    adv: int,
)
    requires
        labels_ok(labels),
        total == labels_sum(labels),
        total + 1 <= MAX_NAME_LEN,
    ensures
        decode_name_from(buf, pos, hops, total, labels, jumped, adv) matches Ok((ls, e)) ==> {
            &&& name_wf(ls)
            &&& jumped ==> e == adv
            &&& !jumped ==> pos < e <= buf.len()
        },
    decreases 128 - hops,
{
    if hops < 128 && 0 <= pos < buf.len() {
        let b = buf[pos];
        if b & 0xC0 == 0 {
            let len = (b & 0x3F) as int;
            assert((b & 0x3F) <= 63) by (bit_vector);
            if len != 0 && pos + 1 + len <= buf.len() && total + 1 + len + 1 <= MAX_NAME_LEN {
                let l = buf.subrange(pos + 1, pos + 1 + len);
                let nl = labels.push(l);
                assert(nl.drop_last() =~= labels);
                assert(labels_ok(nl)) by {
                    assert forall|i: int| 0 <= i < nl.len() implies label_ok(#[trigger] nl[i]) by {
                        if i < labels.len() {
                            assert(nl[i] == labels[i]);
                        }
                    }
                }
                lemma_decode_name_from_wf(
                    buf,
                    pos + 1 + len,
                    hops + 1,
                    total + 1 + len,
                    nl,
                    jumped,
                    if jumped { adv } else { pos + 1 + len },
                );
            }
        } else if b & 0xC0 == 0xC0 && pos + 1 < buf.len() {
            let target = (b & 0x3F) as int * 256 + buf[pos + 1] as int;
            if target < pos {
                lemma_decode_name_from_wf(buf, target, hops + 1, total, labels, true, if jumped { adv } else { pos + 2 });
            }
        }
    }
}

/// Whatever the decoder returns is a well-formed name: every label 1 to 63
/// bytes, at most 255 bytes on the wire with the terminator; and it resumes
/// past where the name starts, within the buffer.
pub proof fn lemma_decode_name_wf(buf: Seq<u8>, offset: int)
    ensures
        decode_name(buf, offset) matches Ok((ls, end)) ==> name_wf(ls) && offset < end <= buf.len(),
{
    lemma_decode_name_from_wf(buf, offset, 0, 0, seq![], false, offset);
}

/// A fully-qualified domain name, represented as its sequence of labels.
///
/// The root `.` is the empty label sequence. Equality is case-sensitive; use
/// [`Name::eq_ignore_ascii_case`] for RFC 1035 §2.3.3 comparison.
#[derive(Debug, PartialEq, Eq, Hash)]
pub struct Name {
    labels: Vec<Vec<u8>>,
}

impl View for Name {
    type V = Seq<Seq<u8>>;

    closed spec fn view(&self) -> Seq<Seq<u8>> {
        label_views(self.labels@)
    }
}

impl Name {
    /// Every name holds well-formed labels.
    #[verifier::type_invariant]
    pub closed spec fn inv(self) -> bool {
        name_wf(self@)
    }

    /// What the invariant says, in terms of the view.
    pub proof fn lemma_inv(n: Name)
        requires
            n.inv(),
        ensures
            name_wf(n@),
    {
    }

    /// Root name (`.`).
    pub fn root() -> (r: Self)
        ensures
            r@ == Seq::<Seq<u8>>::empty(),
    {
        let r = Name { labels: Vec::new() };
        assert(r@ =~= Seq::<Seq<u8>>::empty());
        r
    }

    /// Borrowed view over the labels.
    pub fn labels(&self) -> (r: &[Vec<u8>])
        ensures
            label_views(r@) == self@,
            r@.len() == self@.len(),
    {
        self.labels.as_slice()
    }

    /// Whether this is the root name.
    pub fn is_root(&self) -> (r: bool)
        ensures
            r == (self@.len() == 0),
    {
        self.labels.len() == 0
    }

    /// Number of labels.
    pub fn label_count(&self) -> (r: usize)
        ensures
            r == self@.len(),
    {
        self.labels.len()
    }

    /// Copy of the `i`-th label.
    pub fn label(&self, i: usize) -> (r: Vec<u8>)
        requires
            i < self@.len(),
        ensures
            r@ == self@[i as int],
    {
        copy_bytes(self.labels[i].as_slice())
    }

    /// Build a name from owned labels, checking the RFC 1035 limits.
    pub fn from_labels(labels: Vec<Vec<u8>>) -> (r: Result<Self, ParseError>)
        ensures
            match r {
                Ok(n) => n@ == label_views(labels@),
                Err(_) => !name_wf(label_views(labels@)),
            },
    {
        let ghost ls = label_views(labels@);
        let mut total: usize = 0;
        let mut i: usize = 0;
        while i < labels.len()
            invariant
                0 <= i <= labels@.len(),
                ls == label_views(labels@),
                total == labels_sum(ls.take(i as int)),
                total + 1 <= MAX_NAME_LEN,
                forall|j: int| 0 <= j < i ==> label_ok(#[trigger] ls[j]),
            decreases labels@.len() - i,
        {
            proof {
                lemma_labels_sum_prefix(ls, i as int);
            }
            let len = labels[i].len();
            if len == 0 || len > MAX_LABEL_LEN {
                return Err(ParseError::LabelTooLong { len });
            }
            if total + 1 + len + 1 > MAX_NAME_LEN {
                proof {
                    lemma_labels_sum_prefix(ls, i as int + 1);
                    lemma_labels_sum_take_mono(ls, i as int + 1);
                }
                return Err(ParseError::NameTooLong { len: total + 1 + len + 1 });
            }
            total = total + 1 + len;
            i = i + 1;
        }
        assert(ls.take(i as int) =~= ls);
        Name { labels }
            .into_ok()
    }

    /// Wrap in `Ok` (helper that keeps the type invariant check in one place).
    fn into_ok(self) -> (r: Result<Self, ParseError>)
        ensures
            r == Ok::<Name, ParseError>(self),
    {
        Ok(self)
    }

    /// Case-insensitive comparison per RFC 1035 §2.3.3.
    pub fn eq_ignore_ascii_case(&self, other: &Self) -> (r: bool)
        ensures
            r == (lower_labels(self@) == lower_labels(other@)),
    {
        if self.labels.len() != other.labels.len() {
            proof {
                assert(lower_labels(self@).len() != lower_labels(other@).len());
            }
            return false;
        }
        let mut i: usize = 0;
        while i < self.labels.len()
            invariant
                0 <= i <= self@.len(),
                self@.len() == other@.len(),
                self@.len() == self.labels@.len(),
                other@.len() == other.labels@.len(),
                forall|j: int| 0 <= j < i ==> lower_label(#[trigger] self@[j]) == lower_label(other@[j]),
            decreases self@.len() - i,
        {
            let e = label_eq_ignore_case(self.labels[i].as_slice(), other.labels[i].as_slice());
            proof {
                assert(self@[i as int] == self.labels@[i as int]@);
                assert(other@[i as int] == other.labels@[i as int]@);
            }
            if !e {
                proof {
                    assert(lower_labels(self@)[i as int] != lower_labels(other@)[i as int]);
                }
                return false;
            }
            i = i + 1;
        }
        proof {
            assert(lower_labels(self@) =~= lower_labels(other@));
        }
        true
    }

    /// Encoded wire length (uncompressed, terminator included).
    pub fn wire_len(&self) -> (r: usize)
        ensures
            r == wire_len_of(self@),
            r <= MAX_NAME_LEN,
    {
        proof {
            use_type_invariant(self);
        }
        let ghost ls = self@;
        let mut total: usize = 0;
        let mut i: usize = 0;
        while i < self.labels.len()
            invariant
                0 <= i <= ls.len(),
                ls == self@,
                ls.len() == self.labels@.len(),
                name_wf(ls),
                total == labels_sum(ls.take(i as int)),
            decreases ls.len() - i,
        {
            proof {
                lemma_labels_sum_prefix(ls, i as int);
                lemma_labels_sum_take_mono(ls, i as int + 1);
                assert(ls[i as int] == self.labels@[i as int]@);
            }
            total = total + 1 + self.labels[i].len();
            i = i + 1;
        }
        assert(ls.take(i as int) =~= ls);
        total + 1
    }

    /// A lower-cased copy. Compression lookup uses this form.
    pub fn to_ascii_lowercase(&self) -> (r: Self)
        ensures
            r@ == lower_labels(self@),
    {
        proof {
            use_type_invariant(self);
        }
        let mut out: Vec<Vec<u8>> = Vec::new();
        let mut i: usize = 0;
        while i < self.labels.len()
            invariant
                0 <= i <= self@.len(),
                self@.len() == self.labels@.len(),
                out@.len() == i,
                forall|j: int| 0 <= j < i ==> (#[trigger] out@[j])@ == lower_label(self@[j]),
            decreases self@.len() - i,
        {
            let l = lower_bytes(self.labels[i].as_slice());
            proof {
                assert(self@[i as int] == self.labels@[i as int]@);
            }
            out.push(l);
            i = i + 1;
        }
        let ghost lw = label_views(out@);
        proof {
            assert(lw =~= lower_labels(self@));
            lemma_lower_labels_wf(self@);
        }
        Name { labels: out }
    }

    /// Encode uncompressed into `out`. Returns bytes written.
    pub fn encode(&self, out: &mut [u8]) -> (r: Result<usize, ParseError>)
        ensures
            old(out)@.len() < wire_len_of(self@) ==> r == Err::<usize, ParseError>(
                ParseError::OutputBufferTooSmall {
                    need: wire_len_of(self@) as usize,
                    have: old(out)@.len() as usize,
                },
            ) && final(out)@ == old(out)@,
            old(out)@.len() >= wire_len_of(self@) ==> r == Ok::<usize, ParseError>(
                wire_len_of(self@) as usize,
            ) && final(out)@ == name_bytes(self@) + old(out)@.skip(wire_len_of(self@)),
    {
        let need = self.wire_len();
        if out.len() < need {
            return Err(ParseError::OutputBufferTooSmall { need, have: out.len() });
        }
        let n = self.encode_at(out, 0);
        proof {
            assert(out@.subrange(0, 0) =~= seq![]);
            assert(seq![] + name_bytes(self@) =~= name_bytes(self@));
        }
        Ok(n)
    }

    /// Write the uncompressed form at `out[at..]`; the caller guarantees room.
    pub fn encode_at(&self, out: &mut [u8], at: usize) -> (r: usize)
        requires
            at + wire_len_of(self@) <= old(out)@.len(),
        ensures
            r == wire_len_of(self@),
            final(out)@.len() == old(out)@.len(),
            final(out)@ == old(out)@.subrange(0, at as int) + name_bytes(self@) + old(out)@.skip(
                at + wire_len_of(self@),
            ),
    {
        proof {
            use_type_invariant(self);
            lemma_labels_bytes_len(self@);
        }
        let ghost ls = self@;
        let ghost start = out@;
        let mut pos: usize = at;
        let mut i: usize = 0;
        while i < self.labels.len()
            invariant
                0 <= i <= ls.len(),
                ls == self@,
                ls.len() == self.labels@.len(),
                name_wf(ls),
                at + labels_sum(ls) + 1 <= start.len(),
                pos == at + labels_sum(ls.take(i as int)),
                out@.len() == start.len(),
                out@ == start.subrange(0, at as int) + labels_bytes(ls.take(i as int)) + start.skip(pos as int),
            decreases ls.len() - i,
        {
            proof {
                lemma_labels_sum_prefix(ls, i as int);
                lemma_labels_sum_take_mono(ls, i as int + 1);
                lemma_labels_bytes_len(ls.take(i as int));
                assert(ls[i as int] == self.labels@[i as int]@);
            }
            let label = self.labels[i].as_slice();
            let len = label.len();
            out[pos] = len as u8;
            let ghost mid = out@;
            copy_into(out, pos + 1, label);
            proof {
                let t1 = ls.take(i as int + 1);
                assert(t1.drop_last() =~= ls.take(i as int));
                assert(t1.last() == ls[i as int]);
                assert(out@ =~= start.subrange(0, at as int) + labels_bytes(t1) + start.skip(
                    pos + 1 + len,
                ));
            }
            pos = pos + 1 + len;
            i = i + 1;
        }
        proof {
            assert(ls.take(i as int) =~= ls);
        }
        out[pos] = 0;
        proof {
            assert(out@ =~= start.subrange(0, at as int) + name_bytes(ls) + start.skip(
                at + wire_len_of(ls),
            ));
        }
        pos + 1 - at
    }

    /// Decode a name starting at `offset` in `buf`. Follows compression pointers
    /// (which must point backwards) with a hop limit of 128.
    ///
    /// Returns the decoded name and the offset just past the last consumed byte
    /// of the *non-compressed* portion.
    pub fn decode(buf: &[u8], offset: usize) -> (r: Result<(Self, usize), ParseError>)
        ensures
            match decode_name(buf@, offset as int) {
                Ok((ls, end)) => r matches Ok((n, e)) && n@ == ls && e == end,
                Err(err) => r == Err::<(Name, usize), ParseError>(err),
            },
    {
        let mut pos: usize = offset;
        let mut labels: Vec<Vec<u8>> = Vec::new();
        let mut total_len: usize = 0;
        let mut jumped = false;
        let mut advance_end: usize = offset;
        let mut hops: usize = 0;
        let ghost target = decode_name(buf@, offset as int);
        proof {
            assert(label_views(labels@) =~= Seq::<Seq<u8>>::empty());
        }
        loop
            invariant
                hops <= 128,
                total_len + 1 <= MAX_NAME_LEN,
                total_len == labels_sum(label_views(labels@)),
                name_wf(label_views(labels@)),
                advance_end <= buf@.len() || (!jumped && advance_end == offset),
                decode_name_from(
                    buf@,
                    pos as int,
                    hops as nat,
                    total_len as int,
                    label_views(labels@),
                    jumped,
                    advance_end as int,
                ) == target,
                target == decode_name(buf@, offset as int),
            decreases 128 - hops,
        {
            let ghost ls = label_views(labels@);
            if hops >= 128 {
                return Err(ParseError::InvalidCompression("too many pointer hops"));
            }
            hops = hops + 1;
            if pos >= buf.len() {
                return Err(ParseError::UnexpectedEof { offset: pos, context: "name" });
            }
            let b = buf[pos];
            if b & 0xC0 == 0 {
                let len = (b & 0x3F) as usize;
                assert((b & 0x3F) <= 63) by (bit_vector);
                if len == 0 {
                    pos = pos + 1;
                    if !jumped {
                        advance_end = pos;
                    }
                    let n = Name { labels };
                    return Ok((n, advance_end));
                }
                if len > MAX_LABEL_LEN {
                    return Err(ParseError::LabelTooLong { len });
                }
                if len > buf.len() - (pos + 1) {
                    return Err(ParseError::UnexpectedEof { offset: pos + 1, context: "label bytes" });
                }
                if total_len + 1 + len + 1 > MAX_NAME_LEN {
                    return Err(ParseError::NameTooLong { len: total_len + 1 + len + 1 });
                }
                total_len = total_len + 1 + len;
                let label = copy_bytes(vstd::slice::slice_subrange(buf, pos + 1, pos + 1 + len));
                labels.push(label);
                proof {
                    let nls = label_views(labels@);
                    assert(nls =~= ls.push(buf@.subrange(pos + 1, pos + 1 + len)));
                    assert(nls.drop_last() =~= ls);
                    assert forall|j: int| 0 <= j < nls.len() implies label_ok(#[trigger] nls[j]) by {
                        if j < ls.len() {
                            assert(nls[j] == ls[j]);
                        }
                    }
                }
                pos = pos + 1 + len;
                if !jumped {
                    advance_end = pos;
                }
            } else if b & 0xC0 == 0xC0 {
                if pos + 1 >= buf.len() {
                    return Err(ParseError::UnexpectedEof { offset: pos + 1, context: "pointer low byte" });
                }
                let target_off = ((b & 0x3F) as usize) * 256 + (buf[pos + 1] as usize);
                if target_off >= pos {
                    return Err(ParseError::InvalidCompression("pointer does not point backwards"));
                }
                if !jumped {
                    advance_end = pos + 2;
                }
                jumped = true;
                pos = target_off;
            } else {
                return Err(ParseError::InvalidCompression("reserved label form"));
            }
        }
    }
}

impl Clone for Name {
    fn clone(&self) -> (r: Self)
        ensures
            r@ == self@,
    {
        proof {
            use_type_invariant(self);
        }
        let mut out: Vec<Vec<u8>> = Vec::new();
        let mut i: usize = 0;
        while i < self.labels.len()
            invariant
                0 <= i <= self@.len(),
                self@.len() == self.labels@.len(),
                out@.len() == i,
                forall|j: int| 0 <= j < i ==> (#[trigger] out@[j])@ == self@[j],
            decreases self@.len() - i,
        {
            out.push(copy_bytes(self.labels[i].as_slice()));
            i = i + 1;
        }
        proof {
            assert(label_views(out@) =~= self@);
        }
        Name { labels: out }
    }
}

proof fn lemma_labels_sum_take_mono(ls: Seq<Seq<u8>>, i: int)
    requires
        0 <= i <= ls.len(),
    ensures
        labels_sum(ls.take(i)) <= labels_sum(ls),
{
    lemma_labels_sum_prefix(ls, i);
}

/// A prefix of the labels never has a larger wire length.
pub proof fn lemma_labels_sum_take_mono_pub(ls: Seq<Seq<u8>>, i: int)
    requires
        0 <= i <= ls.len(),
    ensures
        labels_sum(ls.take(i)) <= labels_sum(ls),
{
    lemma_labels_sum_prefix(ls, i);
}

/// Lower-casing keeps labels well-formed.
pub proof fn lemma_lower_labels_wf(ls: Seq<Seq<u8>>)
    ensures
        labels_sum(lower_labels(ls)) == labels_sum(ls),
        name_wf(ls) ==> name_wf(lower_labels(ls)),
    decreases ls.len(),
{
    if ls.len() > 0 {
        lemma_lower_labels_wf(ls.drop_last());
        assert(lower_labels(ls).drop_last() =~= lower_labels(ls.drop_last()));
    }
}

/// Copy a byte slice into a fresh vector.
pub fn copy_bytes(s: &[u8]) -> (r: Vec<u8>)
    ensures
        r@ == s@,
{
    vstd::slice::slice_to_vec(s)
}

/// Copy `src` into `out[at..at + src.len()]`.
pub fn copy_into(out: &mut [u8], at: usize, src: &[u8])
    requires
        at + src@.len() <= old(out)@.len(),
    ensures
        final(out)@ == old(out)@.subrange(0, at as int) + src@ + old(out)@.skip(at + src@.len()),
{
    let ghost start = out@;
    let cap = out.len();
    let mut k: usize = 0;
    while k < src.len()
        invariant
            0 <= k <= src@.len(),
            cap == start.len(),
            at + src@.len() <= start.len(),
            out@.len() == start.len(),
            out@ == start.subrange(0, at as int) + src@.take(k as int) + start.skip(at + k),
        decreases src@.len() - k,
    {
        out[at + k] = src[k];
        k = k + 1;
        proof {
            assert(out@ =~= start.subrange(0, at as int) + src@.take(k as int) + start.skip(at + k));
        }
    }
    assert(src@.take(k as int) =~= src@);
}

/// Lower-cased copy of a label.
pub fn lower_bytes(s: &[u8]) -> (r: Vec<u8>)
    ensures
        r@ == lower_label(s@),
{
    let mut out: Vec<u8> = Vec::new();
    let mut k: usize = 0;
    while k < s.len()
        invariant
            0 <= k <= s@.len(),
            out@ == lower_label(s@.take(k as int)),
        decreases s@.len() - k,
    {
        let b = s[k];
        let lb = if 65 <= b && b <= 90 { b + 32 } else { b };
        out.push(lb);
        k = k + 1;
        proof {
            assert(out@ =~= lower_label(s@.take(k as int)));
        }
    }
    assert(s@.take(k as int) =~= s@);
    out
}

/// ASCII case-insensitive equality of two labels (`<[u8]>::eq_ignore_ascii_case`).
pub fn label_eq_ignore_case(a: &[u8], b: &[u8]) -> (r: bool)
    ensures
        r == (lower_label(a@) == lower_label(b@)),
{
    if a.len() != b.len() {
        proof {
            assert(lower_label(a@).len() != lower_label(b@).len());
        }
        return false;
    }
    let mut k: usize = 0;
    while k < a.len()
        invariant
            0 <= k <= a@.len(),
            a@.len() == b@.len(),
            forall|j: int| 0 <= j < k ==> lower_byte(#[trigger] a@[j]) == lower_byte(b@[j]),
        decreases a@.len() - k,
    {
        let x = a[k];
        let y = b[k];
        let lx = if 65 <= x && x <= 90 { x + 32 } else { x };
        let ly = if 65 <= y && y <= 90 { y + 32 } else { y };
        if lx != ly {
            proof {
                assert(lower_label(a@)[k as int] != lower_label(b@)[k as int]);
            }
            return false;
        }
        k = k + 1;
    }
    assert(lower_label(a@) =~= lower_label(b@));
    true
}

} // verus!

verus! {

/// The length-prefixed bytes of the first `j` labels are a prefix of those of
/// all labels.
pub proof fn lemma_labels_bytes_prefix(ls: Seq<Seq<u8>>, j: int)
    requires
        0 <= j <= ls.len(),
    ensures
        labels_bytes(ls).take(labels_sum(ls.take(j))) == labels_bytes(ls.take(j)),
        labels_sum(ls.take(j)) <= labels_bytes(ls).len(),
    decreases ls.len(),
{
    lemma_labels_bytes_len(ls);
    lemma_labels_bytes_len(ls.take(j));
    lemma_labels_sum_prefix(ls, j);
    if j == ls.len() {
        assert(ls.take(j) =~= ls);
        assert(labels_bytes(ls).take(labels_sum(ls)) =~= labels_bytes(ls));
    } else {
        let d = ls.drop_last();
        lemma_labels_bytes_prefix(d, j);
        assert(d.take(j) =~= ls.take(j));
        lemma_labels_bytes_len(d);
        assert(labels_bytes(ls).take(labels_sum(ls.take(j))) =~= labels_bytes(d).take(
            labels_sum(d.take(j)),
        ));
    }
}

/// A label length byte (1 to 63) reads back as a plain label of that length.
pub proof fn lemma_len_byte(v: u8)
    requires
        v <= 63,
    ensures
        v & 0xC0 == 0,
        v & 0x3F == v,
{
    assert(v <= 63 ==> v & 0xC0 == 0 && v & 0x3F == v) by (bit_vector);
}

pub proof fn lemma_wf_len_bound(ls: Seq<Seq<u8>>)
    requires
        forall|i: int| 0 <= i < ls.len() ==> label_ok(#[trigger] ls[i]),
    ensures
        labels_sum(ls) >= 2 * ls.len(),
    decreases ls.len(),
{
    if ls.len() > 0 {
        let d = ls.drop_last();
        assert forall|i: int| 0 <= i < d.len() implies label_ok(#[trigger] d[i]) by {
            assert(d[i] == ls[i]);
        }
        lemma_wf_len_bound(d);
        assert(label_ok(ls[ls.len() - 1]));
    }
}

proof fn lemma_decode_plain_from(buf: Seq<u8>, o: int, ls: Seq<Seq<u8>>, k: int)
    requires
        name_wf(ls),
        0 <= o,
        0 <= k <= ls.len(),
        o + wire_len_of(ls) <= buf.len(),
        buf.subrange(o, o + wire_len_of(ls)) == name_bytes(ls),
    ensures
        decode_name_from(
            buf,
            o + labels_sum(ls.take(k)),
            k as nat,
            labels_sum(ls.take(k)),
            ls.take(k),
            false,
            o + labels_sum(ls.take(k)),
        ) == Ok::<(Seq<Seq<u8>>, int), ParseError>((ls, o + wire_len_of(ls))),
    decreases ls.len() - k,
{
    lemma_wf_len_bound(ls);
    lemma_labels_bytes_len(ls);
    lemma_labels_sum_prefix(ls, k);
    lemma_labels_bytes_len(ls.take(k));
    let pos = o + labels_sum(ls.take(k));
    assert(0 <= pos - o <= labels_sum(ls));
    let nb = name_bytes(ls);
    assert(nb.len() == labels_sum(ls) + 1);
    assert(buf.subrange(o, o + wire_len_of(ls))[pos - o] == buf[pos]);
    assert(buf[pos] == nb[pos - o]);
    if k == ls.len() {
        assert(ls.take(k) =~= ls);
        assert(nb[labels_sum(ls)] == 0u8);
        lemma_len_byte(0u8);
    } else {
        lemma_labels_bytes_prefix(ls, k + 1);
        let t1 = ls.take(k + 1);
        assert(t1.drop_last() =~= ls.take(k));
        lemma_labels_bytes_len(ls.take(k));
        let lb = labels_bytes(t1);
        assert(lb == labels_bytes(ls.take(k)) + seq![ls[k].len() as u8] + ls[k]);
        let len = ls[k].len();
        assert(label_ok(ls[k]));
        assert(nb[pos - o] == lb[labels_sum(ls.take(k))]);
        assert(buf[pos] == len as u8);
        lemma_len_byte(len as u8);
        assert(buf.subrange(pos + 1, pos + 1 + len) =~= ls[k]) by {
            assert forall|j: int| 0 <= j < len implies buf.subrange(pos + 1, pos + 1 + len)[j]
                == ls[k][j] by {
                assert(buf.subrange(o, o + wire_len_of(ls))[pos - o + 1 + j] == buf[pos + 1 + j]);
                assert(buf[pos + 1 + j] == nb[pos - o + 1 + j]);
                assert(nb[pos - o + 1 + j] == lb[labels_sum(ls.take(k)) + 1 + j]);
            }
        }
        assert(ls.take(k).push(ls[k]) =~= ls.take(k + 1));
        lemma_decode_plain_from(buf, o, ls, k + 1);
    }
}

/// Decoding the uncompressed form of a well-formed name, wherever it sits in a
/// buffer, gives the name back and resumes just past it.
pub proof fn lemma_name_roundtrip(buf: Seq<u8>, o: int, ls: Seq<Seq<u8>>)
    requires
        name_wf(ls),
        0 <= o,
        o + wire_len_of(ls) <= buf.len(),
        buf.subrange(o, o + wire_len_of(ls)) == name_bytes(ls),
    ensures
        decode_name(buf, o) == Ok::<(Seq<Seq<u8>>, int), ParseError>((ls, o + wire_len_of(ls))),
{
    lemma_decode_plain_from(buf, o, ls, 0);
    assert(ls.take(0) =~= Seq::<Seq<u8>>::empty());
}

} // verus!

verus! {

/// `b` with every trailing `.` removed (`str::trim_end_matches('.')`).
pub open spec fn trim_dots(b: Seq<u8>) -> Seq<u8>
    decreases b.len(),
{
    if b.len() > 0 && b.last() == 46u8 {
        trim_dots(b.drop_last())
    } else {
        b
    }
}

/// The index of the first `.` at or after `j` in `t`, or `t.len()`.
pub open spec fn seg_end(t: Seq<u8>, j: int) -> int
    decreases t.len() - j,
{
    if j >= t.len() {
        t.len() as int
    } else if t[j] == 46u8 {
        j
    } else {
        seg_end(t, j + 1)
    }
}

pub proof fn lemma_seg_end(t: Seq<u8>, j: int)
    requires
        0 <= j <= t.len(),
    ensures
        j <= seg_end(t, j) <= t.len(),
        seg_end(t, j) < t.len() ==> t[seg_end(t, j)] == 46u8,
        forall|k: int| j <= k < seg_end(t, j) ==> t[k] != 46u8,
    decreases t.len() - j,
{
    if j < t.len() && t[j] != 46u8 {
        lemma_seg_end(t, j + 1);
    }
}

/// Split `t[j..]` on `.` and check each part in order: every part must be 1 to
/// 63 bytes, and the running wire length (starting from `total`) at most 255.
pub open spec fn parse_labels_from(t: Seq<u8>, j: int, total: int) -> Result<Seq<Seq<u8>>, ParseError>
    decreases t.len() - j,
{
    if j < 0 || j > t.len() {
        Ok(seq![])
    } else {
        let e = seg_end(t, j);
        let len = e - j;
        if len == 0 || len > MAX_LABEL_LEN {
            Err(ParseError::LabelTooLong { len: len as usize })
        } else if total + 1 + len > MAX_NAME_LEN {
            Err(ParseError::NameTooLong { len: (total + 1 + len) as usize })
        } else if e >= t.len() {
            Ok(seq![t.subrange(j, e)])
        } else {
            proof {
                lemma_seg_end(t, j);
            }
            match parse_labels_from(t, e + 1, total + 1 + len) {
                Ok(rest) => Ok(seq![t.subrange(j, e)] + rest),
                Err(err) => Err(err),
            }
        }
    }
}

/// The labels that the dotted presentation `b` denotes (trailing dots ignored,
/// empty means the root), or the error `Name::from_ascii` reports.
pub open spec fn name_from_ascii(b: Seq<u8>) -> Result<Seq<Seq<u8>>, ParseError> {
    let t = trim_dots(b);
    if t.len() == 0 {
        Ok(seq![])
    } else {
        parse_labels_from(t, 0, 1)
    }
}

impl Name {
    /// Build from a dotted ASCII representation; trailing dots are tolerated.
    pub fn from_ascii(s: &str) -> (r: Result<Self, ParseError>)
        ensures
            match name_from_ascii(s.spec_bytes()) {
                Ok(ls) => r matches Ok(n) && n@ == ls,
                Err(err) => r == Err::<Name, ParseError>(err),
            },
    {
        let bytes = s.as_bytes();
        Self::from_ascii_bytes(bytes)
    }

    /// [`Name::from_ascii`] on the bytes of the presentation form.
    pub fn from_ascii_bytes(bytes: &[u8]) -> (r: Result<Self, ParseError>)
        ensures
            match name_from_ascii(bytes@) {
                Ok(ls) => r matches Ok(n) && n@ == ls,
                Err(err) => r == Err::<Name, ParseError>(err),
            },
    {
        let ghost b = bytes@;
        let mut end: usize = bytes.len();
        proof {
            assert(b.take(b.len() as int) =~= b);
        }
        while end > 0 && bytes[end - 1] == 46u8
            invariant
                0 <= end <= b.len(),
                b == bytes@,
                trim_dots(b.take(end as int)) == trim_dots(b),
            decreases end,
        {
            proof {
                assert(b.take(end as int).drop_last() =~= b.take(end - 1));
            }
            end = end - 1;
        }
        let ghost t = b.take(end as int);
        proof {
            assert(b.take(b.len() as int) =~= b);
            assert(trim_dots(t) == t);
        }
        if end == 0 {
            return Ok(Name::root());
        }
        let ghost target = name_from_ascii(b);
        let mut labels: Vec<Vec<u8>> = Vec::new();
        let mut total: usize = 1;
        let mut j: usize = 0;
        proof {
            assert(label_views(labels@) =~= Seq::<Seq<u8>>::empty());
        }
        loop
            invariant
                0 <= j <= end,
                end <= b.len(),
                b == bytes@,
                t == b.take(end as int),
                t.len() > 0,
                target == parse_labels_from(t, 0, 1),
                target == name_from_ascii(b),
                total == 1 + labels_sum(label_views(labels@)),
                total <= MAX_NAME_LEN,
                labels_ok(label_views(labels@)),
                match parse_labels_from(t, j as int, total as int) {
                    Ok(rest) => target == Ok::<Seq<Seq<u8>>, ParseError>(label_views(labels@) + rest),
                    Err(err) => target == Err::<Seq<Seq<u8>>, ParseError>(err),
                },
            decreases end - j,
        {
            let ghost ls = label_views(labels@);
            let mut e: usize = j;
            while e < end && bytes[e] != 46u8
                invariant
                    j <= e <= end,
                    end <= b.len(),
                    b == bytes@,
                    t == b.take(end as int),
                    seg_end(t, j as int) == seg_end(t, e as int),
                decreases end - e,
            {
                e = e + 1;
            }
            proof {
                lemma_seg_end(t, j as int);
                if e < end {
                    assert(t[e as int] == 46u8);
                }
                assert(seg_end(t, e as int) == e as int);
            }
            let len = e - j;
            if len == 0 || len > MAX_LABEL_LEN {
                proof {
                    assert(parse_labels_from(t, j as int, total as int) == Err::<Seq<Seq<u8>>, ParseError>(
                        ParseError::LabelTooLong { len },
                    ));
                }
                return Err(ParseError::LabelTooLong { len });
            }
            if total + 1 + len > MAX_NAME_LEN {
                proof {
                    assert(parse_labels_from(t, j as int, total as int) == Err::<Seq<Seq<u8>>, ParseError>(
                        ParseError::NameTooLong { len: (total + 1 + len) as usize },
                    ));
                }
                return Err(ParseError::NameTooLong { len: total + 1 + len });
            }
            let part = copy_bytes(vstd::slice::slice_subrange(bytes, j, e));
            labels.push(part);
            total = total + 1 + len;
            proof {
                let nls = label_views(labels@);
                assert(t.subrange(j as int, e as int) =~= b.subrange(j as int, e as int));
                assert(nls =~= ls.push(t.subrange(j as int, e as int)));
                assert(nls.drop_last() =~= ls);
                assert forall|i: int| 0 <= i < nls.len() implies label_ok(#[trigger] nls[i]) by {
                    if i < ls.len() {
                        assert(nls[i] == ls[i]);
                    }
                }
            }
            if e >= end {
                proof {
                    let nls = label_views(labels@);
                    assert(ls + seq![t.subrange(j as int, e as int)] =~= nls);
                }
                return Ok(Name { labels });
            }
            proof {
                let nls = label_views(labels@);
                match parse_labels_from(t, e + 1, total as int) {
                    Ok(rest) => {
                        assert(ls + (seq![t.subrange(j as int, e as int)] + rest) =~= nls + rest);
                    },
                    Err(_) => {},
                }
            }
            j = e + 1;
        }
    }
}

/// The presentation text of a name: each label followed by a dot
/// (`"www.example.com."`), and `"."` for the root.
pub open spec fn name_text(ls: Seq<Seq<u8>>) -> Seq<u8> {
    if ls.len() == 0 {
        seq![46u8]
    } else {
        dotted_labels(ls)
    }
}

/// Each label followed by a dot.
pub open spec fn dotted_labels(ls: Seq<Seq<u8>>) -> Seq<u8>
    decreases ls.len(),
{
    if ls.len() == 0 {
        seq![]
    } else {
        dotted_labels(ls.drop_last()) + ls.last() + seq![46u8]
    }
}

/// The labels joined by dots, without a trailing dot.
pub open spec fn joined_labels(ls: Seq<Seq<u8>>) -> Seq<u8>
    decreases ls.len(),
{
    if ls.len() == 0 {
        seq![]
    } else if ls.len() == 1 {
        ls[0]
    } else {
        joined_labels(ls.drop_last()) + seq![46u8] + ls.last()
    }
}

impl Name {
    /// Exact (case-sensitive) equality of the label sequences.
    pub fn equals(&self, other: &Name) -> (r: bool)
        ensures
            r == (self@ == other@),
    {
        super::compress::labels_vec_eq(&self.labels, &other.labels)
    }

    /// The presentation bytes of this name: see [`name_text`].
    pub fn to_ascii_bytes(&self) -> (r: Vec<u8>)
        ensures
            r@ == name_text(self@),
    {
        if self.labels.len() == 0 {
            let mut r: Vec<u8> = Vec::new();
            r.push(46u8);
            proof {
                assert(r@ =~= seq![46u8]);
            }
            return r;
        }
        let mut out: Vec<u8> = Vec::new();
        let mut i: usize = 0;
        while i < self.labels.len()
            invariant
                i <= self@.len(),
                self@.len() == self.labels@.len(),
                label_views(self.labels@) == self@,
                out@ == dotted_labels(self@.take(i as int)),
            decreases self@.len() - i,
        {
            proof {
                assert(self@.take(i as int + 1).drop_last() =~= self@.take(i as int));
                assert(self@[i as int] == self.labels@[i as int]@);
            }
            crate::text::push_bytes(&mut out, self.labels[i].as_slice());
            out.push(46u8);
            i = i + 1;
        }
        proof {
            assert(self@.take(i as int) =~= self@);
        }
        out
    }

    /// The presentation text of this name (`"www.example.com."`, `"."` for
    /// the root).
    pub fn to_ascii(&self) -> (r: String)
        ensures
            r@ == crate::text::lossy_text(name_text(self@)),
            crate::text::all_ascii(name_text(self@)) ==> r@ == crate::text::ascii_chars(name_text(self@)),
    {
        let b = self.to_ascii_bytes();
        crate::text::text_from_bytes(b.as_slice())
    }
}

/// The labels of `ls` joined by dots.
pub fn join_labels(ls: &[Vec<u8>]) -> (r: Vec<u8>)
    ensures
        r@ == joined_labels(label_views(ls@)),
{
    let ghost v = label_views(ls@);
    let mut out: Vec<u8> = Vec::new();
    let mut i: usize = 0;
    while i < ls.len()
        invariant
            i <= ls@.len(),
            v == label_views(ls@),
            v.len() == ls@.len(),
            out@ == joined_labels(v.take(i as int)),
        decreases ls@.len() - i,
    {
        proof {
            assert(v.take(i as int + 1).drop_last() =~= v.take(i as int));
            assert(v[i as int] == ls@[i as int]@);
        }
        if i > 0 {
            out.push(46u8);
        }
        crate::text::push_bytes(&mut out, ls[i].as_slice());
        i = i + 1;
        proof {
            if i == 1 {
                assert(v.take(1) =~= seq![v[0]]);
                assert(out@ =~= v[0]);
            }
        }
    }
    proof {
        assert(v.take(i as int) =~= v);
    }
    out
}

} // verus!
