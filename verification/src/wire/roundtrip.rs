//! Decoding what the compressing encoder writes.
//!
//! A compressed name is a run of labels ending in the root byte or in a
//! pointer to a suffix written earlier. Suffixes are shared case-insensitively,
//! so a name decodes to its labels up to ASCII case.
use super::compress::{compress_write, ctx_lookup, pointer_bytes, unbounded_cap};
use super::message::{
    decode_message, decode_questions, decode_records, edns_opt_record, first_opt, message_body, message_bytes,
    message_encodable, opt_edns, questions_bytes, records_bytes, wire_header, wire_records, EdnsV, MessageV,
    Suffixes, OPT_TYPE,
};
use super::rr::{decode_record, record_bytes, record_encodable, RecordV};
use super::header::{decode_header, header_bytes, Header};
use super::name::{decode_name, name_wf};
use super::question::decode_question;
use super::rr::{decode_rdata, decode_txt_from, rdata_bytes, rdata_type, soa_tail_bytes, strings_fit, RDataV, SoaV};
use super::name::{labels_bytes, name_bytes, wire_len_of};
use super::{be16_at, be16_bytes, be32_at, be32_bytes};
use super::name::{decode_name_from, label_ok, labels_ok, labels_sum, lower_label, lower_labels};
use vstd::prelude::*;

verus! {

/// At `off` in `buf` starts a (possibly compressed) name whose labels,
/// lower-cased, are `key`: labels in line, ending in the root byte or in a
/// backward pointer to a run that starts with a label. With `lc`, every
/// label read on the way is already lower-case.
pub open spec fn name_at_ci(buf: Seq<u8>, off: int, key: Seq<Seq<u8>>, lc: bool) -> bool
    decreases key.len(),
{
    &&& 0 <= off < buf.len()
    &&& if buf[off] & 0xC0 == 0 {
        let len = (buf[off] & 0x3F) as int;
        if len == 0 {
            key.len() == 0
        } else {
            &&& key.len() > 0
            &&& off + 1 + len <= buf.len()
            &&& lower_label(buf.subrange(off + 1, off + 1 + len)) == key[0]
            &&& (lc ==> lower_label(buf.subrange(off + 1, off + 1 + len)) == buf.subrange(off + 1, off + 1 + len))
            &&& name_at_ci(buf, off + 1 + len, key.drop_first(), lc)
        }
    } else if buf[off] & 0xC0 == 0xC0 {
        &&& off + 1 < buf.len()
        &&& key.len() > 0
        &&& {
            let p = (buf[off] & 0x3F) as int * 256 + buf[off + 1] as int;
            let len = (buf[p] & 0x3F) as int;
            &&& 0 <= p < off
            &&& buf[p] & 0xC0 == 0
            &&& len != 0
            &&& p + 1 + len <= buf.len()
            &&& lower_label(buf.subrange(p + 1, p + 1 + len)) == key[0]
            &&& (lc ==> lower_label(buf.subrange(p + 1, p + 1 + len)) == buf.subrange(p + 1, p + 1 + len))
            &&& name_at_ci(buf, p + 1 + len, key.drop_first(), lc)
        }
    } else {
        false
    }
}

/// Where the in-line part of the name at `off` ends.
pub open spec fn ci_end(buf: Seq<u8>, off: int, key: Seq<Seq<u8>>) -> int
    decreases key.len(),
{
    if 0 <= off < buf.len() && buf[off] & 0xC0 == 0 && (buf[off] & 0x3F) != 0 && key.len() > 0 {
        ci_end(buf, off + 1 + (buf[off] & 0x3F) as int, key.drop_first())
    } else if 0 <= off < buf.len() && buf[off] & 0xC0 == 0xC0 {
        off + 2
    } else {
        off + 1
    }
}

/// Sum of `1 + len` over the labels, counted from the front.
pub proof fn lemma_lower_sum(ls: Seq<Seq<u8>>)
    ensures
        labels_sum(lower_labels(ls)) == labels_sum(ls),
        lower_labels(ls).len() == ls.len(),
    decreases ls.len(),
{
    if ls.len() > 0 {
        lemma_lower_sum(ls.drop_last());
        assert(lower_labels(ls).drop_last() =~= lower_labels(ls.drop_last()));
    }
}

/// Decoding a name laid out as `name_at_ci` describes gives its labels up to
/// case, resuming after its in-line part (or where a pointer was met).
pub proof fn lemma_decode_ci(
    buf: Seq<u8>,
    off: int,
    key: Seq<Seq<u8>>,
    hops: nat,
    total: int,
    acc: Seq<Seq<u8>>,
    jumped: bool,
    adv: int,
    lc: bool,
)
    requires
        name_at_ci(buf, off, key, lc),
        hops + 2 * key.len() < 128,
        0 <= total,
        total + labels_sum(key) + 1 <= 255,
    ensures
        decode_name_from(buf, off, hops, total, acc, jumped, adv) matches Ok((r, e)) && r.len() == acc.len()
            + key.len() && r.take(acc.len() as int) == acc && lower_labels(r.skip(acc.len() as int)) == key && e == (
        if jumped {
            adv
        } else {
            ci_end(buf, off, key)
        }),
        lc ==> decode_name_from(buf, off, hops, total, acc, jumped, adv)->Ok_0.0.skip(acc.len() as int) == key,
    decreases key.len(),
{
    let b = buf[off];
    if b & 0xC0 == 0 {
        let len = (b & 0x3F) as int;
        if len == 0 {
            assert(acc.skip(acc.len() as int) =~= Seq::<Seq<u8>>::empty());
            assert(acc.take(acc.len() as int) =~= acc);
            assert(lower_labels(Seq::<Seq<u8>>::empty()) =~= key);
        } else {
            let label = buf.subrange(off + 1, off + 1 + len);
            super::compress::lemma_labels_sum_drop_first(key);
            super::name::lemma_labels_bytes_len(key.drop_first());
            assert(key[0].len() == len);
            assert(decode_name_from(buf, off, hops, total, acc, jumped, adv) == decode_name_from(
                buf,
                off + 1 + len,
                hops + 1,
                total + 1 + len,
                acc.push(label),
                jumped,
                if jumped { adv } else { off + 1 + len },
            ));
            assert(ci_end(buf, off, key) == ci_end(buf, off + 1 + len, key.drop_first()));
            lemma_decode_ci(
                buf,
                off + 1 + len,
                key.drop_first(),
                hops + 1,
                total + 1 + len,
                acc.push(label),
                jumped,
                if jumped { adv } else { off + 1 + len },
                lc,
            );
            let (r, e) = decode_name_from(
                buf,
                off + 1 + len,
                hops + 1,
                total + 1 + len,
                acc.push(label),
                jumped,
                if jumped { adv } else { off + 1 + len },
            )->Ok_0;
            assert(r.take(acc.len() as int) =~= r.take(acc.len() as int + 1).take(acc.len() as int));
            assert(r.take(acc.len() as int + 1) == acc.push(label));
            assert(r.take(acc.len() as int) =~= acc);
            let tail = r.skip(acc.len() as int);
            assert(r[acc.len() as int] == r.take(acc.len() as int + 1)[acc.len() as int]);
            assert(r[acc.len() as int] == r.take(acc.len() as int + 1)[acc.len() as int]);
        assert(tail[0] == label);
            assert(tail.drop_first() =~= r.skip(acc.len() as int + 1));
            if lc {
                assert(tail =~= key) by {
                    assert(tail.drop_first() == key.drop_first());
                    assert(tail.len() == key.len());
                    assert(key[0] == lower_label(label));
                    assert forall|i: int| 0 < i < key.len() implies tail[i] == key[i] by {
                        assert(tail[i] == tail.drop_first()[i - 1]);
                    }
                }
            }
            assert(lower_labels(tail) =~= key) by {
                assert(lower_labels(tail)[0] == lower_label(label));
                assert forall|i: int| 0 < i < key.len() implies lower_labels(tail)[i] == key[i] by {
                    assert(tail[i] == tail.drop_first()[i - 1]);
                    assert(lower_labels(tail.drop_first())[i - 1] == key.drop_first()[i - 1]);
                }
            }
        }
    } else {
        let p = (b & 0x3F) as int * 256 + buf[off + 1] as int;
        let len = (buf[p] & 0x3F) as int;
        let label = buf.subrange(p + 1, p + 1 + len);
        let adv2 = if jumped { adv } else { off + 2 };
        super::compress::lemma_labels_sum_drop_first(key);
        super::name::lemma_labels_bytes_len(key.drop_first());
        assert(key[0].len() == len);
        lemma_decode_ci(buf, p + 1 + len, key.drop_first(), hops + 2, total + 1 + len, acc.push(label), true, adv2, lc);
        let (r, e) = decode_name_from(buf, p + 1 + len, hops + 2, total + 1 + len, acc.push(label), true, adv2)->Ok_0;
        assert(b & 0xC0 == 0xC0);
        assert(decode_name_from(buf, off, hops, total, acc, jumped, adv) == decode_name_from(
            buf,
            p,
            hops + 1,
            total,
            acc,
            true,
            adv2,
        ));
        assert(decode_name_from(buf, p, hops + 1, total, acc, true, adv2) == decode_name_from(
            buf,
            p + 1 + len,
            hops + 2,
            total + 1 + len,
            acc.push(label),
            true,
            adv2,
        ));
        assert(r.take(acc.len() as int) =~= r.take(acc.len() as int + 1).take(acc.len() as int));
        assert(r.take(acc.len() as int + 1) == acc.push(label));
        assert(r.take(acc.len() as int) =~= acc);
        let tail = r.skip(acc.len() as int);
        assert(r[acc.len() as int] == r.take(acc.len() as int + 1)[acc.len() as int]);
        assert(tail[0] == label);
        assert(tail.drop_first() =~= r.skip(acc.len() as int + 1));
            if lc {
                assert(tail =~= key) by {
                    assert(tail.drop_first() == key.drop_first());
                    assert(tail.len() == key.len());
                    assert(key[0] == lower_label(label));
                    assert forall|i: int| 0 < i < key.len() implies tail[i] == key[i] by {
                        assert(tail[i] == tail.drop_first()[i - 1]);
                    }
                }
            }
        assert(lower_labels(tail) =~= key) by {
            assert(lower_labels(tail)[0] == lower_label(label));
            assert forall|i: int| 0 < i < key.len() implies lower_labels(tail)[i] == key[i] by {
                assert(tail[i] == tail.drop_first()[i - 1]);
                assert(lower_labels(tail.drop_first())[i - 1] == key.drop_first()[i - 1]);
            }
        }
    }
}

/// A recorded suffix can be pointed at: its offset is a pointer target
/// below `bound` where a label starts, from which `key` can be read.
pub open spec fn entry_ok(buf: Seq<u8>, e: (Seq<Seq<u8>>, u16), bound: int, lc: bool) -> bool {
    let off = e.1 as int;
    &&& off < bound
    &&& off < 0x4000
    &&& name_at_ci(buf, off, e.0, lc)
    &&& buf[off] & 0xC0 == 0
    &&& buf[off] & 0x3F != 0
}

/// Every recorded suffix can be pointed at.
pub open spec fn entries_ok(buf: Seq<u8>, es: Suffixes, bound: int, lc: bool) -> bool {
    forall|i: int| 0 <= i < es.len() ==> entry_ok(buf, #[trigger] es[i], bound, lc)
}

proof fn lemma_label_byte(l: u8)
    requires
        1 <= l <= 63,
    ensures
        l & 0xC0 == 0,
        l & 0x3F == l,
{
    assert(l & 0xC0 == 0 && l & 0x3F == l) by (bit_vector)
        requires
            1 <= l <= 63,
    ;
}

proof fn lemma_pointer_byte(ptr: u16)
    requires
        ptr < 0x4000,
    ensures
        ((0xC0 + ptr / 256) as u8) & 0xC0 == 0xC0,
        (((0xC0 + ptr / 256) as u8) & 0x3F) as int * 256 + ((ptr % 256) as u8) as int == ptr as int,
{
    let hi: u8 = (ptr / 256) as u8;
    let lo: u8 = (ptr % 256) as u8;
    assert(hi < 64);
    assert(((0xC0 + ptr / 256) as u8) == (0xC0u8 + hi) as u8);
    assert(((0xC0u8 + hi) as u8) & 0xC0 == 0xC0 && ((0xC0u8 + hi) as u8) & 0x3F == hi) by (bit_vector)
        requires
            hi < 64,
    ;
    assert(hi as int * 256 + lo as int == ptr as int);
}

/// A lookup that succeeds finds a usable suffix.
proof fn lemma_lookup_ok(buf: Seq<u8>, es: Suffixes, key: Seq<Seq<u8>>, bound: int, lc: bool)
    requires
        entries_ok(buf, es, bound, lc),
    ensures
        ctx_lookup(es, key) matches Some(p) ==> entry_ok(buf, (key, p), bound, lc),
    decreases es.len(),
{
    if es.len() > 0 {
        assert(entry_ok(buf, es[0], bound, lc));
        let d = es.drop_first();
        assert forall|i: int| 0 <= i < d.len() implies entry_ok(buf, #[trigger] d[i], bound, lc) by {
            assert(d[i] == es[i + 1]);
        }
        lemma_lookup_ok(buf, d, key, bound, lc);
    }
}

/// Entries whose keys have another length than `key` do not change a lookup.
proof fn lemma_lookup_skip(e0: Suffixes, x: Suffixes, key: Seq<Seq<u8>>)
    requires
        forall|j: int| 0 <= j < x.len() ==> (#[trigger] x[j]).0.len() != key.len(),
    ensures
        ctx_lookup(e0 + x, key) == ctx_lookup(e0, key),
    decreases e0.len() + x.len(),
{
    if e0.len() > 0 {
        assert((e0 + x).drop_first() =~= e0.drop_first() + x);
        assert((e0 + x)[0] == e0[0]);
        lemma_lookup_skip(e0.drop_first(), x, key);
    } else if x.len() > 0 {
        assert(e0 + x =~= x);
        assert(x[0].0 != key);
        assert(Seq::<(Seq<Seq<u8>>, u16)>::empty() + x.drop_first() =~= x.drop_first());
        lemma_lookup_skip(e0, x.drop_first(), key);
        assert(e0 + x.drop_first() =~= x.drop_first());
    } else {
        assert(e0 + x =~= e0);
    }
}

/// Writing the suffix `ls` at `abs + written` lays out a name that reads
/// back as `ls` up to case, ending where the written bytes end; every suffix
/// it records can be pointed at.
pub proof fn lemma_compress_ci(buf: Seq<u8>, e0: Suffixes, x: Suffixes, ls: Seq<Seq<u8>>, abs: int, written: int, lc: bool)
    requires
        labels_ok(ls),
        0 <= abs,
        0 <= written,
        written + labels_sum(ls) + 1 <= unbounded_cap(),
        entries_ok(buf, e0, abs, lc),
        lc ==> lower_labels(ls) == ls,
        forall|j: int| 0 <= j < x.len() ==> (#[trigger] x[j]).0.len() > ls.len(),
        compress_write(e0 + x, ls, abs, written, unbounded_cap()).0 matches Ok(b) && abs + written + b.len()
            <= buf.len() && buf.subrange(abs + written, abs + written + b.len()) == b,
    ensures
        compress_write(e0 + x, ls, abs, written, unbounded_cap()).0 matches Ok(b) && name_at_ci(
            buf,
            abs + written,
            lower_labels(ls),
            lc,
        ) && ci_end(buf, abs + written, lower_labels(ls)) == abs + written + b.len() && ({
            let e_out = compress_write(e0 + x, ls, abs, written, unbounded_cap()).1;
            let n = (e0 + x).len();
            &&& e_out.len() >= n
            &&& e_out.take(n as int) == e0 + x
            &&& forall|j: int|
                n <= j < e_out.len() ==> entry_ok(buf, #[trigger] e_out[j], abs + written + b.len(), lc)
                    && e_out[j].0.len() <= ls.len()
        }),
    decreases ls.len(),
{
    let cap = unbounded_cap();
    let e = e0 + x;
    let pos = abs + written;
    let b = compress_write(e, ls, abs, written, cap).0->Ok_0;
    if ls.len() == 0 {
        assert(b == seq![0u8]);
        assert(buf.subrange(pos, pos + 1)[0] == buf[pos]);
        assert(buf[pos] == 0);
        assert(0u8 & 0xC0 == 0 && 0u8 & 0x3F == 0) by (bit_vector);
        assert(lower_labels(ls) =~= Seq::<Seq<u8>>::empty());
        assert(e.take(e.len() as int) =~= e);
    } else {
        let key = lower_labels(ls);
        lemma_lower_sum(ls);
        assert forall|j: int| 0 <= j < x.len() implies (#[trigger] x[j]).0.len() != key.len() by {}
        lemma_lookup_skip(e0, x, key);
        lemma_lookup_ok(buf, e0, key, abs, lc);
        match ctx_lookup(e, key) {
            Some(ptr) => {
                assert(b == pointer_bytes(ptr));
                lemma_pointer_byte(ptr);
                assert(buf.subrange(pos, pos + 2)[0] == buf[pos]);
                assert(buf.subrange(pos, pos + 2)[1] == buf[pos + 1]);
                assert(buf[pos] == b[0] && buf[pos + 1] == b[1]);
                let p = ptr as int;
                assert(name_at_ci(buf, p, key, lc));
                assert(buf[p] & 0xC0 == 0);
                assert(name_at_ci(buf, pos, key, lc));
                assert(ci_end(buf, pos, key) == pos + 2);
                assert(e.take(e.len() as int) =~= e);
            },
            None => {
                let e2 = if abs + written < 0x4000 {
                    e.push((key, (abs + written) as u16))
                } else {
                    e
                };
                let x2 = if abs + written < 0x4000 {
                    x.push((key, (abs + written) as u16))
                } else {
                    x
                };
                assert(e2 =~= e0 + x2);
                let len = ls[0].len() as int;
                let rest = ls.drop_first();
                super::compress::lemma_labels_sum_drop_first(ls);
                assert(labels_ok(rest)) by {
                    assert forall|i: int| 0 <= i < rest.len() implies label_ok(#[trigger] rest[i]) by {
                        assert(rest[i] == ls[i + 1]);
                    }
                }
                assert(label_ok(ls[0]));
                if lc {
                    assert(lower_labels(rest) =~= rest) by {
                        assert forall|i: int| 0 <= i < rest.len() implies lower_labels(rest)[i] == rest[i] by {
                            assert(lower_labels(ls)[i + 1] == ls[i + 1]);
                        }
                    }
                    assert(lower_label(ls[0]) == ls[0]) by {
                        assert(lower_labels(ls)[0] == ls[0]);
                    }
                }
                assert forall|j: int| 0 <= j < x2.len() implies (#[trigger] x2[j]).0.len() > rest.len() by {
                    if j < x.len() {
                        assert(x2[j] == x[j]);
                    }
                }
                let (rb, e3) = compress_write(e2, rest, abs, written + 1 + len, cap);
                let rbytes = rb->Ok_0;
                assert(b == seq![len as u8] + ls[0] + rbytes);
                assert(buf.subrange(pos + 1 + len, pos + 1 + len + rbytes.len()) =~= b.subrange(
                    1 + len,
                    b.len() as int,
                ));
                assert(b.subrange(1 + len, b.len() as int) =~= rbytes);
                lemma_compress_ci(buf, e0, x2, rest, abs, written + 1 + len, lc);
                assert(buf.subrange(pos, pos + b.len())[0] == buf[pos]);
                assert(buf[pos] == len as u8);
                lemma_label_byte(len as u8);
                assert(buf.subrange(pos + 1, pos + 1 + len) =~= buf.subrange(pos, pos + b.len()).subrange(1, 1 + len));
                assert(b.subrange(1, 1 + len) =~= ls[0]);
                assert(buf.subrange(pos + 1, pos + 1 + len) =~= ls[0]);
                assert(key[0] == lower_label(ls[0]));
                assert(key.drop_first() =~= lower_labels(rest));
                assert(name_at_ci(buf, pos, key, lc));
                assert(ci_end(buf, pos, key) == ci_end(buf, pos + 1 + len, lower_labels(rest)));
                let n = e.len();
                let n2 = e2.len();
                assert(e3.take(n2 as int) == e2);
                assert(e3.take(n as int) =~= e) by {
                    assert(e3.take(n as int) =~= e3.take(n2 as int).take(n as int));
                    assert(e2.take(n as int) =~= e);
                }
                assert forall|j: int| n <= j < e3.len() implies entry_ok(
                    buf,
                    #[trigger] e3[j],
                    abs + written + b.len(),
                    lc,
                ) && e3[j].0.len() <= ls.len() by {
                    if j < n2 {
                        assert(e3[j] == e3.take(n2 as int)[j]);
                        assert(e2[j] == (key, (abs + written) as u16));
                        assert(name_at_ci(buf, pos, key, lc));
                    }
                }
            },
        }
    }
}

/// A name the codec round-trips: well-formed, with at most 63 labels (so that
/// following pointers stays within the decoder's hop budget).
pub open spec fn name_short(ls: Seq<Seq<u8>>) -> bool {
    name_wf(ls) && ls.len() <= 63
}

/// A question with its name lower-cased.
pub open spec fn question_ci(q: (Seq<Seq<u8>>, u16, u16)) -> (Seq<Seq<u8>>, u16, u16) {
    (lower_labels(q.0), q.1, q.2)
}

/// Questions with their names lower-cased.
pub open spec fn questions_ci(qs: Seq<(Seq<Seq<u8>>, u16, u16)>) -> Seq<(Seq<Seq<u8>>, u16, u16)> {
    qs.map_values(|q: (Seq<Seq<u8>>, u16, u16)| question_ci(q))
}

proof fn lemma_entries_grow(buf: Seq<u8>, es: Suffixes, b1: int, b2: int, lc: bool)
    requires
        entries_ok(buf, es, b1, lc),
        b1 <= b2,
    ensures
        entries_ok(buf, es, b2, lc),
{
    assert forall|i: int| 0 <= i < es.len() implies entry_ok(buf, #[trigger] es[i], b2, lc) by {
        assert(entry_ok(buf, es[i], b1, lc));
    }
}

/// A compressed name written at `p` reads back, up to case, and resumes just
/// past its bytes; the suffixes it records can be pointed at.
pub proof fn lemma_name_decode(buf: Seq<u8>, es: Suffixes, ls: Seq<Seq<u8>>, p: int, lc: bool)
    requires
        name_short(ls),
        0 <= p,
        entries_ok(buf, es, p, lc),
        lc ==> lower_labels(ls) == ls,
        p + super::compress::compress_bytes(es, ls, p).0.len() <= buf.len(),
        buf.subrange(p, p + super::compress::compress_bytes(es, ls, p).0.len()) == super::compress::compress_bytes(
            es,
            ls,
            p,
        ).0,
    ensures
        ({
            let (nb, e1) = super::compress::compress_bytes(es, ls, p);
            &&& decode_name(buf, p) matches Ok((d, end)) && lower_labels(d) == lower_labels(ls) && end == p
                + nb.len()
            &&& entries_ok(buf, e1, p + nb.len(), lc)
            &&& nb.len() >= 1
            &&& lc ==> decode_name(buf, p)->Ok_0.0 == ls
        }),
{
    let cap = unbounded_cap();
    assert(es + Seq::<(Seq<Seq<u8>>, u16)>::empty() =~= es);
    assert(labels_ok(ls));
    super::name::lemma_labels_bytes_len(ls);
    let (r, e1) = compress_write(es, ls, p, 0, cap);
    super::compress::lemma_compress_cap(es, ls, p, 0, cap);
    lemma_compress_ci(buf, es, Seq::<(Seq<Seq<u8>>, u16)>::empty(), ls, p, 0, lc);
    let nb = r->Ok_0;
    lemma_lower_sum(ls);
    lemma_decode_ci(buf, p, lower_labels(ls), 0, 0, seq![], false, p, lc);
    let (d, end) = decode_name(buf, p)->Ok_0;
    assert(d.skip(0) =~= d);
    assert forall|i: int| 0 <= i < e1.len() implies entry_ok(buf, #[trigger] e1[i], p + nb.len(), lc) by {
        if i < es.len() {
            assert(e1[i] == e1.take(es.len() as int)[i]);
            assert(entry_ok(buf, es[i], p, lc));
        }
    }
    assert(nb.len() >= 1) by {
        if ls.len() == 0 {
        } else {
        }
    }
}

/// Reading the two bytes of `v` placed at `i` in `buf`.
proof fn lemma_be16_in(buf: Seq<u8>, i: int, v: u16)
    requires
        0 <= i,
        i + 2 <= buf.len(),
        buf.subrange(i, i + 2) == be16_bytes(v),
    ensures
        be16_at(buf, i) == v,
{
    assert(buf.subrange(i, i + 2)[0] == buf[i]);
    assert(buf.subrange(i, i + 2)[1] == buf[i + 1]);
    super::lemma_be16_roundtrip(v);
}

/// Reading the four bytes of `v` placed at `i` in `buf`.
proof fn lemma_be32_in(buf: Seq<u8>, i: int, v: u32)
    requires
        0 <= i,
        i + 4 <= buf.len(),
        buf.subrange(i, i + 4) == be32_bytes(v),
    ensures
        be32_at(buf, i) == v,
{
    assert(buf.subrange(i, i + 4)[0] == buf[i]);
    assert(buf.subrange(i, i + 4)[1] == buf[i + 1]);
    assert(buf.subrange(i, i + 4)[2] == buf[i + 2]);
    assert(buf.subrange(i, i + 4)[3] == buf[i + 3]);
    super::lemma_be32_roundtrip(v);
}

/// The questions written from `pos` read back, names up to case, and the
/// suffixes they record can be pointed at.
pub proof fn lemma_questions_decode(buf: Seq<u8>, es: Suffixes, qs: Seq<(Seq<Seq<u8>>, u16, u16)>, pos: int, lc: bool)
    requires
        0 <= pos,
        entries_ok(buf, es, pos, lc),
        forall|i: int| 0 <= i < qs.len() ==> name_short(#[trigger] qs[i].0),
        lc ==> questions_ci(qs) == qs,
        pos + questions_bytes(es, qs, pos).0.len() <= buf.len(),
        buf.subrange(pos, pos + questions_bytes(es, qs, pos).0.len()) == questions_bytes(es, qs, pos).0,
    ensures
        ({
            let (qb, e1) = questions_bytes(es, qs, pos);
            &&& decode_questions(buf, pos, qs.len()) matches Ok((d, end)) && questions_ci(d) == questions_ci(qs)
                && end == pos + qb.len()
            &&& entries_ok(buf, e1, pos + qb.len(), lc)
            &&& lc ==> decode_questions(buf, pos, qs.len())->Ok_0.0 == qs
        }),
    decreases qs.len(),
{
    let (qb, e1) = questions_bytes(es, qs, pos);
    if qs.len() == 0 {
        assert(questions_ci(seq![]) =~= questions_ci(qs));
    } else {
        let init = qs.drop_last();
        let q = qs.last();
        let (b0, e0) = questions_bytes(es, init, pos);
        let p = pos + b0.len();
        let (nb, e2) = super::compress::compress_bytes(e0, q.0, p);
        let l0 = b0.len() as int;
        let ln = nb.len() as int;
        assert(qb == b0 + nb + be16_bytes(q.1) + be16_bytes(q.2));
        assert(buf.subrange(pos, pos + b0.len()) =~= buf.subrange(pos, pos + qb.len()).subrange(0, b0.len() as int));
        assert(qb.subrange(0, b0.len() as int) =~= b0);
        assert forall|i: int| 0 <= i < init.len() implies name_short(#[trigger] init[i].0) by {
            assert(init[i] == qs[i]);
        }
        if lc {
            assert(questions_ci(init) =~= init) by {
                assert forall|i: int| 0 <= i < init.len() implies questions_ci(init)[i] == init[i] by {
                    assert(questions_ci(qs)[i] == qs[i]);
                    assert(init[i] == qs[i]);
                }
            }
            assert(lower_labels(q.0) == q.0) by {
                assert(questions_ci(qs)[qs.len() - 1] == qs[qs.len() - 1]);
            }
        }
        lemma_questions_decode(buf, es, init, pos, lc);
        let (d0, end0) = decode_questions(buf, pos, init.len())->Ok_0;
        assert(buf.subrange(p, p + nb.len()) =~= buf.subrange(pos, pos + qb.len()).subrange(
            b0.len() as int,
            l0 + ln,
        ));
        assert(qb.subrange(b0.len() as int, l0 + ln) =~= nb);
        assert(name_short(qs[qs.len() - 1].0));
        lemma_name_decode(buf, e0, q.0, p, lc);
        let (dn, endn) = decode_name(buf, p)->Ok_0;
        let t = p + nb.len();
        assert(buf.subrange(t, t + 2) =~= buf.subrange(pos, pos + qb.len()).subrange(
            l0 + ln,
            l0 + ln + 2,
        ));
        assert(qb.subrange(l0 + ln, l0 + ln + 2) =~= be16_bytes(q.1));
        assert(buf.subrange(t + 2, t + 4) =~= buf.subrange(pos, pos + qb.len()).subrange(
            l0 + ln + 2,
            l0 + ln + 4,
        ));
        assert(qb.subrange(l0 + ln + 2, l0 + ln + 4) =~= be16_bytes(q.2));
        lemma_be16_in(buf, t, q.1);
        lemma_be16_in(buf, t + 2, q.2);
        assert(qs.len() - 1 == init.len());
        assert(decode_question(buf, end0) == Ok::<((Seq<Seq<u8>>, u16, u16), int), super::ParseError>(
            ((dn, q.1, q.2), t + 4),
        ));
        let d = d0.push((dn, q.1, q.2));
        assert(questions_ci(d0).len() == d0.len());
        assert(questions_ci(init).len() == init.len());
        assert(d0.len() == init.len());
        assert(questions_ci(d) =~= questions_ci(qs)) by {
            assert forall|i: int| 0 <= i < qs.len() implies questions_ci(d)[i] == questions_ci(qs)[i] by {
                if i < init.len() {
                    assert(questions_ci(d0)[i] == questions_ci(init)[i]);
                    assert(d[i] == d0[i]);
                    assert(qs[i] == init[i]);
                }
            }
        }
        lemma_entries_grow(buf, e2, p + nb.len(), pos + qb.len(), lc);
        if lc {
            assert(d =~= qs) by {
                assert forall|i: int| 0 <= i < qs.len() implies d[i] == qs[i] by {
                    if i < init.len() {
                        assert(d[i] == d0[i]);
                        assert(qs[i] == init[i]);
                    }
                }
            }
        }
    }
}

/// RDATA with its names lower-cased.
pub open spec fn rdata_ci(d: RDataV) -> RDataV {
    match d {
        RDataV::Ns(n) => RDataV::Ns(lower_labels(n)),
        RDataV::Cname(n) => RDataV::Cname(lower_labels(n)),
        RDataV::Ptr(n) => RDataV::Ptr(lower_labels(n)),
        RDataV::Mx { preference, exchange } => RDataV::Mx { preference, exchange: lower_labels(exchange) },
        RDataV::Soa(s) => RDataV::Soa(SoaV { mname: lower_labels(s.mname), rname: lower_labels(s.rname), ..s }),
        RDataV::Srv { priority, weight, port, target } => RDataV::Srv {
            priority,
            weight,
            port,
            target: lower_labels(target),
        },
        other => other,
    }
}

/// The TYPE values that decode to their own RDATA variant.
pub open spec fn decoded_type(t: u16) -> bool {
    t == 1 || t == 28 || t == 2 || t == 5 || t == 12 || t == 15 || t == 16 || t == 6 || t == 33 || t == 257
}

/// RDATA that the codec round-trips: addresses of the right size, names
/// that `name_short` admits, TXT strings and CAA tags that fit their length
/// byte, and opaque data only under a TYPE without a variant of its own.
pub open spec fn rdata_ok(d: RDataV) -> bool {
    match d {
        RDataV::A(o) => o.len() == 4,
        RDataV::Aaaa(o) => o.len() == 16,
        RDataV::Ns(n) => name_short(n),
        RDataV::Cname(n) => name_short(n),
        RDataV::Ptr(n) => name_short(n),
        RDataV::Mx { exchange, .. } => name_short(exchange),
        RDataV::Txt(ss) => strings_fit(ss),
        RDataV::Soa(s) => name_short(s.mname) && name_short(s.rname),
        RDataV::Srv { target, .. } => name_short(target),
        RDataV::Caa { tag, .. } => tag.len() <= 255,
        RDataV::Unknown { rtype, .. } => !decoded_type(rtype),
    }
}

proof fn lemma_labels_bytes_first(ss: Seq<Seq<u8>>)
    requires
        ss.len() > 0,
    ensures
        labels_bytes(ss) == seq![ss[0].len() as u8] + ss[0] + labels_bytes(ss.drop_first()),
    decreases ss.len(),
{
    if ss.len() > 1 {
        lemma_labels_bytes_first(ss.drop_last());
        assert(ss.drop_last().drop_first() =~= ss.drop_first().drop_last());
        assert(ss.drop_first().last() == ss.last());
        assert(ss.drop_last()[0] == ss[0]);
    } else {
        assert(ss.drop_last() =~= Seq::<Seq<u8>>::empty());
        assert(ss.drop_first() =~= Seq::<Seq<u8>>::empty());
    }
}

proof fn lemma_txt_decode(s: Seq<u8>, i: int, ss: Seq<Seq<u8>>)
    requires
        0 <= i <= s.len(),
        strings_fit(ss),
        s.subrange(i, s.len() as int) == labels_bytes(ss),
    ensures
        decode_txt_from(s, i) == Ok::<Seq<Seq<u8>>, super::ParseError>(ss),
    decreases ss.len(),
{
    if ss.len() == 0 {
        assert(s.subrange(i, s.len() as int).len() == 0);
        assert(ss =~= Seq::<Seq<u8>>::empty());
    } else {
        lemma_labels_bytes_first(ss);
        let len = ss[0].len() as int;
        assert(len <= 255);
        let rest = ss.drop_first();
        super::name::lemma_labels_bytes_len(rest);
        assert(labels_bytes(ss).len() == 1 + len + labels_bytes(rest).len());
        assert(s.len() - i == labels_bytes(ss).len());
        assert(s.subrange(i, s.len() as int)[0] == s[i]);
        assert(s[i] == len as u8);
        assert(s.subrange(i + 1, i + 1 + len) =~= s.subrange(i, s.len() as int).subrange(1, 1 + len));
        assert((seq![ss[0].len() as u8] + ss[0] + labels_bytes(rest)).subrange(1, 1 + len) =~= ss[0]);
        assert(s.subrange(i + 1 + len, s.len() as int) =~= s.subrange(i, s.len() as int).subrange(
            1 + len,
            s.len() - i,
        ));
        assert((seq![ss[0].len() as u8] + ss[0] + labels_bytes(rest)).subrange(
            1 + len,
            (seq![ss[0].len() as u8] + ss[0] + labels_bytes(rest)).len() as int,
        ) =~= labels_bytes(rest));
        assert(strings_fit(rest)) by {
            assert forall|k: int| 0 <= k < rest.len() implies (#[trigger] rest[k]).len() <= 255 by {
                assert(rest[k] == ss[k + 1]);
            }
        }
        lemma_txt_decode(s, i + 1 + len, rest);
        assert(seq![ss[0]] + rest =~= ss);
    }
}

/// The requirements shared by the RDATA lemmas.
pub open spec fn rdata_placed(buf: Seq<u8>, es: Suffixes, d: RDataV, abs: int, lc: bool) -> bool {
    &&& rdata_ok(d)
    &&& 0 <= abs
    &&& entries_ok(buf, es, abs, lc)
    &&& lc ==> rdata_ci(d) == d
    &&& abs + rdata_bytes(es, d, abs).0.len() <= buf.len()
    &&& buf.subrange(abs, abs + rdata_bytes(es, d, abs).0.len()) == rdata_bytes(es, d, abs).0
}

/// What the RDATA lemmas conclude.
pub open spec fn rdata_read_back(buf: Seq<u8>, es: Suffixes, d: RDataV, abs: int, lc: bool) -> bool {
    let (db, e1) = rdata_bytes(es, d, abs);
    &&& decode_rdata(rdata_type(d), buf, abs, abs + db.len()) matches Ok(x) && rdata_ci(x) == rdata_ci(d)
    &&& entries_ok(buf, e1, abs + db.len(), lc)
    &&& lc ==> decode_rdata(rdata_type(d), buf, abs, abs + db.len())->Ok_0 == d
}

proof fn lemma_rdata_mx(buf: Seq<u8>, es: Suffixes, d: RDataV, abs: int, lc: bool)
    requires
        rdata_placed(buf, es, d, abs, lc),
        d is Mx,
    ensures
        rdata_read_back(buf, es, d, abs, lc),
{
    let (db, e1) = rdata_bytes(es, d, abs);
    let end = abs + db.len();
    let slice = buf.subrange(abs, end);
    let preference = d->preference;
    let exchange = d->exchange;
    let (nb, e2) = super::compress::compress_bytes(es, exchange, abs + 2);
    assert(db == be16_bytes(preference) + nb);
    lemma_entries_grow(buf, es, abs, abs + 2, lc);
    assert(buf.subrange(abs + 2, abs + 2 + nb.len()) =~= slice.subrange(2, db.len() as int));
    assert(db.subrange(2, db.len() as int) =~= nb);
    lemma_name_decode(buf, es, exchange, abs + 2, lc);
    assert(slice[0] == db[0] && slice[1] == db[1]);
    super::lemma_be16_roundtrip(preference);
}

#[verifier::spinoff_prover]
proof fn lemma_rdata_soa(buf: Seq<u8>, es: Suffixes, d: RDataV, abs: int, lc: bool)
    requires
        rdata_placed(buf, es, d, abs, lc),
        d is Soa,
    ensures
        rdata_read_back(buf, es, d, abs, lc),
{
    let (db, e1) = rdata_bytes(es, d, abs);
    let end = abs + db.len();
    let slice = buf.subrange(abs, end);
    let sv = d->Soa_0;
    let (m, e2) = super::compress::compress_bytes(es, sv.mname, abs);
    let (r, e3) = super::compress::compress_bytes(e2, sv.rname, abs + m.len());
    let lm = m.len() as int;
    let lr = r.len() as int;
    assert(db == m + r + soa_tail_bytes(sv));
    assert(buf.subrange(abs, abs + lm) =~= slice.subrange(0, lm));
    assert(db.subrange(0, lm) =~= m);
    lemma_name_decode(buf, es, sv.mname, abs, lc);
    assert(buf.subrange(abs + lm, abs + lm + lr) =~= slice.subrange(lm, lm + lr));
    assert(db.subrange(lm, lm + lr) =~= r);
    lemma_name_decode(buf, e2, sv.rname, abs + lm, lc);
    let p2 = abs + lm + lr;
    let tail = soa_tail_bytes(sv);
    assert(tail.len() == 20);
    assert(buf.subrange(p2, p2 + 4) =~= slice.subrange(lm + lr, lm + lr + 4));
    assert(db.subrange(lm + lr, lm + lr + 4) =~= be32_bytes(sv.serial));
    assert(buf.subrange(p2 + 4, p2 + 8) =~= slice.subrange(lm + lr + 4, lm + lr + 8));
    assert(db.subrange(lm + lr + 4, lm + lr + 8) =~= be32_bytes(sv.refresh));
    assert(buf.subrange(p2 + 8, p2 + 12) =~= slice.subrange(lm + lr + 8, lm + lr + 12));
    assert(db.subrange(lm + lr + 8, lm + lr + 12) =~= be32_bytes(sv.retry));
    assert(buf.subrange(p2 + 12, p2 + 16) =~= slice.subrange(lm + lr + 12, lm + lr + 16));
    assert(db.subrange(lm + lr + 12, lm + lr + 16) =~= be32_bytes(sv.expire));
    assert(buf.subrange(p2 + 16, p2 + 20) =~= slice.subrange(lm + lr + 16, lm + lr + 20));
    assert(db.subrange(lm + lr + 16, lm + lr + 20) =~= be32_bytes(sv.minimum));
    lemma_be32_in(buf, p2, sv.serial);
    lemma_be32_in(buf, p2 + 4, sv.refresh);
    lemma_be32_in(buf, p2 + 8, sv.retry);
    lemma_be32_in(buf, p2 + 12, sv.expire);
    lemma_be32_in(buf, p2 + 16, sv.minimum);
    lemma_entries_grow(buf, e3, p2, end, lc);
}

proof fn lemma_rdata_srv(buf: Seq<u8>, es: Suffixes, d: RDataV, abs: int, lc: bool)
    requires
        rdata_placed(buf, es, d, abs, lc),
        d is Srv,
    ensures
        rdata_read_back(buf, es, d, abs, lc),
{
    let (db, e1) = rdata_bytes(es, d, abs);
    let end = abs + db.len();
    let slice = buf.subrange(abs, end);
    let priority = d->priority;
    let weight = d->weight;
    let port = d->port;
    let target = d->target;
    let nb = name_bytes(target);
    super::name::lemma_labels_bytes_len(target);
    assert(nb.len() == wire_len_of(target));
    assert(db == be16_bytes(priority) + be16_bytes(weight) + be16_bytes(port) + nb);
    assert(buf.subrange(abs + 6, abs + 6 + wire_len_of(target)) =~= slice.subrange(6, db.len() as int));
    assert(db.subrange(6, db.len() as int) =~= nb);
    super::name::lemma_name_roundtrip(buf, abs + 6, target);
    assert(slice[0] == db[0] && slice[1] == db[1] && slice[2] == db[2] && slice[3] == db[3] && slice[4] == db[4]
        && slice[5] == db[5]);
    super::lemma_be16_roundtrip(priority);
    super::lemma_be16_roundtrip(weight);
    super::lemma_be16_roundtrip(port);
    assert(be16_at(slice, 2) == be16_at(be16_bytes(weight), 0));
    assert(be16_at(slice, 4) == be16_at(be16_bytes(port), 0));
    lemma_entries_grow(buf, es, abs, end, lc);
}

/// RDATA written at `abs` reads back, names up to case, and the suffixes it
/// records can be pointed at.
pub proof fn lemma_rdata_decode(buf: Seq<u8>, es: Suffixes, d: RDataV, abs: int, lc: bool)
    requires
        rdata_placed(buf, es, d, abs, lc),
    ensures
        rdata_read_back(buf, es, d, abs, lc),
{
    let (db, e1) = rdata_bytes(es, d, abs);
    let end = abs + db.len();
    let slice = buf.subrange(abs, end);
    match d {
        RDataV::Ns(n) => {
            lemma_name_decode(buf, es, n, abs, lc);
        },
        RDataV::Cname(n) => {
            lemma_name_decode(buf, es, n, abs, lc);
        },
        RDataV::Ptr(n) => {
            lemma_name_decode(buf, es, n, abs, lc);
        },
        RDataV::Mx { .. } => {
            lemma_rdata_mx(buf, es, d, abs, lc);
        },
        RDataV::Txt(ss) => {
            super::name::lemma_labels_bytes_len(ss);
            assert(slice.subrange(0, slice.len() as int) =~= slice);
            lemma_txt_decode(slice, 0, ss);
            lemma_entries_grow(buf, es, abs, end, lc);
        },
        RDataV::Soa(_) => {
            lemma_rdata_soa(buf, es, d, abs, lc);
        },
        RDataV::Srv { .. } => {
            lemma_rdata_srv(buf, es, d, abs, lc);
        },
        RDataV::Caa { flags, tag, value } => {
            assert(db == seq![flags, tag.len() as u8] + tag + value);
            assert(slice[1] == tag.len() as u8);
            assert(slice.subrange(2, 2 + tag.len() as int) =~= tag);
            assert(slice.subrange(2 + tag.len() as int, slice.len() as int) =~= value);
            lemma_entries_grow(buf, es, abs, end, lc);
        },
        _ => {
            lemma_entries_grow(buf, es, abs, end, lc);
        },
    }
}

/// A record with its names lower-cased.
pub open spec fn record_ci(r: RecordV) -> RecordV {
    RecordV { name: lower_labels(r.name), class: r.class, ttl: r.ttl, data: rdata_ci(r.data) }
}

/// Records with their names lower-cased.
pub open spec fn records_ci(rs: Seq<RecordV>) -> Seq<RecordV> {
    rs.map_values(|r: RecordV| record_ci(r))
}

/// A record the codec round-trips.
pub open spec fn record_ok(r: RecordV) -> bool {
    name_short(r.name) && rdata_ok(r.data)
}

/// A record written at `abs` reads back, names up to case.
pub proof fn lemma_record_decode(buf: Seq<u8>, es: Suffixes, r: RecordV, abs: int, lc: bool)
    requires
        record_ok(r),
        0 <= abs,
        entries_ok(buf, es, abs, lc),
        lc ==> record_ci(r) == r,
        record_encodable(es, r, abs),
        abs + record_bytes(es, r, abs).0.len() <= buf.len(),
        buf.subrange(abs, abs + record_bytes(es, r, abs).0.len()) == record_bytes(es, r, abs).0,
    ensures
        ({
            let (b, e1) = record_bytes(es, r, abs);
            &&& decode_record(buf, abs) matches Ok((x, end)) && record_ci(x) == record_ci(r) && end == abs + b.len()
            &&& entries_ok(buf, e1, abs + b.len(), lc)
            &&& lc ==> decode_record(buf, abs)->Ok_0.0 == r
        }),
{
    let (b, e_out) = record_bytes(es, r, abs);
    let (nb, e1) = super::compress::compress_bytes(es, r.name, abs);
    let ln = nb.len() as int;
    let pos = abs + ln;
    let (db, e2) = rdata_bytes(e1, r.data, pos + 10);
    let ld = db.len() as int;
    assert(ld <= 0xFFFF);
    let t = rdata_type(r.data);
    assert(b == nb + be16_bytes(t) + be16_bytes(r.class) + be32_bytes(r.ttl) + be16_bytes(ld as u16) + db);
    assert(b.len() == ln + 10 + ld);
    let whole = buf.subrange(abs, abs + b.len());
    assert(buf.subrange(abs, abs + ln) =~= whole.subrange(0, ln));
    assert(b.subrange(0, ln) =~= nb);
    lemma_name_decode(buf, es, r.name, abs, lc);
    let (dn, endn) = decode_name(buf, abs)->Ok_0;
    assert(buf.subrange(pos, pos + 2) =~= whole.subrange(ln, ln + 2));
    assert(b.subrange(ln, ln + 2) =~= be16_bytes(t));
    assert(buf.subrange(pos + 2, pos + 4) =~= whole.subrange(ln + 2, ln + 4));
    assert(b.subrange(ln + 2, ln + 4) =~= be16_bytes(r.class));
    assert(buf.subrange(pos + 4, pos + 8) =~= whole.subrange(ln + 4, ln + 8));
    assert(b.subrange(ln + 4, ln + 8) =~= be32_bytes(r.ttl));
    assert(buf.subrange(pos + 8, pos + 10) =~= whole.subrange(ln + 8, ln + 10));
    assert(b.subrange(ln + 8, ln + 10) =~= be16_bytes(ld as u16));
    lemma_be16_in(buf, pos, t);
    lemma_be16_in(buf, pos + 2, r.class);
    lemma_be32_in(buf, pos + 4, r.ttl);
    lemma_be16_in(buf, pos + 8, ld as u16);
    assert(buf.subrange(pos + 10, pos + 10 + ld) =~= whole.subrange(ln + 10, ln + 10 + ld));
    assert(b.subrange(ln + 10, ln + 10 + ld) =~= db);
    lemma_entries_grow(buf, e1, pos, pos + 10, lc);
    lemma_rdata_decode(buf, e1, r.data, pos + 10, lc);
}

/// The records written from `pos` read back, names up to case.
#[verifier::spinoff_prover]
#[verifier::rlimit(80)]
pub proof fn lemma_records_decode(buf: Seq<u8>, es: Suffixes, rs: Seq<RecordV>, pos: int, lc: bool)
    requires
        0 <= pos,
        entries_ok(buf, es, pos, lc),
        forall|i: int| 0 <= i < rs.len() ==> record_ok(#[trigger] rs[i]),
        lc ==> records_ci(rs) == rs,
        records_bytes(es, rs, pos).2,
        pos + records_bytes(es, rs, pos).0.len() <= buf.len(),
        buf.subrange(pos, pos + records_bytes(es, rs, pos).0.len()) == records_bytes(es, rs, pos).0,
    ensures
        ({
            let (rb, e1, ok) = records_bytes(es, rs, pos);
            &&& decode_records(buf, pos, rs.len()) matches Ok((d, end)) && records_ci(d) == records_ci(rs) && end
                == pos + rb.len() && d.len() == rs.len()
            &&& entries_ok(buf, e1, pos + rb.len(), lc)
            &&& lc ==> decode_records(buf, pos, rs.len())->Ok_0.0 == rs
        }),
    decreases rs.len(),
{
    let (rb, e1, ok) = records_bytes(es, rs, pos);
    if rs.len() == 0 {
        assert(records_ci(seq![]) =~= records_ci(rs));
    } else {
        let init = rs.drop_last();
        let r = rs.last();
        let (b0, e0, ok0) = records_bytes(es, init, pos);
        let l0 = b0.len() as int;
        let p = pos + l0;
        let (b, e2) = record_bytes(e0, r, p);
        let lb = b.len() as int;
        assert(rb == b0 + b);
        assert(buf.subrange(pos, pos + l0) =~= buf.subrange(pos, pos + rb.len()).subrange(0, l0));
        assert(rb.subrange(0, l0) =~= b0);
        assert forall|i: int| 0 <= i < init.len() implies record_ok(#[trigger] init[i]) by {
            assert(init[i] == rs[i]);
        }
        if lc {
            assert(records_ci(init) =~= init) by {
                assert forall|i: int| 0 <= i < init.len() implies records_ci(init)[i] == init[i] by {
                    assert(records_ci(rs)[i] == rs[i]);
                    assert(init[i] == rs[i]);
                }
            }
            assert(record_ci(r) == r) by {
                assert(records_ci(rs)[rs.len() - 1] == rs[rs.len() - 1]);
            }
        }
        lemma_records_decode(buf, es, init, pos, lc);
        let (d0, end0) = decode_records(buf, pos, init.len())->Ok_0;
        assert(buf.subrange(p, p + lb) =~= buf.subrange(pos, pos + rb.len()).subrange(l0, l0 + lb));
        assert(rb.subrange(l0, l0 + lb) =~= b);
        assert(record_ok(rs[rs.len() - 1]));
        lemma_record_decode(buf, e0, r, p, lc);
        let (x, endx) = decode_record(buf, p)->Ok_0;
        assert(rs.len() - 1 == init.len());
        let d = d0.push(x);
        assert(records_ci(d) =~= records_ci(rs)) by {
            assert forall|i: int| 0 <= i < rs.len() implies records_ci(d)[i] == records_ci(rs)[i] by {
                if i < init.len() {
                    assert(records_ci(d0)[i] == records_ci(init)[i]);
                    assert(d[i] == d0[i]);
                    assert(rs[i] == init[i]);
                }
            }
        }
        if lc {
            assert(d =~= rs) by {
                assert forall|i: int| 0 <= i < rs.len() implies d[i] == rs[i] by {
                    if i < init.len() {
                        assert(d[i] == d0[i]);
                        assert(rs[i] == init[i]);
                    }
                }
            }
        }
    }
}

/// Reading `n + k` records in one go is reading `n`, then `k` more.
pub proof fn lemma_records_split(buf: Seq<u8>, pos: int, n: nat, k: nat)
    requires
        decode_records(buf, pos, n + k) is Ok,
    ensures
        ({
            let (rs, end) = decode_records(buf, pos, n + k)->Ok_0;
            &&& decode_records(buf, pos, n) matches Ok((a, mid)) && a == rs.take(n as int) && decode_records(
                buf,
                mid,
                k,
            ) == Ok::<(Seq<RecordV>, int), super::ParseError>((rs.skip(n as int), end))
            &&& rs.len() == n + k
        }),
    decreases k,
{
    lemma_records_len(buf, pos, n + k);
    if k == 0 {
        let (rs, end) = decode_records(buf, pos, n)->Ok_0;
        assert(rs.take(n as int) =~= rs);
        assert(rs.skip(n as int) =~= Seq::<RecordV>::empty());
    } else {
        let k1 = (k - 1) as nat;
        assert(n + k1 == (n + k - 1) as nat);
        lemma_records_split(buf, pos, n, k1);
        let (rs1, p) = decode_records(buf, pos, n + k1)->Ok_0;
        let (rs, end) = decode_records(buf, pos, n + k)->Ok_0;
        let (x, p2) = decode_record(buf, p)->Ok_0;
        assert(rs == rs1.push(x));
        assert(rs.take(n as int) =~= rs1.take(n as int));
        assert(rs.skip(n as int) =~= rs1.skip(n as int).push(x));
    }
}

proof fn lemma_records_len(buf: Seq<u8>, pos: int, n: nat)
    ensures
        decode_records(buf, pos, n) matches Ok((rs, _)) ==> rs.len() == n,
    decreases n,
{
    if n > 0 {
        lemma_records_len(buf, pos, (n - 1) as nat);
    }
}

/// The header decodes from the first twelve bytes alone.
pub proof fn lemma_header_prefix(h: Header, rest: Seq<u8>)
    ensures
        decode_header(header_bytes(h) + rest) == Ok::<Header, super::ParseError>(h),
{
    super::header::lemma_header_roundtrip(h);
    let hb = header_bytes(h);
    let buf = hb + rest;
    assert(hb.len() == 12);
    assert forall|i: int| 0 <= i < 12 implies buf[i] == hb[i] by {}
    assert(be16_at(buf, 0) == be16_at(hb, 0));
    assert(be16_at(buf, 4) == be16_at(hb, 4));
    assert(be16_at(buf, 6) == be16_at(hb, 6));
    assert(be16_at(buf, 8) == be16_at(hb, 8));
    assert(be16_at(buf, 10) == be16_at(hb, 10));
}

/// A message with every name lower-cased.
pub open spec fn message_ci(m: MessageV) -> MessageV {
    MessageV {
        header: m.header,
        questions: questions_ci(m.questions),
        answers: records_ci(m.answers),
        authority: records_ci(m.authority),
        additional: records_ci(m.additional),
        edns: m.edns,
    }
}

/// The messages the codec round-trips: encodable, ARCOUNT (OPT included)
/// within 16 bits, every name well-formed with at most 63 labels, RDATA in
/// canonical form, and no OPT record among the additional records (EDNS is
/// carried by `edns`).
pub open spec fn message_roundtrips(m: MessageV) -> bool {
    &&& message_encodable(m)
    &&& m.additional.len() + (if m.edns is Some { 1int } else { 0int }) <= 0xFFFF
    &&& forall|i: int| 0 <= i < m.questions.len() ==> name_short(#[trigger] m.questions[i].0)
    &&& forall|i: int| 0 <= i < m.answers.len() ==> record_ok(#[trigger] m.answers[i])
    &&& forall|i: int| 0 <= i < m.authority.len() ==> record_ok(#[trigger] m.authority[i])
    &&& forall|i: int| 0 <= i < m.additional.len() ==> record_ok(#[trigger] m.additional[i])
    &&& forall|i: int| 0 <= i < m.additional.len() ==> rdata_type((#[trigger] m.additional[i]).data) != OPT_TYPE
}

proof fn lemma_opt_roundtrip(e: EdnsV)
    ensures
        opt_edns(edns_opt_record(e)) == e,
{
    let er = e.extended_rcode;
    let v = e.version;
    let f: u32 = if e.do_bit { 0x8000u32 } else { 0u32 };
    let ttl: u32 = ((er as u32) << 24u32) | ((v as u32) << 16u32) | f;
    assert(((((er as u32) << 24u32) | ((v as u32) << 16u32) | f) >> 24u32) & 0xFFu32 == er as u32) by (bit_vector)
        requires
            f == 0x8000u32 || f == 0u32,
    ;
    assert(((((er as u32) << 24u32) | ((v as u32) << 16u32) | f) >> 16u32) & 0xFFu32 == v as u32) by (bit_vector)
        requires
            f == 0x8000u32 || f == 0u32,
    ;
    assert((((((er as u32) << 24u32) | ((v as u32) << 16u32) | f) & 0xFFFFu32) as u16) & 0x8000u16 != 0 <==> f
        == 0x8000u32) by (bit_vector)
        requires
            f == 0x8000u32 || f == 0u32,
    ;
    let o = opt_edns(edns_opt_record(e));
    assert(o.extended_rcode == er);
    assert(o.version == v);
    assert(o.do_bit == e.do_bit);
}

proof fn lemma_rdata_ci_type(d: RDataV)
    ensures
        rdata_type(rdata_ci(d)) == rdata_type(d),
        rdata_ci(d) is Unknown ==> rdata_ci(d) == d,
{
}

proof fn lemma_first_opt(rs: Seq<RecordV>, i: int, k: int)
    requires
        0 <= i <= k <= rs.len(),
        forall|j: int| i <= j < k ==> rdata_type((#[trigger] rs[j]).data) != OPT_TYPE,
        k < rs.len() ==> rdata_type(rs[k].data) == OPT_TYPE,
    ensures
        first_opt(rs, i) == k,
    decreases k - i,
{
    if i < k {
        lemma_first_opt(rs, i + 1, k);
    }
}

/// The questions and the records of a message read back.
#[verifier::spinoff_prover]
proof fn lemma_body_decodes(m: MessageV, lc: bool)
    requires
        message_roundtrips(m),
        lc ==> message_ci(m) == m,
    ensures
        ({
            let buf = message_bytes(m);
            let (qb, eq) = questions_bytes(seq![], m.questions, 12);
            let p1 = 12 + qb.len() as int;
            let rs = wire_records(m);
            &&& decode_header(buf) == Ok::<Header, super::ParseError>(wire_header(m))
            &&& decode_questions(buf, 12, m.questions.len()) matches Ok((dq, e)) && e == p1 && questions_ci(dq)
                == questions_ci(m.questions)
            &&& decode_records(buf, p1, rs.len()) matches Ok((d, end)) && records_ci(d) == records_ci(rs)
                && d.len() == rs.len()
            &&& lc ==> decode_questions(buf, 12, m.questions.len())->Ok_0.0 == m.questions
            &&& lc ==> decode_records(buf, p1, rs.len())->Ok_0.0 == rs
        }),
{
    let wh = wire_header(m);
    let (qb, eq) = questions_bytes(seq![], m.questions, 12);
    let p1: int = 12 + qb.len() as int;
    let rs = wire_records(m);
    let (rb, er, ok) = records_bytes(eq, rs, p1);
    let body = qb + rb;
    let buf = header_bytes(wh) + body;
    assert(message_body(m).0 == body);
    assert(buf == message_bytes(m));
    assert(header_bytes(wh).len() == 12);
    lemma_header_prefix(wh, body);
    assert(entries_ok(buf, seq![], 12, lc));
    assert(buf.subrange(12, p1) =~= qb);
    lemma_questions_decode(buf, seq![], m.questions, 12, lc);
    let an = m.answers.len();
    let ns = m.authority.len();
    let nad = m.additional.len();
    let opt_rec = match m.edns {
        Some(e) => seq![edns_opt_record(e)],
        None => Seq::<RecordV>::empty(),
    };
    assert(rs == m.answers + m.authority + m.additional + opt_rec);
    assert forall|i: int| 0 <= i < rs.len() implies record_ok(#[trigger] rs[i]) by {
        if i < an {
            assert(rs[i] == m.answers[i]);
        } else if i < an + ns {
            assert(rs[i] == m.authority[i - an]);
        } else if i < an + ns + nad {
            assert(rs[i] == m.additional[i - an - ns]);
        } else {
            assert(rs[i] == opt_rec[i - an - ns - nad]);
            assert(name_wf(Seq::<Seq<u8>>::empty()));
        }
    }
    assert(buf.subrange(p1, p1 + rb.len()) =~= rb);
    if lc {
        assert(records_ci(rs) =~= rs) by {
            assert forall|i: int| 0 <= i < rs.len() implies records_ci(rs)[i] == rs[i] by {
                if i < an {
                    assert(records_ci(m.answers)[i] == m.answers[i]);
                } else if i < an + ns {
                    assert(records_ci(m.authority)[i - an] == m.authority[i - an]);
                } else if i < an + ns + nad {
                    assert(records_ci(m.additional)[i - an - ns] == m.additional[i - an - ns]);
                } else {
                    assert(rs[i] == opt_rec[i - an - ns - nad]);
                    assert(lower_labels(Seq::<Seq<u8>>::empty()) =~= Seq::<Seq<u8>>::empty());
                }
            }
        }
    }
    lemma_records_decode(buf, eq, rs, p1, lc);
}

/// Reading three sections in a row.
proof fn lemma_sections(buf: Seq<u8>, p1: int, an: nat, ns: nat, ar: nat)
    requires
        decode_records(buf, p1, an + ns + ar) is Ok,
    ensures
        ({
            let (d, end) = decode_records(buf, p1, an + ns + ar)->Ok_0;
            &&& decode_records(buf, p1, an) matches Ok((da, p2)) && da == d.take(an as int) && (decode_records(
                buf,
                p2,
                ns,
            ) matches Ok((dn, p3)) && dn == d.skip(an as int).take(ns as int) && decode_records(buf, p3, ar)
                == Ok::<(Seq<RecordV>, int), super::ParseError>((d.skip(an as int).skip(ns as int), end)))
            &&& d.len() == an + ns + ar
        }),
{
    assert(an + ns + ar == an + (ns + ar));
    lemma_records_split(buf, p1, an, (ns + ar) as nat);
    let (da, p2) = decode_records(buf, p1, an)->Ok_0;
    lemma_records_split(buf, p2, ns, ar);
}

/// The sections read back, names up to case; the additional section holds
/// no OPT record before the one that carries EDNS.
#[verifier::spinoff_prover]
proof fn lemma_sections_ci(m: MessageV, d: Seq<RecordV>)
    requires
        message_roundtrips(m),
        records_ci(d) == records_ci(wire_records(m)),
        d.len() == wire_records(m).len(),
    ensures
        ({
            let an = m.answers.len() as int;
            let ns = m.authority.len() as int;
            let nad = m.additional.len() as int;
            let ad = d.skip(an).skip(ns);
            &&& records_ci(d.take(an)) == records_ci(m.answers)
            &&& records_ci(d.skip(an).take(ns)) == records_ci(m.authority)
            &&& records_ci(ad.take(nad)) == records_ci(m.additional)
            &&& forall|j: int| 0 <= j < nad ==> rdata_type((#[trigger] ad[j]).data) != OPT_TYPE
            &&& m.edns matches Some(e) ==> ad.len() == nad + 1 && ad[nad].data == edns_opt_record(e).data
                && ad[nad].class == edns_opt_record(e).class && ad[nad].ttl == edns_opt_record(e).ttl
            &&& m.edns is None ==> ad.len() == nad
        }),
{
    let rs = wire_records(m);
    let an = m.answers.len() as int;
    let ns = m.authority.len() as int;
    let nad = m.additional.len() as int;
    let opt_rec = match m.edns {
        Some(e) => seq![edns_opt_record(e)],
        None => Seq::<RecordV>::empty(),
    };
    assert(rs == m.answers + m.authority + m.additional + opt_rec);
    let da = d.take(an);
    let dn = d.skip(an).take(ns);
    let ad = d.skip(an).skip(ns);
    assert forall|i: int| 0 <= i < d.len() implies record_ci(#[trigger] d[i]) == record_ci(rs[i]) by {
        assert(records_ci(d)[i] == records_ci(rs)[i]);
    }
    assert(records_ci(da) =~= records_ci(m.answers)) by {
        assert forall|i: int| 0 <= i < an implies records_ci(da)[i] == records_ci(m.answers)[i] by {
            assert(da[i] == d[i]);
            assert(rs[i] == m.answers[i]);
        }
    }
    assert(records_ci(dn) =~= records_ci(m.authority)) by {
        assert forall|i: int| 0 <= i < ns implies records_ci(dn)[i] == records_ci(m.authority)[i] by {
            assert(dn[i] == d[an + i]);
            assert(rs[an + i] == m.authority[i]);
        }
    }
    assert forall|i: int| 0 <= i < ad.len() implies record_ci(#[trigger] ad[i]) == record_ci(rs[an + ns + i]) by {
        assert(ad[i] == d[an + ns + i]);
    }
    assert(records_ci(ad.take(nad)) =~= records_ci(m.additional)) by {
        assert forall|i: int| 0 <= i < nad implies records_ci(ad.take(nad))[i] == records_ci(m.additional)[i] by {
            assert(ad.take(nad)[i] == ad[i]);
            assert(record_ci(ad[i]) == record_ci(rs[an + ns + i]));
            assert(rs[an + ns + i] == m.additional[i]);
        }
    }
    assert forall|j: int| 0 <= j < nad implies rdata_type((#[trigger] ad[j]).data) != OPT_TYPE by {
        assert(record_ci(ad[j]) == record_ci(rs[an + ns + j]));
        assert(rs[an + ns + j] == m.additional[j]);
        lemma_rdata_ci_type(ad[j].data);
        lemma_rdata_ci_type(m.additional[j].data);
        assert(rdata_type((m.additional[j]).data) != OPT_TYPE);
    }
    if let Some(e) = m.edns {
        let o = ad[nad];
        assert(record_ci(o) == record_ci(rs[an + ns + nad]));
        assert(rs[an + ns + nad] == edns_opt_record(e));
        lemma_rdata_ci_type(o.data);
        assert(rdata_ci(edns_opt_record(e).data) == edns_opt_record(e).data);
    }
}

/// Decoding what the encoder writes gives the message back, every name up
/// to ASCII case (suffixes are shared case-insensitively), with the header's
/// counts as the encoder sets them.
#[verifier::spinoff_prover]
pub proof fn lemma_message_roundtrip(m: MessageV)
    requires
        message_roundtrips(m),
    ensures
        decode_message(message_bytes(m)) matches Ok(d) && message_ci(d) == message_ci(
            MessageV { header: wire_header(m), ..m },
        ),
{
    let wh = wire_header(m);
    let buf = message_bytes(m);
    let (qb, eq) = questions_bytes(seq![], m.questions, 12);
    let p1: int = 12 + qb.len() as int;
    let rs = wire_records(m);
    lemma_body_decodes(m, false);
    let (d, end) = decode_records(buf, p1, rs.len())->Ok_0;
    let an = m.answers.len();
    let ns = m.authority.len();
    let nad = m.additional.len();
    let ar: nat = nad + if m.edns is Some { 1nat } else { 0nat };
    assert(wh.ancount == an);
    assert(wh.nscount == ns);
    assert(wh.arcount == ar);
    assert(rs.len() == an + ns + ar);
    lemma_sections(buf, p1, an, ns, ar);
    lemma_sections_ci(m, d);
    let da = d.take(an as int);
    let dn = d.skip(an as int).take(ns as int);
    let ad = d.skip(an as int).skip(ns as int);
    let target = MessageV { header: wire_header(m), ..m };
    let dq = decode_questions(buf, 12, m.questions.len())->Ok_0.0;
    match m.edns {
        None => {
            lemma_first_opt(ad, 0, nad as int);
            assert(ad.take(nad as int) =~= ad);
            let dm = MessageV { header: wh, questions: dq, answers: da, authority: dn, additional: ad, edns: None };
            assert(decode_message(buf) == Ok::<MessageV, super::ParseError>(dm));
            assert(message_ci(dm) =~= message_ci(target));
        },
        Some(e) => {
            let k = nad as int;
            let o = ad[k];
            lemma_first_opt(ad, 0, k);
            lemma_opt_roundtrip(e);
            assert(opt_edns(o) == opt_edns(edns_opt_record(e)));
            assert(ad.remove(k) =~= ad.take(k));
            let dm = MessageV {
                header: wh,
                questions: dq,
                answers: da,
                authority: dn,
                additional: ad.remove(k),
                edns: Some(opt_edns(o)),
            };
            assert(decode_message(buf) == Ok::<MessageV, super::ParseError>(dm));
            assert(message_ci(dm) =~= message_ci(target));
        },
    }
}


/// The sections of the records a message is written with, taken apart.
#[verifier::spinoff_prover]
proof fn lemma_sections_exact(m: MessageV, d: Seq<RecordV>)
    requires
        message_roundtrips(m),
        d == wire_records(m),
    ensures
        ({
            let an = m.answers.len() as int;
            let ns = m.authority.len() as int;
            let nad = m.additional.len() as int;
            let ad = d.skip(an).skip(ns);
            &&& d.take(an) == m.answers
            &&& d.skip(an).take(ns) == m.authority
            &&& forall|j: int| 0 <= j < nad ==> rdata_type((#[trigger] ad[j]).data) != OPT_TYPE
            &&& m.edns matches Some(e) ==> ad.len() == nad + 1 && ad[nad] == edns_opt_record(e) && ad.remove(nad)
                == m.additional
            &&& m.edns is None ==> ad == m.additional
        }),
{
    let an = m.answers.len() as int;
    let ns = m.authority.len() as int;
    let nad = m.additional.len() as int;
    let opt_rec = match m.edns {
        Some(e) => seq![edns_opt_record(e)],
        None => Seq::<RecordV>::empty(),
    };
    assert(d == m.answers + m.authority + m.additional + opt_rec);
    let ad = d.skip(an).skip(ns);
    assert(d.take(an) =~= m.answers);
    assert(d.skip(an).take(ns) =~= m.authority);
    assert(ad =~= m.additional + opt_rec);
    assert forall|j: int| 0 <= j < nad implies rdata_type((#[trigger] ad[j]).data) != OPT_TYPE by {
        assert(ad[j] == m.additional[j]);
    }
    if let Some(e) = m.edns {
        assert(ad.remove(nad) =~= m.additional);
    }
}

/// For a message whose names are all lower-case, decoding what the encoder
/// writes gives the message back exactly, with the header's counts as the
/// encoder sets them.
#[verifier::spinoff_prover]
#[verifier::rlimit(100)]
pub proof fn lemma_message_roundtrip_exact(m: MessageV)
    requires
        message_roundtrips(m),
        message_ci(m) == m,
    ensures
        decode_message(message_bytes(m)) == Ok::<MessageV, super::ParseError>(
            MessageV { header: wire_header(m), ..m },
        ),
{
    let wh = wire_header(m);
    let buf = message_bytes(m);
    let (qb, eq) = questions_bytes(seq![], m.questions, 12);
    let p1: int = 12 + qb.len() as int;
    let rs = wire_records(m);
    lemma_body_decodes(m, true);
    let (d, end) = decode_records(buf, p1, rs.len())->Ok_0;
    let an = m.answers.len();
    let ns = m.authority.len();
    let nad = m.additional.len();
    let ar: nat = nad + if m.edns is Some { 1nat } else { 0nat };
    assert(wh.ancount == an);
    assert(wh.nscount == ns);
    assert(wh.arcount == ar);
    assert(rs.len() == an + ns + ar);
    lemma_sections(buf, p1, an, ns, ar);
    lemma_sections_exact(m, d);
    let da = d.take(an as int);
    let dn = d.skip(an as int).take(ns as int);
    let ad = d.skip(an as int).skip(ns as int);
    let target = MessageV { header: wire_header(m), ..m };
    let dq = decode_questions(buf, 12, m.questions.len())->Ok_0.0;
    match m.edns {
        None => {
            lemma_first_opt(ad, 0, nad as int);
            assert(ad.take(nad as int) =~= ad);
            let dm = MessageV { header: wh, questions: dq, answers: da, authority: dn, additional: ad, edns: None };
            assert(decode_message(buf) == Ok::<MessageV, super::ParseError>(dm));
        },
        Some(e) => {
            let k = nad as int;
            let o = ad[k];
            lemma_first_opt(ad, 0, k);
            lemma_opt_roundtrip(e);
            assert(ad.remove(k) =~= ad.take(k));
            let dm = MessageV {
                header: wh,
                questions: dq,
                answers: da,
                authority: dn,
                additional: ad.remove(k),
                edns: Some(opt_edns(o)),
            };
            assert(decode_message(buf) == Ok::<MessageV, super::ParseError>(dm));
        },
    }
}

/// A record encoded at the start of a buffer with a fresh compression
/// context decodes back to itself, ending just past the bytes written: names
/// compared up to ASCII case (RDATA names may point at the owner name), and
/// exactly when every name in the record is lower-case.
pub proof fn lemma_record_roundtrip(r: RecordV, buf: Seq<u8>)
    requires
        record_ok(r),
        record_encodable(Seq::<(Seq<Seq<u8>>, u16)>::empty(), r, 0),
        record_bytes(Seq::<(Seq<Seq<u8>>, u16)>::empty(), r, 0).0.len() <= buf.len(),
        buf.take(record_bytes(Seq::<(Seq<Seq<u8>>, u16)>::empty(), r, 0).0.len() as int) == record_bytes(
            Seq::<(Seq<Seq<u8>>, u16)>::empty(),
            r,
            0,
        ).0,
    ensures
        decode_record(buf, 0) matches Ok((x, end)) && record_ci(x) == record_ci(r) && end == record_bytes(
            Seq::<(Seq<Seq<u8>>, u16)>::empty(),
            r,
            0,
        ).0.len(),
        record_ci(r) == r ==> decode_record(buf, 0) == Ok::<(RecordV, int), super::ParseError>(
            (r, record_bytes(Seq::<(Seq<Seq<u8>>, u16)>::empty(), r, 0).0.len() as int),
        ),
{
    let es = Seq::<(Seq<Seq<u8>>, u16)>::empty();
    let lc = record_ci(r) == r;
    let n = record_bytes(es, r, 0).0.len() as int;
    assert(buf.subrange(0, n) =~= buf.take(n));
    lemma_record_decode(buf, es, r, 0, lc);
}


/// The bytes and the compression context after writing `names` one after
/// another through one context, from offset 0.
pub open spec fn names_written(names: Seq<Seq<Seq<u8>>>) -> (Seq<u8>, Suffixes)
    decreases names.len(),
{
    if names.len() == 0 {
        (seq![], seq![])
    } else {
        let (b, e) = names_written(names.drop_last());
        let (nb, e1) = super::compress::compress_bytes(e, names.last(), b.len() as int);
        (b + nb, e1)
    }
}

/// The name at `off` in `buf` decodes to the labels `ls` up to ASCII case
/// (exactly, with `exact`), and the decoder resumes at `end`.
#[verifier::opaque]
pub open spec fn reads_back(buf: Seq<u8>, off: int, ls: Seq<Seq<u8>>, end: int, exact: bool) -> bool {
    decode_name(buf, off) matches Ok((d, e)) && lower_labels(d) == lower_labels(ls) && e == end && (exact ==> d
        == ls)
}

/// Where the `i`-th of `names` starts when they are written in turn.
pub open spec fn name_offset(names: Seq<Seq<Seq<u8>>>, i: int) -> int {
    names_written(names.take(i)).0.len() as int
}

proof fn lemma_names_written(names: Seq<Seq<Seq<u8>>>, buf: Seq<u8>, lc: bool)
    requires
        forall|i: int| 0 <= i < names.len() ==> name_short(#[trigger] names[i]),
        lc ==> forall|i: int| 0 <= i < names.len() ==> lower_labels(#[trigger] names[i]) == names[i],
        names_written(names).0.len() <= buf.len(),
        buf.take(names_written(names).0.len() as int) == names_written(names).0,
    ensures
        entries_ok(buf, names_written(names).1, names_written(names).0.len() as int, lc),
        forall|i: int|
            0 <= i < names.len() ==> reads_back(buf, name_offset(names, i), #[trigger] names[i], name_offset(
                names,
                i + 1,
            ), lc),
    decreases names.len(),
{
    let n = names.len() as int;
    if n == 0 {
        assert forall|i: int| 0 <= i < names_written(names).1.len() implies entry_ok(
            buf,
            #[trigger] names_written(names).1[i],
            0,
            lc,
        ) by {
        }
    } else {
        let init = names.drop_last();
        let (b, e) = names_written(init);
        let (nb, e1) = super::compress::compress_bytes(e, names.last(), b.len() as int);
        assert(names_written(names).0 == b + nb);
        assert(buf.take(b.len() as int) =~= (b + nb).take(b.len() as int));
        assert((b + nb).take(b.len() as int) =~= b);
        assert forall|i: int| 0 <= i < init.len() implies name_short(#[trigger] init[i]) by {
            assert(init[i] == names[i]);
        }
        assert(lc ==> forall|i: int| 0 <= i < init.len() ==> lower_labels(#[trigger] init[i]) == init[i]) by {
            assert forall|i: int| 0 <= i < init.len() implies init[i] == names[i] by {}
        }
        assert(lc ==> lower_labels(names.last()) == names.last());
        lemma_names_written(init, buf, lc);
        let p = b.len() as int;
        let q = p + nb.len();
        assert(buf.subrange(p, q) =~= (b + nb).subrange(p, q));
        assert((b + nb).subrange(p, q) =~= nb);
        lemma_name_decode(buf, e, names.last(), b.len() as int, lc);
        assert(names.take(n) =~= names);
        assert(names.take(n - 1) =~= init);
        assert(reads_back(buf, b.len() as int, names.last(), q, lc)) by {
            reveal(reads_back);
        }
        assert forall|i: int| 0 <= i < names.len() implies reads_back(
            buf,
            name_offset(names, i),
            #[trigger] names[i],
            name_offset(names, i + 1),
                lc,
        ) by {
            if i < n - 1 {
                assert(names.take(i) =~= init.take(i));
                assert(names.take(i + 1) =~= init.take(i + 1));
                assert(names[i] == init[i]);
                assert(reads_back(buf, name_offset(init, i), init[i], name_offset(init, i + 1), lc));
            } else {
                assert(names.take(i) =~= init);
            }
        }
    }
}

/// With no earlier suffix to share (every recorded key longer than the name
/// left to write), the compressed form of a name is its plain encoding.
proof fn lemma_compress_fresh(x: Suffixes, ls: Seq<Seq<u8>>, abs: int, written: int)
    requires
        labels_ok(ls),
        0 <= written,
        written + labels_sum(ls) + 1 <= unbounded_cap(),
        forall|j: int| 0 <= j < x.len() ==> (#[trigger] x[j]).0.len() > ls.len(),
    ensures
        compress_write(x, ls, abs, written, unbounded_cap()).0 == Ok::<Seq<u8>, usize>(name_bytes(ls)),
    decreases ls.len(),
{
    if ls.len() == 0 {
        assert(name_bytes(ls) =~= seq![0u8]);
    } else {
        let key = lower_labels(ls);
        lemma_lower_sum(ls);
        let e0 = Seq::<(Seq<Seq<u8>>, u16)>::empty();
        assert forall|j: int| 0 <= j < x.len() implies (#[trigger] x[j]).0.len() != key.len() by {}
        lemma_lookup_skip(e0, x, key);
        assert(e0 + x =~= x);
        let e2 = if abs + written < 0x4000 {
            x.push((key, (abs + written) as u16))
        } else {
            x
        };
        let rest = ls.drop_first();
        let len = ls[0].len();
        super::compress::lemma_labels_sum_drop_first(ls);
        assert(labels_ok(rest)) by {
            assert forall|i: int| 0 <= i < rest.len() implies label_ok(#[trigger] rest[i]) by {
                assert(rest[i] == ls[i + 1]);
            }
        }
        assert forall|j: int| 0 <= j < e2.len() implies (#[trigger] e2[j]).0.len() > rest.len() by {
            if j < x.len() {
                assert(e2[j] == x[j]);
            }
        }
        lemma_compress_fresh(e2, rest, abs, written + 1 + len);
        lemma_labels_bytes_first(ls);
        assert(name_bytes(ls) =~= seq![len as u8] + ls[0] + name_bytes(rest));
    }
}

/// The bytes of the first `k` names are a prefix of the bytes of all.
proof fn lemma_names_prefix(names: Seq<Seq<Seq<u8>>>, k: int)
    requires
        0 <= k <= names.len(),
    ensures
        names_written(names.take(k)).0.len() <= names_written(names).0.len(),
        names_written(names).0.take(names_written(names.take(k)).0.len() as int) == names_written(names.take(k)).0,
    decreases names.len(),
{
    if k == names.len() {
        assert(names.take(k) =~= names);
        assert(names_written(names).0.take(names_written(names).0.len() as int) =~= names_written(names).0);
    } else {
        let init = names.drop_last();
        lemma_names_prefix(init, k);
        assert(init.take(k) =~= names.take(k));
        let (b, e) = names_written(init);
        let (nb, e1) = super::compress::compress_bytes(e, names.last(), b.len() as int);
        assert(names_written(names).0 == b + nb);
        let t = names_written(names.take(k)).0;
        assert((b + nb).take(t.len() as int) =~= b.take(t.len() as int));
    }
}

/// The first of the names is written in plain, uncompressed form.
proof fn lemma_first_name_plain(names: Seq<Seq<Seq<u8>>>, buf: Seq<u8>)
    requires
        names.len() > 0,
        name_short(names[0]),
        names_written(names).0.len() <= buf.len(),
        buf.take(names_written(names).0.len() as int) == names_written(names).0,
    ensures
        buf.take(name_offset(names, 1)) == name_bytes(names[0]),
{
    let n0 = names[0];
    assert(names.take(1).drop_last() =~= Seq::<Seq<Seq<u8>>>::empty());
    assert(names.take(1).last() == n0);
    super::name::lemma_labels_bytes_len(n0);
    lemma_compress_fresh(Seq::<(Seq<Seq<u8>>, u16)>::empty(), n0, 0, 0);
    let t = names.take(1);
    let (b, e) = names_written(t.drop_last());
    assert(b == Seq::<u8>::empty() && e == Seq::<(Seq<Seq<u8>>, u16)>::empty());
    let nb = super::compress::compress_bytes(e, n0, 0).0;
    assert(nb == name_bytes(n0));
    assert(names_written(t).0 == b + nb);
    let w = names_written(t).0;
    assert(w =~= name_bytes(n0));
    lemma_names_prefix(names, 1);
    let all = names_written(names).0;
    assert(buf.take(w.len() as int) =~= all.take(w.len() as int));
}

/// Every name is lower-case.
pub open spec fn all_lower(names: Seq<Seq<Seq<u8>>>) -> bool {
    forall|i: int| 0 <= i < names.len() ==> lower_labels(#[trigger] names[i]) == names[i]
}

proof fn lemma_name_offsets(names: Seq<Seq<Seq<u8>>>, i: int)
    requires
        0 <= i < names.len(),
        forall|k: int| 0 <= k < names.len() ==> name_short(#[trigger] names[k]),
    ensures
        name_offset(names, i) < name_offset(names, i + 1) <= name_offset(names, i) + wire_len_of(names[i]),
{
    let t = names.take(i + 1);
    assert(t.drop_last() =~= names.take(i));
    assert(t.last() == names[i]);
    let (b, e) = names_written(names.take(i));
    assert(names[i] == names[i]);
    assert(name_short(names[i]));
    super::compress::lemma_compress_cap(e, names[i], b.len() as int, 0, unbounded_cap());
    lemma_compress_nonempty(e, names[i], b.len() as int);
}

proof fn lemma_compress_nonempty(es: Suffixes, ls: Seq<Seq<u8>>, p: int)
    requires
        name_short(ls),
    ensures
        super::compress::compress_bytes(es, ls, p).0.len() >= 1,
{
    assert(labels_ok(ls));
    super::compress::lemma_compress_cap(es, ls, p, 0, unbounded_cap());
    let r = compress_write(es, ls, p, 0, unbounded_cap()).0;
    if ls.len() == 0 {
    } else {
        match ctx_lookup(es, lower_labels(ls)) {
            Some(_) => {},
            None => {},
        }
    }
}

/// Names written in turn through one compression context, from offset 0,
/// each read back from where it was written: the decoder gives its labels up
/// to ASCII case (a suffix may be shared with an earlier name written in
/// another case), exactly when every name is lower-case, and resumes where
/// the next name starts; no name takes more than its uncompressed length.
pub proof fn lemma_write_names_roundtrip(names: Seq<Seq<Seq<u8>>>, buf: Seq<u8>)
    requires
        forall|i: int| 0 <= i < names.len() ==> name_short(#[trigger] names[i]),
        names_written(names).0.len() <= buf.len(),
        buf.take(names_written(names).0.len() as int) == names_written(names).0,
    ensures
        forall|i: int|
            0 <= i < names.len() ==> reads_back(
                buf,
                name_offset(names, i),
                #[trigger] names[i],
                name_offset(names, i + 1),
                all_lower(names),
            ),
        forall|i: int|
            0 <= i < names.len() ==> name_offset(names, i) < name_offset(names, i + 1) <= name_offset(names, i)
                + wire_len_of(#[trigger] names[i]),
        names.len() > 0 ==> buf.take(name_offset(names, 1)) == name_bytes(names[0]),
{
    lemma_names_written(names, buf, all_lower(names));
    if names.len() > 0 {
        lemma_first_name_plain(names, buf);
    }
    assert forall|i: int| 0 <= i < names.len() implies name_offset(names, i) < name_offset(names, i + 1)
        <= name_offset(names, i) + wire_len_of(#[trigger] names[i]) by {
        lemma_name_offsets(names, i);
    }
}

} // verus!
