//! Full DNS message encode / decode (RFC 1035 §4.1).
//!
//! Sections: header, question × QDCOUNT, answer × ANCOUNT, authority × NSCOUNT,
//! additional × ARCOUNT. EDNS(0) (RFC 6891) is carried as [`Edns`]: the decoder
//! takes the first OPT pseudo-record out of the additional section, and the
//! encoder appends one after the additional records when `edns` is set.
use super::compress::{compress_bytes, EncodeCtx};
use super::header::{decode_header, header_bytes, Header};
use super::name::Name;
use super::question::{decode_question, question_view, QClass, QType, Question};
use super::rr::{
    write_name_c, decode_record, encode_outcome, rdata_type, record_bytes, record_encodable, record_view, RData, RDataV,
    RecordV, ResourceRecord,
};
use super::{be16_bytes, write_be16, ParseError, HEADER_LEN};
use vstd::prelude::*;

verus! {

/// Upper bound on labels accepted in a single name.
pub const MAX_LABELS_PER_NAME: usize = 128;

/// The TYPE of the OPT pseudo-record.
pub const OPT_TYPE: u16 = 41;

/// EDNS(0) pseudo-RR data (RFC 6891 §6).
#[derive(Debug, PartialEq, Eq)]
pub struct Edns {
    /// Requestor's UDP payload size.
    pub udp_payload_size: u16,
    /// Extended rcode (upper 8 bits of the 12-bit rcode).
    pub extended_rcode: u8,
    /// EDNS version.
    pub version: u8,
    /// DNSSEC OK bit.
    pub do_bit: bool,
    /// Raw options bytes, preserved verbatim.
    pub options: Vec<u8>,
}

/// Abstract EDNS data.
pub struct EdnsV {
    pub udp_payload_size: u16,
    pub extended_rcode: u8,
    pub version: u8,
    pub do_bit: bool,
    pub options: Seq<u8>,
}

pub open spec fn edns_view(e: Edns) -> EdnsV {
    EdnsV {
        udp_payload_size: e.udp_payload_size,
        extended_rcode: e.extended_rcode,
        version: e.version,
        do_bit: e.do_bit,
        options: e.options@,
    }
}

impl Default for Edns {
    /// A 1232-byte payload (DNS Flag Day 2020), version 0, no flags, no options.
    fn default() -> (r: Self)
        ensures
            r.udp_payload_size == 1232,
            r.extended_rcode == 0,
            r.version == 0,
            !r.do_bit,
            r.options@ == Seq::<u8>::empty(),
    {
        Edns { udp_payload_size: 1232, extended_rcode: 0, version: 0, do_bit: false, options: Vec::new() }
    }
}

/// A full DNS message.
#[derive(Debug, PartialEq, Eq, Default)]
pub struct Message {
    pub header: Header,
    pub questions: Vec<Question>,
    pub answers: Vec<ResourceRecord>,
    pub authority: Vec<ResourceRecord>,
    pub additional: Vec<ResourceRecord>,
    pub edns: Option<Edns>,
}

/// Abstract message.
pub struct MessageV {
    pub header: Header,
    pub questions: Seq<(Seq<Seq<u8>>, u16, u16)>,
    pub answers: Seq<RecordV>,
    pub authority: Seq<RecordV>,
    pub additional: Seq<RecordV>,
    pub edns: Option<EdnsV>,
}

pub open spec fn question_views(v: Seq<Question>) -> Seq<(Seq<Seq<u8>>, u16, u16)> {
    v.map_values(|q: Question| question_view(q))
}

pub open spec fn record_views(v: Seq<ResourceRecord>) -> Seq<RecordV> {
    v.map_values(|r: ResourceRecord| record_view(r))
}

pub open spec fn message_view(m: Message) -> MessageV {
    MessageV {
        header: m.header,
        questions: question_views(m.questions@),
        answers: record_views(m.answers@),
        authority: record_views(m.authority@),
        additional: record_views(m.additional@),
        edns: match m.edns {
            Some(e) => Some(edns_view(e)),
            None => None,
        },
    }
}

// ---------------------------------------------------------------------------
// Decoding
// ---------------------------------------------------------------------------

/// `n` questions read one after another from `pos`, and the offset after them.
pub open spec fn decode_questions(buf: Seq<u8>, pos: int, n: nat) -> Result<
    (Seq<(Seq<Seq<u8>>, u16, u16)>, int),
    ParseError,
>
    decreases n,
{
    if n == 0 {
        Ok((seq![], pos))
    } else {
        match decode_questions(buf, pos, (n - 1) as nat) {
            Err(e) => Err(e),
            Ok((qs, p)) => match decode_question(buf, p) {
                Err(e) => Err(e),
                Ok((q, p2)) => Ok((qs.push(q), p2)),
            },
        }
    }
}

/// `n` records read one after another from `pos`, and the offset after them.
pub open spec fn decode_records(buf: Seq<u8>, pos: int, n: nat) -> Result<(Seq<RecordV>, int), ParseError>
    decreases n,
{
    if n == 0 {
        Ok((seq![], pos))
    } else {
        match decode_records(buf, pos, (n - 1) as nat) {
            Err(e) => Err(e),
            Ok((rs, p)) => match decode_record(buf, p) {
                Err(e) => Err(e),
                Ok((r, p2)) => Ok((rs.push(r), p2)),
            },
        }
    }
}

/// Index of the first OPT record in `rs` at or after `i` (`rs.len()` if none).
pub open spec fn first_opt(rs: Seq<RecordV>, i: int) -> int
    decreases rs.len() - i,
{
    if i < 0 || i >= rs.len() {
        rs.len() as int
    } else if rdata_type(rs[i].data) == OPT_TYPE {
        i
    } else {
        first_opt(rs, i + 1)
    }
}

/// EDNS state carried by an OPT record: CLASS is the payload size, TTL holds
/// extended rcode, version and flags (RFC 6891 §6.1.3).
pub open spec fn opt_edns(r: RecordV) -> EdnsV {
    EdnsV {
        udp_payload_size: r.class,
        extended_rcode: ((r.ttl >> 24u32) & 0xFFu32) as u8,
        version: ((r.ttl >> 16u32) & 0xFFu32) as u8,
        do_bit: ((r.ttl & 0xFFFFu32) as u16) & 0x8000u16 != 0,
        options: match r.data {
            RDataV::Unknown { data, .. } => data,
            _ => seq![],
        },
    }
}

/// The message in `buf`, or the error decoding reports.
pub open spec fn decode_message(buf: Seq<u8>) -> Result<MessageV, ParseError> {
    match decode_header(buf) {
        Err(e) => Err(e),
        Ok(h) => match decode_questions(buf, HEADER_LEN as int, h.qdcount as nat) {
            Err(e) => Err(e),
            Ok((qs, p1)) => match decode_records(buf, p1, h.ancount as nat) {
                Err(e) => Err(e),
                Ok((an, p2)) => match decode_records(buf, p2, h.nscount as nat) {
                    Err(e) => Err(e),
                    Ok((ns, p3)) => match decode_records(buf, p3, h.arcount as nat) {
                        Err(e) => Err(e),
                        Ok((ad, p4)) => {
                            let k = first_opt(ad, 0);
                            if k < ad.len() {
                                Ok(
                                    MessageV {
                                        header: h,
                                        questions: qs,
                                        answers: an,
                                        authority: ns,
                                        additional: ad.remove(k),
                                        edns: Some(opt_edns(ad[k])),
                                    },
                                )
                            } else {
                                Ok(
                                    MessageV {
                                        header: h,
                                        questions: qs,
                                        answers: an,
                                        authority: ns,
                                        additional: ad,
                                        edns: None,
                                    },
                                )
                            }
                        },
                    },
                },
            },
        },
    }
}

proof fn lemma_decode_questions_err(buf: Seq<u8>, pos: int, i: nat, n: nat)
    requires
        i <= n,
        decode_questions(buf, pos, i) is Err,
    ensures
        decode_questions(buf, pos, n) == decode_questions(buf, pos, i),
    decreases n - i,
{
    if i < n {
        lemma_decode_questions_err(buf, pos, i, (n - 1) as nat);
    }
}

proof fn lemma_decode_records_err(buf: Seq<u8>, pos: int, i: nat, n: nat)
    requires
        i <= n,
        decode_records(buf, pos, i) is Err,
    ensures
        decode_records(buf, pos, n) == decode_records(buf, pos, i),
    decreases n - i,
{
    if i < n {
        lemma_decode_records_err(buf, pos, i, (n - 1) as nat);
    }
}

fn decode_questions_exec(buf: &[u8], pos: usize, count: u16) -> (r: Result<(Vec<Question>, usize), ParseError>)
    ensures
        match decode_questions(buf@, pos as int, count as nat) {
            Ok((qs, end)) => r matches Ok((v, e)) && question_views(v@) == qs && e == end,
            Err(err) => r == Err::<(Vec<Question>, usize), ParseError>(err),
        },
{
    let mut out: Vec<Question> = Vec::new();
    let mut p = pos;
    let mut i: u16 = 0;
    proof {
        assert(question_views(out@) =~= Seq::<(Seq<Seq<u8>>, u16, u16)>::empty());
    }
    while i < count
        invariant
            i <= count,
            decode_questions(buf@, pos as int, i as nat) == Ok::<(Seq<(Seq<Seq<u8>>, u16, u16)>, int), ParseError>(
                (question_views(out@), p as int),
            ),
        decreases count - i,
    {
        match Question::decode(buf, p) {
            Ok((q, next)) => {
                let ghost before = out@;
                out.push(q);
                proof {
                    assert(question_views(out@) =~= question_views(before).push(question_view(q)));
                }
                p = next;
            },
            Err(e) => {
                proof {
                    lemma_decode_questions_err(buf@, pos as int, (i + 1) as nat, count as nat);
                }
                return Err(e);
            },
        }
        i = i + 1;
    }
    Ok((out, p))
}

fn decode_rrs(buf: &[u8], pos: usize, count: u16) -> (r: Result<(Vec<ResourceRecord>, usize), ParseError>)
    ensures
        match decode_records(buf@, pos as int, count as nat) {
            Ok((rs, end)) => r matches Ok((v, e)) && record_views(v@) == rs && e == end,
            Err(err) => r == Err::<(Vec<ResourceRecord>, usize), ParseError>(err),
        },
{
    let mut out: Vec<ResourceRecord> = Vec::new();
    let mut p = pos;
    let mut i: u16 = 0;
    proof {
        assert(record_views(out@) =~= Seq::<RecordV>::empty());
    }
    while i < count
        invariant
            i <= count,
            decode_records(buf@, pos as int, i as nat) == Ok::<(Seq<RecordV>, int), ParseError>(
                (record_views(out@), p as int),
            ),
        decreases count - i,
    {
        match ResourceRecord::decode(buf, p) {
            Ok((rr, next)) => {
                let ghost before = out@;
                let ghost rv = record_view(rr);
                out.push(rr);
                proof {
                    assert(record_views(out@) =~= record_views(before).push(rv));
                }
                p = next;
            },
            Err(e) => {
                proof {
                    lemma_decode_records_err(buf@, pos as int, (i + 1) as nat, count as nat);
                }
                return Err(e);
            },
        }
        i = i + 1;
    }
    Ok((out, p))
}

/// The EDNS state carried by an OPT record.
pub fn opt_to_edns(opt: &ResourceRecord) -> (r: Edns)
    ensures
        edns_view(r) == opt_edns(record_view(*opt)),
{
    let ttl = opt.ttl;
    let extended_rcode = ((ttl >> 24u32) & 0xFFu32) as u8;
    let version = ((ttl >> 16u32) & 0xFFu32) as u8;
    let flags = (ttl & 0xFFFFu32) as u16;
    let do_bit = flags & 0x8000u16 != 0;
    let options = match &opt.data {
        RData::Unknown { data, .. } => copy_vec(data),
        _ => Vec::new(),
    };
    let r = Edns { udp_payload_size: opt.class.0, extended_rcode, version, do_bit, options };
    proof {
        assert(edns_view(r).options =~= opt_edns(record_view(*opt)).options);
    }
    r
}

/// The OPT record that carries `e` (owner ".", CLASS = payload size).
pub open spec fn edns_opt_record(e: EdnsV) -> RecordV {
    RecordV {
        name: seq![],
        class: e.udp_payload_size,
        ttl: ((e.extended_rcode as u32) << 24u32) | ((e.version as u32) << 16u32) | (if e.do_bit {
            0x8000u32
        } else {
            0u32
        }),
        data: RDataV::Unknown { rtype: OPT_TYPE, data: e.options },
    }
}

/// The OPT pseudo-record that carries `edns`.
pub fn edns_to_opt(edns: &Edns) -> (r: ResourceRecord)
    ensures
        record_view(r) == edns_opt_record(edns_view(*edns)),
{
    let flags: u16 = if edns.do_bit {
        0x8000
    } else {
        0
    };
    let ttl = ((edns.extended_rcode as u32) << 24u32) | ((edns.version as u32) << 16u32) | (flags as u32);
    proof {
        let f: u16 = flags;
        let x: u8 = edns.extended_rcode;
        let y: u8 = edns.version;
        assert(f == 0 || f == 0x8000);
        assert(f == 0 ==> ((x as u32) << 24u32) | ((y as u32) << 16u32) | (f as u32) == ((x as u32) << 24u32) | ((
        y as u32) << 16u32) | 0u32) by (bit_vector);
        assert(f == 0x8000 ==> ((x as u32) << 24u32) | ((y as u32) << 16u32) | (f as u32) == ((x as u32) << 24u32)
            | ((y as u32) << 16u32) | 0x8000u32) by (bit_vector);
    }
    let r = ResourceRecord {
        name: Name::root(),
        class: QClass(edns.udp_payload_size),
        ttl,
        data: RData::Unknown { rtype: QType(OPT_TYPE), data: copy_vec(&edns.options) },
    };
    proof {
        assert(record_view(r).data == edns_opt_record(edns_view(*edns)).data);
    }
    r
}

fn copy_vec(v: &Vec<u8>) -> (r: Vec<u8>)
    ensures
        r@ == v@,
{
    let mut r: Vec<u8> = Vec::new();
    let mut i: usize = 0;
    while i < v.len()
        invariant
            i <= v.len(),
            r@ == v@.take(i as int),
        decreases v.len() - i,
    {
        r.push(v[i]);
        i = i + 1;
        proof {
            assert(r@ =~= v@.take(i as int));
        }
    }
    proof {
        assert(v@.take(i as int) =~= v@);
    }
    r
}

impl Message {
    /// Decode a message from the wire.
    #[verifier::rlimit(40)]
    pub fn decode(buf: &[u8]) -> (r: Result<Self, ParseError>)
        ensures
            match decode_message(buf@) {
                Ok(mv) => r matches Ok(m) && message_view(m) == mv,
                Err(e) => r == Err::<Message, ParseError>(e),
            },
    {
        let header = match Header::decode(buf) {
            Ok(h) => h,
            Err(e) => return Err(e),
        };
        let (questions, p1) = match decode_questions_exec(buf, HEADER_LEN, header.qdcount) {
            Ok(v) => v,
            Err(e) => return Err(e),
        };
        let (answers, p2) = match decode_rrs(buf, p1, header.ancount) {
            Ok(v) => v,
            Err(e) => return Err(e),
        };
        let (authority, p3) = match decode_rrs(buf, p2, header.nscount) {
            Ok(v) => v,
            Err(e) => return Err(e),
        };
        let (mut additional, p4) = match decode_rrs(buf, p3, header.arcount) {
            Ok(v) => v,
            Err(e) => return Err(e),
        };
        let ghost ad = record_views(additional@);
        let k = find_opt(&additional);
        let edns = if k < additional.len() {
            let opt = additional.remove(k);
            proof {
                assert(record_views(additional@) =~= ad.remove(k as int));
            }
            Some(opt_to_edns(&opt))
        } else {
            None
        };
        Ok(Message { header, questions, answers, authority, additional, edns })
    }
}

/// Index of the first OPT record (`rs.len()` if there is none).
fn find_opt(rs: &Vec<ResourceRecord>) -> (k: usize)
    ensures
        k == first_opt(record_views(rs@), 0),
{
    let ghost v = record_views(rs@);
    let mut i: usize = 0;
    while i < rs.len()
        invariant
            i <= rs.len(),
            v == record_views(rs@),
            first_opt(v, 0) == first_opt(v, i as int),
        decreases rs.len() - i,
    {
        if rs[i].rtype().0 == OPT_TYPE {
            return i;
        }
        i = i + 1;
    }
    i
}

// ---------------------------------------------------------------------------
// Encoding
// ---------------------------------------------------------------------------

/// Recorded name suffixes of an encoding context.
pub type Suffixes = Seq<(Seq<Seq<u8>>, u16)>;

/// Questions written one after another from absolute offset `pos` (names
/// compressed), and the context afterwards.
pub open spec fn questions_bytes(entries: Suffixes, qs: Seq<(Seq<Seq<u8>>, u16, u16)>, pos: int) -> (
    Seq<u8>,
    Suffixes,
)
    decreases qs.len(),
{
    if qs.len() == 0 {
        (seq![], entries)
    } else {
        let (b0, e0) = questions_bytes(entries, qs.drop_last(), pos);
        let q = qs.last();
        let (nb, e1) = compress_bytes(e0, q.0, pos + b0.len());
        (b0 + nb + be16_bytes(q.1) + be16_bytes(q.2), e1)
    }
}

/// Records written one after another from absolute offset `pos`, the context
/// afterwards, and whether every one of them could be written.
pub open spec fn records_bytes(entries: Suffixes, rs: Seq<RecordV>, pos: int) -> (Seq<u8>, Suffixes, bool)
    decreases rs.len(),
{
    if rs.len() == 0 {
        (seq![], entries, true)
    } else {
        let (b0, e0, ok0) = records_bytes(entries, rs.drop_last(), pos);
        let (b, e1) = record_bytes(e0, rs.last(), pos + b0.len());
        (b0 + b, e1, ok0 && record_encodable(e0, rs.last(), pos + b0.len()))
    }
}

/// Every record the encoder writes, in order: answer, authority, additional,
/// then the OPT record when EDNS is set.
pub open spec fn wire_records(m: MessageV) -> Seq<RecordV> {
    m.answers + m.authority + m.additional + match m.edns {
        Some(e) => seq![edns_opt_record(e)],
        None => seq![],
    }
}

/// The header the encoder writes: section counts follow the section vectors;
/// ARCOUNT counts the OPT record too (saturating).
pub open spec fn wire_header(m: MessageV) -> Header {
    let ar = m.additional.len() + if m.edns is Some {
        1int
    } else {
        0int
    };
    Header {
        qdcount: m.questions.len() as u16,
        ancount: m.answers.len() as u16,
        nscount: m.authority.len() as u16,
        arcount: if ar > 0xFFFF {
            0xFFFFu16
        } else {
            ar as u16
        },
        ..m.header
    }
}

/// Each section's length fits its 16-bit count.
pub open spec fn counts_fit(m: MessageV) -> bool {
    &&& m.questions.len() <= 0xFFFF
    &&& m.answers.len() <= 0xFFFF
    &&& m.authority.len() <= 0xFFFF
    &&& m.additional.len() <= 0xFFFF
}

/// Everything after the header, and whether every record can be written.
pub open spec fn message_body(m: MessageV) -> (Seq<u8>, bool) {
    let (qb, eq) = questions_bytes(seq![], m.questions, HEADER_LEN as int);
    let (rb, er, ok) = records_bytes(eq, wire_records(m), HEADER_LEN + qb.len());
    (qb + rb, ok)
}

/// The complete wire form of `m`.
pub open spec fn message_bytes(m: MessageV) -> Seq<u8> {
    header_bytes(wire_header(m)) + message_body(m).0
}

/// Whether `m` can be written at all: counts fit and every record is encodable.
pub open spec fn message_encodable(m: MessageV) -> bool {
    counts_fit(m) && message_body(m).1
}

fn encode_questions(qs: &Vec<Question>, out: &mut [u8], ctx: &mut EncodeCtx) -> (r: Result<usize, ParseError>)
    requires
        HEADER_LEN <= old(out)@.len(),
        old(ctx)@ == Seq::<(Seq<Seq<u8>>, u16)>::empty(),
    ensures
        ({
            let (b, e) = questions_bytes(seq![], question_views(qs@), HEADER_LEN as int);
            encode_outcome(r, old(out)@, final(out)@, HEADER_LEN as int, b, true, final(ctx)@, e)
        }),
{
    let ghost o0 = out@;
    let ghost qv = question_views(qs@);
    let olen = out.len();
    let mut pos: usize = HEADER_LEN;
    let mut i: usize = 0;
    while i < qs.len()
        invariant
            i <= qs.len(),
            qv == question_views(qs@),
            olen == o0.len(),
            o0 == old(out)@,
            ({
                let (b, e) = questions_bytes(seq![], qv.take(i as int), HEADER_LEN as int);
                &&& pos == HEADER_LEN + b.len()
                &&& pos <= olen
                &&& ctx@ == e
                &&& out@ == o0.subrange(0, HEADER_LEN as int) + b + o0.skip(pos as int)
            }),
        decreases qs.len() - i,
    {
        let ghost t = qv.take(i as int);
        let ghost t1 = qv.take(i as int + 1);
        proof {
            assert(t1.drop_last() =~= t);
            assert(t1.last() == question_view(qs@[i as int]));
        }
        let ghost ob = out@;
        let ghost cb = ctx@;
        let q = &qs[i];
        let n = match write_name_c(ctx, &q.qname, out, pos, pos) {
            Ok(n) => n,
            Err(e) => {
                proof {
                    lemma_questions_bytes_prefix(qv, i as int + 1);
                }
                return Err(e);
            },
        };
        if olen - pos - n < 4 {
            proof {
                lemma_questions_bytes_prefix(qv, i as int + 1);
            }
            return Err(ParseError::OutputBufferTooSmall { need: (pos + n).saturating_add(4), have: olen });
        }
        write_be16(out, pos + n, q.qtype.0);
        write_be16(out, pos + n + 2, q.qclass.0);
        proof {
            let (b0, e0) = questions_bytes(seq![], t, HEADER_LEN as int);
            let (nb, e1) = compress_bytes(e0, qs@[i as int].qname@, pos as int);
            assert(out@ =~= o0.subrange(0, HEADER_LEN as int) + (b0 + nb + be16_bytes(q.qtype.0) + be16_bytes(
                q.qclass.0,
            )) + o0.skip(pos + n + 4));
        }
        pos = pos + n + 4;
        i = i + 1;
    }
    proof {
        assert(qv.take(i as int) =~= qv);
        let (b, e) = questions_bytes(seq![], qv, HEADER_LEN as int);
        assert(o0.subrange(0, HEADER_LEN as int) + b + o0.skip(pos as int) =~= o0.subrange(0, HEADER_LEN as int)
            + b + o0.skip(HEADER_LEN + b.len()));
    }
    Ok(pos - HEADER_LEN)
}

proof fn lemma_questions_bytes_prefix(qs: Seq<(Seq<Seq<u8>>, u16, u16)>, i: int)
    requires
        0 <= i <= qs.len(),
    ensures
        questions_bytes(seq![], qs.take(i), HEADER_LEN as int).0.len() <= questions_bytes(
            seq![],
            qs,
            HEADER_LEN as int,
        ).0.len(),
        questions_bytes(seq![], qs.take(i), HEADER_LEN as int).0 == questions_bytes(
            seq![],
            qs,
            HEADER_LEN as int,
        ).0.take(questions_bytes(seq![], qs.take(i), HEADER_LEN as int).0.len() as int),
    decreases qs.len() - i,
{
    if i < qs.len() {
        lemma_questions_bytes_prefix(qs, i + 1);
        let t1 = qs.take(i + 1);
        assert(t1.drop_last() =~= qs.take(i));
        let b0 = questions_bytes(seq![], qs.take(i), HEADER_LEN as int).0;
        let b1 = questions_bytes(seq![], t1, HEADER_LEN as int).0;
        assert(b1.take(b0.len() as int) =~= b0);
    } else {
        assert(qs.take(i) =~= qs);
    }
}

/// Records `rs` are written after `done`, the records already written from
/// `p0` with starting context `e0` into a buffer that held `o0`.
fn encode_section(
    rs: &Vec<ResourceRecord>,
    out: &mut [u8],
    pos: usize,
    ctx: &mut EncodeCtx,
    Ghost(e0): Ghost<Suffixes>,
    Ghost(p0): Ghost<int>,
    Ghost(o0): Ghost<Seq<u8>>,
    Ghost(done): Ghost<Seq<RecordV>>,
) -> (r: Result<usize, ParseError>)
    requires
        0 <= p0 <= o0.len(),
        old(out)@.len() == o0.len(),
        ({
            let (b, e, ok) = records_bytes(e0, done, p0);
            &&& ok
            &&& pos == p0 + b.len()
            &&& pos <= o0.len()
            &&& old(ctx)@ == e
            &&& old(out)@ == o0.subrange(0, p0) + b + o0.skip(pos as int)
        }),
    ensures
        final(out)@.len() == o0.len(),
        ({
            let all = done + record_views(rs@);
            let (b, e, ok) = records_bytes(e0, all, p0);
            match r {
                Ok(np) => ok && np == p0 + b.len() && np <= o0.len() && final(ctx)@ == e && final(out)@ == o0.subrange(
                    0,
                    p0,
                ) + b + o0.skip(np as int),
                Err(err) => (err is OutputBufferTooSmall && p0 + b.len() > o0.len()) || (!ok && (err is LabelTooLong
                    || err is OutputBufferTooSmall)),
            }
        }),
{
    let ghost rv = record_views(rs@);
    let olen = out.len();
    let mut p = pos;
    let mut i: usize = 0;
    proof {
        assert(done + rv.take(0) =~= done);
    }
    while i < rs.len()
        invariant
            i <= rs.len(),
            rv == record_views(rs@),
            olen == o0.len(),
            0 <= p0 <= o0.len(),
            ({
                let (b, e, ok) = records_bytes(e0, done + rv.take(i as int), p0);
                &&& ok
                &&& p == p0 + b.len()
                &&& p <= olen
                &&& ctx@ == e
                &&& out@ == o0.subrange(0, p0) + b + o0.skip(p as int)
            }),
        decreases rs.len() - i,
    {
        let ghost pre = done + rv.take(i as int);
        let ghost pre1 = done + rv.take(i as int + 1);
        proof {
            assert(pre1.drop_last() =~= pre);
            assert(pre1.last() == record_view(rs@[i as int]));
        }
        let ghost ob = out@;
        let n = match rs[i].encode_into(out, p, p, ctx) {
            Ok(n) => n,
            Err(e) => {
                proof {
                    lemma_records_bytes_prefix(e0, done + rv, p0, pre1.len() as int);
                    assert((done + rv).take(pre1.len() as int) =~= pre1);
                }
                return Err(e);
            },
        };
        proof {
            let (b0, x0, ok0) = records_bytes(e0, pre, p0);
            let (b, x1) = record_bytes(x0, record_view(rs@[i as int]), p as int);
            assert(out@ =~= o0.subrange(0, p0) + (b0 + b) + o0.skip(p + n));
        }
        p = p + n;
        i = i + 1;
    }
    proof {
        assert(rv.take(i as int) =~= rv);
    }
    Ok(p)
}

proof fn lemma_records_bytes_prefix(e0: Suffixes, rs: Seq<RecordV>, p0: int, i: int)
    requires
        0 <= i <= rs.len(),
    ensures
        ({
            let (bi, ei, oki) = records_bytes(e0, rs.take(i), p0);
            let (b, e, ok) = records_bytes(e0, rs, p0);
            &&& bi.len() <= b.len()
            &&& ok ==> oki
        }),
    decreases rs.len() - i,
{
    if i < rs.len() {
        lemma_records_bytes_prefix(e0, rs, p0, i + 1);
        let t1 = rs.take(i + 1);
        assert(t1.drop_last() =~= rs.take(i));
    } else {
        assert(rs.take(i) =~= rs);
    }
}

/// The error the encoder reports for a section longer than its 16-bit count.
pub open spec fn count_error() -> ParseError {
    ParseError::OutputBufferTooSmall { need: 0xFFFF, have: 0 }
}

/// The error for a section too long for its 16-bit count.
pub fn count_err() -> (r: ParseError)
    ensures
        r == count_error(),
{
    ParseError::OutputBufferTooSmall { need: 0xFFFF, have: 0 }
}

impl Message {
    /// Encode into `out`. Returns bytes written. Uses name compression.
    ///
    /// The header's section counts are overwritten to match the section
    /// vectors; callers do not need to synchronize them.
    pub fn encode(&self, out: &mut [u8]) -> (r: Result<usize, ParseError>)
        ensures
            final(out)@.len() == old(out)@.len(),
            ({
                let mv = message_view(*self);
                let b = message_bytes(mv);
                &&& old(out)@.len() < HEADER_LEN ==> r == Err::<usize, ParseError>(
                    ParseError::OutputBufferTooSmall { need: HEADER_LEN, have: old(out)@.len() as usize },
                )
                &&& old(out)@.len() >= HEADER_LEN && !counts_fit(mv) ==> r == Err::<usize, ParseError>(count_error())
                &&& message_encodable(mv) && b.len() <= old(out)@.len() ==> r == Ok::<usize, ParseError>(
                    b.len() as usize,
                ) && final(out)@ == b + old(out)@.skip(b.len() as int)
                &&& r is Ok ==> message_encodable(mv) && b.len() <= old(out)@.len()
                &&& r matches Err(err) ==> err is OutputBufferTooSmall || err is LabelTooLong
            }),
    {
        let ghost mv = message_view(*self);
        let ghost o0 = out@;
        if out.len() < HEADER_LEN {
            return Err(ParseError::OutputBufferTooSmall { need: HEADER_LEN, have: out.len() });
        }
        if self.questions.len() > 0xFFFF || self.answers.len() > 0xFFFF || self.authority.len() > 0xFFFF
            || self.additional.len() > 0xFFFF {
            return Err(count_err());
        }
        let ar_base = self.additional.len() as u16;
        let ar = match &self.edns {
            Some(_) => ar_base.saturating_add(1),
            None => ar_base,
        };
        let mut header = self.header;
        header.qdcount = self.questions.len() as u16;
        header.ancount = self.answers.len() as u16;
        header.nscount = self.authority.len() as u16;
        header.arcount = ar;
        proof {
            assert(header == wire_header(mv));
        }
        let _ = header.encode(out);
        let ghost oh = out@;
        let r = self.encode_body(out);
        proof {
            let (b, ok) = message_body(mv);
            assert(oh.subrange(0, HEADER_LEN as int) =~= header_bytes(wire_header(mv)));
            if r is Ok {
                assert(oh.skip(HEADER_LEN + b.len()) =~= o0.skip(HEADER_LEN + b.len()));
                assert(out@ =~= message_bytes(mv) + o0.skip(message_bytes(mv).len() as int));
            }
        }
        r
    }

    /// Write the sections after the header into `out[HEADER_LEN..]`.
    #[verifier::rlimit(40)]
    fn encode_body(&self, out: &mut [u8]) -> (r: Result<usize, ParseError>)
        requires
            old(out)@.len() >= HEADER_LEN,
        ensures
            final(out)@.len() == old(out)@.len(),
            ({
                let o0 = old(out)@;
                let (b, ok) = message_body(message_view(*self));
                match r {
                    Ok(p) => ok && p == HEADER_LEN + b.len() && p <= o0.len() && final(out)@ == o0.subrange(
                        0,
                        HEADER_LEN as int,
                    ) + b + o0.skip(p as int),
                    Err(err) => (err is OutputBufferTooSmall && HEADER_LEN + b.len() > o0.len()) || (!ok && (
                    err is LabelTooLong || err is OutputBufferTooSmall)),
                }
            }),
    {
        let ghost mv = message_view(*self);
        let ghost o0 = out@;
        let olen = out.len();
        let mut ctx = EncodeCtx::new();
        let qn = match encode_questions(&self.questions, out, &mut ctx) {
            Ok(n) => n,
            Err(e) => return Err(e),
        };
        let ghost eq = ctx@;
        let ghost qb = questions_bytes(seq![], mv.questions, HEADER_LEN as int).0;
        let ghost p0 = HEADER_LEN + qb.len();
        let ghost o1 = out@;
        proof {
            assert(question_views(self.questions@) == mv.questions);
            assert(qn == qb.len());
            assert(HEADER_LEN + qb.len() <= o0.len());
        }
        let pos = HEADER_LEN + qn;
        proof {
            assert(records_bytes(eq, Seq::<RecordV>::empty(), p0) == (Seq::<u8>::empty(), eq, true));
            assert(o1 =~= o1.subrange(0, p0) + Seq::<u8>::empty() + o1.skip(pos as int));
        }
        let r = self.encode_records(out, pos, &mut ctx, Ghost(eq), Ghost(p0), Ghost(o1));
        proof {
            let (rb, er, ok) = records_bytes(eq, wire_records(mv), p0);
            if let Ok(p) = r {
                assert(out@ =~= o0.subrange(0, HEADER_LEN as int) + (qb + rb) + o0.skip(p as int));
            }
        }
        r
    }

    /// Write every record of [`wire_records`] from `pos` on.
    #[verifier::rlimit(40)]
    fn encode_records(
        &self,
        out: &mut [u8],
        pos: usize,
        ctx: &mut EncodeCtx,
        Ghost(eq): Ghost<Suffixes>,
        Ghost(p0): Ghost<int>,
        Ghost(o1): Ghost<Seq<u8>>,
    ) -> (r: Result<usize, ParseError>)
        requires
            0 <= p0 <= o1.len(),
            pos == p0,
            old(out)@ == o1,
            old(ctx)@ == eq,
        ensures
            final(out)@.len() == o1.len(),
            ({
                let (b, e, ok) = records_bytes(eq, wire_records(message_view(*self)), p0);
                match r {
                    Ok(np) => ok && np == p0 + b.len() && np <= o1.len() && final(out)@ == o1.subrange(0, p0) + b
                        + o1.skip(np as int),
                    Err(err) => (err is OutputBufferTooSmall && p0 + b.len() > o1.len()) || (!ok && (
                    err is LabelTooLong || err is OutputBufferTooSmall)),
                }
            }),
    {
        let ghost mv = message_view(*self);
        proof {
            assert(records_bytes(eq, Seq::<RecordV>::empty(), p0) == (Seq::<u8>::empty(), eq, true));
            assert(o1 =~= o1.subrange(0, p0) + Seq::<u8>::empty() + o1.skip(pos as int));
        }
        let ghost none_yet: Seq<RecordV> = seq![];
        let pos = match encode_section(&self.answers, out, pos, ctx, Ghost(eq), Ghost(p0), Ghost(o1), Ghost(none_yet)) {
            Ok(p) => p,
            Err(e) => {
                proof {
                    assert(none_yet + mv.answers =~= wire_records(mv).take(mv.answers.len() as int));
                    lemma_wire_records_prefix(eq, mv, p0, mv.answers.len() as int);
                }
                return Err(e);
            },
        };
        proof {
            assert(none_yet + mv.answers =~= mv.answers);
        }
        let pos = match encode_section(&self.authority, out, pos, ctx, Ghost(eq), Ghost(p0), Ghost(o1), Ghost(mv.answers)) {
            Ok(p) => p,
            Err(e) => {
                proof {
                    assert(mv.answers + mv.authority =~= wire_records(mv).take((mv.answers.len() + mv.authority.len()) as int));
                    lemma_wire_records_prefix(eq, mv, p0, (mv.answers.len() + mv.authority.len()) as int);
                }
                return Err(e);
            },
        };
        let ghost done2 = mv.answers + mv.authority;
        let pos = match encode_section(&self.additional, out, pos, ctx, Ghost(eq), Ghost(p0), Ghost(o1), Ghost(done2)) {
            Ok(p) => p,
            Err(e) => {
                proof {
                    assert(done2 + mv.additional =~= wire_records(mv).take((done2.len() + mv.additional.len()) as int));
                    lemma_wire_records_prefix(eq, mv, p0, (done2.len() + mv.additional.len()) as int);
                }
                return Err(e);
            },
        };
        let ghost done3 = done2 + mv.additional;
        match &self.edns {
            Some(edns) => {
                let opt = edns_to_opt(edns);
                let mut one: Vec<ResourceRecord> = Vec::new();
                one.push(opt);
                proof {
                    assert(record_views(one@) =~= seq![edns_opt_record(edns_view(*edns))]);
                    assert(done3 + record_views(one@) =~= wire_records(mv));
                }
                encode_section(&one, out, pos, ctx, Ghost(eq), Ghost(p0), Ghost(o1), Ghost(done3))
            },
            None => {
                proof {
                    assert(wire_records(mv) =~= done3);
                }
                Ok(pos)
            },
        }
    }
}

proof fn lemma_wire_records_prefix(eq: Suffixes, mv: MessageV, p0: int, i: int)
    requires
        0 <= i <= wire_records(mv).len(),
    ensures
        ({
            let (bi, ei, oki) = records_bytes(eq, wire_records(mv).take(i), p0);
            let (b, e, ok) = records_bytes(eq, wire_records(mv), p0);
            &&& bi.len() <= b.len()
            &&& ok ==> oki
        }),
{
    lemma_records_bytes_prefix(eq, wire_records(mv), p0, i);
}

} // verus!
