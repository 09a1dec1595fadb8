//! The authoritative answer path: decode a query, find the most specific zone
//! containing the name, answer from its RRset (or NODATA / NXDOMAIN with the
//! SOA), and encode with compression, truncating UDP answers that exceed the
//! client's limit.
use crate::metrics::{qtype_label, rcode_label, Proto, QTypeLabel, QueryLabels, RcodeLabel};
use crate::wire::compress::{compress_bytes, lemma_compress_cap, unbounded_cap};
use crate::wire::header::{Flags, Header, RCode};
use crate::wire::message::{
    decode_message, message_bytes, message_encodable, message_view, questions_bytes, records_bytes, record_views,
    wire_records, Edns, EdnsV, Message, MessageV,
};
use crate::wire::name::{labels_sum, lower_labels, name_wf, Name};
use crate::wire::question::{question_view, QType, Question};
use crate::wire::rr::{record_view, RecordV, ResourceRecord};
use crate::wire::{HEADER_LEN, MAX_UDP_MESSAGE_SIZE};
use crate::zone::registry::{zone_for_spec, ZoneRegistry};
use crate::zone::Zone;
use vstd::prelude::*;

verus! {

/// Size of the buffer a response is first encoded into.
pub const RESPONSE_BUFFER: usize = 4096;

/// The response header before the answer is known: the query's header with
/// QR set and AA, RA cleared.
pub open spec fn base_header(q: Header) -> Header {
    Header { flags: Flags { qr: true, aa: false, ra: false, ..q.flags }, ..q }
}

/// The types probed to tell NODATA from NXDOMAIN.
pub open spec fn probe_types() -> Seq<u16> {
    seq![1u16, 28u16, 2u16, 5u16, 15u16, 16u16, 6u16, 33u16, 12u16, 257u16]
}

/// Some RRset of a probed type exists at `owner` in `z`.
pub open spec fn name_exists(z: Zone, owner: Seq<Seq<u8>>) -> bool {
    exists|i: int| 0 <= i < 10 && #[trigger] z.index().contains_key((lower_labels(owner), probe_types()[i]))
}

/// The response to `q` from the zones `zs`.
pub open spec fn answer_spec(q: MessageV, zs: Seq<Zone>) -> MessageV {
    let h = base_header(q.header);
    let empty = MessageV {
        header: h,
        questions: seq![],
        answers: seq![],
        authority: seq![],
        additional: seq![],
        edns: None,
    };
    if q.questions.len() == 0 {
        MessageV { header: Header { rcode: RCode::FormErr, ..h }, ..empty }
    } else {
        let qq = q.questions[0];
        let with_q = MessageV { questions: seq![qq], ..empty };
        if qq.2 != 1 {
            MessageV { header: Header { rcode: RCode::NotImp, ..h }, ..with_q }
        } else {
            match zone_for_spec(zs, qq.0) {
                None => MessageV { header: Header { rcode: RCode::Refused, ..h }, ..with_q },
                Some(i) => {
                    let z = zs[i];
                    let ha = Header { flags: Flags { aa: true, ..h.flags }, ..h };
                    let k = (lower_labels(qq.0), qq.1);
                    if z.index().contains_key(k) {
                        MessageV { header: Header { rcode: RCode::NoError, ..ha }, answers: z.index()[k], ..with_q }
                    } else {
                        MessageV {
                            header: Header {
                                rcode: if name_exists(z, qq.0) {
                                    RCode::NoError
                                } else {
                                    RCode::NxDomain
                                },
                                ..ha
                            },
                            authority: seq![z.soa_v()],
                            ..with_q
                        }
                    }
                },
            }
        }
    }
}

fn copy_records(v: &[ResourceRecord]) -> (r: Vec<ResourceRecord>)
    ensures
        record_views(r@) == record_views(v@),
{
    let mut out: Vec<ResourceRecord> = Vec::new();
    let mut i: usize = 0;
    while i < v.len()
        invariant
            i <= v@.len(),
            record_views(out@) == record_views(v@).take(i as int),
        decreases v@.len() - i,
    {
        let rr = v[i].clone();
        let ghost before = out@;
        out.push(rr);
        proof {
            assert(record_views(out@) =~= record_views(before).push(record_view(rr)));
            assert(record_views(v@).take(i as int + 1) =~= record_views(v@).take(i as int).push(record_view(v@[i as int])));
        }
        i = i + 1;
    }
    proof {
        assert(record_views(v@).take(i as int) =~= record_views(v@));
    }
    out
}

/// Whether `owner` has an RRset of any probed type in `zone`.
fn has_any_type(zone: &Zone, owner: &Name) -> (r: bool)
    requires
        zone.wf(),
    ensures
        r == name_exists(*zone, owner@),
{
    let types: [u16; 10] = [1, 28, 2, 5, 15, 16, 6, 33, 12, 257];
    proof {
        assert(types@ =~= probe_types());
    }
    let mut i: usize = 0;
    while i < 10
        invariant
            i <= 10,
            types@ == probe_types(),
            zone.wf(),
            forall|j: int| 0 <= j < i ==> !zone.index().contains_key((lower_labels(owner@), #[trigger] probe_types()[j])),
        decreases 10 - i,
    {
        if zone.find(owner, QType(types[i])).is_some() {
            return true;
        }
        i = i + 1;
    }
    false
}

/// Produce a response for `query`. Never fails on untrusted input.
pub fn answer(query: &Message, zones: &ZoneRegistry) -> (r: Message)
    requires
        zones.wf(),
    ensures
        message_view(r) == answer_spec(message_view(*query), zones.zones()),
{
    let ghost qv = message_view(*query);
    let mut header = query.header;
    header.flags.qr = true;
    header.flags.aa = false;
    header.flags.ra = false;
    let mut resp = Message {
        header,
        questions: Vec::new(),
        answers: Vec::new(),
        authority: Vec::new(),
        additional: Vec::new(),
        edns: None,
    };
    proof {
        assert(crate::wire::message::question_views(resp.questions@) =~= Seq::<(Seq<Seq<u8>>, u16, u16)>::empty());
        assert(record_views(resp.answers@) =~= Seq::<RecordV>::empty());
        assert(record_views(resp.authority@) =~= Seq::<RecordV>::empty());
        assert(record_views(resp.additional@) =~= Seq::<RecordV>::empty());
    }
    if query.questions.len() == 0 {
        resp.header.rcode = RCode::FormErr;
        return resp;
    }
    let q = query.questions[0].clone();
    proof {
        assert(qv.questions[0] == question_view(query.questions@[0]));
    }
    resp.questions.push(q.clone());
    proof {
        assert(crate::wire::message::question_views(resp.questions@) =~= seq![question_view(q)]);
    }
    if q.qclass.0 != 1 {
        resp.header.rcode = RCode::NotImp;
        return resp;
    }
    let zone = match zones.zone_for(&q.qname) {
        Some(z) => z,
        None => {
            resp.header.rcode = RCode::Refused;
            return resp;
        },
    };
    proof {
        let i = zone_for_spec(zones.zones(), q.qname@).unwrap();
        crate::zone::registry::lemma_zone_wf_at(zones, i);
    }
    resp.header.flags.aa = true;
    match zone.find(&q.qname, q.qtype) {
        Some(records) => {
            resp.header.rcode = RCode::NoError;
            resp.answers = copy_records(records);
        },
        None => {
            let any = has_any_type(zone, &q.qname);
            resp.header.rcode = if any {
                RCode::NoError
            } else {
                RCode::NxDomain
            };
            resp.authority.push(zone.soa().clone());
            proof {
                assert(record_views(resp.authority@) =~= seq![zone.soa_v()]);
            }
        },
    }
    resp
}

// ---------------------------------------------------------------------------
// From query bytes to response bytes
// ---------------------------------------------------------------------------

/// The largest UDP response the client accepts: its EDNS payload size (at
/// least 512), or 512 without EDNS.
pub open spec fn udp_limit_spec(q: MessageV) -> int {
    match q.edns {
        Some(e) => if e.udp_payload_size < 512 {
            512
        } else {
            e.udp_payload_size as int
        },
        None => MAX_UDP_MESSAGE_SIZE as int,
    }
}

/// The largest UDP response `query`'s sender accepts.
pub fn udp_limit(query: &Message) -> (r: usize)
    ensures
        r == udp_limit_spec(message_view(*query)),
{
    match &query.edns {
        Some(e) => if e.udp_payload_size < 512 {
            512
        } else {
            e.udp_payload_size as usize
        },
        None => MAX_UDP_MESSAGE_SIZE,
    }
}

/// The truncated form of a response: TC set, record sections dropped.
pub open spec fn truncated_spec(m: MessageV) -> MessageV {
    MessageV {
        header: Header { flags: Flags { tc: true, ..m.header.flags }, ..m.header },
        answers: seq![],
        authority: seq![],
        additional: seq![],
        ..m
    }
}

/// The minimal SERVFAIL response to `q`: its id, QR, and its first question.
pub open spec fn servfail_spec(q: MessageV) -> MessageV {
    let d = crate::wire::header::default_header();
    MessageV {
        header: Header {
            id: q.header.id,
            flags: Flags { qr: true, ..d.flags },
            rcode: RCode::ServFail,
            qdcount: if q.questions.len() > 0 {
                1
            } else {
                0
            },
            ..d
        },
        questions: if q.questions.len() > 0 {
            seq![q.questions[0]]
        } else {
            seq![]
        },
        answers: seq![],
        authority: seq![],
        additional: seq![],
        edns: None,
    }
}

/// What the data plane sends back for `b` received over `proto`, and the
/// labels the query is counted under (none for a malformed query, which is
/// dropped): the answer, encoded; over UDP, the truncated answer if the full
/// one exceeds the client's limit; SERVFAIL if the answer cannot be encoded
/// in the response buffer.
pub open spec fn respond_spec(b: Seq<u8>, zs: Seq<Zone>, proto: Proto) -> (Seq<u8>, Option<QueryLabels>) {
    match decode_message(b) {
        Err(_) => (seq![], None),
        Ok(q) => {
            let resp = answer_spec(q, zs);
            let labels = QueryLabels {
                proto,
                qtype: if q.questions.len() > 0 {
                    qtype_label(q.questions[0].1)
                } else {
                    QTypeLabel::Other
                },
                rcode: rcode_label(resp.header.rcode),
            };
            let mb = message_bytes(resp);
            let bytes = if message_encodable(resp) && mb.len() <= RESPONSE_BUFFER {
                if proto == Proto::Udp && mb.len() > udp_limit_spec(q) {
                    message_bytes(truncated_spec(resp))
                } else {
                    mb
                }
            } else {
                message_bytes(servfail_spec(q))
            };
            (bytes, Some(labels))
        },
    }
}

/// A response to send, and the labels to count it under (`None`: the query
/// was malformed and is dropped).
pub struct Response {
    pub bytes: Vec<u8>,
    pub labels: Option<QueryLabels>,
}

/// A message with at most one question, whose name is well-formed, and no
/// records fits a 512-byte UDP response.
pub proof fn lemma_small_message_fits(m: MessageV)
    requires
        m.questions.len() <= 1,
        m.answers.len() == 0,
        m.authority.len() == 0,
        m.additional.len() == 0,
        m.edns is None,
        forall|i: int| 0 <= i < m.questions.len() ==> name_wf(#[trigger] m.questions[i].0),
    ensures
        message_encodable(m),
        message_bytes(m).len() <= MAX_UDP_MESSAGE_SIZE,
{
    assert(wire_records(m) =~= Seq::<RecordV>::empty());
    let (qb, eq) = questions_bytes(seq![], m.questions, HEADER_LEN as int);
    if m.questions.len() == 1 {
        let q = m.questions[0];
        assert(name_wf(q.0));
        assert(m.questions.drop_last() =~= Seq::<(Seq<Seq<u8>>, u16, u16)>::empty());
        lemma_compress_cap(seq![], q.0, HEADER_LEN as int, 0, unbounded_cap());
        let e: Seq<(Seq<Seq<u8>>, u16)> = seq![];
        assert(questions_bytes(e, m.questions.drop_last(), HEADER_LEN as int) == (Seq::<u8>::empty(), e));
        assert(m.questions.last() == q);
        let (nb, e1) = compress_bytes(e, q.0, HEADER_LEN as int);
        assert(nb.len() <= labels_sum(q.0) + 1);
        assert(qb.len() == nb.len() + 4);
    } else {
        assert(qb.len() == 0);
    }
    assert(crate::wire::header::header_bytes(crate::wire::message::wire_header(m)).len() == 12);
    assert(records_bytes(eq, Seq::<RecordV>::empty(), HEADER_LEN + qb.len()) == (Seq::<u8>::empty(), eq, true));
}

fn copy_question(q: &Question) -> (r: Question)
    ensures
        question_view(r) == question_view(*q),
{
    q.clone()
}

/// Answer the query in `query_bytes` received over `proto`.
#[verifier::rlimit(60)]
pub fn respond(query_bytes: &[u8], zones: &ZoneRegistry, proto: Proto) -> (r: Response)
    requires
        zones.wf(),
    ensures
        (r.bytes@, r.labels) == respond_spec(query_bytes@, zones.zones(), proto),
{
    let query = match Message::decode(query_bytes) {
        Ok(q) => q,
        Err(_) => return Response { bytes: Vec::new(), labels: None },
    };
    let ghost qv = message_view(query);
    let resp = answer(&query, zones);
    let ghost rv = message_view(resp);
    let qtype = if query.questions.len() > 0 {
        QTypeLabel::from_wire(query.questions[0].qtype)
    } else {
        QTypeLabel::Other
    };
    proof {
        if query.questions@.len() > 0 {
            assert(qv.questions[0] == question_view(query.questions@[0]));
        }
    }
    let labels = QueryLabels { proto, qtype, rcode: RcodeLabel::from_rcode(resp.header.rcode) };
    let mut buf = vec![0u8; RESPONSE_BUFFER];
    match resp.encode(&mut buf) {
        Ok(n) => {
            let is_udp = match proto {
                Proto::Udp => true,
                Proto::Tcp => false,
            };
            if is_udp && n > udp_limit(&query) {
                let mut tc_header = resp.header;
                tc_header.flags.tc = true;
                let mut qs: Vec<Question> = Vec::new();
                if resp.questions.len() > 0 {
                    qs.push(copy_question(&resp.questions[0]));
                }
                proof {
                    assert(resp.questions@.len() <= 1);
                    if resp.questions@.len() == 1 {
                        assert(crate::wire::message::question_views(qs@) =~= crate::wire::message::question_views(
                            resp.questions@,
                        ));
                    } else {
                        assert(crate::wire::message::question_views(qs@) =~= crate::wire::message::question_views(
                            resp.questions@,
                        ));
                    }
                }
                let tc = Message {
                    header: tc_header,
                    questions: qs,
                    answers: Vec::new(),
                    authority: Vec::new(),
                    additional: Vec::new(),
                    edns: None,
                };
                if tc.questions.len() == 1 {
                    let qn = &tc.questions[0].qname;
                    proof {
                        use_type_invariant(qn);
                        Name::lemma_inv(*qn);
                    }
                }
                proof {
                    assert(record_views(tc.answers@) =~= Seq::<RecordV>::empty());
                    assert(record_views(tc.authority@) =~= Seq::<RecordV>::empty());
                    assert(record_views(tc.additional@) =~= Seq::<RecordV>::empty());
                    assert(message_view(tc) == truncated_spec(rv));
                    if tc.questions@.len() == 1 {
                        assert(message_view(tc).questions[0] == question_view(tc.questions@[0]));
                    }
                    lemma_small_message_fits(message_view(tc));
                }
                let mut small = vec![0u8; MAX_UDP_MESSAGE_SIZE];
                let m = match tc.encode(&mut small) {
                    Ok(m) => m,
                    Err(_) => 0,
                };
                small.truncate(m);
                proof {
                    assert(small@ =~= message_bytes(truncated_spec(rv)));
                }
                return Response { bytes: small, labels: Some(labels) };
            }
            buf.truncate(n);
            proof {
                assert(buf@ =~= message_bytes(rv));
            }
            Response { bytes: buf, labels: Some(labels) }
        },
        Err(_) => {
            let mut hdr = Header::default();
            hdr.id = query.header.id;
            hdr.flags.qr = true;
            hdr.rcode = RCode::ServFail;
            hdr.qdcount = if query.questions.len() > 0 {
                1
            } else {
                0
            };
            let mut qs: Vec<Question> = Vec::new();
            if query.questions.len() > 0 {
                qs.push(copy_question(&query.questions[0]));
            }
            let msg = Message {
                header: hdr,
                questions: qs,
                answers: Vec::new(),
                authority: Vec::new(),
                additional: Vec::new(),
                edns: None,
            };
            if msg.questions.len() > 0 {
                let qn = &msg.questions[0].qname;
                proof {
                    use_type_invariant(qn);
                    Name::lemma_inv(*qn);
                }
            }
            proof {
                assert(record_views(msg.answers@) =~= Seq::<RecordV>::empty());
                assert(record_views(msg.authority@) =~= Seq::<RecordV>::empty());
                assert(record_views(msg.additional@) =~= Seq::<RecordV>::empty());
                if query.questions@.len() > 0 {
                    assert(crate::wire::message::question_views(msg.questions@) =~= seq![qv.questions[0]]);
                } else {
                    assert(crate::wire::message::question_views(msg.questions@) =~= Seq::<(Seq<Seq<u8>>, u16, u16)>::empty());
                }
                assert(message_view(msg) == servfail_spec(qv));
                lemma_small_message_fits(message_view(msg));
            }
            let mut out = vec![0u8; MAX_UDP_MESSAGE_SIZE];
            let n = match msg.encode(&mut out) {
                Ok(n) => n,
                Err(_) => 12,
            };
            out.truncate(n);
            proof {
                assert(out@ =~= message_bytes(servfail_spec(qv)));
            }
            Response { bytes: out, labels: Some(labels) }
        },
    }
}

/// Length of the DNS message that follows a TCP length prefix (RFC 7766:
/// two bytes, big-endian).
pub fn tcp_message_len(prefix: [u8; 2]) -> (r: usize)
    ensures
        r == prefix[0] as int * 256 + prefix[1] as int,
{
    (prefix[0] as usize) * 256 + (prefix[1] as usize)
}

/// A response framed for TCP: its length in two big-endian bytes, then the
/// response; `None` when it does not fit a 16-bit length.
pub fn tcp_frame(resp: &[u8]) -> (r: Option<Vec<u8>>)
    ensures
        resp@.len() > 65535 ==> r.is_none(),
        resp@.len() <= 65535 ==> (r matches Some(f) && f@ == seq![(resp@.len() / 256) as u8, (resp@.len() % 256) as u8]
            + resp@),
{
    let n = resp.len();
    if n > 65535 {
        return None;
    }
    let mut out: Vec<u8> = Vec::new();
    out.push((n / 256) as u8);
    out.push((n % 256) as u8);
    crate::text::push_bytes(&mut out, resp);
    proof {
        assert(out@ =~= seq![(resp@.len() / 256) as u8, (resp@.len() % 256) as u8] + resp@);
    }
    Some(out)
}


/// The EDNS payload size sets the UDP limit: for a query over UDP whose EDNS
/// advertises `p >= 512` bytes, an encodable answer of at most `p` bytes is
/// sent whole, and only a longer one is truncated. Without EDNS, or with a
/// smaller advertised size, the limit is 512 bytes.
pub proof fn lemma_udp_limit_follows_edns(b: Seq<u8>, zs: Seq<Zone>)
    requires
        decode_message(b) is Ok,
    ensures
        ({
            let q = decode_message(b)->Ok_0;
            let resp = answer_spec(q, zs);
            let mb = message_bytes(resp);
            let sent = respond_spec(b, zs, Proto::Udp).0;
            let fits = message_encodable(resp) && mb.len() <= RESPONSE_BUFFER;
            &&& (fits && q.edns is Some && q.edns->Some_0.udp_payload_size >= 512 && mb.len()
                <= q.edns->Some_0.udp_payload_size) ==> sent == mb
            &&& (fits && q.edns is Some && q.edns->Some_0.udp_payload_size >= 512 && mb.len()
                > q.edns->Some_0.udp_payload_size) ==> sent == message_bytes(truncated_spec(resp))
            &&& (fits && q.edns is Some && q.edns->Some_0.udp_payload_size < 512 && mb.len() <= 512) ==> sent == mb
            &&& (fits && q.edns is Some && q.edns->Some_0.udp_payload_size < 512 && mb.len() > 512) ==> sent
                == message_bytes(truncated_spec(resp))
            &&& (fits && q.edns is None && mb.len() <= 512) ==> sent == mb
            &&& (fits && q.edns is None && mb.len() > 512) ==> sent == message_bytes(truncated_spec(resp))
        }),
{
}

/// NXDOMAIN only for names that do not exist: when the zone that answers an
/// IN query holds an RRset of type A, AAAA, NS, CNAME, MX, TXT, SOA, SRV, PTR
/// or CAA at the query name, the answer's rcode is NOERROR, whether or not
/// the queried type is there.
pub proof fn lemma_existing_name_not_nxdomain(q: MessageV, zs: Seq<Zone>, t: u16)
    requires
        q.questions.len() > 0,
        q.questions[0].2 == 1,
        zone_for_spec(zs, q.questions[0].0) is Some,
        t == 1 || t == 28 || t == 2 || t == 5 || t == 15 || t == 16 || t == 6 || t == 33 || t == 12 || t == 257,
        zs[zone_for_spec(zs, q.questions[0].0)->Some_0].index().contains_key((lower_labels(q.questions[0].0), t)),
    ensures
        answer_spec(q, zs).header.rcode == RCode::NoError,
{
    let z = zs[zone_for_spec(zs, q.questions[0].0)->Some_0];
    let ol = lower_labels(q.questions[0].0);
    let k = (ol, q.questions[0].1);
    if !z.index().contains_key(k) {
        let j: int = if t == 1 {
            0
        } else if t == 28 {
            1
        } else if t == 2 {
            2
        } else if t == 5 {
            3
        } else if t == 15 {
            4
        } else if t == 16 {
            5
        } else if t == 6 {
            6
        } else if t == 33 {
            7
        } else if t == 12 {
            8
        } else {
            9
        };
        assert(probe_types()[j] == t);
        assert(name_exists(z, q.questions[0].0));
    }
}

} // verus!
