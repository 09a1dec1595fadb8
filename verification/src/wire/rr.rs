//! Resource records (RFC 1035 §3.2 / §4.1.3).
//!
//! ```text
//! NAME (compressed) | TYPE u16 | CLASS u16 | TTL u32 | RDLENGTH u16 | RDATA
//! ```
//!
//! Unknown types are preserved verbatim so that records we do not interpret can
//! still be carried.
use super::name::{copy_bytes, decode_name, label_views, Name};
use super::question::{lemma_decode_name_end_bound, QClass, QType};
use super::{be16_at, be32_at, read_be16, read_be32, ParseError};
use vstd::prelude::*;

verus! {

/// SOA RDATA (RFC 1035 §3.3.13).
#[derive(Debug, PartialEq, Eq)]
pub struct Soa {
    pub mname: Name,
    pub rname: Name,
    pub serial: u32,
    pub refresh: u32,
    pub retry: u32,
    pub expire: u32,
    pub minimum: u32,
}

/// RDATA — the per-type data portion of a resource record.
///
/// Addresses are held as their octets (`A` in network order, `AAAA` likewise).
#[derive(Debug, PartialEq, Eq)]
pub enum RData {
    A([u8; 4]),
    Aaaa([u8; 16]),
    Ns(Name),
    Cname(Name),
    Ptr(Name),
    Mx { preference: u16, exchange: Name },
    Txt(Vec<Vec<u8>>),
    Soa(Soa),
    Srv { priority: u16, weight: u16, port: u16, target: Name },
    Caa { flags: u8, tag: Vec<u8>, value: Vec<u8> },
    Unknown { rtype: QType, data: Vec<u8> },
}

/// A DNS resource record.
#[derive(Debug, PartialEq, Eq)]
pub struct ResourceRecord {
    pub name: Name,
    pub class: QClass,
    pub ttl: u32,
    pub data: RData,
}

/// Abstract SOA data.
pub struct SoaV {
    pub mname: Seq<Seq<u8>>,
    pub rname: Seq<Seq<u8>>,
    pub serial: u32,
    pub refresh: u32,
    pub retry: u32,
    pub expire: u32,
    pub minimum: u32,
}

/// Abstract RDATA: byte strings and label sequences in place of vectors and names.
pub enum RDataV {
    A(Seq<u8>),
    Aaaa(Seq<u8>),
    Ns(Seq<Seq<u8>>),
    Cname(Seq<Seq<u8>>),
    Ptr(Seq<Seq<u8>>),
    Mx { preference: u16, exchange: Seq<Seq<u8>> },
    Txt(Seq<Seq<u8>>),
    Soa(SoaV),
    Srv { priority: u16, weight: u16, port: u16, target: Seq<Seq<u8>> },
    Caa { flags: u8, tag: Seq<u8>, value: Seq<u8> },
    Unknown { rtype: u16, data: Seq<u8> },
}

/// Abstract resource record.
pub struct RecordV {
    pub name: Seq<Seq<u8>>,
    pub class: u16,
    pub ttl: u32,
    pub data: RDataV,
}

pub open spec fn soa_view(s: Soa) -> SoaV {
    SoaV {
        mname: s.mname@,
        rname: s.rname@,
        serial: s.serial,
        refresh: s.refresh,
        retry: s.retry,
        expire: s.expire,
        minimum: s.minimum,
    }
}

pub open spec fn rdata_view(d: RData) -> RDataV {
    match d {
        RData::A(o) => RDataV::A(o@),
        RData::Aaaa(o) => RDataV::Aaaa(o@),
        RData::Ns(n) => RDataV::Ns(n@),
        RData::Cname(n) => RDataV::Cname(n@),
        RData::Ptr(n) => RDataV::Ptr(n@),
        RData::Mx { preference, exchange } => RDataV::Mx { preference, exchange: exchange@ },
        RData::Txt(v) => RDataV::Txt(label_views(v@)),
        RData::Soa(s) => RDataV::Soa(soa_view(s)),
        RData::Srv { priority, weight, port, target } => RDataV::Srv { priority, weight, port, target: target@ },
        RData::Caa { flags, tag, value } => RDataV::Caa { flags, tag: tag@, value: value@ },
        RData::Unknown { rtype, data } => RDataV::Unknown { rtype: rtype.0, data: data@ },
    }
}

pub open spec fn record_view(r: ResourceRecord) -> RecordV {
    RecordV { name: r.name@, class: r.class.0, ttl: r.ttl, data: rdata_view(r.data) }
}

/// The TYPE of abstract RDATA.
pub open spec fn rdata_type(d: RDataV) -> u16 {
    match d {
        RDataV::A(_) => 1,
        RDataV::Aaaa(_) => 28,
        RDataV::Ns(_) => 2,
        RDataV::Cname(_) => 5,
        RDataV::Ptr(_) => 12,
        RDataV::Mx { .. } => 15,
        RDataV::Txt(_) => 16,
        RDataV::Soa(_) => 6,
        RDataV::Srv { .. } => 33,
        RDataV::Caa { .. } => 257,
        RDataV::Unknown { rtype, .. } => rtype,
    }
}

impl RData {
    /// The record TYPE implied by the variant.
    pub fn rtype(&self) -> (r: QType)
        ensures
            r.0 == rdata_type(rdata_view(*self)),
    {
        match self {
            RData::A(_) => QType(1),
            RData::Aaaa(_) => QType(28),
            RData::Ns(_) => QType(2),
            RData::Cname(_) => QType(5),
            RData::Ptr(_) => QType(12),
            RData::Mx { .. } => QType(15),
            RData::Txt(_) => QType(16),
            RData::Soa(_) => QType(6),
            RData::Srv { .. } => QType(33),
            RData::Caa { .. } => QType(257),
            RData::Unknown { rtype, .. } => *rtype,
        }
    }
}

impl ResourceRecord {
    /// Convenience: the `TYPE` derived from the RDATA variant.
    pub fn rtype(&self) -> (r: QType)
        ensures
            r.0 == rdata_type(rdata_view(self.data)),
    {
        self.data.rtype()
    }
}

/// Length-prefixed character strings of a TXT RDATA `s`, from index `i` on.
pub open spec fn decode_txt_from(s: Seq<u8>, i: int) -> Result<Seq<Seq<u8>>, ParseError>
    decreases s.len() - i,
{
    if i < 0 || i >= s.len() {
        Ok(seq![])
    } else {
        let len = s[i] as int;
        if i + 1 + len > s.len() {
            Err(ParseError::UnexpectedEof { offset: i as usize, context: "TXT string" })
        } else {
            match decode_txt_from(s, i + 1 + len) {
                Ok(rest) => Ok(seq![s.subrange(i + 1, i + 1 + len)] + rest),
                Err(e) => Err(e),
            }
        }
    }
}

/// SOA RDATA in `buf[start..end]` (names may point anywhere before them).
pub open spec fn decode_soa_spec(buf: Seq<u8>, start: int, end: int) -> Result<SoaV, ParseError> {
    match decode_name(buf, start) {
        Err(e) => Err(e),
        Ok((mname, p1)) => match decode_name(buf, p1) {
            Err(e) => Err(e),
            Ok((rname, p2)) => if p2 + 20 > end {
                Err(ParseError::UnexpectedEof { offset: p2 as usize, context: "SOA fixed fields" })
            } else {
                Ok(
                    SoaV {
                        mname,
                        rname,
                        serial: be32_at(buf, p2),
                        refresh: be32_at(buf, p2 + 4),
                        retry: be32_at(buf, p2 + 8),
                        expire: be32_at(buf, p2 + 12),
                        minimum: be32_at(buf, p2 + 16),
                    },
                )
            },
        },
    }
}

/// RDATA of type `rtype` held in `buf[start..end]`, or the decoding error.
pub open spec fn decode_rdata(rtype: u16, buf: Seq<u8>, start: int, end: int) -> Result<RDataV, ParseError> {
    let slice = buf.subrange(start, end);
    if rtype == 1 {
        if slice.len() != 4 {
            Err(ParseError::UnexpectedEof { offset: start as usize, context: "A rdata length" })
        } else {
            Ok(RDataV::A(slice))
        }
    } else if rtype == 28 {
        if slice.len() != 16 {
            Err(ParseError::UnexpectedEof { offset: start as usize, context: "AAAA rdata length" })
        } else {
            Ok(RDataV::Aaaa(slice))
        }
    } else if rtype == 2 || rtype == 5 || rtype == 12 {
        match decode_name(buf, start) {
            Err(e) => Err(e),
            Ok((n, _)) => Ok(
                if rtype == 2 {
                    RDataV::Ns(n)
                } else if rtype == 5 {
                    RDataV::Cname(n)
                } else {
                    RDataV::Ptr(n)
                },
            ),
        }
    } else if rtype == 15 {
        if slice.len() < 3 {
            Err(ParseError::UnexpectedEof { offset: start as usize, context: "MX" })
        } else {
            match decode_name(buf, start + 2) {
                Err(e) => Err(e),
                Ok((n, _)) => Ok(RDataV::Mx { preference: be16_at(slice, 0), exchange: n }),
            }
        }
    } else if rtype == 16 {
        match decode_txt_from(slice, 0) {
            Err(e) => Err(e),
            Ok(ss) => Ok(RDataV::Txt(ss)),
        }
    } else if rtype == 6 {
        match decode_soa_spec(buf, start, end) {
            Err(e) => Err(e),
            Ok(s) => Ok(RDataV::Soa(s)),
        }
    } else if rtype == 33 {
        if slice.len() < 7 {
            Err(ParseError::UnexpectedEof { offset: start as usize, context: "SRV" })
        } else {
            match decode_name(buf, start + 6) {
                Err(e) => Err(e),
                Ok((n, _)) => Ok(
                    RDataV::Srv {
                        priority: be16_at(slice, 0),
                        weight: be16_at(slice, 2),
                        port: be16_at(slice, 4),
                        target: n,
                    },
                ),
            }
        }
    } else if rtype == 257 {
        if slice.len() < 2 {
            Err(ParseError::UnexpectedEof { offset: start as usize, context: "CAA" })
        } else if slice.len() < 2 + slice[1] as int {
            Err(ParseError::UnexpectedEof { offset: start as usize, context: "CAA tag" })
        } else {
            Ok(
                RDataV::Caa {
                    flags: slice[0],
                    tag: slice.subrange(2, 2 + slice[1] as int),
                    value: slice.subrange(2 + slice[1] as int, slice.len() as int),
                },
            )
        }
    } else {
        Ok(RDataV::Unknown { rtype, data: slice })
    }
}

/// The record at `offset` in `buf` and the offset just past it, or the error.
pub open spec fn decode_record(buf: Seq<u8>, offset: int) -> Result<(RecordV, int), ParseError> {
    match decode_name(buf, offset) {
        Err(e) => Err(e),
        Ok((name, pos)) => if pos + 10 > buf.len() {
            Err(ParseError::UnexpectedEof { offset: pos as usize, context: "RR header" })
        } else {
            let rtype = be16_at(buf, pos);
            let class = be16_at(buf, pos + 2);
            let ttl = be32_at(buf, pos + 4);
            let rdlength = be16_at(buf, pos + 8) as int;
            if pos + 10 + rdlength > buf.len() {
                Err(ParseError::UnexpectedEof { offset: (pos + 10) as usize, context: "RR rdata" })
            } else {
                match decode_rdata(rtype, buf, pos + 10, pos + 10 + rdlength) {
                    Err(e) => Err(e),
                    Ok(data) => Ok((RecordV { name, class, ttl, data }, pos + 10 + rdlength)),
                }
            }
        },
    }
}

/// Decode the character strings of TXT RDATA.
pub fn decode_txt(slice: &[u8]) -> (r: Result<Vec<Vec<u8>>, ParseError>)
    ensures
        match decode_txt_from(slice@, 0) {
            Ok(ss) => r matches Ok(v) && label_views(v@) == ss,
            Err(e) => r == Err::<Vec<Vec<u8>>, ParseError>(e),
        },
{
    let ghost s = slice@;
    let ghost target = decode_txt_from(s, 0);
    let mut strings: Vec<Vec<u8>> = Vec::new();
    let mut i: usize = 0;
    proof {
        assert(label_views(strings@) =~= Seq::<Seq<u8>>::empty());
    }
    while i < slice.len()
        invariant
            0 <= i <= s.len(),
            s == slice@,
            target == decode_txt_from(s, 0),
            match decode_txt_from(s, i as int) {
                Ok(rest) => target == Ok::<Seq<Seq<u8>>, ParseError>(label_views(strings@) + rest),
                Err(e) => target == Err::<Seq<Seq<u8>>, ParseError>(e),
            },
        decreases s.len() - i,
    {
        let len = slice[i] as usize;
        if len >= slice.len() - i {
            return Err(ParseError::UnexpectedEof { offset: i, context: "TXT string" });
        }
        let ghost before = label_views(strings@);
        strings.push(copy_bytes(vstd::slice::slice_subrange(slice, i + 1, i + 1 + len)));
        proof {
            let piece = s.subrange(i + 1, i + 1 + len);
            assert(label_views(strings@) =~= before.push(piece));
            match decode_txt_from(s, i + 1 + len) {
                Ok(rest) => {
                    assert(before + (seq![piece] + rest) =~= before.push(piece) + rest);
                },
                Err(_) => {},
            }
        }
        i = i + 1 + len;
    }
    proof {
        assert(label_views(strings@) + Seq::<Seq<u8>>::empty() =~= label_views(strings@));
    }
    Ok(strings)
}

/// Decode SOA RDATA in `buf[start..end]`.
pub fn decode_soa(buf: &[u8], start: usize, end: usize) -> (r: Result<Soa, ParseError>)
    requires
        end <= buf@.len(),
    ensures
        match decode_soa_spec(buf@, start as int, end as int) {
            Ok(s) => r matches Ok(v) && soa_view(v) == s,
            Err(e) => r == Err::<Soa, ParseError>(e),
        },
{
    let (mname, p1) = match Name::decode(buf, start) {
        Ok(v) => v,
        Err(e) => return Err(e),
    };
    let (rname, p2) = match Name::decode(buf, p1) {
        Ok(v) => v,
        Err(e) => return Err(e),
    };
    if p2 > end || end - p2 < 20 {
        return Err(ParseError::UnexpectedEof { offset: p2, context: "SOA fixed fields" });
    }
    Ok(Soa {
        mname,
        rname,
        serial: read_be32(buf, p2),
        refresh: read_be32(buf, p2 + 4),
        retry: read_be32(buf, p2 + 8),
        expire: read_be32(buf, p2 + 12),
        minimum: read_be32(buf, p2 + 16),
    })
}

impl RData {
    /// Decode RDATA of type `rtype` held in `buf[start..end]`.
    pub fn decode(rtype: QType, buf: &[u8], start: usize, end: usize) -> (r: Result<Self, ParseError>)
        requires
            start <= end <= buf@.len(),
        ensures
            match decode_rdata(rtype.0, buf@, start as int, end as int) {
                Ok(d) => r matches Ok(v) && rdata_view(v) == d,
                Err(e) => r == Err::<RData, ParseError>(e),
            },
    {
        let slice = vstd::slice::slice_subrange(buf, start, end);
        let t = rtype.0;
        if t == 1 {
            if slice.len() != 4 {
                return Err(ParseError::UnexpectedEof { offset: start, context: "A rdata length" });
            }
            let o = [slice[0], slice[1], slice[2], slice[3]];
            proof {
                assert(o@ =~= slice@);
            }
            Ok(RData::A(o))
        } else if t == 28 {
            if slice.len() != 16 {
                return Err(ParseError::UnexpectedEof { offset: start, context: "AAAA rdata length" });
            }
            let o = [
                slice[0],
                slice[1],
                slice[2],
                slice[3],
                slice[4],
                slice[5],
                slice[6],
                slice[7],
                slice[8],
                slice[9],
                slice[10],
                slice[11],
                slice[12],
                slice[13],
                slice[14],
                slice[15],
            ];
            proof {
                assert(o@ =~= slice@);
            }
            Ok(RData::Aaaa(o))
        } else if t == 2 || t == 5 || t == 12 {
            let (n, _) = match Name::decode(buf, start) {
                Ok(v) => v,
                Err(e) => return Err(e),
            };
            if t == 2 {
                Ok(RData::Ns(n))
            } else if t == 5 {
                Ok(RData::Cname(n))
            } else {
                Ok(RData::Ptr(n))
            }
        } else if t == 15 {
            if slice.len() < 3 {
                return Err(ParseError::UnexpectedEof { offset: start, context: "MX" });
            }
            let preference = read_be16(slice, 0);
            let (exchange, _) = match Name::decode(buf, start + 2) {
                Ok(v) => v,
                Err(e) => return Err(e),
            };
            Ok(RData::Mx { preference, exchange })
        } else if t == 16 {
            match decode_txt(slice) {
                Ok(ss) => Ok(RData::Txt(ss)),
                Err(e) => Err(e),
            }
        } else if t == 6 {
            match decode_soa(buf, start, end) {
                Ok(s) => Ok(RData::Soa(s)),
                Err(e) => Err(e),
            }
        } else if t == 33 {
            if slice.len() < 7 {
                return Err(ParseError::UnexpectedEof { offset: start, context: "SRV" });
            }
            let priority = read_be16(slice, 0);
            let weight = read_be16(slice, 2);
            let port = read_be16(slice, 4);
            let (target, _) = match Name::decode(buf, start + 6) {
                Ok(v) => v,
                Err(e) => return Err(e),
            };
            Ok(RData::Srv { priority, weight, port, target })
        } else if t == 257 {
            if slice.len() < 2 {
                return Err(ParseError::UnexpectedEof { offset: start, context: "CAA" });
            }
            let flags = slice[0];
            let tag_len = slice[1] as usize;
            if slice.len() - 2 < tag_len {
                return Err(ParseError::UnexpectedEof { offset: start, context: "CAA tag" });
            }
            let tag = copy_bytes(vstd::slice::slice_subrange(slice, 2, 2 + tag_len));
            let value = copy_bytes(vstd::slice::slice_subrange(slice, 2 + tag_len, slice.len()));
            Ok(RData::Caa { flags, tag, value })
        } else {
            Ok(RData::Unknown { rtype, data: copy_bytes(slice) })
        }
    }
}

impl ResourceRecord {
    /// Decode a single RR starting at `offset` in `buf`. Returns the RR and the
    /// next offset.
    pub fn decode(buf: &[u8], offset: usize) -> (r: Result<(Self, usize), ParseError>)
        ensures
            match decode_record(buf@, offset as int) {
                Ok((rv, end)) => r matches Ok((v, e)) && record_view(v) == rv && e == end,
                Err(err) => r == Err::<(ResourceRecord, usize), ParseError>(err),
            },
    {
        let (name, pos) = match Name::decode(buf, offset) {
            Ok(v) => v,
            Err(e) => return Err(e),
        };
        proof {
            lemma_decode_name_end_bound(buf@, offset as int, 0, 0, seq![], false, offset as int);
        }
        if pos > buf.len() || buf.len() - pos < 10 {
            return Err(ParseError::UnexpectedEof { offset: pos, context: "RR header" });
        }
        let rtype = QType(read_be16(buf, pos));
        let class = QClass(read_be16(buf, pos + 2));
        let ttl = read_be32(buf, pos + 4);
        let rdlength = read_be16(buf, pos + 8) as usize;
        let pos = pos + 10;
        if rdlength > buf.len() - pos {
            return Err(ParseError::UnexpectedEof { offset: pos, context: "RR rdata" });
        }
        let rdata_end = pos + rdlength;
        let data = match RData::decode(rtype, buf, pos, rdata_end) {
            Ok(d) => d,
            Err(e) => return Err(e),
        };
        Ok((ResourceRecord { name, class, ttl, data }, rdata_end))
    }
}

} // verus!

verus! {

use super::compress::{compress_bytes, compress_write, lemma_compress_cap, EncodeCtx};
use super::name::{labels_bytes, labels_sum, lemma_labels_bytes_len, name_bytes, wire_len_of};
use super::{be16_bytes, be32_bytes, write_be16, write_be32};

/// Every string is at most 255 bytes long.
pub open spec fn strings_fit(ss: Seq<Seq<u8>>) -> bool {
    forall|i: int| 0 <= i < ss.len() ==> (#[trigger] ss[i]).len() <= 255
}

/// Whether every length fits its one-byte prefix: TXT strings and the CAA tag
/// must be at most 255 bytes.
pub open spec fn rdata_encodable(d: RDataV) -> bool {
    match d {
        RDataV::Txt(ss) => strings_fit(ss),
        RDataV::Caa { tag, .. } => tag.len() <= 255,
        _ => true,
    }
}

/// The five 32-bit SOA counters on the wire.
pub open spec fn soa_tail_bytes(s: SoaV) -> Seq<u8> {
    be32_bytes(s.serial) + be32_bytes(s.refresh) + be32_bytes(s.retry) + be32_bytes(s.expire) + be32_bytes(
        s.minimum,
    )
}

/// The wire form of RDATA written at absolute offset `abs` with the recorded
/// suffixes `entries`, and the recorded suffixes afterwards. Names in NS, CNAME,
/// PTR, MX and SOA are compressed; the SRV target is not.
pub open spec fn rdata_bytes(entries: Seq<(Seq<Seq<u8>>, u16)>, d: RDataV, abs: int) -> (Seq<u8>, Seq<(Seq<Seq<u8>>, u16)>) {
    match d {
        RDataV::A(o) => (o, entries),
        RDataV::Aaaa(o) => (o, entries),
        RDataV::Ns(n) => compress_bytes(entries, n, abs),
        RDataV::Cname(n) => compress_bytes(entries, n, abs),
        RDataV::Ptr(n) => compress_bytes(entries, n, abs),
        RDataV::Mx { preference, exchange } => {
            let (b, e) = compress_bytes(entries, exchange, abs + 2);
            (be16_bytes(preference) + b, e)
        },
        RDataV::Txt(ss) => (labels_bytes(ss), entries),
        RDataV::Soa(s) => {
            let (m, e1) = compress_bytes(entries, s.mname, abs);
            let (r, e2) = compress_bytes(e1, s.rname, abs + m.len());
            (m + r + soa_tail_bytes(s), e2)
        },
        RDataV::Srv { priority, weight, port, target } => (
            be16_bytes(priority) + be16_bytes(weight) + be16_bytes(port) + name_bytes(target),
            entries,
        ),
        RDataV::Caa { flags, tag, value } => (seq![flags, tag.len() as u8] + tag + value, entries),
        RDataV::Unknown { data, .. } => (data, entries),
    }
}

/// What an encoder that writes `b` at `out[start..]` reports: success exactly
/// when the data is encodable (`ok`) and fits, with the bytes written and the
/// context advanced to `e`; otherwise the buffer was too small or a length did
/// not fit its prefix.
pub open spec fn encode_outcome(
    r: Result<usize, ParseError>,
    old_out: Seq<u8>,
    new_out: Seq<u8>,
    start: int,
    b: Seq<u8>,
    ok: bool,
    new_ctx: Seq<(Seq<Seq<u8>>, u16)>,
    e: Seq<(Seq<Seq<u8>>, u16)>,
) -> bool {
    &&& new_out.len() == old_out.len()
    &&& (ok && start + b.len() <= old_out.len()) ==> r == Ok::<usize, ParseError>(b.len() as usize) && new_out
        == old_out.subrange(0, start) + b + old_out.skip(start + b.len()) && new_ctx == e
    &&& r is Ok ==> ok && start + b.len() <= old_out.len()
    &&& r matches Err(err) ==> (err is OutputBufferTooSmall && start + b.len() > old_out.len()) || (!ok && (
    err is LabelTooLong || err is OutputBufferTooSmall))
}

/// `usize::saturating_add` on mathematical integers.
pub open spec fn saturating(x: int) -> usize {
    if x > usize::MAX {
        usize::MAX
    } else {
        x as usize
    }
}

/// The buffer-too-small error with these sizes.
pub open spec fn too_small(need: int, have: int) -> ParseError {
    ParseError::OutputBufferTooSmall { need: need as usize, have: have as usize }
}

/// The error writing `ls` compressed at absolute offset `abs` into `cap`
/// bytes fails with, `None` when it fits.
pub open spec fn name_fail(entries: Seq<(Seq<Seq<u8>>, u16)>, ls: Seq<Seq<u8>>, abs: int, cap: int) -> Option<
    ParseError,
> {
    match compress_write(entries, ls, abs, 0, cap).0 {
        Err(need) => Some(ParseError::OutputBufferTooSmall { need, have: cap as usize }),
        Ok(_) => None,
    }
}

/// The error TXT strings fail with when written into `cap` bytes, the
/// strings before `i` having taken `n`: the first string over 255 bytes, or
/// the first that does not fit.
pub open spec fn txt_fail(ss: Seq<Seq<u8>>, i: int, n: int, cap: int) -> Option<ParseError>
    decreases ss.len() - i,
{
    if i < 0 || i >= ss.len() {
        None
    } else if ss[i].len() > 255 {
        Some(ParseError::LabelTooLong { len: ss[i].len() as usize })
    } else if ss[i].len() >= cap - n {
        Some(ParseError::OutputBufferTooSmall { need: saturating(n + 1 + ss[i].len()), have: cap as usize })
    } else {
        txt_fail(ss, i + 1, n + 1 + ss[i].len(), cap)
    }
}

/// The error RDATA fails with when written at absolute offset `abs` into
/// `cap` bytes through a context holding `entries`; `None` when it is
/// written.
#[verifier::opaque]
pub open spec fn rdata_fail(entries: Seq<(Seq<Seq<u8>>, u16)>, d: RDataV, abs: int, cap: int) -> Option<ParseError> {
    match d {
        RDataV::A(o) => if o.len() > cap {
            Some(too_small(o.len() as int, cap))
        } else {
            None
        },
        RDataV::Aaaa(o) => if o.len() > cap {
            Some(too_small(o.len() as int, cap))
        } else {
            None
        },
        RDataV::Ns(n) => name_fail(entries, n, abs, cap),
        RDataV::Cname(n) => name_fail(entries, n, abs, cap),
        RDataV::Ptr(n) => name_fail(entries, n, abs, cap),
        RDataV::Mx { exchange, .. } => if cap < 2 {
            Some(too_small(2int, cap))
        } else {
            name_fail(entries, exchange, abs + 2, cap - 2)
        },
        RDataV::Txt(ss) => txt_fail(ss, 0, 0, cap),
        RDataV::Soa(sv) => match name_fail(entries, sv.mname, abs, cap) {
            Some(err) => Some(err),
            None => {
                let (mb, e1) = compress_bytes(entries, sv.mname, abs);
                match name_fail(e1, sv.rname, abs + mb.len(), cap - mb.len()) {
                    Some(err) => Some(err),
                    None => {
                        let (rb, e2) = compress_bytes(e1, sv.rname, abs + mb.len());
                        if cap - mb.len() - rb.len() < 20 {
                            Some(too_small(4int, cap - mb.len() - rb.len()))
                        } else {
                            None
                        }
                    },
                }
            },
        },
        RDataV::Srv { target, .. } => if cap < 6 || cap - 6 < wire_len_of(target) {
            Some(too_small(wire_len_of(target) + 6, cap))
        } else {
            None
        },
        RDataV::Caa { tag, value, .. } => if cap < 1 {
            Some(too_small(1int, cap))
        } else if tag.len() > 255 {
            Some(ParseError::LabelTooLong { len: tag.len() as usize })
        } else if cap - 1 < 1 {
            Some(too_small(1, cap - 1))
        } else if cap - 2 < tag.len() || cap - 2 - tag.len() < value.len() {
            Some(ParseError::OutputBufferTooSmall { need: saturating((tag.len() + value.len()) as int), have: (cap - 2) as usize })
        } else {
            None
        },
        RDataV::Unknown { data, .. } => if data.len() > cap {
            Some(too_small(data.len() as int, cap))
        } else {
            None
        },
    }
}

/// The error a record fails with when written at absolute offset `abs` into
/// `cap` bytes through a context holding `entries`; `None` when it is
/// written. The owner name comes first, then the fixed fields, then the
/// RDATA, whose length must fit RDLENGTH.
pub open spec fn record_fail(entries: Seq<(Seq<Seq<u8>>, u16)>, r: RecordV, abs: int, cap: int) -> Option<ParseError> {
    match name_fail(entries, r.name, abs, cap) {
        Some(err) => Some(err),
        None => {
            let (nb, e1) = compress_bytes(entries, r.name, abs);
            let n = nb.len() as int;
            if cap - n < 10 {
                Some(ParseError::OutputBufferTooSmall { need: saturating(n + 10), have: cap as usize })
            } else {
                match rdata_fail(e1, r.data, abs + n + 10, cap - n - 10) {
                    Some(err) => Some(err),
                    None => if rdata_bytes(e1, r.data, abs + n + 10).0.len() > 0xFFFF {
                        Some(too_small(0xFFFFint, 0int))
                    } else {
                        None
                    },
                }
            }
        },
    }
}

/// The wire form of a whole record written at absolute offset `abs`: owner
/// name (compressed), TYPE, CLASS, TTL, RDLENGTH and RDATA.
pub open spec fn record_bytes(entries: Seq<(Seq<Seq<u8>>, u16)>, r: RecordV, abs: int) -> (Seq<u8>, Seq<(Seq<Seq<u8>>, u16)>) {
    let (nb, e1) = compress_bytes(entries, r.name, abs);
    let (db, e2) = rdata_bytes(e1, r.data, abs + nb.len() + 10);
    (
        nb + be16_bytes(rdata_type(r.data)) + be16_bytes(r.class) + be32_bytes(r.ttl) + be16_bytes(
            db.len() as u16,
        ) + db,
        e2,
    )
}

/// A record can be written when its RDATA is encodable and, as written, fits
/// the 16-bit RDLENGTH.
pub open spec fn record_encodable(entries: Seq<(Seq<Seq<u8>>, u16)>, r: RecordV, abs: int) -> bool {
    let (nb, e1) = compress_bytes(entries, r.name, abs);
    &&& rdata_encodable(r.data)
    &&& rdata_bytes(e1, r.data, abs + nb.len() + 10).0.len() <= 0xFFFF
}

/// Copy `bytes` to `out[start..]` if they fit.
pub fn write_slice(out: &mut [u8], start: usize, bytes: &[u8]) -> (r: Result<usize, ParseError>)
    requires
        start <= old(out)@.len(),
    ensures
        final(out)@.len() == old(out)@.len(),
        start + bytes@.len() <= old(out)@.len() ==> r == Ok::<usize, ParseError>(bytes@.len() as usize)
            && final(out)@ == old(out)@.subrange(0, start as int) + bytes@ + old(out)@.skip(start + bytes@.len()),
        start + bytes@.len() > old(out)@.len() ==> r == Err::<usize, ParseError>(
            ParseError::OutputBufferTooSmall {
                need: bytes@.len() as usize,
                have: (old(out)@.len() - start) as usize,
            },
        ) && final(out)@ == old(out)@,
{
    if bytes.len() > out.len() - start {
        return Err(ParseError::OutputBufferTooSmall { need: bytes.len(), have: out.len() - start });
    }
    super::name::copy_into(out, start, bytes);
    Ok(bytes.len())
}

/// Write `name` compressed at `out[start..]` (absolute offset `abs`).
pub fn write_name_c(ctx: &mut EncodeCtx, name: &Name, out: &mut [u8], start: usize, abs: usize) -> (r: Result<
    usize,
    ParseError,
>)
    requires
        start <= old(out)@.len(),
    ensures
        ({
            let (b, e) = compress_bytes(old(ctx)@, name@, abs as int);
            &&& b.len() <= wire_len_of(name@)
            &&& encode_outcome(r, old(out)@, final(out)@, start as int, b, true, final(ctx)@, e)
        }),
        r is Ok <==> name_fail(old(ctx)@, name@, abs as int, old(out)@.len() - start) is None,
        r matches Err(err) ==> name_fail(old(ctx)@, name@, abs as int, old(out)@.len() - start) == Some(err),
{
    proof {
        use_type_invariant(name);
        Name::lemma_inv(*name);
        lemma_compress_cap(ctx@, name@, abs as int, 0, old(out)@.len() - start);
    }
    ctx.write_name_into(name, out, start, abs)
}

/// Encode TXT character strings at `out[start..]`.
pub fn encode_txt(out: &mut [u8], start: usize, strings: &Vec<Vec<u8>>) -> (r: Result<usize, ParseError>)
    requires
        start <= old(out)@.len(),
    ensures
        encode_outcome(
            r,
            old(out)@,
            final(out)@,
            start as int,
            labels_bytes(label_views(strings@)),
            rdata_encodable(RDataV::Txt(label_views(strings@))),
            Seq::<(Seq<Seq<u8>>, u16)>::empty(),
            Seq::<(Seq<Seq<u8>>, u16)>::empty(),
        ),
        r matches Err(err) ==> txt_fail(label_views(strings@), 0, 0, old(out)@.len() - start) == Some(err),
        r is Ok ==> txt_fail(label_views(strings@), 0, 0, old(out)@.len() - start) is None,
{
    let ghost ss = label_views(strings@);
    let ghost start_out = out@;
    let cap = out.len();
    proof {
        lemma_labels_bytes_len(ss);
    }
    let mut n: usize = 0;
    let mut i: usize = 0;
    while i < strings.len()
        invariant
            0 <= i <= ss.len(),
            ss == label_views(strings@),
            cap == start_out.len(),
            start_out == old(out)@,
            start <= cap,
            out@.len() == cap,
            n == labels_sum(ss.take(i as int)),
            start + n <= cap,
            forall|j: int| 0 <= j < i ==> (#[trigger] ss[j]).len() <= 255,
            out@ == start_out.subrange(0, start as int) + labels_bytes(ss.take(i as int)) + start_out.skip(start + n),
            txt_fail(ss, 0, 0, cap - start) == txt_fail(ss, i as int, n as int, cap - start),
        decreases ss.len() - i,
    {
        proof {
            super::name::lemma_labels_sum_prefix(ss, i as int);
            super::name::lemma_labels_sum_take_mono_pub(ss, i as int + 1);
            lemma_labels_bytes_len(ss.take(i as int));
            lemma_labels_bytes_len(ss);
            assert(ss[i as int] == strings@[i as int]@);
        }
        let s = strings[i].as_slice();
        if s.len() > 255 {
            proof {
                assert(ss.len() == strings@.len());
                assert(ss[i as int].len() > 255);
                assert(!strings_fit(ss));
            }
            return Err(ParseError::LabelTooLong { len: s.len() });
        }
        if s.len() >= cap - start - n {
            proof {
                assert(labels_sum(ss.take(i as int + 1)) == n + 1 + s@.len());
                assert(labels_sum(ss.take(i as int + 1)) <= labels_sum(ss));
                assert(labels_bytes(ss).len() == labels_sum(ss));
                assert(start + labels_bytes(ss).len() > start_out.len());
            }
            return Err(ParseError::OutputBufferTooSmall { need: n.saturating_add(1 + s.len()), have: cap - start });
        }
        out[start + n] = s.len() as u8;
        super::name::copy_into(out, start + n + 1, s);
        proof {
            let t1 = ss.take(i as int + 1);
            assert(t1.drop_last() =~= ss.take(i as int));
            assert(t1.last() == ss[i as int]);
            assert(out@ =~= start_out.subrange(0, start as int) + labels_bytes(t1) + start_out.skip(
                start + n + 1 + s@.len(),
            ));
        }
        n = n + 1 + s.len();
        i = i + 1;
    }
    proof {
        assert(ss.take(i as int) =~= ss);
    }
    Ok(n)
}

impl RData {
    /// Encode RDATA (its length prefix is the record encoder's job) into `out`,
    /// which sits at `absolute_offset` in the message. Returns bytes written.
    pub fn encode(&self, out: &mut [u8], absolute_offset: usize, ctx: &mut EncodeCtx) -> (r: Result<usize, ParseError>)
        requires
            absolute_offset + old(out)@.len() <= usize::MAX,
        ensures
            ({
                let (b, e) = rdata_bytes(old(ctx)@, rdata_view(*self), absolute_offset as int);
                encode_outcome(r, old(out)@, final(out)@, 0, b, rdata_encodable(rdata_view(*self)), final(ctx)@, e)
            }),
            r matches Err(err) ==> rdata_fail(old(ctx)@, rdata_view(*self), absolute_offset as int, old(out)@.len() as int)
                == Some(err),
            r is Ok ==> rdata_fail(old(ctx)@, rdata_view(*self), absolute_offset as int, old(out)@.len() as int) is None,
    {
        let r = self.encode_into(out, 0, absolute_offset, ctx);
        proof {
            assert(old(out)@.subrange(0, 0) =~= Seq::<u8>::empty());
            let (b, e) = rdata_bytes(old(ctx)@, rdata_view(*self), absolute_offset as int);
            assert(Seq::<u8>::empty() + b =~= b);
        }
        r
    }

    /// Like [`RData::encode`], writing at `out[start..]`, which sits at `abs`.
    pub fn encode_into(&self, out: &mut [u8], start: usize, abs: usize, ctx: &mut EncodeCtx) -> (r: Result<
        usize,
        ParseError,
    >)
        requires
            start <= old(out)@.len(),
            abs + old(out)@.len() - start <= usize::MAX,
        ensures
            ({
                let (b, e) = rdata_bytes(old(ctx)@, rdata_view(*self), abs as int);
                encode_outcome(
                    r,
                    old(out)@,
                    final(out)@,
                    start as int,
                    b,
                    rdata_encodable(rdata_view(*self)),
                    final(ctx)@,
                    e,
                )
            }),
            r matches Err(err) ==> rdata_fail(old(ctx)@, rdata_view(*self), abs as int, old(out)@.len() - start) == Some(
                err,
            ),
            r is Ok ==> rdata_fail(old(ctx)@, rdata_view(*self), abs as int, old(out)@.len() - start) is None,
    {
        proof {
            reveal(rdata_fail);
        }
        match self {
            RData::A(addr) => write_slice(out, start, addr.as_slice()),
            RData::Aaaa(addr) => write_slice(out, start, addr.as_slice()),
            RData::Ns(name) => write_name_c(ctx, name, out, start, abs),
            RData::Cname(name) => write_name_c(ctx, name, out, start, abs),
            RData::Ptr(name) => write_name_c(ctx, name, out, start, abs),
            RData::Mx { preference, exchange } => encode_mx(*preference, exchange, out, start, abs, ctx),
            RData::Txt(strings) => encode_txt(out, start, strings),
            RData::Soa(soa) => encode_soa(soa, out, start, abs, ctx),
            RData::Srv { priority, weight, port, target } => encode_srv(
                *priority,
                *weight,
                *port,
                target,
                out,
                start,
            ),
            RData::Caa { flags, tag, value } => encode_caa(*flags, tag, value, out, start),
            RData::Unknown { data, .. } => write_slice(out, start, data.as_slice()),
        }
    }
}

#[verifier::rlimit(40)]
fn encode_mx(preference: u16, exchange: &Name, out: &mut [u8], start: usize, abs: usize, ctx: &mut EncodeCtx) -> (r:
    Result<usize, ParseError>)
    requires
        start <= old(out)@.len(),
        abs + old(out)@.len() - start <= usize::MAX,
    ensures
        ({
            let (b, e) = rdata_bytes(old(ctx)@, RDataV::Mx { preference, exchange: exchange@ }, abs as int);
            encode_outcome(r, old(out)@, final(out)@, start as int, b, true, final(ctx)@, e)
        }),
        r matches Err(err) ==> rdata_fail(
            old(ctx)@,
            RDataV::Mx { preference, exchange: exchange@ },
            abs as int,
            old(out)@.len() - start,
        ) == Some(err),
        r is Ok ==> rdata_fail(
            old(ctx)@,
            RDataV::Mx { preference, exchange: exchange@ },
            abs as int,
            old(out)@.len() - start,
        ) is None,
{
    proof {
        reveal(rdata_fail);
    }
    let ghost o0 = out@;
    if out.len() - start < 2 {
        return Err(ParseError::OutputBufferTooSmall { need: 2, have: out.len() - start });
    }
    write_be16(out, start, preference);
    let n = match write_name_c(ctx, exchange, out, start + 2, abs + 2) {
        Ok(n) => n,
        Err(e) => return Err(e),
    };
    proof {
        let (b, e) = compress_bytes(old(ctx)@, exchange@, abs + 2);
        assert(out@ =~= o0.subrange(0, start as int) + (be16_bytes(preference) + b) + o0.skip(start + 2 + b.len()));
    }
    Ok(2 + n)
}

fn write_soa_tail(soa: &Soa, out: &mut [u8], pos: usize)
    requires
        pos + 20 <= old(out)@.len(),
    ensures
        final(out)@ == old(out)@.subrange(0, pos as int) + soa_tail_bytes(soa_view(*soa)) + old(out)@.skip(pos + 20),
{
    let ghost o = out@;
    let olen = out.len();
    write_be32(out, pos, soa.serial);
    write_be32(out, pos + 4, soa.refresh);
    write_be32(out, pos + 8, soa.retry);
    write_be32(out, pos + 12, soa.expire);
    write_be32(out, pos + 16, soa.minimum);
    assert(out@ =~= o.subrange(0, pos as int) + soa_tail_bytes(soa_view(*soa)) + o.skip(pos + 20));
}

#[verifier::rlimit(60)]
fn encode_soa(soa: &Soa, out: &mut [u8], start: usize, abs: usize, ctx: &mut EncodeCtx) -> (r: Result<usize, ParseError>)
    requires
        start <= old(out)@.len(),
        abs + old(out)@.len() - start <= usize::MAX,
    ensures
        ({
            let (b, e) = rdata_bytes(old(ctx)@, RDataV::Soa(soa_view(*soa)), abs as int);
            encode_outcome(r, old(out)@, final(out)@, start as int, b, true, final(ctx)@, e)
        }),
        r matches Err(err) ==> rdata_fail(old(ctx)@, RDataV::Soa(soa_view(*soa)), abs as int, old(out)@.len() - start)
            == Some(err),
        r is Ok ==> rdata_fail(old(ctx)@, RDataV::Soa(soa_view(*soa)), abs as int, old(out)@.len() - start) is None,
{
    proof {
        reveal(rdata_fail);
    }
    let ghost o0 = out@;
    let ghost c0 = ctx@;
    let olen = out.len();
    let m = match write_name_c(ctx, &soa.mname, out, start, abs) {
        Ok(n) => n,
        Err(e) => return Err(e),
    };
    let ghost e1 = ctx@;
    let ghost o1 = out@;
    proof {
        let (mb, x1) = compress_bytes(c0, soa.mname@, abs as int);
        assert(m == mb.len());
        assert(start + m <= o0.len());
    }
    let rn = match write_name_c(ctx, &soa.rname, out, start + m, abs + m) {
        Ok(n) => n,
        Err(e) => {
            proof {
                let (mb, x1) = compress_bytes(c0, soa.mname@, abs as int);
                let (rb, x2) = compress_bytes(x1, soa.rname@, abs + mb.len());
                assert(start + mb.len() + rb.len() > o0.len());
            }
            return Err(e);
        },
    };
    proof {
        let (rb, x2) = compress_bytes(e1, soa.rname@, abs + m);
        assert(rn == rb.len());
        assert(start + m + rn <= o0.len());
    }
    let pos = start + m + rn;
    if out.len() - pos < 20 {
        return Err(ParseError::OutputBufferTooSmall { need: 4, have: out.len() - pos });
    }
    let ghost o2 = out@;
    write_soa_tail(soa, out, pos);
    proof {
        let sv = soa_view(*soa);
        let (mb, x1) = compress_bytes(c0, sv.mname, abs as int);
        let (rb, x2) = compress_bytes(x1, sv.rname, abs + mb.len());
        assert(out@ =~= o0.subrange(0, start as int) + (mb + rb + soa_tail_bytes(sv)) + o0.skip(
            start + mb.len() + rb.len() + 20,
        ));
    }
    Ok(m + rn + 20)
}

fn encode_srv(priority: u16, weight: u16, port: u16, target: &Name, out: &mut [u8], start: usize) -> (r: Result<
    usize,
    ParseError,
>)
    requires
        start <= old(out)@.len(),
    ensures
        encode_outcome(
            r,
            old(out)@,
            final(out)@,
            start as int,
            be16_bytes(priority) + be16_bytes(weight) + be16_bytes(port) + name_bytes(target@),
            true,
            Seq::<(Seq<Seq<u8>>, u16)>::empty(),
            Seq::<(Seq<Seq<u8>>, u16)>::empty(),
        ),
        r matches Err(err) ==> rdata_fail(
            Seq::<(Seq<Seq<u8>>, u16)>::empty(),
            RDataV::Srv { priority, weight, port, target: target@ },
            0,
            old(out)@.len() - start,
        ) == Some(err),
        r is Ok ==> rdata_fail(
            Seq::<(Seq<Seq<u8>>, u16)>::empty(),
            RDataV::Srv { priority, weight, port, target: target@ },
            0,
            old(out)@.len() - start,
        ) is None,
{
    proof {
        reveal(rdata_fail);
    }
    let ghost o0 = out@;
    let w = target.wire_len();
    proof {
        lemma_labels_bytes_len(target@);
    }
    if out.len() - start < 6 || out.len() - start - 6 < w {
        return Err(ParseError::OutputBufferTooSmall { need: w.saturating_add(6), have: out.len() - start });
    }
    write_be16(out, start, priority);
    write_be16(out, start + 2, weight);
    write_be16(out, start + 4, port);
    target.encode_at(out, start + 6);
    proof {
        assert(out@ =~= o0.subrange(0, start as int) + (be16_bytes(priority) + be16_bytes(weight) + be16_bytes(port)
            + name_bytes(target@)) + o0.skip(start + 6 + w));
    }
    Ok(6 + w)
}

#[verifier::rlimit(40)]
fn encode_caa(flags: u8, tag: &Vec<u8>, value: &Vec<u8>, out: &mut [u8], start: usize) -> (r: Result<
    usize,
    ParseError,
>)
    requires
        start <= old(out)@.len(),
    ensures
        encode_outcome(
            r,
            old(out)@,
            final(out)@,
            start as int,
            seq![flags, tag@.len() as u8] + tag@ + value@,
            tag@.len() <= 255,
            Seq::<(Seq<Seq<u8>>, u16)>::empty(),
            Seq::<(Seq<Seq<u8>>, u16)>::empty(),
        ),
        r matches Err(err) ==> rdata_fail(
            Seq::<(Seq<Seq<u8>>, u16)>::empty(),
            RDataV::Caa { flags, tag: tag@, value: value@ },
            0,
            old(out)@.len() - start,
        ) == Some(err),
        r is Ok ==> rdata_fail(
            Seq::<(Seq<Seq<u8>>, u16)>::empty(),
            RDataV::Caa { flags, tag: tag@, value: value@ },
            0,
            old(out)@.len() - start,
        ) is None,
{
    proof {
        reveal(rdata_fail);
    }
    let ghost o0 = out@;
    if out.len() - start < 1 {
        return Err(ParseError::OutputBufferTooSmall { need: 1, have: out.len() - start });
    }
    if tag.len() > 255 {
        return Err(ParseError::LabelTooLong { len: tag.len() });
    }
    if out.len() - start - 1 < 1 {
        return Err(ParseError::OutputBufferTooSmall { need: 1, have: out.len() - start - 1 });
    }
    if out.len() - start - 2 < tag.len() || out.len() - start - 2 - tag.len() < value.len() {
        return Err(ParseError::OutputBufferTooSmall {
            need: tag.len().saturating_add(value.len()),
            have: out.len() - start - 2,
        });
    }
    out[start] = flags;
    out[start + 1] = tag.len() as u8;
    super::name::copy_into(out, start + 2, tag.as_slice());
    super::name::copy_into(out, start + 2 + tag.len(), value.as_slice());
    proof {
        assert(out@ =~= o0.subrange(0, start as int) + (seq![flags, tag@.len() as u8] + tag@ + value@) + o0.skip(
            start + 2 + tag@.len() + value@.len(),
        ));
    }
    Ok(2 + tag.len() + value.len())
}

impl ResourceRecord {
    /// Encode this record into `out`, which sits at `absolute_offset` in the
    /// message, compressing names through `ctx`. Returns bytes written.
    pub fn encode(&self, out: &mut [u8], absolute_offset: usize, ctx: &mut EncodeCtx) -> (r: Result<usize, ParseError>)
        requires
            absolute_offset + old(out)@.len() <= usize::MAX,
        ensures
            ({
                let rv = record_view(*self);
                let (b, e) = record_bytes(old(ctx)@, rv, absolute_offset as int);
                encode_outcome(
                    r,
                    old(out)@,
                    final(out)@,
                    0,
                    b,
                    record_encodable(old(ctx)@, rv, absolute_offset as int),
                    final(ctx)@,
                    e,
                )
            }),
            r matches Err(err) ==> record_fail(
                old(ctx)@,
                record_view(*self),
                absolute_offset as int,
                old(out)@.len() as int,
            ) == Some(err),
            r is Ok ==> record_fail(old(ctx)@, record_view(*self), absolute_offset as int, old(out)@.len() as int)
                is None,
    {
        let r = self.encode_into(out, 0, absolute_offset, ctx);
        proof {
            assert(old(out)@.subrange(0, 0) =~= Seq::<u8>::empty());
            let (b, e) = record_bytes(old(ctx)@, record_view(*self), absolute_offset as int);
            assert(Seq::<u8>::empty() + b =~= b);
        }
        r
    }

    /// Like [`ResourceRecord::encode`], writing at `out[start..]`, which sits at `abs`.
    #[verifier::rlimit(60)]
    pub fn encode_into(&self, out: &mut [u8], start: usize, abs: usize, ctx: &mut EncodeCtx) -> (r: Result<
        usize,
        ParseError,
    >)
        requires
            start <= old(out)@.len(),
            abs + old(out)@.len() - start <= usize::MAX,
        ensures
            ({
                let rv = record_view(*self);
                let (b, e) = record_bytes(old(ctx)@, rv, abs as int);
                encode_outcome(
                    r,
                    old(out)@,
                    final(out)@,
                    start as int,
                    b,
                    record_encodable(old(ctx)@, rv, abs as int),
                    final(ctx)@,
                    e,
                )
            }),
            r matches Err(err) ==> record_fail(old(ctx)@, record_view(*self), abs as int, old(out)@.len() - start)
                == Some(err),
            r is Ok ==> record_fail(old(ctx)@, record_view(*self), abs as int, old(out)@.len() - start) is None,
    {
        let ghost o0 = out@;
        let ghost c0 = ctx@;
        let ghost rv = record_view(*self);
        let olen = out.len();
        let n = match write_name_c(ctx, &self.name, out, start, abs) {
            Ok(n) => n,
            Err(e) => return Err(e),
        };
        let ghost c1 = ctx@;
        proof {
            let (nb, e1) = compress_bytes(c0, rv.name, abs as int);
            assert(n == nb.len() && c1 == e1);
            assert(start + n <= olen);
        }
        let hs = start + n;
        if olen - hs < 10 {
            proof {
                assert(name_fail(c0, rv.name, abs as int, olen - start) is None);
            }
            return Err(ParseError::OutputBufferTooSmall { need: n.saturating_add(10), have: olen - start });
        }
        write_be16(out, hs, self.data.rtype().0);
        write_be16(out, hs + 2, self.class.0);
        write_be32(out, hs + 4, self.ttl);
        let ghost o1 = out@;
        let d = match self.data.encode_into(out, hs + 10, abs + n + 10, ctx) {
            Ok(d) => d,
            Err(e) => {
                proof {
                    let (nb, e1) = compress_bytes(c0, rv.name, abs as int);
                    assert(name_fail(c0, rv.name, abs as int, olen - start) is None);
                    assert(olen - (hs + 10) == (olen - start) - nb.len() - 10);
                    assert(rdata_fail(c1, rv.data, abs + n + 10, olen - (hs + 10)) == Some(e));
                }
                return Err(e);
            },
        };
        proof {
            let (db, e2) = rdata_bytes(c1, rv.data, abs + n + 10);
            assert(d == db.len());
        }
        if d > 0xFFFF {
            proof {
                assert(name_fail(c0, rv.name, abs as int, olen - start) is None);
                assert(olen - (hs + 10) == (olen - start) - n - 10);
            }
            return Err(ParseError::OutputBufferTooSmall { need: 0xFFFF, have: 0 });
        }
        let ghost o2 = out@;
        write_be16(out, hs + 8, d as u16);
        proof {
            let (nb, e1) = compress_bytes(c0, rv.name, abs as int);
            let (db, e2) = rdata_bytes(e1, rv.data, abs + nb.len() + 10);
            assert(out@ =~= o0.subrange(0, start as int) + (nb + be16_bytes(rdata_type(rv.data)) + be16_bytes(
                rv.class,
            ) + be32_bytes(rv.ttl) + be16_bytes(db.len() as u16) + db) + o0.skip(start + nb.len() + 10 + db.len()));
        }
        Ok(n + 10 + d)
    }
}

/// Copy a list of byte strings.
pub fn copy_byte_strings(v: &Vec<Vec<u8>>) -> (r: Vec<Vec<u8>>)
    ensures
        label_views(r@) == label_views(v@),
{
    let mut out: Vec<Vec<u8>> = Vec::new();
    let mut i: usize = 0;
    while i < v.len()
        invariant
            i <= v.len(),
            out@.len() == i,
            forall|j: int| 0 <= j < i ==> (#[trigger] out@[j])@ == v@[j]@,
        decreases v.len() - i,
    {
        out.push(copy_bytes(v[i].as_slice()));
        i = i + 1;
    }
    proof {
        assert(label_views(out@) =~= label_views(v@));
    }
    out
}

impl Clone for Soa {
    fn clone(&self) -> (r: Self)
        ensures
            soa_view(r) == soa_view(*self),
    {
        Soa {
            mname: self.mname.clone(),
            rname: self.rname.clone(),
            serial: self.serial,
            refresh: self.refresh,
            retry: self.retry,
            expire: self.expire,
            minimum: self.minimum,
        }
    }
}

impl Clone for RData {
    fn clone(&self) -> (r: Self)
        ensures
            rdata_view(r) == rdata_view(*self),
    {
        match self {
            RData::A(o) => RData::A(*o),
            RData::Aaaa(o) => RData::Aaaa(*o),
            RData::Ns(n) => RData::Ns(n.clone()),
            RData::Cname(n) => RData::Cname(n.clone()),
            RData::Ptr(n) => RData::Ptr(n.clone()),
            RData::Mx { preference, exchange } => RData::Mx { preference: *preference, exchange: exchange.clone() },
            RData::Txt(v) => RData::Txt(copy_byte_strings(v)),
            RData::Soa(s) => RData::Soa(s.clone()),
            RData::Srv { priority, weight, port, target } => RData::Srv {
                priority: *priority,
                weight: *weight,
                port: *port,
                target: target.clone(),
            },
            RData::Caa { flags, tag, value } => RData::Caa {
                flags: *flags,
                tag: copy_bytes(tag.as_slice()),
                value: copy_bytes(value.as_slice()),
            },
            RData::Unknown { rtype, data } => RData::Unknown { rtype: *rtype, data: copy_bytes(data.as_slice()) },
        }
    }
}

impl Clone for ResourceRecord {
    fn clone(&self) -> (r: Self)
        ensures
            record_view(r) == record_view(*self),
    {
        ResourceRecord { name: self.name.clone(), class: self.class, ttl: self.ttl, data: self.data.clone() }
    }
}

} // verus!
