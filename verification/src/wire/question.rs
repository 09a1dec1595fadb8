//! DNS question section (RFC 1035 §4.1.2).
use super::name::{decode_name, name_bytes, wire_len_of, Name};
use super::{be16_at, read_be16, write_be16, ParseError};
use vstd::prelude::*;
use vstd::string::StringSliceAdditionalSpecFns;

verus! {

/// DNS QTYPE (§3.2.2, superset in §3.2.3).
#[derive(Debug, Clone, Copy, PartialEq, Eq, Hash, Structural)]
pub struct QType(pub u16);

impl QType {
    #[verifier::allow_in_spec]
    #[allow(non_snake_case)]
    pub fn A() -> QType
        returns
            QType(1),
    {
        QType(1)
    }
    #[verifier::allow_in_spec]
    #[allow(non_snake_case)]
    pub fn NS() -> QType
        returns
            QType(2),
    {
        QType(2)
    }
    #[verifier::allow_in_spec]
    #[allow(non_snake_case)]
    pub fn CNAME() -> QType
        returns
            QType(5),
    {
        QType(5)
    }
    #[verifier::allow_in_spec]
    #[allow(non_snake_case)]
    pub fn SOA() -> QType
        returns
            QType(6),
    {
        QType(6)
    }
    #[verifier::allow_in_spec]
    #[allow(non_snake_case)]
    pub fn PTR() -> QType
        returns
            QType(12),
    {
        QType(12)
    }
    #[verifier::allow_in_spec]
    #[allow(non_snake_case)]
    pub fn MX() -> QType
        returns
            QType(15),
    {
        QType(15)
    }
    #[verifier::allow_in_spec]
    #[allow(non_snake_case)]
    pub fn TXT() -> QType
        returns
            QType(16),
    {
        QType(16)
    }
    #[verifier::allow_in_spec]
    #[allow(non_snake_case)]
    pub fn AAAA() -> QType
        returns
            QType(28),
    {
        QType(28)
    }
    #[verifier::allow_in_spec]
    #[allow(non_snake_case)]
    pub fn SRV() -> QType
        returns
            QType(33),
    {
        QType(33)
    }
    #[verifier::allow_in_spec]
    #[allow(non_snake_case)]
    pub fn OPT() -> QType
        returns
            QType(41),
    {
        QType(41)
    }
    #[verifier::allow_in_spec]
    #[allow(non_snake_case)]
    pub fn DS() -> QType
        returns
            QType(43),
    {
        QType(43)
    }
    #[verifier::allow_in_spec]
    #[allow(non_snake_case)]
    pub fn RRSIG() -> QType
        returns
            QType(46),
    {
        QType(46)
    }
    #[verifier::allow_in_spec]
    #[allow(non_snake_case)]
    pub fn NSEC() -> QType
        returns
            QType(47),
    {
        QType(47)
    }
    #[verifier::allow_in_spec]
    #[allow(non_snake_case)]
    pub fn DNSKEY() -> QType
        returns
            QType(48),
    {
        QType(48)
    }
    #[verifier::allow_in_spec]
    #[allow(non_snake_case)]
    pub fn NSEC3() -> QType
        returns
            QType(50),
    {
        QType(50)
    }
    #[verifier::allow_in_spec]
    #[allow(non_snake_case)]
    pub fn CAA() -> QType
        returns
            QType(257),
    {
        QType(257)
    }
    #[verifier::allow_in_spec]
    #[allow(non_snake_case)]
    pub fn AXFR() -> QType
        returns
            QType(252),
    {
        QType(252)
    }
    #[verifier::allow_in_spec]
    #[allow(non_snake_case)]
    pub fn IXFR() -> QType
        returns
            QType(251),
    {
        QType(251)
    }
    #[verifier::allow_in_spec]
    #[allow(non_snake_case)]
    pub fn ANY() -> QType
        returns
            QType(255),
    {
        QType(255)
    }
}


/// ASCII upper-casing of one byte.
pub open spec fn upper_byte(b: u8) -> u8 {
    if 97 <= b <= 122 {
        (b - 32) as u8
    } else {
        b
    }
}

/// ASCII upper-casing of a byte string.
pub open spec fn upper_bytes(b: Seq<u8>) -> Seq<u8> {
    b.map_values(|c: u8| upper_byte(c))
}

/// ASCII upper-casing of a byte string.
pub fn upper_ascii(b: &[u8]) -> (r: Vec<u8>)
    ensures
        r@ == upper_bytes(b@),
{
    let mut out: Vec<u8> = Vec::new();
    let mut i: usize = 0;
    while i < b.len()
        invariant
            i <= b@.len(),
            out@ == upper_bytes(b@.take(i as int)),
        decreases b@.len() - i,
    {
        let c = b[i];
        out.push(if 97 <= c && c <= 122 { c - 32 } else { c });
        i = i + 1;
        proof {
            assert(out@ =~= upper_bytes(b@.take(i as int)));
        }
    }
    proof {
        assert(b@.take(i as int) =~= b@);
    }
    out
}

/// The mnemonic of a TYPE value.
pub open spec fn mnemonic_of(t: u16) -> Option<Seq<char>> {
    if t == 1 {
        Some("A"@)
    } else if t == 2 {
        Some("NS"@)
    } else if t == 5 {
        Some("CNAME"@)
    } else if t == 6 {
        Some("SOA"@)
    } else if t == 12 {
        Some("PTR"@)
    } else if t == 15 {
        Some("MX"@)
    } else if t == 16 {
        Some("TXT"@)
    } else if t == 28 {
        Some("AAAA"@)
    } else if t == 33 {
        Some("SRV"@)
    } else if t == 41 {
        Some("OPT"@)
    } else if t == 43 {
        Some("DS"@)
    } else if t == 46 {
        Some("RRSIG"@)
    } else if t == 47 {
        Some("NSEC"@)
    } else if t == 48 {
        Some("DNSKEY"@)
    } else if t == 50 {
        Some("NSEC3"@)
    } else if t == 257 {
        Some("CAA"@)
    } else if t == 251 {
        Some("IXFR"@)
    } else if t == 252 {
        Some("AXFR"@)
    } else if t == 255 {
        Some("ANY"@)
    } else {
        None
    }
}

/// The TYPE whose mnemonic has the bytes `u` (already upper-cased).
pub open spec fn mnemonic_type(u: Seq<u8>) -> Option<u16> {
    if u == "A".spec_bytes() {
        Some(1u16)
    } else if u == "NS".spec_bytes() {
        Some(2u16)
    } else if u == "CNAME".spec_bytes() {
        Some(5u16)
    } else if u == "SOA".spec_bytes() {
        Some(6u16)
    } else if u == "PTR".spec_bytes() {
        Some(12u16)
    } else if u == "MX".spec_bytes() {
        Some(15u16)
    } else if u == "TXT".spec_bytes() {
        Some(16u16)
    } else if u == "AAAA".spec_bytes() {
        Some(28u16)
    } else if u == "SRV".spec_bytes() {
        Some(33u16)
    } else if u == "OPT".spec_bytes() {
        Some(41u16)
    } else if u == "DS".spec_bytes() {
        Some(43u16)
    } else if u == "RRSIG".spec_bytes() {
        Some(46u16)
    } else if u == "NSEC".spec_bytes() {
        Some(47u16)
    } else if u == "DNSKEY".spec_bytes() {
        Some(48u16)
    } else if u == "NSEC3".spec_bytes() {
        Some(50u16)
    } else if u == "CAA".spec_bytes() {
        Some(257u16)
    } else if u == "IXFR".spec_bytes() {
        Some(251u16)
    } else if u == "AXFR".spec_bytes() {
        Some(252u16)
    } else if u == "ANY".spec_bytes() {
        Some(255u16)
    } else {
        None
    }
}

impl QType {
    /// The mnemonic of this type (`"A"`, `"AAAA"`, ...), if it has one.
    pub fn mnemonic(&self) -> (r: Option<&'static str>)
        ensures
            match r {
                Some(s) => mnemonic_of(self.0) == Some(s@),
                None => mnemonic_of(self.0) is None,
            },
    {
        if self.0 == 1 {
            Some("A")
        } else if self.0 == 2 {
            Some("NS")
        } else if self.0 == 5 {
            Some("CNAME")
        } else if self.0 == 6 {
            Some("SOA")
        } else if self.0 == 12 {
            Some("PTR")
        } else if self.0 == 15 {
            Some("MX")
        } else if self.0 == 16 {
            Some("TXT")
        } else if self.0 == 28 {
            Some("AAAA")
        } else if self.0 == 33 {
            Some("SRV")
        } else if self.0 == 41 {
            Some("OPT")
        } else if self.0 == 43 {
            Some("DS")
        } else if self.0 == 46 {
            Some("RRSIG")
        } else if self.0 == 47 {
            Some("NSEC")
        } else if self.0 == 48 {
            Some("DNSKEY")
        } else if self.0 == 50 {
            Some("NSEC3")
        } else if self.0 == 257 {
            Some("CAA")
        } else if self.0 == 251 {
            Some("IXFR")
        } else if self.0 == 252 {
            Some("AXFR")
        } else if self.0 == 255 {
            Some("ANY")
        } else {
            None
        }
    }

    /// The type with mnemonic `s`, compared ASCII case-insensitively.
    pub fn from_mnemonic(s: &str) -> (r: Option<QType>)
        ensures
            match mnemonic_type(upper_bytes(s.spec_bytes())) {
                Some(t) => r == Some(QType(t)),
                None => r is None,
            },
    {
        let u = upper_ascii(crate::text::str_bytes(s));
        if crate::wire::compress::bytes_eq(u.as_slice(), crate::text::str_bytes("A")) {
            return Some(QType(1));
        }
        if crate::wire::compress::bytes_eq(u.as_slice(), crate::text::str_bytes("NS")) {
            return Some(QType(2));
        }
        if crate::wire::compress::bytes_eq(u.as_slice(), crate::text::str_bytes("CNAME")) {
            return Some(QType(5));
        }
        if crate::wire::compress::bytes_eq(u.as_slice(), crate::text::str_bytes("SOA")) {
            return Some(QType(6));
        }
        if crate::wire::compress::bytes_eq(u.as_slice(), crate::text::str_bytes("PTR")) {
            return Some(QType(12));
        }
        if crate::wire::compress::bytes_eq(u.as_slice(), crate::text::str_bytes("MX")) {
            return Some(QType(15));
        }
        if crate::wire::compress::bytes_eq(u.as_slice(), crate::text::str_bytes("TXT")) {
            return Some(QType(16));
        }
        if crate::wire::compress::bytes_eq(u.as_slice(), crate::text::str_bytes("AAAA")) {
            return Some(QType(28));
        }
        if crate::wire::compress::bytes_eq(u.as_slice(), crate::text::str_bytes("SRV")) {
            return Some(QType(33));
        }
        if crate::wire::compress::bytes_eq(u.as_slice(), crate::text::str_bytes("OPT")) {
            return Some(QType(41));
        }
        if crate::wire::compress::bytes_eq(u.as_slice(), crate::text::str_bytes("DS")) {
            return Some(QType(43));
        }
        if crate::wire::compress::bytes_eq(u.as_slice(), crate::text::str_bytes("RRSIG")) {
            return Some(QType(46));
        }
        if crate::wire::compress::bytes_eq(u.as_slice(), crate::text::str_bytes("NSEC")) {
            return Some(QType(47));
        }
        if crate::wire::compress::bytes_eq(u.as_slice(), crate::text::str_bytes("DNSKEY")) {
            return Some(QType(48));
        }
        if crate::wire::compress::bytes_eq(u.as_slice(), crate::text::str_bytes("NSEC3")) {
            return Some(QType(50));
        }
        if crate::wire::compress::bytes_eq(u.as_slice(), crate::text::str_bytes("CAA")) {
            return Some(QType(257));
        }
        if crate::wire::compress::bytes_eq(u.as_slice(), crate::text::str_bytes("IXFR")) {
            return Some(QType(251));
        }
        if crate::wire::compress::bytes_eq(u.as_slice(), crate::text::str_bytes("AXFR")) {
            return Some(QType(252));
        }
        if crate::wire::compress::bytes_eq(u.as_slice(), crate::text::str_bytes("ANY")) {
            return Some(QType(255));
        }
        None
    }
}

/// DNS QCLASS (§3.2.4 + §3.2.5).
#[derive(Debug, Clone, Copy, PartialEq, Eq, Hash, Structural)]
pub struct QClass(pub u16);

impl QClass {
    #[verifier::allow_in_spec]
    #[allow(non_snake_case)]
    pub fn IN() -> QClass
        returns
            QClass(1),
    {
        QClass(1)
    }
    #[verifier::allow_in_spec]
    #[allow(non_snake_case)]
    pub fn CH() -> QClass
        returns
            QClass(3),
    {
        QClass(3)
    }
    #[verifier::allow_in_spec]
    #[allow(non_snake_case)]
    pub fn HS() -> QClass
        returns
            QClass(4),
    {
        QClass(4)
    }
    #[verifier::allow_in_spec]
    #[allow(non_snake_case)]
    pub fn ANY() -> QClass
        returns
            QClass(255),
    {
        QClass(255)
    }
}

/// A single DNS question.
#[derive(Debug, PartialEq, Eq)]
pub struct Question {
    pub qname: Name,
    pub qtype: QType,
    pub qclass: QClass,
}

/// The abstract value of a question.
pub open spec fn question_view(q: Question) -> (Seq<Seq<u8>>, u16, u16) {
    (q.qname@, q.qtype.0, q.qclass.0)
}

/// The uncompressed wire form of a question.
pub open spec fn question_bytes(qname: Seq<Seq<u8>>, qtype: u16, qclass: u16) -> Seq<u8> {
    name_bytes(qname) + seq![(qtype / 256) as u8, (qtype % 256) as u8, (qclass / 256) as u8, (qclass % 256) as u8]
}

/// The question (name, type, class) at `offset` in `buf` and the offset just
/// past it, or the error decoding reports.
pub open spec fn decode_question(buf: Seq<u8>, offset: int) -> Result<((Seq<Seq<u8>>, u16, u16), int), ParseError> {
    match decode_name(buf, offset) {
        Err(e) => Err(e),
        Ok((ls, pos)) => if pos + 4 > buf.len() {
            Err(ParseError::UnexpectedEof { offset: pos as usize, context: "question tail" })
        } else {
            Ok(((ls, be16_at(buf, pos), be16_at(buf, pos + 2)), pos + 4))
        },
    }
}

/// Decoding never reports an end offset beyond the buffer.
pub proof fn lemma_decode_name_end_bound(
    buf: Seq<u8>,
    pos: int,
    hops: nat,
    total: int,
    labels: Seq<Seq<u8>>,
    jumped: bool,
    adv: int,
)
    requires
        jumped ==> adv <= buf.len(),
    ensures
        super::name::decode_name_from(buf, pos, hops, total, labels, jumped, adv) matches Ok((_, end)) ==> end
            <= buf.len(),
    decreases 128 - hops,
{
    if hops < 128 && 0 <= pos < buf.len() {
        let b = buf[pos];
        if b & 0xC0 == 0 {
            let len = (b & 0x3F) as int;
            if len != 0 && pos + 1 + len <= buf.len() && total + 1 + len <= 255 {
                lemma_decode_name_end_bound(
                    buf,
                    pos + 1 + len,
                    hops + 1,
                    total + 1 + len,
                    labels.push(buf.subrange(pos + 1, pos + 1 + len)),
                    jumped,
                    if jumped { adv } else { pos + 1 + len },
                );
            }
        } else if b & 0xC0 == 0xC0 && pos + 1 < buf.len() {
            let target = (b & 0x3F) as int * 256 + buf[pos + 1] as int;
            if target < pos {
                lemma_decode_name_end_bound(buf, target, hops + 1, total, labels, true, if jumped {
                    adv
                } else {
                    pos + 2
                });
            }
        }
    }
}

impl Question {
    /// Wire size in bytes (uncompressed name plus type and class).
    pub fn wire_len(&self) -> (r: usize)
        ensures
            r == wire_len_of(self.qname@) + 4,
    {
        self.qname.wire_len() + 4
    }

    /// Encode uncompressed into `out`. Returns bytes written.
    pub fn encode(&self, out: &mut [u8]) -> (r: Result<usize, ParseError>)
        ensures
            ({
                let need = wire_len_of(self.qname@) + 4;
                &&& old(out)@.len() < need ==> r == Err::<usize, ParseError>(
                    ParseError::OutputBufferTooSmall { need: need as usize, have: old(out)@.len() as usize },
                ) && final(out)@ == old(out)@
                &&& old(out)@.len() >= need ==> r == Ok::<usize, ParseError>(need as usize) && final(out)@
                    == question_bytes(self.qname@, self.qtype.0, self.qclass.0) + old(out)@.skip(need)
            }),
    {
        let need = self.wire_len();
        if out.len() < need {
            return Err(ParseError::OutputBufferTooSmall { need, have: out.len() });
        }
        let ghost start = out@;
        let n = self.qname.encode_at(out, 0);
        write_be16(out, n, self.qtype.0);
        write_be16(out, n + 2, self.qclass.0);
        proof {
            assert(out@ =~= question_bytes(self.qname@, self.qtype.0, self.qclass.0) + start.skip(need as int));
        }
        Ok(need)
    }

    /// Decode from `buf` starting at `offset`. Returns the question and the
    /// offset just past the last consumed byte.
    pub fn decode(buf: &[u8], offset: usize) -> (r: Result<(Self, usize), ParseError>)
        ensures
            match decode_question(buf@, offset as int) {
                Ok((q, end)) => r matches Ok((v, e)) && question_view(v) == q && e == end,
                Err(err) => r == Err::<(Question, usize), ParseError>(err),
            },
    {
        let (qname, pos) = match Name::decode(buf, offset) {
            Ok(v) => v,
            Err(e) => return Err(e),
        };
        proof {
            lemma_decode_name_end_bound(buf@, offset as int, 0, 0, seq![], false, offset as int);
        }
        if pos > buf.len() || buf.len() - pos < 4 {
            return Err(ParseError::UnexpectedEof { offset: pos, context: "question tail" });
        }
        let qtype = QType(read_be16(buf, pos));
        let qclass = QClass(read_be16(buf, pos + 2));
        Ok((Question { qname, qtype, qclass }, pos + 4))
    }
}

impl Clone for Question {
    fn clone(&self) -> (r: Self)
        ensures
            question_view(r) == question_view(*self),
    {
        Question { qname: self.qname.clone(), qtype: self.qtype, qclass: self.qclass }
    }
}

/// Decoding the uncompressed form of a question gives it back: the question
/// codec round-trips.
pub proof fn lemma_question_roundtrip(buf: Seq<u8>, o: int, qname: Seq<Seq<u8>>, qtype: u16, qclass: u16)
    requires
        super::name::name_wf(qname),
        0 <= o,
        o + wire_len_of(qname) + 4 <= buf.len(),
        buf.subrange(o, o + wire_len_of(qname) + 4) == question_bytes(qname, qtype, qclass),
    ensures
        decode_question(buf, o) == Ok::<((Seq<Seq<u8>>, u16, u16), int), ParseError>(
            ((qname, qtype, qclass), o + wire_len_of(qname) + 4),
        ),
{
    let w = wire_len_of(qname);
    super::name::lemma_labels_bytes_len(qname);
    assert(buf.subrange(o, o + w) =~= buf.subrange(o, o + w + 4).subrange(0, w));
    assert(question_bytes(qname, qtype, qclass).subrange(0, w) =~= name_bytes(qname));
    super::name::lemma_name_roundtrip(buf, o, qname);
    let qb = question_bytes(qname, qtype, qclass);
    assert(buf[o + w] == qb[w]);
    assert(buf[o + w + 1] == qb[w + 1]);
    assert(buf[o + w + 2] == qb[w + 2]);
    assert(buf[o + w + 3] == qb[w + 3]);
}

} // verus!
