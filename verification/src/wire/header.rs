//! DNS message header (RFC 1035 §4.1.1).
//!
//! ```text
//! |QR|   Opcode  |AA|TC|RD|RA| Z|AD|CD|   RCODE   |
//! ```
use super::{be16_at, read_be16, write_be16, ParseError, HEADER_LEN};
use vstd::prelude::*;

verus! {

/// DNS opcode (RFC 1035 §4.1.1, RFC 2136, RFC 1996).
#[derive(Debug, Clone, Copy, PartialEq, Eq, Hash, Structural)]
pub enum OpCode {
    /// Standard query (0).
    Query,
    /// Inverse query (1, obsolete).
    IQuery,
    /// Server status request (2).
    Status,
    /// NOTIFY (4).
    Notify,
    /// Dynamic update (5).
    Update,
}

/// The opcode that a 4-bit value denotes, if any.
pub open spec fn opcode_of(v: u8) -> Option<OpCode> {
    if v == 0 {
        Some(OpCode::Query)
    } else if v == 1 {
        Some(OpCode::IQuery)
    } else if v == 2 {
        Some(OpCode::Status)
    } else if v == 4 {
        Some(OpCode::Notify)
    } else if v == 5 {
        Some(OpCode::Update)
    } else {
        None
    }
}

/// The numeric value of an opcode.
pub open spec fn opcode_value(op: OpCode) -> u8 {
    match op {
        OpCode::Query => 0,
        OpCode::IQuery => 1,
        OpCode::Status => 2,
        OpCode::Notify => 4,
        OpCode::Update => 5,
    }
}

impl OpCode {
    /// Parse a 4-bit opcode.
    pub fn from_u8(v: u8) -> (r: Result<Self, ParseError>)
        ensures
            match opcode_of(v) {
                Some(op) => r == Ok::<OpCode, ParseError>(op),
                None => r == Err::<OpCode, ParseError>(ParseError::UnknownOpCode(v)),
            },
    {
        match v {
            0 => Ok(OpCode::Query),
            1 => Ok(OpCode::IQuery),
            2 => Ok(OpCode::Status),
            4 => Ok(OpCode::Notify),
            5 => Ok(OpCode::Update),
            other => Err(ParseError::UnknownOpCode(other)),
        }
    }

    /// The opcode's numeric value.
    pub fn as_u8(self) -> (r: u8)
        ensures
            r == opcode_value(self),
            opcode_of(r) == Some(self),
    {
        match self {
            OpCode::Query => 0,
            OpCode::IQuery => 1,
            OpCode::Status => 2,
            OpCode::Notify => 4,
            OpCode::Update => 5,
        }
    }
}

/// DNS response code (RFC 1035 §4.1.1, RFC 6895).
#[derive(Debug, Clone, Copy, PartialEq, Eq, Hash, Structural)]
pub enum RCode {
    NoError,
    FormErr,
    ServFail,
    NxDomain,
    NotImp,
    Refused,
    YxDomain,
    YxRrSet,
    NxRrSet,
    NotAuth,
    NotZone,
}

/// The response code a 4-bit value denotes; unassigned values read as `ServFail`.
pub open spec fn rcode_of(v: u8) -> RCode {
    if v == 0 {
        RCode::NoError
    } else if v == 1 {
        RCode::FormErr
    } else if v == 2 {
        RCode::ServFail
    } else if v == 3 {
        RCode::NxDomain
    } else if v == 4 {
        RCode::NotImp
    } else if v == 5 {
        RCode::Refused
    } else if v == 6 {
        RCode::YxDomain
    } else if v == 7 {
        RCode::YxRrSet
    } else if v == 8 {
        RCode::NxRrSet
    } else if v == 9 {
        RCode::NotAuth
    } else if v == 10 {
        RCode::NotZone
    } else {
        RCode::ServFail
    }
}

/// The numeric value of a response code.
pub open spec fn rcode_value(r: RCode) -> u8 {
    match r {
        RCode::NoError => 0,
        RCode::FormErr => 1,
        RCode::ServFail => 2,
        RCode::NxDomain => 3,
        RCode::NotImp => 4,
        RCode::Refused => 5,
        RCode::YxDomain => 6,
        RCode::YxRrSet => 7,
        RCode::NxRrSet => 8,
        RCode::NotAuth => 9,
        RCode::NotZone => 10,
    }
}

impl RCode {
    /// Parse a 4-bit rcode. Unknown rcodes map to `ServFail` (RFC 6895 §2.3).
    pub fn from_u8(v: u8) -> (r: Self)
        ensures
            r == rcode_of(v),
    {
        match v {
            0 => RCode::NoError,
            1 => RCode::FormErr,
            2 => RCode::ServFail,
            3 => RCode::NxDomain,
            4 => RCode::NotImp,
            5 => RCode::Refused,
            6 => RCode::YxDomain,
            7 => RCode::YxRrSet,
            8 => RCode::NxRrSet,
            9 => RCode::NotAuth,
            10 => RCode::NotZone,
            _ => RCode::ServFail,
        }
    }

    /// The response code's numeric value.
    pub fn as_u8(self) -> (r: u8)
        ensures
            r == rcode_value(self),
            rcode_of(r) == self,
    {
        match self {
            RCode::NoError => 0,
            RCode::FormErr => 1,
            RCode::ServFail => 2,
            RCode::NxDomain => 3,
            RCode::NotImp => 4,
            RCode::Refused => 5,
            RCode::YxDomain => 6,
            RCode::YxRrSet => 7,
            RCode::NxRrSet => 8,
            RCode::NotAuth => 9,
            RCode::NotZone => 10,
        }
    }
}

/// Header flag bits (QR, AA, TC, RD, RA, AD, CD).
///
/// RFC 4035 §4.6 redefined two of the former Z bits as AD and CD; the remaining
/// Z bit must be zero on the wire.
#[derive(Debug, Clone, Copy, Default, PartialEq, Eq, Hash, Structural)]
pub struct Flags {
    /// Query (false) / Response (true).
    pub qr: bool,
    /// Authoritative Answer.
    pub aa: bool,
    /// Truncated.
    pub tc: bool,
    /// Recursion Desired.
    pub rd: bool,
    /// Recursion Available.
    pub ra: bool,
    /// Authenticated Data.
    pub ad: bool,
    /// Checking Disabled.
    pub cd: bool,
}

/// The 12-byte DNS message header.
#[derive(Debug, Clone, Copy, PartialEq, Eq, Structural)]
pub struct Header {
    pub id: u16,
    pub flags: Flags,
    pub opcode: OpCode,
    pub rcode: RCode,
    pub qdcount: u16,
    pub ancount: u16,
    pub nscount: u16,
    pub arcount: u16,
}

/// The header with every field zero: a standard query with no sections.
pub open spec fn default_header() -> Header {
    Header {
        id: 0,
        flags: Flags { qr: false, aa: false, tc: false, rd: false, ra: false, ad: false, cd: false },
        opcode: OpCode::Query,
        rcode: RCode::NoError,
        qdcount: 0,
        ancount: 0,
        nscount: 0,
        arcount: 0,
    }
}

impl Default for Header {
    fn default() -> (r: Self)
        ensures
            r == default_header(),
    {
        Header {
            id: 0,
            flags: Flags { qr: false, aa: false, tc: false, rd: false, ra: false, ad: false, cd: false },
            opcode: OpCode::Query,
            rcode: RCode::NoError,
            qdcount: 0,
            ancount: 0,
            nscount: 0,
            arcount: 0,
        }
    }
}

/// Byte 2 of an encoded header: QR | OPCODE | AA | TC | RD.
pub open spec fn header_byte2(h: Header) -> u8 {
    (if h.flags.qr { 0x80u8 } else { 0u8 }) | ((opcode_value(h.opcode) & 0x0F) << 3u8) | (if h.flags.aa {
        0x04u8
    } else {
        0u8
    }) | (if h.flags.tc { 0x02u8 } else { 0u8 }) | (if h.flags.rd { 0x01u8 } else { 0u8 })
}

/// Byte 3 of an encoded header: RA | Z(0) | AD | CD | RCODE.
pub open spec fn header_byte3(h: Header) -> u8 {
    (if h.flags.ra { 0x80u8 } else { 0u8 }) | (if h.flags.ad { 0x20u8 } else { 0u8 }) | (if h.flags.cd {
        0x10u8
    } else {
        0u8
    }) | (rcode_value(h.rcode) & 0x0F)
}

/// The 12 bytes that encode `h`.
pub open spec fn header_bytes(h: Header) -> Seq<u8> {
    seq![
        (h.id / 256) as u8, (h.id % 256) as u8,
        header_byte2(h), header_byte3(h),
        (h.qdcount / 256) as u8, (h.qdcount % 256) as u8,
        (h.ancount / 256) as u8, (h.ancount % 256) as u8,
        (h.nscount / 256) as u8, (h.nscount % 256) as u8,
        (h.arcount / 256) as u8, (h.arcount % 256) as u8,
    ]
}

/// The header that the first 12 bytes of `buf` encode, or the error that
/// decoding reports.
pub open spec fn decode_header(buf: Seq<u8>) -> Result<Header, ParseError> {
    if buf.len() < HEADER_LEN {
        Err(ParseError::TruncatedHeader { got: buf.len() as usize })
    } else {
        let b2 = buf[2];
        let b3 = buf[3];
        if (b3 & 0x40) >> 6u8 != 0 {
            Err(ParseError::ReservedBitsSet { bits: (b3 & 0x40) >> 6u8 })
        } else {
            match opcode_of((b2 & 0x78) >> 3u8) {
                None => Err(ParseError::UnknownOpCode((b2 & 0x78) >> 3u8)),
                Some(opcode) => Ok(
                    Header {
                        id: be16_at(buf, 0),
                        flags: Flags {
                            qr: b2 & 0x80 != 0,
                            aa: b2 & 0x04 != 0,
                            tc: b2 & 0x02 != 0,
                            rd: b2 & 0x01 != 0,
                            ra: b3 & 0x80 != 0,
                            ad: b3 & 0x20 != 0,
                            cd: b3 & 0x10 != 0,
                        },
                        opcode,
                        rcode: rcode_of(b3 & 0x0F),
                        qdcount: be16_at(buf, 4),
                        ancount: be16_at(buf, 6),
                        nscount: be16_at(buf, 8),
                        arcount: be16_at(buf, 10),
                    },
                ),
            }
        }
    }
}

impl Header {
    /// Decode a 12-byte DNS header from the start of `buf`.
    pub fn decode(buf: &[u8]) -> (r: Result<Self, ParseError>)
        ensures
            r == decode_header(buf@),
    {
        if buf.len() < HEADER_LEN {
            return Err(ParseError::TruncatedHeader { got: buf.len() });
        }
        let id = read_be16(buf, 0);
        let b2 = buf[2];
        let b3 = buf[3];

        let qr = (b2 & 0x80) != 0;
        let opcode_bits = (b2 & 0x78) >> 3u8;
        let aa = (b2 & 0x04) != 0;
        let tc = (b2 & 0x02) != 0;
        let rd = (b2 & 0x01) != 0;

        let ra = (b3 & 0x80) != 0;
        let z = (b3 & 0x40) >> 6u8;
        let ad = (b3 & 0x20) != 0;
        let cd = (b3 & 0x10) != 0;
        let rcode_bits = b3 & 0x0F;

        if z != 0 {
            return Err(ParseError::ReservedBitsSet { bits: z });
        }
        let opcode = match OpCode::from_u8(opcode_bits) {
            Ok(op) => op,
            Err(e) => return Err(e),
        };
        let rcode = RCode::from_u8(rcode_bits);
        let qdcount = read_be16(buf, 4);
        let ancount = read_be16(buf, 6);
        let nscount = read_be16(buf, 8);
        let arcount = read_be16(buf, 10);
        Ok(Header {
            id,
            flags: Flags { qr, aa, tc, rd, ra, ad, cd },
            opcode,
            rcode,
            qdcount,
            ancount,
            nscount,
            arcount,
        })
    }

    /// Encode into `out`. Returns the number of bytes written (always 12).
    pub fn encode(&self, out: &mut [u8]) -> (r: Result<usize, ParseError>)
        ensures
            old(out)@.len() < HEADER_LEN ==> r == Err::<usize, ParseError>(
                ParseError::OutputBufferTooSmall { need: HEADER_LEN, have: old(out)@.len() as usize },
            ) && final(out)@ == old(out)@,
            old(out)@.len() >= HEADER_LEN ==> r == Ok::<usize, ParseError>(HEADER_LEN)
                && final(out)@ == header_bytes(*self) + old(out)@.skip(HEADER_LEN as int),
    {
        if out.len() < HEADER_LEN {
            return Err(ParseError::OutputBufferTooSmall { need: HEADER_LEN, have: out.len() });
        }
        let ghost start = out@;
        write_be16(out, 0, self.id);

        let b2: u8 = (if self.flags.qr { 0x80u8 } else { 0u8 }) | ((self.opcode.as_u8() & 0x0F) << 3u8)
            | (if self.flags.aa { 0x04u8 } else { 0u8 }) | (if self.flags.tc { 0x02u8 } else { 0u8 }) | (
        if self.flags.rd { 0x01u8 } else { 0u8 });
        out[2] = b2;
        // The Z bit is zero by construction.
        let b3: u8 = (if self.flags.ra { 0x80u8 } else { 0u8 }) | (if self.flags.ad { 0x20u8 } else { 0u8 })
            | (if self.flags.cd { 0x10u8 } else { 0u8 }) | (self.rcode.as_u8() & 0x0F);
        out[3] = b3;

        write_be16(out, 4, self.qdcount);
        write_be16(out, 6, self.ancount);
        write_be16(out, 8, self.nscount);
        write_be16(out, 10, self.arcount);
        proof {
            let h = *self;
            assert(b2 == header_byte2(h));
            assert(b3 == header_byte3(h));
            assert(out@ =~= header_bytes(h) + start.skip(HEADER_LEN as int)) by {
                assert(header_bytes(h).len() == 12);
            }
        }
        Ok(HEADER_LEN)
    }
}

/// Decoding the bytes that encode a header gives that header back: the header
/// codec round-trips every header.
pub proof fn lemma_header_roundtrip(h: Header)
    ensures
        decode_header(header_bytes(h)) == Ok::<Header, ParseError>(h),
{
    let b = header_bytes(h);
    let b2 = header_byte2(h);
    let b3 = header_byte3(h);
    assert(b[2] == b2 && b[3] == b3);
    let qr = h.flags.qr;
    let aa = h.flags.aa;
    let tc = h.flags.tc;
    let rd = h.flags.rd;
    let ra = h.flags.ra;
    let ad = h.flags.ad;
    let cd = h.flags.cd;
    let op = opcode_value(h.opcode);
    let rc = rcode_value(h.rcode);
    assert(op <= 15 && rc <= 15);
    assert(op <= 15 ==> {
        let x = (if qr { 0x80u8 } else { 0u8 }) | ((op & 0x0F) << 3u8) | (if aa { 0x04u8 } else { 0u8 }) | (
        if tc { 0x02u8 } else { 0u8 }) | (if rd { 0x01u8 } else { 0u8 });
        &&& (x & 0x80 != 0) == qr
        &&& (x & 0x04 != 0) == aa
        &&& (x & 0x02 != 0) == tc
        &&& (x & 0x01 != 0) == rd
        &&& (x & 0x78) >> 3u8 == op
    }) by (bit_vector);
    assert(rc <= 15 ==> {
        let y = (if ra { 0x80u8 } else { 0u8 }) | (if ad { 0x20u8 } else { 0u8 }) | (if cd {
            0x10u8
        } else {
            0u8
        }) | (rc & 0x0F);
        &&& (y & 0x40) >> 6u8 == 0
        &&& (y & 0x80 != 0) == ra
        &&& (y & 0x20 != 0) == ad
        &&& (y & 0x10 != 0) == cd
        &&& y & 0x0F == rc
    }) by (bit_vector);
    assert(be16_at(b, 0) == h.id);
    assert(be16_at(b, 4) == h.qdcount);
    assert(be16_at(b, 6) == h.ancount);
    assert(be16_at(b, 8) == h.nscount);
    assert(be16_at(b, 10) == h.arcount);
}

} // verus!
