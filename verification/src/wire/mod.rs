//! RFC 1035 DNS wire codec.
//!
//! Parsing is strict: every violation surfaces as a specific [`ParseError`]
//! variant, and the encoder never emits a malformed header by construction.

pub mod error;
pub mod header;
pub mod name;
pub mod compress;
pub mod question;
pub mod rr;
pub mod message;
pub mod roundtrip;

pub use error::ParseError;
pub use header::{Flags, Header, OpCode, RCode};
pub use name::Name;
pub use compress::EncodeCtx;
pub use question::{QClass, QType, Question};
pub use rr::{RData, ResourceRecord, Soa};
pub use message::{Edns, Message, MAX_LABELS_PER_NAME};

use vstd::prelude::*;

verus! {

/// Maximum DNS message size over UDP without EDNS0 (RFC 1035 §4.2.1).
pub const MAX_UDP_MESSAGE_SIZE: usize = 512;

/// Maximum length of a DNS message on the wire. TCP prefixes with a 16-bit length.
pub const MAX_TCP_MESSAGE_SIZE: usize = 65535;

/// Maximum length of a single DNS label (RFC 1035 §2.3.4).
pub const MAX_LABEL_LEN: usize = 63;

/// Maximum length of a fully-qualified domain name on the wire (RFC 1035 §2.3.4).
pub const MAX_NAME_LEN: usize = 255;

/// Size of the fixed DNS message header.
pub const HEADER_LEN: usize = 12;

/// The big-endian 16-bit value stored at `b[i]`, `b[i + 1]`.
pub open spec fn be16_at(b: Seq<u8>, i: int) -> u16 {
    (b[i] as int * 256 + b[i + 1] as int) as u16
}

/// The big-endian 32-bit value stored at `b[i..i + 4]`.
pub open spec fn be32_at(b: Seq<u8>, i: int) -> u32 {
    (b[i] as int * 16777216 + b[i + 1] as int * 65536 + b[i + 2] as int * 256 + b[i + 3] as int) as u32
}

/// The two big-endian bytes of `v`.
pub open spec fn be16_bytes(v: u16) -> Seq<u8> {
    seq![(v / 256) as u8, (v % 256) as u8]
}

/// The four big-endian bytes of `v`.
pub open spec fn be32_bytes(v: u32) -> Seq<u8> {
    seq![(v / 16777216) as u8, ((v / 65536) % 256) as u8, ((v / 256) % 256) as u8, (v % 256) as u8]
}

/// Reading back the two bytes of `v` gives `v`.
pub proof fn lemma_be16_roundtrip(v: u16)
    ensures
        be16_at(be16_bytes(v), 0) == v,
{
}

/// Reading back the four bytes of `v` gives `v`.
pub proof fn lemma_be32_roundtrip(v: u32)
    ensures
        be32_at(be32_bytes(v), 0) == v,
{
}

/// Read a big-endian `u16` at `b[i]`.
pub fn read_be16(b: &[u8], i: usize) -> (r: u16)
    requires
        i + 2 <= b@.len(),
    ensures
        r == be16_at(b@, i as int),
{
    (b[i] as u16) * 256 + (b[i + 1] as u16)
}

/// Read a big-endian `u32` at `b[i]`.
pub fn read_be32(b: &[u8], i: usize) -> (r: u32)
    requires
        i + 4 <= b@.len(),
    ensures
        r == be32_at(b@, i as int),
{
    (b[i] as u32) * 16777216 + (b[i + 1] as u32) * 65536 + (b[i + 2] as u32) * 256 + (b[i + 3] as u32)
}

/// Write the big-endian bytes of `v` at `out[i]`.
pub fn write_be16(out: &mut [u8], i: usize, v: u16)
    requires
        i + 2 <= old(out)@.len(),
    ensures
        final(out)@ == old(out)@.update(i as int, (v / 256) as u8).update(i + 1, (v % 256) as u8),
{
    out[i] = (v / 256) as u8;
    out[i + 1] = (v % 256) as u8;
}

/// Write the big-endian bytes of `v` at `out[i]`.
pub fn write_be32(out: &mut [u8], i: usize, v: u32)
    requires
        i + 4 <= old(out)@.len(),
    ensures
        final(out)@ == old(out)@.update(i as int, (v / 16777216) as u8).update(
            i + 1,
            ((v / 65536) % 256) as u8,
        ).update(i + 2, ((v / 256) % 256) as u8).update(i + 3, (v % 256) as u8),
{
    out[i] = (v / 16777216) as u8;
    out[i + 1] = ((v / 65536) % 256) as u8;
    out[i + 2] = ((v / 256) % 256) as u8;
    out[i + 3] = (v % 256) as u8;
}

} // verus!
