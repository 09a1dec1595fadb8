//! Presentation-format RDATA: parse from a type mnemonic and a value string,
//! and print back in the form the loader accepts.
use super::{text, ZoneError, ZoneErrorV};
use crate::addr::{groups_octets, ipv4_text, ipv6_text, parse_ipv4, parse_ipv4_spec, parse_ipv6, parse_ipv6_spec};
use crate::text::{
    decimal, hex_bytes, int_error_message, int_error_text, lossy_text, parse_unsigned, parse_unsigned_bytes,
    push_bytes, push_decimal, split_once_space, split_once_space_bytes, split_whitespace_bytes, str_bytes,
    text_from_bytes, tokens_from, trim, trim_bytes, IntError,
};
use crate::wire::name::{label_views, name_from_ascii, name_text, Name};
use crate::wire::question::upper_bytes;
use crate::wire::rr::{RData, RDataV, SoaV};
use vstd::prelude::*;
use vstd::string::{StringExecFns, StringSliceAdditionalSpecFns};

verus! {

/// The name in the text `b`, or the loader's error for it.
pub open spec fn name_result(b: Seq<u8>) -> Result<Seq<Seq<u8>>, ZoneErrorV> {
    match name_from_ascii(b) {
        Ok(ls) => Ok(ls),
        Err(e) => Err(ZoneErrorV::Name { name: lossy_text(b), source: e }),
    }
}

/// Parse a name from text bytes; the error names the text.
pub fn parse_name_bytes(b: &[u8]) -> (r: Result<Name, ZoneError>)
    ensures
        match name_result(b@) {
            Ok(ls) => r matches Ok(n) && n@ == ls,
            Err(e) => r matches Err(err) && super::zone_error_view(err) == e,
        },
{
    match Name::from_ascii_bytes(b) {
        Ok(n) => Ok(n),
        Err(source) => Err(ZoneError::Name { name: text_from_bytes(b), source }),
    }
}

/// Parse a name from a string; the error names the string.
pub fn parse_name(s: &str) -> (r: Result<Name, ZoneError>)
    ensures
        match name_result(s.spec_bytes()) {
            Ok(ls) => r matches Ok(n) && n@ == ls,
            Err(e) => r matches Err(err) && super::zone_error_view(err) == e,
        },
{
    parse_name_bytes(str_bytes(s))
}

/// An RDATA error for type text `ut` and owner text `owner`.
pub open spec fn rdata_error(owner: Seq<char>, ut: Seq<u8>, msg: Seq<char>) -> ZoneErrorV {
    ZoneErrorV::Rdata { owner, rtype: lossy_text(ut), msg }
}

pub open spec fn map_name(r: Result<Seq<Seq<u8>>, ZoneErrorV>, f: spec_fn(Seq<Seq<u8>>) -> RDataV) -> Result<
    RDataV,
    ZoneErrorV,
> {
    match r {
        Ok(ls) => Ok(f(ls)),
        Err(e) => Err(e),
    }
}

/// A `u16` field of presentation text.
pub open spec fn u16_field(b: Seq<u8>) -> Result<u16, IntError> {
    match parse_unsigned(b, 65535) {
        Ok(v) => Ok(v as u16),
        Err(e) => Err(e),
    }
}

/// RDATA of (upper-cased) type text `u` with value text `v`. `full` admits
/// SRV and CAA as the record API does; the zone loader does not.
#[verifier::opaque]
pub open spec fn rdata_from_text(owner: Seq<char>, u: Seq<u8>, v: Seq<u8>, full: bool) -> Result<RDataV, ZoneErrorV> {
    if u == "A".spec_bytes() {
        match parse_ipv4_spec(v) {
            Some(o) => Ok(RDataV::A(o)),
            None => Err(rdata_error(owner, u, "invalid IPv4 address syntax"@)),
        }
    } else if u == "AAAA".spec_bytes() {
        match parse_ipv6_spec(v) {
            Some(g) => Ok(RDataV::Aaaa(groups_octets(g))),
            None => Err(rdata_error(owner, u, "invalid IPv6 address syntax"@)),
        }
    } else if u == "NS".spec_bytes() {
        map_name(name_result(v), |ls: Seq<Seq<u8>>| RDataV::Ns(ls))
    } else if u == "CNAME".spec_bytes() {
        map_name(name_result(v), |ls: Seq<Seq<u8>>| RDataV::Cname(ls))
    } else if u == "PTR".spec_bytes() {
        map_name(name_result(v), |ls: Seq<Seq<u8>>| RDataV::Ptr(ls))
    } else if u == "TXT".spec_bytes() {
        Ok(RDataV::Txt(seq![v]))
    } else if u == "MX".spec_bytes() {
        match split_once_space(v) {
            None => Err(rdata_error(owner, u, "expected `<preference> <exchange>`"@)),
            Some((p, x)) => match u16_field(p) {
                Err(ie) => Err(rdata_error(owner, u, int_error_text(ie))),
                Ok(pref) => map_name(
                    name_result(trim(x)),
                    |ls: Seq<Seq<u8>>| RDataV::Mx { preference: pref, exchange: ls },
                ),
            },
        }
    } else if full && u == "SRV".spec_bytes() {
        let parts = tokens_from(v, 0);
        if parts.len() != 4 {
            Err(rdata_error(owner, u, "expected `<priority> <weight> <port> <target>`"@))
        } else {
            match u16_field(parts[0]) {
                Err(ie) => Err(rdata_error(owner, u, int_error_text(ie))),
                Ok(priority) => match u16_field(parts[1]) {
                    Err(ie) => Err(rdata_error(owner, u, int_error_text(ie))),
                    Ok(weight) => match u16_field(parts[2]) {
                        Err(ie) => Err(rdata_error(owner, u, int_error_text(ie))),
                        Ok(port) => map_name(
                            name_result(parts[3]),
                            |ls: Seq<Seq<u8>>| RDataV::Srv { priority, weight, port, target: ls },
                        ),
                    },
                },
            }
        }
    } else if full && u == "CAA".spec_bytes() {
        match split_once_space(v) {
            None => Err(rdata_error(owner, u, "expected `<flags> <tag> <value>`"@)),
            Some((f, rest)) => match split_once_space(rest) {
                None => Err(rdata_error(owner, u, "expected `<flags> <tag> <value>`"@)),
                Some((tag, val)) => match parse_unsigned(f, 255) {
                    Err(ie) => Err(rdata_error(owner, u, int_error_text(ie))),
                    Ok(flags) => Ok(RDataV::Caa { flags: flags as u8, tag, value: val }),
                },
            },
        }
    } else if full {
        Err(rdata_error(owner, u, "unsupported record type"@))
    } else {
        Err(rdata_error(owner, u, "unsupported record type in M1"@))
    }
}

fn is_word(u: &Vec<u8>, w: &str) -> (r: bool)
    ensures
        r == (u@ == w.spec_bytes()),
{
    crate::wire::compress::bytes_eq(u.as_slice(), str_bytes(w))
}

fn rdata_err(owner: &String, u: &Vec<u8>, msg: String) -> (r: ZoneError)
    ensures
        super::zone_error_view(r) == rdata_error(owner@, u@, msg@),
{
    ZoneError::Rdata { owner: owner.clone(), rtype: text_from_bytes(u.as_slice()), msg }
}

fn u16_field_exec(b: &[u8]) -> (r: Result<u16, IntError>)
    ensures
        r == u16_field(b@),
{
    match parse_unsigned_bytes(b, 65535) {
        Ok(v) => Ok(v as u16),
        Err(e) => Err(e),
    }
}

/// RDATA from upper-cased type bytes `u` and value bytes `v`: see
/// [`rdata_from_text`].
#[verifier::rlimit(60)]
pub fn rdata_from_text_exec(owner: &String, u: &Vec<u8>, v: &[u8], full: bool) -> (r: Result<RData, ZoneError>)
    ensures
        match rdata_from_text(owner@, u@, v@, full) {
            Ok(d) => r matches Ok(x) && crate::wire::rr::rdata_view(x) == d,
            Err(e) => r matches Err(err) && super::zone_error_view(err) == e,
        },
{
    reveal(rdata_from_text);
    if is_word(u, "A") {
        match parse_ipv4(v) {
            Some(a) => Ok(RData::A(a)),
            None => Err(rdata_err(owner, u, text("invalid IPv4 address syntax"))),
        }
    } else if is_word(u, "AAAA") {
        match parse_ipv6(v) {
            Some(a) => Ok(RData::Aaaa(a)),
            None => Err(rdata_err(owner, u, text("invalid IPv6 address syntax"))),
        }
    } else if is_word(u, "NS") {
        match parse_name_bytes(v) {
            Ok(n) => Ok(RData::Ns(n)),
            Err(e) => Err(e),
        }
    } else if is_word(u, "CNAME") {
        match parse_name_bytes(v) {
            Ok(n) => Ok(RData::Cname(n)),
            Err(e) => Err(e),
        }
    } else if is_word(u, "PTR") {
        match parse_name_bytes(v) {
            Ok(n) => Ok(RData::Ptr(n)),
            Err(e) => Err(e),
        }
    } else if is_word(u, "TXT") {
        let mut chunks: Vec<Vec<u8>> = Vec::new();
        chunks.push(vstd::slice::slice_to_vec(v));
        proof {
            assert(label_views(chunks@) =~= seq![v@]);
        }
        Ok(RData::Txt(chunks))
    } else if is_word(u, "MX") {
        match split_once_space_bytes(v) {
            None => Err(rdata_err(owner, u, text("expected `<preference> <exchange>`"))),
            Some((p, x)) => match u16_field_exec(p.as_slice()) {
                Err(ie) => Err(rdata_err(owner, u, int_error_message(ie))),
                Ok(preference) => {
                    let t = trim_bytes(x.as_slice());
                    match parse_name_bytes(t.as_slice()) {
                        Ok(exchange) => Ok(RData::Mx { preference, exchange }),
                        Err(e) => Err(e),
                    }
                },
            },
        }
    } else if full && is_word(u, "SRV") {
        let parts = split_whitespace_bytes(v);
        if parts.len() != 4 {
            return Err(rdata_err(owner, u, text("expected `<priority> <weight> <port> <target>`")));
        }
        proof {
            assert(parts@[0]@ == tokens_from(v@, 0)[0]);
            assert(parts@[1]@ == tokens_from(v@, 0)[1]);
            assert(parts@[2]@ == tokens_from(v@, 0)[2]);
            assert(parts@[3]@ == tokens_from(v@, 0)[3]);
        }
        let priority = match u16_field_exec(parts[0].as_slice()) {
            Ok(x) => x,
            Err(ie) => return Err(rdata_err(owner, u, int_error_message(ie))),
        };
        let weight = match u16_field_exec(parts[1].as_slice()) {
            Ok(x) => x,
            Err(ie) => return Err(rdata_err(owner, u, int_error_message(ie))),
        };
        let port = match u16_field_exec(parts[2].as_slice()) {
            Ok(x) => x,
            Err(ie) => return Err(rdata_err(owner, u, int_error_message(ie))),
        };
        match parse_name_bytes(parts[3].as_slice()) {
            Ok(target) => Ok(RData::Srv { priority, weight, port, target }),
            Err(e) => Err(e),
        }
    } else if full && is_word(u, "CAA") {
        match split_once_space_bytes(v) {
            None => Err(rdata_err(owner, u, text("expected `<flags> <tag> <value>`"))),
            Some((f, rest)) => match split_once_space_bytes(rest.as_slice()) {
                None => Err(rdata_err(owner, u, text("expected `<flags> <tag> <value>`"))),
                Some((tag, value)) => match parse_unsigned_bytes(f.as_slice(), 255) {
                    Err(ie) => Err(rdata_err(owner, u, int_error_message(ie))),
                    Ok(flags) => Ok(RData::Caa { flags: flags as u8, tag, value }),
                },
            },
        }
    } else if full {
        Err(rdata_err(owner, u, text("unsupported record type")))
    } else {
        Err(rdata_err(owner, u, text("unsupported record type in M1")))
    }
}

/// Parse a single RDATA value from its mnemonic type (any case) and
/// presentation string.
pub fn parse_rdata(rtype: &str, value: &str) -> (r: Result<RData, ZoneError>)
    ensures
        match rdata_from_text(Seq::<char>::empty(), upper_bytes(rtype.spec_bytes()), value.spec_bytes(), true) {
            Ok(d) => r matches Ok(x) && crate::wire::rr::rdata_view(x) == d,
            Err(e) => r matches Err(err) && super::zone_error_view(err) == e,
        },
{
    let u = crate::wire::question::upper_ascii(str_bytes(rtype));
    let owner = String::new();
    rdata_from_text_exec(&owner, &u, str_bytes(value), true)
}

// ---------------------------------------------------------------------------
// Presentation
// ---------------------------------------------------------------------------

/// The presentation bytes of RDATA other than TXT (which is printed chunk
/// by chunk).
pub open spec fn presentation_bytes(d: RDataV) -> Seq<u8> {
    let sp = seq![32u8];
    match d {
        RDataV::A(o) => ipv4_text(o),
        RDataV::Aaaa(o) => ipv6_text(o),
        RDataV::Ns(n) => name_text(n),
        RDataV::Cname(n) => name_text(n),
        RDataV::Ptr(n) => name_text(n),
        RDataV::Mx { preference, exchange } => decimal(preference as nat) + sp + name_text(exchange),
        RDataV::Txt(_) => seq![],
        RDataV::Soa(s) => name_text(s.mname) + sp + name_text(s.rname) + sp + decimal(s.serial as nat) + sp + decimal(
            s.refresh as nat,
        ) + sp + decimal(s.retry as nat) + sp + decimal(s.expire as nat) + sp + decimal(s.minimum as nat),
        RDataV::Srv { priority, weight, port, target } => decimal(priority as nat) + sp + decimal(weight as nat) + sp
            + decimal(port as nat) + sp + name_text(target),
        RDataV::Caa { flags, tag, value } => decimal(flags as nat) + sp + tag + sp + value,
        RDataV::Unknown { data, .. } => seq![92u8, 35u8, 32u8] + decimal(data.len()) + sp + hex_bytes(data),
    }
}

/// The text of TXT chunks: each chunk's text, concatenated.
pub open spec fn chunks_text(ss: Seq<Seq<u8>>) -> Seq<char>
    decreases ss.len(),
{
    if ss.len() == 0 {
        seq![]
    } else {
        chunks_text(ss.drop_last()) + lossy_text(ss.last())
    }
}

/// The TXT chunks decoded as UTF-8, concatenated.
pub open spec fn chunks_decoded(ss: Seq<Seq<u8>>) -> Seq<char>
    decreases ss.len(),
{
    if ss.len() == 0 {
        seq![]
    } else {
        chunks_decoded(ss.drop_last()) + vstd::utf8::decode_utf8(ss.last())
    }
}

/// The TXT chunks' bytes, concatenated.
pub open spec fn chunks_bytes(ss: Seq<Seq<u8>>) -> Seq<u8>
    decreases ss.len(),
{
    if ss.len() == 0 {
        seq![]
    } else {
        chunks_bytes(ss.drop_last()) + ss.last()
    }
}

/// Every chunk is valid UTF-8.
pub open spec fn chunks_utf8(ss: Seq<Seq<u8>>) -> bool {
    forall|i: int| 0 <= i < ss.len() ==> vstd::utf8::valid_utf8(#[trigger] ss[i])
}

/// Every chunk is ASCII.
pub open spec fn chunks_ascii(ss: Seq<Seq<u8>>) -> bool {
    forall|i: int| 0 <= i < ss.len() ==> crate::text::all_ascii(#[trigger] ss[i])
}

/// ASCII chunks decode to the characters of their concatenated bytes.
pub proof fn lemma_chunks_ascii(ss: Seq<Seq<u8>>)
    requires
        chunks_ascii(ss),
    ensures
        chunks_utf8(ss),
        chunks_decoded(ss) == crate::text::ascii_chars(chunks_bytes(ss)),
    decreases ss.len(),
{
    assert forall|i: int| 0 <= i < ss.len() implies vstd::utf8::valid_utf8(#[trigger] ss[i]) by {
        crate::text::lemma_ascii_utf8(ss[i]);
    }
    if ss.len() > 0 {
        let init = ss.drop_last();
        assert(chunks_ascii(init)) by {
            assert forall|i: int| 0 <= i < init.len() implies crate::text::all_ascii(#[trigger] init[i]) by {
                assert(init[i] == ss[i]);
            }
        }
        lemma_chunks_ascii(init);
        crate::text::lemma_ascii_utf8(ss.last());
        assert(crate::text::ascii_chars(chunks_bytes(init) + ss.last()) =~= crate::text::ascii_chars(
            chunks_bytes(init),
        ) + crate::text::ascii_chars(ss.last()));
    }
}

/// The presentation text of RDATA.
pub open spec fn rdata_text(d: RDataV) -> Seq<char> {
    match d {
        RDataV::Txt(ss) => chunks_text(ss),
        _ => lossy_text(presentation_bytes(d)),
    }
}

/// Render RDATA in the presentation form the loader accepts.
pub fn rdata_presentation(data: &RData) -> (r: String)
    ensures
        r@ == rdata_text(crate::wire::rr::rdata_view(*data)),
        match crate::wire::rr::rdata_view(*data) {
            RDataV::Txt(ss) => {
                &&& chunks_utf8(ss) ==> r@ == chunks_decoded(ss)
                &&& chunks_ascii(ss) ==> r@ == crate::text::ascii_chars(chunks_bytes(ss))
            },
            v => {
                &&& vstd::utf8::valid_utf8(presentation_bytes(v)) ==> r@ == vstd::utf8::decode_utf8(
                    presentation_bytes(v),
                )
                &&& crate::text::all_ascii(presentation_bytes(v)) ==> r@ == crate::text::ascii_chars(
                    presentation_bytes(v),
                )
            },
        },
{
    match data {
        RData::Txt(chunks) => {
            let mut s = String::new();
            let mut i: usize = 0;
            while i < chunks.len()
                invariant
                    i <= chunks@.len(),
                    s@ == chunks_text(label_views(chunks@).take(i as int)),
                    chunks_utf8(label_views(chunks@)) ==> s@ == chunks_decoded(label_views(chunks@).take(i as int)),
                decreases chunks@.len() - i,
            {
                let piece = text_from_bytes(chunks[i].as_slice());
                proof {
                    assert(label_views(chunks@).take(i as int + 1).drop_last() =~= label_views(chunks@).take(i as int));
                    assert(label_views(chunks@)[i as int] == chunks@[i as int]@);
                    assert(label_views(chunks@).take(i as int + 1).last() == chunks@[i as int]@);
                }
                s.append(piece.as_str());
                i = i + 1;
            }
            proof {
                assert(label_views(chunks@).take(i as int) =~= label_views(chunks@));
                if chunks_ascii(label_views(chunks@)) {
                    lemma_chunks_ascii(label_views(chunks@));
                }
            }
            s
        },
        _ => {
            let b = presentation_bytes_exec(data);
            proof {
                if crate::text::all_ascii(b@) {
                    crate::text::lemma_ascii_utf8(b@);
                }
            }
            text_from_bytes(b.as_slice())
        },
    }
}

fn presentation_bytes_exec(data: &RData) -> (r: Vec<u8>)
    ensures
        r@ == presentation_bytes(crate::wire::rr::rdata_view(*data)),
{
    let mut out: Vec<u8> = Vec::new();
    match data {
        RData::A(o) => crate::addr::push_ipv4_text(&mut out, o),
        RData::Aaaa(o) => crate::addr::push_ipv6_text(&mut out, o),
        RData::Ns(n) => {
            out = n.to_ascii_bytes();
        },
        RData::Cname(n) => {
            out = n.to_ascii_bytes();
        },
        RData::Ptr(n) => {
            out = n.to_ascii_bytes();
        },
        RData::Mx { preference, exchange } => {
            push_decimal(&mut out, *preference as u64);
            out.push(32u8);
            push_bytes(&mut out, exchange.to_ascii_bytes().as_slice());
        },
        RData::Txt(_) => {},
        RData::Soa(s) => {
            push_bytes(&mut out, s.mname.to_ascii_bytes().as_slice());
            out.push(32u8);
            push_bytes(&mut out, s.rname.to_ascii_bytes().as_slice());
            out.push(32u8);
            push_decimal(&mut out, s.serial as u64);
            out.push(32u8);
            push_decimal(&mut out, s.refresh as u64);
            out.push(32u8);
            push_decimal(&mut out, s.retry as u64);
            out.push(32u8);
            push_decimal(&mut out, s.expire as u64);
            out.push(32u8);
            push_decimal(&mut out, s.minimum as u64);
        },
        RData::Srv { priority, weight, port, target } => {
            push_decimal(&mut out, *priority as u64);
            out.push(32u8);
            push_decimal(&mut out, *weight as u64);
            out.push(32u8);
            push_decimal(&mut out, *port as u64);
            out.push(32u8);
            push_bytes(&mut out, target.to_ascii_bytes().as_slice());
        },
        RData::Caa { flags, tag, value } => {
            push_decimal(&mut out, *flags as u64);
            out.push(32u8);
            push_bytes(&mut out, tag.as_slice());
            out.push(32u8);
            push_bytes(&mut out, value.as_slice());
        },
        RData::Unknown { data, .. } => {
            out.push(92u8);
            out.push(35u8);
            out.push(32u8);
            push_decimal(&mut out, data.len() as u64);
            out.push(32u8);
            let h = crate::text::hex_encode_bytes(data.as_slice());
            push_bytes(&mut out, h.as_slice());
        },
    }
    proof {
        assert(out@ =~= presentation_bytes(crate::wire::rr::rdata_view(*data)));
    }
    out
}

} // verus!
