//! Byte-level text helpers: ASCII views of byte strings, decimal and hex
//! rendering, and the one conversion from bytes to `String`.
use vstd::prelude::*;
use vstd::string::StringSliceAdditionalSpecFns;
use vstd::string::StringExecFns;

verus! {

/// Every byte is 7-bit ASCII.
pub open spec fn all_ascii(b: Seq<u8>) -> bool {
    forall|i: int| 0 <= i < b.len() ==> (#[trigger] b[i]) < 128
}

/// The characters of an ASCII byte string.
pub open spec fn ascii_chars(b: Seq<u8>) -> Seq<char> {
    b.map_values(|c: u8| c as char)
}

/// What `String::from_utf8_lossy` makes of `b`.
pub uninterp spec fn lossy_text(b: Seq<u8>) -> Seq<char>;

/// `String::from_utf8_lossy(b).into_owned()`: the text of `b`, with each
/// invalid UTF-8 sequence replaced by U+FFFD. Valid UTF-8 (ASCII in
/// particular) comes back unchanged.
#[verifier::external_body]
pub(crate) fn text_from_bytes(b: &[u8]) -> (r: String)
    ensures
        r@ == lossy_text(b@),
        vstd::utf8::valid_utf8(b@) ==> r@ == vstd::utf8::decode_utf8(b@),
        all_ascii(b@) ==> r@ == ascii_chars(b@),
{
    String::from_utf8_lossy(b).into_owned()
}

/// The bytes of `s`.
pub fn str_bytes(s: &str) -> (r: &[u8])
    ensures
        r@ == s.spec_bytes(),
{
    s.as_bytes()
}

/// Decimal digits of `n`, most significant first, without leading zeros
/// (`"0"` for zero).
pub open spec fn decimal(n: nat) -> Seq<u8>
    decreases n,
{
    if n < 10 {
        seq![(48 + n) as u8]
    } else {
        decimal(n / 10).push((48 + n % 10) as u8)
    }
}

/// Append the decimal digits of `n` to `out`.
pub fn push_decimal(out: &mut Vec<u8>, n: u64)
    ensures
        final(out)@ == old(out)@ + decimal(n as nat),
    decreases n,
{
    if n < 10 {
        out.push((48 + n) as u8);
        proof {
            assert(decimal(n as nat) =~= seq![(48 + n) as u8]);
        }
    } else {
        push_decimal(out, n / 10);
        out.push((48 + n % 10) as u8);
        proof {
            assert(final(out)@ =~= old(out)@ + decimal(n as nat));
        }
    }
}

/// Lower-case hex digit for a nibble.
pub open spec fn hex_digit(v: u8) -> u8 {
    if v < 10 {
        (48 + v) as u8
    } else {
        (87 + v) as u8
    }
}

/// Two lower-case hex digits per byte.
pub open spec fn hex_bytes(b: Seq<u8>) -> Seq<u8>
    decreases b.len(),
{
    if b.len() == 0 {
        seq![]
    } else {
        hex_bytes(b.drop_last()) + seq![hex_digit(b.last() / 16), hex_digit(b.last() % 16)]
    }
}

/// Two lower-case hex digits per byte, as bytes.
pub fn hex_encode_bytes(bytes: &[u8]) -> (r: Vec<u8>)
    ensures
        r@ == hex_bytes(bytes@),
        all_ascii(r@),
{
    let mut out: Vec<u8> = Vec::new();
    let mut i: usize = 0;
    while i < bytes.len()
        invariant
            i <= bytes.len(),
            out@ == hex_bytes(bytes@.take(i as int)),
            all_ascii(out@),
        decreases bytes.len() - i,
    {
        let b = bytes[i];
        let hi = b / 16;
        let lo = b % 16;
        out.push(if hi < 10 { 48 + hi } else { 87 + hi });
        out.push(if lo < 10 { 48 + lo } else { 87 + lo });
        proof {
            assert(bytes@.take(i as int + 1).drop_last() =~= bytes@.take(i as int));
        }
        i = i + 1;
    }
    proof {
        assert(bytes@.take(i as int) =~= bytes@);
    }
    out
}

/// The bytes of `a` followed by those of `b`.
pub fn concat_bytes(a: &[u8], b: &[u8]) -> (r: Vec<u8>)
    ensures
        r@ == a@ + b@,
{
    let mut out = vstd::slice::slice_to_vec(a);
    let mut i: usize = 0;
    while i < b.len()
        invariant
            i <= b.len(),
            out@ == a@ + b@.take(i as int),
        decreases b.len() - i,
    {
        out.push(b[i]);
        i = i + 1;
        proof {
            assert(out@ =~= a@ + b@.take(i as int));
        }
    }
    proof {
        assert(b@.take(i as int) =~= b@);
    }
    out
}

/// Append `b` to `out`.
pub fn push_bytes(out: &mut Vec<u8>, b: &[u8])
    ensures
        final(out)@ == old(out)@ + b@,
{
    let mut i: usize = 0;
    while i < b.len()
        invariant
            i <= b.len(),
            out@ == old(out)@ + b@.take(i as int),
        decreases b.len() - i,
    {
        out.push(b[i]);
        i = i + 1;
        proof {
            assert(out@ =~= old(out)@ + b@.take(i as int));
        }
    }
    proof {
        assert(b@.take(i as int) =~= b@);
    }
}

// ---------------------------------------------------------------------------
// Whitespace (Unicode White_Space, as `char::is_whitespace` sees it) in
// UTF-8 bytes.
// ---------------------------------------------------------------------------

pub open spec fn ws1(c: u8) -> bool {
    (9 <= c <= 13) || c == 32
}

pub open spec fn ws2(a: u8, b: u8) -> bool {
    a == 0xC2 && (b == 0x85 || b == 0xA0)
}

pub open spec fn ws3(a: u8, b: u8, c: u8) -> bool {
    ||| (a == 0xE1 && b == 0x9A && c == 0x80)
    ||| (a == 0xE2 && b == 0x80 && ((0x80 <= c <= 0x8A) || c == 0xA8 || c == 0xA9 || c == 0xAF))
    ||| (a == 0xE2 && b == 0x81 && c == 0x9F)
    ||| (a == 0xE3 && b == 0x80 && c == 0x80)
}

/// Byte length of the whitespace character starting at `i` (0 if none).
pub open spec fn ws_len_at(b: Seq<u8>, i: int) -> int {
    if i < 0 || i >= b.len() {
        0
    } else if ws1(b[i]) {
        1
    } else if i + 1 < b.len() && ws2(b[i], b[i + 1]) {
        2
    } else if i + 2 < b.len() && ws3(b[i], b[i + 1], b[i + 2]) {
        3
    } else {
        0
    }
}

/// Byte length of the whitespace character ending `b` (0 if none).
pub open spec fn ws_len_end(b: Seq<u8>) -> int {
    let n = b.len() as int;
    if n == 0 {
        0
    } else if ws1(b[n - 1]) {
        1
    } else if n >= 2 && ws2(b[n - 2], b[n - 1]) {
        2
    } else if n >= 3 && ws3(b[n - 3], b[n - 2], b[n - 1]) {
        3
    } else {
        0
    }
}

pub fn ws_len_at_exec(b: &[u8], i: usize) -> (r: usize)
    ensures
        r == ws_len_at(b@, i as int),
        r <= 3,
{
    let n = b.len();
    if i >= n {
        return 0;
    }
    let c = b[i];
    if (9 <= c && c <= 13) || c == 32 {
        return 1;
    }
    if n - i > 1 && c == 0xC2 && (b[i + 1] == 0x85 || b[i + 1] == 0xA0) {
        return 2;
    }
    if n - i > 2 {
        let x = b[i + 1];
        let y = b[i + 2];
        if (c == 0xE1 && x == 0x9A && y == 0x80) || (c == 0xE2 && x == 0x80 && ((0x80 <= y && y <= 0x8A) || y
            == 0xA8 || y == 0xA9 || y == 0xAF)) || (c == 0xE2 && x == 0x81 && y == 0x9F) || (c == 0xE3 && x == 0x80
            && y == 0x80) {
            return 3;
        }
    }
    0
}

fn ws_len_end_exec(b: &[u8], n: usize) -> (r: usize)
    requires
        n <= b@.len(),
    ensures
        r == ws_len_end(b@.take(n as int)),
        r <= n,
{
    let ghost t = b@.take(n as int);
    if n == 0 {
        return 0;
    }
    let c = b[n - 1];
    if (9 <= c && c <= 13) || c == 32 {
        return 1;
    }
    if n >= 2 && b[n - 2] == 0xC2 && (c == 0x85 || c == 0xA0) {
        return 2;
    }
    if n >= 3 {
        let a = b[n - 3];
        let x = b[n - 2];
        if (a == 0xE1 && x == 0x9A && c == 0x80) || (a == 0xE2 && x == 0x80 && ((0x80 <= c && c <= 0x8A) || c
            == 0xA8 || c == 0xA9 || c == 0xAF)) || (a == 0xE2 && x == 0x81 && c == 0x9F) || (a == 0xE3 && x == 0x80
            && c == 0x80) {
            return 3;
        }
    }
    0
}

/// Leading whitespace removed.
pub open spec fn trim_start(b: Seq<u8>) -> Seq<u8>
    decreases b.len(),
{
    if ws_len_at(b, 0) > 0 {
        trim_start(b.skip(ws_len_at(b, 0)))
    } else {
        b
    }
}

/// Trailing whitespace removed.
pub open spec fn trim_end(b: Seq<u8>) -> Seq<u8>
    decreases b.len(),
{
    if ws_len_end(b) > 0 {
        trim_end(b.take(b.len() - ws_len_end(b)))
    } else {
        b
    }
}

/// `str::trim`: leading and trailing whitespace removed.
pub open spec fn trim(b: Seq<u8>) -> Seq<u8> {
    trim_end(trim_start(b))
}

/// `str::trim` on bytes.
pub fn trim_bytes(b: &[u8]) -> (r: Vec<u8>)
    ensures
        r@ == trim(b@),
{
    let mut i: usize = 0;
    proof {
        assert(b@.skip(0) =~= b@);
    }
    while i < b.len() && ws_len_at_exec(b, i) > 0
        invariant
            i <= b@.len(),
            trim_start(b@) == trim_start(b@.skip(i as int)),
        decreases b@.len() - i,
    {
        let w = ws_len_at_exec(b, i);
        proof {
            assert(ws_len_at(b@.skip(i as int), 0) == ws_len_at(b@, i as int));
            assert(b@.skip(i as int).skip(w as int) =~= b@.skip(i + w));
        }
        i = i + w;
    }
    proof {
        assert(ws_len_at(b@.skip(i as int), 0) == ws_len_at(b@, i as int));
    }
    let rest = vstd::slice::slice_subrange(b, i, b.len());
    proof {
        assert(rest@ =~= b@.skip(i as int));
        assert(trim_start(b@) == rest@);
    }
    let mut n: usize = rest.len();
    proof {
        assert(rest@.take(n as int) =~= rest@);
    }
    while n > 0 && ws_len_end_exec(rest, n) > 0
        invariant
            n <= rest@.len(),
            trim_end(rest@) == trim_end(rest@.take(n as int)),
        decreases n,
    {
        let w = ws_len_end_exec(rest, n);
        proof {
            assert(rest@.take(n as int).take(n - w) =~= rest@.take(n - w));
        }
        n = n - w;
    }
    let out = vstd::slice::slice_to_vec(vstd::slice::slice_subrange(rest, 0, n));
    proof {
        assert(out@ =~= rest@.take(n as int));
        if n == 0 {
            assert(ws_len_end(rest@.take(0)) == 0);
        }
    }
    out
}

/// Position of the first space byte at or after `i`, if any.
pub open spec fn space_from(b: Seq<u8>, i: int) -> Option<int>
    decreases b.len() - i,
{
    if i < 0 || i >= b.len() {
        None
    } else if b[i] == 32 {
        Some(i)
    } else {
        space_from(b, i + 1)
    }
}

/// `str::split_once(' ')`: the parts before and after the first space.
pub open spec fn split_once_space(b: Seq<u8>) -> Option<(Seq<u8>, Seq<u8>)> {
    match space_from(b, 0) {
        Some(k) => Some((b.take(k), b.skip(k + 1))),
        None => None,
    }
}

/// `str::split_once(' ')` on bytes.
pub fn split_once_space_bytes(b: &[u8]) -> (r: Option<(Vec<u8>, Vec<u8>)>)
    ensures
        match split_once_space(b@) {
            Some((x, y)) => r matches Some((p, q)) && p@ == x && q@ == y,
            None => r is None,
        },
{
    let mut i: usize = 0;
    while i < b.len()
        invariant
            i <= b@.len(),
            space_from(b@, 0) == space_from(b@, i as int),
        decreases b@.len() - i,
    {
        if b[i] == 32 {
            let p = vstd::slice::slice_to_vec(vstd::slice::slice_subrange(b, 0, i));
            let q = vstd::slice::slice_to_vec(vstd::slice::slice_subrange(b, i + 1, b.len()));
            proof {
                assert(p@ =~= b@.take(i as int));
                assert(q@ =~= b@.skip(i + 1));
            }
            return Some((p, q));
        }
        i = i + 1;
    }
    None
}

/// Start of the next token at or after `i` (the end if none).
pub open spec fn skip_ws(b: Seq<u8>, i: int) -> int
    decreases b.len() - i,
{
    if i < 0 || i >= b.len() {
        b.len() as int
    } else if ws_len_at(b, i) > 0 {
        skip_ws(b, i + ws_len_at(b, i))
    } else {
        i
    }
}

/// End of the token starting at `i`: the next whitespace or the end.
pub open spec fn token_end(b: Seq<u8>, i: int) -> int
    decreases b.len() - i,
{
    if i < 0 || i >= b.len() {
        b.len() as int
    } else if ws_len_at(b, i) > 0 {
        i
    } else {
        token_end(b, i + 1)
    }
}

/// `str::split_whitespace` from byte `i` on.
pub open spec fn tokens_from(b: Seq<u8>, i: int) -> Seq<Seq<u8>>
    decreases b.len() - i,
{
    let j = skip_ws(b, i);
    if i < 0 || j >= b.len() || j < i {
        seq![]
    } else {
        let k = token_end(b, j);
        if k <= i || k > b.len() {
            seq![]
        } else {
            seq![b.subrange(j, k)] + tokens_from(b, k)
        }
    }
}

proof fn lemma_skip_ws_bounds(b: Seq<u8>, i: int)
    requires
        0 <= i <= b.len(),
    ensures
        i <= skip_ws(b, i) <= b.len(),
        skip_ws(b, i) < b.len() ==> ws_len_at(b, skip_ws(b, i)) == 0,
    decreases b.len() - i,
{
    if i < b.len() && ws_len_at(b, i) > 0 {
        lemma_skip_ws_bounds(b, i + ws_len_at(b, i));
    }
}

proof fn lemma_token_end_bounds(b: Seq<u8>, i: int)
    requires
        0 <= i <= b.len(),
    ensures
        i <= token_end(b, i) <= b.len(),
        i < b.len() && ws_len_at(b, i) == 0 ==> i < token_end(b, i),
    decreases b.len() - i,
{
    if i < b.len() && ws_len_at(b, i) == 0 {
        lemma_token_end_bounds(b, i + 1);
    }
}

/// `str::split_whitespace` on bytes.
pub fn split_whitespace_bytes(b: &[u8]) -> (r: Vec<Vec<u8>>)
    ensures
        crate::wire::name::label_views(r@) == tokens_from(b@, 0),
{
    let mut out: Vec<Vec<u8>> = Vec::new();
    let mut i: usize = 0;
    proof {
        assert(crate::wire::name::label_views(out@) =~= Seq::<Seq<u8>>::empty());
        assert(Seq::<Seq<u8>>::empty() + tokens_from(b@, 0) =~= tokens_from(b@, 0));
    }
    while i < b.len()
        invariant
            i <= b@.len(),
            crate::wire::name::label_views(out@) + tokens_from(b@, i as int) == tokens_from(b@, 0),
        decreases b@.len() - i,
    {
        let ghost i0 = i as int;
        let mut j = i;
        while j < b.len() && ws_len_at_exec(b, j) > 0
            invariant
                i0 <= j <= b@.len(),
                skip_ws(b@, i0) == skip_ws(b@, j as int),
            decreases b@.len() - j,
        {
            let w = ws_len_at_exec(b, j);
            j = j + w;
        }
        proof {
            lemma_skip_ws_bounds(b@, i0);
            assert(skip_ws(b@, j as int) == j);
        }
        if j >= b.len() {
            proof {
                assert(tokens_from(b@, i0) =~= Seq::<Seq<u8>>::empty());
            }
            i = j;
            proof {
                assert(tokens_from(b@, i as int) =~= Seq::<Seq<u8>>::empty());
            }
        } else {
            let mut k = j;
            while k < b.len() && ws_len_at_exec(b, k) == 0
                invariant
                    j <= k <= b@.len(),
                    token_end(b@, j as int) == token_end(b@, k as int),
                decreases b@.len() - k,
            {
                k = k + 1;
            }
            proof {
                lemma_token_end_bounds(b@, j as int);
                assert(token_end(b@, k as int) == k);
            }
            let tok = vstd::slice::slice_to_vec(vstd::slice::slice_subrange(b, j, k));
            let ghost before = out@;
            out.push(tok);
            proof {
                assert(tokens_from(b@, i0) == seq![b@.subrange(j as int, k as int)] + tokens_from(b@, k as int));
                assert(crate::wire::name::label_views(out@) =~= crate::wire::name::label_views(before).push(
                    b@.subrange(j as int, k as int),
                ));
                assert(crate::wire::name::label_views(out@) + tokens_from(b@, k as int) =~= crate::wire::name::label_views(
                    before,
                ) + tokens_from(b@, i0));
            }
            i = k;
        }
    }
    proof {
        assert(tokens_from(b@, i as int) =~= Seq::<Seq<u8>>::empty());
        assert(crate::wire::name::label_views(out@) + Seq::<Seq<u8>>::empty() =~= crate::wire::name::label_views(out@));
    }
    out
}

// ---------------------------------------------------------------------------
// Unsigned integers, as `str::parse::<uN>` reads them.
// ---------------------------------------------------------------------------

/// Why an integer did not parse (`std::num::IntErrorKind`).
#[derive(Debug, Clone, Copy, PartialEq, Eq, Structural)]
pub enum IntError {
    Empty,
    InvalidDigit,
    PosOverflow,
}

/// The message `ParseIntError` displays for each kind.
pub open spec fn int_error_text(e: IntError) -> Seq<char> {
    match e {
        IntError::Empty => "cannot parse integer from empty string"@,
        IntError::InvalidDigit => "invalid digit found in string"@,
        IntError::PosOverflow => "number too large to fit in target type"@,
    }
}

pub fn int_error_message(e: IntError) -> (r: String)
    ensures
        r@ == int_error_text(e),
{
    match e {
        IntError::Empty => String::from_str("cannot parse integer from empty string"),
        IntError::InvalidDigit => String::from_str("invalid digit found in string"),
        IntError::PosOverflow => String::from_str("number too large to fit in target type"),
    }
}

/// Digits `d` read left to right into a value at most `max`.
pub open spec fn digits_value(d: Seq<u8>, max: nat) -> Result<nat, IntError>
    decreases d.len(),
{
    if d.len() == 0 {
        Ok(0)
    } else {
        match digits_value(d.drop_last(), max) {
            Err(e) => Err(e),
            Ok(v) => {
                let c = d.last();
                if !(48 <= c <= 57) {
                    Err(IntError::InvalidDigit)
                } else if v * 10 + (c - 48) > max {
                    Err(IntError::PosOverflow)
                } else {
                    Ok(v * 10 + (c - 48) as nat)
                }
            },
        }
    }
}

/// `str::parse` for an unsigned type whose largest value is `max`: an
/// optional `+`, then decimal digits.
pub open spec fn parse_unsigned(b: Seq<u8>, max: nat) -> Result<nat, IntError> {
    if b.len() == 0 {
        Err(IntError::Empty)
    } else if (b[0] == 43 || b[0] == 45) && b.len() == 1 {
        Err(IntError::InvalidDigit)
    } else if b[0] == 43 {
        digits_value(b.skip(1), max)
    } else {
        digits_value(b, max)
    }
}

/// `str::parse` for an unsigned type whose largest value is `max`.
pub fn parse_unsigned_bytes(b: &[u8], max: u32) -> (r: Result<u32, IntError>)
    ensures
        match parse_unsigned(b@, max as nat) {
            Ok(v) => r == Ok::<u32, IntError>(v as u32),
            Err(e) => r == Err::<u32, IntError>(e),
        },
{
    if b.len() == 0 {
        return Err(IntError::Empty);
    }
    if (b[0] == 43 || b[0] == 45) && b.len() == 1 {
        return Err(IntError::InvalidDigit);
    }
    let start: usize = if b[0] == 43 {
        1
    } else {
        0
    };
    let ghost d = b@.skip(start as int);
    let mut v: u32 = 0;
    let mut i: usize = start;
    proof {
        assert(d.take(0) =~= Seq::<u8>::empty());
        assert(b@.skip(0) =~= b@);
    }
    while i < b.len()
        invariant
            start <= i <= b@.len(),
            d == b@.skip(start as int),
            b@.len() > 0,
            start == 0 ==> d == b@,
            !((b@[0] == 43 || b@[0] == 45) && b@.len() == 1),
            start == (if b@[0] == 43 {
                1usize
            } else {
                0usize
            }),
            digits_value(d.take(i - start), max as nat) == Ok::<nat, IntError>(v as nat),
            v <= max,
        decreases b@.len() - i,
    {
        let c = b[i];
        proof {
            assert(d.take(i - start + 1).drop_last() =~= d.take(i - start));
            assert(d.take(i - start + 1).last() == c);
        }
        if c < 48 || c > 57 {
            proof {
                assert(digits_value(d.take(i - start + 1), max as nat) == Err::<nat, IntError>(IntError::InvalidDigit));
                lemma_digits_err_sticky(d, max as nat, (i - start + 1) as int);
                assert(d.take(d.len() as int) =~= d);
            }
            return Err(IntError::InvalidDigit);
        }
        let dv = (c - 48) as u32;
        if dv > max || v > (max - dv) / 10 {
            proof {
                if dv <= max {
                    assert(v * 10 + dv > max) by (nonlinear_arith)
                        requires
                            v > (max - dv) / 10,
                            dv <= max,
                    ;
                }
                assert(digits_value(d.take(i - start + 1), max as nat) == Err::<nat, IntError>(IntError::PosOverflow));
                lemma_digits_err_sticky(d, max as nat, (i - start + 1) as int);
                assert(d.take(d.len() as int) =~= d);
            }
            return Err(IntError::PosOverflow);
        }
        proof {
            assert(v * 10 + dv <= max) by (nonlinear_arith)
                requires
                    v <= (max - dv) / 10,
                    dv <= max,
            ;
        }
        v = v * 10 + dv;
        i = i + 1;
    }
    proof {
        assert(d.take(i - start) =~= d);
    }
    Ok(v)
}

proof fn lemma_digits_err_sticky(d: Seq<u8>, max: nat, i: int)
    requires
        0 <= i <= d.len(),
        digits_value(d.take(i), max) is Err,
    ensures
        digits_value(d.take(d.len() as int), max) == digits_value(d.take(i), max),
    decreases d.len() - i,
{
    if i < d.len() {
        assert(d.take(i + 1).drop_last() =~= d.take(i));
        lemma_digits_err_sticky(d, max, i + 1);
    }
}


// ---------------------------------------------------------------------------
// Facts about UTF-8 that the text-producing functions rest on.
// ---------------------------------------------------------------------------

/// Decimal digits are ASCII.
pub proof fn lemma_decimal_ascii(n: nat)
    ensures
        all_ascii(decimal(n)),
    decreases n,
{
    if n >= 10 {
        lemma_decimal_ascii(n / 10);
    }
}

/// ASCII bytes are valid UTF-8 and decode to their characters.
pub proof fn lemma_ascii_utf8(b: Seq<u8>)
    requires
        all_ascii(b),
    ensures
        vstd::utf8::valid_utf8(b),
        vstd::utf8::decode_utf8(b) == ascii_chars(b),
    decreases b.len(),
{
    if b.len() > 0 {
        let rest = b.subrange(1, b.len() as int);
        assert(vstd::utf8::pop_first_scalar(b) =~= rest);
        assert(all_ascii(rest)) by {
            assert forall|i: int| 0 <= i < rest.len() implies (#[trigger] rest[i]) < 128 by {
                assert(rest[i] == b[i + 1]);
            }
        }
        lemma_ascii_utf8(rest);
        let c = b[0];
        assert(vstd::utf8::decode_first_scalar(b) == c as u32) by {
            assert(c <= 0x7f);
            assert(c & 0x7f == c) by (bit_vector)
                requires
                    c <= 0x7f,
            ;
        }
        assert(ascii_chars(b) =~= seq![c as char] + ascii_chars(rest));
    }
}

/// Decoding the concatenation of two valid UTF-8 strings decodes each.
pub proof fn lemma_utf8_concat_decode(b1: Seq<u8>, b2: Seq<u8>)
    requires
        vstd::utf8::valid_utf8(b1),
        vstd::utf8::valid_utf8(b2),
    ensures
        vstd::utf8::valid_utf8(b1 + b2),
        vstd::utf8::decode_utf8(b1 + b2) == vstd::utf8::decode_utf8(b1) + vstd::utf8::decode_utf8(b2),
    decreases b1.len(),
{
    vstd::utf8::valid_utf8_concat(b1, b2);
    if b1.len() == 0 {
        assert(b1 + b2 =~= b2);
        assert(vstd::utf8::decode_utf8(b1) =~= Seq::<char>::empty());
        assert(vstd::utf8::decode_utf8(b1) + vstd::utf8::decode_utf8(b2) =~= vstd::utf8::decode_utf8(b2));
    } else {
        let rest = vstd::utf8::pop_first_scalar(b1);
        assert(vstd::utf8::length_of_first_scalar(b1) >= 1);
        lemma_utf8_concat_decode(rest, b2);
        assert((b1 + b2)[0] == b1[0]);
        assert(vstd::utf8::length_of_first_scalar(b1 + b2) == vstd::utf8::length_of_first_scalar(b1));
        assert(forall|i: int| 0 <= i < vstd::utf8::length_of_first_scalar(b1) ==> (b1 + b2)[i] == b1[i]);
        assert(vstd::utf8::decode_first_scalar(b1 + b2) == vstd::utf8::decode_first_scalar(b1));
        assert(vstd::utf8::pop_first_scalar(b1 + b2) =~= rest + b2);
        assert(vstd::utf8::decode_utf8(b1 + b2) =~= vstd::utf8::decode_utf8(b1) + vstd::utf8::decode_utf8(b2));
    }
}

/// In valid UTF-8, what follows an ASCII byte is valid UTF-8 again.
pub proof fn lemma_utf8_after_ascii(b: Seq<u8>, k: int)
    requires
        vstd::utf8::valid_utf8(b),
        0 < k <= b.len(),
        b[k - 1] < 128,
    ensures
        vstd::utf8::valid_utf8(b.subrange(k, b.len() as int)),
{
    vstd::utf8::is_char_boundary_iff_not_is_continuation_byte(b, k - 1);
    vstd::utf8::valid_utf8_split(b, k - 1);
    let s = b.subrange(k - 1, b.len() as int);
    assert(s[0] == b[k - 1]);
    assert(vstd::utf8::pop_first_scalar(s) =~= b.subrange(k, b.len() as int));
}

/// Leading whitespace removed from valid UTF-8 leaves valid UTF-8.
pub proof fn lemma_trim_start_utf8(b: Seq<u8>)
    requires
        vstd::utf8::valid_utf8(b),
    ensures
        vstd::utf8::valid_utf8(trim_start(b)),
    decreases b.len(),
{
    let w = ws_len_at(b, 0);
    if w > 0 {
        assert(vstd::utf8::length_of_first_scalar(b) == w);
        assert(b.skip(w) =~= vstd::utf8::pop_first_scalar(b));
        lemma_trim_start_utf8(b.skip(w));
    }
}

/// Trailing whitespace removed from valid UTF-8 leaves valid UTF-8.
pub proof fn lemma_trim_end_utf8(b: Seq<u8>)
    requires
        vstd::utf8::valid_utf8(b),
    ensures
        vstd::utf8::valid_utf8(trim_end(b)),
    decreases b.len(),
{
    let w = ws_len_end(b);
    if w > 0 {
        let k = b.len() - w;
        assert(!vstd::utf8::is_continuation_byte(b[k]));
        vstd::utf8::is_char_boundary_iff_not_is_continuation_byte(b, k);
        vstd::utf8::valid_utf8_split(b, k);
        assert(b.take(k) =~= b.subrange(0, k));
        lemma_trim_end_utf8(b.take(k));
    }
}

/// `trim` keeps valid UTF-8 valid.
pub proof fn lemma_trim_utf8(b: Seq<u8>)
    requires
        vstd::utf8::valid_utf8(b),
    ensures
        vstd::utf8::valid_utf8(trim(b)),
{
    lemma_trim_start_utf8(b);
    lemma_trim_end_utf8(trim_start(b));
}

} // verus!
