//! IP addresses in text: the strict syntax `Ipv4Addr` / `Ipv6Addr` accept
//! (no octal-looking octets, one `::` at most, an optional dotted IPv4 tail),
//! and the canonical text they print (RFC 5952 for IPv6).
use crate::text::{decimal, push_decimal};
use vstd::prelude::*;

verus! {

// ---------------------------------------------------------------------------
// IPv4
// ---------------------------------------------------------------------------

pub open spec fn is_digit(c: u8) -> bool {
    48 <= c <= 57
}

/// End of the run of decimal digits starting at `i`.
pub open spec fn digit_run(b: Seq<u8>, i: int) -> int
    decreases b.len() - i,
{
    if i < 0 || i >= b.len() || !is_digit(b[i]) {
        i
    } else {
        digit_run(b, i + 1)
    }
}

/// Value of a string of decimal digits.
pub open spec fn dec_value(d: Seq<u8>) -> nat
    decreases d.len(),
{
    if d.len() == 0 {
        0
    } else {
        dec_value(d.drop_last()) * 10 + (d.last() - 48) as nat
    }
}

/// An IPv4 octet at `i`: one to three digits, no leading zero unless the
/// octet is `0`, at most 255; and the position after it.
pub open spec fn octet_at(b: Seq<u8>, i: int) -> Option<(u8, int)> {
    let e = digit_run(b, i);
    let n = e - i;
    if n <= 0 || n > 3 || (b[i] == 48 && n > 1) || dec_value(b.subrange(i, e)) > 255 {
        None
    } else {
        Some((dec_value(b.subrange(i, e)) as u8, e))
    }
}

/// `b[i]` is the byte `c`.
pub open spec fn byte_is(b: Seq<u8>, i: int, c: u8) -> bool {
    0 <= i < b.len() && b[i] == c
}

/// A dotted IPv4 address starting at `i` (not necessarily ending the
/// input): its four octets and the position after it.
pub open spec fn ipv4_at(b: Seq<u8>, i: int) -> Option<(Seq<u8>, int)> {
    match octet_at(b, i) {
        None => None,
        Some((o1, p1)) => if !byte_is(b, p1, 46) {
            None
        } else {
            match octet_at(b, p1 + 1) {
                None => None,
                Some((o2, p2)) => if !byte_is(b, p2, 46) {
                    None
                } else {
                    match octet_at(b, p2 + 1) {
                        None => None,
                        Some((o3, p3)) => if !byte_is(b, p3, 46) {
                            None
                        } else {
                            match octet_at(b, p3 + 1) {
                                None => None,
                                Some((o4, p4)) => Some((seq![o1, o2, o3, o4], p4)),
                            }
                        },
                    }
                },
            }
        },
    }
}

/// The octets of the IPv4 address that is all of `b`.
pub open spec fn parse_ipv4_spec(b: Seq<u8>) -> Option<Seq<u8>> {
    match ipv4_at(b, 0) {
        Some((o, e)) => if e == b.len() {
            Some(o)
        } else {
            None
        },
        None => None,
    }
}

fn digit_run_exec(b: &[u8], i: usize) -> (r: usize)
    requires
        i <= b@.len(),
    ensures
        r == digit_run(b@, i as int),
        i <= r <= b@.len(),
{
    let mut j = i;
    while j < b.len() && 48 <= b[j] && b[j] <= 57
        invariant
            i <= j <= b@.len(),
            digit_run(b@, i as int) == digit_run(b@, j as int),
        decreases b@.len() - j,
    {
        j = j + 1;
    }
    j
}

fn octet_at_exec(b: &[u8], i: usize) -> (r: Option<(u8, usize)>)
    requires
        i <= b@.len(),
    ensures
        match octet_at(b@, i as int) {
            Some((o, e)) => r matches Some((o2, e2)) && o2 == o && e2 == e,
            None => r is None,
        },
{
    let e = digit_run_exec(b, i);
    let n = e - i;
    if n == 0 || n > 3 || (b[i] == 48 && n > 1) {
        return None;
    }
    let mut v: u32 = 0;
    let mut k = i;
    proof {
        assert(b@.subrange(i as int, i as int) =~= Seq::<u8>::empty());
        lemma_digit_run_digits(b@, i as int);
    }
    while k < e
        invariant
            i <= k <= e,
            e - i <= 3,
            e <= b@.len(),
            e == digit_run(b@, i as int),
            v == dec_value(b@.subrange(i as int, k as int)),
            v < 1000,
            k - i <= 2 ==> v < 100,
            k - i <= 1 ==> v < 10,
            k - i == 0 ==> v == 0,
            forall|j: int| i <= j < e ==> is_digit(#[trigger] b@[j]),
        decreases e - k,
    {
        proof {
            assert(b@.subrange(i as int, k + 1).drop_last() =~= b@.subrange(i as int, k as int));
            assert(is_digit(b@[k as int]));
        }
        v = v * 10 + (b[k] - 48) as u32;
        k = k + 1;
    }
    if v > 255 {
        return None;
    }
    Some((v as u8, e))
}

proof fn lemma_digit_run_digits(b: Seq<u8>, i: int)
    requires
        0 <= i <= b.len(),
    ensures
        i <= digit_run(b, i) <= b.len(),
        forall|j: int| i <= j < digit_run(b, i) ==> is_digit(#[trigger] b[j]),
    decreases b.len() - i,
{
    if i < b.len() && is_digit(b[i]) {
        lemma_digit_run_digits(b, i + 1);
    }
}

fn ipv4_at_exec(b: &[u8], i: usize) -> (r: Option<([u8; 4], usize)>)
    requires
        i <= b@.len(),
    ensures
        match ipv4_at(b@, i as int) {
            Some((o, e)) => r matches Some((a, p)) && a@ == o && p == e,
            None => r is None,
        },
{
    let (o1, p1) = match octet_at_exec(b, i) {
        Some(v) => v,
        None => return None,
    };
    if p1 >= b.len() || b[p1] != 46 {
        return None;
    }
    let (o2, p2) = match octet_at_exec(b, p1 + 1) {
        Some(v) => v,
        None => return None,
    };
    if p2 >= b.len() || b[p2] != 46 {
        return None;
    }
    let (o3, p3) = match octet_at_exec(b, p2 + 1) {
        Some(v) => v,
        None => return None,
    };
    if p3 >= b.len() || b[p3] != 46 {
        return None;
    }
    let (o4, p4) = match octet_at_exec(b, p3 + 1) {
        Some(v) => v,
        None => return None,
    };
    let a = [o1, o2, o3, o4];
    proof {
        assert(a@ =~= seq![o1, o2, o3, o4]);
    }
    Some((a, p4))
}

/// Parse a dotted IPv4 address.
pub fn parse_ipv4(b: &[u8]) -> (r: Option<[u8; 4]>)
    ensures
        match parse_ipv4_spec(b@) {
            Some(o) => r matches Some(a) && a@ == o,
            None => r is None,
        },
{
    match ipv4_at_exec(b, 0) {
        Some((a, e)) => if e == b.len() {
            Some(a)
        } else {
            None
        },
        None => None,
    }
}

/// Dotted-decimal text of four octets.
pub open spec fn ipv4_text(o: Seq<u8>) -> Seq<u8> {
    decimal(o[0] as nat) + seq![46u8] + decimal(o[1] as nat) + seq![46u8] + decimal(o[2] as nat) + seq![46u8]
        + decimal(o[3] as nat)
}

/// Append the dotted-decimal text of `o`.
pub fn push_ipv4_text(out: &mut Vec<u8>, o: &[u8; 4])
    ensures
        final(out)@ == old(out)@ + ipv4_text(o@),
{
    push_decimal(out, o[0] as u64);
    out.push(46u8);
    push_decimal(out, o[1] as u64);
    out.push(46u8);
    push_decimal(out, o[2] as u64);
    out.push(46u8);
    push_decimal(out, o[3] as u64);
    proof {
        assert(final(out)@ =~= old(out)@ + ipv4_text(o@));
    }
}

// ---------------------------------------------------------------------------
// IPv6
// ---------------------------------------------------------------------------

pub open spec fn hex_val(c: u8) -> int {
    if 48 <= c <= 57 {
        c - 48
    } else if 97 <= c <= 102 {
        c - 87
    } else if 65 <= c <= 70 {
        c - 55
    } else {
        -1
    }
}

/// End of the run of hex digits starting at `i`.
pub open spec fn hex_run(b: Seq<u8>, i: int) -> int
    decreases b.len() - i,
{
    if i < 0 || i >= b.len() || hex_val(b[i]) < 0 {
        i
    } else {
        hex_run(b, i + 1)
    }
}

/// Value of a string of hex digits.
pub open spec fn hex_value(d: Seq<u8>) -> nat
    decreases d.len(),
{
    if d.len() == 0 {
        0
    } else {
        hex_value(d.drop_last()) * 16 + hex_val(d.last()) as nat
    }
}

/// A group of one to four hex digits at `i`, and the position after it.
pub open spec fn group_at(b: Seq<u8>, i: int) -> Option<(u16, int)> {
    let e = hex_run(b, i);
    let n = e - i;
    if n <= 0 || n > 4 {
        None
    } else {
        Some((hex_value(b.subrange(i, e)) as u16, e))
    }
}

/// The `idx`-th item of a group list at `i`: items after the first are
/// preceded by `:`; the position where the item itself starts.
pub open spec fn item_start(b: Seq<u8>, i: int, idx: int) -> Option<int> {
    if idx == 0 {
        Some(i)
    } else if byte_is(b, i, 58) {
        Some(i + 1)
    } else {
        None
    }
}

/// The groups read at `pos` as slots `i..limit` of an address: each slot
/// takes a hex group, or (with at least two slots left) a dotted IPv4
/// address filling two slots and ending the list. The groups, the position
/// after them, and whether an IPv4 tail ended them.
pub open spec fn read_groups(b: Seq<u8>, pos: int, i: int, limit: int) -> (Seq<u16>, int, bool)
    decreases limit - i,
{
    if i >= limit {
        (seq![], pos, false)
    } else {
        let v4 = if i < limit - 1 {
            match item_start(b, pos, i) {
                Some(s) => ipv4_at(b, s),
                None => None,
            }
        } else {
            None
        };
        match v4 {
            Some((o, e)) => (seq![(o[0] as int * 256 + o[1]) as u16, (o[2] as int * 256 + o[3]) as u16], e, true),
            None => match item_start(b, pos, i) {
                None => (seq![], pos, false),
                Some(s) => match group_at(b, s) {
                    None => (seq![], pos, false),
                    Some((g, e)) => {
                        let (rest, e2, f) = read_groups(b, e, i + 1, limit);
                        (seq![g] + rest, e2, f)
                    },
                },
            },
        }
    }
}

/// The eight groups of the IPv6 address that is all of `b`.
pub open spec fn parse_ipv6_spec(b: Seq<u8>) -> Option<Seq<u16>> {
    let (head, hp, h4) = read_groups(b, 0, 0, 8);
    if head.len() == 8 {
        if hp == b.len() {
            Some(head)
        } else {
            None
        }
    } else if h4 || !byte_is(b, hp, 58) || !byte_is(b, hp + 1, 58) {
        None
    } else {
        let (tail, tp, t4) = read_groups(b, hp + 2, 0, 7 - head.len());
        if tp == b.len() {
            Some(head + Seq::new((8 - head.len() - tail.len()) as nat, |k: int| 0u16) + tail)
        } else {
            None
        }
    }
}

proof fn lemma_read_groups_len(b: Seq<u8>, pos: int, i: int, limit: int)
    requires
        0 <= i <= limit,
    ensures
        read_groups(b, pos, i, limit).0.len() <= limit - i,
        read_groups(b, pos, i, limit).2 ==> read_groups(b, pos, i, limit).0.len() >= 2,
    decreases limit - i,
{
    if i < limit {
        let v4 = if i < limit - 1 {
            match item_start(b, pos, i) {
                Some(s) => ipv4_at(b, s),
                None => None,
            }
        } else {
            None
        };
        if v4 is None {
            if let Some(s) = item_start(b, pos, i) {
                if let Some((g, e)) = group_at(b, s) {
                    lemma_read_groups_len(b, e, i + 1, limit);
                }
            }
        }
    }
}

fn hex_run_exec(b: &[u8], i: usize) -> (r: usize)
    requires
        i <= b@.len(),
    ensures
        r == hex_run(b@, i as int),
        i <= r <= b@.len(),
{
    let mut j = i;
    while j < b.len() && ((48 <= b[j] && b[j] <= 57) || (97 <= b[j] && b[j] <= 102) || (65 <= b[j] && b[j] <= 70))
        invariant
            i <= j <= b@.len(),
            hex_run(b@, i as int) == hex_run(b@, j as int),
        decreases b@.len() - j,
    {
        j = j + 1;
    }
    j
}

proof fn lemma_hex_run_digits(b: Seq<u8>, i: int)
    requires
        0 <= i <= b.len(),
    ensures
        i <= hex_run(b, i) <= b.len(),
        forall|j: int| i <= j < hex_run(b, i) ==> hex_val(#[trigger] b[j]) >= 0,
    decreases b.len() - i,
{
    if i < b.len() && hex_val(b[i]) >= 0 {
        lemma_hex_run_digits(b, i + 1);
    }
}

fn group_at_exec(b: &[u8], i: usize) -> (r: Option<(u16, usize)>)
    requires
        i <= b@.len(),
    ensures
        match group_at(b@, i as int) {
            Some((g, e)) => r matches Some((g2, e2)) && g2 == g && e2 == e,
            None => r is None,
        },
{
    let e = hex_run_exec(b, i);
    let n = e - i;
    if n == 0 || n > 4 {
        return None;
    }
    proof {
        lemma_hex_run_digits(b@, i as int);
        assert(b@.subrange(i as int, i as int) =~= Seq::<u8>::empty());
    }
    let mut v: u32 = 0;
    let mut k = i;
    while k < e
        invariant
            i <= k <= e,
            e - i <= 4,
            e <= b@.len(),
            v == hex_value(b@.subrange(i as int, k as int)),
            v < 65536,
            k - i <= 3 ==> v < 4096,
            k - i <= 2 ==> v < 256,
            k - i <= 1 ==> v < 16,
            k - i == 0 ==> v == 0,
            forall|j: int| i <= j < e ==> hex_val(#[trigger] b@[j]) >= 0,
        decreases e - k,
    {
        proof {
            assert(b@.subrange(i as int, k + 1).drop_last() =~= b@.subrange(i as int, k as int));
            assert(hex_val(b@[k as int]) >= 0);
        }
        let c = b[k];
        let d: u32 = if c <= 57 {
            (c - 48) as u32
        } else if c >= 97 {
            (c - 87) as u32
        } else {
            (c - 55) as u32
        };
        v = v * 16 + d;
        k = k + 1;
    }
    Some((v as u16, e))
}

fn item_start_exec(b: &[u8], i: usize, idx: usize) -> (r: Option<usize>)
    requires
        i <= b@.len(),
    ensures
        match item_start(b@, i as int, idx as int) {
            Some(s) => r matches Some(s2) && s2 == s,
            None => r is None,
        },
{
    if idx == 0 {
        Some(i)
    } else if i < b.len() && b[i] == 58 {
        Some(i + 1)
    } else {
        None
    }
}

/// Read groups into `slots[..limit]` from `pos`: see [`read_groups`].
#[verifier::rlimit(80)]
fn read_groups_exec(b: &[u8], pos: usize, limit: usize) -> (r: (Vec<u16>, usize, bool))
    requires
        pos <= b@.len(),
        limit <= 8,
    ensures
        r.0@ == read_groups(b@, pos as int, 0, limit as int).0,
        r.1 == read_groups(b@, pos as int, 0, limit as int).1,
        r.2 == read_groups(b@, pos as int, 0, limit as int).2,
        r.1 <= b@.len(),
{
    let mut out: Vec<u16> = Vec::new();
    let mut p = pos;
    let mut i: usize = 0;
    while i < limit
        invariant
            i <= limit <= 8,
            p <= b@.len(),
            out@.len() == i,
            ({
                let (g, e, f) = read_groups(b@, p as int, i as int, limit as int);
                read_groups(b@, pos as int, 0, limit as int) == (out@ + g, e, f)
            }),
        decreases limit - i,
    {
        if i + 1 < limit {
            if let Some(s) = item_start_exec(b, p, i) {
                if let Some((o, e)) = ipv4_at_exec(b, s) {
                    out.push(((o[0] as u32) * 256 + o[1] as u32) as u16);
                    out.push(((o[2] as u32) * 256 + o[3] as u32) as u16);
                    proof {
                        lemma_ipv4_at_end(b@, s as int);
                    }
                    return (out, e, true);
                }
            }
        }
        let s = match item_start_exec(b, p, i) {
            Some(s) => s,
            None => {
                proof {
                    assert(out@ + Seq::<u16>::empty() =~= out@);
                }
                return (out, p, false);
            },
        };
        let (g, e) = match group_at_exec(b, s) {
            Some(v) => v,
            None => {
                proof {
                    assert(out@ + Seq::<u16>::empty() =~= out@);
                }
                return (out, p, false);
            },
        };
        proof {
            lemma_hex_run_digits(b@, s as int);
            let (rest, e2, f) = read_groups(b@, e as int, i + 1, limit as int);
            assert(out@.push(g) + rest =~= out@ + (seq![g] + rest));
        }
        out.push(g);
        p = e;
        i = i + 1;
    }
    proof {
        assert(out@ + Seq::<u16>::empty() =~= out@);
    }
    (out, p, false)
}

proof fn lemma_ipv4_at_end(b: Seq<u8>, i: int)
    requires
        0 <= i <= b.len(),
        ipv4_at(b, i) is Some,
    ensures
        ipv4_at(b, i).unwrap().1 <= b.len(),
{
    let p1 = octet_at(b, i).unwrap().1;
    let p2 = octet_at(b, p1 + 1).unwrap().1;
    let p3 = octet_at(b, p2 + 1).unwrap().1;
    lemma_digit_run_digits(b, p3 + 1);
}

/// Parse an IPv6 address into its sixteen octets.
pub fn parse_ipv6(b: &[u8]) -> (r: Option<[u8; 16]>)
    ensures
        match parse_ipv6_spec(b@) {
            Some(g) => r matches Some(a) && a@ == groups_octets(g),
            None => r is None,
        },
{
    let (head, hp, h4) = read_groups_exec(b, 0, 8);
    proof {
        lemma_read_groups_len(b@, 0, 0, 8);
    }
    let groups: Vec<u16> = if head.len() == 8 {
        if hp != b.len() {
            return None;
        }
        head
    } else {
        if h4 || hp >= b.len() || b[hp] != 58 || hp + 1 >= b.len() || b[hp + 1] != 58 {
            return None;
        }
        let limit = 7 - head.len();
        let (tail, tp, _t4) = read_groups_exec(b, hp + 2, limit);
        proof {
            lemma_read_groups_len(b@, (hp + 2) as int, 0, limit as int);
        }
        if tp != b.len() {
            return None;
        }
        let mut g = head;
        let zeros = 8 - g.len() - tail.len();
        let ghost h = g@;
        let mut z: usize = 0;
        while z < zeros
            invariant
                z <= zeros,
                g@ == h + Seq::new(z as nat, |k: int| 0u16),
            decreases zeros - z,
        {
            g.push(0u16);
            z = z + 1;
            proof {
                assert(g@ =~= h + Seq::new(z as nat, |k: int| 0u16));
            }
        }
        let ghost hz = g@;
        let mut t: usize = 0;
        while t < tail.len()
            invariant
                t <= tail@.len(),
                g@ == hz + tail@.take(t as int),
            decreases tail@.len() - t,
        {
            g.push(tail[t]);
            t = t + 1;
            proof {
                assert(g@ =~= hz + tail@.take(t as int));
            }
        }
        proof {
            assert(tail@.take(t as int) =~= tail@);
        }
        g
    };
    let mut a = [0u8; 16];
    let mut k: usize = 0;
    while k < 8
        invariant
            k <= 8,
            groups@.len() == 8,
            forall|j: int| 0 <= j < 2 * k ==> #[trigger] a@[j] == groups_octets(groups@)[j],
            a@.len() == 16,
        decreases 8 - k,
    {
        a[2 * k] = (groups[k] / 256) as u8;
        a[2 * k + 1] = (groups[k] % 256) as u8;
        k = k + 1;
    }
    proof {
        assert(a@ =~= groups_octets(groups@));
    }
    Some(a)
}

/// The sixteen octets of eight groups, big-endian.
pub open spec fn groups_octets(g: Seq<u16>) -> Seq<u8> {
    Seq::new(16, |j: int| if j % 2 == 0 {
        (g[j / 2] / 256) as u8
    } else {
        (g[j / 2] % 256) as u8
    })
}

/// The eight groups of sixteen octets.
pub open spec fn octets_groups(o: Seq<u8>) -> Seq<u16> {
    Seq::new(8, |j: int| (o[2 * j] as int * 256 + o[2 * j + 1]) as u16)
}

/// Lower-case hex of a group without leading zeros.
pub open spec fn hex_group_text(v: nat) -> Seq<u8>
    decreases v,
{
    if v < 16 {
        seq![crate::text::hex_digit(v as u8)]
    } else {
        hex_group_text(v / 16).push(crate::text::hex_digit((v % 16) as u8))
    }
}

/// Groups in hex joined by `:`.
pub open spec fn groups_text(g: Seq<u16>) -> Seq<u8>
    decreases g.len(),
{
    if g.len() == 0 {
        seq![]
    } else if g.len() == 1 {
        hex_group_text(g[0] as nat)
    } else {
        groups_text(g.drop_last()) + seq![58u8] + hex_group_text(g.last() as nat)
    }
}

/// Length of the run of zero groups ending just before `j`.
pub open spec fn zero_run_before(g: Seq<u16>, j: int) -> int
    decreases j,
{
    if j <= 0 || j > g.len() || g[j - 1] != 0 {
        0
    } else {
        zero_run_before(g, j - 1) + 1
    }
}

/// The first longest run of zero groups among the first `j`: start and length.
pub open spec fn longest_zero_run(g: Seq<u16>, j: int) -> (int, int)
    decreases j,
{
    if j <= 0 {
        (0, 0)
    } else {
        let (s, l) = longest_zero_run(g, j - 1);
        let cur = zero_run_before(g, j);
        if cur > l {
            (j - cur, cur)
        } else {
            (s, l)
        }
    }
}

/// Canonical IPv6 text (RFC 5952 as `Ipv6Addr` prints it): IPv4-mapped
/// addresses as `::ffff:a.b.c.d`; otherwise the first longest run of two or
/// more zero groups becomes `::`.
pub open spec fn ipv6_text(o: Seq<u8>) -> Seq<u8> {
    let g = octets_groups(o);
    if g[0] == 0 && g[1] == 0 && g[2] == 0 && g[3] == 0 && g[4] == 0 && g[5] == 0xFFFF {
        seq![58u8, 58u8, 102u8, 102u8, 102u8, 102u8, 58u8] + ipv4_text(o.subrange(12, 16))
    } else {
        let (s, l) = longest_zero_run(g, 8);
        if l > 1 {
            groups_text(g.subrange(0, s)) + seq![58u8, 58u8] + groups_text(g.subrange(s + l, 8))
        } else {
            groups_text(g)
        }
    }
}

fn push_hex_group(out: &mut Vec<u8>, v: u16)
    ensures
        final(out)@ == old(out)@ + hex_group_text(v as nat),
    decreases v,
{
    if v < 16 {
        out.push(if v < 10 { 48 + v as u8 } else { 87 + v as u8 });
        proof {
            assert(final(out)@ =~= old(out)@ + hex_group_text(v as nat));
        }
    } else {
        push_hex_group(out, v / 16);
        let d = (v % 16) as u8;
        out.push(if d < 10 { 48 + d } else { 87 + d });
        proof {
            assert(final(out)@ =~= old(out)@ + hex_group_text(v as nat));
        }
    }
}

fn push_groups(out: &mut Vec<u16>, g: &[u16], from: usize, to: usize)
    requires
        from <= to <= g@.len(),
    ensures
        final(out)@ == old(out)@ + g@.subrange(from as int, to as int),
{
    let mut i = from;
    while i < to
        invariant
            from <= i <= to,
            to <= g@.len(),
            out@ == old(out)@ + g@.subrange(from as int, i as int),
        decreases to - i,
    {
        out.push(g[i]);
        i = i + 1;
        proof {
            assert(out@ =~= old(out)@ + g@.subrange(from as int, i as int));
        }
    }
}

fn push_groups_text(out: &mut Vec<u8>, g: &[u16])
    ensures
        final(out)@ == old(out)@ + groups_text(g@),
{
    let mut i: usize = 0;
    proof {
        assert(g@.take(0) =~= Seq::<u16>::empty());
    }
    let ghost o0 = out@;
    while i < g.len()
        invariant
            i <= g@.len(),
            out@ == o0 + groups_text(g@.take(i as int)),
        decreases g@.len() - i,
    {
        proof {
            assert(g@.take(i as int + 1).drop_last() =~= g@.take(i as int));
        }
        if i > 0 {
            out.push(58u8);
        }
        push_hex_group(out, g[i]);
        i = i + 1;
        proof {
            if i == 1 {
                assert(g@.take(1) =~= seq![g@[0]]);
            }
            assert(out@ =~= o0 + groups_text(g@.take(i as int)));
        }
    }
    proof {
        assert(g@.take(i as int) =~= g@);
    }
}

/// Append the canonical text of an IPv6 address.
pub fn push_ipv6_text(out: &mut Vec<u8>, o: &[u8; 16])
    ensures
        final(out)@ == old(out)@ + ipv6_text(o@),
{
    let mut g: Vec<u16> = Vec::new();
    let mut k: usize = 0;
    while k < 8
        invariant
            k <= 8,
            g@ == octets_groups(o@).take(k as int),
        decreases 8 - k,
    {
        g.push((o[2 * k] as u16) * 256 + o[2 * k + 1] as u16);
        k = k + 1;
        proof {
            assert(g@ =~= octets_groups(o@).take(k as int));
        }
    }
    proof {
        assert(g@ =~= octets_groups(o@));
    }
    let ghost o0 = out@;
    if g[0] == 0 && g[1] == 0 && g[2] == 0 && g[3] == 0 && g[4] == 0 && g[5] == 0xFFFF {
        out.push(58u8);
        out.push(58u8);
        out.push(102u8);
        out.push(102u8);
        out.push(102u8);
        out.push(102u8);
        out.push(58u8);
        let v4 = [o[12], o[13], o[14], o[15]];
        push_ipv4_text(out, &v4);
        proof {
            assert(v4@ =~= o@.subrange(12, 16));
            assert(out@ =~= o0 + ipv6_text(o@));
        }
        return;
    }
    let mut best_start: usize = 0;
    let mut best_len: usize = 0;
    let mut cur: usize = 0;
    let mut j: usize = 0;
    while j < 8
        invariant
            j <= 8,
            g@ == octets_groups(o@),
            cur == zero_run_before(g@, j as int),
            cur <= j,
            (best_start as int, best_len as int) == longest_zero_run(g@, j as int),
            best_start + best_len <= j,
        decreases 8 - j,
    {
        if g[j] == 0 {
            cur = cur + 1;
        } else {
            cur = 0;
        }
        if cur > best_len {
            best_start = j + 1 - cur;
            best_len = cur;
        }
        j = j + 1;
    }
    if best_len > 1 {
        let mut head: Vec<u16> = Vec::new();
        push_groups(&mut head, g.as_slice(), 0, best_start);
        let mut tail: Vec<u16> = Vec::new();
        push_groups(&mut tail, g.as_slice(), best_start + best_len, 8);
        proof {
            assert(head@ =~= g@.subrange(0, best_start as int));
            assert(tail@ =~= g@.subrange(best_start + best_len, 8));
        }
        push_groups_text(out, head.as_slice());
        out.push(58u8);
        out.push(58u8);
        push_groups_text(out, tail.as_slice());
        proof {
            assert(out@ =~= o0 + ipv6_text(o@));
        }
    } else {
        push_groups_text(out, g.as_slice());
        proof {
            assert(out@ =~= o0 + ipv6_text(o@));
        }
    }
}

} // verus!
