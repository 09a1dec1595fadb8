//! In-memory hash-chained audit log of zone mutations.
//!
//! Each event's `hash` is SHA-256 over a canonical text of the event, which
//! includes the previous event's hash; tampering with an entry breaks the
//! chain. The newest 1024 events are kept.
use super::auth::{hex_encode, sha256, sha256_bytes};
use crate::text::{all_ascii, ascii_chars, decimal, hex_bytes, push_decimal, str_bytes, text_from_bytes};
use vstd::prelude::*;
use vstd::string::{StringExecFns, StringSliceAdditionalSpecFns};

verus! {

/// Events kept in memory.
pub const MAX_EVENTS: usize = 1024;

/// One recorded mutation (or refused mutation).
#[derive(Debug)]
pub struct AuditEvent {
    pub seq: u64,
    pub ts_unix_ms: u64,
    pub action: String,
    pub zone: String,
    pub name: String,
    pub rtype: String,
    pub ttl: Option<u32>,
    pub values: Vec<String>,
    pub dry_run: bool,
    pub result: String,
    pub serial: Option<u32>,
    pub idempotency_key: Option<String>,
    pub prev_hash: String,
    pub hash: String,
}

/// Abstract audit event: texts as character sequences.
pub struct AuditEventV {
    pub seq: u64,
    pub ts_unix_ms: u64,
    pub action: Seq<char>,
    pub zone: Seq<char>,
    pub name: Seq<char>,
    pub rtype: Seq<char>,
    pub ttl: Option<u32>,
    pub values: Seq<Seq<char>>,
    pub dry_run: bool,
    pub result: Seq<char>,
    pub serial: Option<u32>,
    pub idempotency_key: Option<Seq<char>>,
    pub prev_hash: Seq<char>,
    pub hash: Seq<char>,
}

pub open spec fn string_views(v: Seq<String>) -> Seq<Seq<char>> {
    v.map_values(|s: String| s@)
}

pub open spec fn event_view(e: AuditEvent) -> AuditEventV {
    AuditEventV {
        seq: e.seq,
        ts_unix_ms: e.ts_unix_ms,
        action: e.action@,
        zone: e.zone@,
        name: e.name@,
        rtype: e.rtype@,
        ttl: e.ttl,
        values: string_views(e.values@),
        dry_run: e.dry_run,
        result: e.result@,
        serial: e.serial,
        idempotency_key: match e.idempotency_key {
            Some(k) => Some(k@),
            None => None,
        },
        prev_hash: e.prev_hash@,
        hash: e.hash@,
    }
}

pub open spec fn event_views(v: Seq<AuditEvent>) -> Seq<AuditEventV> {
    v.map_values(|e: AuditEvent| event_view(e))
}

/// Decimal text of a number.
pub open spec fn dec_text(n: nat) -> Seq<char> {
    ascii_chars(decimal(n))
}

/// `{:?}` of an `Option<u32>`.
pub open spec fn opt_text(o: Option<u32>) -> Seq<char> {
    match o {
        Some(v) => "Some("@ + dec_text(v as nat) + ")"@,
        None => "None"@,
    }
}

/// Texts joined by commas.
pub open spec fn comma_join(vs: Seq<Seq<char>>) -> Seq<char>
    decreases vs.len(),
{
    if vs.len() == 0 {
        seq![]
    } else if vs.len() == 1 {
        vs[0]
    } else {
        comma_join(vs.drop_last()) + ","@ + vs.last()
    }
}

/// The canonical, field-order-stable text an event's hash covers (the hash
/// itself excluded): fields joined by `|`.
pub open spec fn canonical_text(e: AuditEventV) -> Seq<char> {
    let bar = "|"@;
    dec_text(e.seq as nat) + bar + dec_text(e.ts_unix_ms as nat) + bar + e.action + bar + e.zone + bar + e.name + bar
        + e.rtype + bar + opt_text(e.ttl) + bar + comma_join(e.values) + bar + (if e.dry_run {
        "true"@
    } else {
        "false"@
    }) + bar + e.result + bar + opt_text(e.serial) + bar + (match e.idempotency_key {
        Some(k) => k,
        None => seq![],
    }) + bar + e.prev_hash
}

/// The hash of an event: hex SHA-256 of the UTF-8 of its canonical text.
pub open spec fn event_hash(e: AuditEventV) -> Seq<char> {
    ascii_chars(hex_bytes(sha256(vstd::utf8::encode_utf8(canonical_text(e)))))
}

fn dec_string(n: u64) -> (r: String)
    ensures
        r@ == dec_text(n as nat),
{
    let mut b: Vec<u8> = Vec::new();
    push_decimal(&mut b, n);
    proof {
        assert(b@ =~= decimal(n as nat));
        crate::text::lemma_decimal_ascii(n as nat);
    }
    text_from_bytes(b.as_slice())
}

fn push_opt(s: &mut String, o: Option<u32>)
    ensures
        final(s)@ == old(s)@ + opt_text(o),
{
    match o {
        Some(v) => {
            s.append("Some(");
            let d = dec_string(v as u64);
            s.append(d.as_str());
            s.append(")");
        },
        None => s.append("None"),
    }
    proof {
        assert(final(s)@ =~= old(s)@ + opt_text(o));
    }
}

/// The canonical text of an event.
pub fn canonical(event: &AuditEvent) -> (r: String)
    ensures
        r@ == canonical_text(event_view(*event)),
{
    let ghost ev = event_view(*event);
    let mut s = dec_string(event.seq);
    s.append("|");
    let ts = dec_string(event.ts_unix_ms);
    s.append(ts.as_str());
    s.append("|");
    s.append(event.action.as_str());
    s.append("|");
    s.append(event.zone.as_str());
    s.append("|");
    s.append(event.name.as_str());
    s.append("|");
    s.append(event.rtype.as_str());
    s.append("|");
    push_opt(&mut s, event.ttl);
    s.append("|");
    let ghost before_values = s@;
    let mut i: usize = 0;
    while i < event.values.len()
        invariant
            i <= event.values@.len(),
            ev == event_view(*event),
            s@ == before_values + comma_join(string_views(event.values@).take(i as int)),
        decreases event.values@.len() - i,
    {
        proof {
            assert(string_views(event.values@).take(i as int + 1).drop_last() =~= string_views(event.values@).take(
                i as int,
            ));
            assert(string_views(event.values@)[i as int] == event.values@[i as int]@);
        }
        if i > 0 {
            s.append(",");
        }
        s.append(event.values[i].as_str());
        i = i + 1;
        proof {
            if i == 1 {
                assert(string_views(event.values@).take(1) =~= seq![event.values@[0]@]);
            }
            assert(s@ =~= before_values + comma_join(string_views(event.values@).take(i as int)));
        }
    }
    proof {
        assert(string_views(event.values@).take(i as int) =~= string_views(event.values@));
    }
    s.append("|");
    if event.dry_run {
        s.append("true");
    } else {
        s.append("false");
    }
    s.append("|");
    s.append(event.result.as_str());
    s.append("|");
    push_opt(&mut s, event.serial);
    s.append("|");
    match &event.idempotency_key {
        Some(k) => s.append(k.as_str()),
        None => {},
    }
    s.append("|");
    s.append(event.prev_hash.as_str());
    proof {
        assert(s@ =~= canonical_text(ev));
    }
    s
}

/// Hash of an event's canonical text, hex encoded.
pub fn hash_event(event: &AuditEvent) -> (r: String)
    ensures
        r@ == event_hash(event_view(*event)),
{
    let c = canonical(event);
    let b = str_bytes(c.as_str());
    let d = sha256_bytes(b);
    hex_encode(d.as_slice())
}

fn copy_strings(v: &Vec<String>) -> (r: Vec<String>)
    ensures
        string_views(r@) == string_views(v@),
{
    let mut out: Vec<String> = Vec::new();
    let mut i: usize = 0;
    while i < v.len()
        invariant
            i <= v@.len(),
            string_views(out@) == string_views(v@).take(i as int),
        decreases v@.len() - i,
    {
        let s = v[i].clone();
        let ghost before = out@;
        out.push(s);
        proof {
            assert(string_views(out@) =~= string_views(before).push(s@));
            assert(string_views(v@).take(i as int + 1) =~= string_views(v@).take(i as int).push(v@[i as int]@));
        }
        i = i + 1;
    }
    proof {
        assert(string_views(v@).take(i as int) =~= string_views(v@));
    }
    out
}

impl AuditEvent {
    /// A copy of this event.
    pub fn copy(&self) -> (r: AuditEvent)
        ensures
            event_view(r) == event_view(*self),
    {
        AuditEvent {
            seq: self.seq,
            ts_unix_ms: self.ts_unix_ms,
            action: self.action.clone(),
            zone: self.zone.clone(),
            name: self.name.clone(),
            rtype: self.rtype.clone(),
            ttl: self.ttl,
            values: copy_strings(&self.values),
            dry_run: self.dry_run,
            result: self.result.clone(),
            serial: self.serial,
            idempotency_key: match &self.idempotency_key {
                Some(k) => Some(k.clone()),
                None => None,
            },
            prev_hash: self.prev_hash.clone(),
            hash: self.hash.clone(),
        }
    }
}

/// The hash the chain starts from: 64 zeros.
pub open spec fn genesis_hash() -> Seq<char> {
    "0000000000000000000000000000000000000000000000000000000000000000"@
}

/// The event `append` records for `e` after `count` events, chained to
/// `prev`: numbered, linked, hashed.
pub open spec fn chained(e: AuditEventV, count: nat, prev: Seq<char>) -> AuditEventV {
    let numbered = AuditEventV { seq: (count + 1) as u64, prev_hash: prev, ..e };
    AuditEventV { hash: event_hash(numbered), ..numbered }
}

/// The log's events and head after appending `e`.
pub open spec fn log_after(events: Seq<AuditEventV>, head: Seq<char>, e: AuditEventV) -> (Seq<AuditEventV>, Seq<char>) {
    let r = chained(e, events.len(), head);
    (
        if events.len() + 1 > MAX_EVENTS {
            events.push(r).skip(1)
        } else {
            events.push(r)
        },
        r.hash,
    )
}

/// The log after appending each of `es` in turn.
pub open spec fn log_after_all(events: Seq<AuditEventV>, head: Seq<char>, es: Seq<AuditEventV>) -> (
    Seq<AuditEventV>,
    Seq<char>,
)
    decreases es.len(),
{
    if es.len() == 0 {
        (events, head)
    } else {
        let (ev, h) = log_after_all(events, head, es.drop_last());
        log_after(ev, h, es.last())
    }
}

/// How many of `n` appended events a log keeps: at most 1024.
pub open spec fn kept(n: nat) -> nat {
    if n > MAX_EVENTS {
        MAX_EVENTS as nat
    } else {
        n
    }
}

/// The events recorded when each of `es` is appended in turn to a fresh log:
/// the `i`-th is numbered after the `kept(i)` events before it and chained to
/// the hash of the one before (to the genesis hash for the first).
pub open spec fn appended(es: Seq<AuditEventV>) -> Seq<AuditEventV>
    decreases es.len(),
{
    if es.len() == 0 {
        seq![]
    } else {
        let prior = appended(es.drop_last());
        let prev = if prior.len() == 0 {
            genesis_hash()
        } else {
            prior.last().hash
        };
        prior.push(chained(es.last(), kept((es.len() - 1) as nat), prev))
    }
}

/// The hash each recorded event is chained to: the genesis hash for the
/// first, the previous recorded event's hash after that.
pub open spec fn link_before(rs: Seq<AuditEventV>, i: int) -> Seq<char> {
    if i == 0 {
        genesis_hash()
    } else {
        rs[i - 1].hash
    }
}

proof fn lemma_appended_len(es: Seq<AuditEventV>)
    ensures
        appended(es).len() == es.len(),
    decreases es.len(),
{
    if es.len() > 0 {
        lemma_appended_len(es.drop_last());
    }
}

proof fn lemma_appended_at(es: Seq<AuditEventV>, i: int)
    requires
        0 <= i < es.len(),
    ensures
        appended(es)[i] == chained(es[i], kept(i as nat), link_before(appended(es), i)),
    decreases es.len(),
{
    lemma_appended_len(es);
    let init = es.drop_last();
    lemma_appended_len(init);
    let a0 = appended(init);
    let a = appended(es);
    if i < es.len() - 1 {
        lemma_appended_at(init, i);
        assert(a[i] == a0[i]);
        assert(es[i] == init[i]);
        if i > 0 {
            assert(a[i - 1] == a0[i - 1]);
        }
        assert(link_before(a, i) == link_before(a0, i));
    } else if i > 0 {
        assert(a[i - 1] == a0.last());
    }
}

#[verifier::rlimit(60)]
proof fn lemma_appended_log(es: Seq<AuditEventV>)
    ensures
        log_after_all(Seq::<AuditEventV>::empty(), genesis_hash(), es) == (
            appended(es).skip(es.len() - kept(es.len())),
            if es.len() == 0 {
                genesis_hash()
            } else {
                appended(es).last().hash
            },
        ),
    decreases es.len(),
{
    lemma_appended_len(es);
    if es.len() == 0 {
        assert(appended(es).skip(0) =~= appended(es));
    } else {
        let init = es.drop_last();
        let n = es.len();
        let m = init.len();
        lemma_appended_log(init);
        lemma_appended_len(init);
        let a0 = appended(init);
        let a = appended(es);
        let prev = if a0.len() == 0 {
            genesis_hash()
        } else {
            a0.last().hash
        };
        let r = chained(es.last(), kept(m as nat), prev);
        assert(a == a0.push(r));
        let ev = a0.skip(m - kept(m as nat));
        assert(ev.len() == kept(m as nat));
        if m < MAX_EVENTS {
            assert(ev =~= a0);
            assert(a.skip(n - kept(n as nat)) =~= a0.push(r));
        } else {
            assert(ev.push(r).skip(1) =~= a.skip(n - kept(n as nat)));
        }
    }
}

/// The audit chain over any number of appends to a fresh log: the `i`-th
/// recorded event keeps the fields it was given and gets sequence number
/// `min(i, 1024) + 1`; the first links to the genesis hash and each later one
/// to the hash of the one before; each hash covers its event's canonical
/// text; the log keeps the newest 1024 of them, and its head is the newest
/// hash.
pub proof fn lemma_audit_chain(es: Seq<AuditEventV>)
    ensures
        appended(es).len() == es.len(),
        forall|i: int|
            0 <= i < es.len() ==> #[trigger] appended(es)[i] == chained(
                es[i],
                kept(i as nat),
                link_before(appended(es), i),
            ),
        forall|i: int| 0 <= i < es.len() ==> (#[trigger] appended(es)[i]).seq == kept(i as nat) + 1,
        es.len() > 0 ==> appended(es)[0].prev_hash == genesis_hash(),
        forall|i: int| 0 < i < es.len() ==> (#[trigger] appended(es)[i]).prev_hash == appended(es)[i - 1].hash,
        forall|i: int| 0 <= i < es.len() ==> (#[trigger] appended(es)[i]).hash == event_hash(appended(es)[i]),
        log_after_all(Seq::<AuditEventV>::empty(), genesis_hash(), es).0 == appended(es).skip(
            es.len() - kept(es.len()),
        ),
        es.len() > 0 ==> log_after_all(Seq::<AuditEventV>::empty(), genesis_hash(), es).1 == appended(es).last().hash,
{
    lemma_appended_len(es);
    lemma_appended_log(es);
    assert forall|i: int| 0 <= i < es.len() implies #[trigger] appended(es)[i] == chained(
        es[i],
        kept(i as nat),
        link_before(appended(es), i),
    ) by {
        lemma_appended_at(es, i);
    }
    assert forall|i: int| 0 <= i < es.len() implies (#[trigger] appended(es)[i]).hash == event_hash(
        appended(es)[i],
    ) by {
        lemma_appended_at(es, i);
        lemma_chained_hash(es[i], kept(i as nat), link_before(appended(es), i));
    }
}

/// The hash `chained` gives an event covers the event as recorded: the
/// canonical text leaves the hash field out.
proof fn lemma_chained_hash(e: AuditEventV, count: nat, prev: Seq<char>)
    ensures
        chained(e, count, prev).hash == event_hash(chained(e, count, prev)),
{
    let numbered = AuditEventV { seq: (count + 1) as u64, prev_hash: prev, ..e };
    assert(canonical_text(chained(e, count, prev)) == canonical_text(numbered));
}

/// Append-only audit log.
pub struct AuditLog {
    events: Vec<AuditEvent>,
    prev_hash: String,
}

impl AuditLog {
    /// The retained events, oldest first.
    pub closed spec fn events(&self) -> Seq<AuditEventV> {
        event_views(self.events@)
    }

    /// The hash of the newest event (the genesis hash before any).
    pub closed spec fn head(&self) -> Seq<char> {
        self.prev_hash@
    }

    /// An empty log.
    pub fn new() -> (r: Self)
        ensures
            r.events() == Seq::<AuditEventV>::empty(),
            r.head() == genesis_hash(),
    {
        let r = AuditLog {
            events: Vec::new(),
            prev_hash: String::from_str("0000000000000000000000000000000000000000000000000000000000000000"),
        };
        proof {
            assert(r.events() =~= Seq::<AuditEventV>::empty());
        }
        r
    }

    /// Append `event`; its `seq`, `prev_hash` and `hash` are filled in. The
    /// oldest event is dropped past 1024.
    pub fn append(&mut self, event: AuditEvent) -> (r: AuditEvent)
        requires
            old(self).events().len() <= MAX_EVENTS,
        ensures
            final(self).events().len() <= MAX_EVENTS,
            (final(self).events(), final(self).head()) == log_after(
                old(self).events(),
                old(self).head(),
                event_view(event),
            ),
            event_view(r) == chained(event_view(event), old(self).events().len(), old(self).head()),
            final(self).head() == event_view(r).hash,
            final(self).events() == (if old(self).events().len() + 1 > MAX_EVENTS {
                old(self).events().push(event_view(r)).skip(1)
            } else {
                old(self).events().push(event_view(r))
            }),
    {
        let mut e = event;
        let ghost ev0 = event_view(e);
        e.seq = self.events.len() as u64 + 1;
        e.prev_hash = self.prev_hash.clone();
        e.hash = hash_event(&e);
        proof {
            assert(event_view(e) == chained(ev0, old(self).events().len(), old(self).head()));
        }
        self.prev_hash = e.hash.clone();
        let ghost before = self.events@;
        self.events.push(e.copy());
        proof {
            assert(event_views(self.events@) =~= event_views(before).push(event_view(e)));
        }
        if self.events.len() > MAX_EVENTS {
            let ghost pushed = self.events@;
            let _dropped = self.events.remove(0);
            proof {
                assert(event_views(self.events@) =~= event_views(pushed).skip(1));
            }
        }
        e
    }

    /// The retained events.
    pub fn list(&self) -> (r: Vec<AuditEvent>)
        ensures
            event_views(r@) == self.events(),
    {
        let mut out: Vec<AuditEvent> = Vec::new();
        let mut i: usize = 0;
        while i < self.events.len()
            invariant
                i <= self.events@.len(),
                event_views(out@) == event_views(self.events@).take(i as int),
            decreases self.events@.len() - i,
        {
            let c = self.events[i].copy();
            let ghost before = out@;
            out.push(c);
            proof {
                assert(event_views(out@) =~= event_views(before).push(event_view(c)));
                assert(event_views(self.events@).take(i as int + 1) =~= event_views(self.events@).take(i as int).push(
                    event_view(self.events@[i as int]),
                ));
            }
            i = i + 1;
        }
        proof {
            assert(event_views(self.events@).take(i as int) =~= event_views(self.events@));
        }
        out
    }
}

/// Two appends chain: the second event's `prev_hash` is the first event's
/// hash, and their sequence numbers are consecutive.
pub proof fn lemma_chain_links(e1: AuditEventV, e2: AuditEventV, count: nat, head: Seq<char>)
    ensures
        chained(e2, count + 1, chained(e1, count, head).hash).prev_hash == chained(e1, count, head).hash,
        chained(e2, count + 1, chained(e1, count, head).hash).seq == (count + 2) as u64,
        chained(e1, count, head).seq == (count + 1) as u64,
        chained(e1, count, head).prev_hash == head,
{
}


/// `std::time::SystemTime`, carried opaquely from the clock read to the epoch
/// subtraction.
#[verifier::external_type_specification]
#[verifier::external_body]
pub struct ExSystemTime(std::time::SystemTime);

/// `std::time::SystemTime::now`: reads the system clock. Nothing is promised
/// of the value; two reads may differ.
#[verifier::external_body]
fn clock_now() -> (t: std::time::SystemTime) {
    std::time::SystemTime::now()
}

/// `SystemTime::duration_since(UNIX_EPOCH)`: the time elapsed since the Unix
/// epoch, `None` where the clock reads earlier than the epoch. Which of the two
/// comes back depends on the clock, so nothing more is stated.
#[verifier::external_body]
fn since_unix_epoch(t: &std::time::SystemTime) -> (d: Option<core::time::Duration>) {
    match t.duration_since(std::time::UNIX_EPOCH) {
        Ok(d) => Some(d),
        Err(_) => None,
    }
}

/// `Duration::as_millis`: the whole milliseconds in a duration. No view of a
/// `Duration` is available, so the value is left unstated.
#[verifier::external_body]
fn whole_millis(d: &core::time::Duration) -> (ms: u128) {
    d.as_millis()
}

/// What a clock reading in milliseconds becomes as a timestamp: 0 for a clock
/// before the epoch, the reading where it fits in a `u64`, else `u64::MAX`.
pub open spec fn clamp_millis_spec(elapsed: Option<u128>) -> u64 {
    match elapsed {
        None => 0,
        Some(ms) => if ms <= u64::MAX as u128 { ms as u64 } else { u64::MAX },
    }
}

/// Turns a clock reading (milliseconds since the epoch, `None` before it) into
/// the `u64` timestamp stored on audit events.
pub fn clamp_millis(elapsed: Option<u128>) -> (ts: u64)
    ensures
        ts == clamp_millis_spec(elapsed),
{
    match elapsed {
        None => 0,
        Some(ms) => if ms <= u64::MAX as u128 {
            ms as u64
        } else {
            u64::MAX
        },
    }
}

/// Milliseconds since the Unix epoch, saturating at `u64::MAX` and 0 for a
/// clock set before the epoch. The value is the clock's, so no clause states
/// it; `clamp_millis` holds the part that is computed.
pub fn unix_ms() -> u64 {
    let now = clock_now();
    let elapsed = match since_unix_epoch(&now) {
        Some(d) => Some(whole_millis(&d)),
        None => None,
    };
    clamp_millis(elapsed)
}

} // verus!
