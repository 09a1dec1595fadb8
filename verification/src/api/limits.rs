//! The write limiter (a one-second window) and the idempotency cache of the
//! record API.
use super::records::{api_error_view, mutation_view, ApiError, ApiErrorV, MutationResponse, MutationResponseV};
use crate::zone::text;
use vstd::prelude::*;

verus! {

/// At most `max_per_sec` writes in each one-second window; a window opens at
/// the first write after the previous one has lasted a second. Times are
/// milliseconds of a monotonic clock.
pub struct WriteLimiter {
    window_start_ms: u64,
    count: u32,
    max_per_sec: u32,
}

/// Limiter state: window start, writes in the window, limit.
pub struct LimiterV {
    pub window_start_ms: u64,
    pub count: u32,
    pub max_per_sec: u32,
}

/// One limiter decision at time `now`: the new state and whether the write
/// is allowed.
pub open spec fn limiter_step(s: LimiterV, now: u64) -> (LimiterV, bool) {
    if now >= s.window_start_ms && now - s.window_start_ms >= 1000 {
        (LimiterV { window_start_ms: now, count: 1, ..s }, true)
    } else if s.count >= s.max_per_sec {
        (s, false)
    } else {
        (LimiterV { count: (s.count + 1) as u32, ..s }, true)
    }
}

impl WriteLimiter {
    pub closed spec fn view(&self) -> LimiterV {
        LimiterV { window_start_ms: self.window_start_ms, count: self.count, max_per_sec: self.max_per_sec }
    }

    /// A limiter whose first window starts at `now_ms`.
    pub fn new(max_per_sec: u32, now_ms: u64) -> (r: Self)
        ensures
            r.view() == (LimiterV { window_start_ms: now_ms, count: 0, max_per_sec }),
    {
        WriteLimiter { window_start_ms: now_ms, count: 0, max_per_sec }
    }

    /// Whether a write at `now_ms` is allowed; counts it if so.
    pub fn allow(&mut self, now_ms: u64) -> (r: bool)
        ensures
            (final(self).view(), r) == limiter_step(old(self).view(), now_ms),
    {
        if now_ms >= self.window_start_ms && now_ms - self.window_start_ms >= 1000 {
            self.window_start_ms = now_ms;
            self.count = 1;
            return true;
        }
        if self.count >= self.max_per_sec {
            return false;
        }
        self.count = self.count + 1;
        true
    }
}

/// Within one window no more than `max_per_sec` writes are allowed.
pub proof fn lemma_limiter_bounded(s: LimiterV, now: u64)
    requires
        s.count <= s.max_per_sec || s.max_per_sec == 0,
        s.max_per_sec > 0,
    ensures
        limiter_step(s, now).0.count <= s.max_per_sec,
        !(now >= s.window_start_ms && now - s.window_start_ms >= 1000) && s.count == s.max_per_sec ==> !limiter_step(
            s,
            now,
        ).1,
{
}

/// The state and the decisions after writes at each of `times` in turn.
pub open spec fn limiter_run(s: LimiterV, times: Seq<u64>) -> (LimiterV, Seq<bool>)
    decreases times.len(),
{
    if times.len() == 0 {
        (s, seq![])
    } else {
        let (s1, rs) = limiter_run(s, times.drop_last());
        let (s2, b) = limiter_step(s1, times.last());
        (s2, rs.push(b))
    }
}

proof fn lemma_limiter_window(s: LimiterV, times: Seq<u64>)
    requires
        times.len() > 0,
        s.max_per_sec > 0,
        times[0] >= s.window_start_ms && times[0] - s.window_start_ms >= 1000,
        forall|i: int| 0 <= i < times.len() ==> times[0] <= #[trigger] times[i] < times[0] + 1000,
    ensures
        limiter_run(s, times).1.len() == times.len(),
        limiter_run(s, times).0.window_start_ms == times[0],
        limiter_run(s, times).0.max_per_sec == s.max_per_sec,
        limiter_run(s, times).0.count == (if times.len() <= s.max_per_sec { times.len() as int } else { s.max_per_sec as int }),
        forall|i: int| 0 <= i < times.len() ==> #[trigger] limiter_run(s, times).1[i] == (i < s.max_per_sec),
    decreases times.len(),
{
    let init = times.drop_last();
    if init.len() == 0 {
        let (s0, rs0) = limiter_run(s, init);
        assert(s0 == s);
        assert(times.last() == times[0]);
    } else {
        assert forall|i: int| 0 <= i < init.len() implies init[0] <= #[trigger] init[i] < init[0] + 1000 by {
            assert(init[i] == times[i]);
        }
        lemma_limiter_window(s, init);
        let (s1, rs1) = limiter_run(s, init);
        assert(times.last() == times[times.len() - 1]);
        assert forall|i: int| 0 <= i < times.len() implies #[trigger] limiter_run(s, times).1[i] == (i
            < s.max_per_sec) by {
            if i < init.len() {
                assert(limiter_run(s, times).1[i] == rs1[i]);
            }
        }
    }
}

/// Every window allows its quota: when a write opens a new window (it comes at
/// least a second after the current window started), the first
/// `max_per_sec` writes in that window, the opening one included, are all
/// allowed and any further ones refused, whatever the limiter's state was
/// before.
pub proof fn lemma_limiter_window_quota(s: LimiterV, times: Seq<u64>)
    requires
        times.len() > 0,
        s.max_per_sec > 0,
        times[0] >= s.window_start_ms && times[0] - s.window_start_ms >= 1000,
        forall|i: int| 0 <= i < times.len() ==> times[0] <= #[trigger] times[i] < times[0] + 1000,
    ensures
        forall|i: int| 0 <= i < times.len() ==> (#[trigger] limiter_run(s, times).1[i] <==> i < s.max_per_sec),
{
    lemma_limiter_window(s, times);
}

/// A cached write answer.
pub struct CachedResponse {
    pub body_hash: String,
    pub status: u16,
    pub body: MutationResponse,
}

/// Abstract cache entry: key, body hash, status, answer.
pub struct CacheEntryV {
    pub key: Seq<char>,
    pub body_hash: Seq<char>,
    pub status: u16,
    pub body: MutationResponseV,
}

/// Entries beyond which the cache is emptied before the next insert.
pub const IDEM_CAPACITY: usize = 256;

/// Index of the first entry with key `k` at or after `i`.
pub open spec fn find_key(s: Seq<CacheEntryV>, k: Seq<char>, i: int) -> Option<int>
    decreases s.len() - i,
{
    if i < 0 || i >= s.len() {
        None
    } else if s[i].key == k {
        Some(i)
    } else {
        find_key(s, k, i + 1)
    }
}

/// What a lookup gives: nothing for an unknown key, the stored answer for a
/// repeated body, a conflict for a key reused with another body.
pub open spec fn cache_get_spec(s: Seq<CacheEntryV>, key: Seq<char>, hash: Seq<char>) -> Result<
    Option<(u16, MutationResponseV)>,
    ApiErrorV,
> {
    match find_key(s, key, 0) {
        None => Ok(None),
        Some(i) => if s[i].body_hash == hash {
            Ok(Some((s[i].status, s[i].body)))
        } else {
            Err(ApiErrorV::Conflict("Idempotency-Key reused with a different body"@))
        },
    }
}

/// The entries after storing `e`: emptied first if over capacity, then `e`
/// replaces the entry with its key or is appended.
pub open spec fn cache_put_spec(s: Seq<CacheEntryV>, e: CacheEntryV) -> Seq<CacheEntryV> {
    let base = if s.len() > IDEM_CAPACITY {
        Seq::<CacheEntryV>::empty()
    } else {
        s
    };
    match find_key(base, e.key, 0) {
        Some(i) => base.update(i, e),
        None => base.push(e),
    }
}

/// Idempotency-Key → the answer first given for it.
pub struct IdempotencyCache {
    entries: Vec<(String, CachedResponse)>,
}

pub open spec fn entry_view(e: (String, CachedResponse)) -> CacheEntryV {
    CacheEntryV { key: e.0@, body_hash: e.1.body_hash@, status: e.1.status, body: mutation_view(e.1.body) }
}

pub open spec fn entry_views(v: Seq<(String, CachedResponse)>) -> Seq<CacheEntryV> {
    v.map_values(|e: (String, CachedResponse)| entry_view(e))
}

proof fn lemma_find_key(s: Seq<CacheEntryV>, k: Seq<char>, i: int)
    requires
        0 <= i,
    ensures
        match find_key(s, k, i) {
            Some(j) => i <= j < s.len() && s[j].key == k,
            None => forall|j: int| i <= j < s.len() ==> s[j].key != k,
        },
    decreases s.len() - i,
{
    if i < s.len() && s[i].key != k {
        lemma_find_key(s, k, i + 1);
    }
}

pub fn copy_response(m: &MutationResponse) -> (r: MutationResponse)
    ensures
        mutation_view(r) == mutation_view(*m),
{
    let mut records: Vec<super::records::RecordView> = Vec::new();
    let mut i: usize = 0;
    while i < m.records.len()
        invariant
            i <= m.records@.len(),
            super::records::record_view_views(records@) == super::records::record_view_views(m.records@).take(
                i as int,
            ),
        decreases m.records@.len() - i,
    {
        let r = &m.records[i];
        let c = super::records::RecordView {
            name: r.name.clone(),
            rtype: r.rtype.clone(),
            value: r.value.clone(),
            ttl: r.ttl,
        };
        let ghost before = records@;
        records.push(c);
        proof {
            assert(super::records::record_view_views(records@) =~= super::records::record_view_views(before).push(
                super::records::record_view_view(c),
            ));
            assert(super::records::record_view_views(m.records@).take(i as int + 1) =~= super::records::record_view_views(
                m.records@,
            ).take(i as int).push(super::records::record_view_view(m.records@[i as int])));
        }
        i = i + 1;
    }
    proof {
        assert(super::records::record_view_views(m.records@).take(i as int) =~= super::records::record_view_views(
            m.records@,
        ));
    }
    MutationResponse { ok: m.ok, dry_run: m.dry_run, serial: m.serial, records }
}

impl IdempotencyCache {
    pub closed spec fn entries(&self) -> Seq<CacheEntryV> {
        entry_views(self.entries@)
    }

    /// An empty cache.
    pub fn new() -> (r: Self)
        ensures
            r.entries() == Seq::<CacheEntryV>::empty(),
    {
        let r = IdempotencyCache { entries: Vec::new() };
        proof {
            assert(r.entries() =~= Seq::<CacheEntryV>::empty());
        }
        r
    }

    fn find(&self, key: &str) -> (r: Option<usize>)
        ensures
            match find_key(self.entries(), key@, 0) {
                Some(i) => r matches Some(x) && x == i && 0 <= i < self.entries@.len(),
                None => r is None,
            },
    {
        proof {
            lemma_find_key(self.entries(), key@, 0);
        }
        let ghost s = self.entries();
        let mut i: usize = 0;
        while i < self.entries.len()
            invariant
                i <= self.entries@.len(),
                s == self.entries(),
                s.len() == self.entries@.len(),
                find_key(s, key@, 0) == find_key(s, key@, i as int),
            decreases self.entries@.len() - i,
        {
            let k = &self.entries[i].0;
            proof {
                assert(s[i as int] == entry_view(self.entries@[i as int]));
            }
            if text_eq(k.as_str(), key) {
                return Some(i);
            }
            i = i + 1;
        }
        None
    }

    /// The stored answer for `key`, if the body is the same.
    pub fn get(&self, key: &str, body_hash: &str) -> (r: Result<Option<(u16, MutationResponse)>, ApiError>)
        ensures
            match cache_get_spec(self.entries(), key@, body_hash@) {
                Ok(None) => r matches Ok(None),
                Ok(Some((st, b))) => r matches Ok(Some((st2, b2))) && st2 == st && mutation_view(b2) == b,
                Err(e) => r matches Err(x) && api_error_view(x) == e,
            },
    {
        match self.find(key) {
            None => Ok(None),
            Some(i) => {
                let c = &self.entries[i].1;
                proof {
                    assert(self.entries()[i as int] == entry_view(self.entries@[i as int]));
                }
                if text_eq(c.body_hash.as_str(), body_hash) {
                    let b = copy_response(&c.body);
                    proof {
                        let s = self.entries();
                        assert(find_key(s, key@, 0) == Some(i as int));
                        assert(s[i as int].status == c.status);
                        assert(s[i as int].body == mutation_view(c.body));
                        assert(s[i as int].body_hash == body_hash@);
                    }
                    Ok(Some((c.status, b)))
                } else {
                    Err(ApiError::Conflict(text("Idempotency-Key reused with a different body")))
                }
            },
        }
    }

    /// Store the answer for `key`.
    pub fn put(&mut self, key: String, body_hash: String, status: u16, body: MutationResponse)
        ensures
            final(self).entries() == cache_put_spec(
                old(self).entries(),
                CacheEntryV { key: key@, body_hash: body_hash@, status, body: mutation_view(body) },
            ),
    {
        if self.entries.len() > IDEM_CAPACITY {
            self.entries = Vec::new();
            proof {
                assert(self.entries() =~= Seq::<CacheEntryV>::empty());
            }
        }
        let ghost base = self.entries();
        let ghost e = CacheEntryV { key: key@, body_hash: body_hash@, status, body: mutation_view(body) };
        let entry = (key, CachedResponse { body_hash, status, body });
        proof {
            assert(entry_view(entry) == e);
        }
        match self.find(entry.0.as_str()) {
            Some(i) => {
                let ghost before = self.entries@;
                let _old = self.entries.remove(i);
                self.entries.insert(i, entry);
                proof {
                    assert(self.entries@ =~= before.update(i as int, entry));
                    assert(self.entries() =~= base.update(i as int, e));
                }
            },
            None => {
                let ghost before = self.entries@;
                self.entries.push(entry);
                proof {
                    assert(self.entries() =~= base.push(e));
                }
            },
        }
    }
}

/// Text equality of string slices.
pub fn text_eq(a: &str, b: &str) -> (r: bool)
    ensures
        r == (a@ == b@),
{
    let x = crate::text::str_bytes(a);
    let y = crate::text::str_bytes(b);
    let eq = crate::wire::compress::bytes_eq(x, y);
    proof {
        vstd::utf8::encode_utf8_decode_utf8(a@);
        vstd::utf8::encode_utf8_decode_utf8(b@);
    }
    eq
}

proof fn lemma_find_key_at(s: Seq<CacheEntryV>, k: Seq<char>, i: int, j: int)
    requires
        0 <= i <= j < s.len(),
        s[j].key == k,
        forall|m: int| i <= m < j ==> s[m].key != k,
    ensures
        find_key(s, k, i) == Some(j),
    decreases j - i,
{
    if i < j {
        lemma_find_key_at(s, k, i + 1, j);
    }
}

proof fn lemma_find_key_first(s: Seq<CacheEntryV>, k: Seq<char>, i: int)
    requires
        0 <= i,
    ensures
        find_key(s, k, i) matches Some(j) ==> forall|m: int| i <= m < j ==> s[m].key != k,
    decreases s.len() - i,
{
    if i < s.len() && s[i].key != k {
        lemma_find_key_first(s, k, i + 1);
    }
}

/// A replayed request finds the answer stored for it: after storing `e`,
/// looking up its key with the same body hash gives its status and body,
/// and with another hash a conflict.
pub proof fn lemma_cache_replay(s: Seq<CacheEntryV>, e: CacheEntryV, other_hash: Seq<char>)
    requires
        other_hash != e.body_hash,
    ensures
        cache_get_spec(cache_put_spec(s, e), e.key, e.body_hash) == Ok::<
            Option<(u16, MutationResponseV)>,
            ApiErrorV,
        >(Some((e.status, e.body))),
        cache_get_spec(cache_put_spec(s, e), e.key, other_hash) is Err,
{
    let base = if s.len() > IDEM_CAPACITY {
        Seq::<CacheEntryV>::empty()
    } else {
        s
    };
    lemma_find_key(base, e.key, 0);
    lemma_find_key_first(base, e.key, 0);
    let t = cache_put_spec(s, e);
    match find_key(base, e.key, 0) {
        Some(i) => {
            assert(t == base.update(i, e));
            lemma_find_key_at(t, e.key, 0, i);
        },
        None => {
            assert(t == base.push(e));
            lemma_find_key_at(t, e.key, 0, base.len() as int);
        },
    }
}

} // verus!
