//! The warm-container panel cache: loaded panels are kept per
//! (series name, date window, symbol set) so a repeated run over the same
//! universe and window skips the reloads. Entries expire after [`TTL_MS`]
//! and at most [`MAX_ENTRIES`] are held, the oldest evicted first. The clock
//! is the caller's: every operation takes the current time in milliseconds.

use vstd::prelude::*;
use vstd::string::*;
use vstd::utf8::encode_utf8;
use vstd::std_specs::hash::DefaultHasherAdditionalSpecFns;
use std::collections::hash_map::DefaultHasher;
use std::hash::Hasher;
use crate::text::str_eq;

verus! {

/// How long an entry may be served, in milliseconds (30 minutes).
pub const TTL_MS: u64 = 1_800_000;

/// Most panels the cache holds at once.
pub const MAX_ENTRIES: usize = 16;

// ---------------------------------------------------------------------------
// Symbol-set fingerprint
// ---------------------------------------------------------------------------

/// The eight little-endian bytes of `n`.
pub open spec fn le_bytes(n: u64) -> Seq<u8> {
    Seq::new(8, |i: int| ((n >> ((8 * i) as u64)) & 0xff) as u8)
}

fn le_byte_vec(n: u64) -> (out: Vec<u8>)
    ensures
        out@ == le_bytes(n),
{
    let mut out: Vec<u8> = Vec::new();
    let mut i: u64 = 0;
    while i < 8
        invariant
            i <= 8,
            out@.len() == i,
            forall|j: int| 0 <= j < i ==> #[trigger] out@[j] == le_bytes(n)[j],
        decreases 8 - i,
    {
        let b = ((n >> (8 * i)) & 0xff) as u8;
        out.push(b);
        i = i + 1;
    }
    assert(out@ =~= le_bytes(n));
    out
}

/// The chunks a symbol list contributes after its length: each symbol's
/// UTF-8 bytes followed by a `0xff` terminator.
pub open spec fn string_chunks(symbols: Seq<String>) -> Seq<Seq<u8>>
    decreases symbols.len(),
{
    if symbols.len() == 0 {
        Seq::empty()
    } else {
        string_chunks(symbols.drop_last()) + seq![encode_utf8(symbols.last()@), seq![0xffu8]]
    }
}

/// Everything fed to the hasher for a symbol list: its length (as eight
/// little-endian bytes), then [`string_chunks`].
pub open spec fn symbol_chunks(symbols: Seq<String>) -> Seq<Seq<u8>> {
    seq![le_bytes(symbols.len() as u64)] + string_chunks(symbols)
}

/// Fingerprint of a symbol list (order and multiplicity matter): the
/// standard library's `DefaultHasher` over [`symbol_chunks`].
pub open spec fn spec_symbols_hash(symbols: Seq<String>) -> u64 {
    DefaultHasher::spec_finish(symbol_chunks(symbols))
}

proof fn lemma_string_chunks(symbols: Seq<String>)
    ensures
        string_chunks(symbols).len() == 2 * symbols.len(),
        forall|i: int| 0 <= i < symbols.len() ==> #[trigger] string_chunks(symbols)[2 * i] == encode_utf8(symbols[i]@)
            && string_chunks(symbols)[2 * i + 1] == seq![0xffu8],
    decreases symbols.len(),
{
    if symbols.len() > 0 {
        let init = symbols.drop_last();
        lemma_string_chunks(init);
        let c = string_chunks(symbols);
        assert forall|i: int| 0 <= i < symbols.len() implies #[trigger] c[2 * i] == encode_utf8(symbols[i]@)
            && c[2 * i + 1] == seq![0xffu8] by {
            if i < init.len() {
                assert(init[i] == symbols[i]);
                assert(c[2 * i] == string_chunks(init)[2 * i]);
                assert(c[2 * i + 1] == string_chunks(init)[2 * i + 1]);
            }
        }
    }
}

/// The fingerprint reads every symbol, in order: the hasher is fed the
/// list's length, then, for each symbol, its UTF-8 bytes and a `0xff`
/// terminator; so two lists fingerprinted from the same byte stream have
/// the same symbols in the same order (lists that differ in any symbol are
/// hashed from different streams).
pub proof fn law_fingerprint_reads_every_symbol(a: Seq<String>, b: Seq<String>)
    ensures
        symbol_chunks(a).len() == 2 * a.len() + 1,
        symbol_chunks(a)[0] == le_bytes(a.len() as u64),
        forall|i: int| 0 <= i < a.len() ==> #[trigger] symbol_chunks(a)[2 * i + 1] == encode_utf8(a[i]@)
            && symbol_chunks(a)[2 * i + 2] == seq![0xffu8],
        symbol_chunks(a) == symbol_chunks(b) ==> a.len() == b.len() && forall|i: int| 0 <= i < a.len() ==> (#[trigger] a[i])@ == b[i]@,
{
    lemma_string_chunks(a);
    lemma_string_chunks(b);
    let ca = symbol_chunks(a);
    assert forall|i: int| 0 <= i < a.len() implies #[trigger] ca[2 * i + 1] == encode_utf8(a[i]@)
        && ca[2 * i + 2] == seq![0xffu8] by {
        assert(ca[2 * i + 1] == string_chunks(a)[2 * i]);
        assert(ca[2 * i + 2] == string_chunks(a)[2 * i + 1]);
    }
    if symbol_chunks(a) == symbol_chunks(b) {
        assert(symbol_chunks(b).len() == 2 * b.len() + 1);
        assert forall|i: int| 0 <= i < a.len() implies (#[trigger] a[i])@ == b[i]@ by {
            assert(string_chunks(a)[2 * i] == ca[2 * i + 1]);
            assert(string_chunks(b)[2 * i] == symbol_chunks(b)[2 * i + 1]);
            vstd::utf8::encode_utf8_decode_utf8(a[i]@);
            vstd::utf8::encode_utf8_decode_utf8(b[i]@);
        }
    }
}

/// Fingerprint a symbol list with `DefaultHasher` (deterministic across
/// runs: it is not randomly seeded).
pub fn hash_symbols(symbols: &Vec<String>) -> (h: u64)
    ensures
        h == spec_symbols_hash(symbols@),
{
    let mut hasher = DefaultHasher::new();
    let len = le_byte_vec(symbols.len() as u64);
    hasher.write(len.as_slice());
    let terminator: Vec<u8> = vec![0xffu8];
    let mut i: usize = 0;
    while i < symbols.len()
        invariant
            i <= symbols@.len(),
            terminator@ == seq![0xffu8],
            hasher@ == seq![le_bytes(symbols@.len() as u64)] + string_chunks(symbols@.subrange(0, i as int)),
        decreases symbols@.len() - i,
    {
        let s = symbols[i].as_str();
        let bytes = s.as_bytes();
        hasher.write(bytes);
        hasher.write(terminator.as_slice());
        proof {
            let pre = symbols@.subrange(0, i + 1);
            assert(pre.drop_last() =~= symbols@.subrange(0, i as int));
            assert(pre.last() == symbols@[i as int]);
        }
        i = i + 1;
    }
    assert(symbols@.subrange(0, symbols@.len() as int) =~= symbols@);
    hasher.finish()
}

// ---------------------------------------------------------------------------
// Keys
// ---------------------------------------------------------------------------

/// Cache key: series name, inclusive date window, symbol-set fingerprint.
pub struct CacheKey {
    pub name: String,
    pub from: i32,
    pub to: i32,
    pub symbols: u64,
}

/// The value of a key.
pub type KeyView = (Seq<char>, i32, i32, u64);

impl CacheKey {
    pub open spec fn view(&self) -> KeyView {
        (self.name@, self.from, self.to, self.symbols)
    }
}

/// The key of a load request.
pub fn cache_key(name: &str, symbols: &Vec<String>, from: i32, to: i32) -> (k: CacheKey)
    ensures
        k.view() == (name@, from, to, spec_symbols_hash(symbols@)),
{
    CacheKey { name: String::from_str(name), from, to, symbols: hash_symbols(symbols) }
}

fn same_key(a: &CacheKey, b: &CacheKey) -> (r: bool)
    ensures
        r == (a.view() == b.view()),
{
    a.from == b.from && a.to == b.to && a.symbols == b.symbols && str_eq(a.name.as_str(), b.name.as_str())
}

// ---------------------------------------------------------------------------
// The cache as a sequence of stamped keys
// ---------------------------------------------------------------------------

/// An entry may still be served at `now` (time never runs backwards: a
/// clock reading before the stamp counts as no time elapsed).
pub open spec fn fresh(at: u64, now: u64) -> bool {
    (if now >= at { now - at } else { 0 }) < TTL_MS
}

/// Position of `key` among the stamped keys, if present.
pub open spec fn position_of(entries: Seq<(KeyView, u64)>, key: KeyView) -> Option<int> {
    if exists|i: int| 0 <= i < entries.len() && (#[trigger] entries[i]).0 == key {
        Some(choose|i: int| 0 <= i < entries.len() && (#[trigger] entries[i]).0 == key)
    } else {
        None
    }
}

/// Which entry a lookup of `key` at `now` serves: the entry of `key` while
/// it is fresh.
pub open spec fn spec_lookup(entries: Seq<(KeyView, u64)>, key: KeyView, now: u64) -> Option<int> {
    match position_of(entries, key) {
        Some(i) => if fresh(entries[i].1, now) { Some(i) } else { None },
        None => None,
    }
}

/// Keys are distinct.
pub open spec fn distinct_keys(entries: Seq<(KeyView, u64)>) -> bool {
    forall|i: int, j: int| 0 <= i < entries.len() && 0 <= j < entries.len() && i != j
        ==> (#[trigger] entries[i]).0 != (#[trigger] entries[j]).0
}

/// Index of the first entry with the smallest stamp (the oldest).
pub open spec fn oldest(entries: Seq<(KeyView, u64)>) -> int
    decreases entries.len(),
{
    if entries.len() <= 1 {
        0
    } else {
        let k = oldest(entries.drop_last());
        if entries.last().1 < entries[k].1 { entries.len() - 1 } else { k }
    }
}

/// The oldest entry exists and carries the smallest stamp.
pub proof fn lemma_oldest(entries: Seq<(KeyView, u64)>)
    requires
        entries.len() > 0,
    ensures
        0 <= oldest(entries) < entries.len(),
        forall|i: int| 0 <= i < entries.len() ==> entries[oldest(entries)].1 <= (#[trigger] entries[i]).1,
    decreases entries.len(),
{
    if entries.len() > 1 {
        let init = entries.drop_last();
        lemma_oldest(init);
        assert forall|i: int| 0 <= i < entries.len() implies entries[oldest(entries)].1 <= (#[trigger] entries[i]).1 by {
            if i < entries.len() - 1 {
                assert(init[i] == entries[i]);
            }
        }
    }
}

/// Entries that stay when `key` is stored: when the cache is full and `key`
/// is new, the oldest entry is evicted.
pub open spec fn after_eviction(entries: Seq<(KeyView, u64)>, key: KeyView) -> Seq<(KeyView, u64)> {
    if entries.len() >= MAX_ENTRIES && position_of(entries, key) is None {
        entries.remove(oldest(entries))
    } else {
        entries
    }
}

/// The stamped keys after storing `key` at `now`: an existing entry of `key`
/// is restamped in place; a new key is appended after any eviction.
pub open spec fn spec_store(entries: Seq<(KeyView, u64)>, key: KeyView, now: u64) -> Seq<(KeyView, u64)> {
    let kept = after_eviction(entries, key);
    match position_of(kept, key) {
        Some(i) => kept.update(i, (key, now)),
        None => kept.push((key, now)),
    }
}

/// One cached value with its key and the time it was stored.
pub struct CacheEntry<V> {
    pub key: CacheKey,
    pub at: u64,
    pub value: V,
}

/// Bounded, expiring cache of loaded values (panels, in the server).
pub struct PanelCache<V> {
    entries: Vec<CacheEntry<V>>,
}

impl<V> PanelCache<V> {
    /// The stamped keys, oldest insertion first.
    pub closed spec fn stamps(&self) -> Seq<(KeyView, u64)> {
        self.entries@.map_values(|e: CacheEntry<V>| (e.key.view(), e.at))
    }

    /// The cached values, aligned with [`Self::stamps`].
    pub closed spec fn values(&self) -> Seq<V> {
        self.entries@.map_values(|e: CacheEntry<V>| e.value)
    }

    /// At most [`MAX_ENTRIES`] entries, keys distinct, values aligned.
    pub open spec fn wf(&self) -> bool {
        &&& self.stamps().len() <= MAX_ENTRIES
        &&& distinct_keys(self.stamps())
        &&& self.values().len() == self.stamps().len()
    }

    /// An empty cache.
    pub fn new() -> (c: Self)
        ensures
            c.wf(),
            c.stamps() == Seq::<(KeyView, u64)>::empty(),
    {
        let c = PanelCache { entries: Vec::new() };
        assert(c.stamps() =~= Seq::<(KeyView, u64)>::empty());
        c
    }

    /// Number of cached entries.
    pub fn len(&self) -> (n: usize)
        ensures
            n == self.stamps().len(),
    {
        self.entries.len()
    }

    fn find(&self, key: &CacheKey) -> (r: Option<usize>)
        requires
            self.wf(),
        ensures
            r matches Some(i) ==> i < self.stamps().len() && self.stamps()[i as int].0 == key.view()
                && position_of(self.stamps(), key.view()) == Some(i as int),
            r is None ==> position_of(self.stamps(), key.view()) is None,
    {
        let mut i: usize = 0;
        while i < self.entries.len()
            invariant
                self.wf(),
                i <= self.entries@.len(),
                self.stamps().len() == self.entries@.len(),
                forall|j: int| 0 <= j < i ==> (#[trigger] self.stamps()[j]).0 != key.view(),
            decreases self.entries@.len() - i,
        {
            assert(self.stamps()[i as int] == (self.entries@[i as int].key.view(), self.entries@[i as int].at));
            if same_key(&self.entries[i].key, key) {
                proof {
                    let s = self.stamps();
                    assert(s[i as int].0 == key.view());
                    let p = choose|j: int| 0 <= j < s.len() && (#[trigger] s[j]).0 == key.view();
                    if p != i as int {
                        assert(s[p].0 != s[i as int].0);
                    }
                }
                return Some(i);
            }
            i = i + 1;
        }
        None
    }

    /// The cached value of `key` at time `now`, if stored and still fresh.
    pub fn lookup(&self, key: &CacheKey, now: u64) -> (r: Option<&V>)
        requires
            self.wf(),
        ensures
            r is Some <==> spec_lookup(self.stamps(), key.view(), now) is Some,
            r matches Some(v) ==> *v == self.values()[spec_lookup(self.stamps(), key.view(), now)->0],
    {
        match self.find(key) {
            Some(i) => {
                let e = &self.entries[i];
                assert(self.stamps()[i as int].1 == e.at);
                assert(self.values()[i as int] == e.value);
                let elapsed = if now >= e.at { now - e.at } else { 0 };
                if elapsed < TTL_MS {
                    Some(&e.value)
                } else {
                    None
                }
            },
            None => None,
        }
    }

    fn oldest_index(&self) -> (r: usize)
        requires
            self.wf(),
            self.stamps().len() > 0,
        ensures
            r as int == oldest(self.stamps()),
    {
        let ghost s = self.stamps();
        let mut best: usize = 0;
        let mut i: usize = 1;
        assert(s.subrange(0, 1).drop_last().len() == 0);
        while i < self.entries.len()
            invariant
                self.wf(),
                s == self.stamps(),
                1 <= i <= self.entries@.len(),
                s.len() == self.entries@.len(),
                best as int == oldest(s.subrange(0, i as int)),
                best < i,
            decreases self.entries@.len() - i,
        {
            proof {
                let pre = s.subrange(0, i + 1);
                assert(pre.drop_last() =~= s.subrange(0, i as int));
                assert(pre.last() == s[i as int]);
                assert(pre[best as int] == s[best as int]);
                assert(s[i as int].1 == self.entries@[i as int].at);
                assert(s[best as int].1 == self.entries@[best as int].at);
            }
            if self.entries[i].at < self.entries[best].at {
                best = i;
            }
            i = i + 1;
        }
        assert(s.subrange(0, s.len() as int) =~= s);
        best
    }

    /// Store `value` for `key` at time `now` (see [`spec_store`]): when the
    /// cache is full and `key` is new, the oldest entry is evicted first; an
    /// existing entry of `key` is replaced in place.
    pub fn store(&mut self, key: CacheKey, now: u64, value: V)
        requires
            old(self).wf(),
        ensures
            final(self).wf(),
            final(self).stamps() == spec_store(old(self).stamps(), key.view(), now),
            final(self).values()[position_of(final(self).stamps(), key.view())->0] == value,
            position_of(final(self).stamps(), key.view()) is Some,
            forall|i: int| 0 <= i < final(self).stamps().len() && final(self).stamps()[i].0 != key.view()
                ==> exists|j: int| 0 <= j < old(self).stamps().len() && old(self).stamps()[j]
                    == #[trigger] final(self).stamps()[i] && old(self).values()[j] == final(self).values()[i],
    {
        let ghost s0 = self.stamps();
        let ghost v0 = self.values();
        let ghost k = key.view();
        // Evict the oldest entry when full and the key is new.
        if self.entries.len() >= MAX_ENTRIES && self.find(&key).is_none() {
            let o = self.oldest_index();
            proof { lemma_oldest(s0); }
            self.entries.remove(o);
            proof {
                assert(self.stamps() =~= s0.remove(o as int));
                assert(self.values() =~= v0.remove(o as int));
            }
        }
        let ghost s1 = self.stamps();
        let ghost v1 = self.values();
        assert(s1 == after_eviction(s0, k));
        proof {
            assert forall|i: int, j: int| 0 <= i < s1.len() && 0 <= j < s1.len() && i != j
                implies (#[trigger] s1[i]).0 != (#[trigger] s1[j]).0 by {
                if s1.len() != s0.len() {
                    let o = oldest(s0);
                    let ii = if i < o { i } else { i + 1 };
                    let jj = if j < o { j } else { j + 1 };
                    assert(s1[i] == s0[ii]);
                    assert(s1[j] == s0[jj]);
                }
            }
            assert forall|i: int| 0 <= i < s1.len() implies exists|j: int| 0 <= j < s0.len()
                && s0[j] == #[trigger] s1[i] && v0[j] == v1[i] by {
                if s1.len() != s0.len() {
                    let o = oldest(s0);
                    let ii = if i < o { i } else { i + 1 };
                    assert(s0[ii] == s1[i] && v0[ii] == v1[i]);
                } else {
                    assert(s0[i] == s1[i] && v0[i] == v1[i]);
                }
            }
        }
        match self.find(&key) {
            Some(i) => {
                let entry = CacheEntry { key, at: now, value };
                let ghost e2 = self.entries@.update(i as int, entry);
                self.entries.set(i, entry);
                proof {
                    assert(self.stamps() =~= s1.update(i as int, (k, now)));
                    assert(self.values() =~= v1.update(i as int, value));
                    let s2 = self.stamps();
                    assert(position_of(s2, k) == Some(i as int)) by {
                        assert(s2[i as int].0 == k);
                        let p = choose|j: int| 0 <= j < s2.len() && (#[trigger] s2[j]).0 == k;
                        if p != i as int {
                            assert(s1[p].0 == k);
                            assert(s1[i as int].0 == k);
                        }
                    }
                }
            },
            None => {
                proof {
                    if s1.len() >= MAX_ENTRIES {
                        assert(s1.len() < s0.len());
                    }
                }
                self.entries.push(CacheEntry { key, at: now, value });
                proof {
                    assert(self.stamps() =~= s1.push((k, now)));
                    assert(self.values() =~= v1.push(value));
                    let s2 = self.stamps();
                    let last = s1.len() as int;
                    assert(s2[last].0 == k);
                    assert(position_of(s2, k) == Some(last)) by {
                        let p = choose|j: int| 0 <= j < s2.len() && (#[trigger] s2[j]).0 == k;
                        if p != last {
                            assert(s1[p].0 == k);
                        }
                    }
                }
            },
        }
    }
}


// ---------------------------------------------------------------------------
// Laws
// ---------------------------------------------------------------------------

proof fn lemma_position_unique(entries: Seq<(KeyView, u64)>, key: KeyView, i: int)
    requires
        distinct_keys(entries),
        0 <= i < entries.len(),
        entries[i].0 == key,
    ensures
        position_of(entries, key) == Some(i),
{
    let p = choose|j: int| 0 <= j < entries.len() && (#[trigger] entries[j]).0 == key;
    if p != i {
        assert(entries[p].0 != entries[i].0);
    }
}

proof fn lemma_store_shape(entries: Seq<(KeyView, u64)>, key: KeyView, now: u64)
    requires
        distinct_keys(entries),
        entries.len() <= MAX_ENTRIES,
    ensures
        distinct_keys(spec_store(entries, key, now)),
        spec_store(entries, key, now).len() <= MAX_ENTRIES,
        position_of(spec_store(entries, key, now), key) matches Some(i)
            && spec_store(entries, key, now)[i] == (key, now),
        forall|i: int| 0 <= i < spec_store(entries, key, now).len()
            && (#[trigger] spec_store(entries, key, now)[i]).0 != key
            ==> after_eviction(entries, key).contains(spec_store(entries, key, now)[i]),
{
    let kept = after_eviction(entries, key);
    if entries.len() >= MAX_ENTRIES && position_of(entries, key) is None {
        lemma_oldest(entries);
        let o = oldest(entries);
        assert forall|i: int, j: int| 0 <= i < kept.len() && 0 <= j < kept.len() && i != j
            implies (#[trigger] kept[i]).0 != (#[trigger] kept[j]).0 by {
            let ii = if i < o { i } else { i + 1 };
            let jj = if j < o { j } else { j + 1 };
            assert(kept[i] == entries[ii]);
            assert(kept[j] == entries[jj]);
        }
        assert forall|i: int| 0 <= i < kept.len() implies (#[trigger] kept[i]).0 != key by {
            let ii = if i < o { i } else { i + 1 };
            assert(kept[i] == entries[ii]);
        }
    }
    let out = spec_store(entries, key, now);
    match position_of(kept, key) {
        Some(i) => {
            assert(kept[i].0 == key);
            assert forall|a: int, b: int| 0 <= a < out.len() && 0 <= b < out.len() && a != b
                implies (#[trigger] out[a]).0 != (#[trigger] out[b]).0 by {
                if a == i {
                    assert(kept[b].0 != kept[i].0);
                } else if b == i {
                    assert(kept[a].0 != kept[i].0);
                }
            }
            lemma_position_unique(out, key, i);
            assert forall|a: int| 0 <= a < out.len() && (#[trigger] out[a]).0 != key
                implies kept.contains(out[a]) by {
                assert(out[a] == kept[a]);
            }
        },
        None => {
            let last = kept.len() as int;
            assert forall|a: int, b: int| 0 <= a < out.len() && 0 <= b < out.len() && a != b
                implies (#[trigger] out[a]).0 != (#[trigger] out[b]).0 by {
                if a == last {
                    assert(kept[b].0 != key);
                } else if b == last {
                    assert(kept[a].0 != key);
                }
            }
            lemma_position_unique(out, key, last);
            assert forall|a: int| 0 <= a < out.len() && (#[trigger] out[a]).0 != key
                implies kept.contains(out[a]) by {
                assert(out[a] == kept[a]);
            }
        },
    }
}

/// Storing keeps the cache bounded by [`MAX_ENTRIES`] with distinct keys.
pub proof fn law_store_keeps_bounds(entries: Seq<(KeyView, u64)>, key: KeyView, now: u64)
    requires
        distinct_keys(entries),
        entries.len() <= MAX_ENTRIES,
    ensures
        spec_store(entries, key, now).len() <= MAX_ENTRIES,
        distinct_keys(spec_store(entries, key, now)),
{
    lemma_store_shape(entries, key, now);
}

/// A value stored at `now` is served by every lookup of its key within the
/// time-to-live (a second request for the same key hits the cache).
pub proof fn law_store_then_hit(entries: Seq<(KeyView, u64)>, key: KeyView, now: u64, later: u64)
    requires
        distinct_keys(entries),
        entries.len() <= MAX_ENTRIES,
        fresh(now, later),
    ensures
        spec_lookup(spec_store(entries, key, now), key, later) == position_of(spec_store(entries, key, now), key),
        spec_lookup(spec_store(entries, key, now), key, later) is Some,
{
    lemma_store_shape(entries, key, now);
}

/// A value stored at `now` is never served once the time-to-live has
/// passed.
pub proof fn law_store_expires(entries: Seq<(KeyView, u64)>, key: KeyView, now: u64, later: u64)
    requires
        distinct_keys(entries),
        entries.len() <= MAX_ENTRIES,
        later >= now + TTL_MS,
    ensures
        spec_lookup(spec_store(entries, key, now), key, later) is None,
{
    lemma_store_shape(entries, key, now);
}

/// A key that was never stored is not served.
pub proof fn law_absent_key_misses(entries: Seq<(KeyView, u64)>, key: KeyView, now: u64)
    requires
        forall|i: int| 0 <= i < entries.len() ==> (#[trigger] entries[i]).0 != key,
    ensures
        spec_lookup(entries, key, now) is None,
{
}

/// Storing one key leaves every other entry's stamp alone, and removes at
/// most the oldest entry, only when the cache is full and the key is new.
pub proof fn law_store_spares_others(entries: Seq<(KeyView, u64)>, key: KeyView, other: KeyView, now: u64)
    requires
        distinct_keys(entries),
        entries.len() <= MAX_ENTRIES,
        other != key,
        position_of(entries, other) is Some,
        !(entries.len() >= MAX_ENTRIES && position_of(entries, key) is None
            && oldest(entries) == position_of(entries, other)->0),
    ensures
        position_of(spec_store(entries, key, now), other) matches Some(j)
            && spec_store(entries, key, now)[j] == entries[position_of(entries, other)->0],
{
    let i = position_of(entries, other)->0;
    let kept = after_eviction(entries, key);
    lemma_store_shape(entries, key, now);
    let out = spec_store(entries, key, now);
    let ki: int = if entries.len() >= MAX_ENTRIES && position_of(entries, key) is None {
        lemma_oldest(entries);
        if i < oldest(entries) { i } else { i - 1 }
    } else {
        i
    };
    assert(kept[ki] == entries[i]);
    assert(out[ki] == entries[i]);
    lemma_position_unique(out, other, ki);
}

/// When a full cache takes a new key, the entry it drops is one with the
/// smallest stamp.
pub proof fn law_evicts_oldest(entries: Seq<(KeyView, u64)>, key: KeyView)
    requires
        entries.len() >= MAX_ENTRIES,
        position_of(entries, key) is None,
    ensures
        after_eviction(entries, key) == entries.remove(oldest(entries)),
        forall|i: int| 0 <= i < entries.len() ==> entries[oldest(entries)].1 <= (#[trigger] entries[i]).1,
{
    lemma_oldest(entries);
}

} // verus!
