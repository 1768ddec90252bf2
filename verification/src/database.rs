//! The TTL cache store: a mapping from byte-string keys to entries that
//! carry an optional value, a time-to-live and an insertion time.
//!
//! Reading and sweeping share one expiry predicate, `valid_at`, so lazy
//! and eager eviction can never disagree. All times are seconds handed
//! in by the caller; the store itself never reads a clock.

use vstd::prelude::*;

verus! {

/// The time-to-live given to an entry that is created implicitly by a
/// value arriving for a key that was never set up.
pub const DEFAULT_TTL_SECS: u64 = 60;

/// One cache entry: the value is absent until the second step of a SET
/// completes.
pub struct Data {
    pub inner: Option<Vec<u8>>,
    pub ttl_secs: u64,
    pub time_added: u64,
}

/// The mathematical shape of an entry.
#[verifier::ext_equal]
pub struct DataView {
    pub inner: Option<Seq<u8>>,
    pub ttl_secs: u64,
    pub time_added: u64,
}

impl View for Data {
    type V = DataView;

    open spec fn view(&self) -> DataView {
        DataView {
            inner: match self.inner {
                Some(ref v) => Some(v@),
                None => None,
            },
            ttl_secs: self.ttl_secs,
            time_added: self.time_added,
        }
    }
}

/// The shared expiry predicate: an entry is still alive at `now` while
/// the time elapsed since its insertion is below its time-to-live.
/// A clock that reads earlier than the insertion time counts as no
/// elapsed time at all.
pub open spec fn valid_at(d: DataView, now: u64) -> bool {
    if now >= d.time_added {
        now - d.time_added < d.ttl_secs
    } else {
        0 < d.ttl_secs
    }
}

impl Data {
    /// A fresh entry holding nothing, inserted now, with no life span.
    pub fn new(now: u64) -> (r: Data)
        ensures
            r@ == (DataView { inner: None, ttl_secs: 0, time_added: now }),
    {
        Data { inner: None, ttl_secs: 0, time_added: now }
    }

    /// The stored value, if one has arrived.
    pub fn inner(&self) -> (r: Option<Vec<u8>>)
        ensures
            match r {
                Some(v) => self@.inner == Some(v@),
                None => self@.inner is None,
            },
    {
        match &self.inner {
            Some(v) => Some(crate::text::copy_bytes(v.as_slice())),
            None => None,
        }
    }

    /// Whether the entry is still alive at `now`.
    pub fn validate_cache(&self, now: u64) -> (r: bool)
        ensures
            r == valid_at(self@, now),
    {
        let elapsed = if now >= self.time_added {
            now - self.time_added
        } else {
            0
        };
        elapsed < self.ttl_secs
    }

    /// A copy of the entry with the same view.
    pub fn duplicate(&self) -> (r: Data)
        ensures
            r@ == self@,
    {
        Data {
            inner: match &self.inner {
                Some(v) => Some(crate::text::copy_bytes(v.as_slice())),
                None => None,
            },
            ttl_secs: self.ttl_secs,
            time_added: self.time_added,
        }
    }
}

/// The map held by a sequence of key/entry pairs; later pairs would
/// overwrite earlier ones, though the store keeps its keys unique.
pub open spec fn map_of(s: Seq<(Vec<u8>, Data)>) -> Map<Seq<u8>, DataView>
    decreases s.len(),
{
    if s.len() == 0 {
        Map::empty()
    } else {
        map_of(s.drop_last()).insert(s.last().0@, s.last().1@)
    }
}

/// Pairwise-distinct keys.
pub open spec fn keys_unique(s: Seq<(Vec<u8>, Data)>) -> bool {
    forall|i: int, j: int| 0 <= i < j < s.len() ==> s[i].0@ != s[j].0@
}

pub proof fn lemma_map_of_contains_all(s: Seq<(Vec<u8>, Data)>)
    ensures
        forall|i: int| 0 <= i < s.len() ==> map_of(s).contains_key(#[trigger] s[i].0@),
    decreases s.len(),
{
    if s.len() > 0 {
        lemma_map_of_contains_all(s.drop_last());
        assert(forall|i: int| 0 <= i < s.len() - 1 ==> s.drop_last()[i] == s[i]);
    }
}

pub proof fn lemma_map_of_absent(s: Seq<(Vec<u8>, Data)>, k: Seq<u8>)
    requires
        forall|i: int| 0 <= i < s.len() ==> s[i].0@ != k,
    ensures
        !map_of(s).contains_key(k),
    decreases s.len(),
{
    if s.len() > 0 {
        assert(forall|i: int| 0 <= i < s.len() - 1 ==> s.drop_last()[i] == s[i]);
        lemma_map_of_absent(s.drop_last(), k);
    }
}

pub proof fn lemma_map_of_index(s: Seq<(Vec<u8>, Data)>, i: int)
    requires
        keys_unique(s),
        0 <= i < s.len(),
    ensures
        map_of(s).contains_key(s[i].0@),
        map_of(s)[s[i].0@] == s[i].1@,
    decreases s.len(),
{
    if i == s.len() - 1 {
    } else {
        assert(forall|j: int| 0 <= j < s.len() - 1 ==> s.drop_last()[j] == s[j]);
        lemma_map_of_index(s.drop_last(), i);
        assert(s[s.len() - 1].0@ != s[i].0@);
    }
}

pub proof fn lemma_map_of_update(s: Seq<(Vec<u8>, Data)>, i: int, p: (Vec<u8>, Data))
    requires
        keys_unique(s),
        0 <= i < s.len(),
        p.0@ == s[i].0@,
    ensures
        map_of(s.update(i, p)) == map_of(s).insert(p.0@, p.1@),
    decreases s.len(),
{
    let t = s.update(i, p);
    if i == s.len() - 1 {
        assert(t.drop_last() =~= s.drop_last());
        assert(map_of(t) =~= map_of(s).insert(p.0@, p.1@));
    } else {
        assert(t.drop_last() =~= s.drop_last().update(i, p));
        assert(forall|j: int| 0 <= j < s.len() - 1 ==> s.drop_last()[j] == s[j]);
        lemma_map_of_update(s.drop_last(), i, p);
        assert(s.last().0@ != s[i].0@);
        assert(t.last() == s.last());
        assert(map_of(t) =~= map_of(s).insert(p.0@, p.1@));
    }
}

pub proof fn lemma_map_of_remove(s: Seq<(Vec<u8>, Data)>, i: int)
    requires
        keys_unique(s),
        0 <= i < s.len(),
    ensures
        map_of(s.remove(i)) == map_of(s).remove(s[i].0@),
    decreases s.len(),
{
    let t = s.remove(i);
    if i == s.len() - 1 {
        assert(t =~= s.drop_last());
        lemma_map_of_absent(s.drop_last(), s[i].0@);
        assert(map_of(t) =~= map_of(s).remove(s[i].0@));
    } else {
        assert(t.drop_last() =~= s.drop_last().remove(i));
        assert(forall|j: int| 0 <= j < s.len() - 1 ==> s.drop_last()[j] == s[j]);
        lemma_map_of_remove(s.drop_last(), i);
        assert(s.last().0@ != s[i].0@);
        assert(t.last() == s.last());
        assert(map_of(t) =~= map_of(s).remove(s[i].0@));
    }
}

/// What a value arriving for `k` does to the store: set it where the
/// slot is still empty, create the entry where none exists, and discard
/// it silently where a value is already held — the first write wins.
pub open spec fn spec_insert_value(
    m: Map<Seq<u8>, DataView>,
    k: Seq<u8>,
    v: Seq<u8>,
    now: u64,
) -> Map<Seq<u8>, DataView> {
    if m.contains_key(k) {
        if m[k].inner is None {
            m.insert(
                k,
                DataView { inner: Some(v), ttl_secs: m[k].ttl_secs, time_added: m[k].time_added },
            )
        } else {
            m
        }
    } else {
        m.insert(
            k,
            DataView { inner: Some(v), ttl_secs: DEFAULT_TTL_SECS, time_added: now },
        )
    }
}

/// What a read of `k` at `now` returns and leaves behind: a live entry
/// is returned untouched, an expired one is evicted, a missing one is
/// simply absent.
pub open spec fn spec_get(m: Map<Seq<u8>, DataView>, k: Seq<u8>, now: u64) -> (
    Map<Seq<u8>, DataView>,
    Option<DataView>,
) {
    if !m.contains_key(k) {
        (m, None)
    } else if valid_at(m[k], now) {
        (m, Some(m[k]))
    } else {
        (m.remove(k), None)
    }
}

/// The store after a sweep at `now`: exactly the entries that were
/// still alive.
pub open spec fn spec_sweep(m: Map<Seq<u8>, DataView>, now: u64) -> Map<Seq<u8>, DataView> {
    Map::new(|k: Seq<u8>| m.contains_key(k) && valid_at(m[k], now), |k: Seq<u8>| m[k])
}

/// The TTL cache store. Keys are unique; the view is the map the store
/// holds.
pub struct Database {
    entries: Vec<(Vec<u8>, Data)>,
}

impl View for Database {
    type V = Map<Seq<u8>, DataView>;

    closed spec fn view(&self) -> Map<Seq<u8>, DataView> {
        map_of(self.entries@)
    }
}

impl Database {
    /// The store's internal shape: no key occurs twice.
    pub closed spec fn wf(&self) -> bool {
        keys_unique(self.entries@)
    }

    /// An empty store.
    pub fn new() -> (r: Database)
        ensures
            r.wf(),
            r@ == Map::<Seq<u8>, DataView>::empty(),
    {
        Database { entries: Vec::new() }
    }

    /// The index holding `key`, if any.
    fn find_index(&self, key: &[u8]) -> (r: Option<usize>)
        ensures
            match r {
                Some(i) => i < self.entries@.len() && self.entries@[i as int].0@ == key@,
                None => forall|i: int| 0 <= i < self.entries@.len()
                    ==> self.entries@[i].0@ != key@,
            },
    {
        let mut i: usize = 0;
        while i < self.entries.len()
            invariant
                0 <= i <= self.entries@.len(),
                forall|j: int| 0 <= j < i ==> self.entries@[j].0@ != key@,
            decreases self.entries@.len() - i,
        {
            if crate::text::bytes_eq(self.entries[i].0.as_slice(), key) {
                return Some(i);
            }
            i = i + 1;
        }
        None
    }

    /// The first step of a SET: create or overwrite the entry for `key`
    /// with no value, restarting its expiry window.
    pub fn insert_key(&mut self, key: Vec<u8>, ttl_secs: u64, now: u64)
        requires
            old(self).wf(),
        ensures
            final(self).wf(),
            final(self)@ == old(self)@.insert(
                key@,
                DataView { inner: None, ttl_secs, time_added: now },
            ),
    {
        let data = Data { inner: None, ttl_secs, time_added: now };
        match self.find_index(key.as_slice()) {
            Some(i) => {
                proof {
                    lemma_map_of_update(self.entries@, i as int, (key, data));
                }
                self.entries.set(i, (key, data));
            }
            None => {
                proof {
                    let s = self.entries@.push((key, data));
                    assert(s.drop_last() =~= self.entries@);
                }
                self.entries.push((key, data));
            }
        }
    }

    /// The second step of a SET: hand the value to `key`. A key that
    /// already holds a value keeps it; a key never set up is created
    /// with the default time-to-live.
    pub fn insert_key_value(&mut self, key: Vec<u8>, value: Vec<u8>, now: u64)
        requires
            old(self).wf(),
        ensures
            final(self).wf(),
            final(self)@ == spec_insert_value(old(self)@, key@, value@, now),
    {
        match self.find_index(key.as_slice()) {
            Some(i) => {
                proof {
                    lemma_map_of_index(self.entries@, i as int);
                }
                if self.entries[i].1.inner.is_none() {
                    let ttl_secs = self.entries[i].1.ttl_secs;
                    let time_added = self.entries[i].1.time_added;
                    let data = Data { inner: Some(value), ttl_secs, time_added };
                    proof {
                        lemma_map_of_update(self.entries@, i as int, (key, data));
                    }
                    self.entries.set(i, (key, data));
                }
            }
            None => {
                proof {
                    lemma_map_of_absent(self.entries@, key@);
                    let data = Data {
                        inner: Some(value),
                        ttl_secs: DEFAULT_TTL_SECS,
                        time_added: now,
                    };
                    let s = self.entries@.push((key, data));
                    assert(s.drop_last() =~= self.entries@);
                }
                let data = Data { inner: Some(value), ttl_secs: DEFAULT_TTL_SECS, time_added: now };
                self.entries.push((key, data));
            }
        }
    }

    /// A read with lazy eviction: a live entry is returned, an expired
    /// one is removed and reported absent.
    pub fn get_or_remove(&mut self, key: &[u8], now: u64) -> (r: Option<Data>)
        requires
            old(self).wf(),
        ensures
            final(self).wf(),
            ({
                let (m, res) = spec_get(old(self)@, key@, now);
                final(self)@ == m && match r {
                    Some(d) => res == Some(d@),
                    None => res is None,
                }
            }),
    {
        match self.find_index(key) {
            None => {
                proof {
                    lemma_map_of_absent(self.entries@, key@);
                }
                None
            }
            Some(i) => {
                proof {
                    lemma_map_of_index(self.entries@, i as int);
                }
                if self.entries[i].1.validate_cache(now) {
                    Some(self.entries[i].1.duplicate())
                } else {
                    proof {
                        lemma_map_of_remove(self.entries@, i as int);
                    }
                    let _ = self.entries.remove(i);
                    None
                }
            }
        }
    }

    /// The periodic sweep: evict every entry that the shared expiry
    /// predicate reports dead at `now`.
    pub fn sweep(&mut self, now: u64)
        requires
            old(self).wf(),
        ensures
            final(self).wf(),
            final(self)@ == spec_sweep(old(self)@, now),
    {
        let ghost s = self.entries@;
        let mut kept: Vec<(Vec<u8>, Data)> = Vec::new();
        let mut i: usize = 0;
        proof {
            assert(s.take(0) =~= Seq::<(Vec<u8>, Data)>::empty());
            assert(map_of(kept@) =~= spec_sweep(map_of(s.take(0)), now));
        }
        while i < self.entries.len()
            invariant
                0 <= i <= s.len(),
                s == self.entries@,
                keys_unique(s),
                keys_unique(kept@),
                map_of(kept@) == spec_sweep(map_of(s.take(i as int)), now),
                forall|j: int| 0 <= j < kept@.len()
                    ==> map_of(s.take(i as int)).contains_key(#[trigger] kept@[j].0@),
            decreases s.len() - i,
        {
            let alive = self.entries[i].1.validate_cache(now);
            proof {
                assert(s.take(i + 1).drop_last() =~= s.take(i as int));
                lemma_map_of_contains_all(kept@);
                lemma_map_of_absent(s.take(i as int), s[i as int].0@);
                if alive {
                    assert(spec_sweep(map_of(s.take(i + 1)), now) =~= map_of(kept@).insert(
                        s[i as int].0@,
                        s[i as int].1@,
                    ));
                } else {
                    assert(spec_sweep(map_of(s.take(i + 1)), now) =~= map_of(kept@));
                }
            }
            if alive {
                let k = crate::text::copy_bytes(self.entries[i].0.as_slice());
                let d = self.entries[i].1.duplicate();
                let ghost prev = kept@;
                kept.push((k, d));
                proof {
                    assert(kept@.drop_last() =~= prev);
                    assert(forall|j: int| 0 <= j < prev.len() ==> kept@[j] == prev[j]);
                    lemma_map_of_contains_all(kept@);
                }
            }
            i = i + 1;
        }
        proof {
            assert(s.take(s.len() as int) =~= s);
        }
        self.entries = kept;
    }
}

/// A batch of value writes, applied in order: each element carries the
/// key, the value, and the time it arrives.
pub open spec fn apply_value_writes(
    m: Map<Seq<u8>, DataView>,
    ops: Seq<(Seq<u8>, Seq<u8>, u64)>,
) -> Map<Seq<u8>, DataView>
    decreases ops.len(),
{
    if ops.len() == 0 {
        m
    } else {
        spec_insert_value(
            apply_value_writes(m, ops.drop_last()),
            ops.last().0,
            ops.last().1,
            ops.last().2,
        )
    }
}

/// The first write wins: once a key holds a value, no sequence of
/// later value writes — to this key or any other — changes its entry.
pub proof fn lemma_first_write_wins(
    m: Map<Seq<u8>, DataView>,
    k: Seq<u8>,
    ops: Seq<(Seq<u8>, Seq<u8>, u64)>,
)
    requires
        m.contains_key(k),
        m[k].inner is Some,
    ensures
        apply_value_writes(m, ops).contains_key(k),
        apply_value_writes(m, ops)[k] == m[k],
    decreases ops.len(),
{
    if ops.len() > 0 {
        lemma_first_write_wins(m, k, ops.drop_last());
    }
}

/// The TTL window: inserting a key at `t0` with time-to-live `ttl` and
/// then storing a value gives an entry that every read strictly inside
/// the window returns unchanged, and that any read at or past the
/// window's end evicts and reports absent.
pub proof fn lemma_ttl_window(
    m: Map<Seq<u8>, DataView>,
    k: Seq<u8>,
    v: Seq<u8>,
    ttl: u64,
    t0: u64,
    q: u64,
)
    requires
        t0 <= q,
    ensures
        ({
            let m1 = spec_insert_value(
                m.insert(k, DataView { inner: None, ttl_secs: ttl, time_added: t0 }),
                k,
                v,
                t0,
            );
            &&& m1 == m.insert(k, DataView { inner: Some(v), ttl_secs: ttl, time_added: t0 })
            &&& (q - t0 < ttl ==> spec_get(m1, k, q) == (
                m1,
                Some(DataView { inner: Some(v), ttl_secs: ttl, time_added: t0 }),
            ))
            &&& (q - t0 >= ttl ==> spec_get(m1, k, q) == (m1.remove(k), None::<DataView>))
        }),
{
    let m0 = m.insert(k, DataView { inner: None, ttl_secs: ttl, time_added: t0 });
    let m1 = spec_insert_value(m0, k, v, t0);
    assert(m1 =~= m.insert(k, DataView { inner: Some(v), ttl_secs: ttl, time_added: t0 }));
}

} // verus!
