//! Sound files held in memory for a while after they were last asked for.
//!
//! The files on disk stay the source of truth: an entry that is gone is
//! simply read again.

use crate::seqs::{
    distinct_by,
    has_key,
    index_of_key,
    lemma_filter_distinct,
    lemma_filter_members,
    lemma_index_of_key,
    lemma_remove_distinct,
    lemma_retain_done,
    lemma_retain_start,
    lemma_retain_step,
};
use vstd::prelude::*;
use vstd::slice::slice_to_vec;

verus! {

/// A file in the cache.
pub struct EntryView {
    pub id: u128,
    pub bytes: Seq<u8>,
    pub last_access: u64,
}

/// The state of a cache.
pub struct CacheView {
    /// How long an entry stays after its last access.
    pub ttl: u64,
    pub entries: Seq<EntryView>,
}

/// The id of an entry.
pub open spec fn entry_id() -> spec_fn(EntryView) -> u128 {
    |e: EntryView| e.id
}

/// An entry whose last access is less than `ttl` before `now`.
pub open spec fn is_live(now: u64, ttl: u64) -> spec_fn(EntryView) -> bool {
    |e: EntryView| now - e.last_access < ttl
}

impl CacheView {
    /// No file has two entries.
    pub open spec fn wf(self) -> bool {
        distinct_by(self.entries, entry_id())
    }

    /// The cache holds the file `id`.
    pub open spec fn has(self, id: u128) -> bool {
        has_key(self.entries, entry_id(), id)
    }

    /// Where the entry of the file `id` stands.
    pub open spec fn index_of(self, id: u128) -> int {
        index_of_key(self.entries, entry_id(), id)
    }

    /// The bytes held for `id`, if any.
    pub open spec fn lookup(self, id: u128) -> Option<Seq<u8>> {
        if self.has(id) {
            Some(self.entries[self.index_of(id)].bytes)
        } else {
            None
        }
    }

    /// The cache after `id` was asked for at `now`: a hit counts as an
    /// access, a miss changes nothing.
    pub open spec fn touched(self, id: u128, now: u64) -> CacheView {
        if self.has(id) {
            let i = self.index_of(id);
            CacheView {
                entries: self.entries.update(
                    i,
                    EntryView { id, bytes: self.entries[i].bytes, last_access: now },
                ),
                ..self
            }
        } else {
            self
        }
    }

    /// The cache after `bytes` were stored for `id` at `now`.
    pub open spec fn stored(self, id: u128, bytes: Seq<u8>, now: u64) -> CacheView {
        let e = EntryView { id, bytes, last_access: now };
        if self.has(id) {
            CacheView { entries: self.entries.update(self.index_of(id), e), ..self }
        } else {
            CacheView { entries: self.entries.push(e), ..self }
        }
    }

    /// The cache after the entries that are no longer live at `now` left.
    pub open spec fn evicted(self, now: u64) -> CacheView {
        CacheView { entries: self.entries.filter(is_live(now, self.ttl)), ..self }
    }
}

/// Storing and touching keep the cache well-formed, and put the entry
/// where it is found again.
#[verifier::rlimit(50)]
pub proof fn lemma_stored(c: CacheView, id: u128, bytes: Seq<u8>, now: u64)
    requires
        c.wf(),
    ensures
        c.stored(id, bytes, now).wf(),
        c.stored(id, bytes, now).has(id),
        c.stored(id, bytes, now).entries[c.stored(id, bytes, now).index_of(id)] == (EntryView {
            id,
            bytes,
            last_access: now,
        }),
        c.stored(id, bytes, now).lookup(id) == Some(bytes),
        forall|other: u128|
            other != id ==> c.stored(id, bytes, now).lookup(other) == c.lookup(other),
{
    let w = c.stored(id, bytes, now);
    let key = entry_id();
    let at: int = if c.has(id) {
        c.index_of(id)
    } else {
        c.entries.len() as int
    };
    assert(w.entries[at].id == id);
    assert forall|i: int, j: int|
        0 <= i < w.entries.len() && 0 <= j < w.entries.len() && i != j implies key(
        #[trigger] w.entries[i],
    ) != key(#[trigger] w.entries[j]) by {
        if i != at {
            assert(w.entries[i] == c.entries[i]);
        }
        if j != at {
            assert(w.entries[j] == c.entries[j]);
        }
    }
    lemma_index_of_key(w.entries, key, at);
    assert forall|other: u128| other != id implies w.lookup(other) == c.lookup(other) by {
        if c.has(other) {
            let i = c.index_of(other);
            assert(w.entries[i] == c.entries[i]);
            lemma_index_of_key(w.entries, key, i);
        } else if w.has(other) {
            let i = w.index_of(other);
            assert(w.entries[i] == c.entries[i]);
            assert(false);
        }
    }
}

/// A hit leaves every file in the cache with the bytes it had.
pub proof fn lemma_touched(c: CacheView, id: u128, now: u64)
    requires
        c.wf(),
    ensures
        c.touched(id, now).wf(),
        c.has(id) ==> c.touched(id, now) == c.stored(id, c.lookup(id).unwrap(), now),
        forall|other: u128| c.touched(id, now).lookup(other) == c.lookup(other),
{
    if c.has(id) {
        let bytes = c.lookup(id).unwrap();
        lemma_stored(c, id, bytes, now);
    }
}

/// After eviction a file is in the cache exactly if it was there and its
/// entry was live, and then with the bytes it had.
#[verifier::rlimit(50)]
pub proof fn lemma_evicted(c: CacheView, now: u64, id: u128)
    requires
        c.wf(),
    ensures
        c.evicted(now).wf(),
        c.evicted(now).lookup(id) == if c.has(id) && now - c.entries[c.index_of(id)].last_access
            < c.ttl {
            c.lookup(id)
        } else {
            None
        },
{
    let p = is_live(now, c.ttl);
    let w = c.evicted(now);
    lemma_filter_distinct(c.entries, p, entry_id());
    lemma_filter_members(c.entries, p);
    if w.has(id) {
        let j = w.index_of(id);
        let e = w.entries[j];
        assert(p(e) && c.entries.contains(e));
        let i = choose|i: int| 0 <= i < c.entries.len() && c.entries[i] == e;
        lemma_index_of_key(c.entries, entry_id(), i);
    } else if c.has(id) {
        let i = c.index_of(id);
        let e = c.entries[i];
        if p(e) {
            assert(w.entries.contains(e));
            let j = choose|j: int| 0 <= j < w.entries.len() && w.entries[j] == e;
            assert(entry_id()(w.entries[j]) == id);
            assert(false);
        }
    }
}

/// A file that was stored at `t` and not asked for since is in the cache
/// after an eviction at `now` exactly if less than the time to live has
/// passed. So it is there after half that time and gone after twice that
/// time.
pub proof fn lemma_time_to_live(c: CacheView, id: u128, bytes: Seq<u8>, t: u64, now: u64)
    requires
        c.wf(),
    ensures
        c.stored(id, bytes, t).evicted(now).lookup(id) == if now - t < c.ttl {
            Some(bytes)
        } else {
            None
        },
        c.ttl > 0 && now == t + c.ttl / 2 ==> c.stored(id, bytes, t).evicted(now).lookup(id)
            == Some(bytes),
        now == t + 2 * c.ttl ==> c.stored(id, bytes, t).evicted(now).lookup(id).is_none(),
{
    lemma_stored(c, id, bytes, t);
    lemma_evicted(c.stored(id, bytes, t), now, id);
}

struct Entry {
    id: u128,
    bytes: Vec<u8>,
    last_access: u64,
}

impl View for Entry {
    type V = EntryView;

    closed spec fn view(&self) -> EntryView {
        EntryView { id: self.id, bytes: self.bytes@, last_access: self.last_access }
    }
}

spec fn entry_views(entries: Seq<Entry>) -> Seq<EntryView> {
    Seq::new(entries.len(), |i: int| entries[i]@)
}

/// The cache.
pub struct SoundCache {
    ttl: u64,
    entries: Vec<Entry>,
}

impl View for SoundCache {
    type V = CacheView;

    closed spec fn view(&self) -> CacheView {
        CacheView { ttl: self.ttl, entries: entry_views(self.entries@) }
    }
}

impl SoundCache {
    /// The state of the cache is well-formed.
    pub open spec fn wf(&self) -> bool {
        self@.wf()
    }

    /// An empty cache whose entries stay for `ttl` after their last access.
    pub fn new(ttl: u64) -> (r: SoundCache)
        ensures
            r.wf(),
            r@ == (CacheView { ttl, entries: Seq::empty() }),
    {
        let r = SoundCache { ttl, entries: Vec::new() };
        assert(r@.entries =~= Seq::<EntryView>::empty());
        r
    }

    /// The number of files held.
    pub fn len(&self) -> (r: usize)
        ensures
            r == self@.entries.len(),
    {
        self.entries.len()
    }

    fn find(&self, id: u128) -> (r: Option<usize>)
        requires
            self.wf(),
        ensures
            match r {
                Some(i) => i < self.entries@.len() && self@.has(id) && self@.index_of(id) == i,
                None => !self@.has(id),
            },
    {
        let mut i: usize = 0;
        while i < self.entries.len()
            invariant
                i <= self.entries@.len(),
                self@.entries == entry_views(self.entries@),
                distinct_by(self@.entries, entry_id()),
                forall|j: int| 0 <= j < i ==> entry_id()(#[trigger] self@.entries[j]) != id,
            decreases self.entries@.len() - i,
        {
            assert(self@.entries[i as int] == self.entries@[i as int]@);
            if self.entries[i].id == id {
                proof {
                    lemma_index_of_key(self@.entries, entry_id(), i as int);
                }
                return Some(i);
            }
            i = i + 1;
        }
        None
    }

    /// Asks for the file `id` at time `now`. A hit hands out a copy of the
    /// bytes and counts as an access; a miss changes nothing.
    pub fn get(&mut self, id: u128, now: u64) -> (r: Option<Vec<u8>>)
        requires
            old(self).wf(),
        ensures
            final(self).wf(),
            final(self)@ == old(self)@.touched(id, now),
            match r {
                Some(b) => old(self)@.lookup(id) == Some(b@),
                None => old(self)@.lookup(id).is_none(),
            },
    {
        proof {
            lemma_touched(self@, id, now);
        }
        match self.find(id) {
            Some(i) => {
                assert(self@.entries[i as int] == self.entries@[i as int]@);
                let mut e = self.entries.remove(i);
                e.last_access = now;
                let bytes = slice_to_vec(e.bytes.as_slice());
                self.entries.insert(i, e);
                assert(self@.entries =~= old(self)@.touched(id, now).entries);
                Some(bytes)
            },
            None => None,
        }
    }

    /// Stores `bytes` for the file `id` at time `now`, in place of what was
    /// held for it.
    pub fn insert(&mut self, id: u128, bytes: Vec<u8>, now: u64)
        requires
            old(self).wf(),
        ensures
            final(self).wf(),
            final(self)@ == old(self)@.stored(id, bytes@, now),
    {
        proof {
            lemma_stored(self@, id, bytes@, now);
        }
        let e = Entry { id, bytes, last_access: now };
        match self.find(id) {
            Some(i) => {
                let _ = self.entries.remove(i);
                self.entries.insert(i, e);
                assert(self@.entries =~= old(self)@.stored(id, bytes@, now).entries);
            },
            None => {
                self.entries.push(e);
                assert(self@.entries =~= old(self)@.stored(id, bytes@, now).entries);
            },
        }
    }

    /// Drops the file `id`, if held.
    pub fn remove(&mut self, id: u128)
        requires
            old(self).wf(),
        ensures
            final(self).wf(),
            final(self)@.ttl == old(self)@.ttl,
            final(self)@.entries == if old(self)@.has(id) {
                old(self)@.entries.remove(old(self)@.index_of(id))
            } else {
                old(self)@.entries
            },
            !final(self)@.has(id),
    {
        match self.find(id) {
            Some(i) => {
                proof {
                    lemma_remove_distinct(self@.entries, entry_id(), i as int);
                    assert(self@.entries[i as int] == self.entries@[i as int]@);
                }
                let _ = self.entries.remove(i);
                assert(self@.entries =~= old(self)@.entries.remove(i as int));
            },
            None => {},
        }
    }

    /// Drops every entry whose last access is the time to live or longer
    /// before `now`.
    pub fn evict(&mut self, now: u64)
        requires
            old(self).wf(),
        ensures
            final(self).wf(),
            final(self)@ == old(self)@.evicted(now),
    {
        let ghost orig = self@.entries;
        let ghost p = is_live(now, self.ttl);
        let ghost mut k: int = 0;
        let mut i: usize = 0;
        proof {
            lemma_retain_start(orig, p);
            lemma_filter_distinct(orig, p, entry_id());
        }
        while i < self.entries.len()
            invariant
                0 <= k <= orig.len(),
                self.ttl == old(self).ttl,
                p == is_live(now, self.ttl),
                i == orig.subrange(0, k).filter(p).len(),
                self@.entries == orig.subrange(0, k).filter(p) + orig.subrange(
                    k,
                    orig.len() as int,
                ),
            decreases orig.len() - k,
        {
            proof {
                lemma_retain_step(orig, self@.entries, k, p);
                assert(self@.entries[i as int] == self.entries@[i as int]@);
            }
            let last = self.entries[i].last_access;
            if now < last || now - last < self.ttl {
                i = i + 1;
            } else {
                let ghost before = self@.entries;
                let _ = self.entries.remove(i);
                assert(self@.entries =~= before.remove(i as int));
            }
            proof {
                k = k + 1;
            }
        }
        proof {
            lemma_retain_done(orig, self@.entries, p);
        }
    }
}

} // verus!
