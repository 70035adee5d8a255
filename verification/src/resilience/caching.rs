//! A cache of transactions that forgets an entry once it is older than the
//! cache's lifetime.
//!
//! Times are counted in nanoseconds since the Unix epoch.

use crate::clock::unix_nanos;
use vstd::prelude::*;

verus! {

/// The time that has passed at `now` since `since`; none if `since` lies
/// after `now`.
pub open spec fn elapsed(since: u128, now: u128) -> u128 {
    if now >= since {
        (now - since) as u128
    } else {
        0
    }
}

/// The time that has passed at `now` since `since`; none if `since` lies
/// after `now`.
pub fn elapsed_since(since: u128, now: u128) -> (span: u128)
    ensures
        span == elapsed(since, now),
{
    if now >= since {
        now - since
    } else {
        0
    }
}

/// An entry of the cache as a mathematical value.
pub struct CachedView {
    pub id: Seq<char>,
    pub payload: Seq<char>,
    pub added_at: u128,
}

/// The first position at which `entries` holds the id `id`; the length of
/// `entries` if it holds the id nowhere.
pub open spec fn position_of(entries: Seq<CachedView>, id: Seq<char>) -> int
    decreases entries.len(),
{
    if entries.len() == 0 {
        0
    } else if entries[0].id == id {
        0
    } else {
        1 + position_of(entries.drop_first(), id)
    }
}

/// What `position_of` finds.
pub proof fn lemma_position_of(entries: Seq<CachedView>, id: Seq<char>)
    ensures
        0 <= position_of(entries, id) <= entries.len(),
        position_of(entries, id) < entries.len() ==> entries[position_of(entries, id)].id == id,
        forall|i: int| 0 <= i < position_of(entries, id) ==> (#[trigger] entries[i]).id != id,
    decreases entries.len(),
{
    if entries.len() > 0 && entries[0].id != id {
        let rest = entries.drop_first();
        lemma_position_of(rest, id);
        assert forall|i: int| 0 <= i < position_of(entries, id) implies (#[trigger] entries[i]).id
            != id by {
            if i > 0 {
                assert(rest[i - 1] == entries[i]);
            }
        }
    }
}

/// The entries after `entry` was put in: in the place of the first entry of
/// the same id, or at the end if there is none.
pub open spec fn put(entries: Seq<CachedView>, entry: CachedView) -> Seq<CachedView> {
    if position_of(entries, entry.id) < entries.len() {
        entries.update(position_of(entries, entry.id), entry)
    } else {
        entries.push(entry)
    }
}

/// Whether an entry is younger at `now` than `lifetime`.
pub open spec fn fresh(entry: CachedView, now: u128, lifetime: u128) -> bool {
    elapsed(entry.added_at, now) < lifetime
}

/// The entries that are fresh at `now`, in their order.
pub open spec fn keep_fresh(entries: Seq<CachedView>, now: u128, lifetime: u128) -> Seq<CachedView>
    decreases entries.len(),
{
    if entries.len() == 0 {
        Seq::empty()
    } else if fresh(entries.last(), now, lifetime) {
        keep_fresh(entries.drop_last(), now, lifetime).push(entries.last())
    } else {
        keep_fresh(entries.drop_last(), now, lifetime)
    }
}

/// No id occurs in two entries.
pub open spec fn distinct_ids(entries: Seq<CachedView>) -> bool {
    forall|i: int, j: int|
        0 <= i < entries.len() && 0 <= j < entries.len() && i != j ==> (#[trigger] entries[i]).id
            != (#[trigger] entries[j]).id
}

/// Putting an entry in keeps the ids distinct.
pub proof fn lemma_put_distinct(entries: Seq<CachedView>, entry: CachedView)
    requires
        distinct_ids(entries),
    ensures
        distinct_ids(put(entries, entry)),
{
    lemma_position_of(entries, entry.id);
    let at = position_of(entries, entry.id);
    let after = put(entries, entry);
    assert forall|i: int, j: int|
        0 <= i < after.len() && 0 <= j < after.len() && i != j implies (#[trigger] after[i]).id != (
    #[trigger] after[j]).id by {
        if at < entries.len() {
            assert(entries[at].id == entry.id);
            if i != at && j != at {
                assert(after[i] == entries[i] && after[j] == entries[j]);
            } else if i == at {
                assert(after[j] == entries[j]);
            } else {
                assert(after[i] == entries[i]);
            }
        } else {
            if i < entries.len() {
                assert(after[i] == entries[i]);
            }
            if j < entries.len() {
                assert(after[j] == entries[j]);
            }
        }
    }
}

/// What is kept is fresh and was there before, in the same order; so the
/// ids stay distinct.
pub proof fn lemma_keep_fresh(entries: Seq<CachedView>, now: u128, lifetime: u128)
    ensures
        keep_fresh(entries, now, lifetime).len() <= entries.len(),
        forall|i: int|
            0 <= i < keep_fresh(entries, now, lifetime).len() ==> fresh(
                #[trigger] keep_fresh(entries, now, lifetime)[i],
                now,
                lifetime,
            ) && entries.contains(keep_fresh(entries, now, lifetime)[i]),
        forall|i: int|
            0 <= i < entries.len() && fresh(#[trigger] entries[i], now, lifetime) ==> keep_fresh(
                entries,
                now,
                lifetime,
            ).contains(entries[i]),
        distinct_ids(entries) ==> distinct_ids(keep_fresh(entries, now, lifetime)),
    decreases entries.len(),
{
    let kept = keep_fresh(entries, now, lifetime);
    if entries.len() > 0 {
        let front = entries.drop_last();
        let rest = keep_fresh(front, now, lifetime);
        lemma_keep_fresh(front, now, lifetime);
        assert forall|i: int| 0 <= i < kept.len() implies fresh(#[trigger] kept[i], now, lifetime)
            && entries.contains(kept[i]) by {
            if i < rest.len() {
                assert(kept[i] == rest[i]);
                let j = choose|j: int| 0 <= j < front.len() && front[j] == rest[i];
                assert(entries[j] == rest[i]);
            } else {
                assert(entries[entries.len() - 1] == kept[i]);
            }
        }
        assert forall|i: int|
            0 <= i < entries.len() && fresh(#[trigger] entries[i], now, lifetime) implies
            kept.contains(entries[i]) by {
            if i < front.len() {
                assert(front[i] == entries[i]);
                let j = choose|j: int| 0 <= j < rest.len() && rest[j] == front[i];
                assert(kept[j] == entries[i]);
            } else {
                assert(kept[kept.len() - 1] == entries[i]);
            }
        }
        if distinct_ids(entries) {
            assert(distinct_ids(front)) by {
                assert forall|i: int, j: int|
                    0 <= i < front.len() && 0 <= j < front.len() && i != j implies (
                #[trigger] front[i]).id != (#[trigger] front[j]).id by {
                    assert(front[i] == entries[i] && front[j] == entries[j]);
                }
            }
            assert forall|i: int, j: int|
                0 <= i < kept.len() && 0 <= j < kept.len() && i != j implies (#[trigger] kept[i]).id
                != (#[trigger] kept[j]).id by {
                if i < rest.len() && j < rest.len() {
                    assert(kept[i] == rest[i] && kept[j] == rest[j]);
                } else {
                    let low = if i < rest.len() {
                        i
                    } else {
                        j
                    };
                    assert(kept[low] == rest[low]);
                    let k = choose|k: int| 0 <= k < front.len() && front[k] == rest[low];
                    assert(entries[k] == rest[low]);
                    assert(entries[entries.len() - 1] == entries.last());
                }
            }
        }
    }
}

/// An entry of the cache.
pub struct CachedTransaction {
    pub id: String,
    pub payload: String,
    /// When the entry was put in.
    pub added_at: u128,
}

impl View for CachedTransaction {
    type V = CachedView;

    open spec fn view(&self) -> CachedView {
        CachedView { id: self.id@, payload: self.payload@, added_at: self.added_at }
    }
}

/// A cache of transactions, each kept for a lifetime.
pub struct TransactionCache {
    /// The entries, one for an id, in the order in which the ids came in.
    pub cache: Vec<CachedTransaction>,
    /// How long an entry stays.
    pub cache_lifetime: u128,
}

impl TransactionCache {
    /// The entries as mathematical values.
    pub open spec fn entries(&self) -> Seq<CachedView> {
        self.cache@.map_values(|entry: CachedTransaction| entry@)
    }

    /// No id occurs in two entries.
    pub open spec fn wf(&self) -> bool {
        distinct_ids(self.entries())
    }

    /// An empty cache whose entries stay for `cache_lifetime`.
    pub fn new(cache_lifetime: u128) -> (cache: Self)
        ensures
            cache.entries() == Seq::<CachedView>::empty(),
            cache.cache_lifetime == cache_lifetime,
            cache.wf(),
    {
        let cache = Self { cache: Vec::new(), cache_lifetime };
        assert(cache.entries() =~= Seq::<CachedView>::empty());
        cache
    }

    /// Puts a transaction in at the time `now`, in the place of the entry of
    /// the same id if there is one.
    pub fn add_transaction_at(&mut self, tx_id: String, payload: String, now: u128)
        ensures
            final(self).entries() == put(
                old(self).entries(),
                CachedView { id: tx_id@, payload: payload@, added_at: now },
            ),
            final(self).cache_lifetime == old(self).cache_lifetime,
            old(self).wf() ==> final(self).wf(),
    {
        let ghost before = self.entries();
        let ghost entry = CachedView { id: tx_id@, payload: payload@, added_at: now };
        let mut i: usize = 0;
        while i < self.cache.len()
            invariant
                i <= self.cache@.len(),
                self.entries() == before,
                before == old(self).entries(),
                entry == (CachedView { id: tx_id@, payload: payload@, added_at: now }),
                self.cache_lifetime == old(self).cache_lifetime,
                forall|j: int| 0 <= j < i ==> (#[trigger] before[j]).id != tx_id@,
            decreases self.cache@.len() - i,
        {
            if self.cache[i].id == tx_id {
                proof {
                    assert(before[i as int].id == tx_id@);
                    lemma_position_of(before, tx_id@);
                    let found = position_of(before, tx_id@);
                    if found < i {
                        assert(before[found].id != tx_id@);
                    }
                    assert(found == i);
                    if distinct_ids(before) {
                        lemma_put_distinct(before, entry);
                    }
                }
                let ghost held = self.cache@;
                self.cache[i] = CachedTransaction { id: tx_id, payload, added_at: now };
                assert(self.cache@ =~= held.update(i as int, self.cache@[i as int]));
                assert(self.entries() =~= before.update(i as int, entry));
                return ;
            }
            assert(before[i as int].id != tx_id@);
            i += 1;
        }
        proof {
            lemma_position_of(before, tx_id@);
            let found = position_of(before, tx_id@);
            if found < before.len() {
                assert(before[found].id != tx_id@);
            }
            if distinct_ids(before) {
                lemma_put_distinct(before, entry);
            }
        }
        self.cache.push(CachedTransaction { id: tx_id, payload, added_at: now });
        assert(self.entries() =~= before.push(entry));
    }

    /// Puts a transaction in at the current time.
    pub fn add_transaction(&mut self, tx_id: String, payload: String)
        ensures
            exists|now: u128|
                final(self).entries() == put(
                    old(self).entries(),
                    CachedView { id: tx_id@, payload: payload@, added_at: now },
                ),
            final(self).cache_lifetime == old(self).cache_lifetime,
            old(self).wf() ==> final(self).wf(),
    {
        self.add_transaction_at(tx_id, payload, unix_nanos());
    }

    /// Forgets the entries that are, at the time `now`, as old as the
    /// lifetime or older.
    pub fn cleanup_expired_at(&mut self, now: u128)
        ensures
            final(self).entries() == keep_fresh(
                old(self).entries(),
                now,
                old(self).cache_lifetime,
            ),
            final(self).cache_lifetime == old(self).cache_lifetime,
            old(self).wf() ==> final(self).wf(),
    {
        let ghost before = self.entries();
        let lifetime = self.cache_lifetime;
        let mut kept: Vec<CachedTransaction> = Vec::new();
        let mut all: Vec<CachedTransaction> = Vec::new();
        std::mem::swap(&mut all, &mut self.cache);
        let ghost held = all@.map_values(|entry: CachedTransaction| entry@);
        assert(held == before);
        assert(kept@.map_values(|entry: CachedTransaction| entry@) =~= keep_fresh(
            before.take(0),
            now,
            lifetime,
        ));
        let mut i: usize = 0;
        while i < all.len()
            invariant
                i <= all@.len(),
                all@.map_values(|entry: CachedTransaction| entry@) == before,
                kept@.map_values(|entry: CachedTransaction| entry@) == keep_fresh(
                    before.take(i as int),
                    now,
                    lifetime,
                ),
            decreases all@.len() - i,
        {
            assert(before.take(i + 1).drop_last() =~= before.take(i as int));
            assert(before.take(i + 1).last() == all@[i as int]@);
            if elapsed_since(all[i].added_at, now) < lifetime {
                let ghost so_far = kept@.map_values(|entry: CachedTransaction| entry@);
                let entry = CachedTransaction {
                    id: all[i].id.clone(),
                    payload: all[i].payload.clone(),
                    added_at: all[i].added_at,
                };
                kept.push(entry);
                assert(kept@.map_values(|entry: CachedTransaction| entry@) =~= so_far.push(
                    all@[i as int]@,
                ));
            }
            i += 1;
        }
        assert(before.take(i as int) =~= before);
        proof {
            lemma_keep_fresh(before, now, lifetime);
        }
        self.cache = kept;
    }

    /// Forgets the entries that are, at the current time, as old as the
    /// lifetime or older.
    pub fn cleanup_expired(&mut self)
        ensures
            exists|now: u128|
                final(self).entries() == keep_fresh(
                    old(self).entries(),
                    now,
                    old(self).cache_lifetime,
                ),
            final(self).cache_lifetime == old(self).cache_lifetime,
            old(self).wf() ==> final(self).wf(),
    {
        self.cleanup_expired_at(unix_nanos());
    }
}

} // verus!
