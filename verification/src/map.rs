//! The two-tier map engine: an immutable snapshot consulted lock-free, a
//! dirty overlay behind the structural lock, and a miss-counted promotion
//! heuristic that consolidates the overlay into a fresh snapshot.
//!
//! Entries live in an arena and are addressed through integer handles, so
//! that the snapshot and the dirty overlay can share one slot per key: an
//! in-place update made through either tier is observed through both.

use vstd::prelude::*;

use crate::entry::{Entry, EntryStatus};

verus! {

/// Looks a key up in an association list of key/handle pairs, front first.
pub open spec fn assoc_get(s: Seq<(u64, usize)>, k: u64) -> Option<usize>
    decreases s.len(),
{
    if s.len() == 0 {
        None
    } else if s[0].0 == k {
        Some(s[0].1)
    } else {
        assoc_get(s.subrange(1, s.len() as int), k)
    }
}

/// Whether the keys of an association list are pairwise distinct.
pub open spec fn distinct_keys(s: Seq<(u64, usize)>) -> bool {
    forall|i: int, j: int| 0 <= i < j < s.len() ==> (#[trigger] s[i]).0 != (#[trigger] s[j]).0
}

/// A counter increment that sticks at the counter's ceiling instead of
/// wrapping.
pub open spec fn sat_inc(x: u64) -> u64 {
    if x < u64::MAX {
        (x + 1) as u64
    } else {
        x
    }
}

/// A successful lookup names a row of the list; a failed one rules every row
/// out.
pub proof fn lemma_assoc_get_exists(s: Seq<(u64, usize)>, k: u64)
    ensures
        match assoc_get(s, k) {
            Some(i) => exists|j: int| 0 <= j < s.len() && s[j] == (k, i),
            None => forall|j: int| 0 <= j < s.len() ==> (#[trigger] s[j]).0 != k,
        },
    decreases s.len(),
{
    if s.len() == 0 {
    } else if s[0].0 == k {
        assert(s[0] == (k, s[0].1));
    } else {
        let rest = s.subrange(1, s.len() as int);
        lemma_assoc_get_exists(rest, k);
        match assoc_get(rest, k) {
            Some(i) => {
                let j = choose|j: int| 0 <= j < rest.len() && rest[j] == (k, i);
                assert(s[j + 1] == (k, i));
            }
            None => {
                assert forall|j: int| 0 <= j < s.len() implies (#[trigger] s[j]).0 != k by {
                    if j > 0 {
                        assert(rest[j - 1] == s[j]);
                    }
                }
            }
        }
    }
}

/// In a list with distinct keys, every row is found by a lookup of its key.
pub proof fn lemma_assoc_get_row(s: Seq<(u64, usize)>, j: int)
    requires
        distinct_keys(s),
        0 <= j < s.len(),
    ensures
        assoc_get(s, s[j].0) == Some(s[j].1),
    decreases j,
{
    if j == 0 {
    } else {
        let rest = s.subrange(1, s.len() as int);
        assert(distinct_keys(rest)) by {
            assert forall|a: int, b: int| 0 <= a < b < rest.len() implies (#[trigger] rest[a]).0
                != (#[trigger] rest[b]).0 by {
                assert(rest[a] == s[a + 1] && rest[b] == s[b + 1]);
            }
        }
        assert(rest[j - 1] == s[j]);
        lemma_assoc_get_row(rest, j - 1);
        assert(s[0].0 != s[j].0);
    }
}

/// How appending a row changes lookups: rows already present shadow it.
pub proof fn lemma_assoc_get_push(s: Seq<(u64, usize)>, p: (u64, usize), k: u64)
    ensures
        assoc_get(s.push(p), k) == (if assoc_get(s, k) is Some {
            assoc_get(s, k)
        } else if p.0 == k {
            Some(p.1)
        } else {
            None
        }),
    decreases s.len(),
{
    let t = s.push(p);
    assert(t.len() == s.len() + 1);
    if s.len() == 0 {
        assert(t[0] == p);
        if p.0 == k {
            assert(assoc_get(t, k) == Some(p.1));
        } else {
            assert(t.subrange(1, t.len() as int) =~= Seq::<(u64, usize)>::empty());
            assert(assoc_get(Seq::<(u64, usize)>::empty(), k) is None);
            assert(assoc_get(t, k) is None);
        }
    } else {
        assert(t[0] == s[0]);
        if s[0].0 == k {
            assert(assoc_get(t, k) == Some(s[0].1));
            assert(assoc_get(s, k) == Some(s[0].1));
        } else {
            let srest = s.subrange(1, s.len() as int);
            assert(t.subrange(1, t.len() as int) =~= srest.push(p));
            lemma_assoc_get_push(srest, p, k);
            assert(assoc_get(t, k) == assoc_get(srest.push(p), k));
            assert(assoc_get(s, k) == assoc_get(srest, k));
        }
    }
}

/// The immutable tier: a mapping from keys to entry handles, plus the flag
/// that says whether the dirty overlay holds keys absent from this snapshot.
pub struct ReadOnly {
    m: Vec<(u64, usize)>,
    amended: bool,
}

impl ReadOnly {
    /// The key/handle rows of the snapshot.
    pub closed spec fn rows(self) -> Seq<(u64, usize)> {
        self.m@
    }

    /// Whether the dirty overlay holds keys absent from this snapshot.
    pub closed spec fn spec_amended(self) -> bool {
        self.amended
    }

    /// An empty, unamended snapshot.
    pub fn new() -> (r: ReadOnly)
        ensures
            r.rows() == Seq::<(u64, usize)>::empty(),
            !r.spec_amended(),
    {
        ReadOnly { m: Vec::new(), amended: false }
    }
}

/// The map engine: the published snapshot, the lock-protected dirty overlay
/// (`None` until the first structural write after a promotion), the miss
/// counter that triggers promotion, and an instrumentation counter of
/// structural-lock acquisitions.
pub struct SyncMap<V> {
    entries: Vec<Entry<V>>,
    read: ReadOnly,
    dirty: Option<Vec<(u64, usize)>>,
    misses: usize,
    lock_entries: u64,
}

impl<V> SyncMap<V> {
    /// The handle the snapshot maps a key to, if any.
    pub closed spec fn read_handle(self, k: u64) -> Option<usize> {
        assoc_get(self.read.m@, k)
    }

    /// The handle the dirty overlay maps a key to, if any.
    pub closed spec fn dirty_handle(self, k: u64) -> Option<usize> {
        match self.dirty {
            Some(d) => assoc_get(d@, k),
            None => None,
        }
    }

    /// The handle a key resolves to: the snapshot first, then the overlay.
    pub closed spec fn handle_of(self, k: u64) -> Option<usize> {
        if self.read_handle(k) is Some {
            self.read_handle(k)
        } else {
            self.dirty_handle(k)
        }
    }

    /// The value a lookup of `k` observes.
    pub closed spec fn spec_get(self, k: u64) -> Option<V> {
        match self.handle_of(k) {
            Some(i) => match self.entries@[i as int]@ {
                EntryStatus::Live(v) => Some(v),
                EntryStatus::SoftDeleted => None,
                EntryStatus::Expunged => None,
            },
            None => None,
        }
    }

    /// Whether the key is present in the published snapshot (in any state):
    /// such a key is always resolved without the structural lock.
    pub closed spec fn in_snapshot(self, k: u64) -> bool {
        self.read_handle(k) is Some
    }

    /// Whether the key resolves to a live slot through the snapshot: a store
    /// of such a key completes lock-free.
    pub closed spec fn in_snapshot_live(self, k: u64) -> bool {
        match self.read_handle(k) {
            Some(i) => self.entries@[i as int]@ is Live,
            None => false,
        }
    }

    /// Whether the dirty overlay holds keys absent from the snapshot.
    pub closed spec fn amended(self) -> bool {
        self.read.amended
    }

    /// Misses recorded since the last promotion.
    pub closed spec fn spec_misses(self) -> nat {
        self.misses as nat
    }

    /// Size of the dirty overlay (zero while uninitialized).
    pub closed spec fn dirty_size(self) -> nat {
        match self.dirty {
            Some(d) => d@.len(),
            None => 0,
        }
    }

    /// Structural-lock acquisitions so far: the instrumentation hook for
    /// observing which operations took the slow path.
    pub closed spec fn spec_lock_entries(self) -> u64 {
        self.lock_entries
    }

    /// The structural invariants of the two tiers alone.
    ///
    /// - Keys are unique within each tier and every handle is in the arena.
    /// - No expunged slot is reachable through the overlay; while the
    ///   overlay exists, every non-expunged snapshot row is mirrored in it
    ///   (same handle) and every expunged snapshot key is absent from it;
    ///   while the overlay is uninitialized nothing reachable is expunged.
    /// - Distinct keys never share a slot.
    pub closed spec fn tiers_ok(self) -> bool {
        &&& distinct_keys(self.read.m@)
        &&& (forall|j: int|
            0 <= j < self.read.m@.len() ==> (#[trigger] self.read.m@[j]).1 < self.entries@.len())
        &&& match self.dirty {
            Some(d) => {
                &&& distinct_keys(d@)
                &&& (forall|j: int| 0 <= j < d@.len() ==> (#[trigger] d@[j]).1 < self.entries@.len())
                &&& (forall|j: int|
                    0 <= j < d@.len() ==> !(self.entries@[(#[trigger] d@[j]).1 as int]@
                        is Expunged))
                &&& (forall|k: u64|
                    #[trigger] self.read_handle(k) matches Some(i) ==> (if self.entries@[i as int]@
                        is Expunged {
                        self.dirty_handle(k) is None
                    } else {
                        self.dirty_handle(k) == Some(i)
                    }))
            },
            None => {
                forall|j: int|
                    0 <= j < self.read.m@.len() ==> !(self.entries@[(#[trigger] self.read.m@[j]).1
                        as int]@ is Expunged)
            },
        }
        &&& (forall|k1: u64, k2: u64|
            k1 != k2 && #[trigger] self.handle_of(k1) is Some && #[trigger] self.handle_of(k2)
                is Some ==> self.handle_of(k1) != self.handle_of(k2))
    }

    /// Well-formedness: the invariants the engine maintains between calls.
    /// Beyond the structure of the tiers, the overlay exists exactly while
    /// the snapshot is amended, and the miss count stays below the overlay's
    /// size (and is zero while the overlay is uninitialized).
    pub closed spec fn wf(self) -> bool {
        &&& self.tiers_ok()
        &&& (self.read.amended <==> self.dirty is Some)
        &&& match self.dirty {
            Some(d) => self.misses < d@.len(),
            None => self.misses == 0,
        }
    }

    /// An empty map: no key resolves to anything, the overlay is
    /// uninitialized, no miss and no lock acquisition is recorded.
    pub fn new() -> (m: SyncMap<V>)
        ensures
            m.wf(),
            m@ == Map::<u64, V>::empty(),
            !m.amended(),
            m.spec_lock_entries() == 0,
    {
        let m = SyncMap {
            entries: Vec::new(),
            read: ReadOnly::new(),
            dirty: None,
            misses: 0,
            lock_entries: 0,
        };
        proof {
            assert(m@ =~= Map::<u64, V>::empty());
        }
        m
    }

    /// Visits the keys that currently hold a value, by listing each exactly
    /// once: the published snapshot merged with the dirty overlay. A key
    /// present for the whole call is listed; a key deleted before the call
    /// and not stored again is not.
    pub fn range(&self) -> (ks: Vec<u64>)
        requires
            self.wf(),
        ensures
            ks@.no_duplicates(),
            forall|j: int| 0 <= j < ks@.len() ==> self@.contains_key(#[trigger] ks@[j]),
            forall|k: u64| #[trigger] self@.contains_key(k) ==> ks@.contains(k),
    {
        proof {
            assert forall|k: u64| #[trigger] self@.contains_key(k) == (self.spec_get(k) is Some) by {
                self.lemma_view_get(k);
            }
        }
        let mut ks: Vec<u64> = Vec::new();
        let n = self.read.m.len();
        let mut j: usize = 0;
        while j < n
            invariant
                self.wf(),
                j <= n,
                n == self.read.m@.len(),
                ks@.no_duplicates(),
                forall|m: int|
                    0 <= m < ks@.len() ==> self.spec_get(#[trigger] ks@[m]) is Some
                        && self.read_handle(ks@[m]) is Some,
                forall|l: int| j <= l < n ==> !ks@.contains((#[trigger] self.read.m@[l]).0),
                forall|l: int|
                    0 <= l < j && self.spec_get((#[trigger] self.read.m@[l]).0) is Some
                        ==> ks@.contains(self.read.m@[l].0),
            decreases n - j,
        {
            let pair = self.read.m[j];
            proof {
                lemma_assoc_get_row(self.read.m@, j as int);
                assert(self.read_handle(pair.0) == Some(pair.1));
            }
            if self.entries[pair.1].load().is_some() {
                let ghost ks0 = ks@;
                ks.push(pair.0);
                proof {
                    assert forall|a: int, b: int| 0 <= a < b < ks@.len() implies ks@[a] != ks@[b]
                        by {
                        if b == ks0.len() {
                            assert(ks@[b] == pair.0);
                            assert(ks@[a] == ks0[a]);
                            assert(!ks0.contains(pair.0));
                        }
                    }
                    assert forall|l: int| j + 1 <= l < n implies !ks@.contains((
                    #[trigger] self.read.m@[l]).0) by {
                        if ks@.contains(self.read.m@[l].0) {
                            let m = choose|m: int|
                                0 <= m < ks@.len() && ks@[m] == self.read.m@[l].0;
                            if m < ks0.len() {
                                assert(ks0[m] == self.read.m@[l].0);
                                assert(ks0.contains(self.read.m@[l].0));
                            } else {
                                assert(self.read.m@[l].0 == pair.0);
                            }
                            assert(false);
                        }
                    }
                    assert forall|l: int|
                        0 <= l < j + 1 && self.spec_get((#[trigger] self.read.m@[l]).0)
                            is Some implies ks@.contains(self.read.m@[l].0) by {
                        if l < j {
                            let m = choose|m: int|
                                0 <= m < ks0.len() && ks0[m] == self.read.m@[l].0;
                            assert(ks@[m] == self.read.m@[l].0);
                        } else {
                            assert(ks@[ks0.len() as int] == pair.0);
                        }
                    }
                }
            } else {
                proof {
                    assert(self.spec_get(pair.0) is None);
                }
            }
            j += 1;
        }
        match &self.dirty {
            Some(d) => {
                let dn = d.len();
                let mut m: usize = 0;
                proof {
                    assert forall|l: int|
                        0 <= l < dn && self.read_handle((#[trigger] d@[l]).0)
                            is None implies !ks@.contains(d@[l].0) by {
                        if ks@.contains(d@[l].0) {
                            let m2 = choose|m2: int| 0 <= m2 < ks@.len() && ks@[m2] == d@[l].0;
                        }
                    }
                }
                while m < dn
                    invariant
                        self.wf(),
                        self.dirty is Some,
                        d == self.dirty->Some_0,
                        m <= dn,
                        dn == d@.len(),
                        ks@.no_duplicates(),
                        forall|i2: int|
                            0 <= i2 < ks@.len() ==> self.spec_get(#[trigger] ks@[i2]) is Some,
                        forall|l: int|
                            m <= l < dn && self.read_handle((#[trigger] d@[l]).0) is None
                                ==> !ks@.contains(d@[l].0),
                        forall|l: int|
                            0 <= l < self.read.m@.len() && self.spec_get((
                            #[trigger] self.read.m@[l]).0) is Some ==> ks@.contains(
                                self.read.m@[l].0,
                            ),
                        forall|l: int|
                            0 <= l < m && self.read_handle((#[trigger] d@[l]).0) is None
                                && self.spec_get(d@[l].0) is Some ==> ks@.contains(d@[l].0),
                    decreases dn - m,
                {
                    let pair = d[m];
                    proof {
                        lemma_assoc_get_row(d@, m as int);
                        lemma_assoc_get_exists(self.read.m@, pair.0);
                        assert(self.dirty_handle(pair.0) == Some(pair.1));
                    }
                    let ghost ks0 = ks@;
                    let in_read = assoc_find(&self.read.m, pair.0).is_some();
                    let live = self.entries[pair.1].load().is_some();
                    if !in_read && live {
                        ks.push(pair.0);
                        proof {
                            assert(self.read_handle(pair.0) is None);
                            assert(!ks0.contains(pair.0));
                            assert(self.spec_get(pair.0) is Some);
                            assert(ks@[ks0.len() as int] == pair.0);
                            assert forall|l: int|
                                0 <= l < self.read.m@.len() && self.spec_get((
                                #[trigger] self.read.m@[l]).0) is Some implies ks@.contains(
                                self.read.m@[l].0,
                            ) by {
                                let m2 = choose|m2: int|
                                    0 <= m2 < ks0.len() && ks0[m2] == self.read.m@[l].0;
                                assert(ks@[m2] == self.read.m@[l].0);
                            }
                            assert forall|a: int, b: int| 0 <= a < b < ks@.len() implies ks@[a]
                                != ks@[b] by {
                                if b == ks0.len() {
                                    assert(ks@[b] == pair.0);
                                    assert(ks@[a] == ks0[a]);
                                    assert(!ks0.contains(pair.0));
                                }
                            }
                            assert forall|l: int|
                                m + 1 <= l < dn && self.read_handle((#[trigger] d@[l]).0)
                                    is None implies !ks@.contains(d@[l].0) by {
                                if ks@.contains(d@[l].0) {
                                    let m2 = choose|m2: int|
                                        0 <= m2 < ks@.len() && ks@[m2] == d@[l].0;
                                    if m2 < ks0.len() {
                                        assert(ks0[m2] == d@[l].0);
                                        assert(ks0.contains(d@[l].0));
                                    } else {
                                        assert(d@[l].0 == pair.0);
                                    }
                                    assert(false);
                                }
                            }
                            assert forall|l: int|
                                0 <= l < m + 1 && self.read_handle((#[trigger] d@[l]).0) is None
                                    && self.spec_get(d@[l].0) is Some implies ks@.contains(
                                d@[l].0,
                            ) by {
                                if l < m {
                                    let m2 = choose|m2: int|
                                        0 <= m2 < ks0.len() && ks0[m2] == d@[l].0;
                                    assert(ks@[m2] == d@[l].0);
                                } else {
                                    assert(ks@[ks0.len() as int] == pair.0);
                                }
                            }
                        }
                    } else {
                        proof {
                            if !in_read && !live {
                                assert(self.spec_get(pair.0) is None);
                            }
                            assert forall|l: int|
                                0 <= l < m + 1 && self.read_handle((#[trigger] d@[l]).0) is None
                                    && self.spec_get(d@[l].0) is Some implies ks@.contains(
                                d@[l].0,
                            ) by {}
                        }
                    }
                    m += 1;
                }
            }
            None => {}
        }
        proof {
            assert forall|k: u64| #[trigger] self@.contains_key(k) implies ks@.contains(k) by {
                if self.read_handle(k) is Some {
                    lemma_assoc_get_exists(self.read.m@, k);
                    let l = choose|l: int|
                        0 <= l < self.read.m@.len() && self.read.m@[l] == (
                        k,
                        self.read_handle(k)->Some_0,
                        );
                } else {
                    assert(self.dirty_handle(k) is Some);
                    lemma_assoc_get_exists(self.dirty->Some_0@, k);
                    let l = choose|l: int|
                        0 <= l < self.dirty->Some_0@.len() && self.dirty->Some_0@[l] == (
                        k,
                        self.dirty_handle(k)->Some_0,
                        );
                }
            }
        }
        ks
    }

    /// The instrumentation hook: how many times an operation has entered the
    /// structural lock.
    pub fn lock_entries(&self) -> (r: u64)
        ensures
            r == self.spec_lock_entries(),
    {
        self.lock_entries
    }

    /// After a promotion (the snapshot is unamended), every key that holds
    /// a value resolves through the published snapshot — where, by `load`'s
    /// contract, lookups leave the engine untouched and acquire no
    /// structural lock.
    pub proof fn lemma_promoted_reads_lock_free(self, k: u64)
        requires
            self.wf(),
            !self.amended(),
            self@.contains_key(k),
        ensures
            self.in_snapshot(k),
    {
        self.lemma_view_get(k);
    }

    /// Relates the map's view to a single lookup's observation.
    pub proof fn lemma_view_get(self, k: u64)
        ensures
            self@.contains_key(k) <==> self.spec_get(k) is Some,
            self@.contains_key(k) ==> self@[k] == self.spec_get(k)->Some_0,
    {
    }
}

impl<V> Default for SyncMap<V> {
    /// The empty map.
    fn default() -> (m: SyncMap<V>)
        ensures
            m.wf(),
            m@ == Map::<u64, V>::empty(),
            !m.amended(),
            m.spec_lock_entries() == 0,
    {
        SyncMap::new()
    }
}

impl<V> View for SyncMap<V> {
    type V = Map<u64, V>;

    closed spec fn view(&self) -> Map<u64, V> {
        Map::new(|k: u64| self.spec_get(k) is Some, |k: u64| self.spec_get(k)->Some_0)
    }
}

impl<V> SyncMap<V> {
    /// Frame rule: a state that agrees with a well-formed one on the arena
    /// and both tiers is itself well formed (given a fitting miss count) and
    /// has the same view; the instrumentation and miss counters carry no
    /// observable content.
    proof fn lemma_frame(self, o: SyncMap<V>)
        requires
            o.wf(),
            self.entries == o.entries,
            self.read == o.read,
            self.dirty == o.dirty,
            match self.dirty {
                Some(d) => self.misses < d@.len(),
                None => self.misses == 0,
            },
        ensures
            self.wf(),
            self@ == o@,
    {
        assert forall|k: u64| (#[trigger] self.read_handle(k)) == o.read_handle(k) by {}
        assert forall|k: u64| (#[trigger] self.dirty_handle(k)) == o.dirty_handle(k) by {}
        assert forall|k: u64| (#[trigger] self.handle_of(k)) == o.handle_of(k) by {}
        assert forall|k: u64| (#[trigger] self.spec_get(k)) == o.spec_get(k) by {}
        if self.dirty is Some {
            assert forall|k: u64| #[trigger] self.read_handle(k) is Some implies ({
                let i = self.read_handle(k)->Some_0;
                if self.entries@[i as int]@ is Expunged {
                    self.dirty_handle(k) is None
                } else {
                    self.dirty_handle(k) == Some(i)
                }
            }) by {
                assert(o.read_handle(k) == self.read_handle(k));
            }
        }
        assert forall|k1: u64, k2: u64|
            k1 != k2 && #[trigger] self.handle_of(k1) is Some && #[trigger] self.handle_of(k2)
                is Some implies self.handle_of(k1) != self.handle_of(k2) by {
            assert(self.handle_of(k1) == o.handle_of(k1));
            assert(self.handle_of(k2) == o.handle_of(k2));
        }
        assert(self.wf());
        assert(self@ =~= o@);
    }

    /// Updating the slot a key resolves to — without changing whether it is
    /// expunged — leaves the engine well formed and changes the view only at
    /// that key: distinct keys never share a slot.
    proof fn lemma_update_at_handle(self, o: SyncMap<V>, k0: u64, i: usize)
        requires
            o.wf(),
            o.handle_of(k0) == Some(i),
            self.read == o.read,
            self.dirty == o.dirty,
            self.misses == o.misses,
            self.entries@ == o.entries@.update(i as int, self.entries@[i as int]),
            (self.entries@[i as int]@ is Expunged) == (o.entries@[i as int]@ is Expunged),
        ensures
            self.wf(),
            forall|k: u64| k != k0 ==> #[trigger] self.spec_get(k) == o.spec_get(k),
            self.spec_get(k0) == (match self.entries@[i as int]@ {
                EntryStatus::Live(v) => Some(v),
                EntryStatus::SoftDeleted => None::<V>,
                EntryStatus::Expunged => None::<V>,
            }),
    {
        assert((i as int) < o.entries@.len()) by {
            if o.read_handle(k0) is Some {
                lemma_assoc_get_exists(o.read.m@, k0);
            } else {
                lemma_assoc_get_exists(o.dirty->Some_0@, k0);
            }
        }
        assert forall|k: u64| (#[trigger] self.read_handle(k)) == o.read_handle(k) by {}
        assert forall|k: u64| (#[trigger] self.dirty_handle(k)) == o.dirty_handle(k) by {}
        assert forall|k: u64| (#[trigger] self.handle_of(k)) == o.handle_of(k) by {}
        assert forall|k: u64| k != k0 && #[trigger] self.handle_of(k) is Some implies self.handle_of(
            k,
        ) != Some(i) by {
            assert(o.handle_of(k0) is Some);
        }
        assert forall|k: u64| k != k0 implies #[trigger] self.spec_get(k) == o.spec_get(k) by {
            match o.handle_of(k) {
                Some(j) => {
                    if o.read_handle(k) is Some {
                        lemma_assoc_get_exists(o.read.m@, k);
                    } else {
                        lemma_assoc_get_exists(o.dirty->Some_0@, k);
                    }
                    assert((j as int) < o.entries@.len());
                    assert(self.handle_of(k) != Some(i));
                    assert(self.entries@[j as int] == o.entries@[j as int]);
                }
                None => {}
            }
        }
        match self.dirty {
            Some(d) => {
                assert forall|j: int| 0 <= j < d@.len() implies !(self.entries@[(#[trigger] d@[j]).1
                    as int]@ is Expunged) by {
                    if d@[j].1 == i {
                        assert(!(o.entries@[i as int]@ is Expunged));
                    } else {
                        assert(self.entries@[d@[j].1 as int] == o.entries@[d@[j].1 as int]);
                    }
                }
                assert forall|k: u64| #[trigger] self.read_handle(k) is Some implies ({
                    let i2 = self.read_handle(k)->Some_0;
                    if self.entries@[i2 as int]@ is Expunged {
                        self.dirty_handle(k) is None
                    } else {
                        self.dirty_handle(k) == Some(i2)
                    }
                }) by {
                    let i2 = self.read_handle(k)->Some_0;
                    assert(o.read_handle(k) == Some(i2));
                    lemma_assoc_get_exists(o.read.m@, k);
                    assert((i2 as int) < o.entries@.len());
                    if i2 != i {
                        assert(self.entries@[i2 as int] == o.entries@[i2 as int]);
                    }
                }
            }
            None => {
                assert forall|j: int| 0 <= j < self.read.m@.len() implies !(self.entries@[(
                #[trigger] self.read.m@[j]).1 as int]@ is Expunged) by {
                    let h = o.read.m@[j].1;
                    if h == i {
                        assert(!(o.entries@[i as int]@ is Expunged));
                    } else {
                        assert(self.entries@[h as int] == o.entries@[h as int]);
                    }
                }
            }
        }
        assert forall|k1: u64, k2: u64|
            k1 != k2 && #[trigger] self.handle_of(k1) is Some && #[trigger] self.handle_of(k2)
                is Some implies self.handle_of(k1) != self.handle_of(k2) by {
            assert(self.handle_of(k1) == o.handle_of(k1));
            assert(self.handle_of(k2) == o.handle_of(k2));
        }
        assert(self.wf());
    }

    /// Rows of the snapshot carry pairwise distinct handles: distinct keys
    /// never share a slot.
    proof fn lemma_read_rows_handles_distinct(self)
        requires
            self.wf(),
        ensures
            forall|a: int, b: int|
                0 <= a < b < self.read.m@.len() ==> (#[trigger] self.read.m@[a]).1 != (
                #[trigger] self.read.m@[b]).1,
    {
        assert forall|a: int, b: int| 0 <= a < b < self.read.m@.len() implies (
        #[trigger] self.read.m@[a]).1 != (#[trigger] self.read.m@[b]).1 by {
            lemma_assoc_get_row(self.read.m@, a);
            lemma_assoc_get_row(self.read.m@, b);
            let ka = self.read.m@[a].0;
            let kb = self.read.m@[b].0;
            assert(self.handle_of(ka) == Some(self.read.m@[a].1));
            assert(self.handle_of(kb) == Some(self.read.m@[b].1));
        }
    }

    /// Initializes the dirty overlay from the snapshot: every live slot's
    /// handle is carried over; tombstoned slots are expunged and omitted —
    /// the one place a slot ever becomes expunged, establishing that no
    /// expunged slot is reachable through the overlay. Callable only with
    /// the structural lock held, while the overlay is uninitialized.
    fn dirty_locked(&mut self)
        requires
            old(self).wf(),
            old(self).dirty is None,
        ensures
            final(self).tiers_ok(),
            final(self).read == old(self).read,
            final(self).misses == old(self).misses,
            final(self).lock_entries == old(self).lock_entries,
            final(self).entries@.len() == old(self).entries@.len(),
            final(self).dirty is Some,
            forall|k: u64|
                #[trigger] assoc_get(final(self).dirty->Some_0@, k) == (match old(
                    self,
                ).read_handle(k) {
                    Some(i) => if old(self).entries@[i as int]@ is Live {
                        Some(i)
                    } else {
                        None::<usize>
                    },
                    None => None::<usize>,
                }),
            forall|k: u64|
                #[trigger] old(self).read_handle(k) matches Some(i) ==> final(self).entries@[
                    i as int
                ]@ == (if old(self).entries@[i as int]@ is Live {
                    old(self).entries@[i as int]@
                } else {
                    EntryStatus::<V>::Expunged
                }),
            forall|k: u64| #[trigger] final(self).spec_get(k) == old(self).spec_get(k),
            forall|k: u64| #[trigger] final(self).handle_of(k) == old(self).handle_of(k),
    {
        let ghost o = *old(self);
        proof {
            self.lemma_read_rows_handles_distinct();
        }
        let mut d: Vec<(u64, usize)> = Vec::new();
        let n = self.read.m.len();
        let mut j: usize = 0;
        while j < n
            invariant
                o.wf(),
                o.dirty is None,
                j <= n,
                n == o.read.m@.len(),
                self.read == o.read,
                self.dirty is None,
                self.misses == o.misses,
                self.lock_entries == o.lock_entries,
                self.entries@.len() == o.entries@.len(),
                forall|a: int, b: int|
                    0 <= a < b < n ==> (#[trigger] o.read.m@[a]).1 != (#[trigger] o.read.m@[b]).1,
                forall|l: int|
                    0 <= l < j ==> #[trigger] self.entries@[o.read.m@[l].1 as int]@ == (if o.entries@[
                        o.read.m@[l].1 as int
                    ]@ is Live {
                        o.entries@[o.read.m@[l].1 as int]@
                    } else {
                        EntryStatus::<V>::Expunged
                    }),
                forall|l: int|
                    j <= l < n ==> #[trigger] self.entries@[o.read.m@[l].1 as int]@ == o.entries@[
                        o.read.m@[l].1 as int
                    ]@,
                distinct_keys(d@),
                forall|m: int|
                    0 <= m < d@.len() ==> assoc_get(o.read.m@, (#[trigger] d@[m]).0) == Some(
                        d@[m].1,
                    ) && o.entries@[d@[m].1 as int]@ is Live && d@[m].1 < o.entries@.len(),
                forall|l: int|
                    j <= l < n ==> #[trigger] assoc_get(d@, o.read.m@[l].0) is None,
                forall|k: u64|
                    assoc_get(o.read.m@, k) is None ==> #[trigger] assoc_get(d@, k) is None,
                forall|l: int|
                    0 <= l < j ==> #[trigger] assoc_get(d@, o.read.m@[l].0) == (if o.entries@[
                        o.read.m@[l].1 as int
                    ]@ is Live {
                        Some(o.read.m@[l].1)
                    } else {
                        None::<usize>
                    }),
            decreases n - j,
        {
            let pair = self.read.m[j];
            proof {
                assert(o.read.m@[j as int] == pair);
                assert(pair.1 < self.entries@.len());
            }
            let ghost entries0 = self.entries@;
            let e = &mut self.entries[pair.1];
            let gone = e.try_expunge_locked();
            proof {
                assert(self.entries@ == entries0.update(
                    pair.1 as int,
                    self.entries@[pair.1 as int],
                ));
                // no other row shares this handle, so no other tracked slot
                // changed
                assert forall|l: int|
                    0 <= l < n && l != j implies #[trigger] self.entries@[o.read.m@[l].1 as int]
                    == entries0[o.read.m@[l].1 as int] by {
                    assert(o.read.m@[l].1 != pair.1);
                }
            }
            if !gone {
                let ghost d0 = d@;
                d.push(pair);
                proof {
                    assert(assoc_get(d0, pair.0) is None);
                    assert forall|m: int| 0 <= m < d0.len() implies (#[trigger] d0[m]).0 != pair.0
                        by {
                        lemma_assoc_get_row(d0, m);
                    }
                    lemma_assoc_get_row(o.read.m@, j as int);
                    assert forall|l: int|
                        0 <= l < j + 1 implies #[trigger] assoc_get(d@, o.read.m@[l].0) == (
                    if o.entries@[o.read.m@[l].1 as int]@ is Live {
                        Some(o.read.m@[l].1)
                    } else {
                        None::<usize>
                    }) by {
                        lemma_assoc_get_push(d0, pair, o.read.m@[l].0);
                        if l < j {
                            assert(o.read.m@[l].0 != pair.0);
                        }
                    }
                    assert forall|l: int| j + 1 <= l < n implies #[trigger] assoc_get(
                        d@,
                        o.read.m@[l].0,
                    ) is None by {
                        lemma_assoc_get_push(d0, pair, o.read.m@[l].0);
                        assert(o.read.m@[l].0 != pair.0);
                    }
                    assert forall|k: u64| assoc_get(o.read.m@, k) is None implies #[trigger] assoc_get(
                        d@,
                        k,
                    ) is None by {
                        lemma_assoc_get_push(d0, pair, k);
                        lemma_assoc_get_row(o.read.m@, j as int);
                        assert(k != pair.0);
                    }
                }
            }
            j += 1;
        }
        self.dirty = Some(d);
        proof {
            self.lemma_bootstrap_post(o);
        }
    }

    /// What the overlay rebuild establishes, given the loop's row-by-row
    /// facts: both tiers are structurally sound, every key resolves to the
    /// slot it resolved to before, and the view is unchanged.
    proof fn lemma_bootstrap_post(self, o: SyncMap<V>)
        requires
            o.wf(),
            o.dirty is None,
            self.read == o.read,
            self.dirty is Some,
            self.entries@.len() == o.entries@.len(),
            forall|l: int|
                0 <= l < o.read.m@.len() ==> #[trigger] self.entries@[o.read.m@[l].1 as int]@ == (
                if o.entries@[o.read.m@[l].1 as int]@ is Live {
                    o.entries@[o.read.m@[l].1 as int]@
                } else {
                    EntryStatus::<V>::Expunged
                }),
            distinct_keys(self.dirty->Some_0@),
            forall|m: int|
                0 <= m < self.dirty->Some_0@.len() ==> assoc_get(
                    o.read.m@,
                    (#[trigger] self.dirty->Some_0@[m]).0,
                ) == Some(self.dirty->Some_0@[m].1) && o.entries@[self.dirty->Some_0@[m].1 as int]@
                    is Live && self.dirty->Some_0@[m].1 < o.entries@.len(),
            forall|k: u64|
                assoc_get(o.read.m@, k) is None ==> #[trigger] assoc_get(
                    self.dirty->Some_0@,
                    k,
                ) is None,
            forall|l: int|
                0 <= l < o.read.m@.len() ==> #[trigger] assoc_get(
                    self.dirty->Some_0@,
                    o.read.m@[l].0,
                ) == (if o.entries@[o.read.m@[l].1 as int]@ is Live {
                    Some(o.read.m@[l].1)
                } else {
                    None::<usize>
                }),
        ensures
            self.tiers_ok(),
            forall|k: u64|
                #[trigger] assoc_get(self.dirty->Some_0@, k) == (match o.read_handle(k) {
                    Some(i) => if o.entries@[i as int]@ is Live {
                        Some(i)
                    } else {
                        None::<usize>
                    },
                    None => None::<usize>,
                }),
            forall|k: u64|
                #[trigger] o.read_handle(k) matches Some(i) ==> self.entries@[i as int]@ == (
                if o.entries@[i as int]@ is Live {
                    o.entries@[i as int]@
                } else {
                    EntryStatus::<V>::Expunged
                }),
            forall|k: u64| #[trigger] self.spec_get(k) == o.spec_get(k),
            forall|k: u64| #[trigger] self.handle_of(k) == o.handle_of(k),
    {
        let d = self.dirty->Some_0@;
        let rows = o.read.m@;
        // per-key form of the per-row facts
        assert forall|k: u64|
            #[trigger] assoc_get(d, k) == (match o.read_handle(k) {
                Some(i) => if o.entries@[i as int]@ is Live {
                    Some(i)
                } else {
                    None::<usize>
                },
                None => None::<usize>,
            }) by {
            lemma_assoc_get_exists(rows, k);
            match o.read_handle(k) {
                Some(i) => {
                    let l = choose|l: int| 0 <= l < rows.len() && rows[l] == (k, i);
                    assert(assoc_get(d, k) == assoc_get(d, rows[l].0));
                }
                None => {}
            }
        }
        assert forall|k: u64|
            #[trigger] o.read_handle(k) matches Some(i) ==> self.entries@[i as int]@ == (
        if o.entries@[i as int]@ is Live {
            o.entries@[i as int]@
        } else {
            EntryStatus::<V>::Expunged
        }) by {
            if o.read_handle(k) is Some {
                let i = o.read_handle(k)->Some_0;
                lemma_assoc_get_exists(rows, k);
                let l = choose|l: int| 0 <= l < rows.len() && rows[l] == (k, i);
                assert(self.entries@[rows[l].1 as int]@ == (if o.entries@[rows[l].1 as int]@
                    is Live {
                    o.entries@[rows[l].1 as int]@
                } else {
                    EntryStatus::<V>::Expunged
                }));
            }
        }
        assert forall|k: u64| (#[trigger] self.handle_of(k)) == o.handle_of(k) by {
            assert(self.read_handle(k) == o.read_handle(k));
            match o.read_handle(k) {
                Some(i) => {}
                None => {
                    assert(assoc_get(d, k) is None);
                }
            }
        }
        assert forall|k: u64| (#[trigger] self.spec_get(k)) == o.spec_get(k) by {
            match o.read_handle(k) {
                Some(i) => {
                    lemma_assoc_get_exists(rows, k);
                    assert((i as int) < o.entries@.len());
                }
                None => {}
            }
        }
        // structural soundness of the freshly built overlay
        assert forall|m: int| 0 <= m < d.len() implies (#[trigger] d[m]).1 < self.entries@.len()
            && !(self.entries@[d[m].1 as int]@ is Expunged) by {
            lemma_assoc_get_exists(rows, d[m].0);
            let l = choose|l: int| 0 <= l < rows.len() && rows[l] == (d[m].0, d[m].1);
            assert(self.entries@[rows[l].1 as int]@ == (if o.entries@[rows[l].1 as int]@ is Live {
                o.entries@[rows[l].1 as int]@
            } else {
                EntryStatus::<V>::Expunged
            }));
            assert(o.entries@[d[m].1 as int]@ is Live);
        }
        assert forall|k: u64| #[trigger] self.read_handle(k) is Some implies ({
            let i = self.read_handle(k)->Some_0;
            if self.entries@[i as int]@ is Expunged {
                self.dirty_handle(k) is None
            } else {
                self.dirty_handle(k) == Some(i)
            }
        }) by {
            let i = self.read_handle(k)->Some_0;
            assert(o.read_handle(k) == Some(i));
            lemma_assoc_get_exists(rows, k);
            assert((i as int) < o.entries@.len());
        }
        assert forall|k1: u64, k2: u64|
            k1 != k2 && #[trigger] self.handle_of(k1) is Some && #[trigger] self.handle_of(k2)
                is Some implies self.handle_of(k1) != self.handle_of(k2) by {
            assert(self.handle_of(k1) == o.handle_of(k1));
            assert(self.handle_of(k2) == o.handle_of(k2));
        }
        assert(self.tiers_ok());
    }

    /// Appending a fresh slot for a key absent from both tiers, and
    /// recording the key in the (now amended) overlay, inserts exactly that
    /// key into the view.
    proof fn lemma_append_new(self, b: SyncMap<V>, key: u64, idx: usize)
        requires
            b.tiers_ok(),
            b.dirty is Some,
            b.misses <= b.dirty->Some_0@.len(),
            b.handle_of(key) is None,
            idx == b.entries@.len(),
            self.read.m == b.read.m,
            self.read.amended,
            self.misses == b.misses,
            self.dirty is Some,
            self.dirty->Some_0@ == b.dirty->Some_0@.push((key, idx)),
            self.entries@ == b.entries@.push(self.entries@[idx as int]),
            self.entries@[idx as int]@ is Live,
        ensures
            self.wf(),
            forall|k: u64| k != key ==> #[trigger] self.spec_get(k) == b.spec_get(k),
            self.spec_get(key) == Some(self.entries@[idx as int]@->Live_0),
    {
        let d = b.dirty->Some_0@;
        let d2 = self.dirty->Some_0@;
        assert(assoc_get(d, key) is None);
        assert forall|m: int| 0 <= m < d.len() implies (#[trigger] d[m]).0 != key by {
            lemma_assoc_get_row(d, m);
        }
        assert forall|k: u64| (#[trigger] assoc_get(d2, k)) == (if k == key {
            Some(idx)
        } else {
            assoc_get(d, k)
        }) by {
            lemma_assoc_get_push(d, (key, idx), k);
        }
        assert forall|k: u64| (#[trigger] self.read_handle(k)) == b.read_handle(k) by {}
        assert(b.read_handle(key) is None);
        assert forall|k: u64| (#[trigger] self.handle_of(k)) == (if k == key {
            Some(idx)
        } else {
            b.handle_of(k)
        }) by {}
        // every pre-existing handle is in the old arena, hence below idx
        assert forall|k: u64| #[trigger] b.handle_of(k) is Some implies (b.handle_of(k)->Some_0
            as int) < idx as int by {
            if b.read_handle(k) is Some {
                lemma_assoc_get_exists(b.read.m@, k);
            } else {
                lemma_assoc_get_exists(d, k);
            }
        }
        assert forall|k: u64| k != key implies #[trigger] self.spec_get(k) == b.spec_get(k) by {
            match b.handle_of(k) {
                Some(j) => {
                    assert((j as int) < idx as int);
                    assert(self.entries@[j as int] == b.entries@[j as int]);
                }
                None => {}
            }
        }
        assert(self.spec_get(key) == Some(self.entries@[idx as int]@->Live_0));
        // structural soundness
        assert(distinct_keys(d2)) by {
            assert forall|a: int, c: int| 0 <= a < c < d2.len() implies (#[trigger] d2[a]).0 != (
            #[trigger] d2[c]).0 by {
                if c < d.len() {
                    assert(d2[a] == d[a] && d2[c] == d[c]);
                } else {
                    assert(d2[c] == (key, idx));
                    assert(d2[a] == d[a]);
                }
            }
        }
        assert forall|m: int| 0 <= m < d2.len() implies (#[trigger] d2[m]).1 < self.entries@.len()
            && !(self.entries@[d2[m].1 as int]@ is Expunged) by {
            if m < d.len() {
                assert(d2[m] == d[m]);
                assert(self.entries@[d[m].1 as int] == b.entries@[d[m].1 as int]);
            } else {
                assert(d2[m] == (key, idx));
            }
        }
        assert forall|k: u64| #[trigger] self.read_handle(k) is Some implies ({
            let i = self.read_handle(k)->Some_0;
            if self.entries@[i as int]@ is Expunged {
                self.dirty_handle(k) is None
            } else {
                self.dirty_handle(k) == Some(i)
            }
        }) by {
            let i = self.read_handle(k)->Some_0;
            assert(b.read_handle(k) == Some(i));
            assert(k != key);
            lemma_assoc_get_exists(b.read.m@, k);
            assert((i as int) < idx as int);
            assert(self.entries@[i as int] == b.entries@[i as int]);
            assert(self.dirty_handle(k) == b.dirty_handle(k));
        }
        assert forall|k1: u64, k2: u64|
            k1 != k2 && #[trigger] self.handle_of(k1) is Some && #[trigger] self.handle_of(k2)
                is Some implies self.handle_of(k1) != self.handle_of(k2) by {
            if k1 != key && k2 != key {
                assert(self.handle_of(k1) == b.handle_of(k1));
                assert(self.handle_of(k2) == b.handle_of(k2));
            } else if k1 == key {
                assert((b.handle_of(k2)->Some_0 as int) < idx as int);
            } else {
                assert((b.handle_of(k1)->Some_0 as int) < idx as int);
            }
        }
        assert(self.tiers_ok());
        assert(self.wf());
    }

    /// Resurrecting an expunged slot under the lock — republishing it into
    /// the overlay and swapping a value in — inserts exactly that key into
    /// the view: the write is never dropped.
    proof fn lemma_resurrect(self, o: SyncMap<V>, key: u64, i: usize)
        requires
            o.wf(),
            o.read_handle(key) == Some(i),
            o.entries@[i as int]@ is Expunged,
            o.dirty is Some,
            self.read == o.read,
            self.misses == o.misses,
            self.dirty is Some,
            self.dirty->Some_0@ == o.dirty->Some_0@.push((key, i)),
            self.entries@ == o.entries@.update(i as int, self.entries@[i as int]),
            self.entries@[i as int]@ is Live,
        ensures
            self.wf(),
            forall|k: u64| k != key ==> #[trigger] self.spec_get(k) == o.spec_get(k),
            self.spec_get(key) == Some(self.entries@[i as int]@->Live_0),
    {
        let d = o.dirty->Some_0@;
        let d2 = self.dirty->Some_0@;
        assert((i as int) < o.entries@.len()) by {
            lemma_assoc_get_exists(o.read.m@, key);
        }
        assert(o.dirty_handle(key) is None);
        assert(assoc_get(d, key) is None);
        // no overlay row shares the resurrected slot
        assert forall|m: int| 0 <= m < d.len() implies (#[trigger] d[m]).1 != i by {
            if d[m].1 == i {
                lemma_assoc_get_row(d, m);
                let k2 = d[m].0;
                assert(o.dirty_handle(k2) == Some(i));
                assert(k2 != key);
                if o.read_handle(k2) is Some {
                    let i3 = o.read_handle(k2)->Some_0;
                    assert(o.read_handle(k2) matches Some(x) && x == i3);
                    if o.entries@[i3 as int]@ is Expunged {
                        assert(o.dirty_handle(k2) is None);
                    } else {
                        assert(o.dirty_handle(k2) == Some(i3));
                        assert(i3 == i);
                        assert(o.handle_of(k2) == Some(i));
                        assert(o.handle_of(key) == Some(i));
                    }
                } else {
                    assert(o.handle_of(k2) == Some(i));
                    assert(o.handle_of(key) == Some(i));
                }
                assert(false);
            }
        }
        assert forall|k: u64| (#[trigger] assoc_get(d2, k)) == (if k == key {
            Some(i)
        } else {
            assoc_get(d, k)
        }) by {
            lemma_assoc_get_push(d, (key, i), k);
        }
        assert forall|k: u64| (#[trigger] self.handle_of(k)) == o.handle_of(k) by {
            assert(self.read_handle(k) == o.read_handle(k));
        }
        assert forall|k: u64| k != key implies #[trigger] self.spec_get(k) == o.spec_get(k) by {
            match o.handle_of(k) {
                Some(j) => {
                    if o.read_handle(k) is Some {
                        lemma_assoc_get_exists(o.read.m@, k);
                    } else {
                        lemma_assoc_get_exists(d, k);
                    }
                    assert((j as int) < o.entries@.len());
                    assert(j != i);
                    assert(self.entries@[j as int] == o.entries@[j as int]);
                }
                None => {}
            }
        }
        assert(self.spec_get(key) == Some(self.entries@[i as int]@->Live_0));
        // structural soundness
        assert(distinct_keys(d2)) by {
            assert forall|m: int| 0 <= m < d.len() implies (#[trigger] d[m]).0 != key by {
                lemma_assoc_get_row(d, m);
            }
            assert forall|a: int, c: int| 0 <= a < c < d2.len() implies (#[trigger] d2[a]).0 != (
            #[trigger] d2[c]).0 by {
                if c < d.len() {
                    assert(d2[a] == d[a] && d2[c] == d[c]);
                } else {
                    assert(d2[c] == (key, i));
                    assert(d2[a] == d[a]);
                }
            }
        }
        assert forall|m: int| 0 <= m < d2.len() implies (#[trigger] d2[m]).1 < self.entries@.len()
            && !(self.entries@[d2[m].1 as int]@ is Expunged) by {
            if m < d.len() {
                assert(d2[m] == d[m]);
                assert(d[m].1 != i);
                assert(self.entries@[d[m].1 as int] == o.entries@[d[m].1 as int]);
            } else {
                assert(d2[m] == (key, i));
            }
        }
        assert forall|k: u64| #[trigger] self.read_handle(k) is Some implies ({
            let i2 = self.read_handle(k)->Some_0;
            if self.entries@[i2 as int]@ is Expunged {
                self.dirty_handle(k) is None
            } else {
                self.dirty_handle(k) == Some(i2)
            }
        }) by {
            let i2 = self.read_handle(k)->Some_0;
            assert(o.read_handle(k) == Some(i2));
            lemma_assoc_get_exists(o.read.m@, k);
            assert((i2 as int) < o.entries@.len());
            if i2 == i {
                assert(o.handle_of(k) == Some(i));
                assert(o.handle_of(key) == Some(i));
                if k != key {
                    assert(false);
                }
                assert(self.dirty_handle(key) == Some(i));
            } else {
                assert(self.entries@[i2 as int] == o.entries@[i2 as int]);
                assert(self.dirty_handle(k) == o.dirty_handle(k));
            }
        }
        assert forall|k1: u64, k2: u64|
            k1 != k2 && #[trigger] self.handle_of(k1) is Some && #[trigger] self.handle_of(k2)
                is Some implies self.handle_of(k1) != self.handle_of(k2) by {
            assert(self.handle_of(k1) == o.handle_of(k1));
            assert(self.handle_of(k2) == o.handle_of(k2));
        }
        assert(self.tiers_ok());
        assert(self.wf());
    }

    /// Stores a value under a key. A key that resolves to a live slot
    /// through the published snapshot is updated in place, lock-free.
    /// Otherwise the structural lock is taken: a tombstoned snapshot slot is
    /// swapped under the lock (an expunged one is first resurrected and
    /// republished into the dirty overlay); a key in the overlay alone is
    /// swapped there; a key in neither tier is appended to the overlay —
    /// rebuilding the overlay from the snapshot first if this is the first
    /// structural write since the last promotion — and the snapshot becomes
    /// amended.
    pub fn store(&mut self, key: u64, value: V)
        requires
            old(self).wf(),
        ensures
            final(self).wf(),
            final(self)@ == old(self)@.insert(key, value),
            final(self).amended() == (old(self).amended() || !old(self).in_snapshot(key)),
            final(self).spec_misses() == old(self).spec_misses(),
            forall|k: u64| final(self).in_snapshot(k) == old(self).in_snapshot(k),
            old(self).in_snapshot_live(key) ==> final(self).spec_lock_entries() == old(
                self,
            ).spec_lock_entries(),
            !old(self).in_snapshot_live(key) ==> final(self).spec_lock_entries() == sat_inc(
                old(self).spec_lock_entries(),
            ),
    {
        proof {
            lemma_assoc_get_exists(old(self).read.m@, key);
        }
        match assoc_find(&self.read.m, key) {
            Some(i) => {
                let live = self.entries[i].load().is_some();
                if live {
                    // lock-free fast path: in-place swap of the live slot
                    let e = &mut self.entries[i];
                    let _prev = e.try_swap(value);
                    proof {
                        self.lemma_update_at_handle(*old(self), key, i);
                        assert(self@ =~= old(self)@.insert(key, value));
                    }
                } else {
                    // the slot is tombstoned: swap under the structural
                    // lock, resurrecting and republishing it first if it
                    // had been expunged
                    if self.lock_entries < u64::MAX {
                        self.lock_entries = self.lock_entries + 1;
                    }
                    proof {
                        self.lemma_frame(*old(self));
                    }
                    let ghost mid = *self;
                    let was_expunged = {
                        let e = &mut self.entries[i];
                        e.unexpunge_locked()
                    };
                    if was_expunged {
                        match &mut self.dirty {
                            Some(d) => {
                                d.push((key, i));
                            }
                            None => {
                                proof {
                                    assert(mid.read_handle(key) == Some(i));
                                    assert(false);
                                }
                            }
                        }
                    }
                    let e2 = &mut self.entries[i];
                    let _prev = e2.swap_locked(value);
                    proof {
                        assert(self.entries@ =~= mid.entries@.update(
                            i as int,
                            self.entries@[i as int],
                        ));
                        if was_expunged {
                            self.lemma_resurrect(mid, key, i);
                        } else {
                            self.lemma_update_at_handle(mid, key, i);
                        }
                        assert(self@ =~= old(self)@.insert(key, value));
                    }
                }
            }
            None => {
                // the key is absent from the snapshot: structural write
                // under the lock
                if self.lock_entries < u64::MAX {
                    self.lock_entries = self.lock_entries + 1;
                }
                proof {
                    self.lemma_frame(*old(self));
                }
                let ghost mid = *self;
                let dh = match &self.dirty {
                    Some(d) => {
                        proof {
                            lemma_assoc_get_exists(mid.dirty->Some_0@, key);
                        }
                        assoc_find(d, key)
                    }
                    None => None,
                };
                match dh {
                    Some(i) => {
                        // present in the overlay alone: unconditional swap
                        let e = &mut self.entries[i];
                        let _prev = e.swap_locked(value);
                        proof {
                            assert(mid.handle_of(key) == Some(i));
                            self.lemma_update_at_handle(mid, key, i);
                            assert(self@ =~= old(self)@.insert(key, value));
                        }
                    }
                    None => {
                        // a key new to both tiers: make sure the overlay
                        // exists, append a fresh live slot, record the key,
                        // and mark the snapshot amended
                        if self.dirty.is_none() {
                            self.dirty_locked();
                        }
                        let ghost b = *self;
                        proof {
                            assert(b.tiers_ok());
                            assert(b.handle_of(key) is None);
                            assert(b.misses <= b.dirty->Some_0@.len());
                        }
                        let idx = self.entries.len();
                        self.entries.push(Entry::new(value));
                        match &mut self.dirty {
                            Some(d) => {
                                d.push((key, idx));
                            }
                            None => {
                                proof {
                                    assert(false);
                                }
                            }
                        }
                        self.read.amended = true;
                        proof {
                            self.lemma_append_new(b, key, idx);
                            assert forall|k: u64| k != key implies #[trigger] self.spec_get(k)
                                == old(self).spec_get(k) by {
                                assert(b.spec_get(k) == mid.spec_get(k));
                            }
                            assert(self@ =~= old(self)@.insert(key, value));
                        }
                    }
                }
            }
        }
    }

    /// Removes a key's value and returns it. A key that resolves through the
    /// published snapshot is tombstoned in place, lock-free; the tombstone is
    /// dropped from the structure by a later overlay rebuild. A key absent
    /// from an amended snapshot is resolved under the structural lock against
    /// the dirty overlay. A key the map never held returns nothing.
    pub fn delete(&mut self, key: u64) -> (r: Option<V>)
        requires
            old(self).wf(),
        ensures
            final(self).wf(),
            final(self)@ == old(self)@.remove(key),
            r == (if old(self)@.contains_key(key) {
                Some(old(self)@[key])
            } else {
                None::<V>
            }),
            final(self).amended() == old(self).amended(),
            final(self).spec_misses() == old(self).spec_misses(),
            forall|k: u64| final(self).in_snapshot(k) == old(self).in_snapshot(k),
            old(self).in_snapshot(key) || !old(self).amended() ==> final(self).spec_lock_entries()
                == old(self).spec_lock_entries(),
            !old(self).in_snapshot(key) && old(self).amended() ==> final(self).spec_lock_entries()
                == sat_inc(old(self).spec_lock_entries()),
    {
        proof {
            old(self).lemma_view_get(key);
            lemma_assoc_get_exists(old(self).read.m@, key);
            if old(self).dirty is Some {
                lemma_assoc_get_exists(old(self).dirty->Some_0@, key);
            }
        }
        match assoc_find(&self.read.m, key) {
            Some(i) => {
                let e = &mut self.entries[i];
                let r = e.delete();
                proof {
                    self.lemma_update_at_handle(*old(self), key, i);
                    assert(self@ =~= old(self)@.remove(key));
                    assert forall|k: u64| (#[trigger] self.in_snapshot(k)) == old(
                        self,
                    ).in_snapshot(k) by {}
                }
                r
            }
            None => {
                if self.read.amended {
                    if self.lock_entries < u64::MAX {
                        self.lock_entries = self.lock_entries + 1;
                    }
                    proof {
                        self.lemma_frame(*old(self));
                    }
                    let ghost mid = *self;
                    let dh = match &self.dirty {
                        Some(d) => assoc_find(d, key),
                        None => None,
                    };
                    match dh {
                        Some(i) => {
                            let e = &mut self.entries[i];
                            let r = e.delete();
                            proof {
                                assert(mid.handle_of(key) == Some(i));
                                self.lemma_update_at_handle(mid, key, i);
                                assert(self@ =~= old(self)@.remove(key));
                                assert forall|k: u64| (#[trigger] self.in_snapshot(k)) == old(
                                    self,
                                ).in_snapshot(k) by {}
                            }
                            r
                        }
                        None => {
                            proof {
                                assert(old(self).spec_get(key) is None);
                                assert(self@ =~= old(self)@.remove(key));
                            }
                            None
                        }
                    }
                } else {
                    proof {
                        assert(old(self).dirty is None);
                        assert(old(self).spec_get(key) is None);
                        assert(self@ =~= old(self)@.remove(key));
                    }
                    None
                }
            }
        }
    }

    /// Records one miss and, once the misses since the last promotion reach
    /// the dirty overlay's size, promotes: the overlay becomes the new
    /// snapshot (unamended), the overlay reverts to uninitialized and the
    /// miss counter resets. Callable only with the structural lock held.
    fn miss_locked(&mut self)
        requires
            old(self).wf(),
            old(self).dirty is Some,
        ensures
            final(self).wf(),
            final(self)@ == old(self)@,
            final(self).spec_lock_entries() == old(self).spec_lock_entries(),
            old(self).spec_misses() + 1 >= old(self).dirty_size() ==> {
                &&& !final(self).amended()
                &&& final(self).spec_misses() == 0
            },
            old(self).spec_misses() + 1 < old(self).dirty_size() ==> {
                &&& final(self).amended() == old(self).amended()
                &&& final(self).spec_misses() == old(self).spec_misses() + 1
            },
    {
        let dlen = match &self.dirty {
            Some(d) => d.len(),
            None => 0,
        };
        proof {
            assert(old(self).misses < dlen);
        }
        self.misses = self.misses + 1;
        if self.misses >= dlen {
            let mut tmp: Option<Vec<(u64, usize)>> = None;
            core::mem::swap(&mut self.dirty, &mut tmp);
            match tmp {
                Some(d) => {
                    self.read.m = d;
                    self.read.amended = false;
                    self.misses = 0;
                    proof {
                        self.lemma_promote_from(*old(self));
                    }
                }
                None => {
                    proof {
                        assert(false);
                    }
                }
            }
        } else {
            proof {
                self.lemma_frame(*old(self));
            }
        }
    }

    /// What promotion preserves: `o` was well formed with an overlay, `self`
    /// is `o` with the overlay installed as the snapshot, cleared, unamended
    /// and with the miss counter reset.
    proof fn lemma_promote_from(self, o: SyncMap<V>)
        requires
            o.wf(),
            o.dirty is Some,
            self.entries == o.entries,
            self.read.m@ == o.dirty->Some_0@,
            !self.read.amended,
            self.dirty is None,
            self.misses == 0,
            self.lock_entries == o.lock_entries,
        ensures
            self.wf(),
            self@ == o@,
    {
        let d = o.dirty->Some_0@;
        // every key the new snapshot resolves was resolved to the same
        // handle before, through either tier
        assert forall|k: u64| #[trigger] assoc_get(d, k) is Some implies o.handle_of(k)
            == assoc_get(d, k) by {
            if o.read_handle(k) is Some {
                let i2 = o.read_handle(k)->Some_0;
                assert(o.read_handle(k) matches Some(x) && x == i2);
                if o.entries@[i2 as int]@ is Expunged {
                    assert(o.dirty_handle(k) is None);
                    assert(false);
                } else {
                    assert(o.dirty_handle(k) == Some(i2));
                }
            }
        }
        assert forall|k: u64| #[trigger] self.handle_of(k) == assoc_get(d, k) by {
            assert(self.read_handle(k) == assoc_get(d, k));
        }
        // well-formedness of the promoted state
        assert forall|k1: u64, k2: u64|
            k1 != k2 && #[trigger] self.handle_of(k1) is Some && #[trigger] self.handle_of(k2)
                is Some implies self.handle_of(k1) != self.handle_of(k2) by {
            assert(o.handle_of(k1) == self.handle_of(k1));
            assert(o.handle_of(k2) == self.handle_of(k2));
        }
        assert(self.wf());
        // the observable contents are unchanged
        assert forall|k: u64| #[trigger] self.spec_get(k) == o.spec_get(k) by {
            match assoc_get(d, k) {
                Some(i) => {
                    assert(o.handle_of(k) == Some(i));
                }
                None => {
                    match o.read_handle(k) {
                        Some(i2) => {
                            assert(o.read_handle(k) matches Some(x) && x == i2);
                            assert(o.dirty_handle(k) is None);
                            assert(o.entries@[i2 as int]@ is Expunged);
                        }
                        None => {}
                    }
                }
            }
        }
        assert(self@ =~= o@);
    }

    /// A lookup's two-tier resolution, as the engine performs it under the
    /// structural lock: the snapshot first, then the dirty overlay.
    fn resolve(&self, key: u64) -> (r: Option<&V>)
        requires
            self.wf(),
        ensures
            match r {
                Some(v) => self@.contains_key(key) && *v == self@[key],
                None => !self@.contains_key(key),
            },
    {
        proof {
            self.lemma_view_get(key);
            lemma_assoc_get_exists(self.read.m@, key);
            if self.dirty is Some {
                lemma_assoc_get_exists(self.dirty->Some_0@, key);
            }
        }
        match assoc_find(&self.read.m, key) {
            Some(i) => self.entries[i].load(),
            None => {
                match &self.dirty {
                    Some(d) => {
                        match assoc_find(d, key) {
                            Some(i) => self.entries[i].load(),
                            None => None,
                        }
                    }
                    None => None,
                }
            }
        }
    }

    /// Looks a key up. The overwhelming common case — the key is present in
    /// the published snapshot, or absent with the snapshot unamended — never
    /// takes the structural lock and leaves the engine untouched. Otherwise
    /// the lock is taken, the key is re-resolved against the snapshot and the
    /// dirty overlay, a miss is recorded, and reaching the miss threshold
    /// promotes the overlay into a fresh snapshot.
    pub fn load(&mut self, key: u64) -> (r: Option<&V>)
        requires
            old(self).wf(),
        ensures
            final(self).wf(),
            final(self)@ == old(self)@,
            match r {
                Some(v) => old(self)@.contains_key(key) && *v == old(self)@[key],
                None => !old(self)@.contains_key(key),
            },
            old(self).in_snapshot(key) || !old(self).amended() ==> *final(self) == *old(self),
            !old(self).in_snapshot(key) && old(self).amended() ==> {
                &&& final(self).spec_lock_entries() == sat_inc(old(self).spec_lock_entries())
                &&& (old(self).spec_misses() + 1 >= old(self).dirty_size() ==> !final(self).amended()
                    && final(self).spec_misses() == 0)
                &&& (old(self).spec_misses() + 1 < old(self).dirty_size() ==> final(self).amended()
                    && final(self).spec_misses() == old(self).spec_misses() + 1)
            },
    {
        proof {
            old(self).lemma_view_get(key);
            lemma_assoc_get_exists(old(self).read.m@, key);
        }
        let in_read = assoc_find(&self.read.m, key).is_some();
        if !in_read && self.read.amended {
            // slow path: take the structural lock, record the miss, then
            // re-resolve against snapshot and overlay
            if self.lock_entries < u64::MAX {
                self.lock_entries = self.lock_entries + 1;
            }
            proof {
                self.lemma_frame(*old(self));
            }
            self.miss_locked();
            proof {
                self.lemma_view_get(key);
            }
            self.resolve(key)
        } else {
            match assoc_find(&self.read.m, key) {
                Some(i) => self.entries[i].load(),
                None => None,
            }
        }
    }
}

/// Linear scan of an association list, front first.
fn assoc_find(m: &Vec<(u64, usize)>, key: u64) -> (r: Option<usize>)
    ensures
        r == assoc_get(m@, key),
{
    let mut idx: usize = 0;
    proof {
        assert(m@.subrange(0, m@.len() as int) =~= m@);
    }
    while idx < m.len()
        invariant
            idx <= m@.len(),
            assoc_get(m@, key) == assoc_get(m@.subrange(idx as int, m@.len() as int), key),
        decreases m@.len() - idx,
    {
        let pair = m[idx];
        if pair.0 == key {
            return Some(pair.1);
        }
        proof {
            let s = m@.subrange(idx as int, m@.len() as int);
            assert(s.subrange(1, s.len() as int) =~= m@.subrange(
                idx as int + 1,
                m@.len() as int,
            ));
        }
        idx += 1;
    }
    None
}

} // verus!

