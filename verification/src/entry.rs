//! The single-slot value container: owns at most one live value and exposes
//! the state transitions that the map engine relies on.

use vstd::prelude::*;

verus! {

/// Lifecycle of a slot. A `Live` slot holds a value. A `SoftDeleted` slot is
/// tombstoned but may still sit in the dirty overlay. An `Expunged` slot is
/// tombstoned and guaranteed absent from the dirty overlay until it is
/// resurrected under the structural lock.
pub enum EntryStatus<V> {
    Live(V),
    SoftDeleted,
    Expunged,
}

/// The container of the value: controls the lifetime of the value and is
/// responsible for releasing it.
pub struct Entry<V> {
    state: EntryStatus<V>,
}

impl<V> View for Entry<V> {
    type V = EntryStatus<V>;

    closed spec fn view(&self) -> EntryStatus<V> {
        self.state
    }
}

impl<V> Entry<V> {
    /// Constructs a live entry owning `val`.
    pub fn new(val: V) -> (e: Entry<V>)
        ensures
            e@ == EntryStatus::Live(val),
    {
        Entry { state: EntryStatus::Live(val) }
    }

    /// Constructs an entry holding no value, in the expunged state.
    pub fn new_null_entry() -> (e: Entry<V>)
        ensures
            e@ == EntryStatus::<V>::Expunged,
    {
        Entry { state: EntryStatus::Expunged }
    }

    /// Loads a reference to the value if the entry is live.
    pub fn load(&self) -> (r: Option<&V>)
        ensures
            match r {
                Some(v) => self@ == EntryStatus::Live(*v),
                None => !(self@ is Live),
            },
    {
        match &self.state {
            EntryStatus::Live(v) => Some(v),
            EntryStatus::SoftDeleted => None,
            EntryStatus::Expunged => None,
        }
    }

    /// Swaps `val` into the entry if it is live, returning the previous
    /// value. If the entry is tombstoned (soft-deleted or expunged) the entry
    /// is left unchanged and `val` is handed back, signalling that the caller
    /// must fall back to the locked path.
    pub fn try_swap(&mut self, val: V) -> (r: Option<V>)
        ensures
            old(self)@ matches EntryStatus::Live(prev) ==> {
                &&& final(self)@ == EntryStatus::Live(val)
                &&& r == Some(prev)
            },
            !(old(self)@ is Live) ==> final(self)@ == old(self)@ && r == Some(val),
    {
        match &self.state {
            EntryStatus::Live(_) => {
                let mut tmp = EntryStatus::Live(val);
                core::mem::swap(&mut self.state, &mut tmp);
                match tmp {
                    EntryStatus::Live(prev) => Some(prev),
                    _ => vstd::pervasive::unreached(),
                }
            }
            _ => Some(val),
        }
    }

    /// Ensures that the entry is not marked as expunged; returns whether the
    /// entry was previously expunged.
    ///
    /// Callable only under the structural lock. If the entry was expunged,
    /// the caller must publish it into the dirty overlay before releasing the
    /// lock, preserving the no-expunged-entry-in-the-overlay invariant.
    pub fn unexpunge_locked(&mut self) -> (r: bool)
        ensures
            r == (old(self)@ is Expunged),
            old(self)@ is Expunged ==> final(self)@ == EntryStatus::<V>::SoftDeleted,
            !(old(self)@ is Expunged) ==> final(self)@ == old(self)@,
    {
        match &self.state {
            EntryStatus::Expunged => {
                self.state = EntryStatus::SoftDeleted;
                true
            }
            _ => false,
        }
    }

    /// If the entry is soft-deleted, marks it expunged; callable only while
    /// the structural lock is held and the dirty overlay is being rebuilt,
    /// so that the expunged entry is omitted from the new overlay. Returns
    /// whether the entry holds no value afterwards (and so must be omitted).
    pub fn try_expunge_locked(&mut self) -> (r: bool)
        ensures
            r == !(old(self)@ is Live),
            old(self)@ is SoftDeleted ==> final(self)@ == EntryStatus::<V>::Expunged,
            !(old(self)@ is SoftDeleted) ==> final(self)@ == old(self)@,
    {
        match &self.state {
            EntryStatus::Live(_) => false,
            EntryStatus::SoftDeleted => {
                self.state = EntryStatus::Expunged;
                true
            }
            EntryStatus::Expunged => true,
        }
    }

    /// Tombstones the entry: if it is live, transitions it to soft-deleted
    /// and returns the removed value; otherwise leaves it unchanged. The
    /// tombstone is left in place; the next overlay rebuild expunges it.
    pub fn delete(&mut self) -> (r: Option<V>)
        ensures
            old(self)@ matches EntryStatus::Live(prev) ==> {
                &&& final(self)@ == EntryStatus::<V>::SoftDeleted
                &&& r == Some(prev)
            },
            !(old(self)@ is Live) ==> final(self)@ == old(self)@ && r is None,
    {
        match &self.state {
            EntryStatus::Live(_) => {
                let mut tmp = EntryStatus::SoftDeleted;
                core::mem::swap(&mut self.state, &mut tmp);
                match tmp {
                    EntryStatus::Live(prev) => Some(prev),
                    _ => vstd::pervasive::unreached(),
                }
            }
            _ => None,
        }
    }

    /// Unconditionally swaps `val` into the entry, which must be known not to
    /// be expunged; callable only under the structural lock. Returns the
    /// previous value if there was one.
    pub fn swap_locked(&mut self, val: V) -> (r: Option<V>)
        requires
            !(old(self)@ is Expunged),
        ensures
            final(self)@ == EntryStatus::Live(val),
            old(self)@ matches EntryStatus::Live(prev) ==> r == Some(prev),
            old(self)@ is SoftDeleted ==> r is None,
    {
        let mut tmp = EntryStatus::Live(val);
        core::mem::swap(&mut self.state, &mut tmp);
        match tmp {
            EntryStatus::Live(prev) => Some(prev),
            EntryStatus::SoftDeleted => None,
            EntryStatus::Expunged => vstd::pervasive::unreached(),
        }
    }
}

} // verus!
