use vstd::prelude::*;

use crate::index::SlotMapIndex;
use crate::model::{lemma_with_value_wf, next_version, u32_bound, Slot, SlotMapModel};

verus! {

/// Slot map: array storage with persistent indices.
#[derive(Clone, Debug)]
pub struct SlotMapVec<T> {
    // Backing storage.
    entries: Vec<Entry<T>>,
    // Position of the next free slot; equal to the number of entries when
    // no slot is free.
    next_free: usize,
    // Number of values stored.
    len: usize,
}

#[derive(Clone, Debug)]
struct Entry<T> {
    version: u32,
    content: Occupation<T>,
}

#[derive(Clone, Debug)]
enum Occupation<T> {
    Free(usize),
    Occupied(T),
}

/// A walk over the values stored in a `SlotMapVec`, in increasing position
/// order, each with the handle that reaches it.
pub struct Iter<'a, T> {
    map: &'a SlotMapVec<T>,
    curr: usize,
}

/// A walk over the values stored in a `SlotMapVec` that lends each value
/// mutably, in increasing position order, with the handle that reaches it.
pub struct IterMut<'a, T> {
    map: &'a mut SlotMapVec<T>,
    curr: usize,
}

impl<'a, T> Iter<'a, T> {
    /// The state of the map being walked.
    pub closed spec fn model(&self) -> SlotMapModel<T> {
        self.map@
    }

    /// The position the walk resumes from.
    pub closed spec fn position(&self) -> nat {
        self.curr as nat
    }

    /// The walk's invariant: the map is well formed and the position lies
    /// within it.
    pub closed spec fn wf(&self) -> bool {
        self.map.wf() && self.curr <= self.map@.entries.len()
    }

    /// Returns the first stored value at or after the current position, with
    /// its handle, and moves past it; `None` when no value is left.
    pub fn next(&mut self) -> (r: Option<(SlotMapIndex, &'a T)>)
        requires
            old(self).wf(),
        ensures
            final(self).wf(),
            final(self).model() == old(self).model(),
            match r {
                Some((h, v)) => {
                    &&& old(self).position() <= h@.0
                    &&& old(self).model().valid(h@)
                    &&& *v == old(self).model().value_at(h@.0)
                    &&& forall|q: nat|
                        old(self).position() <= q < h@.0 ==> !old(self).model().occupied(q)
                    &&& final(self).position() == h@.0 + 1
                    &&& old(self).model().handles_from(old(self).position()) == seq![h@]
                        + old(self).model().handles_from(final(self).position())
                },
                None => {
                    &&& forall|q: nat| old(self).position() <= q ==> !old(self).model().occupied(q)
                    &&& final(self).position() == old(self).model().entries.len()
                    &&& old(self).model().handles_from(old(self).position()) =~= Seq::empty()
                },
            },
    {
        let map: &'a SlotMapVec<T> = self.map;
        let len = map.entries.len();
        proof {
            reveal(SlotMapModel::wf);
        }
        let mut i = self.curr;
        while i < len
            invariant
                *self == *old(self),
                map == old(self).map,
                len == map@.entries.len(),
                len < u32_bound(),
                map.wf(),
                old(self).curr <= i <= len,
                forall|q: nat| old(self).curr <= q < i ==> !map@.occupied(q),
            decreases len - i,
        {
            let entry: &'a Entry<T> = &map.entries[i];
            if let Occupation::Occupied(value) = &entry.content {
                proof {
                    map@.lemma_handles_skip(old(self).curr as nat, i as nat);
                }
                self.curr = i + 1;
                return Some((SlotMapIndex { slot: i as u32, version: entry.version }, value));
            }
            i = i + 1;
        }
        proof {
            map@.lemma_handles_skip(old(self).curr as nat, len as nat);
        }
        self.curr = len;
        None
    }
}

impl<'a, T> IterMut<'a, T> {
    /// The current state of the map being walked.
    pub closed spec fn model(&self) -> SlotMapModel<T> {
        self.map@
    }

    /// The position the walk resumes from.
    pub closed spec fn position(&self) -> nat {
        self.curr as nat
    }

    /// The walk's invariant: the map is well formed and the position lies
    /// within it.
    pub closed spec fn wf(&self) -> bool {
        self.map.wf() && self.curr <= self.map@.entries.len()
    }

    /// Lends the first stored value at or after the current position, with
    /// its handle, and moves past it; `None` when no value is left.
    pub fn next(&mut self) -> (r: Option<(SlotMapIndex, &mut T)>)
        requires
            old(self).wf(),
        ensures
            final(self).wf(),
            r is Some ==> {
                let (h, v) = r->Some_0;
                &&& old(self).position() <= h@.0
                &&& old(self).model().valid(h@)
                &&& *v == old(self).model().value_at(h@.0)
                &&& forall|q: nat|
                    old(self).position() <= q < h@.0 ==> !old(self).model().occupied(q)
                &&& final(self).position() == h@.0 + 1
                &&& final(self).model() == old(self).model().with_value(h@.0, *final(r->Some_0.1))
                &&& old(self).model().handles_from(old(self).position()) == seq![h@]
                    + final(self).model().handles_from(final(self).position())
            },
            r is None ==> {
                &&& forall|q: nat| old(self).position() <= q ==> !old(self).model().occupied(q)
                &&& final(self).position() == old(self).model().entries.len()
                &&& final(self).model() == old(self).model()
                &&& old(self).model().handles_from(old(self).position()) =~= Seq::empty()
            },
    {
        let len = self.map.entries.len();
        proof {
            reveal(SlotMapModel::wf);
        }
        let mut i = self.curr;
        while i < len
            invariant
                *self == *old(self),
                len == self.map@.entries.len(),
                len < u32_bound(),
                self.map.wf(),
                old(self).curr <= i <= len,
                forall|q: nat| old(self).curr <= q < i ==> !self.map@.occupied(q),
            decreases len - i,
        {
            if let Occupation::Occupied(_) = &self.map.entries[i].content {
                self.curr = i + 1;
                let h = SlotMapIndex { slot: i as u32, version: self.map.entries[i].version };
                let ghost m = self.map@;
                proof {
                    m.lemma_handles_skip(old(self).curr as nat, i as nat);
                    lemma_with_value_wf(m, i as nat);
                    lemma_view_update(self.map.entries@, i as int);
                }
                let v = self.map.entries[i].value_mut();
                proof {
                    assert(m.with_value(i as nat, *final(v)).wf());
                    m.lemma_with_value_handles(i as nat, *final(v), (i + 1) as nat);
                }
                return Some((h, v));
            }
            i = i + 1;
        }
        proof {
            self.map@.lemma_handles_skip(old(self).curr as nat, len as nat);
        }
        self.curr = len;
        None
    }
}

impl<T> Occupation<T> {
    /// The link held by a free slot.
    fn link(&self) -> (r: usize)
        requires
            self is Free,
        ensures
            r == self->Free_0,
    {
        match self {
            Occupation::Free(next) => *next,
            Occupation::Occupied(_) => unreached(),
        }
    }
}

impl<T> Entry<T> {
    /// The value of an occupied entry, to be changed in place.
    fn value_mut(&mut self) -> (r: &mut T)
        requires
            old(self).content is Occupied,
        ensures
            *r == old(self).content->Occupied_0,
            *final(self) == (Entry { version: old(self).version, content: Occupation::Occupied(*final(r)) }),
            final(self).model() == (old(self).version as nat, Slot::Occupied(*final(r))),
    {
        match &mut self.content {
            Occupation::Occupied(obj) => obj,
            Occupation::Free(_) => unreached(),
        }
    }

    spec fn model(self) -> (nat, Slot<T>) {
        (
            self.version as nat,
            match self.content {
                Occupation::Free(n) => Slot::Free(n as nat),
                Occupation::Occupied(v) => Slot::Occupied(v),
            },
        )
    }
}

impl<T> Default for SlotMapVec<T> {
    fn default() -> (r: Self)
        ensures
            r.wf(),
            r@ == SlotMapModel::<T>::empty(),
    {
        SlotMapVec::new()
    }
}

/// Relies on `Vec::capacity`, which is never below the length.
#[verifier::external_body]
fn vec_capacity<E>(v: &Vec<E>) -> (r: usize)
    ensures
        r >= v@.len(),
{
    v.capacity()
}

/// The model of each entry, in order.
spec fn entries_model<T>(entries: Seq<Entry<T>>) -> Seq<(nat, Slot<T>)> {
    entries.map_values(|e: Entry<T>| e.model())
}

/// The view of the entries commutes with replacing one entry.
proof fn lemma_view_update<T>(entries: Seq<Entry<T>>, p: int)
    requires
        0 <= p < entries.len(),
    ensures
        forall|e: Entry<T>|
            entries_model(#[trigger] entries.update(p, e)) == entries_model(entries).update(
                p,
                e.model(),
            ),
{
    assert forall|e: Entry<T>|
        entries_model(#[trigger] entries.update(p, e)) == entries_model(entries).update(
            p,
            e.model(),
        ) by {
        assert(entries_model(entries.update(p, e)) =~= entries_model(entries).update(p, e.model()));
    }
}

impl<T> View for SlotMapVec<T> {
    type V = SlotMapModel<T>;

    closed spec fn view(&self) -> SlotMapModel<T> {
        SlotMapModel {
            entries: entries_model(self.entries@),
            next_free: self.next_free as nat,
            len: self.len as nat,
        }
    }
}

impl<T> SlotMapVec<T> {
    /// The map's invariant.
    pub open spec fn wf(&self) -> bool {
        self@.wf()
    }

    /// Constructs a new, empty `SlotMapVec`. It does not allocate.
    pub fn new() -> (r: SlotMapVec<T>)
        ensures
            r.wf(),
            r@ == SlotMapModel::<T>::empty(),
    {
        SlotMapVec::with_capacity(0)
    }

    /// Constructs a new, empty `SlotMapVec` with room for `capacity` values.
    pub fn with_capacity(capacity: usize) -> (r: SlotMapVec<T>)
        ensures
            r.wf(),
            r@ == SlotMapModel::<T>::empty(),
    {
        let r = SlotMapVec { entries: Vec::with_capacity(capacity), len: 0, next_free: 0 };
        proof {
            reveal(SlotMapModel::wf);
            assert(r@.entries =~= Seq::<(nat, Slot<T>)>::empty());
            assert(r@.free_chain(Seq::<nat>::empty()));
        }
        r
    }

    /// Returns the number of stored values.
    pub fn len(&self) -> (r: usize)
        ensures
            r as nat == self@.len,
    {
        self.len
    }

    /// Returns `true` if no values are stored in the map.
    pub fn is_empty(&self) -> (r: bool)
        ensures
            r == (self@.len == 0),
    {
        self.len == 0
    }

    /// Returns the number of values the map can hold without reallocating.
    pub fn capacity(&self) -> (r: usize)
        ensures
            r >= self@.entries.len(),
    {
        vec_capacity(&self.entries)
    }

    /// Returns a reference to the value that `key` reaches, or `None` when
    /// `key` is out of range, stale, or names a free slot.
    pub fn get(&self, key: SlotMapIndex) -> (r: Option<&T>)
        ensures
            r == (if self@.valid(key@) {
                Some(&self@.value_at(key@.0))
            } else {
                None
            }),
    {
        let pos = key.slot as usize;
        if pos >= self.entries.len() {
            return None;
        }
        let entry = &self.entries[pos];
        match &entry.content {
            Occupation::Occupied(obj) => {
                if entry.version == key.version {
                    Some(obj)
                } else {
                    None
                }
            },
            Occupation::Free(_) => None,
        }
    }

    /// Returns a mutable reference to the value that `key` reaches, or `None`
    /// when `key` is out of range, stale, or names a free slot.
    pub fn get_mut(&mut self, key: SlotMapIndex) -> (r: Option<&mut T>)
        requires
            old(self).wf(),
        ensures
            r is Some <==> old(self)@.valid(key@),
            r is None ==> final(self)@ == old(self)@,
            r is Some ==> *r->Some_0 == old(self)@.value_at(key@.0),
            r is Some ==> final(self)@ == old(self)@.with_value(key@.0, *final(r->Some_0)),
            final(self).wf(),
    {
        let pos = key.slot as usize;
        if pos >= self.entries.len() {
            return None;
        }
        if self.entries[pos].version != key.version {
            return None;
        }
        if let Occupation::Free(_) = self.entries[pos].content {
            return None;
        }
        proof {
            lemma_with_value_wf(old(self)@, pos as nat);
            lemma_view_update(self.entries@, pos as int);
        }
        Some(self.entries[pos].value_mut())
    }

    /// Returns `true` when `key` reaches a value.
    pub fn contains(&self, key: SlotMapIndex) -> (r: bool)
        ensures
            r == self@.valid(key@),
    {
        let pos = key.slot as usize;
        if pos >= self.entries.len() {
            return false;
        }
        let entry = &self.entries[pos];
        match &entry.content {
            Occupation::Occupied(_) => entry.version == key.version,
            Occupation::Free(_) => false,
        }
    }

    /// Returns a reference to the value that `key` reaches; the caller
    /// guarantees that `key` is valid.
    pub fn index(&self, key: SlotMapIndex) -> (r: &T)
        requires
            self@.valid(key@),
        ensures
            *r == self@.value_at(key@.0),
    {
        match &self.entries[key.slot as usize].content {
            Occupation::Occupied(obj) => obj,
            Occupation::Free(_) => unreached(),
        }
    }

    /// Returns a mutable reference to the value that `key` reaches; the
    /// caller guarantees that `key` is valid.
    pub fn index_mut(&mut self, key: SlotMapIndex) -> (r: &mut T)
        requires
            old(self).wf(),
            old(self)@.valid(key@),
        ensures
            *r == old(self)@.value_at(key@.0),
            final(self)@ == old(self)@.with_value(key@.0, *final(r)),
            final(self).wf(),
    {
        proof {
            lemma_with_value_wf(old(self)@, key@.0);
            lemma_view_update(self.entries@, key@.0 as int);
        }
        self.entries[key.slot as usize].value_mut()
    }

    /// Starts a walk over the stored values from the first position.
    pub fn iter(&self) -> (r: Iter<'_, T>)
        requires
            self.wf(),
        ensures
            r.wf(),
            r.model() == self@,
            r.position() == 0,
    {
        Iter { map: self, curr: 0 }
    }

    /// Starts a walk that lends the stored values mutably, from the first
    /// position.
    pub fn iter_mut(&mut self) -> (r: IterMut<'_, T>)
        requires
            old(self).wf(),
        ensures
            r.wf(),
            r.model() == old(self)@,
            r.position() == 0,
    {
        IterMut { map: self, curr: 0 }
    }

    /// Inserts a value into the map and returns the handle that reaches it.
    ///
    /// The handle refers to this value alone, even after values are removed
    /// and others are stored at the same position. A freed position is
    /// reused before storage grows. The map must hold fewer than `u32::MAX`
    /// values, so that every position fits in a handle.
    pub fn insert(&mut self, val: T) -> (h: SlotMapIndex)
        requires
            old(self).wf(),
            old(self)@.len + 1 < u32_bound(),
        ensures
            final(self).wf(),
            (final(self)@, h@) == old(self)@.inserted(val),
    {
        proof {
            old(self)@.lemma_inserted_wf(val);
        }
        if self.next_free == self.entries.len() {
            let slot = self.next_free;
            self.entries.push(Entry { version: 0, content: Occupation::Occupied(val) });
            self.next_free = self.next_free + 1;
            self.len = self.len + 1;
            proof {
                assert(self@.entries =~= old(self)@.entries.push((0, Slot::Occupied(val))));
            }
            SlotMapIndex { slot: slot as u32, version: 0 }
        } else {
            let slot = self.next_free;
            let old_version = self.entries[slot].version;
            let version = if old_version == u32::MAX { 0 } else { old_version + 1 };
            let next = self.entries[slot].content.link();
            proof {
                assert(old(self)@.entries[slot as int] == old(self).entries@[slot as int].model());
                assert(version as nat == next_version(old(self)@.version_at(slot as nat)));
                assert(next as nat == old(self)@.link_at(slot as nat));
            }
            self.entries.set(slot, Entry { version: version, content: Occupation::Occupied(val) });
            self.next_free = next;
            self.len = self.len + 1;
            proof {
                assert(self@.entries =~= old(self)@.entries.update(
                    slot as int,
                    (version as nat, Slot::Occupied(val)),
                ));
            }
            SlotMapIndex { slot: slot as u32, version: version }
        }
    }

    /// Removes and returns the value that `key` reaches.
    ///
    /// Returns `None`, changing nothing, when `key` is out of range, stale,
    /// or names a free slot.
    pub fn remove(&mut self, key: SlotMapIndex) -> (r: Option<T>)
        requires
            old(self).wf(),
        ensures
            final(self).wf(),
            (final(self)@, r) == old(self)@.removed(key@),
    {
        let pos = key.slot as usize;
        if pos >= self.entries.len() {
            return None;
        }
        if self.entries[pos].version != key.version {
            return None;
        }
        if let Occupation::Free(_) = self.entries[pos].content {
            return None;
        }
        proof {
            old(self)@.lemma_removed_wf(key@);
        }
        let mut entry = Entry { version: key.version, content: Occupation::Free(self.next_free) };
        self.entries.set_and_swap(pos, &mut entry);
        self.next_free = pos;
        self.len = self.len - 1;
        proof {
            assert(self@.entries =~= old(self)@.entries.update(
                pos as int,
                (old(self)@.version_at(pos as nat), Slot::Free(old(self)@.next_free)),
            ));
        }
        match entry.content {
            Occupation::Occupied(v) => Some(v),
            Occupation::Free(_) => unreached(),
        }
    }
}

} // verus!
