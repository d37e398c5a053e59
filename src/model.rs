use vstd::prelude::*;
use vstd::relations::injective_on;
use vstd::set_lib::{lemma_int_range, lemma_len_subset, lemma_map_size, set_int_range};

verus! {

/// One past the largest value a `u32` holds: positions and versions live
/// below it.
pub open spec fn u32_bound() -> nat {
    0x1_0000_0000
}

/// The version a position takes when it is reused: one more, wrapping
/// around at the `u32` bound.
pub open spec fn next_version(v: nat) -> nat {
    if v + 1 < u32_bound() {
        v + 1
    } else {
        0
    }
}

/// What a storage position holds: a value, or the link to the next free
/// position.
pub enum Slot<T> {
    Free(nat),
    Occupied(T),
}

/// The abstract state of a slot map.
pub struct SlotMapModel<T> {
    /// The version and the content of each storage position.
    pub entries: Seq<(nat, Slot<T>)>,
    /// Head of the free list; `entries.len()` when no position is free.
    pub next_free: nat,
    /// Number of occupied positions.
    pub len: nat,
}

impl<T> SlotMapModel<T> {
    /// The state of a map that holds nothing and has no storage.
    pub open spec fn empty() -> SlotMapModel<T> {
        SlotMapModel { entries: Seq::empty(), next_free: 0, len: 0 }
    }

    /// Position `p` exists and holds a value.
    pub open spec fn occupied(self, p: nat) -> bool {
        p < self.entries.len() && self.entries[p as int].1 is Occupied
    }

    /// The version of position `p`.
    pub open spec fn version_at(self, p: nat) -> nat {
        self.entries[p as int].0
    }

    /// The value held at occupied position `p`.
    pub open spec fn value_at(self, p: nat) -> T {
        self.entries[p as int].1->Occupied_0
    }

    /// The next free position linked from free position `p`.
    pub open spec fn link_at(self, p: nat) -> nat {
        self.entries[p as int].1->Free_0
    }

    /// The state with the value at occupied position `p` replaced by `v`.
    pub open spec fn with_value(self, p: nat, v: T) -> SlotMapModel<T> {
        SlotMapModel {
            entries: self.entries.update(p as int, (self.version_at(p), Slot::Occupied(v))),
            ..self
        }
    }

    /// A handle is valid when its position is occupied with its version.
    pub open spec fn valid(self, h: (nat, nat)) -> bool {
        self.occupied(h.0) && self.version_at(h.0) == h.1
    }

    /// The value a handle reaches, if it is valid.
    pub open spec fn lookup(self, h: (nat, nat)) -> Option<T> {
        if self.valid(h) {
            Some(self.value_at(h.0))
        } else {
            None
        }
    }

    /// The handles of the occupied positions at or after `from`, in
    /// increasing position order.
    pub open spec fn handles_from(self, from: nat) -> Seq<(nat, nat)>
        decreases self.entries.len() - from,
    {
        if from >= self.entries.len() {
            Seq::empty()
        } else if self.occupied(from) {
            seq![(from, self.version_at(from))] + self.handles_from(from + 1)
        } else {
            self.handles_from(from + 1)
        }
    }

    /// The set of valid handles.
    pub open spec fn valid_handles(self) -> Set<(nat, nat)> {
        Set::new(|h: (nat, nat)| self.valid(h))
    }

    /// Replacing a stored value leaves the handles unchanged.
    pub proof fn lemma_with_value_handles(self, p: nat, v: T, from: nat)
        requires
            self.occupied(p),
        ensures
            self.with_value(p, v).handles_from(from) == self.handles_from(from),
        decreases self.entries.len() - from,
    {
        let m2 = self.with_value(p, v);
        if from < self.entries.len() {
            self.lemma_with_value_handles(p, v, from + 1);
            assert(m2.occupied(from) == self.occupied(from));
            assert(m2.version_at(from) == self.version_at(from));
        }
    }

    /// Positions that hold no value do not show in the handles from them.
    pub proof fn lemma_handles_skip(self, a: nat, p: nat)
        requires
            a <= p,
            forall|q: nat| a <= q < p ==> !self.occupied(q),
        ensures
            self.handles_from(a) == self.handles_from(p),
        decreases p - a,
    {
        if a < p {
            self.lemma_handles_skip(a + 1, p);
            assert(!self.occupied(a));
        }
    }

    /// The handles from `from` are the valid handles at or after `from`, in
    /// strictly increasing position order.
    pub proof fn lemma_handles_from(self, from: nat)
        ensures
            forall|i: int|
                0 <= i < self.handles_from(from).len() ==> {
                    &&& from <= (#[trigger] self.handles_from(from)[i]).0
                    &&& self.valid(self.handles_from(from)[i])
                },
            forall|i: int, j: int|
                0 <= i < j < self.handles_from(from).len() ==> (#[trigger] self.handles_from(
                    from,
                )[i]).0 < (#[trigger] self.handles_from(from)[j]).0,
            forall|h: (nat, nat)|
                self.valid(h) && from <= h.0 ==> #[trigger] self.handles_from(from).contains(h),
        decreases self.entries.len() - from,
    {
        if from < self.entries.len() {
            self.lemma_handles_from(from + 1);
            let hs = self.handles_from(from);
            let rest = self.handles_from(from + 1);
            if self.occupied(from) {
                let x = (from, self.version_at(from));
                assert(hs == seq![x] + rest);
                assert forall|i: int| 0 < i < hs.len() implies hs[i] == rest[i - 1] by {}
                assert forall|h: (nat, nat)| self.valid(h) && from <= h.0 implies hs.contains(h) by {
                    if h.0 == from {
                        assert(hs[0] == h);
                    } else {
                        assert(rest.contains(h));
                        let k = choose|k: int| 0 <= k < rest.len() && rest[k] == h;
                        assert(hs[k + 1] == h);
                    }
                }
                assert forall|i: int, j: int| 0 <= i < j < hs.len() implies (
                #[trigger] hs[i]).0 < (#[trigger] hs[j]).0 by {
                    assert(hs[j] == rest[j - 1]);
                    if i > 0 {
                        assert(hs[i] == rest[i - 1]);
                    }
                }
            } else {
                assert forall|h: (nat, nat)| self.valid(h) && from <= h.0 implies hs.contains(h) by {
                    assert(rest.contains(h));
                }
            }
        }
    }

    /// `fl` lists the free positions in the order the free list links them,
    /// from `next_free` to the link that ends it (`entries.len()`).
    pub open spec fn free_chain(self, fl: Seq<nat>) -> bool {
        &&& fl.no_duplicates()
        &&& self.next_free == (if fl.len() > 0 { fl[0] } else { self.entries.len() })
        &&& forall|i: int|
            0 <= i < fl.len() ==> {
                &&& #[trigger] fl[i] < self.entries.len()
                &&& self.entries[fl[i] as int].1 is Free
                &&& self.link_at(fl[i]) == (if i + 1 < fl.len() {
                    fl[i + 1]
                } else {
                    self.entries.len()
                })
            }
        &&& forall|p: nat|
            p < self.entries.len() && (#[trigger] self.entries[p as int]).1 is Free ==> fl.contains(p)
        &&& self.len + fl.len() == self.entries.len()
    }

    /// The state's invariant: positions fit in a `u32`, versions are `u32`
    /// values, and the free list links every free position exactly once.
    #[verifier::opaque]
    pub open spec fn wf(self) -> bool {
        &&& self.entries.len() < u32_bound()
        &&& forall|p: int| 0 <= p < self.entries.len() ==> #[trigger] self.entries[p].0 < u32_bound()
        &&& exists|fl: Seq<nat>| self.free_chain(fl)
    }

    /// State and handle after storing `v`: the head of the free list is
    /// reused with its next version, or a new position is appended with
    /// version 0 when no position is free.
    pub open spec fn inserted(self, v: T) -> (SlotMapModel<T>, (nat, nat)) {
        if self.next_free == self.entries.len() {
            (
                SlotMapModel {
                    entries: self.entries.push((0, Slot::Occupied(v))),
                    next_free: self.entries.len() + 1,
                    len: self.len + 1,
                },
                (self.entries.len(), 0),
            )
        } else {
            let p = self.next_free;
            let ver = next_version(self.version_at(p));
            (
                SlotMapModel {
                    entries: self.entries.update(p as int, (ver, Slot::Occupied(v))),
                    next_free: self.link_at(p),
                    len: self.len + 1,
                },
                (p, ver),
            )
        }
    }

    /// State and value after removing what `h` reaches: a valid handle's
    /// position is freed, keeps its version and becomes the head of the
    /// free list; any other handle changes nothing.
    pub open spec fn removed(self, h: (nat, nat)) -> (SlotMapModel<T>, Option<T>) {
        if self.valid(h) {
            (
                SlotMapModel {
                    entries: self.entries.update(
                        h.0 as int,
                        (self.version_at(h.0), Slot::Free(self.next_free)),
                    ),
                    next_free: h.0,
                    len: (self.len - 1) as nat,
                },
                Some(self.value_at(h.0)),
            )
        } else {
            (self, None)
        }
    }
    /// Inserting keeps the invariant, and reuses a free position while one
    /// is left.
    pub proof fn lemma_inserted_wf(self, v: T)
        requires
            self.wf(),
            self.len + 1 < u32_bound(),
        ensures
            self.inserted(v).0.wf(),
            self.entries.len() < u32_bound(),
            self.len <= self.entries.len(),
            self.next_free <= self.entries.len(),
            self.next_free == self.entries.len() <==> self.len == self.entries.len(),
            self.next_free < self.entries.len() ==> {
                &&& self.entries[self.next_free as int].1 is Free
                &&& self.version_at(self.next_free) < u32_bound()
                &&& self.link_at(self.next_free) <= self.entries.len()
            },
    {
        reveal(SlotMapModel::wf);
        let fl = choose|fl: Seq<nat>| self.free_chain(fl);
        let m = self.inserted(v).0;
        if self.next_free == self.entries.len() {
            assert(fl.len() == 0);
            assert(m.free_chain(fl));
        } else {
            let slot = self.next_free;
            assert(fl.len() > 0);
            assert(self.version_at(slot) < u32_bound());
            let fl2 = fl.drop_first();
            assert forall|i: int| 0 <= i < fl2.len() implies fl2[i] != slot by {
                assert(fl2[i] == fl[i + 1]);
            }
            assert forall|p: nat|
                p < m.entries.len() && (#[trigger] m.entries[p as int]).1 is Free
                implies fl2.contains(p) by {
                assert(p != slot);
                assert(self.entries[p as int].1 is Free);
                let k = choose|k: int| 0 <= k < fl.len() && fl[k] == p;
                assert(k != 0);
                assert(fl2[k - 1] == p);
            }
            assert forall|i: int| 0 <= i < fl2.len() implies {
                &&& #[trigger] fl2[i] < m.entries.len()
                &&& m.entries[fl2[i] as int].1 is Free
                &&& m.link_at(fl2[i]) == (if i + 1 < fl2.len() {
                    fl2[i + 1]
                } else {
                    m.entries.len()
                })
            } by {
                assert(fl2[i] == fl[i + 1]);
            }
            assert forall|p: int| 0 <= p < m.entries.len() implies #[trigger] m.entries[p].0
                < u32_bound() by {
                assert(self.entries[p].0 < u32_bound());
            }
            assert(m.free_chain(fl2));
        }
        if self.next_free != self.entries.len() {
            assert(fl.len() > 0);
        } else {
            assert(fl.len() == 0);
        }
    }

    /// Removing keeps the invariant.
    pub proof fn lemma_removed_wf(self, h: (nat, nat))
        requires
            self.wf(),
        ensures
            self.valid(h) ==> self.len > 0,
            self.removed(h).0.wf(),
    {
        reveal(SlotMapModel::wf);
        if self.valid(h) {
            let fl = choose|fl: Seq<nat>| self.free_chain(fl);
            self.lemma_removed_chain(fl, h);
            let m = self.removed(h).0;
            assert forall|p: int| 0 <= p < m.entries.len() implies #[trigger] m.entries[p].0
                < u32_bound() by {
                assert(self.entries[p].0 < u32_bound());
            }
        }
    }

    /// Removing through a valid handle pushes its position on the front of
    /// the free list.
    pub proof fn lemma_removed_chain(self, fl: Seq<nat>, h: (nat, nat))
        requires
            self.free_chain(fl),
            self.valid(h),
        ensures
            self.removed(h).0.free_chain(seq![h.0] + fl),
    {
        let m = self.removed(h).0;
        let fl2 = seq![h.0] + fl;
        assert(!fl.contains(h.0)) by {
            if fl.contains(h.0) {
                let k = choose|k: int| 0 <= k < fl.len() && fl[k] == h.0;
                assert(self.entries[fl[k] as int].1 is Free);
            }
        }
        lemma_push_front_no_dup(fl, h.0);
        lemma_unique_bounded(fl2, self.entries.len());
        self.lemma_removed_links(fl, h);
        self.lemma_removed_covers(fl, h);
    }

    proof fn lemma_removed_links(self, fl: Seq<nat>, h: (nat, nat))
        requires
            self.free_chain(fl),
            self.valid(h),
            !fl.contains(h.0),
        ensures
            ({
                let m = self.removed(h).0;
                let fl2 = seq![h.0] + fl;
                forall|i: int| 0 <= i < fl2.len() ==> {
                    &&& #[trigger] fl2[i] < m.entries.len()
                    &&& m.entries[fl2[i] as int].1 is Free
                    &&& m.link_at(fl2[i]) == (if i + 1 < fl2.len() {
                        fl2[i + 1]
                    } else {
                        m.entries.len()
                    })
                }
            }),
    {
        let m = self.removed(h).0;
        let fl2 = seq![h.0] + fl;
        assert forall|i: int| 0 <= i < fl2.len() implies {
            &&& #[trigger] fl2[i] < m.entries.len()
            &&& m.entries[fl2[i] as int].1 is Free
            &&& m.link_at(fl2[i]) == (if i + 1 < fl2.len() {
                fl2[i + 1]
            } else {
                m.entries.len()
            })
        } by {
            if i > 0 {
                assert(fl2[i] == fl[i - 1]);
                assert(fl.contains(fl[i - 1]));
                if i + 1 < fl2.len() {
                    assert(fl2[i + 1] == fl[i]);
                }
            } else if fl.len() > 0 {
                assert(fl2[1] == fl[0]);
            }
        }
    }

    proof fn lemma_removed_covers(self, fl: Seq<nat>, h: (nat, nat))
        requires
            self.free_chain(fl),
            self.valid(h),
        ensures
            ({
                let m = self.removed(h).0;
                forall|p: nat|
                    p < m.entries.len() && (#[trigger] m.entries[p as int]).1 is Free
                        ==> (seq![h.0] + fl).contains(p)
            }),
    {
        let m = self.removed(h).0;
        let fl2 = seq![h.0] + fl;
        assert forall|p: nat|
            p < m.entries.len() && (#[trigger] m.entries[p as int]).1 is Free
            implies fl2.contains(p) by {
            if p != h.0 {
                assert(self.entries[p as int].1 is Free);
                let k = choose|k: int| 0 <= k < fl.len() && fl[k] == p;
                assert(fl2[k + 1] == p);
            } else {
                assert(fl2[0] == p);
            }
        }
    }
}

/// Replacing an occupied position's value keeps the invariant.
pub proof fn lemma_with_value_wf<T>(m: SlotMapModel<T>, p: nat)
    requires
        m.wf(),
        m.occupied(p),
    ensures
        forall|v: T|
            #![trigger m.entries.update(p as int, (m.version_at(p), Slot::Occupied(v)))]
            m.with_value(p, v).wf(),
{
    reveal(SlotMapModel::wf);
    let fl = choose|fl: Seq<nat>| m.free_chain(fl);
    assert forall|v: T| (#[trigger] m.with_value(p, v)).wf() by {
        let m2 = m.with_value(p, v);
        assert forall|i: int| 0 <= i < fl.len() implies fl[i] != p by {
            assert(m.entries[fl[i] as int].1 is Free);
        }
        assert forall|q: int| 0 <= q < m2.entries.len() implies #[trigger] m2.entries[q].0
            < u32_bound() by {
            assert(m.entries[q].0 < u32_bound());
        }
        assert(m2.free_chain(fl));
    }
}

/// The naturals below `n`.
pub open spec fn nat_range(n: nat) -> Set<nat> {
    Set::new(|p: nat| p < n)
}

/// There are `n` naturals below `n`.
pub proof fn lemma_nat_range(n: nat)
    ensures
        nat_range(n).finite(),
        nat_range(n).len() == n,
{
    lemma_int_range(0, n as int);
    let f = |i: int| i as nat;
    assert(injective_on(f, set_int_range(0, n as int)));
    assert(set_int_range(0, n as int).map(f) =~= nat_range(n)) by {
        assert forall|p: nat| nat_range(n).contains(p) implies set_int_range(0, n as int).map(
            f,
        ).contains(p) by {
            assert(set_int_range(0, n as int).contains(p as int));
            assert(f(p as int) == p);
        }
    }
    lemma_map_size(set_int_range(0, n as int), nat_range(n), f);
}

/// A sequence without duplicates whose elements lie below `n` has at most
/// `n` elements.
proof fn lemma_unique_bounded(fl: Seq<nat>, n: nat)
    requires
        fl.no_duplicates(),
        forall|i: int| 0 <= i < fl.len() ==> #[trigger] fl[i] < n,
    ensures
        fl.len() <= n,
{
    fl.unique_seq_to_set();
    lemma_nat_range(n);
    assert(fl.to_set().subset_of(nat_range(n))) by {
        assert forall|p: nat| fl.to_set().contains(p) implies nat_range(n).contains(p) by {
            let k = choose|k: int| 0 <= k < fl.len() && fl[k] == p;
        }
    }
    lemma_len_subset(fl.to_set(), nat_range(n));
}

/// Putting a new element in front keeps a sequence free of duplicates.
proof fn lemma_push_front_no_dup(fl: Seq<nat>, x: nat)
    requires
        fl.no_duplicates(),
        !fl.contains(x),
    ensures
        (seq![x] + fl).no_duplicates(),
{
    let fl2 = seq![x] + fl;
    assert forall|i: int, j: int| 0 <= i < fl2.len() && 0 <= j < fl2.len() && i != j
        implies fl2[i] != fl2[j] by {
        if i > 0 && j > 0 {
            assert(fl2[i] == fl[i - 1] && fl2[j] == fl[j - 1]);
        } else if i == 0 {
            assert(fl2[j] == fl[j - 1]);
            assert(fl.contains(fl[j - 1]));
        } else {
            assert(fl2[i] == fl[i - 1]);
            assert(fl.contains(fl[i - 1]));
        }
    }
}

} // verus!
