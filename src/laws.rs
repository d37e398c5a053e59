//! Properties that hold across operations of a slot map, stated over its
//! model. `SlotMapVec`'s operations are tied to the model by their
//! contracts, so each property holds of them too.
use vstd::prelude::*;
use vstd::relations::injective_on;
use vstd::set_lib::{lemma_len_subset, lemma_map_size, lemma_set_difference_len};

use crate::model::{lemma_nat_range, nat_range, next_version, u32_bound, SlotMapModel};

verus! {

/// Storing a value and then looking up the handle returned gives the value.
pub proof fn lemma_insert_then_get<T>(m: SlotMapModel<T>, v: T)
    requires
        m.wf(),
        m.len + 1 < u32_bound(),
    ensures
        ({
            let (m2, h) = m.inserted(v);
            m2.lookup(h) == Some(v)
        }),
{
    m.lemma_inserted_wf(v);
}

/// Once a handle's value is removed, the handle reaches nothing, and
/// removing through it again returns nothing and changes nothing.
pub proof fn lemma_removed_is_gone<T>(m: SlotMapModel<T>, h: (nat, nat))
    requires
        m.valid(h),
    ensures
        ({
            let m2 = m.removed(h).0;
            &&& !m2.valid(h)
            &&& m2.lookup(h) is None
            &&& m2.removed(h) == (m2, None::<T>)
        }),
{
}

/// Storage grows only when no position is free: a removal keeps its
/// length, and an insertion appends a position only when every position is
/// occupied.
pub proof fn lemma_growth_only_when_full<T>(m: SlotMapModel<T>, v: T, h: (nat, nat))
    requires
        m.wf(),
        m.len + 1 < u32_bound(),
    ensures
        m.removed(h).0.entries.len() == m.entries.len(),
        m.inserted(v).0.entries.len() == if m.len < m.entries.len() {
            m.entries.len()
        } else {
            m.entries.len() + 1
        },
{
    m.lemma_inserted_wf(v);
}

/// Inserting each of `vs` in turn, from the first.
pub open spec fn inserted_all<T>(m: SlotMapModel<T>, vs: Seq<T>) -> SlotMapModel<T>
    decreases vs.len(),
{
    if vs.len() == 0 {
        m
    } else {
        inserted_all(m.inserted(vs[0]).0, vs.drop_first())
    }
}

/// After any run of insertions, storage is as long as it was, or as the
/// number of stored values, whichever is larger: freed positions are all
/// reused before storage grows.
pub proof fn lemma_inserted_all_reuses<T>(m: SlotMapModel<T>, vs: Seq<T>)
    requires
        m.wf(),
        m.len + vs.len() < u32_bound(),
    ensures
        inserted_all(m, vs).wf(),
        inserted_all(m, vs).len == m.len + vs.len(),
        inserted_all(m, vs).entries.len() == if m.entries.len() >= m.len + vs.len() {
            m.entries.len()
        } else {
            m.len + vs.len()
        },
    decreases vs.len(),
{
    if vs.len() > 0 {
        m.lemma_inserted_wf(vs[0]);
        lemma_inserted_all_reuses(m.inserted(vs[0]).0, vs.drop_first());
    } else {
        reveal(SlotMapModel::wf);
        let fl = choose|fl: Seq<nat>| m.free_chain(fl);
    }
}

/// The stored count equals the number of valid handles.
pub proof fn lemma_len_counts_valid_handles<T>(m: SlotMapModel<T>)
    requires
        m.wf(),
    ensures
        m.valid_handles().finite(),
        m.valid_handles().len() == m.len,
{
    reveal(SlotMapModel::wf);
    let fl = choose|fl: Seq<nat>| m.free_chain(fl);
    let n = m.entries.len();
    let free = fl.to_set();
    let occ = nat_range(n).difference(free);
    lemma_nat_range(n);
    fl.unique_seq_to_set();
    assert(free.subset_of(nat_range(n))) by {
        assert forall|p: nat| free.contains(p) implies nat_range(n).contains(p) by {
            let k = choose|k: int| 0 <= k < fl.len() && fl[k] == p;
        }
    }
    lemma_len_subset(free, nat_range(n));
    lemma_set_difference_len(nat_range(n), free);
    assert(nat_range(n).intersect(free) =~= free);
    assert(occ.len() == m.len);
    assert forall|p: nat| occ.contains(p) <==> m.occupied(p) by {
        if m.occupied(p) && free.contains(p) {
            let k = choose|k: int| 0 <= k < fl.len() && fl[k] == p;
            assert(m.entries[fl[k] as int].1 is Free);
        }
        if p < n && !m.occupied(p) {
            assert(m.entries[p as int].1 is Free);
        }
    }
    let f = |p: nat| (p, m.version_at(p));
    assert(injective_on(f, occ));
    assert(occ.map(f) =~= m.valid_handles()) by {
        assert forall|h: (nat, nat)| m.valid_handles().contains(h) implies occ.map(f).contains(h) by {
            assert(occ.contains(h.0));
            assert(f(h.0) == h);
        }
    }
    lemma_map_size(occ, m.valid_handles(), f);
}

/// Walking from the first position yields each valid handle exactly once,
/// in strictly increasing position order, and nothing else.
pub proof fn lemma_walk_is_complete<T>(m: SlotMapModel<T>)
    ensures
        forall|h: (nat, nat)| m.handles_from(0).contains(h) <==> m.valid(h),
        forall|i: int, j: int|
            0 <= i < j < m.handles_from(0).len() ==> (#[trigger] m.handles_from(0)[i]).0
                < (#[trigger] m.handles_from(0)[j]).0,
        m.handles_from(0).no_duplicates(),
{
    m.lemma_handles_from(0);
    let hs = m.handles_from(0);
    assert forall|h: (nat, nat)| hs.contains(h) implies m.valid(h) by {
        let k = choose|k: int| 0 <= k < hs.len() && hs[k] == h;
    }
    assert forall|i: int, j: int| 0 <= i < hs.len() && 0 <= j < hs.len() && i != j implies hs[i]
        != hs[j] by {
        if i < j {
            assert(hs[i].0 < hs[j].0);
        } else {
            assert(hs[j].0 < hs[i].0);
        }
    }
}

/// Reusing a freed position gives a handle whose version is one more than
/// the position had, so that no handle issued for it before matches again;
/// every other position keeps its version. The one exception is a position
/// whose version has reached the `u32` bound, where it wraps to 0.
pub proof fn lemma_reuse_bumps_version<T>(m: SlotMapModel<T>, v: T)
    requires
        m.wf(),
        m.len + 1 < u32_bound(),
    ensures
        ({
            let (m2, h) = m.inserted(v);
            &&& forall|p: nat|
                p < m.entries.len() && p != h.0 ==> #[trigger] m2.version_at(p) == m.version_at(p)
            &&& m.next_free < m.entries.len() ==> {
                &&& h.0 == m.next_free
                &&& h.1 == next_version(m.version_at(h.0))
            }
            &&& m.next_free < m.entries.len() && m.version_at(h.0) + 1 < u32_bound() ==> {
                &&& h.1 > m.version_at(h.0)
                &&& forall|g: (nat, nat)|
                    g.0 == h.0 && g.1 <= m.version_at(h.0) ==> !#[trigger] m2.valid(g)
            }
        }),
{
    m.lemma_inserted_wf(v);
}

} // verus!
