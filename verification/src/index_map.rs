//! The handle cache: a bounded in-memory table of live index handles with a
//! per-slot status, driving closure and reopen decisions.
//!
//! A slot is *Missing* (absent), *Available* (an open handle sits in the
//! table), *Closing* (the handle was dropped so the environment can be
//! reopened at a new map size) or *BeingDeleted* (callers must fail fast).
//! In the running system the table sits behind a readers-writer lock and
//! *Closing* carries a reopen-signal; here the table is the sequential state
//! machine those threads drive, and the signal's payload is the data needed
//! to reinstall the slot.

use vstd::prelude::*;

use crate::assoc::find_u128;
use crate::assoc::has_key;
use crate::assoc::lemma_get_at_index;
use crate::assoc::lemma_get_none_all_indices;
use crate::assoc::lemma_get_push;
use crate::assoc::lemma_get_remove;
use crate::assoc::lemma_get_some_index;
use crate::assoc::spec_get;
use crate::assoc::unique_keys;
use crate::index::Index;
use crate::index::IndexView;

verus! {

/// What a *Closing* slot remembers: which environment to reopen, at which
/// map size, and which closure event this is.
#[derive(Clone, Copy, Debug)]
pub struct ClosingIndex {
    /// Identifier of the index being closed.
    pub uuid: u128,
    /// The map size the environment must be reopened with.
    pub map_size: u64,
    /// Which closure of this slot the payload belongs to.
    pub generation: u64,
}

/// Whether the index is available for use or is forbidden to be handed out.
pub enum IndexStatus {
    /// Not currently in the index map.
    Missing,
    /// Do not hand it out: it is currently being deleted.
    BeingDeleted,
    /// Temporarily do not hand it out: it is being resized or was evicted.
    Closing(ClosingIndex),
    /// The index can be used freely.
    Available(Index),
}

/// Mathematical view of one slot.
pub ghost enum SlotView {
    Missing,
    BeingDeleted,
    Closing { map_size: u64, generation: u64 },
    Available(IndexView),
}

/// What `start_deletion` observed and did.
pub enum StartDeletionOutcome {
    /// The slot is now *BeingDeleted*; the deleter may proceed.
    Started,
    /// The slot is *Closing*: complete the pending closure, then retry.
    BusyReopen(ClosingIndex),
    /// Another deletion of the same index is already in flight.
    AlreadyDeleting,
}

/// The bounded table of slots. Available slots are kept in least-recently-
/// opened order; the other slots record why they cannot be handed out.
pub struct IndexMap {
    available: Vec<(u128, Index)>,
    unavailable: Vec<(u128, Option<ClosingIndex>)>,
    capacity: usize,
    generation: u64,
}

impl IndexMap {
    /// The available slots, oldest first.
    pub closed spec fn avail(self) -> Seq<(u128, Index)> {
        self.available@
    }

    /// The closing and being-deleted slots.
    pub closed spec fn unavail(self) -> Seq<(u128, Option<ClosingIndex>)> {
        self.unavailable@
    }

    /// The soft capacity the available slots respect.
    pub closed spec fn capacity(self) -> int {
        self.capacity as int
    }

    /// The closure-event counter.
    pub closed spec fn generation(self) -> u64 {
        self.generation
    }

    /// How many slots are available.
    pub open spec fn avail_len(self) -> int {
        self.avail().len() as int
    }

    /// The slot evicted when the table is full: the least recently opened.
    pub open spec fn lru_victim(self) -> u128 {
        self.avail()[0].0
    }

    /// The status of the slot of `u`.
    pub open spec fn slot_view(self, u: u128) -> SlotView {
        match spec_get(self.avail(), u) {
            Some(idx) => SlotView::Available(idx@),
            None => match spec_get(self.unavail(), u) {
                Some(Some(ci)) => SlotView::Closing {
                    map_size: ci.map_size,
                    generation: ci.generation,
                },
                Some(None) => SlotView::BeingDeleted,
                None => SlotView::Missing,
            },
        }
    }

    /// Structural invariant: keys are unique, a key is in at most one of the
    /// two tables, the soft capacity is respected, and every stored payload
    /// is about the identifier it is stored under.
    pub open spec fn inv(self) -> bool {
        &&& unique_keys(self.avail())
        &&& unique_keys(self.unavail())
        &&& forall|i: int| 0 <= i < self.avail().len()
            ==> !has_key(self.unavail(), (#[trigger] self.avail()[i]).0)
        &&& self.avail().len() <= self.capacity()
        &&& self.capacity() >= 1
        &&& forall|i: int| 0 <= i < self.avail().len()
            ==> (#[trigger] self.avail()[i]).1@.uuid == self.avail()[i].0
        &&& forall|i: int| 0 <= i < self.unavail().len()
            ==> match (#[trigger] self.unavail()[i]).1 {
                Some(ci) => ci.uuid == self.unavail()[i].0,
                None => true,
            }
    }

    /// How installing a handle changes the table: the slot of `u` becomes
    /// available and, when the table was full, the least recently opened
    /// available slot is closed to make room; nothing else changes.
    pub open spec fn install_effect(pre: IndexMap, post: IndexMap, u: u128, iv: IndexView) -> bool {
        &&& post.slot_view(u) == SlotView::Available(iv)
        &&& post.capacity() == pre.capacity()
        &&& if pre.avail_len() < pre.capacity() {
            &&& post.avail_len() == pre.avail_len() + 1
            &&& forall|w: u128| w != u ==> post.slot_view(w) == pre.slot_view(w)
        } else {
            &&& post.avail_len() == pre.capacity()
            &&& pre.lru_victim() != u
            &&& pre.slot_view(pre.lru_victim()) is Available
            &&& post.slot_view(pre.lru_victim()) == (SlotView::Closing {
                map_size: pre.slot_view(pre.lru_victim())->Available_0.map_size,
                generation: pre.generation(),
            })
            &&& forall|w: u128| w != u && w != pre.lru_victim()
                ==> post.slot_view(w) == pre.slot_view(w)
        }
    }

    /// Moving the available entry at `i` to the unavailable table preserves
    /// the invariant and changes only that slot.
    proof fn lemma_move_to_unavail(
        pre: IndexMap,
        post: IndexMap,
        i: int,
        u: u128,
        o: Option<ClosingIndex>,
    )
        requires
            pre.inv(),
            0 <= i < pre.avail().len(),
            pre.avail()[i].0 == u,
            post.avail() == pre.avail().remove(i),
            post.unavail() == pre.unavail().push((u, o)),
            post.capacity() == pre.capacity(),
            match o {
                Some(ci) => ci.uuid == u,
                None => true,
            },
        ensures
            post.inv(),
            post.slot_view(u) == match o {
                Some(ci) => SlotView::Closing {
                    map_size: ci.map_size,
                    generation: ci.generation,
                },
                None => SlotView::BeingDeleted,
            },
            forall|w: u128| w != u ==> post.slot_view(w) == pre.slot_view(w),
            pre.slot_view(u) == SlotView::Available(pre.avail()[i].1@),
    {
        lemma_get_at_index(pre.avail(), i);
        if has_key(pre.unavail(), u) {
            let j = lemma_get_some_index(pre.unavail(), u);
            assert(pre.avail()[i].0 == u);
            assert(false);
        }
        lemma_get_remove(pre.avail(), i, u);
        lemma_get_push(pre.unavail(), u, o, u);
        assert forall|k: int| 0 <= k < post.avail().len() implies
            (#[trigger] post.avail()[k]).1@.uuid == post.avail()[k].0
                && !has_key(post.unavail(), post.avail()[k].0)
                && post.avail()[k].0 != u by {
            let k2 = if k < i { k } else { k + 1 };
            assert(post.avail()[k] == pre.avail()[k2]);
            assert(pre.avail()[k2].0 != pre.avail()[i].0);
            lemma_get_push(pre.unavail(), u, o, post.avail()[k].0);
        }
        assert forall|w: u128| w != u implies post.slot_view(w) == pre.slot_view(w) by {
            lemma_get_remove(pre.avail(), i, w);
            lemma_get_push(pre.unavail(), u, o, w);
        }
    }

    /// Adding an entry for an absent identifier to the unavailable table
    /// preserves the invariant and changes only that slot.
    proof fn lemma_add_unavail(
        pre: IndexMap,
        post: IndexMap,
        u: u128,
        o: Option<ClosingIndex>,
    )
        requires
            pre.inv(),
            pre.slot_view(u) is Missing,
            post.avail() == pre.avail(),
            post.unavail() == pre.unavail().push((u, o)),
            post.capacity() == pre.capacity(),
            match o {
                Some(ci) => ci.uuid == u,
                None => true,
            },
        ensures
            post.inv(),
            post.slot_view(u) == match o {
                Some(ci) => SlotView::Closing {
                    map_size: ci.map_size,
                    generation: ci.generation,
                },
                None => SlotView::BeingDeleted,
            },
            forall|w: u128| w != u ==> post.slot_view(w) == pre.slot_view(w),
    {
        lemma_get_push(pre.unavail(), u, o, u);
        lemma_get_none_all_indices(pre.avail(), u);
        assert forall|k: int| 0 <= k < post.avail().len() implies
            !has_key(post.unavail(), (#[trigger] post.avail()[k]).0) by {
            assert(post.avail()[k] == pre.avail()[k]);
            lemma_get_push(pre.unavail(), u, o, post.avail()[k].0);
        }
        assert forall|w: u128| w != u implies post.slot_view(w) == pre.slot_view(w) by {
            lemma_get_push(pre.unavail(), u, o, w);
        }
    }

    /// Removing the unavailable entry at `j` preserves the invariant and
    /// makes only that slot missing.
    proof fn lemma_drop_unavail(pre: IndexMap, post: IndexMap, j: int, u: u128)
        requires
            pre.inv(),
            0 <= j < pre.unavail().len(),
            pre.unavail()[j].0 == u,
            post.avail() == pre.avail(),
            post.unavail() == pre.unavail().remove(j),
            post.capacity() == pre.capacity(),
        ensures
            post.inv(),
            post.slot_view(u) is Missing,
            forall|w: u128| w != u ==> post.slot_view(w) == pre.slot_view(w),
    {
        lemma_get_at_index(pre.unavail(), j);
        lemma_get_remove(pre.unavail(), j, u);
        assert forall|k: int| 0 <= k < post.unavail().len() implies
            match (#[trigger] post.unavail()[k]).1 {
                Some(ci) => ci.uuid == post.unavail()[k].0,
                None => true,
            } by {
            let k2 = if k < j { k } else { k + 1 };
            assert(post.unavail()[k] == pre.unavail()[k2]);
        }
        assert forall|k: int| 0 <= k < post.avail().len() implies
            !has_key(post.unavail(), (#[trigger] post.avail()[k]).0) by {
            assert(post.avail()[k] == pre.avail()[k]);
            assert(!has_key(pre.unavail(), pre.avail()[k].0));
            lemma_get_remove(pre.unavail(), j, pre.avail()[k].0);
            if pre.avail()[k].0 == u {
                assert(has_key(pre.unavail(), u));
            }
        }
        assert forall|w: u128| w != u implies post.slot_view(w) == pre.slot_view(w) by {
            lemma_get_remove(pre.unavail(), j, w);
        }
        if spec_get(post.unavail(), u) is Some {
            let k = lemma_get_some_index(post.unavail(), u);
            let k2 = if k < j { k } else { k + 1 };
            assert(post.unavail()[k] == pre.unavail()[k2]);
            assert(false);
        }
        if spec_get(post.avail(), u) is Some {
            let ia = lemma_get_some_index(pre.avail(), u);
            assert(!has_key(pre.unavail(), pre.avail()[ia].0));
            assert(false);
        }
    }

    /// Appending a missing identifier to the available table preserves the
    /// invariant and makes only that slot available.
    proof fn lemma_add_avail(pre: IndexMap, post: IndexMap, u: u128, index: Index)
        requires
            pre.inv(),
            pre.slot_view(u) is Missing,
            pre.avail().len() < pre.capacity(),
            index@.uuid == u,
            post.avail() == pre.avail().push((u, index)),
            post.unavail() == pre.unavail(),
            post.capacity() == pre.capacity(),
        ensures
            post.inv(),
            post.slot_view(u) == SlotView::Available(index@),
            forall|w: u128| w != u ==> post.slot_view(w) == pre.slot_view(w),
    {
        lemma_get_push(pre.avail(), u, index, u);
        assert forall|k: int| 0 <= k < post.avail().len() implies
            (#[trigger] post.avail()[k]).1@.uuid == post.avail()[k].0
                && !has_key(post.unavail(), post.avail()[k].0) by {
            if k < pre.avail().len() {
                assert(post.avail()[k] == pre.avail()[k]);
            } else {
                assert(post.avail()[k] == (u, index));
            }
        }
        assert forall|w: u128| w != u implies post.slot_view(w) == pre.slot_view(w) by {
            lemma_get_push(pre.avail(), u, index, w);
        }
    }

    /// An empty table with the given soft capacity.
    pub fn new(index_count: usize) -> (r: IndexMap)
        requires
            index_count >= 1,
        ensures
            r.inv(),
            r.capacity() == index_count,
            r.avail_len() == 0,
            forall|u: u128| #[trigger] r.slot_view(u) is Missing,
    {
        IndexMap {
            available: Vec::new(),
            unavailable: Vec::new(),
            capacity: index_count,
            generation: 0,
        }
    }

    /// The status of the slot of `uuid`; an available handle is handed out
    /// as a second handle to the same environment.
    pub fn get(&self, uuid: u128) -> (r: IndexStatus)
        requires
            self.inv(),
        ensures
            match r {
                IndexStatus::Missing => self.slot_view(uuid) is Missing,
                IndexStatus::BeingDeleted => self.slot_view(uuid) is BeingDeleted,
                IndexStatus::Closing(ci) => ci.uuid == uuid
                    && self.slot_view(uuid) == (SlotView::Closing {
                        map_size: ci.map_size,
                        generation: ci.generation,
                    }),
                IndexStatus::Available(idx) => idx@.uuid == uuid
                    && self.slot_view(uuid) == SlotView::Available(idx@),
            },
    {
        match find_u128(&self.available, uuid) {
            Some(i) => {
                proof {
                    assert(self.avail()[i as int].1@.uuid == uuid);
                }
                IndexStatus::Available(self.available[i].1.duplicate())
            },
            None => match find_u128(&self.unavailable, uuid) {
                Some(j) => match self.unavailable[j].1 {
                    Some(ci) => IndexStatus::Closing(ci),
                    None => IndexStatus::BeingDeleted,
                },
                None => IndexStatus::Missing,
            },
        }
    }

    /// Put `(uuid, index)` into the available table, evicting the least
    /// recently opened slot when the table is full.
    fn insert_available(&mut self, uuid: u128, index: Index)
        requires
            old(self).inv(),
            old(self).slot_view(uuid) is Missing,
            index@.uuid == uuid,
        ensures
            final(self).inv(),
            Self::install_effect(*old(self), *final(self), uuid, index@),
    {
        let ghost pre = *self;
        if self.available.len() == self.capacity {
            let (vu, vidx) = self.available.remove(0);
            let g = self.generation;
            if self.generation < u64::MAX {
                self.generation = self.generation + 1;
            }
            let ci = ClosingIndex { uuid: vu, map_size: vidx.map_size, generation: g };
            self.unavailable.push((vu, Some(ci)));
            proof {
                Self::lemma_move_to_unavail(pre, *self, 0, vu, Some(ci));
                lemma_get_none_all_indices(pre.avail(), uuid);
            }
        }
        let ghost mid = *self;
        proof {
            if pre.avail_len() == pre.capacity() {
                assert(mid.slot_view(uuid) is Missing);
            }
        }
        self.available.push((uuid, index));
        proof {
            Self::lemma_add_avail(mid, *self, uuid, index);
            if pre.avail_len() >= pre.capacity() {
                lemma_get_at_index(pre.avail(), 0);
            }
        }
    }

    /// Install a freshly opened environment under `uuid`. The slot must be
    /// missing; a full table evicts its least recently opened slot.
    pub fn create(&mut self, uuid: u128, index: Index) -> (r: Index)
        requires
            old(self).inv(),
            old(self).slot_view(uuid) is Missing,
            index@.uuid == uuid,
        ensures
            final(self).inv(),
            r@ == index@,
            Self::install_effect(*old(self), *final(self), uuid, index@),
    {
        let handle = index.duplicate();
        self.insert_available(uuid, index);
        handle
    }

    /// Drop the handle of an available slot so that the environment can be
    /// reopened `growth` bytes larger; the slot transitions to *Closing*.
    pub fn close_for_resize(&mut self, uuid: u128, growth: u64)
        requires
            old(self).inv(),
            old(self).slot_view(uuid) is Available,
            old(self).slot_view(uuid)->Available_0.map_size + growth <= u64::MAX,
        ensures
            final(self).inv(),
            final(self).slot_view(uuid) == (SlotView::Closing {
                map_size: (old(self).slot_view(uuid)->Available_0.map_size + growth) as u64,
                generation: old(self).generation(),
            }),
            forall|w: u128| w != uuid
                ==> final(self).slot_view(w) == old(self).slot_view(w),
            final(self).avail_len() == old(self).avail_len() - 1,
            final(self).capacity() == old(self).capacity(),
    {
        let ghost pre = *self;
        let i = match find_u128(&self.available, uuid) {
            Some(i) => i,
            None => {
                proof {
                    assert(false);
                }
                0
            },
        };
        proof {
            lemma_get_at_index(pre.avail(), i as int);
        }
        let (ku, idx) = self.available.remove(i);
        let g = self.generation;
        if self.generation < u64::MAX {
            self.generation = self.generation + 1;
        }
        let ci = ClosingIndex { uuid, map_size: idx.map_size + growth, generation: g };
        self.unavailable.push((uuid, Some(ci)));
        proof {
            Self::lemma_move_to_unavail(pre, *self, i as int, uuid, Some(ci));
        }
    }

    /// Reinstall a closed environment, reopened at the map size its closure
    /// recorded. A full table evicts its least recently opened slot.
    pub fn reopen(&mut self, ci: ClosingIndex, index: Index) -> (r: Index)
        requires
            old(self).inv(),
            old(self).slot_view(ci.uuid) == (SlotView::Closing {
                map_size: ci.map_size,
                generation: ci.generation,
            }),
            index@.uuid == ci.uuid,
            index@.map_size == ci.map_size,
        ensures
            final(self).inv(),
            r@ == index@,
            Self::install_effect(*old(self), *final(self), ci.uuid, index@),
    {
        let ghost pre = *self;
        let j = match find_u128(&self.unavailable, ci.uuid) {
            Some(j) => j,
            None => {
                proof {
                    assert(false);
                }
                0
            },
        };
        let _ = self.unavailable.remove(j);
        proof {
            Self::lemma_drop_unavail(pre, *self, j as int, ci.uuid);
        }
        let ghost mid = *self;
        let handle = index.duplicate();
        self.insert_available(ci.uuid, index);
        proof {
            if pre.avail_len() >= pre.capacity() {
                lemma_get_at_index(pre.avail(), 0);
                assert(mid.slot_view(pre.lru_victim()) == pre.slot_view(pre.lru_victim()));
            }
        }
        handle
    }

    /// Take the slot of `uuid` out of circulation ahead of deletion.
    /// An available or missing slot transitions to *BeingDeleted*; a closing
    /// slot asks the caller to complete the pending closure first; a slot
    /// already being deleted is reported as such.
    pub fn start_deletion(&mut self, uuid: u128) -> (r: StartDeletionOutcome)
        requires
            old(self).inv(),
        ensures
            final(self).inv(),
            final(self).capacity() == old(self).capacity(),
            match old(self).slot_view(uuid) {
                SlotView::Available(_) | SlotView::Missing => {
                    &&& r is Started
                    &&& final(self).slot_view(uuid) is BeingDeleted
                    &&& forall|w: u128| w != uuid
                        ==> final(self).slot_view(w) == old(self).slot_view(w)
                },
                SlotView::Closing { map_size, generation } => {
                    &&& r == StartDeletionOutcome::BusyReopen(ClosingIndex {
                        uuid,
                        map_size,
                        generation,
                    })
                    &&& *final(self) == *old(self)
                },
                SlotView::BeingDeleted => {
                    &&& r is AlreadyDeleting
                    &&& *final(self) == *old(self)
                },
            },
    {
        let ghost pre = *self;
        match find_u128(&self.available, uuid) {
            Some(i) => {
                proof {
                    lemma_get_at_index(pre.avail(), i as int);
                }
                let _ = self.available.remove(i);
                self.unavailable.push((uuid, None));
                proof {
                    Self::lemma_move_to_unavail(pre, *self, i as int, uuid, None);
                }
                StartDeletionOutcome::Started
            },
            None => {
                match find_u128(&self.unavailable, uuid) {
                    Some(j) => match self.unavailable[j].1 {
                        Some(ci) => StartDeletionOutcome::BusyReopen(ci),
                        None => StartDeletionOutcome::AlreadyDeleting,
                    },
                    None => {
                        self.unavailable.push((uuid, None));
                        proof {
                            Self::lemma_add_unavail(pre, *self, uuid, None);
                        }
                        StartDeletionOutcome::Started
                    },
                }
            },
        }
    }

    /// Complete a pending closure without reopening: the closing slot of
    /// `ci` becomes missing. This is what a deleter does to a slot that was
    /// closing when deletion started.
    pub fn complete_close(&mut self, ci: ClosingIndex)
        requires
            old(self).inv(),
            old(self).slot_view(ci.uuid) == (SlotView::Closing {
                map_size: ci.map_size,
                generation: ci.generation,
            }),
        ensures
            final(self).inv(),
            final(self).slot_view(ci.uuid) is Missing,
            forall|w: u128| w != ci.uuid
                ==> final(self).slot_view(w) == old(self).slot_view(w),
            final(self).avail_len() == old(self).avail_len(),
            final(self).capacity() == old(self).capacity(),
    {
        let ghost pre = *self;
        let j = match find_u128(&self.unavailable, ci.uuid) {
            Some(j) => j,
            None => {
                proof {
                    assert(false);
                }
                0
            },
        };
        let _ = self.unavailable.remove(j);
        proof {
            Self::lemma_drop_unavail(pre, *self, j as int, ci.uuid);
        }
    }

    /// The deleter finished: the slot of `uuid` becomes missing again.
    pub fn end_deletion(&mut self, uuid: u128)
        requires
            old(self).inv(),
            old(self).slot_view(uuid) is BeingDeleted,
        ensures
            final(self).inv(),
            final(self).slot_view(uuid) is Missing,
            forall|w: u128| w != uuid
                ==> final(self).slot_view(w) == old(self).slot_view(w),
            final(self).avail_len() == old(self).avail_len(),
            final(self).capacity() == old(self).capacity(),
    {
        let ghost pre = *self;
        let j = match find_u128(&self.unavailable, uuid) {
            Some(j) => j,
            None => {
                proof {
                    assert(false);
                }
                0
            },
        };
        let _ = self.unavailable.remove(j);
        proof {
            Self::lemma_drop_unavail(pre, *self, j as int, uuid);
        }
    }
}

} // verus!
