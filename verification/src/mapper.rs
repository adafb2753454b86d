//! The lifecycle manager: it owns the name registry (name to identifier),
//! the stats cache (identifier to statistics), the on-disk environments
//! (identifier to stored data) and the handle cache, and keeps the four
//! mutually consistent across create, open, resize, swap and delete.
//!
//! In the running system the registry and the stats live in a transactional
//! store and the environments on disk; those collaborators are out of scope
//! here, so the manager holds their state directly and the surrounding
//! program mirrors its transitions onto the real disk.

use vstd::prelude::*;

use crate::assoc::find_name;
use crate::assoc::find_u128;
use crate::assoc::keys_of;
use crate::assoc::lemma_get_at_index;
use crate::assoc::lemma_get_insert;
use crate::assoc::lemma_get_none_all_indices;
use crate::assoc::lemma_get_push;
use crate::assoc::lemma_get_remove;
use crate::assoc::lemma_get_some_index;
use crate::assoc::lemma_get_update;
use crate::assoc::spec_get;
use crate::assoc::unique_keys;
use crate::index::distribution_wf;
use crate::index::Index;
use crate::index::IndexStats;
use crate::index::IndexStatsView;
use crate::index::IndexView;
use crate::index::IndexerConfig;
use crate::index_map::IndexMap;
use crate::order::lemma_name_lt_total;
use crate::order::lemma_name_lt_trans;
use crate::order::name_lt;
use crate::order::sorted_by_name;
use crate::order::str_lt;
use crate::index_map::SlotView;
use crate::Error;

verus! {

/// Two environment views holding the same data, whatever map size each was
/// opened with.
pub open spec fn content_eq(a: IndexView, b: IndexView) -> bool {
    &&& a.uuid == b.uuid
    &&& a.number_of_documents == b.number_of_documents
    &&& a.database_size == b.database_size
    &&& a.field_distribution == b.field_distribution
    &&& a.created_at == b.created_at
    &&& a.updated_at == b.updated_at
}

/// Structure managing the indexes of the engine.
///
/// It is responsible for creating new indexes, opening indexes and keeping
/// handles to them, and mapping each user-defined name to an index
/// identifier. An index exists as three bits of data that every operation
/// keeps consistent: its data on disk, the persistent binding from its name
/// to its identifier, and the state of its slot in the handle cache.
pub struct IndexMapper {
    /// Keeps track of the opened indexes and their slot status.
    index_map: IndexMap,
    /// Binds each index name to the identifier of its data.
    index_mapping: Vec<(String, u128)>,
    /// Caches, per identifier, the statistics of the index.
    index_stats: Vec<(u128, IndexStats)>,
    /// The stored environments: one per identifier whose directory exists.
    disk: Vec<(u128, Index)>,
    /// The map size an index is opened with the first time.
    index_base_map_size: u64,
    /// How much the map size grows on each resize, in bytes.
    index_growth_amount: u64,
    /// Whether environments are opened with the write-map optimisation.
    enable_mdb_writemap: bool,
    /// Configuration handed to the external indexing engine.
    indexer_config: IndexerConfig,
}

impl IndexMapper {
    /// The name registry as a sequence of (name, identifier) bindings.
    pub closed spec fn mapping(self) -> Seq<(Seq<char>, u128)> {
        self.index_mapping@.map_values(|p: (String, u128)| (p.0@, p.1))
    }

    /// The identifier a name is bound to, if any.
    pub open spec fn resolve(self, name: Seq<char>) -> Option<u128> {
        spec_get(self.mapping(), name)
    }

    /// The registered names, in registry order.
    pub open spec fn names(self) -> Seq<Seq<char>> {
        keys_of(self.mapping())
    }

    /// The stats table.
    pub closed spec fn stats_raw(self) -> Seq<(u128, IndexStats)> {
        self.index_stats@
    }

    /// The cached statistics of an identifier, if any.
    pub open spec fn stats_view(self, u: u128) -> Option<IndexStatsView> {
        match spec_get(self.stats_raw(), u) {
            Some(s) => Some(s@),
            None => None,
        }
    }

    /// The stored environments.
    pub closed spec fn disk_raw(self) -> Seq<(u128, Index)> {
        self.disk@
    }

    /// The environment stored for an identifier, if its directory exists.
    pub open spec fn on_disk(self, u: u128) -> Option<IndexView> {
        match spec_get(self.disk_raw(), u) {
            Some(i) => Some(i@),
            None => None,
        }
    }

    /// The handle cache.
    pub closed spec fn cache(self) -> IndexMap {
        self.index_map
    }

    /// The slot status of an identifier.
    pub open spec fn slot(self, u: u128) -> SlotView {
        self.cache().slot_view(u)
    }

    /// The map size an index is opened with the first time.
    pub closed spec fn base_map_size(self) -> u64 {
        self.index_base_map_size
    }

    /// How much the map size grows on each resize.
    pub closed spec fn growth_amount(self) -> u64 {
        self.index_growth_amount
    }

    /// Whether environments are opened with the write-map optimisation.
    pub closed spec fn writemap_enabled(self) -> bool {
        self.enable_mdb_writemap
    }

    /// The configuration handed to the external indexing engine.
    pub closed spec fn config(self) -> IndexerConfig {
        self.indexer_config
    }

    /// Whether some name is bound to identifier `u`.
    pub open spec fn bound_to(self, u: u128) -> bool {
        exists|i: int|
            0 <= i < self.mapping().len() && (#[trigger] self.mapping()[i]).1 == u
    }

    /// The invariant every operation preserves:
    /// - names and identifiers are bound uniquely, statistics and
    ///   environments are keyed uniquely;
    /// - every available or closing slot belongs to a bound identifier, and
    ///   no bound identifier is being deleted;
    /// - a directory exists exactly for the bound identifiers and those
    ///   whose deletion is in flight;
    /// - an available handle holds the data its environment stores.
    pub open spec fn wf(self) -> bool {
        &&& self.cache().inv()
        &&& unique_keys(self.mapping())
        &&& unique_keys(self.stats_raw())
        &&& unique_keys(self.disk_raw())
        &&& forall|i: int, j: int|
            0 <= i < j < self.mapping().len()
                ==> (#[trigger] self.mapping()[i]).1 != (#[trigger] self.mapping()[j]).1
        &&& forall|i: int| 0 <= i < self.disk_raw().len()
            ==> (#[trigger] self.disk_raw()[i]).1@.uuid == self.disk_raw()[i].0
        &&& forall|u: u128|
            (#[trigger] self.slot(u)) is Available || self.slot(u) is Closing
                ==> self.bound_to(u)
        &&& forall|u: u128| self.bound_to(u) ==> !((#[trigger] self.slot(u)) is BeingDeleted)
        &&& forall|u: u128|
            (#[trigger] self.on_disk(u)) is Some
                <==> (self.bound_to(u) || self.slot(u) is BeingDeleted)
        &&& forall|u: u128|
            (#[trigger] self.slot(u)) is Available
                ==> self.on_disk(u) is Some
                    && content_eq(self.slot(u)->Available_0, self.on_disk(u)->Some_0)
        &&& sorted_by_name(self.mapping())
        &&& forall|i: int| 0 <= i < self.stats_raw().len()
            ==> distribution_wf((#[trigger] self.stats_raw()[i]).1@.field_distribution)
        &&& forall|i: int| 0 <= i < self.disk_raw().len()
            ==> distribution_wf((#[trigger] self.disk_raw()[i]).1@.field_distribution)
    }

    /// Equal registries bind the same identifiers.
    proof fn lemma_same_bindings(pre: IndexMapper, post: IndexMapper)
        requires
            post.mapping() == pre.mapping(),
        ensures
            forall|u: u128| #[trigger] post.bound_to(u) == pre.bound_to(u),
    {
        assert forall|u: u128| #[trigger] post.bound_to(u) == pre.bound_to(u) by {
            if pre.bound_to(u) {
                let k = choose|k: int|
                    0 <= k < pre.mapping().len() && (#[trigger] pre.mapping()[k]).1 == u;
                assert(post.mapping()[k].1 == u);
            }
            if post.bound_to(u) {
                let k = choose|k: int|
                    0 <= k < post.mapping().len() && (#[trigger] post.mapping()[k]).1 == u;
                assert(pre.mapping()[k].1 == u);
            }
        }
    }

    /// Well-formedness carries over to a state with the same registry, disk
    /// and cache, whatever happened to the stats table.
    proof fn lemma_wf_same_core(pre: IndexMapper, post: IndexMapper)
        requires
            pre.wf(),
            post.mapping() == pre.mapping(),
            post.disk_raw() == pre.disk_raw(),
            post.cache() == pre.cache(),
            unique_keys(post.stats_raw()),
            forall|i: int| 0 <= i < post.stats_raw().len()
                ==> distribution_wf((#[trigger] post.stats_raw()[i]).1@.field_distribution),
        ensures
            post.wf(),
    {
        Self::lemma_same_bindings(pre, post);
        assert forall|i: int| 0 <= i < post.disk_raw().len() implies
            distribution_wf((#[trigger] post.disk_raw()[i]).1@.field_distribution) by {
            assert(post.disk_raw()[i] == pre.disk_raw()[i]);
        }
        assert forall|u: u128|
            (#[trigger] post.slot(u)) is Available || post.slot(u) is Closing implies
            post.bound_to(u) by {
            assert(post.slot(u) == pre.slot(u));
            assert(post.bound_to(u) == pre.bound_to(u));
        }
        assert forall|u: u128| post.bound_to(u) implies
            !((#[trigger] post.slot(u)) is BeingDeleted) by {
            assert(post.slot(u) == pre.slot(u));
            assert(post.bound_to(u) == pre.bound_to(u));
        }
        assert forall|u: u128| true implies
            ((#[trigger] post.on_disk(u)) is Some
                <==> (post.bound_to(u) || post.slot(u) is BeingDeleted)) by {
            assert(post.on_disk(u) == pre.on_disk(u));
            assert(post.slot(u) == pre.slot(u));
            assert(post.bound_to(u) == pre.bound_to(u));
        }
        assert forall|u: u128| (#[trigger] post.slot(u)) is Available implies
            post.on_disk(u) is Some
                && content_eq(post.slot(u)->Available_0, post.on_disk(u)->Some_0) by {
            assert(post.on_disk(u) == pre.on_disk(u));
            assert(post.slot(u) == pre.slot(u));
        }
    }

    /// A manager with no index: empty registry, empty stats, empty disk,
    /// empty cache of capacity `index_count`.
    pub fn new(
        index_base_map_size: u64,
        index_growth_amount: u64,
        index_count: usize,
        enable_mdb_writemap: bool,
        indexer_config: IndexerConfig,
    ) -> (r: IndexMapper)
        requires
            index_count >= 1,
        ensures
            r.wf(),
            r.mapping().len() == 0,
            r.stats_raw().len() == 0,
            r.disk_raw().len() == 0,
            forall|u: u128| #[trigger] r.slot(u) is Missing,
            r.base_map_size() == index_base_map_size,
            r.growth_amount() == index_growth_amount,
            r.writemap_enabled() == enable_mdb_writemap,
            r.config() == indexer_config,
            r.cache().capacity() == index_count,
    {
        let r = IndexMapper {
            index_map: IndexMap::new(index_count),
            index_mapping: Vec::new(),
            index_stats: Vec::new(),
            disk: Vec::new(),
            index_base_map_size,
            index_growth_amount,
            enable_mdb_writemap,
            indexer_config,
        };
        proof {
            assert(r.mapping() =~= Seq::<(Seq<char>, u128)>::empty());
        }
        r
    }

    /// The configuration handed to the external indexing engine: the one
    /// the manager was constructed with.
    pub fn indexer_config(&self) -> (r: &IndexerConfig)
        ensures
            *r == self.config(),
    {
        &self.indexer_config
    }

    /// Whether `name` is bound to an index.
    pub fn has_index(&self, name: &str) -> (r: bool)
        requires
            self.wf(),
        ensures
            r == (self.resolve(name@) is Some),
    {
        let owned: String = name.to_owned();
        find_name(&self.index_mapping, &owned).is_some()
    }

    /// Whether `name` is bound to an index.
    pub fn index_exists(&self, name: &str) -> (r: bool)
        requires
            self.wf(),
        ensures
            r == (self.resolve(name@) is Some),
    {
        self.has_index(name)
    }

    /// The name of every index, in registry order, without opening any.
    pub fn index_names(&self) -> (r: Vec<String>)
        requires
            self.wf(),
        ensures
            r@.map_values(|s: String| s@) == self.names(),
            forall|i: int| 0 <= i && i + 1 < r@.len()
                ==> name_lt((#[trigger] r@[i])@, r@[i + 1]@),
    {
        let mut r: Vec<String> = Vec::new();
        let mut i: usize = 0;
        while i < self.index_mapping.len()
            invariant
                i <= self.index_mapping@.len(),
                r@.len() == i,
                forall|j: int| 0 <= j < i
                    ==> (#[trigger] r@[j])@ == self.index_mapping@[j].0@,
            decreases self.index_mapping@.len() - i,
        {
            r.push(self.index_mapping[i].0.clone());
            i += 1;
        }
        proof {
            assert(r@.map_values(|s: String| s@) =~= self.names());
            assert forall|i: int| 0 <= i && i + 1 < r@.len() implies
                name_lt((#[trigger] r@[i])@, r@[i + 1]@) by {
                assert(r@.map_values(|s: String| s@)[i] == r@[i]@);
                assert(r@.map_values(|s: String| s@)[i + 1] == r@[i + 1]@);
                assert(self.names()[i] == self.mapping()[i].0);
                assert(self.names()[i + 1] == self.mapping()[i + 1].0);
            }
        }
        r
    }

    /// Swap two index names: after the swap commits, each name is bound to
    /// the identifier the other was bound to, so each name now designates
    /// the other's data, statistics included. Fails with `IndexNotFound` if
    /// either name is unbound (the left one is reported first), in which
    /// case nothing changes.
    pub fn swap(&mut self, lhs: &str, rhs: &str) -> (r: Result<(), Error>)
        requires
            old(self).wf(),
        ensures
            final(self).wf(),
            final(self).stats_raw() == old(self).stats_raw(),
            final(self).disk_raw() == old(self).disk_raw(),
            final(self).cache() == old(self).cache(),
            final(self).base_map_size() == old(self).base_map_size(),
            final(self).growth_amount() == old(self).growth_amount(),
            match r {
                Ok(()) => {
                    &&& old(self).resolve(lhs@) is Some
                    &&& old(self).resolve(rhs@) is Some
                    &&& final(self).resolve(lhs@) == old(self).resolve(rhs@)
                    &&& final(self).resolve(rhs@) == old(self).resolve(lhs@)
                    &&& forall|q: Seq<char>| q != lhs@ && q != rhs@
                        ==> #[trigger] final(self).resolve(q) == old(self).resolve(q)
                    &&& final(self).names() == old(self).names()
                },
                Err(e) => {
                    &&& *final(self) == *old(self)
                    &&& match e {
                        Error::IndexNotFound(n) => (n@ == lhs@
                            && old(self).resolve(lhs@) is None)
                            || (n@ == rhs@ && old(self).resolve(lhs@) is Some
                                && old(self).resolve(rhs@) is None),
                        _ => false,
                    }
                },
            },
    {
        let ghost pre = *self;
        let lhs_owned: String = lhs.to_owned();
        let rhs_owned: String = rhs.to_owned();
        let i = match find_name(&self.index_mapping, &lhs_owned) {
            Some(i) => i,
            None => {
                return Err(Error::IndexNotFound(lhs_owned));
            },
        };
        let j = match find_name(&self.index_mapping, &rhs_owned) {
            Some(j) => j,
            None => {
                return Err(Error::IndexNotFound(rhs_owned));
            },
        };
        let lhs_uuid = self.index_mapping[i].1;
        let rhs_uuid = self.index_mapping[j].1;
        self.index_mapping[i] = (lhs_owned, rhs_uuid);
        let ghost mid = *self;
        proof {
            assert(mid.mapping() =~= pre.mapping().update(i as int, (lhs@, rhs_uuid)));
            lemma_get_update(pre.mapping(), i as int, rhs_uuid, rhs@);
        }
        self.index_mapping[j] = (rhs_owned, lhs_uuid);
        proof {
            assert(self.mapping() =~= mid.mapping().update(j as int, (rhs@, lhs_uuid)));
            assert(mid.mapping()[j as int].0 == rhs@);
            lemma_get_update(mid.mapping(), j as int, lhs_uuid, lhs@);
            if i == j {
                assert(lhs@ == rhs@);
                assert(lhs_uuid == rhs_uuid);
            } else {
                assert(pre.mapping()[i as int].0 == lhs@);
                assert(lhs@ != rhs@);
            }
            assert forall|q: Seq<char>| q != lhs@ && q != rhs@ implies
                #[trigger] self.resolve(q) == pre.resolve(q) by {
                lemma_get_update(pre.mapping(), i as int, rhs_uuid, q);
                lemma_get_update(mid.mapping(), j as int, lhs_uuid, q);
            }
            assert(self.names() =~= pre.names());
            Self::lemma_swap_wf(pre, *self, i as int, j as int, lhs_uuid, rhs_uuid);
        }
        Ok(())
    }

    /// The bookkeeping part of `swap`'s proof: well-formedness survives
    /// exchanging the identifiers bound at two registry positions.
    proof fn lemma_swap_wf(pre: IndexMapper, post: IndexMapper, i: int, j: int, lhs_uuid: u128, rhs_uuid: u128)
        requires
            pre.wf(),
            0 <= i < pre.mapping().len(),
            0 <= j < pre.mapping().len(),
            pre.mapping()[i].1 == lhs_uuid,
            pre.mapping()[j].1 == rhs_uuid,
            post.mapping() == pre.mapping()
                .update(i, (pre.mapping()[i].0, rhs_uuid))
                .update(j, (pre.mapping()[j].0, lhs_uuid)),
            unique_keys(post.mapping()),
            post.stats_raw() == pre.stats_raw(),
            post.disk_raw() == pre.disk_raw(),
            post.cache() == pre.cache(),
        ensures
            post.wf(),
    {
        assert forall|u: u128| post.bound_to(u) == pre.bound_to(u) by {
            if pre.bound_to(u) {
                let k = choose|k: int|
                    0 <= k < pre.mapping().len() && (#[trigger] pre.mapping()[k]).1 == u;
                if k == i && k == j {
                    assert(post.mapping()[i].1 == u || post.mapping()[j].1 == u);
                } else if k == i {
                    assert(post.mapping()[j].1 == lhs_uuid);
                } else if k == j {
                    assert(post.mapping()[i].1 == rhs_uuid);
                } else {
                    assert(post.mapping()[k].1 == u);
                }
                assert(post.bound_to(u));
            }
            if post.bound_to(u) {
                let k = choose|k: int|
                    0 <= k < post.mapping().len() && (#[trigger] post.mapping()[k]).1 == u;
                if k == i && k == j {
                    assert(pre.mapping()[i].1 == u || pre.mapping()[j].1 == u);
                } else if k == j {
                    assert(pre.mapping()[i].1 == lhs_uuid);
                } else if k == i {
                    assert(pre.mapping()[j].1 == rhs_uuid);
                } else {
                    assert(pre.mapping()[k].1 == u);
                }
                assert(pre.bound_to(u));
            }
        }
        assert forall|a: int, b: int|
            0 <= a < pre.mapping().len() && 0 <= b < pre.mapping().len() && a != b implies
            (#[trigger] pre.mapping()[a]).1 != (#[trigger] pre.mapping()[b]).1 by {
            if a < b {
                assert(pre.mapping()[a].1 != pre.mapping()[b].1);
            } else {
                assert(pre.mapping()[b].1 != pre.mapping()[a].1);
            }
        }
        assert forall|a: int, b: int|
            0 <= a < b < post.mapping().len() implies
            (#[trigger] post.mapping()[a]).1 != (#[trigger] post.mapping()[b]).1 by {
            let pa: int = if a == j { i } else if a == i { j } else { a };
            let pb: int = if b == j { i } else if b == i { j } else { b };
            assert(post.mapping()[a].1 == pre.mapping()[pa].1);
            assert(post.mapping()[b].1 == pre.mapping()[pb].1);
            assert(pa != pb);
        }
        assert forall|u: u128|
            (#[trigger] post.slot(u)) is Available || post.slot(u) is Closing implies
            post.bound_to(u) by {
            assert(post.slot(u) == pre.slot(u));
        }
        assert forall|u: u128| post.bound_to(u) implies
            !((#[trigger] post.slot(u)) is BeingDeleted) by {
            assert(post.slot(u) == pre.slot(u));
        }
        assert forall|u: u128| true implies
            ((#[trigger] post.on_disk(u)) is Some
                <==> (post.bound_to(u) || post.slot(u) is BeingDeleted)) by {
            assert(post.on_disk(u) == pre.on_disk(u));
            assert(post.slot(u) == pre.slot(u));
        }
        assert forall|u: u128| (#[trigger] post.slot(u)) is Available implies
            post.on_disk(u) is Some
                && content_eq(post.slot(u)->Available_0, post.on_disk(u)->Some_0) by {
            assert(post.on_disk(u) == pre.on_disk(u));
            assert(post.slot(u) == pre.slot(u));
        }
        assert forall|k: int| 0 <= k && k + 1 < post.mapping().len() implies
            name_lt((#[trigger] post.mapping()[k]).0, post.mapping()[k + 1].0) by {
            assert(post.mapping()[k].0 == pre.mapping()[k].0);
            assert(post.mapping()[k + 1].0 == pre.mapping()[k + 1].0);
        }
        assert forall|k: int| 0 <= k < post.stats_raw().len() implies
            distribution_wf((#[trigger] post.stats_raw()[k]).1@.field_distribution) by {
            assert(post.stats_raw()[k] == pre.stats_raw()[k]);
        }
        assert forall|k: int| 0 <= k < post.disk_raw().len() implies
            distribution_wf((#[trigger] post.disk_raw()[k]).1@.field_distribution) by {
            assert(post.disk_raw()[k] == pre.disk_raw()[k]);
        }
    }

    /// Store freshly computed statistics for the index bound to `name`.
    pub fn store_stats_of(&mut self, name: &str, stats: &IndexStats) -> (r: Result<
        (),
        Error,
    >)
        requires
            old(self).wf(),
            distribution_wf(stats@.field_distribution),
        ensures
            final(self).wf(),
            final(self).mapping() == old(self).mapping(),
            final(self).disk_raw() == old(self).disk_raw(),
            final(self).cache() == old(self).cache(),
            final(self).base_map_size() == old(self).base_map_size(),
            final(self).growth_amount() == old(self).growth_amount(),
            match r {
                Ok(()) => {
                    &&& old(self).resolve(name@) is Some
                    &&& final(self).stats_view(old(self).resolve(name@)->Some_0)
                        == Some(stats@)
                    &&& forall|w: u128| w != old(self).resolve(name@)->Some_0
                        ==> #[trigger] final(self).stats_view(w) == old(self).stats_view(w)
                },
                Err(e) => {
                    &&& *final(self) == *old(self)
                    &&& match e {
                        Error::IndexNotFound(n) => n@ == name@
                            && old(self).resolve(name@) is None,
                        _ => false,
                    }
                },
            },
    {
        let ghost pre = *self;
        let owned: String = name.to_owned();
        let i = match find_name(&self.index_mapping, &owned) {
            Some(i) => i,
            None => {
                return Err(Error::IndexNotFound(owned));
            },
        };
        let uuid = self.index_mapping[i].1;
        match find_u128(&self.index_stats, uuid) {
            Some(k) => {
                self.index_stats[k] = (uuid, stats.duplicate());
                proof {
                    assert(self.stats_raw()
                        == pre.stats_raw().update(k as int, (uuid, self.stats_raw()[k as int].1)));
                    lemma_get_update(
                        pre.stats_raw(),
                        k as int,
                        self.stats_raw()[k as int].1,
                        uuid,
                    );
                    assert forall|w: u128| w != uuid implies
                        #[trigger] self.stats_view(w) == pre.stats_view(w) by {
                        lemma_get_update(
                            pre.stats_raw(),
                            k as int,
                            self.stats_raw()[k as int].1,
                            w,
                        );
                    }
                }
            },
            None => {
                self.index_stats.push((uuid, stats.duplicate()));
                proof {
                    lemma_get_push(
                        pre.stats_raw(),
                        uuid,
                        self.stats_raw()[pre.stats_raw().len() as int].1,
                        uuid,
                    );
                    assert forall|w: u128| w != uuid implies
                        #[trigger] self.stats_view(w) == pre.stats_view(w) by {
                        lemma_get_push(
                            pre.stats_raw(),
                            uuid,
                            self.stats_raw()[pre.stats_raw().len() as int].1,
                            w,
                        );
                    }
                }
            },
        }
        proof {
            assert forall|k: int| 0 <= k < self.stats_raw().len() implies
                distribution_wf((#[trigger] self.stats_raw()[k]).1@.field_distribution) by {
                if k < pre.stats_raw().len() && self.stats_raw()[k] == pre.stats_raw()[k] {
                } else {
                    assert(self.stats_raw()[k].1@ == stats@);
                }
            }
            Self::lemma_wf_same_core(pre, *self);
        }
        Ok(())
    }

    /// Open the stored environment of `uuid` at the given map size.
    fn load_env(&self, uuid: u128, map_size: u64) -> (r: Index)
        requires
            self.wf(),
            self.on_disk(uuid) is Some,
        ensures
            r@.uuid == uuid,
            r@.map_size == map_size,
            content_eq(r@, self.on_disk(uuid)->Some_0),
    {
        let k = match find_u128(&self.disk, uuid) {
            Some(k) => k,
            None => {
                proof {
                    assert(false);
                }
                0
            },
        };
        let mut env = self.disk[k].1.duplicate();
        env.map_size = map_size;
        env
    }

    /// Well-formedness survives installing a handle for a bound identifier
    /// whose environment is on disk and whose content the handle carries.
    proof fn lemma_wf_after_install(pre: IndexMapper, post: IndexMapper, u: u128, h: IndexView)
        requires
            pre.wf(),
            post.mapping() == pre.mapping(),
            post.disk_raw() == pre.disk_raw(),
            post.stats_raw() == pre.stats_raw(),
            post.cache().inv(),
            IndexMap::install_effect(pre.cache(), post.cache(), u, h),
            pre.bound_to(u),
            pre.on_disk(u) is Some,
            content_eq(h, pre.on_disk(u)->Some_0),
        ensures
            post.wf(),
    {
        Self::lemma_same_bindings(pre, post);
        let full = pre.cache().avail_len() >= pre.cache().capacity();
        let v = pre.cache().lru_victim();
        assert forall|w: u128|
            (#[trigger] post.slot(w)) is Available || post.slot(w) is Closing implies
            post.bound_to(w) by {
            if w != u && (!full || w != v) {
                assert(post.slot(w) == pre.slot(w));
            }
        }
        assert forall|w: u128| post.bound_to(w) implies
            !((#[trigger] post.slot(w)) is BeingDeleted) by {
            if w != u && (!full || w != v) {
                assert(post.slot(w) == pre.slot(w));
            }
        }
        assert forall|w: u128| true implies
            ((#[trigger] post.on_disk(w)) is Some
                <==> (post.bound_to(w) || post.slot(w) is BeingDeleted)) by {
            assert(post.on_disk(w) == pre.on_disk(w));
            if w != u && (!full || w != v) {
                assert(post.slot(w) == pre.slot(w));
            }
        }
        assert forall|w: u128| (#[trigger] post.slot(w)) is Available implies
            post.on_disk(w) is Some
                && content_eq(post.slot(w)->Available_0, post.on_disk(w)->Some_0) by {
            assert(post.on_disk(w) == pre.on_disk(w));
            if w != u && (!full || w != v) {
                assert(post.slot(w) == pre.slot(w));
            }
        }
        assert forall|k: int| 0 <= k < post.stats_raw().len() implies
            distribution_wf((#[trigger] post.stats_raw()[k]).1@.field_distribution) by {
            assert(post.stats_raw()[k] == pre.stats_raw()[k]);
        }
        assert forall|k: int| 0 <= k < post.disk_raw().len() implies
            distribution_wf((#[trigger] post.disk_raw()[k]).1@.field_distribution) by {
            assert(post.disk_raw()[k] == pre.disk_raw()[k]);
        }
    }

    /// Return an index, opening or reopening it if needed. The hot read
    /// path: an available handle is returned as is; a closing slot is
    /// reopened at its recorded map size; a missing slot is opened from disk
    /// at the base map size; an unbound name fails with `IndexNotFound`.
    pub fn index(&mut self, name: &str) -> (r: Result<Index, Error>)
        requires
            old(self).wf(),
        ensures
            final(self).wf(),
            final(self).mapping() == old(self).mapping(),
            final(self).stats_raw() == old(self).stats_raw(),
            final(self).disk_raw() == old(self).disk_raw(),
            final(self).base_map_size() == old(self).base_map_size(),
            final(self).growth_amount() == old(self).growth_amount(),
            match r {
                Ok(h) => {
                    &&& old(self).resolve(name@) == Some(h@.uuid)
                    &&& final(self).slot(h@.uuid) == SlotView::Available(h@)
                    &&& content_eq(h@, old(self).on_disk(h@.uuid)->Some_0)
                    &&& match old(self).slot(h@.uuid) {
                        SlotView::Available(iv) => h@ == iv && *final(self) == *old(self),
                        SlotView::Closing { map_size, generation } => h@.map_size == map_size
                            && IndexMap::install_effect(
                                old(self).cache(),
                                final(self).cache(),
                                h@.uuid,
                                h@,
                            ),
                        SlotView::Missing => h@.map_size == old(self).base_map_size()
                            && IndexMap::install_effect(
                                old(self).cache(),
                                final(self).cache(),
                                h@.uuid,
                                h@,
                            ),
                        SlotView::BeingDeleted => false,
                    }
                },
                Err(e) => {
                    &&& *final(self) == *old(self)
                    &&& old(self).resolve(name@) is None
                    &&& match e {
                        Error::IndexNotFound(n) => n@ == name@,
                        _ => false,
                    }
                },
            },
    {
        let ghost pre = *self;
        let owned: String = name.to_owned();
        let i = match find_name(&self.index_mapping, &owned) {
            Some(i) => i,
            None => {
                return Err(Error::IndexNotFound(owned));
            },
        };
        let uuid = self.index_mapping[i].1;
        proof {
            assert(pre.mapping()[i as int].1 == uuid);
            assert(pre.bound_to(uuid));
            assert(pre.on_disk(uuid) is Some);
        }
        match self.index_map.get(uuid) {
            crate::index_map::IndexStatus::Available(h) => Ok(h),
            crate::index_map::IndexStatus::Closing(ci) => {
                let env = self.load_env(uuid, ci.map_size);
                let h = self.index_map.reopen(ci, env);
                proof {
                    Self::lemma_wf_after_install(pre, *self, uuid, h@);
                }
                Ok(h)
            },
            crate::index_map::IndexStatus::BeingDeleted => {
                proof {
                    assert(false);
                }
                Err(Error::IndexNotFound(owned))
            },
            crate::index_map::IndexStatus::Missing => {
                let env = self.load_env(uuid, self.index_base_map_size);
                let h = self.index_map.create(uuid, env);
                proof {
                    Self::lemma_wf_after_install(pre, *self, uuid, h@);
                }
                Ok(h)
            },
        }
    }

    /// Well-formedness of the state reached by binding a fresh name, at its
    /// sort position in the registry, to a fresh identifier whose new
    /// environment was just stored.
    #[verifier::rlimit(60)]
    proof fn lemma_wf_after_bind(
        pre: IndexMapper,
        mid: IndexMapper,
        name: Seq<char>,
        u: u128,
        env: Index,
        p: int,
    )
        requires
            pre.wf(),
            pre.resolve(name) is None,
            !pre.bound_to(u),
            pre.on_disk(u) is None,
            pre.slot(u) is Missing,
            env@.uuid == u,
            distribution_wf(env@.field_distribution),
            0 <= p <= pre.mapping().len(),
            forall|j: int| 0 <= j < p ==> !name_lt(name, (#[trigger] pre.mapping()[j]).0),
            p == pre.mapping().len() || name_lt(name, pre.mapping()[p].0),
            mid.mapping() == pre.mapping().insert(p, (name, u)),
            mid.disk_raw() == pre.disk_raw().push((u, env)),
            mid.stats_raw() == pre.stats_raw(),
            mid.cache() == pre.cache(),
        ensures
            mid.wf(),
            mid.resolve(name) == Some(u),
            forall|q: Seq<char>| q != name
                ==> #[trigger] mid.resolve(q) == pre.resolve(q),
            mid.on_disk(u) == Some(env@),
            forall|w: u128| w != u ==> #[trigger] mid.on_disk(w) == pre.on_disk(w),
            mid.bound_to(u),
            forall|w: u128| #[trigger] mid.bound_to(w) == (pre.bound_to(w) || w == u),
            mid.names() == pre.names().insert(p, name),
    {
        pre.mapping().insert_ensures(p, (name, u));
        lemma_get_insert(pre.mapping(), p, name, u, name);
        assert forall|q: Seq<char>| q != name implies
            #[trigger] mid.resolve(q) == pre.resolve(q) by {
            lemma_get_insert(pre.mapping(), p, name, u, q);
        }
        lemma_get_push(pre.disk_raw(), u, env, u);
        assert forall|w: u128| w != u implies
            #[trigger] mid.on_disk(w) == pre.on_disk(w) by {
            lemma_get_push(pre.disk_raw(), u, env, w);
        }
        assert(mid.mapping()[p] == (name, u));
        assert(mid.bound_to(u));
        assert forall|w: u128| #[trigger] mid.bound_to(w) == (pre.bound_to(w) || w == u) by {
            if pre.bound_to(w) {
                let k = choose|k: int|
                    0 <= k < pre.mapping().len() && (#[trigger] pre.mapping()[k]).1 == w;
                let k2: int = if k < p { k } else { k + 1 };
                assert(mid.mapping()[k2].1 == w);
            }
            if mid.bound_to(w) && w != u {
                let k = choose|k: int|
                    0 <= k < mid.mapping().len() && (#[trigger] mid.mapping()[k]).1 == w;
                assert(k != p);
                let k2: int = if k < p { k } else { k - 1 };
                assert(pre.mapping()[k2].1 == w);
            }
        }
        assert forall|x: int| 0 <= x < pre.mapping().len() implies
            (#[trigger] pre.mapping()[x]).1 != u by {
            if pre.mapping()[x].1 == u {
                assert(pre.bound_to(u));
            }
        }
        assert forall|a: int, b: int|
            0 <= a < b < mid.mapping().len() implies
            (#[trigger] mid.mapping()[a]).1 != (#[trigger] mid.mapping()[b]).1 by {
            let a2: int = if a < p { a } else { a - 1 };
            let b2: int = if b < p { b } else { b - 1 };
            if a != p {
                assert(mid.mapping()[a] == pre.mapping()[a2]);
            }
            if b != p {
                assert(mid.mapping()[b] == pre.mapping()[b2]);
            }
        }
        lemma_get_none_all_indices(pre.mapping(), name);
        assert forall|k: int| 0 <= k && k + 1 < mid.mapping().len() implies
            name_lt((#[trigger] mid.mapping()[k]).0, mid.mapping()[k + 1].0) by {
            if k + 1 < p {
                assert(mid.mapping()[k] == pre.mapping()[k]);
                assert(mid.mapping()[k + 1] == pre.mapping()[k + 1]);
            } else if k + 1 == p {
                assert(mid.mapping()[k] == pre.mapping()[k]);
                assert(mid.mapping()[p] == (name, u));
                lemma_name_lt_total(name, pre.mapping()[k].0);
            } else if k == p {
                assert(mid.mapping()[k + 1] == pre.mapping()[p]);
            } else {
                assert(mid.mapping()[k] == pre.mapping()[k - 1]);
                assert(mid.mapping()[k + 1] == pre.mapping()[k]);
            }
        }
        assert forall|k: int| 0 <= k < mid.stats_raw().len() implies
            distribution_wf((#[trigger] mid.stats_raw()[k]).1@.field_distribution) by {
            assert(mid.stats_raw()[k] == pre.stats_raw()[k]);
        }
        assert forall|k: int| 0 <= k < mid.disk_raw().len() implies
            distribution_wf((#[trigger] mid.disk_raw()[k]).1@.field_distribution) by {
            if k < pre.disk_raw().len() {
                assert(mid.disk_raw()[k] == pre.disk_raw()[k]);
            } else {
                assert(mid.disk_raw()[k] == (u, env));
            }
        }
        assert forall|k: int| 0 <= k < mid.disk_raw().len() implies
            (#[trigger] mid.disk_raw()[k]).1@.uuid == mid.disk_raw()[k].0 by {
            if k < pre.disk_raw().len() {
                assert(mid.disk_raw()[k] == pre.disk_raw()[k]);
            } else {
                assert(mid.disk_raw()[k] == (u, env));
            }
        }
        assert forall|w: u128|
            (#[trigger] mid.slot(w)) is Available || mid.slot(w) is Closing implies
            mid.bound_to(w) by {
            assert(mid.slot(w) == pre.slot(w));
        }
        assert forall|w: u128| mid.bound_to(w) implies
            !((#[trigger] mid.slot(w)) is BeingDeleted) by {
            assert(mid.slot(w) == pre.slot(w));
            if w != u {
                assert(pre.bound_to(w));
            }
        }
        assert forall|w: u128| true implies
            ((#[trigger] mid.on_disk(w)) is Some
                <==> (mid.bound_to(w) || mid.slot(w) is BeingDeleted)) by {
            assert(mid.slot(w) == pre.slot(w));
            if w != u {
                assert(mid.on_disk(w) == pre.on_disk(w));
            }
        }
        assert forall|w: u128| (#[trigger] mid.slot(w)) is Available implies
            mid.on_disk(w) is Some
                && content_eq(mid.slot(w)->Available_0, mid.on_disk(w)->Some_0) by {
            assert(mid.slot(w) == pre.slot(w));
            assert(w != u);
            assert(mid.on_disk(w) == pre.on_disk(w));
        }
        assert(mid.names() =~= pre.names().insert(p, name));
    }

    /// Get or create the index bound to `name`.
    ///
    /// A bound name returns its open handle, exactly as `index` does. An
    /// unbound name is bound to a freshly generated identifier, an empty
    /// environment is stored for it, and a handle opened at the base map
    /// size is installed and returned; its timestamps are the given dates,
    /// or the present instant for both when none are given. In the unlikely
    /// event that the fresh identifier is already in use, nothing changes
    /// and `IndexAlreadyExists` is returned.
    pub fn create_index(&mut self, name: &str, date: Option<(i64, i64)>) -> (r: Result<
        Index,
        Error,
    >)
        requires
            old(self).wf(),
        ensures
            final(self).wf(),
            final(self).stats_raw() == old(self).stats_raw(),
            final(self).base_map_size() == old(self).base_map_size(),
            final(self).growth_amount() == old(self).growth_amount(),
            old(self).resolve(name@) is Some ==> {
                &&& final(self).mapping() == old(self).mapping()
                &&& final(self).disk_raw() == old(self).disk_raw()
                &&& match r {
                    Ok(h) => {
                        &&& old(self).resolve(name@) == Some(h@.uuid)
                        &&& final(self).slot(h@.uuid) == SlotView::Available(h@)
                        &&& content_eq(h@, old(self).on_disk(h@.uuid)->Some_0)
                        &&& match old(self).slot(h@.uuid) {
                            SlotView::Available(iv) => h@ == iv
                                && *final(self) == *old(self),
                            SlotView::Closing { map_size, generation } => h@.map_size
                                == map_size
                                && IndexMap::install_effect(
                                old(self).cache(),
                                final(self).cache(),
                                h@.uuid,
                                h@,
                            ),
                            SlotView::Missing => h@.map_size == old(self).base_map_size()
                                && IndexMap::install_effect(
                                old(self).cache(),
                                final(self).cache(),
                                h@.uuid,
                                h@,
                            ),
                            SlotView::BeingDeleted => false,
                        }
                    },
                    Err(_) => false,
                }
            },
            old(self).resolve(name@) is None ==> match r {
                Ok(h) => {
                    &&& !old(self).bound_to(h@.uuid)
                    &&& old(self).on_disk(h@.uuid) is None
                    &&& old(self).slot(h@.uuid) is Missing
                    &&& final(self).resolve(name@) == Some(h@.uuid)
                    &&& forall|q: Seq<char>| q != name@
                        ==> #[trigger] final(self).resolve(q) == old(self).resolve(q)
                    &&& exists|p: int|
                        0 <= p <= old(self).names().len()
                            && final(self).names() == old(self).names().insert(p, name@)
                    &&& final(self).on_disk(h@.uuid) == Some(h@)
                    &&& forall|w: u128| w != h@.uuid
                        ==> #[trigger] final(self).on_disk(w) == old(self).on_disk(w)
                    &&& final(self).slot(h@.uuid) == SlotView::Available(h@)
                    &&& IndexMap::install_effect(
                        old(self).cache(),
                        final(self).cache(),
                        h@.uuid,
                        h@,
                    )
                    &&& h@.map_size == old(self).base_map_size()
                    &&& h@.number_of_documents == 0
                    &&& h@.database_size == 0
                    &&& h@.field_distribution == Seq::<(Seq<char>, u64)>::empty()
                    &&& match date {
                        Some(d) => h@.created_at == d.0 && h@.updated_at == d.1,
                        None => h@.created_at == h@.updated_at,
                    }
                },
                Err(e) => {
                    &&& *final(self) == *old(self)
                    &&& match e {
                        Error::IndexAlreadyExists(n) => n@ == name@,
                        _ => false,
                    }
                },
            },
    {
        if self.has_index(name) {
            let r = self.index(name);
            proof {
                if r is Err {
                    assert(false);
                }
            }
            return r;
        }
        let uuid = crate::host::fresh_uuid();
        self.install_fresh(name, uuid, date)
    }

    /// The position `name` sorts to in the registry.
    fn find_sort_position(&self, name: &str) -> (p: usize)
        requires
            self.wf(),
        ensures
            p <= self.mapping().len(),
            forall|j: int| 0 <= j < p
                ==> !name_lt(name@, (#[trigger] self.mapping()[j]).0),
            p == self.mapping().len() || name_lt(name@, self.mapping()[p as int].0),
    {
        let mut p: usize = 0;
        while p < self.index_mapping.len()
            invariant
                self.wf(),
                p <= self.mapping().len(),
                forall|j: int| 0 <= j < p
                    ==> !name_lt(name@, (#[trigger] self.mapping()[j]).0),
            decreases self.mapping().len() - p,
        {
            if str_lt(name, self.index_mapping[p].0.as_str()) {
                return p;
            }
            p += 1;
        }
        p
    }

    /// Bind the unbound `name` to the given identifier, store a fresh empty
    /// environment for it, and install an open handle at the base map size.
    /// Succeeds exactly when the identifier is wholly unused — its cache
    /// slot missing and no environment stored; otherwise nothing changes
    /// and `IndexAlreadyExists` names the index that asked.
    pub fn install_fresh(&mut self, name: &str, uuid: u128, date: Option<(i64, i64)>) -> (r:
        Result<Index, Error>)
        requires
            old(self).wf(),
            old(self).resolve(name@) is None,
        ensures
            final(self).wf(),
            final(self).stats_raw() == old(self).stats_raw(),
            final(self).base_map_size() == old(self).base_map_size(),
            final(self).growth_amount() == old(self).growth_amount(),
            r is Ok <==> (old(self).slot(uuid) is Missing
                && old(self).on_disk(uuid) is None),
            match r {
                Ok(h) => {
                    &&& h@.uuid == uuid
                    &&& !old(self).bound_to(uuid)
                    &&& final(self).resolve(name@) == Some(uuid)
                    &&& forall|q: Seq<char>| q != name@
                        ==> #[trigger] final(self).resolve(q) == old(self).resolve(q)
                    &&& exists|p: int|
                        0 <= p <= old(self).names().len()
                            && final(self).names() == old(self).names().insert(p, name@)
                    &&& final(self).on_disk(uuid) == Some(h@)
                    &&& forall|w: u128| w != uuid
                        ==> #[trigger] final(self).on_disk(w) == old(self).on_disk(w)
                    &&& final(self).slot(uuid) == SlotView::Available(h@)
                    &&& IndexMap::install_effect(
                        old(self).cache(),
                        final(self).cache(),
                        uuid,
                        h@,
                    )
                    &&& h@.map_size == old(self).base_map_size()
                    &&& h@.number_of_documents == 0
                    &&& h@.database_size == 0
                    &&& h@.field_distribution == Seq::<(Seq<char>, u64)>::empty()
                    &&& match date {
                        Some(d) => h@.created_at == d.0 && h@.updated_at == d.1,
                        None => h@.created_at == h@.updated_at,
                    }
                },
                Err(e) => {
                    &&& *final(self) == *old(self)
                    &&& match e {
                        Error::IndexAlreadyExists(n) => n@ == name@,
                        _ => false,
                    }
                },
            },
    {
        let ghost pre = *self;
        let owned: String = name.to_owned();
        let slot_free = match self.index_map.get(uuid) {
            crate::index_map::IndexStatus::Missing => true,
            _ => false,
        };
        let disk_free = match find_u128(&self.disk, uuid) {
            Some(_) => false,
            None => true,
        };
        if !(slot_free && disk_free) {
            return Err(Error::IndexAlreadyExists(owned));
        }
        proof {
            if pre.bound_to(uuid) {
                assert(pre.on_disk(uuid) is Some);
            }
        }
        let (created_at, updated_at): (i64, i64) = match date {
            Some(d) => d,
            None => {
                let now = crate::host::now_timestamp();
                (now, now)
            },
        };
        let env = Index {
            uuid,
            map_size: self.index_base_map_size,
            number_of_documents: 0,
            database_size: 0,
            field_distribution: Vec::new(),
            created_at,
            updated_at,
        };
        proof {
            assert(env@.field_distribution =~= Seq::<(Seq<char>, u64)>::empty());
        }
        let p = self.find_sort_position(name);
        self.index_mapping.insert(p, (owned, uuid));
        self.disk.push((uuid, env.duplicate()));
        let ghost mid = *self;
        proof {
            assert(mid.mapping() =~= pre.mapping().insert(p as int, (name@, uuid)));
            Self::lemma_wf_after_bind(
                pre,
                mid,
                name@,
                uuid,
                mid.disk_raw().last().1,
                p as int,
            );
        }
        let h = self.index_map.create(uuid, env);
        proof {
            Self::lemma_wf_after_install(mid, *self, uuid, h@);
            assert(self.names() == pre.names().insert(p as int, name@));
            assert forall|q: Seq<char>| q != name@ implies
                #[trigger] self.resolve(q) == pre.resolve(q) by {
                assert(self.mapping() == mid.mapping());
                assert(mid.resolve(q) == pre.resolve(q));
            }
            assert forall|w: u128| w != uuid implies
                #[trigger] self.on_disk(w) == pre.on_disk(w) by {
                assert(self.disk_raw() == mid.disk_raw());
                assert(mid.on_disk(w) == pre.on_disk(w));
            }
        }
        Ok(h)
    }

    /// Close the index bound to `name` so that it reopens with a map size
    /// grown by the configured amount. The caller must not race this with
    /// other closures: the slot has to be available, with room to grow.
    pub fn resize_index(&mut self, name: &str) -> (r: Result<(), Error>)
        requires
            old(self).wf(),
            old(self).resolve(name@) matches Some(u) ==> old(self).slot(u) is Available
                && old(self).slot(u)->Available_0.map_size + old(self).growth_amount()
                    <= u64::MAX,
        ensures
            final(self).wf(),
            final(self).mapping() == old(self).mapping(),
            final(self).stats_raw() == old(self).stats_raw(),
            final(self).disk_raw() == old(self).disk_raw(),
            final(self).base_map_size() == old(self).base_map_size(),
            final(self).growth_amount() == old(self).growth_amount(),
            match r {
                Ok(()) => {
                    &&& old(self).resolve(name@) is Some
                    &&& {
                        let u = old(self).resolve(name@)->Some_0;
                        &&& final(self).slot(u) matches SlotView::Closing { map_size, .. }
                            && map_size == old(self).slot(u)->Available_0.map_size
                                + old(self).growth_amount()
                        &&& forall|w: u128| w != u
                            ==> #[trigger] final(self).slot(w) == old(self).slot(w)
                    }
                },
                Err(e) => {
                    &&& *final(self) == *old(self)
                    &&& old(self).resolve(name@) is None
                    &&& match e {
                        Error::IndexNotFound(n) => n@ == name@,
                        _ => false,
                    }
                },
            },
    {
        let ghost pre = *self;
        let owned: String = name.to_owned();
        let i = match find_name(&self.index_mapping, &owned) {
            Some(i) => i,
            None => {
                return Err(Error::IndexNotFound(owned));
            },
        };
        let uuid = self.index_mapping[i].1;
        proof {
            assert(pre.mapping()[i as int].1 == uuid);
            assert(pre.bound_to(uuid));
        }
        self.index_map.close_for_resize(uuid, self.index_growth_amount);
        proof {
            Self::lemma_same_bindings(pre, *self);
            assert forall|w: u128|
                (#[trigger] self.slot(w)) is Available || self.slot(w) is Closing implies
                self.bound_to(w) by {
                if w != uuid {
                    assert(self.slot(w) == pre.slot(w));
                } else {
                    assert(pre.bound_to(uuid));
                }
            }
            assert forall|w: u128| self.bound_to(w) implies
                !((#[trigger] self.slot(w)) is BeingDeleted) by {
                if w != uuid {
                    assert(self.slot(w) == pre.slot(w));
                }
            }
            assert forall|w: u128| true implies
                ((#[trigger] self.on_disk(w)) is Some
                    <==> (self.bound_to(w) || self.slot(w) is BeingDeleted)) by {
                assert(self.on_disk(w) == pre.on_disk(w));
                if w != uuid {
                    assert(self.slot(w) == pre.slot(w));
                }
            }
            assert forall|w: u128| (#[trigger] self.slot(w)) is Available implies
                self.on_disk(w) is Some
                    && content_eq(self.slot(w)->Available_0, self.on_disk(w)->Some_0) by {
                assert(self.on_disk(w) == pre.on_disk(w));
                assert(w != uuid);
                assert(self.slot(w) == pre.slot(w));
            }
        }
        Ok(())
    }

    /// Well-formedness of the state reached by deleting an index: binding,
    /// statistics, environment and slot of its identifier are all gone.
    proof fn lemma_wf_after_delete(pre: IndexMapper, post: IndexMapper, i: int, u: u128)
        requires
            pre.wf(),
            0 <= i < pre.mapping().len(),
            pre.mapping()[i].1 == u,
            post.mapping() == pre.mapping().remove(i),
            unique_keys(post.stats_raw()),
            spec_get(post.stats_raw(), u) is None,
            forall|w: u128| w != u
                ==> spec_get(#[trigger] post.stats_raw(), w) == spec_get(pre.stats_raw(), w),
            unique_keys(post.disk_raw()),
            spec_get(post.disk_raw(), u) is None,
            forall|w: u128| w != u
                ==> spec_get(#[trigger] post.disk_raw(), w) == spec_get(pre.disk_raw(), w),
            forall|k: int| 0 <= k < post.disk_raw().len()
                ==> (#[trigger] post.disk_raw()[k]).1@.uuid == post.disk_raw()[k].0,
            post.cache().inv(),
            post.slot(u) is Missing,
            forall|w: u128| w != u ==> #[trigger] post.slot(w) == pre.slot(w),
        ensures
            post.wf(),
            post.resolve(pre.mapping()[i].0) is None,
            forall|q: Seq<char>| q != pre.mapping()[i].0
                ==> #[trigger] post.resolve(q) == pre.resolve(q),
            forall|w: u128| #[trigger] post.bound_to(w) == (pre.bound_to(w) && w != u),
            post.names() == pre.names().remove(i),
    {
        lemma_get_remove(pre.mapping(), i, pre.mapping()[i].0);
        assert forall|q: Seq<char>| q != pre.mapping()[i].0 implies
            #[trigger] post.resolve(q) == pre.resolve(q) by {
            lemma_get_remove(pre.mapping(), i, q);
        }
        assert forall|a: int, b: int|
            0 <= a < pre.mapping().len() && 0 <= b < pre.mapping().len() && a != b implies
            (#[trigger] pre.mapping()[a]).1 != (#[trigger] pre.mapping()[b]).1 by {
            if a < b {
                assert(pre.mapping()[a].1 != pre.mapping()[b].1);
            } else {
                assert(pre.mapping()[b].1 != pre.mapping()[a].1);
            }
        }
        assert forall|w: u128| #[trigger] post.bound_to(w) == (pre.bound_to(w) && w != u) by {
            if post.bound_to(w) {
                let k = choose|k: int|
                    0 <= k < post.mapping().len() && (#[trigger] post.mapping()[k]).1 == w;
                let k2 = if k < i { k } else { k + 1 };
                assert(post.mapping()[k] == pre.mapping()[k2]);
                assert(pre.mapping()[k2].1 == w);
                assert(w != u);
            }
            if pre.bound_to(w) && w != u {
                let k = choose|k: int|
                    0 <= k < pre.mapping().len() && (#[trigger] pre.mapping()[k]).1 == w;
                assert(k != i);
                let k2 = if k < i { k } else { k - 1 };
                assert(post.mapping()[k2] == pre.mapping()[k]);
            }
        }
        assert forall|a: int, b: int|
            0 <= a < b < post.mapping().len() implies
            (#[trigger] post.mapping()[a]).1 != (#[trigger] post.mapping()[b]).1 by {
            let a2 = if a < i { a } else { a + 1 };
            let b2 = if b < i { b } else { b + 1 };
            assert(post.mapping()[a] == pre.mapping()[a2]);
            assert(post.mapping()[b] == pre.mapping()[b2]);
        }
        assert forall|w: u128|
            (#[trigger] post.slot(w)) is Available || post.slot(w) is Closing implies
            post.bound_to(w) by {
            if w != u {
                assert(post.slot(w) == pre.slot(w));
            }
        }
        assert forall|w: u128| post.bound_to(w) implies
            !((#[trigger] post.slot(w)) is BeingDeleted) by {
            if w != u {
                assert(post.slot(w) == pre.slot(w));
            }
        }
        assert forall|w: u128| true implies
            ((#[trigger] post.on_disk(w)) is Some
                <==> (post.bound_to(w) || post.slot(w) is BeingDeleted)) by {
            if w != u {
                assert(post.on_disk(w) == pre.on_disk(w));
                assert(post.slot(w) == pre.slot(w));
            }
        }
        assert forall|w: u128| (#[trigger] post.slot(w)) is Available implies
            post.on_disk(w) is Some
                && content_eq(post.slot(w)->Available_0, post.on_disk(w)->Some_0) by {
            assert(w != u);
            assert(post.on_disk(w) == pre.on_disk(w));
            assert(post.slot(w) == pre.slot(w));
        }
        assert forall|k: int| 0 <= k < post.stats_raw().len() implies
            distribution_wf((#[trigger] post.stats_raw()[k]).1@.field_distribution) by {
            lemma_get_at_index(post.stats_raw(), k);
            let key = post.stats_raw()[k].0;
            assert(key != u);
            assert(spec_get(pre.stats_raw(), key) == Some(post.stats_raw()[k].1));
            let j = lemma_get_some_index(pre.stats_raw(), key);
            assert(pre.stats_raw()[j].1 == post.stats_raw()[k].1);
        }
        assert forall|k: int| 0 <= k < post.disk_raw().len() implies
            distribution_wf((#[trigger] post.disk_raw()[k]).1@.field_distribution) by {
            lemma_get_at_index(post.disk_raw(), k);
            let key = post.disk_raw()[k].0;
            assert(key != u);
            assert(spec_get(pre.disk_raw(), key) == Some(post.disk_raw()[k].1));
            let j = lemma_get_some_index(pre.disk_raw(), key);
            assert(pre.disk_raw()[j].1 == post.disk_raw()[k].1);
        }
        pre.mapping().remove_ensures(i);
        assert forall|k: int| 0 <= k && k + 1 < post.mapping().len() implies
            name_lt((#[trigger] post.mapping()[k]).0, post.mapping()[k + 1].0) by {
            if k + 1 < i {
                assert(post.mapping()[k] == pre.mapping()[k]);
                assert(post.mapping()[k + 1] == pre.mapping()[k + 1]);
            } else if k + 1 == i {
                assert(post.mapping()[k] == pre.mapping()[k]);
                assert(post.mapping()[k + 1] == pre.mapping()[i + 1]);
                lemma_name_lt_trans(
                    pre.mapping()[k].0,
                    pre.mapping()[i].0,
                    pre.mapping()[i + 1].0,
                );
            } else {
                assert(post.mapping()[k] == pre.mapping()[k + 1]);
                assert(post.mapping()[k + 1] == pre.mapping()[k + 2]);
            }
        }
        assert(post.names() =~= pre.names().remove(i));
    }

    /// Remove the index bound to `name`: its statistics, its binding, its
    /// cache slot and its on-disk environment. The binding disappears before
    /// the slot is poisoned, so a concurrent resolver sees `IndexNotFound`
    /// from the registry first; a pending closure is completed rather than
    /// waited on. Fails with `IndexNotFound` when the name is unbound.
    #[verifier::rlimit(60)]
    pub fn delete_index(&mut self, name: &str) -> (r: Result<(), Error>)
        requires
            old(self).wf(),
        ensures
            final(self).wf(),
            final(self).base_map_size() == old(self).base_map_size(),
            final(self).growth_amount() == old(self).growth_amount(),
            match r {
                Ok(()) => {
                    &&& old(self).resolve(name@) is Some
                    &&& {
                        let u = old(self).resolve(name@)->Some_0;
                        &&& final(self).resolve(name@) is None
                        &&& forall|q: Seq<char>| q != name@
                            ==> #[trigger] final(self).resolve(q) == old(self).resolve(q)
                        &&& final(self).stats_view(u) is None
                        &&& forall|w: u128| w != u
                            ==> #[trigger] final(self).stats_view(w) == old(self).stats_view(w)
                        &&& final(self).on_disk(u) is None
                        &&& forall|w: u128| w != u
                            ==> #[trigger] final(self).on_disk(w) == old(self).on_disk(w)
                        &&& final(self).slot(u) is Missing
                        &&& forall|w: u128| w != u
                            ==> #[trigger] final(self).slot(w) == old(self).slot(w)
                        &&& exists|i: int|
                            0 <= i < old(self).names().len()
                                && old(self).names()[i] == name@
                                && final(self).names() == old(self).names().remove(i)
                    }
                },
                Err(e) => {
                    &&& *final(self) == *old(self)
                    &&& old(self).resolve(name@) is None
                    &&& match e {
                        Error::IndexNotFound(n) => n@ == name@,
                        _ => false,
                    }
                },
            },
    {
        let ghost pre = *self;
        let owned: String = name.to_owned();
        let i = match find_name(&self.index_mapping, &owned) {
            Some(i) => i,
            None => {
                return Err(Error::IndexNotFound(owned));
            },
        };
        let uuid = self.index_mapping[i].1;
        // not an error if the index had no stats in cache
        match find_u128(&self.index_stats, uuid) {
            Some(k) => {
                let _ = self.index_stats.remove(k);
                proof {
                    lemma_get_remove(pre.stats_raw(), k as int, uuid);
                    assert forall|w: u128| w != uuid implies
                        spec_get(#[trigger] self.stats_raw(), w)
                            == spec_get(pre.stats_raw(), w) by {
                        lemma_get_remove(pre.stats_raw(), k as int, w);
                    }
                }
            },
            None => {},
        }
        proof {
            assert(pre.mapping()[i as int].1 == uuid);
            assert(pre.bound_to(uuid));
            assert(pre.slot(uuid) == pre.cache().slot_view(uuid));
            assert(!(pre.slot(uuid) is BeingDeleted));
        }
        let _ = self.index_mapping.remove(i);
        proof {
            assert(self.mapping() =~= pre.mapping().remove(i as int));
        }
        // the registry no longer resolves the name; now poison the slot
        let started = match self.index_map.start_deletion(uuid) {
            crate::index_map::StartDeletionOutcome::Started => true,
            crate::index_map::StartDeletionOutcome::BusyReopen(ci) => {
                self.index_map.complete_close(ci);
                match self.index_map.start_deletion(uuid) {
                    crate::index_map::StartDeletionOutcome::Started => true,
                    _ => {
                        proof {
                            assert(false);
                        }
                        false
                    },
                }
            },
            crate::index_map::StartDeletionOutcome::AlreadyDeleting => {
                proof {
                    assert(false);
                }
                false
            },
        };
        // the deleter's work: remove the environment, then free the slot
        let kd = match find_u128(&self.disk, uuid) {
            Some(kd) => kd,
            None => {
                proof {
                    assert(false);
                }
                0
            },
        };
        let _ = self.disk.remove(kd);
        proof {
            lemma_get_remove(pre.disk_raw(), kd as int, uuid);
            assert forall|w: u128| w != uuid implies
                spec_get(#[trigger] self.disk_raw(), w)
                    == spec_get(pre.disk_raw(), w) by {
                lemma_get_remove(pre.disk_raw(), kd as int, w);
            }
            assert forall|k: int| 0 <= k < self.disk_raw().len() implies
                (#[trigger] self.disk_raw()[k]).1@.uuid == self.disk_raw()[k].0 by {
                let k2 = if k < kd { k } else { k + 1 };
                assert(self.disk_raw()[k] == pre.disk_raw()[k2]);
            }
        }
        self.index_map.end_deletion(uuid);
        proof {
            Self::lemma_wf_after_delete(pre, *self, i as int, uuid);
            assert(pre.names()[i as int] == name@);
        }
        Ok(())
    }

    /// The statistics of the index bound to `name`: the cached record when
    /// one is stored, otherwise statistics computed freshly from the stored
    /// environment, without being written back.
    pub fn stats_of(&self, name: &str) -> (r: Result<IndexStats, Error>)
        requires
            self.wf(),
        ensures
            match r {
                Ok(st) => {
                    &&& self.resolve(name@) is Some
                    &&& {
                        let u = self.resolve(name@)->Some_0;
                        match self.stats_view(u) {
                            Some(sv) => st@ == sv,
                            None => st@ == crate::index::stats_of_index(
                                self.on_disk(u)->Some_0),
                        }
                    }
                },
                Err(e) => {
                    &&& self.resolve(name@) is None
                    &&& match e {
                        Error::IndexNotFound(n) => n@ == name@,
                        _ => false,
                    }
                },
            },
    {
        let owned: String = name.to_owned();
        let i = match find_name(&self.index_mapping, &owned) {
            Some(i) => i,
            None => {
                return Err(Error::IndexNotFound(owned));
            },
        };
        let uuid = self.index_mapping[i].1;
        match find_u128(&self.index_stats, uuid) {
            Some(k) => Ok(self.index_stats[k].1.duplicate()),
            None => {
                proof {
                    assert(self.mapping()[i as int].1 == uuid);
                    assert(self.bound_to(uuid));
                }
                let kd = match find_u128(&self.disk, uuid) {
                    Some(kd) => kd,
                    None => {
                        proof {
                            assert(false);
                        }
                        0
                    },
                };
                Ok(IndexStats::new(&self.disk[kd].1))
            },
        }
    }

    /// One call of `f` on `name` and a handle viewed as `h` may return
    /// `out`: what the traversal knows of each value the callback gave it.
    pub open spec fn call_yields<U, F: Fn(&str, &Index) -> Result<U, Error>>(
        f: F,
        name: Seq<char>,
        h: IndexView,
        out: Result<U, Error>,
    ) -> bool {
        exists|nm: &str, ix: &Index|
            nm@ == name && ix@ == h && #[trigger] call_ensures(f, (nm, ix), out)
    }

    /// A handle the traversal may hand to `f` for the i-th registry entry
    /// of `m`: it designates the identifier the i-th name is bound to and
    /// carries the data its stored environment holds.
    pub open spec fn handle_for(m: IndexMapper, i: int, h: IndexView) -> bool {
        &&& m.resolve(m.names()[i]) == Some(h.uuid)
        &&& m.on_disk(h.uuid) is Some
        &&& content_eq(h, m.on_disk(h.uuid)->Some_0)
    }

    /// For the i-th registry entry of `pre`, some fit handle was passed to
    /// `f` together with the entry's name, and `f` returned `out`.
    pub open spec fn slot_yielded<U, F: Fn(&str, &Index) -> Result<U, Error>>(
        pre: IndexMapper,
        f: F,
        i: int,
        out: U,
    ) -> bool {
        exists|h: IndexView|
            Self::handle_for(pre, i, h)
                && #[trigger] Self::call_yields(f, pre.names()[i], h, Ok(out))
    }

    /// Attempt `f` on each index bound in the registry, in registry order,
    /// opening each in turn and collecting the results; the first failure
    /// stops the traversal and is returned, and `f` is not invoked for any
    /// later name. Opening the indexes one by one keeps no more than the
    /// cache capacity of them open at once, at the price of eviction churn.
    pub fn try_for_each_index<U, F: Fn(&str, &Index) -> Result<U, Error>>(
        &mut self,
        f: &F,
    ) -> (r: Result<Vec<U>, Error>)
        requires
            old(self).wf(),
            forall|nm: &str, ix: &Index| #[trigger] call_requires(*f, (nm, ix)),
        ensures
            final(self).wf(),
            final(self).mapping() == old(self).mapping(),
            final(self).stats_raw() == old(self).stats_raw(),
            final(self).disk_raw() == old(self).disk_raw(),
            old(self).names().len() == 0 ==> r is Ok,
            match r {
                Ok(v) => v@.len() == old(self).names().len()
                    && forall|i: int| #![trigger v@[i]] 0 <= i < v@.len()
                        ==> Self::slot_yielded(*old(self), *f, i, v@[i]),
                Err(e) => exists|i: int, h: IndexView|
                    0 <= i < old(self).names().len()
                        && Self::handle_for(*old(self), i, h)
                        && #[trigger] Self::call_yields(
                        *f,
                        old(self).names()[i],
                        h,
                        Err(e),
                    ),
            },
    {
        let names = self.index_names();
        let mut out: Vec<U> = Vec::new();
        let mut k: usize = 0;
        while k < names.len()
            invariant
                self.wf(),
                self.mapping() == old(self).mapping(),
                self.stats_raw() == old(self).stats_raw(),
                self.disk_raw() == old(self).disk_raw(),
                names@.map_values(|s: String| s@) == old(self).names(),
                forall|nm: &str, ix: &Index| #[trigger] call_requires(*f, (nm, ix)),
                k <= names@.len(),
                out@.len() == k,
                forall|i: int| #![trigger out@[i]] 0 <= i < k
                    ==> Self::slot_yielded(*old(self), *f, i, out@[i]),
            decreases names@.len() - k,
        {
            proof {
                assert(names@.map_values(|s: String| s@)[k as int]
                    == old(self).names()[k as int]);
                assert(self.names().contains(names@[k as int]@)) by {
                    assert(self.names()[k as int] == names@[k as int]@);
                }
                Self::lemma_names_are_bound_names(*self, names@[k as int]@);
            }
            let h = match self.index(names[k].as_str()) {
                Ok(h) => h,
                Err(e) => {
                    proof {
                        assert(false);
                    }
                    return Err(e);
                },
            };
            proof {
                assert(Self::handle_for(*old(self), k as int, h@)) by {
                    assert(self.names()[k as int] == old(self).names()[k as int]);
                    assert(self.resolve(old(self).names()[k as int])
                        == old(self).resolve(old(self).names()[k as int]));
                    assert(self.on_disk(h@.uuid) == old(self).on_disk(h@.uuid));
                }
            }
            let nm: &str = names[k].as_str();
            match f(nm, &h) {
                Ok(val) => {
                    proof {
                        assert(Self::call_yields(
                            *f,
                            old(self).names()[k as int],
                            h@,
                            Ok::<U, Error>(val),
                        )) by {
                            assert(nm@ == old(self).names()[k as int]
                                && (&h)@ == h@
                                && call_ensures(*f, (nm, &h), Ok::<U, Error>(val)));
                        }
                        assert(Self::slot_yielded(*old(self), *f, k as int, val));
                    }
                    out.push(val);
                },
                Err(e) => {
                    proof {
                        assert(Self::call_yields(
                            *f,
                            old(self).names()[k as int],
                            h@,
                            Err::<U, Error>(e),
                        )) by {
                            assert(nm@ == old(self).names()[k as int]
                                && (&h)@ == h@
                                && call_ensures(*f, (nm, &h), Err::<U, Error>(e)));
                        }
                    }
                    return Err(e);
                },
            }
            k += 1;
        }
        proof {
            assert(out@.len() == old(self).names().len());
        }
        Ok(out)
    }

    /// The statistics a name currently designates: the cached record of the
    /// identifier it resolves to.
    pub open spec fn stats_for_name(self, name: Seq<char>) -> Option<IndexStatsView> {
        match self.resolve(name) {
            Some(u) => self.stats_view(u),
            None => None,
        }
    }

    /// The names listed by `index_names` are exactly the names that
    /// currently resolve: a name appears in the registry's key sequence if
    /// and only if it is bound to an identifier.
    pub proof fn lemma_names_are_bound_names(m: IndexMapper, name: Seq<char>)
        requires
            m.wf(),
        ensures
            m.names().contains(name) <==> m.resolve(name) is Some,
    {
        if m.names().contains(name) {
            let i = choose|i: int|
                0 <= i < m.names().len() && m.names()[i] == name;
            assert(m.mapping()[i].0 == name);
            lemma_get_at_index(m.mapping(), i);
        }
        if m.resolve(name) is Some {
            let i = lemma_get_some_index(m.mapping(), name);
            assert(m.names()[i] == name);
        }
    }

    /// Swapping two names leaves every statistic attached to the data it
    /// describes: after an exchange of the two bindings, each name
    /// designates the statistics the other designated before, because the
    /// stats are keyed by identifier, not by name.
    pub proof fn lemma_swap_preserves_stats(
        pre: IndexMapper,
        post: IndexMapper,
        lhs: Seq<char>,
        rhs: Seq<char>,
    )
        requires
            post.stats_raw() == pre.stats_raw(),
            post.resolve(lhs) == pre.resolve(rhs),
            post.resolve(rhs) == pre.resolve(lhs),
        ensures
            post.stats_for_name(lhs) == pre.stats_for_name(rhs),
            post.stats_for_name(rhs) == pre.stats_for_name(lhs),
    {
    }

    /// Creating an index under a fresh identifier and then deleting its
    /// name leaves no trace of that identifier: no binding, no statistics,
    /// no stored environment, no cache slot.
    pub proof fn lemma_create_then_delete_leaves_nothing(
        mid: IndexMapper,
        post: IndexMapper,
        name: Seq<char>,
        u: u128,
    )
        requires
            post.wf(),
            // what `create_index` established for the fresh name
            mid.resolve(name) == Some(u),
            // what a successful `delete_index` of the same name guarantees
            post.stats_view(mid.resolve(name)->Some_0) is None,
            post.on_disk(mid.resolve(name)->Some_0) is None,
            post.slot(mid.resolve(name)->Some_0) is Missing,
        ensures
            post.slot(u) is Missing,
            post.on_disk(u) is None,
            post.stats_view(u) is None,
            !post.bound_to(u),
    {
        assert(!(post.on_disk(u) is Some));
    }

    /// Opening an index right after it was closed for resizing yields a
    /// handle against the grown map size: the base size it was available
    /// with, plus the configured growth amount.
    pub proof fn lemma_index_after_resize(
        pre: IndexMapper,
        mid: IndexMapper,
        post: IndexMapper,
        name: Seq<char>,
        u: u128,
        h: IndexView,
    )
        requires
            pre.resolve(name) == Some(u),
            pre.slot(u) is Available,
            // what a successful `resize_index` of the name guarantees
            mid.mapping() == pre.mapping(),
            mid.slot(u) matches SlotView::Closing { map_size, .. }
                && map_size == pre.slot(u)->Available_0.map_size + pre.growth_amount(),
            // what a successful `index` of the name then guarantees
            mid.resolve(name) == Some(h.uuid),
            post.slot(h.uuid) == SlotView::Available(h),
            (mid.slot(h.uuid) matches SlotView::Closing { map_size, .. }
                ==> h.map_size == map_size),
        ensures
            h.uuid == u,
            h.map_size == pre.slot(u)->Available_0.map_size + pre.growth_amount(),
            post.slot(u) == SlotView::Available(h),
    {
    }
}

} // verus!
