//! The model of a stored index: an open handle carries the identifier, the
//! map size it was opened with, and the environment content that statistics
//! are computed from. Statistics are keyed by identifier so that swapping two
//! names leaves them attached to the right data.

use vstd::prelude::*;

use crate::order::sorted_by_name;

verus! {

/// A well-formed field distribution: one entry per field name, in strictly
/// ascending name order, as the map it models iterates.
pub open spec fn distribution_wf(d: Seq<(Seq<char>, u64)>) -> bool {
    sorted_by_name(d)
}

/// Mathematical view of an index environment.
pub ghost struct IndexView {
    pub uuid: u128,
    pub map_size: u64,
    pub number_of_documents: u64,
    pub database_size: u64,
    pub field_distribution: Seq<(Seq<char>, u64)>,
    pub created_at: i64,
    pub updated_at: i64,
}

/// An open index: a handle to a memory-mapped environment. The handle records
/// the map size it was opened with; growing the map requires closing every
/// handle and reopening at the larger size.
pub struct Index {
    /// The 128-bit identifier of the index; the physical key of its data.
    pub uuid: u128,
    /// The reserved virtual-address size this handle was opened with.
    pub map_size: u64,
    /// Number of documents stored in the environment.
    pub number_of_documents: u64,
    /// Size of the environment's data, in bytes.
    pub database_size: u64,
    /// For every field name, the number of documents it occurs in.
    pub field_distribution: Vec<(String, u64)>,
    /// Creation instant, in seconds since the epoch.
    pub created_at: i64,
    /// Last-update instant, in seconds since the epoch.
    pub updated_at: i64,
}

impl View for Index {
    type V = IndexView;

    open spec fn view(&self) -> IndexView {
        IndexView {
            uuid: self.uuid,
            map_size: self.map_size,
            number_of_documents: self.number_of_documents,
            database_size: self.database_size,
            field_distribution: self.field_distribution@.map_values(
                |p: (String, u64)| (p.0@, p.1)),
            created_at: self.created_at,
            updated_at: self.updated_at,
        }
    }
}

/// Copy a field-distribution table.
fn copy_distribution(v: &Vec<(String, u64)>) -> (r: Vec<(String, u64)>)
    ensures
        r@.map_values(|p: (String, u64)| (p.0@, p.1))
            == v@.map_values(|p: (String, u64)| (p.0@, p.1)),
{
    let mut r: Vec<(String, u64)> = Vec::new();
    let mut i: usize = 0;
    while i < v.len()
        invariant
            i <= v@.len(),
            r@.len() == i,
            forall|j: int| 0 <= j < i
                ==> (#[trigger] r@[j]).0@ == v@[j].0@ && r@[j].1 == v@[j].1,
        decreases v@.len() - i,
    {
        r.push((v[i].0.clone(), v[i].1));
        i += 1;
    }
    proof {
        assert(r@.map_values(|p: (String, u64)| (p.0@, p.1))
            =~= v@.map_values(|p: (String, u64)| (p.0@, p.1)));
    }
    r
}

impl Index {
    /// A second handle to the same environment.
    pub fn duplicate(&self) -> (r: Index)
        ensures
            r@ == self@,
    {
        Index {
            uuid: self.uuid,
            map_size: self.map_size,
            number_of_documents: self.number_of_documents,
            database_size: self.database_size,
            field_distribution: copy_distribution(&self.field_distribution),
            created_at: self.created_at,
            updated_at: self.updated_at,
        }
    }
}

/// Mathematical view of an index's statistics.
pub ghost struct IndexStatsView {
    pub number_of_documents: u64,
    pub database_size: u64,
    pub field_distribution: Seq<(Seq<char>, u64)>,
    pub created_at: i64,
    pub updated_at: i64,
}

/// The statistics that can be computed from an index. They are a cache:
/// absence is not an error, and a fresh computation may be performed on
/// demand without being written back.
pub struct IndexStats {
    /// Number of documents in the index.
    pub number_of_documents: u64,
    /// Size of the index's data, in bytes.
    pub database_size: u64,
    /// Association of every field name with the number of documents it
    /// occurs in.
    pub field_distribution: Vec<(String, u64)>,
    /// Creation date of the index.
    pub created_at: i64,
    /// Date of the last update of the index.
    pub updated_at: i64,
}

impl View for IndexStats {
    type V = IndexStatsView;

    open spec fn view(&self) -> IndexStatsView {
        IndexStatsView {
            number_of_documents: self.number_of_documents,
            database_size: self.database_size,
            field_distribution: self.field_distribution@.map_values(
                |p: (String, u64)| (p.0@, p.1)),
            created_at: self.created_at,
            updated_at: self.updated_at,
        }
    }
}

/// The statistics an index's environment currently holds.
pub open spec fn stats_of_index(iv: IndexView) -> IndexStatsView {
    IndexStatsView {
        number_of_documents: iv.number_of_documents,
        database_size: iv.database_size,
        field_distribution: iv.field_distribution,
        created_at: iv.created_at,
        updated_at: iv.updated_at,
    }
}

impl IndexStats {
    /// Compute the stats of an open index.
    pub fn new(index: &Index) -> (r: IndexStats)
        ensures
            r@ == stats_of_index(index@),
    {
        IndexStats {
            number_of_documents: index.number_of_documents,
            database_size: index.database_size,
            field_distribution: copy_distribution(&index.field_distribution),
            created_at: index.created_at,
            updated_at: index.updated_at,
        }
    }

    /// An identical copy of the statistics.
    pub fn duplicate(&self) -> (r: IndexStats)
        ensures
            r@ == self@,
    {
        IndexStats {
            number_of_documents: self.number_of_documents,
            database_size: self.database_size,
            field_distribution: copy_distribution(&self.field_distribution),
            created_at: self.created_at,
            updated_at: self.updated_at,
        }
    }
}

/// Configuration forwarded to the external indexing engine; opaque to the
/// lifecycle manager, which only stores and hands it out.
pub struct IndexerConfig {
    /// Upper bound on the memory the indexing engine may use, when set.
    pub max_indexing_memory: Option<u64>,
    /// Upper bound on the threads the indexing engine may use, when set.
    pub max_indexing_threads: Option<u64>,
}

impl IndexerConfig {
    /// A configuration leaving every knob unset.
    pub fn new() -> (r: IndexerConfig)
        ensures
            r.max_indexing_memory is None,
            r.max_indexing_threads is None,
    {
        IndexerConfig { max_indexing_memory: None, max_indexing_threads: None }
    }
}

} // verus!
