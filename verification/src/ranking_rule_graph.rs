//! The graph used by graph-based ranking rules.
//!
//! It is built on top of a query graph, keeping the same nodes but replacing
//! the edges: a dense edge table indexed by 16-bit edge ids (holes mark
//! removed edges), a per-node bitmap of outgoing edge ids, and an interner
//! sharing the storage of edge conditions.

use vstd::prelude::*;

use crate::interner::Condition;
use crate::interner::Interned;
use crate::interner::Interner;
use crate::small_bitmap::SmallBitmap;
use crate::Error;

verus! {

/// Document-id set computed by edge-condition resolution; the search engine's
/// compressed bitmap type, opaque to this crate.
#[verifier::external_type_specification]
#[verifier::external_body]
pub struct ExRoaringBitmap(roaring::RoaringBitmap);

/// The condition that is associated with an edge in the ranking rule graph.
///
/// Some edges are unconditional: traversing them does not reduce the set of
/// candidate documents. Most edges carry a condition; when the edge is
/// traversed the condition is resolved to the set of documents satisfying it.
pub enum EdgeCondition<E> {
    Unconditional,
    Conditional(Interned<E>),
}

impl<E> Clone for EdgeCondition<E> {
    fn clone(&self) -> (r: Self)
        ensures
            r == *self,
    {
        match self {
            Self::Unconditional => Self::Unconditional,
            Self::Conditional(arg0) => Self::Conditional(*arg0),
        }
    }
}

impl<E> Copy for EdgeCondition<E> {

}

/// An edge in the ranking rule graph: source and destination nodes, the cost
/// of traversing it, and its condition.
pub struct Edge<E> {
    pub source_node: u16,
    pub dest_node: u16,
    pub cost: u8,
    pub condition: EdgeCondition<E>,
}

impl<E> Clone for Edge<E> {
    fn clone(&self) -> (r: Self)
        ensures
            r == *self,
    {
        Edge {
            source_node: self.source_node,
            dest_node: self.dest_node,
            cost: self.cost,
            condition: self.condition,
        }
    }
}

/// The externally supplied query graph: its nodes are opaque here, so only
/// their number and the two distinguished endpoints are recorded.
#[derive(Clone, Copy)]
pub struct QueryGraph {
    pub n_nodes: u16,
    pub root_node: u16,
    pub end_node: u16,
}

/// The capability bundle a marker type implements to build a graph-based
/// ranking rule: how to enumerate candidate edges between two nodes and how
/// to compute the document ids satisfying an edge condition.
pub trait RankingRuleGraphTrait: Sized {
    /// The condition of an edge connecting two query nodes.
    type EdgeCondition: Condition;

    /// Whatever the resolution of conditions needs to read (the search
    /// engine's per-query state); opaque to the graph itself.
    type Context;

    /// The label of an edge condition, used when visualising the graph.
    fn label_for_edge_condition(edge: &Self::EdgeCondition) -> String;

    /// The subset of `universe` satisfying `edge_condition`.
    fn resolve_edge_condition(
        ctx: &mut Self::Context,
        edge_condition: &Self::EdgeCondition,
        universe: &roaring::RoaringBitmap,
    ) -> Result<roaring::RoaringBitmap, Error>;

    /// The cost and condition of the candidate edges going from
    /// `source_node` to `dest_node`.
    fn build_edges(
        ctx: &mut Self::Context,
        conditions_interner: &mut Interner<Self::EdgeCondition>,
        source_node: u16,
        dest_node: u16,
    ) -> Result<Vec<(u8, EdgeCondition<Self::EdgeCondition>)>, Error>;

    /// Observability hook invoked while ranking at a given cost.
    fn log_state(
        graph: &RankingRuleGraph<Self>,
        universe: &roaring::RoaringBitmap,
        cost: u16,
    );
}

/// The graph used by graph-based ranking rules.
pub struct RankingRuleGraph<G: RankingRuleGraphTrait> {
    pub query_graph: QueryGraph,
    pub edges_store: Vec<Option<Edge<G::EdgeCondition>>>,
    pub edges_of_node: Vec<SmallBitmap>,
    pub conditions_interner: Interner<G::EdgeCondition>,
}

impl<G: RankingRuleGraphTrait> Clone for RankingRuleGraph<G> {
    fn clone(&self) -> (r: Self)
        ensures
            r.query_graph == self.query_graph,
            r.edges_store@ == self.edges_store@,
            r.conditions_interner.spec_store()
                == self.conditions_interner.spec_store(),
            r.edges_of_node@.len() == self.edges_of_node@.len(),
            forall|s: int, e: u16| 0 <= s < self.edges_of_node@.len()
                ==> #[trigger] r.edges_of_node@[s].spec_contains(e)
                    == self.edges_of_node@[s].spec_contains(e),
            self.inv() ==> r.inv(),
    {
        let mut edges_store: Vec<Option<Edge<G::EdgeCondition>>> = Vec::new();
        let mut e: usize = 0;
        while e < self.edges_store.len()
            invariant
                e <= self.edges_store@.len(),
                edges_store@.len() == e,
                forall|j: int| 0 <= j < e ==> edges_store@[j] == self.edges_store@[j],
            decreases self.edges_store@.len() - e,
        {
            let slot = match &self.edges_store[e] {
                Some(edge) => Some(edge.clone()),
                None => None,
            };
            edges_store.push(slot);
            e += 1;
        }
        let mut edges_of_node: Vec<SmallBitmap> = Vec::new();
        let mut s: usize = 0;
        while s < self.edges_of_node.len()
            invariant
                s <= self.edges_of_node@.len(),
                edges_of_node@.len() == s,
                forall|j: int, i: u16| 0 <= j < s
                    ==> #[trigger] edges_of_node@[j].spec_contains(i)
                        == self.edges_of_node@[j].spec_contains(i),
            decreases self.edges_of_node@.len() - s,
        {
            edges_of_node.push(self.edges_of_node[s].duplicate());
            s += 1;
        }
        let r = RankingRuleGraph {
            query_graph: self.query_graph,
            edges_store,
            edges_of_node,
            conditions_interner: self.conditions_interner.duplicate(),
        };
        proof {
            assert(r.edges_store@ =~= self.edges_store@);
            if self.inv() {
                assert forall|j: u16| #[trigger] r.has_edge(j) implies
                    r.edge_at(j).source_node < r.n_nodes()
                        && r.edge_at(j).dest_node < r.n_nodes() by {
                    assert(r.edges_store@[j as int] == self.edges_store@[j as int]);
                    assert(self.has_edge(j));
                }
                assert forall|i: int, j: u16|
                    0 <= i < r.n_nodes() implies
                    ((#[trigger] r.edges_of_node@[i].spec_contains(j))
                        <==> (r.has_edge(j) && r.edge_at(j).source_node == i)) by {
                    assert(r.edges_of_node@[i].spec_contains(j)
                        == self.edges_of_node@[i].spec_contains(j));
                    if j < r.n_edges() {
                        assert(r.edges_store@[j as int] == self.edges_store@[j as int]);
                    }
                    assert(r.has_edge(j) == self.has_edge(j));
                }
            }
        }
        r
    }
}

impl<G: RankingRuleGraphTrait> RankingRuleGraph<G> {
    /// Number of nodes of the underlying query graph.
    pub open spec fn n_nodes(self) -> int {
        self.query_graph.n_nodes as int
    }

    /// Number of slots of the edge table, holes included.
    pub open spec fn n_edges(self) -> int {
        self.edges_store@.len() as int
    }

    /// Whether edge id `e` is present (a filled slot of the edge table).
    pub open spec fn has_edge(self, e: u16) -> bool {
        e < self.n_edges() && self.edges_store@[e as int] is Some
    }

    /// The edge stored under a present id.
    pub open spec fn edge_at(self, e: u16) -> Edge<G::EdgeCondition> {
        self.edges_store@[e as int]->Some_0
    }

    /// The structural invariant: one outgoing-edge bitmap per node, edge ids
    /// fit in 16 bits, endpoints are nodes of the query graph, and a node's
    /// bitmap holds exactly the present edges having it as source.
    pub open spec fn inv(self) -> bool {
        &&& self.edges_of_node@.len() == self.n_nodes()
        &&& self.n_edges() <= u16::MAX
        &&& forall|e: u16|
            #[trigger] self.has_edge(e)
                ==> self.edge_at(e).source_node < self.n_nodes()
                    && self.edge_at(e).dest_node < self.n_nodes()
        &&& forall|s: int, e: u16|
            0 <= s < self.n_nodes()
                ==> ((#[trigger] self.edges_of_node@[s].spec_contains(e))
                    <==> (self.has_edge(e) && self.edge_at(e).source_node == s))
    }

    /// An edgeless graph over `query_graph`, able to hold up to `max_edges`
    /// edges.
    pub fn new(query_graph: QueryGraph, max_edges: u16) -> (r: Self)
        ensures
            r.inv(),
            r.query_graph == query_graph,
            r.n_edges() == 0,
            r.conditions_interner.spec_store().len() == 0,
            forall|s: int, e: u16|
                0 <= s < r.n_nodes() && e < max_edges
                    ==> #[trigger] r.edges_of_node@[s].in_capacity(e),
    {
        let n_nodes = query_graph.n_nodes;
        let mut edges_of_node: Vec<SmallBitmap> = Vec::new();
        let mut s: usize = 0;
        while s < n_nodes as usize
            invariant
                s <= n_nodes as usize,
                edges_of_node@.len() == s,
                forall|j: int, e: u16|
                    0 <= j < s ==> !(#[trigger] edges_of_node@[j].spec_contains(e)),
                forall|j: int, e: u16|
                    0 <= j < s && e < max_edges
                        ==> #[trigger] edges_of_node@[j].in_capacity(e),
            decreases n_nodes as usize - s,
        {
            edges_of_node.push(SmallBitmap::new(max_edges));
            s += 1;
        }
        RankingRuleGraph {
            query_graph,
            edges_store: Vec::new(),
            edges_of_node,
            conditions_interner: Interner::new(),
        }
    }

    /// Append an edge from `source_node` to `dest_node`, returning its id.
    pub fn add_edge(
        &mut self,
        source_node: u16,
        dest_node: u16,
        cost: u8,
        condition: EdgeCondition<G::EdgeCondition>,
    ) -> (r: u16)
        requires
            old(self).inv(),
            source_node < old(self).n_nodes(),
            dest_node < old(self).n_nodes(),
            old(self).n_edges() < u16::MAX,
            old(self).edges_of_node@[source_node as int].in_capacity(
                old(self).n_edges() as u16),
        ensures
            final(self).inv(),
            r == old(self).n_edges(),
            final(self).n_edges() == old(self).n_edges() + 1,
            final(self).has_edge(r),
            final(self).edge_at(r) == (Edge {
                source_node,
                dest_node,
                cost,
                condition,
            }),
            forall|e: u16| e != r ==> #[trigger] final(self).has_edge(e)
                == old(self).has_edge(e),
            forall|e: u16| e != r && old(self).has_edge(e)
                ==> #[trigger] final(self).edge_at(e) == old(self).edge_at(e),
            final(self).query_graph == old(self).query_graph,
            final(self).conditions_interner == old(self).conditions_interner,
            forall|s: int, e: u16|
                0 <= s < old(self).n_nodes()
                    && old(self).edges_of_node@[s].in_capacity(e)
                    ==> #[trigger] final(self).edges_of_node@[s].in_capacity(e),
    {
        let edge_index = self.edges_store.len() as u16;
        self.edges_store.push(Some(Edge { source_node, dest_node, cost, condition }));
        self.edges_of_node[source_node as usize].insert(edge_index);
        proof {
            assert(self.edges_store@[edge_index as int]
                == Some(Edge { source_node, dest_node, cost, condition }));
            assert forall|e: u16| #[trigger] self.has_edge(e) implies
                self.edge_at(e).source_node < self.n_nodes()
                    && self.edge_at(e).dest_node < self.n_nodes() by {
                if e != edge_index {
                    assert(self.edges_store@[e as int] == old(self).edges_store@[e as int]);
                    assert(old(self).has_edge(e));
                }
            }
            assert forall|s: int, e: u16|
                0 <= s < self.n_nodes() implies
                ((#[trigger] self.edges_of_node@[s].spec_contains(e))
                    <==> (self.has_edge(e) && self.edge_at(e).source_node == s)) by {
                if e < old(self).n_edges() {
                    assert(self.edges_store@[e as int] == old(self).edges_store@[e as int]);
                }
            }
        }
        edge_index
    }

    /// Remove the given edge from the ranking rule graph: empty its slot of
    /// the edge table and clear it from its source node's outgoing bitmap.
    /// Removing an already-absent edge changes nothing.
    pub fn remove_ranking_rule_edge(&mut self, edge_index: u16)
        requires
            old(self).inv(),
            edge_index < old(self).n_edges(),
        ensures
            final(self).inv(),
            !final(self).has_edge(edge_index),
            forall|s: int| 0 <= s < final(self).n_nodes()
                ==> !(#[trigger] final(self).edges_of_node@[s].spec_contains(edge_index)),
            final(self).n_edges() == old(self).n_edges(),
            forall|e: u16| e != edge_index ==> #[trigger] final(self).has_edge(e)
                == old(self).has_edge(e),
            forall|e: u16| e != edge_index && old(self).has_edge(e)
                ==> #[trigger] final(self).edge_at(e) == old(self).edge_at(e),
            final(self).query_graph == old(self).query_graph,
            final(self).conditions_interner == old(self).conditions_interner,
            forall|s: int, e: u16|
                0 <= s < old(self).n_nodes()
                    && old(self).edges_of_node@[s].in_capacity(e)
                    ==> #[trigger] final(self).edges_of_node@[s].in_capacity(e),
    {
        let source_node: u16;
        match &self.edges_store[edge_index as usize] {
            None => {
                return ;
            },
            Some(edge) => {
                source_node = edge.source_node;
            },
        }
        self.edges_store[edge_index as usize] = None;
        proof {
            assert(old(self).has_edge(edge_index));
            assert(old(self).edges_of_node@[source_node as int].spec_contains(edge_index));
            old(self).edges_of_node@[source_node as int].lemma_contains_in_capacity(
                edge_index);
        }
        self.edges_of_node[source_node as usize].remove(edge_index);
        proof {
            assert forall|e: u16| #[trigger] self.has_edge(e) implies
                self.edge_at(e).source_node < self.n_nodes()
                    && self.edge_at(e).dest_node < self.n_nodes() by {
                assert(self.edges_store@[e as int] == old(self).edges_store@[e as int]);
                assert(old(self).has_edge(e));
            }
            assert forall|s: int, e: u16|
                0 <= s < self.n_nodes() implies
                ((#[trigger] self.edges_of_node@[s].spec_contains(e))
                    <==> (self.has_edge(e) && self.edge_at(e).source_node == s)) by {
                if e != edge_index {
                    if e < self.n_edges() {
                        assert(self.edges_store@[e as int] == old(self).edges_store@[e as int]);
                    }
                    assert(old(self).edges_of_node@[s].spec_contains(e)
                        <==> (old(self).has_edge(e) && old(self).edge_at(e).source_node == s));
                }
            }
        }
    }
}

} // verus!
