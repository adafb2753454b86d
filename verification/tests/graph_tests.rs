use index_lifecycle::interner::Interner;
use index_lifecycle::proximity::ProximityCondition;
use index_lifecycle::ranking_rule_graph::Edge;
use index_lifecycle::ranking_rule_graph::EdgeCondition;
use index_lifecycle::ranking_rule_graph::QueryGraph;
use index_lifecycle::ranking_rule_graph::RankingRuleGraph;
use index_lifecycle::ranking_rule_graph::RankingRuleGraphTrait;
use index_lifecycle::small_bitmap::SmallBitmap;
use index_lifecycle::Error;
use roaring::RoaringBitmap;

/// A small graph-based ranking rule over proximity conditions, for
/// exercising the graph from the outside.
struct ToyGraph;

impl RankingRuleGraphTrait for ToyGraph {
    type EdgeCondition = ProximityCondition;
    type Context = ();

    fn label_for_edge_condition(edge: &ProximityCondition) -> String {
        format!("{} near {}", edge.left_term, edge.right_term)
    }

    fn resolve_edge_condition(
        _ctx: &mut (),
        edge_condition: &ProximityCondition,
        universe: &RoaringBitmap,
    ) -> Result<RoaringBitmap, Error> {
        // keep the documents whose id is a multiple of the distance bound
        let mut out = RoaringBitmap::new();
        for doc in universe {
            if edge_condition.proximity != 0 && doc % edge_condition.proximity as u32 == 0 {
                out.insert(doc);
            }
        }
        Ok(out)
    }

    fn build_edges(
        _ctx: &mut (),
        conditions_interner: &mut Interner<ProximityCondition>,
        source_node: u16,
        dest_node: u16,
    ) -> Result<Vec<(u8, EdgeCondition<ProximityCondition>)>, Error> {
        let cond = ProximityCondition {
            left_term: source_node,
            right_term: dest_node,
            proximity: 2,
        };
        let id = conditions_interner.insert(cond).unwrap();
        Ok(vec![(0, EdgeCondition::Unconditional), (2, EdgeCondition::Conditional(id))])
    }

    fn log_state(_graph: &RankingRuleGraph<Self>, _universe: &RoaringBitmap, _cost: u16) {}
}

fn toy_graph() -> RankingRuleGraph<ToyGraph> {
    RankingRuleGraph::new(QueryGraph { n_nodes: 4, root_node: 0, end_node: 3 }, 16)
}

#[test]
fn small_bitmap_insert_contains_remove() {
    let mut b = SmallBitmap::new(130);
    assert!(!b.contains(0));
    b.insert(0);
    b.insert(63);
    b.insert(64);
    b.insert(129);
    assert!(b.contains(0));
    assert!(b.contains(63));
    assert!(b.contains(64));
    assert!(b.contains(129));
    assert!(!b.contains(1));
    assert!(!b.contains(128));
    b.remove(63);
    assert!(!b.contains(63));
    assert!(b.contains(0));
    assert!(b.contains(64));
}

#[test]
fn interner_shares_ids_for_equal_conditions() {
    let mut interner: Interner<ProximityCondition> = Interner::new();
    let c1 = ProximityCondition { left_term: 1, right_term: 2, proximity: 3 };
    let c2 = ProximityCondition { left_term: 1, right_term: 2, proximity: 3 };
    let c3 = ProximityCondition { left_term: 1, right_term: 2, proximity: 4 };
    let id1 = interner.insert(c1).unwrap();
    let id2 = interner.insert(c2).unwrap();
    let id3 = interner.insert(c3).unwrap();
    assert_eq!(id1.into_raw(), id2.into_raw());
    assert_ne!(id1.into_raw(), id3.into_raw());
    assert_eq!(interner.len(), 2);
    assert_eq!(*interner.get(id1), c1);
    assert_eq!(*interner.get(id3), c3);
}

#[test]
fn add_edge_assigns_sequential_ids() {
    let mut g = toy_graph();
    let e0 = g.add_edge(0, 1, 1, EdgeCondition::Unconditional);
    let e1 = g.add_edge(1, 2, 2, EdgeCondition::Unconditional);
    let e2 = g.add_edge(0, 2, 3, EdgeCondition::Unconditional);
    assert_eq!((e0, e1, e2), (0, 1, 2));
    assert!(g.edges_of_node[0].contains(0));
    assert!(g.edges_of_node[0].contains(2));
    assert!(g.edges_of_node[1].contains(1));
    assert!(!g.edges_of_node[1].contains(0));
    let edge: &Edge<ProximityCondition> = g.edges_store[1].as_ref().unwrap();
    assert_eq!(edge.source_node, 1);
    assert_eq!(edge.dest_node, 2);
    assert_eq!(edge.cost, 2);
}

#[test]
fn remove_edge_clears_store_and_bitmap() {
    let mut g = toy_graph();
    g.add_edge(0, 1, 1, EdgeCondition::Unconditional);
    g.add_edge(0, 2, 2, EdgeCondition::Unconditional);
    g.add_edge(1, 2, 3, EdgeCondition::Unconditional);
    g.remove_ranking_rule_edge(1);
    assert!(g.edges_store[1].is_none());
    assert!(!g.edges_of_node[0].contains(1));
    // the other edges stay
    assert!(g.edges_store[0].is_some());
    assert!(g.edges_store[2].is_some());
    assert!(g.edges_of_node[0].contains(0));
    assert!(g.edges_of_node[1].contains(2));
    // removing an already-absent edge changes nothing
    g.remove_ranking_rule_edge(1);
    assert!(g.edges_store[1].is_none());
    assert!(g.edges_of_node[0].contains(0));
}

#[test]
fn cloned_graph_matches_the_original() {
    let mut g = toy_graph();
    g.add_edge(0, 1, 1, EdgeCondition::Unconditional);
    g.add_edge(1, 2, 2, EdgeCondition::Unconditional);
    g.remove_ranking_rule_edge(0);
    let copy = g.clone();
    assert_eq!(copy.query_graph.n_nodes, 4);
    assert!(copy.edges_store[0].is_none());
    assert!(copy.edges_store[1].is_some());
    assert!(!copy.edges_of_node[0].contains(0));
    assert!(copy.edges_of_node[1].contains(1));
}

#[test]
fn duplicated_bitmap_matches_the_original() {
    let mut b = SmallBitmap::new(70);
    b.insert(5);
    b.insert(65);
    let copy = b.duplicate();
    assert!(copy.contains(5));
    assert!(copy.contains(65));
    assert!(!copy.contains(6));
}

#[test]
fn duplicated_interner_keeps_ids() {
    let mut interner: Interner<ProximityCondition> = Interner::new();
    let c = ProximityCondition { left_term: 8, right_term: 9, proximity: 1 };
    let id = interner.insert(c).unwrap();
    let mut copy = interner.duplicate();
    assert_eq!(*copy.get(id), c);
    let id2 = copy.insert(c).unwrap();
    assert_eq!(id.into_raw(), id2.into_raw());
}

#[test]
fn edge_condition_is_copied() {
    let mut interner: Interner<ProximityCondition> = Interner::new();
    let id = interner
        .insert(ProximityCondition { left_term: 0, right_term: 1, proximity: 1 })
        .unwrap();
    let cond = EdgeCondition::Conditional(id);
    let copy = cond.clone();
    match (cond, copy) {
        (EdgeCondition::Conditional(a), EdgeCondition::Conditional(b)) => {
            assert_eq!(a.into_raw(), b.into_raw());
        }
        _ => panic!("expected conditional edges"),
    }
}

#[test]
fn built_edges_resolve_against_a_universe() {
    let mut g = toy_graph();
    let edges = ToyGraph::build_edges(&mut (), &mut g.conditions_interner, 0, 1).unwrap();
    assert_eq!(edges.len(), 2);
    let mut universe = RoaringBitmap::new();
    for doc in 0..10u32 {
        universe.insert(doc);
    }
    match edges[1].1 {
        EdgeCondition::Conditional(id) => {
            let cond = *g.conditions_interner.get(id);
            let docs = ToyGraph::resolve_edge_condition(&mut (), &cond, &universe).unwrap();
            // multiples of 2 below 10
            assert_eq!(docs.len(), 5);
            assert!(docs.contains(4));
            assert!(!docs.contains(5));
        }
        EdgeCondition::Unconditional => panic!("expected a conditional edge"),
    }
    let label = ToyGraph::label_for_edge_condition(&ProximityCondition {
        left_term: 3,
        right_term: 9,
        proximity: 1,
    });
    assert_eq!(label, "3 near 9");
}
