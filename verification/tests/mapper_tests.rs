use index_lifecycle::index::Index;
use index_lifecycle::index::IndexStats;
use index_lifecycle::index::IndexerConfig;
use index_lifecycle::mapper::IndexMapper;
use index_lifecycle::Error;

fn manager(capacity: usize) -> IndexMapper {
    IndexMapper::new(1000, 500, capacity, false, IndexerConfig::new())
}

#[test]
fn create_open_delete_round_trip() {
    let mut m = manager(4);
    let h = m.create_index("books", Some((100, 100))).unwrap();
    assert_eq!(h.map_size, 1000);
    assert_eq!(h.created_at, 100);
    assert!(m.has_index("books"));
    assert!(m.index_exists("books"));
    let h2 = m.index("books").unwrap();
    assert_eq!(h2.uuid, h.uuid);
    m.delete_index("books").unwrap();
    assert!(!m.has_index("books"));
    assert!(matches!(m.index("books"), Err(Error::IndexNotFound(_))));
}

#[test]
fn create_twice_returns_same_index() {
    let mut m = manager(4);
    let h1 = m.create_index("a", Some((1, 2))).unwrap();
    let h2 = m.create_index("a", None).unwrap();
    assert_eq!(h1.uuid, h2.uuid);
    assert_eq!(h2.created_at, 1);
    assert_eq!(h2.updated_at, 2);
}

#[test]
fn create_without_dates_uses_one_instant() {
    let mut m = manager(4);
    let h = m.create_index("x", None).unwrap();
    assert_eq!(h.created_at, h.updated_at);
}

#[test]
fn swap_preserves_stats() {
    let mut m = manager(4);
    m.create_index("a", Some((0, 0))).unwrap();
    m.create_index("b", Some((0, 0))).unwrap();
    let stats_a = IndexStats {
        number_of_documents: 5,
        database_size: 50,
        field_distribution: vec![(String::from("title"), 5)],
        created_at: 0,
        updated_at: 0,
    };
    let stats_b = IndexStats {
        number_of_documents: 9,
        database_size: 90,
        field_distribution: vec![(String::from("title"), 9)],
        created_at: 0,
        updated_at: 0,
    };
    m.store_stats_of("a", &stats_a).unwrap();
    m.store_stats_of("b", &stats_b).unwrap();
    m.swap("a", "b").unwrap();
    let a_now = m.stats_of("a").unwrap();
    let b_now = m.stats_of("b").unwrap();
    assert_eq!(a_now.number_of_documents, 9);
    assert_eq!(a_now.database_size, 90);
    assert_eq!(b_now.number_of_documents, 5);
    assert_eq!(b_now.database_size, 50);
}

#[test]
fn swap_exchanges_handles() {
    let mut m = manager(4);
    let ha = m.create_index("a", Some((0, 0))).unwrap();
    let hb = m.create_index("b", Some((0, 0))).unwrap();
    m.swap("a", "b").unwrap();
    assert_eq!(m.index("a").unwrap().uuid, hb.uuid);
    assert_eq!(m.index("b").unwrap().uuid, ha.uuid);
}

#[test]
fn swap_with_itself_is_identity() {
    let mut m = manager(4);
    let h = m.create_index("a", Some((0, 0))).unwrap();
    m.swap("a", "a").unwrap();
    assert_eq!(m.index("a").unwrap().uuid, h.uuid);
}

#[test]
fn capacity_eviction_keeps_indexes_reachable() {
    let mut m = manager(2);
    let hx = m.create_index("x", Some((0, 0))).unwrap();
    m.create_index("y", Some((0, 0))).unwrap();
    m.create_index("z", Some((0, 0))).unwrap();
    // "x" was evicted to make room; opening it again reopens it
    let hx2 = m.index("x").unwrap();
    assert_eq!(hx2.uuid, hx.uuid);
    assert_eq!(hx2.map_size, 1000);
}

#[test]
fn resize_then_open_grows_map_size() {
    let mut m = manager(4);
    let h = m.create_index("i", Some((0, 0))).unwrap();
    assert_eq!(h.map_size, 1000);
    m.resize_index("i").unwrap();
    let h2 = m.index("i").unwrap();
    assert_eq!(h2.uuid, h.uuid);
    assert_eq!(h2.map_size, 1500);
}

#[test]
fn delete_while_closing_succeeds() {
    let mut m = manager(4);
    m.create_index("i", Some((0, 0))).unwrap();
    m.resize_index("i").unwrap();
    m.delete_index("i").unwrap();
    assert!(!m.has_index("i"));
    assert!(matches!(m.index("i"), Err(Error::IndexNotFound(_))));
}

#[test]
fn missing_name_is_reported() {
    let mut m = manager(4);
    match m.index("nope") {
        Err(Error::IndexNotFound(n)) => assert_eq!(n, "nope"),
        _ => panic!("expected IndexNotFound"),
    }
    match m.swap("nope", "also-nope") {
        Err(Error::IndexNotFound(n)) => assert_eq!(n, "nope"),
        _ => panic!("expected IndexNotFound"),
    }
    assert!(matches!(m.delete_index("nope"), Err(Error::IndexNotFound(_))));
    assert!(matches!(m.resize_index("nope"), Err(Error::IndexNotFound(_))));
    assert!(matches!(m.stats_of("nope"), Err(Error::IndexNotFound(_))));
    let stats = IndexStats {
        number_of_documents: 0,
        database_size: 0,
        field_distribution: Vec::new(),
        created_at: 0,
        updated_at: 0,
    };
    assert!(matches!(m.store_stats_of("nope", &stats), Err(Error::IndexNotFound(_))));
}

#[test]
fn index_names_come_out_in_name_order() {
    let mut m = manager(4);
    m.create_index("bb", Some((0, 0))).unwrap();
    m.create_index("aa", Some((0, 0))).unwrap();
    m.create_index("ab", Some((0, 0))).unwrap();
    let names = m.index_names();
    assert_eq!(names, vec![String::from("aa"), String::from("ab"), String::from("bb")]);
}

#[test]
fn install_fresh_rejects_a_used_identifier() {
    let mut m = manager(4);
    let h = m.create_index("a", Some((0, 0))).unwrap();
    match m.install_fresh("b", h.uuid, Some((0, 0))) {
        Err(Error::IndexAlreadyExists(n)) => assert_eq!(n, "b"),
        _ => panic!("expected IndexAlreadyExists"),
    }
    assert!(!m.has_index("b"));
    let h2 = m.install_fresh("b", h.uuid.wrapping_add(1), Some((0, 0))).unwrap();
    assert!(m.has_index("b"));
    assert_eq!(h2.uuid, h.uuid.wrapping_add(1));
}

#[test]
fn index_names_tracks_creates_and_deletes() {
    let mut m = manager(4);
    m.create_index("a", Some((0, 0))).unwrap();
    m.create_index("b", Some((0, 0))).unwrap();
    m.create_index("c", Some((0, 0))).unwrap();
    m.delete_index("b").unwrap();
    let names = m.index_names();
    assert_eq!(names, vec![String::from("a"), String::from("c")]);
}

#[test]
fn repeated_create_delete_leaves_nothing() {
    let mut m = manager(2);
    for round in 0..5u32 {
        let name = format!("idx-{}", round % 2);
        m.create_index(&name, Some((0, 0))).unwrap();
        m.delete_index(&name).unwrap();
        assert!(!m.has_index(&name));
        assert!(matches!(m.index(&name), Err(Error::IndexNotFound(_))));
    }
    assert!(m.index_names().is_empty());
}

#[test]
fn fresh_identifiers_differ() {
    let mut m = manager(4);
    let ha = m.create_index("a", Some((0, 0))).unwrap();
    let hb = m.create_index("b", Some((0, 0))).unwrap();
    assert_ne!(ha.uuid, hb.uuid);
}

#[test]
fn stats_of_computes_fresh_when_not_cached() {
    let mut m = manager(4);
    m.create_index("a", Some((7, 8))).unwrap();
    let st = m.stats_of("a").unwrap();
    assert_eq!(st.number_of_documents, 0);
    assert_eq!(st.database_size, 0);
    assert_eq!(st.created_at, 7);
    assert_eq!(st.updated_at, 8);
    assert!(st.field_distribution.is_empty());
}

#[test]
fn stats_are_deleted_with_the_index() {
    let mut m = manager(4);
    m.create_index("a", Some((0, 0))).unwrap();
    let stats = IndexStats {
        number_of_documents: 3,
        database_size: 30,
        field_distribution: Vec::new(),
        created_at: 0,
        updated_at: 0,
    };
    m.store_stats_of("a", &stats).unwrap();
    m.delete_index("a").unwrap();
    // a new index under the same name starts without the old stats
    m.create_index("a", Some((0, 0))).unwrap();
    let st = m.stats_of("a").unwrap();
    assert_eq!(st.number_of_documents, 0);
}

#[test]
fn try_for_each_index_visits_every_index() {
    let mut m = manager(2);
    m.create_index("a", Some((0, 0))).unwrap();
    m.create_index("b", Some((0, 0))).unwrap();
    m.create_index("c", Some((0, 0))).unwrap();
    let f = |name: &str, _idx: &Index| -> Result<usize, Error> { Ok(name.len()) };
    let lens = m.try_for_each_index(&f).unwrap();
    assert_eq!(lens, vec![1, 1, 1]);
}

#[test]
fn try_for_each_index_stops_on_error() {
    let mut m = manager(4);
    m.create_index("a", Some((0, 0))).unwrap();
    m.create_index("b", Some((0, 0))).unwrap();
    let f = |name: &str, _idx: &Index| -> Result<usize, Error> {
        if name == "b" {
            Err(Error::IndexNotFound(String::from(name)))
        } else {
            Ok(0)
        }
    };
    assert!(m.try_for_each_index(&f).is_err());
}

#[test]
fn error_carries_the_name() {
    let e = Error::IndexNotFound(String::from("books"));
    assert_eq!(e.index_name(), "books");
    let e2 = Error::IndexAlreadyExists(String::from("films"));
    assert_eq!(e2.index_name(), "films");
}

#[test]
fn duplicate_copies_stats_deeply() {
    let stats = IndexStats {
        number_of_documents: 2,
        database_size: 20,
        field_distribution: vec![(String::from("f"), 2)],
        created_at: 1,
        updated_at: 2,
    };
    let copy = stats.duplicate();
    assert_eq!(copy.number_of_documents, 2);
    assert_eq!(copy.field_distribution, vec![(String::from("f"), 2)]);
}

#[test]
fn stats_new_reads_the_index() {
    let idx = Index {
        uuid: 7,
        map_size: 1000,
        number_of_documents: 11,
        database_size: 110,
        field_distribution: vec![(String::from("t"), 11)],
        created_at: 5,
        updated_at: 6,
    };
    let st = IndexStats::new(&idx);
    assert_eq!(st.number_of_documents, 11);
    assert_eq!(st.database_size, 110);
    assert_eq!(st.field_distribution, vec![(String::from("t"), 11)]);
    assert_eq!(st.created_at, 5);
    assert_eq!(st.updated_at, 6);
}
