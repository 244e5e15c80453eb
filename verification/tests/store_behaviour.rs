use state_group_reach::closure::{apply_round, missing_ids, NodeRecord};
use state_group_reach::store::{DataConsistencyError, GraphStore};

fn assert_same_node(a: &GraphStore, b: &GraphStore, id: i64) {
    let na = a.get(id).unwrap();
    let nb = b.get(id).unwrap();
    assert_eq!(na.children, nb.children);
    assert_eq!(na.parent, nb.parent);
    assert_eq!(na.directly_referenced, nb.directly_referenced);
    assert_eq!(na.live, nb.live);
}

#[test]
fn upsert_twice_equals_upsert_once() {
    let mut once = GraphStore::new();
    once.upsert(1, Some(2), Some(9), true).unwrap();
    let mut twice = GraphStore::new();
    twice.upsert(1, Some(2), Some(9), true).unwrap();
    twice.upsert(1, Some(2), Some(9), true).unwrap();
    assert_eq!(once.len(), twice.len());
    assert_same_node(&once, &twice, 1);
}

#[test]
fn upsert_creates_node_with_live_from_referenced() {
    let mut g = GraphStore::new();
    g.upsert(7, None, None, true).unwrap();
    g.upsert(8, None, None, false).unwrap();
    assert!(g.get(7).unwrap().live);
    assert!(!g.get(8).unwrap().live);
    assert!(g.contains(7));
    assert!(!g.contains(9));
    assert_eq!(g.len(), 2);
}

#[test]
fn upsert_merges_child_edges_without_duplicates() {
    let mut g = GraphStore::new();
    g.upsert(1, Some(2), None, false).unwrap();
    g.upsert(1, Some(3), None, false).unwrap();
    g.upsert(1, Some(2), None, false).unwrap();
    assert_eq!(g.get(1).unwrap().children, vec![2, 3]);
}

#[test]
fn upsert_rejects_changed_parent() {
    let mut g = GraphStore::new();
    g.upsert(1, None, Some(2), false).unwrap();
    let err = g.upsert(1, None, Some(3), false).unwrap_err();
    assert_eq!(err, DataConsistencyError { id: 1 });
    // the store is unchanged
    assert_eq!(g.get(1).unwrap().parent, Some(2));
    assert_eq!(g.len(), 1);
}

#[test]
fn upsert_rejects_changed_referenced_flag() {
    let mut g = GraphStore::new();
    g.upsert(4, None, None, true).unwrap();
    let err = g.upsert(4, None, None, false).unwrap_err();
    assert_eq!(err, DataConsistencyError { id: 4 });
    assert!(g.get(4).unwrap().directly_referenced);
}

#[test]
fn apply_round_stops_at_first_inconsistent_record() {
    let mut g = GraphStore::new();
    g.upsert(1, None, Some(5), false).unwrap();
    let records = vec![
        NodeRecord { id: 2, child: None, parent: None, directly_referenced: false },
        NodeRecord { id: 1, child: None, parent: Some(6), directly_referenced: false },
    ];
    let err = apply_round(&mut g, &Vec::new(), &records).unwrap_err();
    assert_eq!(err, DataConsistencyError { id: 1 });
    // the record before the bad one was merged
    assert!(g.contains(2));
    assert_eq!(g.get(1).unwrap().parent, Some(5));
}

#[test]
fn all_ids_lists_every_node_once() {
    let mut g = GraphStore::new();
    g.upsert(3, None, None, false).unwrap();
    g.upsert(1, Some(3), None, false).unwrap();
    g.upsert(2, None, None, true).unwrap();
    let mut ids = g.all_ids();
    ids.sort();
    assert_eq!(ids, vec![1, 2, 3]);
}

#[test]
fn missing_ids_skips_known_and_deduplicates() {
    let mut g = GraphStore::new();
    g.upsert(1, Some(2), Some(9), false).unwrap();
    g.upsert(2, Some(9), None, false).unwrap();
    // 2 is known; 9 is missing, mentioned both as a parent and as a child
    let frontier = g.all_ids();
    let mut missing = missing_ids(&g, &frontier);
    missing.sort();
    assert_eq!(missing, vec![9]);
    // a frontier id without a record is skipped
    let none = missing_ids(&g, &vec![42]);
    assert_eq!(none, Vec::<i64>::new());
}

#[test]
fn empty_store_has_nothing_to_do() {
    let mut g = GraphStore::new();
    assert_eq!(g.len(), 0);
    assert_eq!(g.all_ids(), Vec::<i64>::new());
    let missing = missing_ids(&g, &g.all_ids());
    assert_eq!(missing, Vec::<i64>::new());
    let stats = state_group_reach::propagate::propagate(&mut g);
    assert_eq!(stats.steps, 0);
    assert_eq!(stats.flips, 0);
    assert_eq!(state_group_reach::report::unreferenced_ids(&g), Vec::<i64>::new());
}

#[test]
fn child_known_before_its_own_record() {
    // node 2 is discovered as a child of 1 before its own record arrives;
    // the closure round then brings it in
    let mut g = GraphStore::new();
    g.upsert(1, Some(2), None, false).unwrap();
    assert!(!g.contains(2));
    let missing = missing_ids(&g, &g.all_ids());
    assert_eq!(missing, vec![2]);
    let records = vec![NodeRecord { id: 2, child: None, parent: Some(1), directly_referenced: true }];
    let outcome = apply_round(&mut g, &missing, &records).unwrap();
    assert_eq!(outcome.resolved, vec![2]);
    assert_eq!(outcome.dangling, Vec::<i64>::new());
    assert!(g.get(2).unwrap().directly_referenced);
}
