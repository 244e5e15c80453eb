use state_group_reach::closure::{apply_round, missing_ids, NodeRecord};
use state_group_reach::propagate::{propagate, propagate_checked, BrokenInvariantError, PropagateStats};
use state_group_reach::report::unreferenced_ids;
use state_group_reach::store::GraphStore;

/// One row of an in-memory node source: (id, child, parent, referenced).
type Row = (i64, Option<i64>, Option<i64>, bool);

fn record(row: &Row) -> NodeRecord {
    NodeRecord { id: row.0, child: row.1, parent: row.2, directly_referenced: row.3 }
}

fn load(g: &mut GraphStore, rows: &[Row]) {
    for row in rows {
        g.upsert(row.0, row.1, row.2, row.3).expect("bulk rows must be consistent");
    }
}

/// Drive the store to its closure fixpoint against an in-memory source:
/// fetch rounds answer from `source`, ids absent there stay dangling.
/// Returns the total number of dangling references found.
fn complete_closure(g: &mut GraphStore, source: &[Row]) -> usize {
    let mut frontier = g.all_ids();
    let mut dangling_total = 0;
    loop {
        let missing = missing_ids(g, &frontier);
        if missing.is_empty() {
            return dangling_total;
        }
        let mut records = Vec::new();
        for row in source {
            if missing.contains(&row.0) {
                records.push(record(row));
            }
        }
        let outcome = apply_round(g, &missing, &records).expect("fetched rows must be consistent");
        dangling_total += outcome.dangling.len();
        frontier = outcome.resolved;
    }
}

fn run(bulk: &[Row], source: &[Row]) -> (GraphStore, usize, PropagateStats) {
    let mut g = GraphStore::new();
    load(&mut g, bulk);
    let dangling = complete_closure(&mut g, source);
    let stats = propagate(&mut g);
    (g, dangling, stats)
}

fn sorted(mut v: Vec<i64>) -> Vec<i64> {
    v.sort();
    v
}

#[test]
fn chain_of_three_leaf_referenced() {
    // 1 <- 2 <- 3, only node 3 directly referenced: everything is live.
    let rows: Vec<Row> = vec![
        (1, Some(2), None, false),
        (2, Some(3), Some(1), false),
        (3, None, Some(2), true),
    ];
    let (g, dangling, _) = run(&rows, &[]);
    assert_eq!(dangling, 0);
    assert_eq!(unreferenced_ids(&g), Vec::<i64>::new());
    for id in [1, 2, 3] {
        assert!(g.get(id).unwrap().live);
    }
}

#[test]
fn side_branch_referenced() {
    // 1 <- 2 <- 3 and 1 <- 4, only node 4 directly referenced:
    // live = {1, 4}, unreferenced = {2, 3}.
    let rows: Vec<Row> = vec![
        (1, Some(2), None, false),
        (1, Some(4), None, false),
        (2, Some(3), Some(1), false),
        (3, None, Some(2), false),
        (4, None, Some(1), true),
    ];
    let (g, dangling, _) = run(&rows, &[]);
    assert_eq!(dangling, 0);
    assert_eq!(sorted(unreferenced_ids(&g)), vec![2, 3]);
    assert!(g.get(1).unwrap().live);
    assert!(g.get(4).unwrap().live);
    assert!(!g.get(2).unwrap().live);
    assert!(!g.get(3).unwrap().live);
}

#[test]
fn dangling_parent_is_counted_and_walk_truncates() {
    // The bulk load knows node 5 with parent 6, but no fetch ever returns
    // a record for 6: one dangling reference, and node 5's liveness comes
    // from its own flag alone.
    let bulk: Vec<Row> = vec![(5, None, Some(6), true)];
    let (g, dangling, stats) = run(&bulk, &[]);
    assert_eq!(dangling, 1);
    assert!(g.get(5).unwrap().live);
    assert!(g.get(6).is_none());
    assert_eq!(stats.truncated, 1);
    assert_eq!(unreferenced_ids(&g), Vec::<i64>::new());
}

#[test]
fn dangling_parent_unreferenced_node_stays_dead() {
    let bulk: Vec<Row> = vec![(5, None, Some(6), false)];
    let (g, dangling, stats) = run(&bulk, &[]);
    assert_eq!(dangling, 1);
    assert!(!g.get(5).unwrap().live);
    // no walk starts, so nothing is truncated
    assert_eq!(stats.truncated, 0);
    assert_eq!(unreferenced_ids(&g), vec![5]);
}

#[test]
fn shared_ancestors_flipped_exactly_once() {
    // Nodes 3 and 4 are referenced and share the ancestor chain 1 <- 2:
    // each ancestor flips exactly once, so only two flips happen.
    let rows: Vec<Row> = vec![
        (1, Some(2), None, false),
        (2, Some(3), Some(1), false),
        (2, Some(4), Some(1), false),
        (3, None, Some(2), true),
        (4, None, Some(2), true),
    ];
    let (g, dangling, stats) = run(&rows, &[]);
    assert_eq!(dangling, 0);
    assert_eq!(stats.flips, 2);
    assert_eq!(unreferenced_ids(&g), Vec::<i64>::new());
}

#[test]
fn propagation_work_is_linear_in_the_graph() {
    // A parent chain of length 50 with 30 referenced leaves hanging off
    // its tail. With the early stop, the first leaf's walk climbs the
    // whole chain (50 flips + 1 closing step) and every other leaf stops
    // after a single step: 80 steps in all, far below the 50 * 30 a
    // quadratic scan would need.
    let chain_len: i64 = 50;
    let leaves: i64 = 30;
    let mut rows: Vec<Row> = Vec::new();
    for id in 1..=chain_len {
        let parent = if id == 1 { None } else { Some(id - 1) };
        rows.push((id, None, parent, false));
    }
    for k in 0..leaves {
        let id = 100 + k;
        rows.push((id, None, Some(chain_len), true));
    }
    let (g, dangling, stats) = run(&rows, &[]);
    assert_eq!(dangling, 0);
    assert_eq!(stats.flips, 50);
    assert_eq!(stats.steps, 80);
    assert!(stats.steps <= 2 * (chain_len + leaves) as u128);
    assert_eq!(unreferenced_ids(&g), Vec::<i64>::new());
}

#[test]
fn closure_fetches_rounds_until_fixpoint() {
    // The bulk load only knows node 10; its parent 20 and child 30 come
    // from a first fetch round, node 20's parent 40 from a second.
    let bulk: Vec<Row> = vec![(10, Some(30), Some(20), false)];
    let source: Vec<Row> = vec![
        (20, Some(10), Some(40), false),
        (30, None, Some(10), true),
        (40, Some(20), None, false),
    ];
    let (g, dangling, _) = run(&bulk, &source);
    assert_eq!(dangling, 0);
    assert_eq!(g.len(), 4);
    // 30 is referenced, so 30, 10, 20 and 40 are all live
    assert_eq!(unreferenced_ids(&g), Vec::<i64>::new());
}

#[test]
fn closure_reports_each_missing_id_once() {
    let bulk: Vec<Row> = vec![
        (1, None, Some(7), false),
        (2, None, Some(7), false),
        (3, None, Some(8), true),
    ];
    let mut g = GraphStore::new();
    load(&mut g, &bulk);
    let frontier = g.all_ids();
    let missing = missing_ids(&g, &frontier);
    assert_eq!(sorted(missing.clone()), vec![7, 8]);
    // neither 7 nor 8 exists in the source
    let outcome = apply_round(&mut g, &missing, &Vec::new()).unwrap();
    assert_eq!(outcome.resolved, Vec::<i64>::new());
    assert_eq!(sorted(outcome.dangling), vec![7, 8]);
    // the next round starts from an empty frontier and finds nothing new
    let next = missing_ids(&g, &outcome.resolved);
    assert_eq!(next, Vec::<i64>::new());
}

#[test]
fn round_outcome_splits_resolved_and_dangling() {
    let mut g = GraphStore::new();
    load(&mut g, &[(1, None, Some(2), false)]);
    let missing = vec![2, 3];
    let records = vec![NodeRecord { id: 2, child: Some(1), parent: None, directly_referenced: false }];
    let outcome = apply_round(&mut g, &missing, &records).unwrap();
    assert_eq!(outcome.resolved, vec![2]);
    assert_eq!(outcome.dangling, vec![3]);
    assert!(g.contains(2));
    assert!(!g.contains(3));
}

#[test]
fn checked_propagation_accepts_recorded_dangling() {
    let mut g = GraphStore::new();
    g.upsert(5, None, Some(6), true).unwrap();
    let stats = propagate_checked(&mut g, &vec![6]).unwrap();
    assert_eq!(stats.truncated, 1);
    assert!(g.get(5).unwrap().live);
}

#[test]
fn checked_propagation_rejects_unaccounted_parent() {
    // parent 6 is neither known nor recorded as dangling: the closure
    // fixpoint was not reached, so checked propagation refuses to run
    let mut g = GraphStore::new();
    g.upsert(5, None, Some(6), false).unwrap();
    let err = propagate_checked(&mut g, &Vec::new()).unwrap_err();
    assert_eq!(err, BrokenInvariantError { id: 6 });
    // the store is untouched
    assert!(!g.get(5).unwrap().live);
    assert_eq!(g.len(), 1);
}
