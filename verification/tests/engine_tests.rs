use mdcache::engine::{Db, EvalError};
use mdcache::query::{Dep, Op, Rule};

// The query table of the worked example: two inputs A (cell 0) and B
// (cell 1), square(A) = A*A, double(B) = B*2, add = square(A) + double(B).
const SQUARE: usize = 0;
const TWO: usize = 1;
const DOUBLE: usize = 2;
const ADD: usize = 3;

fn example_rules() -> Vec<Rule> {
    vec![
        Rule { op: Op::Prod, children: vec![Dep::Input(0), Dep::Input(0)] },
        Rule { op: Op::Const(2), children: vec![] },
        Rule { op: Op::Prod, children: vec![Dep::Input(1), Dep::Query(TWO)] },
        Rule { op: Op::Sum, children: vec![Dep::Query(SQUARE), Dep::Query(DOUBLE)] },
    ]
}

#[test]
fn worked_example_with_backdated_write_and_real_change() {
    let mut db = Db::new(example_rules());
    db.write_batch(&vec![(0, 3), (1, 5)]);

    assert_eq!(db.evaluate(SQUARE), Ok(9));
    assert_eq!(db.evaluate(ADD), Ok(19));
    let square_runs = db.exec_count(SQUARE);
    let double_runs = db.exec_count(DOUBLE);
    let add_runs = db.exec_count(ADD);

    // re-evaluating without touching inputs re-executes nothing
    assert_eq!(db.evaluate(ADD), Ok(19));
    assert_eq!(db.exec_count(SQUARE), square_runs);
    assert_eq!(db.exec_count(DOUBLE), double_runs);
    assert_eq!(db.exec_count(ADD), add_runs);

    // writing B = 5 again is backdated: nothing re-executes
    db.set_input(1, 5);
    assert_eq!(db.evaluate(ADD), Ok(19));
    assert_eq!(db.exec_count(SQUARE), square_runs);
    assert_eq!(db.exec_count(DOUBLE), double_runs);
    assert_eq!(db.exec_count(ADD), add_runs);

    // writing B = 7 re-executes double and add exactly once, square not at all
    db.set_input(1, 7);
    assert_eq!(db.evaluate(ADD), Ok(23));
    assert_eq!(db.exec_count(SQUARE), square_runs);
    assert_eq!(db.exec_count(DOUBLE), double_runs + 1);
    assert_eq!(db.exec_count(ADD), add_runs + 1);
}

#[test]
fn cache_stability_second_call_is_free() {
    let mut db = Db::new(example_rules());
    db.write_batch(&vec![(0, 4), (1, 6)]);
    let first = db.evaluate(ADD);
    let counts: Vec<u64> = (0..4).map(|q| db.exec_count(q)).collect();
    let second = db.evaluate(ADD);
    assert_eq!(first, second);
    assert_eq!(first, Ok(28));
    for q in 0..4 {
        assert_eq!(db.exec_count(q), counts[q]);
    }
}

#[test]
fn early_cutoff_stops_at_equal_recomputation() {
    // zero = A * 0 recomputes when A changes, but its value stays 0, so its
    // dependent never re-executes
    let rules = vec![
        Rule { op: Op::Const(0), children: vec![] },
        Rule { op: Op::Prod, children: vec![Dep::Input(0), Dep::Query(0)] },
        Rule { op: Op::Sum, children: vec![Dep::Query(1)] },
    ];
    let mut db = Db::new(rules);
    db.set_input(0, 1);
    assert_eq!(db.evaluate(2), Ok(0));
    let zero_runs = db.exec_count(1);
    let dep_runs = db.exec_count(2);

    db.set_input(0, 2);
    assert_eq!(db.evaluate(2), Ok(0));
    assert_eq!(db.exec_count(1), zero_runs + 1);
    assert_eq!(db.exec_count(2), dep_runs);
}

#[test]
fn backdating_keeps_the_change_stamp_on_equal_values() {
    // zero = A * 0: its body re-runs when A moves, its value never moves
    let rules = vec![
        Rule { op: Op::Const(0), children: vec![] },
        Rule { op: Op::Prod, children: vec![Dep::Input(0), Dep::Query(0)] },
    ];
    let mut db = Db::new(rules);
    db.set_input(0, 1);
    assert_eq!(db.evaluate(1), Ok(0));
    let (value, changed, verified) = db.memo_stamp(1).unwrap();
    assert_eq!((value, changed, verified), (0, 2, 2));

    db.set_input(0, 5);
    assert_eq!(db.evaluate(1), Ok(0));
    let (value, changed, verified) = db.memo_stamp(1).unwrap();
    // re-verified at the new revision, but the change stamp is backdated
    assert_eq!((value, changed, verified), (0, 2, 3));
}

#[test]
fn diamond_executes_each_node_once() {
    // q2 depends on q0 and q1, both reading the shared input X
    let rules = vec![
        Rule { op: Op::Sum, children: vec![Dep::Input(0)] },
        Rule { op: Op::Prod, children: vec![Dep::Input(0), Dep::Input(0)] },
        Rule { op: Op::Sum, children: vec![Dep::Query(0), Dep::Query(1)] },
    ];
    let mut db = Db::new(rules);
    db.set_input(0, 5);
    assert_eq!(db.evaluate(2), Ok(30));
    assert_eq!(db.exec_count(0), 1);
    assert_eq!(db.exec_count(1), 1);
    assert_eq!(db.exec_count(2), 1);

    db.set_input(0, 6);
    assert_eq!(db.evaluate(2), Ok(42));
    assert_eq!(db.exec_count(0), 2);
    assert_eq!(db.exec_count(1), 2);
    assert_eq!(db.exec_count(2), 2);
}

#[test]
fn single_flight_within_a_revision() {
    // however many callers request the same key within one revision, the
    // body runs exactly once and everyone sees the same value
    let mut db = Db::new(example_rules());
    db.write_batch(&vec![(0, 2), (1, 3)]);
    let mut results = Vec::new();
    for _ in 0..10 {
        results.push(db.evaluate(ADD));
    }
    assert!(results.iter().all(|r| *r == Ok(10)));
    assert_eq!(db.exec_count(ADD), 1);
    assert_eq!(db.exec_count(SQUARE), 1);
    assert_eq!(db.exec_count(DOUBLE), 1);
}

#[test]
fn batch_evaluation_shares_work_and_sees_one_revision() {
    let mut db = Db::new(example_rules());
    db.write_batch(&vec![(0, 3), (1, 5)]);
    let results = db.evaluate_many(&vec![ADD, SQUARE, ADD, DOUBLE, ADD]);
    assert_eq!(results, vec![Ok(19), Ok(9), Ok(19), Ok(10), Ok(19)]);
    // the shared work ran once for the whole batch
    assert_eq!(db.exec_count(SQUARE), 1);
    assert_eq!(db.exec_count(DOUBLE), 1);
    assert_eq!(db.exec_count(ADD), 1);
}

#[test]
fn direct_cycle_is_reported_not_run() {
    let rules = vec![Rule { op: Op::Sum, children: vec![Dep::Query(0)] }];
    let mut db = Db::new(rules);
    let r = db.evaluate(0);
    assert_eq!(r, Err(EvalError::Cycle { path: vec![0, 0] }));
    assert_eq!(db.exec_count(0), 0);
}

#[test]
fn transitive_cycle_is_reported_with_its_chain() {
    let rules = vec![
        Rule { op: Op::Sum, children: vec![Dep::Query(1)] },
        Rule { op: Op::Sum, children: vec![Dep::Query(2)] },
        Rule { op: Op::Sum, children: vec![Dep::Query(0)] },
    ];
    let mut db = Db::new(rules);
    match db.evaluate(0) {
        Err(EvalError::Cycle { path }) => {
            assert_eq!(path, vec![0, 1, 2, 0]);
        },
        other => panic!("expected a cycle, got {:?}", other),
    }
    // the error is not cached: asking again reports it again
    match db.evaluate(0) {
        Err(EvalError::Cycle { .. }) => {},
        other => panic!("expected a cycle, got {:?}", other),
    }
}

#[test]
fn missing_input_and_unknown_query_are_precise() {
    let rules = vec![Rule { op: Op::Sum, children: vec![Dep::Input(7)] }];
    let mut db = Db::new(rules);
    assert_eq!(db.evaluate(0), Err(EvalError::MissingInput { input: 7 }));
    assert_eq!(db.evaluate(42), Err(EvalError::UnknownQuery { query: 42 }));
    // once the input arrives, the query succeeds: failures were not cached
    db.set_input(7, 11);
    assert_eq!(db.evaluate(0), Ok(11));
}

#[test]
fn overflow_fails_the_body_and_is_retried() {
    let rules = vec![Rule { op: Op::Prod, children: vec![Dep::Input(0), Dep::Input(0)] }];
    let mut db = Db::new(rules);
    db.set_input(0, i64::MAX);
    assert_eq!(db.evaluate(0), Err(EvalError::Overflow { query: 0 }));
    assert_eq!(db.exec_count(0), 0);
    db.set_input(0, 3);
    assert_eq!(db.evaluate(0), Ok(9));
}

#[test]
fn reads_report_value_and_change_revision() {
    let mut db = Db::new(example_rules());
    assert_eq!(db.revision(), 1);
    assert_eq!(db.read_input(0), None);
    db.write_batch(&vec![(0, 3), (1, 5)]);
    assert_eq!(db.revision(), 2);
    // one batch, one revision: both cells share the stamp
    assert_eq!(db.read_input(0), Some((3, 2)));
    assert_eq!(db.read_input(1), Some((5, 2)));
    // an equal write bumps the clock but leaves the cell's stamp alone
    db.set_input(0, 3);
    assert_eq!(db.revision(), 3);
    assert_eq!(db.read_input(0), Some((3, 2)));
    db.set_input(0, 4);
    assert_eq!(db.read_input(0), Some((4, 4)));
}

const LEAVES: usize = 3000;
const GROUP: usize = 50;

fn fanout_rules() -> Vec<Rule> {
    // 3000 leaf queries over 3000 inputs, aggregated in groups of 50 under
    // one root
    let mut rules = Vec::new();
    for i in 0..LEAVES {
        rules.push(Rule { op: Op::Sum, children: vec![Dep::Input(i)] });
    }
    let mids = LEAVES / GROUP;
    for g in 0..mids {
        let children: Vec<Dep> = (0..GROUP).map(|j| Dep::Query(g * GROUP + j)).collect();
        rules.push(Rule { op: Op::Sum, children });
    }
    let mid_children: Vec<Dep> = (0..mids).map(|g| Dep::Query(LEAVES + g)).collect();
    rules.push(Rule { op: Op::Sum, children: mid_children });
    rules
}

#[test]
fn wide_fanout_sums_identically_in_any_order() {
    let mids = LEAVES / GROUP;
    let root = LEAVES + mids;
    let writes: Vec<(usize, i64)> = (0..LEAVES).map(|i| (i, i as i64)).collect();
    let expected: i64 = (0..LEAVES as i64).sum();

    // depth-first from the root
    let mut db1 = Db::new(fanout_rules());
    db1.write_batch(&writes);
    assert_eq!(db1.evaluate(root), Ok(expected));
    assert!(db1.peak_in_flight() > 1);

    // leaves first, in reverse, then the aggregates
    let mut db2 = Db::new(fanout_rules());
    db2.write_batch(&writes);
    for k in (0..LEAVES).rev() {
        assert_eq!(db2.evaluate(k), Ok(k as i64));
    }
    for g in 0..mids {
        db2.evaluate(LEAVES + g).unwrap();
    }
    assert_eq!(db2.evaluate(root), Ok(expected));

    // every leaf body ran exactly once in either database
    for k in 0..LEAVES {
        assert_eq!(db1.exec_count(k), 1);
        assert_eq!(db2.exec_count(k), 1);
    }
}
