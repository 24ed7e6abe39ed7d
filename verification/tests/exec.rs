use rustydb::aggregate::{aggregate, Aggregate};
use rustydb::engine::{Engine, TableSchema};
use rustydb::error::Error;
use rustydb::execute::{execute, execute_plan, ExecutionResult, Node, Plan};
use rustydb::expr::Expression;
use rustydb::field::{Cmp, Field};
use rustydb::join::{hash, nested_loop};
use rustydb::row::{RecordId, Row};
use rustydb::transform::{filter, limit, offset, order, project, remap, Direction};

fn num(i: i32) -> Field {
    Field::Integer(i)
}

fn text(s: &str) -> Field {
    Field::Text(s.to_string())
}

fn row(fields: Vec<Field>) -> Row {
    Row::new(fields)
}

fn src(rows: Vec<Vec<Field>>) -> Vec<(RecordId, Row)> {
    let mut out = Vec::new();
    for (i, fields) in rows.into_iter().enumerate() {
        out.push((RecordId::new(0, i as u16), row(fields)));
    }
    out
}

fn ints_of(rows: &[(RecordId, Row)]) -> Vec<Vec<i32>> {
    let mut out = Vec::new();
    for (_, r) in rows {
        let mut vals = Vec::new();
        for i in 0..r.len() {
            match r.get_field(i).unwrap() {
                Field::Integer(v) => vals.push(*v),
                _ => panic!("expected an integer"),
            }
        }
        out.push(vals);
    }
    out
}

#[test]
fn field_order_and_arithmetic() {
    assert_eq!(num(1).compare(&num(2)), Cmp::Less);
    assert_eq!(Field::Null.compare(&Field::Boolean(false)), Cmp::Less);
    assert_eq!(Field::Boolean(true).compare(&num(-5)), Cmp::Less);
    assert_eq!(num(5).compare(&text("a")), Cmp::Less);
    assert_eq!(text("a").compare(&text("b")), Cmp::Less);
    assert_eq!(text("ab").compare(&text("ab")), Cmp::Equal);
    assert!(text("b").compare(&text("ab")) == Cmp::Greater);
    assert!(num(3).equals(&num(3)));
    assert!(!num(3).equals(&text("3")));

    assert!(num(2).checked_add(&num(3)).unwrap().equals(&num(5)));
    assert_eq!(
        num(i32::MAX).checked_add(&num(1)).unwrap_err(),
        Error::TypeMismatch
    );
    assert!(num(1).checked_add(&Field::Null).unwrap().equals(&Field::Null));
    assert!(num(7).checked_div(&num(2)).unwrap().equals(&num(3)));
    assert!(num(-7).checked_div(&num(2)).unwrap().equals(&num(-3)));
    assert_eq!(num(1).checked_div(&num(0)).unwrap_err(), Error::TypeMismatch);
    assert_eq!(
        num(i32::MIN).checked_div(&num(-1)).unwrap_err(),
        Error::TypeMismatch
    );
}

#[test]
fn expression_equality_is_null_aware() {
    let r = row(vec![num(1), Field::Null]);
    let eq = Expression::Equal(
        Box::new(Expression::Column(0)),
        Box::new(Expression::Constant(num(1))),
    );
    assert!(eq.evaluate(Some(&r)).unwrap().equals(&Field::Boolean(true)));
    let null_eq = Expression::Equal(
        Box::new(Expression::Column(1)),
        Box::new(Expression::Constant(num(1))),
    );
    assert!(null_eq.evaluate(Some(&r)).unwrap().equals(&Field::Null));
    let bad = Expression::Column(9);
    assert_eq!(bad.evaluate(Some(&r)).unwrap_err(), Error::InvalidInput);
}

#[test]
fn filter_keeps_true_rows() {
    let source = src(vec![vec![num(1)], vec![num(2)], vec![num(1)]]);
    let pred = Expression::Equal(
        Box::new(Expression::Column(0)),
        Box::new(Expression::Constant(num(1))),
    );
    let out = filter(source, &pred).unwrap();
    assert_eq!(ints_of(&out), vec![vec![1], vec![1]]);
}

#[test]
fn limit_and_offset_window_the_stream() {
    let source = src(vec![vec![num(1)], vec![num(2)], vec![num(3)]]);
    let out = limit(source, 2);
    assert_eq!(ints_of(&out), vec![vec![1], vec![2]]);
    let source = src(vec![vec![num(1)], vec![num(2)], vec![num(3)]]);
    let out = offset(source, 2);
    assert_eq!(ints_of(&out), vec![vec![3]]);
    let source = src(vec![vec![num(1)]]);
    assert!(offset(source, 5).is_empty());
}

#[test]
fn project_evaluates_each_expression() {
    let source = src(vec![vec![num(1), num(10)], vec![num(2), num(20)]]);
    let exprs = vec![Expression::Column(1), Expression::Constant(num(7))];
    let out = project(source, &exprs).unwrap();
    assert_eq!(ints_of(&out), vec![vec![10, 7], vec![20, 7]]);
}

#[test]
fn remap_moves_and_drops_columns() {
    let source = src(vec![vec![num(1), num(2), num(3)]]);
    let targets = vec![Some(2), None, Some(0)];
    let out = remap(source, &targets);
    assert_eq!(out.len(), 1);
    let r = &out[0].1;
    assert_eq!(r.len(), 3);
    assert!(r.get_field(0).unwrap().equals(&num(3)));
    assert!(r.get_field(1).unwrap().equals(&Field::Null));
    assert!(r.get_field(2).unwrap().equals(&num(1)));
}

#[test]
fn order_sorts_and_permutes() {
    let source = src(vec![vec![num(3)], vec![num(1)], vec![num(2)]]);
    let keys = vec![(Expression::Column(0), Direction::Ascending)];
    let out = order(source, &keys).unwrap();
    assert_eq!(ints_of(&out), vec![vec![1], vec![2], vec![3]]);
    // the original record ids travel with their rows
    assert_eq!(out[0].0, RecordId::new(0, 1));
    assert_eq!(out[1].0, RecordId::new(0, 2));
    assert_eq!(out[2].0, RecordId::new(0, 0));

    let source = src(vec![vec![num(3)], vec![num(1)], vec![num(2)]]);
    let keys = vec![(Expression::Column(0), Direction::Descending)];
    let out = order(source, &keys).unwrap();
    assert_eq!(ints_of(&out), vec![vec![3], vec![2], vec![1]]);
}

#[test]
fn order_is_stable_on_ties() {
    let source = src(vec![
        vec![num(1), num(10)],
        vec![num(1), num(20)],
        vec![num(0), num(30)],
    ]);
    let keys = vec![(Expression::Column(0), Direction::Ascending)];
    let out = order(source, &keys).unwrap();
    assert_eq!(ints_of(&out), vec![vec![0, 30], vec![1, 10], vec![1, 20]]);
}

#[test]
fn nested_loop_left_outer_join() {
    let left = src(vec![vec![num(1)], vec![num(2)]]);
    let right = src(vec![vec![num(1)]]);
    let pred = Some(Expression::Equal(
        Box::new(Expression::Column(0)),
        Box::new(Expression::Column(1)),
    ));
    let out = nested_loop(left, right, 1, &pred, true).unwrap();
    assert_eq!(out.len(), 2);
    assert!(out[0].1.get_field(0).unwrap().equals(&num(1)));
    assert!(out[0].1.get_field(1).unwrap().equals(&num(1)));
    assert!(out[1].1.get_field(0).unwrap().equals(&num(2)));
    assert!(out[1].1.get_field(1).unwrap().equals(&Field::Null));
}

#[test]
fn hash_join_matches_and_pads() {
    let left = src(vec![vec![num(1)], vec![num(2)], vec![Field::Null]]);
    let right = src(vec![vec![num(1), num(100)], vec![num(1), num(200)]]);
    let out = hash(left, 0, right, 0, 2, true).unwrap();
    // left row 1 matches twice, rows 2 and the null key get padded
    assert_eq!(out.len(), 4);
    assert!(out[0].1.get_field(2).unwrap().equals(&num(100)));
    assert!(out[1].1.get_field(2).unwrap().equals(&num(200)));
    assert!(out[2].1.get_field(1).unwrap().equals(&Field::Null));
    assert!(out[3].1.get_field(1).unwrap().equals(&Field::Null));
    // joined rows carry the invalid record id
    assert_eq!(out[0].0, RecordId::invalid());

    // inner join drops the unmatched rows instead
    let left = src(vec![vec![num(1)], vec![num(2)]]);
    let right = src(vec![vec![num(1), num(100)]]);
    let out = hash(left, 0, right, 0, 2, false).unwrap();
    assert_eq!(out.len(), 1);
}

#[test]
fn group_by_aggregate() {
    let source = src(vec![
        vec![text("a"), num(1)],
        vec![text("a"), num(3)],
        vec![text("b"), num(10)],
    ]);
    let group_by = vec![Expression::Column(0)];
    let aggs = vec![
        Aggregate::Sum(Expression::Column(1)),
        Aggregate::Count(Expression::Column(1)),
    ];
    let out = aggregate(source, group_by, aggs).unwrap();
    assert_eq!(out.len(), 2);
    assert!(out[0].1.get_field(0).unwrap().equals(&text("a")));
    assert!(out[0].1.get_field(1).unwrap().equals(&num(4)));
    assert!(out[0].1.get_field(2).unwrap().equals(&num(2)));
    assert!(out[1].1.get_field(0).unwrap().equals(&text("b")));
    assert!(out[1].1.get_field(1).unwrap().equals(&num(10)));
    assert!(out[1].1.get_field(2).unwrap().equals(&num(1)));
    assert_eq!(out[0].0, RecordId::invalid());
}

#[test]
fn empty_aggregate_without_grouping() {
    let source = src(vec![]);
    let aggs = vec![
        Aggregate::Count(Expression::Column(0)),
        Aggregate::Sum(Expression::Column(0)),
    ];
    let out = aggregate(source, vec![], aggs).unwrap();
    assert_eq!(out.len(), 1);
    assert!(out[0].1.get_field(0).unwrap().equals(&num(0)));
    assert!(out[0].1.get_field(1).unwrap().equals(&Field::Null));
}

#[test]
fn aggregate_min_max_average() {
    let source = src(vec![vec![num(4)], vec![num(2)], vec![num(9)]]);
    let aggs = vec![
        Aggregate::Min(Expression::Column(0)),
        Aggregate::Max(Expression::Column(0)),
        Aggregate::Average(Expression::Column(0)),
    ];
    let out = aggregate(source, vec![], aggs).unwrap();
    assert_eq!(out.len(), 1);
    assert!(out[0].1.get_field(0).unwrap().equals(&num(2)));
    assert!(out[0].1.get_field(1).unwrap().equals(&num(9)));
    assert!(out[0].1.get_field(2).unwrap().equals(&num(5)));
}

fn demo_schema() -> TableSchema {
    TableSchema::new(
        "items".to_string(),
        vec!["id".to_string(), "qty".to_string()],
    )
}

fn values_node(rows: Vec<Vec<i32>>) -> Node {
    let mut exprs = Vec::new();
    for r in rows {
        let mut one = Vec::new();
        for v in r {
            one.push(Expression::Constant(num(v)));
        }
        exprs.push(one);
    }
    Node::Values { rows: exprs }
}

#[test]
fn plan_round_trip_through_engine() {
    let mut engine = Engine::new();

    // create the table
    let created = execute_plan(
        Plan::CreateTable { schema: demo_schema() },
        &mut engine,
    )
    .unwrap();
    match created {
        ExecutionResult::CreateTable { name } => assert_eq!(name, "items"),
        _ => panic!("expected a CreateTable result"),
    }
    // a duplicate is refused
    assert_eq!(
        execute_plan(Plan::CreateTable { schema: demo_schema() }, &mut engine).unwrap_err(),
        Error::InvalidInput
    );

    // insert three rows
    let inserted = execute_plan(
        Plan::Insert {
            table: demo_schema(),
            source: values_node(vec![vec![1, 10], vec![2, 20], vec![3, 30]]),
        },
        &mut engine,
    )
    .unwrap();
    match inserted {
        ExecutionResult::Insert { count, record_ids } => {
            assert_eq!(count, 3);
            assert_eq!(record_ids.len(), 3);
            assert_eq!(record_ids[0].slot_id, 0);
            assert_eq!(record_ids[2].slot_id, 2);
        },
        _ => panic!("expected an Insert result"),
    }

    // select them back, filtered
    let selected = execute_plan(
        Plan::Select(Node::Filter {
            source: Box::new(Node::Scan {
                table: "items".to_string(),
                filter: None,
                alias: None,
            }),
            predicate: Expression::Equal(
                Box::new(Expression::Column(0)),
                Box::new(Expression::Constant(num(2))),
            ),
        }),
        &mut engine,
    )
    .unwrap();
    match selected {
        ExecutionResult::Select { rows, .. } => {
            assert_eq!(ints_of(&rows), vec![vec![2, 20]]);
        },
        _ => panic!("expected a Select result"),
    }

    // labels come from the scanned schema
    let labeled = execute_plan(
        Plan::Select(Node::Scan {
            table: "items".to_string(),
            filter: None,
            alias: None,
        }),
        &mut engine,
    )
    .unwrap();
    match labeled {
        ExecutionResult::Select { rows, columns } => {
            assert_eq!(rows.len(), 3);
            assert_eq!(columns, vec![Some("id".to_string()), Some("qty".to_string())]);
        },
        _ => panic!("expected a Select result"),
    }

    // update qty of id 2
    let updated = execute_plan(
        Plan::Update {
            table: demo_schema(),
            source: Node::Filter {
                source: Box::new(Node::Scan {
                    table: "items".to_string(),
                    filter: None,
                    alias: None,
                }),
                predicate: Expression::Equal(
                    Box::new(Expression::Column(0)),
                    Box::new(Expression::Constant(num(2))),
                ),
            },
            expressions: vec![(1, Expression::Constant(num(99)))],
        },
        &mut engine,
    )
    .unwrap();
    match updated {
        ExecutionResult::Update { count } => assert_eq!(count, 1),
        _ => panic!("expected an Update result"),
    }
    let rows = engine.scan(&"items".to_string()).unwrap();
    assert_eq!(ints_of(&rows), vec![vec![1, 10], vec![2, 99], vec![3, 30]]);

    // delete id 1
    let deleted = execute_plan(
        Plan::Delete {
            table: "items".to_string(),
            source: Node::Filter {
                source: Box::new(Node::Scan {
                    table: "items".to_string(),
                    filter: None,
                    alias: None,
                }),
                predicate: Expression::Equal(
                    Box::new(Expression::Column(0)),
                    Box::new(Expression::Constant(num(1))),
                ),
            },
        },
        &mut engine,
    )
    .unwrap();
    match deleted {
        ExecutionResult::Delete { count } => assert_eq!(count, 1),
        _ => panic!("expected a Delete result"),
    }
    let rows = engine.scan(&"items".to_string()).unwrap();
    assert_eq!(ints_of(&rows), vec![vec![2, 99], vec![3, 30]]);

    // drop it, twice
    let dropped = execute_plan(
        Plan::DropTable { table: "items".to_string(), if_exists: false },
        &mut engine,
    )
    .unwrap();
    match dropped {
        ExecutionResult::DropTable { existed, .. } => assert!(existed),
        _ => panic!("expected a DropTable result"),
    }
    let dropped = execute_plan(
        Plan::DropTable { table: "items".to_string(), if_exists: true },
        &mut engine,
    )
    .unwrap();
    match dropped {
        ExecutionResult::DropTable { existed, .. } => assert!(!existed),
        _ => panic!("expected a DropTable result"),
    }
    assert_eq!(
        execute_plan(
            Plan::DropTable { table: "items".to_string(), if_exists: false },
            &mut engine,
        )
        .unwrap_err(),
        Error::NotFound
    );
}

#[test]
fn executor_tree_orders_and_limits() {
    let engine = Engine::new();
    let tree = Node::Limit {
        source: Box::new(Node::Order {
            source: Box::new(values_node(vec![vec![3], vec![1], vec![2]])),
            key: vec![(Expression::Column(0), Direction::Ascending)],
        }),
        limit: 2,
    };
    let out = execute(tree, &engine).unwrap();
    assert_eq!(ints_of(&out), vec![vec![1], vec![2]]);

    // a lookup node is not implemented
    let stub = Node::KeyLookup { table: "t".to_string(), keys: vec![], alias: None };
    assert_eq!(execute(stub, &engine).unwrap_err(), Error::Internal);

    // scanning an unknown table fails
    let missing = Node::Scan { table: "nope".to_string(), filter: None, alias: None };
    assert_eq!(execute(missing, &engine).unwrap_err(), Error::NotFound);
}

#[test]
fn engine_rejects_slot_overflow() {
    let mut engine = Engine::new();
    engine
        .create_table(TableSchema::new("t".to_string(), vec!["c".to_string()]))
        .unwrap();
    let mut rows = Vec::new();
    for _ in 0..(u16::MAX as usize + 1) {
        rows.push(row(vec![num(0)]));
    }
    assert_eq!(
        engine.insert(&"t".to_string(), rows).unwrap_err(),
        Error::OutOfSpace
    );
}
