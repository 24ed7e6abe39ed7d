use vstd::prelude::*;
use crate::aggregate::{Aggregate, agg_rows, aggregate};
use crate::engine::{Engine, TableData, TableSchema, apply_deletes, apply_updates, scan_rows, tbl_has, tbl_idx};
use crate::error::Error;
use crate::expr::Expression;
use crate::field::FieldV;
use crate::join::{hash, hj_check, hj_join, nested_loop, nl_join};
use crate::row::{RecordId, Row, RowV, spec_invalid_rid};
use crate::transform::{Direction, filter, filter_spec, keys_check, limit, offset, order, project, project_spec, remap, remap_row, remap_width, rows_v, sort_rows, spec_min};

verus! {

/// A planned operator tree, consumed by the executor. Rows stream upward
/// from the leaves (scans, literal values, nothing) to the root.
#[derive(Debug)]
pub enum Node {
    Aggregate { source: Box<Node>, group_by: Vec<Expression>, aggregates: Vec<Aggregate> },
    Filter { source: Box<Node>, predicate: Expression },
    HashJoin {
        left: Box<Node>,
        left_column: usize,
        right: Box<Node>,
        right_column: usize,
        outer: bool,
    },
    IndexLookup { table: String, column: usize, values: Vec<crate::field::Field>, alias: Option<String> },
    KeyLookup { table: String, keys: Vec<crate::field::Field>, alias: Option<String> },
    Limit { source: Box<Node>, limit: usize },
    NestedLoopJoin { left: Box<Node>, right: Box<Node>, predicate: Option<Expression>, outer: bool },
    Nothing { columns: usize },
    Offset { source: Box<Node>, offset: usize },
    Order { source: Box<Node>, key: Vec<(Expression, Direction)> },
    Projection { source: Box<Node>, expressions: Vec<Expression>, aliases: Vec<Option<String>> },
    Remap { source: Box<Node>, targets: Vec<Option<usize>> },
    Scan { table: String, filter: Option<Expression>, alias: Option<String> },
    Values { rows: Vec<Vec<Expression>> },
}

/// The output width of a node against the given tables.
pub open spec fn node_columns(n: Node, tables: Seq<TableData>) -> int
    decreases n,
{
    match n {
        Node::Aggregate { source, group_by, aggregates } => group_by@.len() as int + aggregates@.len() as int,
        Node::Filter { source, .. } => node_columns(*source, tables),
        Node::HashJoin { left, right, .. } => node_columns(*left, tables) + node_columns(
            *right,
            tables,
        ),
        Node::IndexLookup { table, .. } => if tbl_has(tables, table@) {
            tables[tbl_idx(tables, table@)].schema.columns@.len() as int
        } else {
            0
        },
        Node::KeyLookup { table, .. } => if tbl_has(tables, table@) {
            tables[tbl_idx(tables, table@)].schema.columns@.len() as int
        } else {
            0
        },
        Node::Limit { source, .. } => node_columns(*source, tables),
        Node::NestedLoopJoin { left, right, .. } => node_columns(*left, tables) + node_columns(
            *right,
            tables,
        ),
        Node::Nothing { columns } => columns as int,
        Node::Offset { source, .. } => node_columns(*source, tables),
        Node::Order { source, .. } => node_columns(*source, tables),
        Node::Projection { expressions, .. } => expressions@.len() as int,
        Node::Remap { targets, .. } => remap_width(targets@),
        Node::Scan { table, .. } => if tbl_has(tables, table@) {
            tables[tbl_idx(tables, table@)].schema.columns@.len() as int
        } else {
            0
        },
        Node::Values { rows } => if rows@.len() == 0 {
            0
        } else {
            rows@[0]@.len() as int
        },
    }
}

/// The output width as the executor computes it: capped at the machine
/// word.
pub open spec fn node_width(n: Node, tables: Seq<TableData>) -> int {
    if node_columns(n, tables) > usize::MAX {
        usize::MAX as int
    } else {
        node_columns(n, tables)
    }
}

/// The label of output column `i`: a projection's alias, a scanned
/// table's column name, passed through row-preserving operators.
pub open spec fn node_label(n: Node, tables: Seq<TableData>, i: int) -> Option<Seq<char>>
    decreases n,
{
    match n {
        Node::Projection { aliases, .. } => if 0 <= i < aliases@.len() {
            match aliases@[i] {
                Some(s) => Some(s@),
                None => None,
            }
        } else {
            None
        },
        Node::Scan { table, .. } => if tbl_has(tables, table@) && 0 <= i < tables[tbl_idx(
            tables,
            table@,
        )].schema.columns@.len() {
            Some(tables[tbl_idx(tables, table@)].schema.columns@[i]@)
        } else {
            None
        },
        Node::Filter { source, .. } => node_label(*source, tables, i),
        Node::Limit { source, .. } => node_label(*source, tables, i),
        Node::Offset { source, .. } => node_label(*source, tables, i),
        Node::Order { source, .. } => node_label(*source, tables, i),
        _ => None,
    }
}

/// The values of a literal row, evaluated without an input row.
pub open spec fn consts_spec(exprs: Seq<Expression>) -> Result<Seq<FieldV>, Error>
    decreases exprs.len(),
{
    if exprs.len() == 0 {
        Ok(Seq::empty())
    } else {
        match consts_spec(exprs.drop_last()) {
            Err(e) => Err(e),
            Ok(front) => match crate::expr::eval(exprs.last(), Option::None) {
                Err(e) => Err(e),
                Ok(v) => Ok(front.push(v)),
            },
        }
    }
}

/// What a literal VALUES source emits: each row of constants under the
/// invalid record id, first error wins.
pub open spec fn values_spec(rows: Seq<Vec<Expression>>) -> Result<Seq<(RecordId, RowV)>, Error>
    decreases rows.len(),
{
    if rows.len() == 0 {
        Ok(Seq::empty())
    } else {
        match values_spec(rows.drop_last()) {
            Err(e) => Err(e),
            Ok(front) => match consts_spec(rows.last()@) {
                Err(e) => Err(e),
                Ok(vals) => Ok(front.push((spec_invalid_rid(), vals))),
            },
        }
    }
}

/// The remapped rows of a source.
pub open spec fn remap_spec(rows: Seq<(RecordId, RowV)>, targets: Seq<Option<usize>>) -> Seq<
    (RecordId, RowV),
> {
    rows.map_values(
        |p: (RecordId, RowV)|
            (
                p.0,
                remap_row(
                    p.1,
                    targets,
                    remap_width(targets),
                    spec_min(p.1.len() as int, targets.len() as int),
                ),
            ),
    )
}


/// What a node executes to against the given tables: the produced row
/// stream, or the first error. Sorting is pinned to the stable insertion
/// sort of the key tuples.
pub open spec fn execute_spec(n: Node, tables: Seq<TableData>) -> Result<
    Seq<(RecordId, RowV)>,
    Error,
>
    decreases n,
{
    match n {
        Node::Aggregate { source, group_by, aggregates } => match execute_spec(*source, tables) {
            Err(e) => Err(e),
            Ok(rows) => agg_rows(rows, group_by@, aggregates@),
        },
        Node::Filter { source, predicate } => match execute_spec(*source, tables) {
            Err(e) => Err(e),
            Ok(rows) => filter_spec(rows, predicate),
        },
        Node::HashJoin { left, left_column, right, right_column, outer } => match execute_spec(
            *left,
            tables,
        ) {
            Err(e) => Err(e),
            Ok(l) => match execute_spec(*right, tables) {
                Err(e) => Err(e),
                Ok(rrows) => match hj_check(rrows, right_column as int) {
                    Err(e) => Err(e),
                    Ok(u) => hj_join(
                        l,
                        left_column as int,
                        rrows,
                        right_column as int,
                        node_width(*right, tables),
                        outer,
                    ),
                },
            },
        },
        Node::IndexLookup { .. } => Err(Error::Internal),
        Node::KeyLookup { .. } => Err(Error::Internal),
        Node::Limit { source, limit } => match execute_spec(*source, tables) {
            Err(e) => Err(e),
            Ok(rows) => Ok(
                if limit as int <= rows.len() {
                    rows.take(limit as int)
                } else {
                    rows
                },
            ),
        },
        Node::NestedLoopJoin { left, right, predicate, outer } => match execute_spec(
            *left,
            tables,
        ) {
            Err(e) => Err(e),
            Ok(l) => match execute_spec(*right, tables) {
                Err(e) => Err(e),
                Ok(rrows) => nl_join(l, rrows, node_width(*right, tables), predicate, outer),
            },
        },
        Node::Nothing { .. } => Ok(Seq::empty()),
        Node::Offset { source, offset } => match execute_spec(*source, tables) {
            Err(e) => Err(e),
            Ok(rows) => Ok(
                if offset as int <= rows.len() {
                    rows.skip(offset as int)
                } else {
                    Seq::empty()
                },
            ),
        },
        Node::Order { source, key } => match execute_spec(*source, tables) {
            Err(e) => Err(e),
            Ok(rows) => match keys_check(rows, key@) {
                Err(e) => Err(e),
                Ok(u) => Ok(sort_rows(rows, key@)),
            },
        },
        Node::Projection { source, expressions, .. } => match execute_spec(*source, tables) {
            Err(e) => Err(e),
            Ok(rows) => project_spec(rows, expressions@),
        },
        Node::Remap { source, targets } => match execute_spec(*source, tables) {
            Err(e) => Err(e),
            Ok(rows) => if remap_width(targets@) > usize::MAX {
                Err(Error::Internal)
            } else {
                Ok(remap_spec(rows, targets@))
            },
        },
        Node::Scan { table, filter, .. } => if !tbl_has(tables, table@) {
            Err(Error::NotFound)
        } else {
            let t = tables[tbl_idx(tables, table@)];
            match filter {
                Option::None => Ok(scan_rows(t.id, t.rows@)),
                Option::Some(p) => filter_spec(scan_rows(t.id, t.rows@), p),
            }
        },
        Node::Values { rows } => values_spec(rows@),
    }
}


/// Emits the rows of one literal VALUES row list.
fn eval_values(rows: Vec<Vec<Expression>>) -> (r: Result<Vec<(RecordId, Row)>, Error>)
    ensures
        match r {
            Ok(out) => values_spec(rows@) == Ok::<Seq<(RecordId, RowV)>, Error>(rows_v(out@)),
            Err(e) => values_spec(rows@) == Err::<Seq<(RecordId, RowV)>, Error>(e),
        },
{
    let n = rows.len();
    let mut out: Vec<(RecordId, Row)> = Vec::new();
    let mut i: usize = 0;
    proof {
        assert(rows@.take(0) =~= Seq::<Vec<Expression>>::empty());
        assert(rows_v(out@) =~= Seq::empty());
    }
    while i < n
        invariant
            i <= n,
            n == rows@.len(),
            values_spec(rows@.take(i as int)) == Ok::<Seq<(RecordId, RowV)>, Error>(rows_v(out@)),
        decreases n - i,
    {
        let exprs = &rows[i];
        let en = exprs.len();
        let mut vals: Vec<crate::field::Field> = Vec::new();
        let mut x: usize = 0;
        proof {
            assert(exprs@.take(0) =~= Seq::<Expression>::empty());
            assert(vals.deep_view() =~= Seq::<FieldV>::empty());
        }
        while x < en
            invariant
                x <= en,
                i < n,
                n == rows@.len(),
                en == exprs@.len(),
                exprs@ == rows@[i as int]@,
                values_spec(rows@.take(i as int)) == Ok::<Seq<(RecordId, RowV)>, Error>(
                    rows_v(out@),
                ),
                consts_spec(exprs@.take(x as int)) == Ok::<Seq<FieldV>, Error>(vals.deep_view()),
            decreases en - x,
        {
            proof {
                assert(exprs@.take(x + 1).drop_last() =~= exprs@.take(x as int));
                assert(exprs@.take(x + 1).last() == exprs@[x as int]);
            }
            match exprs[x].evaluate(Option::None) {
                Err(e) => {
                    proof {
                        lemma_consts_prefix_err(exprs@, x as int, e);
                        lemma_values_prefix_err(rows@, i as int, e);
                    }
                    return Err(e);
                },
                Ok(v) => {
                    let ghost pre = vals.deep_view();
                    vals.push(v);
                    proof {
                        assert(vals.deep_view() =~= pre.push(vals@[vals@.len() - 1]@));
                    }
                },
            }
            x = x + 1;
        }
        proof {
            assert(exprs@.take(en as int) =~= exprs@);
        }
        let ghost pre_out = rows_v(out@);
        out.push((RecordId::invalid(), Row::new(vals)));
        proof {
            assert(rows@.take(i + 1).drop_last() =~= rows@.take(i as int));
            assert(rows@.take(i + 1).last() == rows@[i as int]);
            assert(rows_v(out@) =~= pre_out.push((spec_invalid_rid(), out@[out@.len() - 1].1@)));
        }
        i = i + 1;
    }
    proof {
        assert(rows@.take(n as int) =~= rows@);
    }
    Ok(out)
}

proof fn lemma_consts_prefix_err(exprs: Seq<Expression>, x: int, e: Error)
    requires
        0 <= x < exprs.len(),
        consts_spec(exprs.take(x)) is Ok,
        crate::expr::eval(exprs[x], Option::None) == Err::<FieldV, Error>(e),
    ensures
        consts_spec(exprs) == Err::<Seq<FieldV>, Error>(e),
    decreases exprs.len() - x,
{
    if x == exprs.len() - 1 {
        assert(exprs.take(x) =~= exprs.drop_last());
    } else {
        assert(exprs.drop_last().take(x) =~= exprs.take(x));
        assert(exprs.drop_last()[x] == exprs[x]);
        lemma_consts_prefix_err(exprs.drop_last(), x, e);
    }
}

proof fn lemma_values_prefix_err(rows: Seq<Vec<Expression>>, i: int, e: Error)
    requires
        0 <= i < rows.len(),
        values_spec(rows.take(i)) is Ok,
        consts_spec(rows[i]@) == Err::<Seq<FieldV>, Error>(e),
    ensures
        values_spec(rows) == Err::<Seq<(RecordId, RowV)>, Error>(e),
    decreases rows.len() - i,
{
    if i == rows.len() - 1 {
        assert(rows.take(i) =~= rows.drop_last());
    } else {
        assert(rows.drop_last().take(i) =~= rows.take(i));
        assert(rows.drop_last()[i] == rows[i]);
        lemma_values_prefix_err(rows.drop_last(), i, e);
    }
}

impl Node {
    /// The output width of this node against the engine's catalog, capped
    /// at the machine word.
    pub fn columns(&self, txn: &Engine) -> (r: usize)
        requires
            txn.wf(),
        ensures
            r as int == node_width(*self, txn.tbls()),
        decreases *self,
    {
        match self {
            Node::Aggregate { source, group_by, aggregates } => {
                let g = group_by.len();
                let a = aggregates.len();
                if a > usize::MAX - g {
                    usize::MAX
                } else {
                    g + a
                }
            },
            Node::Filter { source, .. } => source.columns(txn),
            Node::HashJoin { left, right, .. } => {
                let l = left.columns(txn);
                let rr = right.columns(txn);
                if rr > usize::MAX - l {
                    usize::MAX
                } else {
                    l + rr
                }
            },
            Node::IndexLookup { table, .. } => match txn.get_table(table) {
                Some(s) => s.columns.len(),
                None => 0,
            },
            Node::KeyLookup { table, .. } => match txn.get_table(table) {
                Some(s) => s.columns.len(),
                None => 0,
            },
            Node::Limit { source, .. } => source.columns(txn),
            Node::NestedLoopJoin { left, right, .. } => {
                let l = left.columns(txn);
                let rr = right.columns(txn);
                if rr > usize::MAX - l {
                    usize::MAX
                } else {
                    l + rr
                }
            },
            Node::Nothing { columns } => *columns,
            Node::Offset { source, .. } => source.columns(txn),
            Node::Order { source, .. } => source.columns(txn),
            Node::Projection { expressions, .. } => expressions.len(),
            Node::Remap { targets, .. } => {
                let tn = targets.len();
                let mut width: usize = 0;
                let mut t: usize = 0;
                while t < tn
                    invariant
                        t <= tn,
                        tn == targets@.len(),
                        width as int == (if remap_width(targets@.take(t as int)) > usize::MAX {
                            usize::MAX as int
                        } else {
                            remap_width(targets@.take(t as int))
                        }),
                    decreases tn - t,
                {
                    proof {
                        crate::transform::lemma_remap_width_take(targets@, t + 1);
                    }
                    match targets[t] {
                        Some(idx) => {
                            if idx == usize::MAX {
                                width = usize::MAX;
                            } else if idx + 1 > width {
                                width = idx + 1;
                            }
                        },
                        None => {},
                    }
                    t = t + 1;
                }
                proof {
                    assert(targets@.take(tn as int) =~= targets@);
                }
                width
            },
            Node::Scan { table, .. } => match txn.get_table(table) {
                Some(s) => s.columns.len(),
                None => 0,
            },
            Node::Values { rows } => {
                if rows.len() == 0 {
                    0
                } else {
                    rows[0].len()
                }
            },
        }
    }

    /// The planner-provided label of output column `i`.
    pub fn column_label(&self, txn: &Engine, i: usize) -> (r: Option<String>)
        requires
            txn.wf(),
        ensures
            (match r {
                Some(s) => node_label(*self, txn.tbls(), i as int) == Some(s@),
                None => node_label(*self, txn.tbls(), i as int) is None,
            }),
        decreases *self,
    {
        match self {
            Node::Projection { aliases, .. } => {
                if i < aliases.len() {
                    match &aliases[i] {
                        Some(s) => Some(s.clone()),
                        None => None,
                    }
                } else {
                    None
                }
            },
            Node::Scan { table, .. } => match txn.get_table(table) {
                Some(s) => {
                    if i < s.columns.len() {
                        Some(s.columns[i].clone())
                    } else {
                        None
                    }
                },
                None => None,
            },
            Node::Filter { source, .. } => source.column_label(txn, i),
            Node::Limit { source, .. } => source.column_label(txn, i),
            Node::Offset { source, .. } => source.column_label(txn, i),
            Node::Order { source, .. } => source.column_label(txn, i),
            _ => None,
        }
    }
}


/// Recursively executes a query plan node, materializing its row stream.
/// Rows flow from the leaves upward; the first row-level error ends the
/// stream and is returned instead.
#[verifier::rlimit(100)]
pub fn execute(node: Node, txn: &Engine) -> (r: Result<Vec<(RecordId, Row)>, Error>)
    requires
        txn.wf(),
    ensures
        match r {
            Ok(out) => execute_spec(node, txn.tbls()) == Ok::<Seq<(RecordId, RowV)>, Error>(
                rows_v(out@),
            ),
            Err(e) => execute_spec(node, txn.tbls()) == Err::<Seq<(RecordId, RowV)>, Error>(e),
        },
    decreases node,
{
    let ghost node0 = node;
    let ghost tables = txn.tbls();
    match node {
        Node::Aggregate { source, group_by, aggregates } => {
            let ghost src_box = source;
            let ghost gb = group_by;
            let ghost ags = aggregates;
            proof {
                assert(node0 == Node::Aggregate { source: src_box, group_by: gb, aggregates: ags });
            }
            match execute(*source, txn) {
                Ok(src) => aggregate(src, group_by, aggregates),
                Err(e) => Err(e),
            }
        },
        Node::Filter { source, predicate } => {
            let ghost src_box = source;
            let ghost p = predicate;
            proof {
                assert(node0 == Node::Filter { source: src_box, predicate: p });
            }
            match execute(*source, txn) {
                Ok(src) => filter(src, &predicate),
                Err(e) => Err(e),
            }
        },
        Node::HashJoin { left, left_column, right, right_column, outer } => {
            let ghost lbox = left;
            let ghost rbox = right;
            proof {
                assert(node0 == Node::HashJoin {
                    left: lbox,
                    left_column,
                    right: rbox,
                    right_column,
                    outer,
                });
            }
            let right_size = right.columns(txn);
            match execute(*left, txn) {
                Ok(l) => match execute(*right, txn) {
                    Ok(rrows) => hash(l, left_column, rrows, right_column, right_size, outer),
                    Err(e) => Err(e),
                },
                Err(e) => Err(e),
            }
        },
        Node::IndexLookup { table, column, values, alias } => {
            let ghost t0 = table;
            let ghost c0 = column;
            let ghost v0 = values;
            let ghost a0 = alias;
            proof {
                assert(node0 == Node::IndexLookup {
                    table: t0,
                    column: c0,
                    values: v0,
                    alias: a0,
                });
            }
            Err(Error::Internal)
        },
        Node::KeyLookup { table, keys, alias } => {
            let ghost t0 = table;
            let ghost k0 = keys;
            let ghost a0 = alias;
            proof {
                assert(node0 == Node::KeyLookup { table: t0, keys: k0, alias: a0 });
            }
            Err(Error::Internal)
        },
        Node::Limit { source, limit: count } => {
            let ghost src_box = source;
            proof {
                assert(node0 == Node::Limit { source: src_box, limit: count });
            }
            match execute(*source, txn) {
                Ok(src) => Ok(limit(src, count)),
                Err(e) => Err(e),
            }
        },
        Node::NestedLoopJoin { left, right, predicate, outer } => {
            let ghost lbox = left;
            let ghost rbox = right;
            let ghost p = predicate;
            proof {
                assert(node0 == Node::NestedLoopJoin {
                    left: lbox,
                    right: rbox,
                    predicate: p,
                    outer,
                });
            }
            let right_size = right.columns(txn);
            match execute(*left, txn) {
                Ok(l) => match execute(*right, txn) {
                    Ok(rrows) => nested_loop(l, rrows, right_size, &predicate, outer),
                    Err(e) => Err(e),
                },
                Err(e) => Err(e),
            }
        },
        Node::Nothing { columns } => {
            proof {
                assert(node0 == Node::Nothing { columns });
            }
            let out: Vec<(RecordId, Row)> = Vec::new();
            proof {
                assert(rows_v(out@) =~= Seq::empty());
            }
            Ok(out)
        },
        Node::Offset { source, offset: count } => {
            let ghost src_box = source;
            proof {
                assert(node0 == Node::Offset { source: src_box, offset: count });
            }
            match execute(*source, txn) {
                Ok(src) => Ok(offset(src, count)),
                Err(e) => Err(e),
            }
        },
        Node::Order { source, key } => {
            let ghost src_box = source;
            let ghost k = key;
            proof {
                assert(node0 == Node::Order { source: src_box, key: k });
            }
            match execute(*source, txn) {
                Ok(src) => order(src, &key),
                Err(e) => Err(e),
            }
        },
        Node::Projection { source, expressions, aliases } => {
            let ghost src_box = source;
            let ghost exprs = expressions;
            let ghost als = aliases;
            proof {
                assert(node0 == Node::Projection {
                    source: src_box,
                    expressions: exprs,
                    aliases: als,
                });
            }
            match execute(*source, txn) {
                Ok(src) => project(src, &expressions),
                Err(e) => Err(e),
            }
        },
        Node::Remap { source, targets } => {
            let ghost src_box = source;
            let ghost tg = targets;
            proof {
                assert(node0 == (Node::Remap { source: src_box, targets: tg }));
            }
            match execute(*source, txn) {
                Ok(src) => {
                    let ghost srv = rows_v(src@);
                    let tn = targets.len();
                    let mut bad = false;
                    let mut t: usize = 0;
                    while t < tn
                        invariant
                            t <= tn,
                            tn == targets@.len(),
                            !bad ==> remap_width(targets@.take(t as int)) <= usize::MAX,
                            bad ==> remap_width(targets@) > usize::MAX,
                        decreases tn - t,
                    {
                        proof {
                            crate::transform::lemma_remap_width_take(targets@, t + 1);
                        }
                        match targets[t] {
                            Some(idx) => {
                                if idx == usize::MAX {
                                    proof {
                                        crate::transform::lemma_remap_width_bounds(targets@);
                                        assert(targets@[t as int] is Some);
                                    }
                                    bad = true;
                                }
                            },
                            None => {},
                        }
                        t = t + 1;
                    }
                    proof {
                        assert(targets@.take(tn as int) =~= targets@);
                    }
                    if bad {
                        return Err(Error::Internal);
                    }
                    let out = remap(src, &targets);
                    proof {
                        assert(rows_v(out@) =~= remap_spec(srv, targets@));
                    }
                    Ok(out)
                },
                Err(e) => Err(e),
            }
        },
        Node::Scan { table, filter: pred, alias } => {
            let ghost tname = table;
            let ghost p = pred;
            let ghost al = alias;
            proof {
                assert(node0 == Node::Scan { table: tname, filter: p, alias: al });
            }
            match txn.scan(&table) {
                Ok(scanned) => match pred {
                    Option::None => Ok(scanned),
                    Option::Some(pp) => filter(scanned, &pp),
                },
                Err(e) => Err(e),
            }
        },
        Node::Values { rows } => {
            let ghost rws = rows;
            proof {
                assert(node0 == Node::Values { rows: rws });
            }
            eval_values(rows)
        },
    }
}


/// The record ids of a row-value stream.
pub open spec fn vrids(s: Seq<(RecordId, RowV)>) -> Seq<RecordId> {
    s.map_values(|p: (RecordId, RowV)| p.0)
}

/// A planned statement, as the planner hands it to the executor.
#[derive(Debug)]
pub enum Plan {
    CreateTable { schema: TableSchema },
    Delete { table: String, source: Node },
    DropTable { table: String, if_exists: bool },
    Insert { table: TableSchema, source: Node },
    Select(Node),
    Update { table: TableSchema, source: Node, expressions: Vec<(usize, Expression)> },
}

/// What executing a plan produced.
#[derive(Debug)]
pub enum ExecutionResult {
    CreateTable { name: String },
    DropTable { name: String, existed: bool },
    Delete { count: u64 },
    Insert { count: u64, record_ids: Vec<RecordId> },
    Update { count: u64 },
    Select { rows: Vec<(RecordId, Row)>, columns: Vec<Option<String>> },
}

/// Executes a query plan: schema statements go to the catalog, write
/// statements drain their source and hand the rows to the transaction
/// surface, and a select returns the row stream with its column labels.
#[verifier::rlimit(100)]
pub fn execute_plan(plan: Plan, engine: &mut Engine) -> (r: Result<ExecutionResult, Error>)
    requires
        old(engine).wf(),
        old(engine).next_table_id < u32::MAX,
    ensures
        final(engine).wf(),
        match plan {
            Plan::CreateTable { schema } => {
                &&& (old(engine).has_table(schema.name@) ==> r == Err::<ExecutionResult, Error>(
                    Error::InvalidInput,
                ) && *final(engine) == *old(engine))
                &&& (!old(engine).has_table(schema.name@) ==> (r matches Ok(res)
                    && res matches ExecutionResult::CreateTable { name } && name@ == schema.name@)
                    && final(engine).has_table(schema.name@) && final(engine).tbls().len() == old(
                    engine,
                ).tbls().len() + 1)
            },
            Plan::DropTable { table, if_exists } => {
                &&& (!old(engine).has_table(table@) && if_exists ==> (r matches Ok(res)
                    && res matches ExecutionResult::DropTable { name, existed } && name@ == table@
                    && !existed) && *final(engine) == *old(engine))
                &&& (!old(engine).has_table(table@) && !if_exists ==> r == Err::<
                    ExecutionResult,
                    Error,
                >(Error::NotFound) && *final(engine) == *old(engine))
                &&& (old(engine).has_table(table@) ==> (r matches Ok(res)
                    && res matches ExecutionResult::DropTable { name, existed } && name@ == table@
                    && existed) && !final(engine).has_table(table@) && final(engine).tbls()
                    == old(engine).tbls().remove(tbl_idx(old(engine).tbls(), table@)))
            },
            Plan::Delete { table, source } => match execute_spec(source, old(engine).tbls()) {
                Err(e) => r == Err::<ExecutionResult, Error>(e) && *final(engine) == *old(engine),
                Ok(rows) => {
                    &&& (!old(engine).has_table(table@) ==> r == Err::<ExecutionResult, Error>(
                        Error::NotFound,
                    ) && *final(engine) == *old(engine))
                    &&& (old(engine).has_table(table@) ==> {
                        let j = tbl_idx(old(engine).tbls(), table@);
                        let applied = apply_deletes(
                            old(engine).tbls()[j].rows@,
                            old(engine).tbls()[j].id,
                            vrids(rows),
                        );
                        &&& (r matches Ok(res) ==> res matches ExecutionResult::Delete { count }
                            && count == rows.len() && applied == Ok::<Seq<Option<Row>>, Error>(
                            final(engine).tbls()[j].rows@,
                        ))
                        &&& (r matches Err(e) ==> applied == Err::<Seq<Option<Row>>, Error>(e))
                    })
                },
            },
            Plan::Insert { table, source } => match execute_spec(source, old(engine).tbls()) {
                Err(e) => r == Err::<ExecutionResult, Error>(e) && *final(engine) == *old(engine),
                Ok(rows) => {
                    &&& (!old(engine).has_table(table.name@) ==> r == Err::<
                        ExecutionResult,
                        Error,
                    >(Error::NotFound) && *final(engine) == *old(engine))
                    &&& (old(engine).has_table(table.name@) && old(engine).table_at(
                        table.name@,
                    ).rows@.len() + rows.len() > u16::MAX ==> r == Err::<ExecutionResult, Error>(
                        Error::OutOfSpace,
                    ) && *final(engine) == *old(engine))
                    &&& (old(engine).has_table(table.name@) && old(engine).table_at(
                        table.name@,
                    ).rows@.len() + rows.len() <= u16::MAX ==> {
                        let j = tbl_idx(old(engine).tbls(), table.name@);
                        let base = old(engine).table_at(table.name@).rows@.len();
                        let id = old(engine).table_at(table.name@).id;
                        &&& r matches Ok(res)
                        &&& res matches ExecutionResult::Insert { count, record_ids }
                        &&& count == rows.len()
                        &&& record_ids@.len() == rows.len()
                        &&& (forall|k: int|
                            0 <= k < rows.len() ==> (#[trigger] record_ids@[k]) == (RecordId {
                                page_id: id,
                                slot_id: (base + k) as u16,
                            }))
                        &&& final(engine).tbls()[j].rows@.len() == base + rows.len()
                        &&& (forall|k: int|
                            0 <= k < rows.len() ==> ((
                            #[trigger] final(engine).tbls()[j].rows@[base + k]) matches Some(rr)
                                && rr@ == rows[k].1))
                    })
                },
            },
            Plan::Select(root) => match execute_spec(root, old(engine).tbls()) {
                Err(e) => r == Err::<ExecutionResult, Error>(e) && *final(engine) == *old(engine),
                Ok(rows) => {
                    &&& *final(engine) == *old(engine)
                    &&& r matches Ok(res)
                    &&& res matches ExecutionResult::Select { rows: out, columns }
                    &&& rows_v(out@) == rows
                    &&& columns@.len() == node_width(root, old(engine).tbls())
                    &&& (forall|i: int|
                        0 <= i < columns@.len() ==> (match #[trigger] columns@[i] {
                            Some(s) => node_label(root, old(engine).tbls(), i) == Some(s@),
                            None => node_label(root, old(engine).tbls(), i) is None,
                        }))
                },
            },
            Plan::Update { table, source, expressions } => match execute_spec(
                source,
                old(engine).tbls(),
            ) {
                Err(e) => r == Err::<ExecutionResult, Error>(e) && *final(engine) == *old(engine),
                Ok(rows) => match crate::write::build_updates(rows, expressions@) {
                    Err(e) => r == Err::<ExecutionResult, Error>(e) && *final(engine) == *old(
                        engine,
                    ),
                    Ok(uv) => {
                        &&& (!old(engine).has_table(table.name@) ==> r == Err::<
                            ExecutionResult,
                            Error,
                        >(Error::NotFound) && *final(engine) == *old(engine))
                        &&& (old(engine).has_table(table.name@) ==> {
                            let j = tbl_idx(old(engine).tbls(), table.name@);
                            let applied = crate::write::apply_updates_v(
                                crate::write::slots_v(old(engine).tbls()[j].rows@),
                                old(engine).tbls()[j].id,
                                uv,
                            );
                            &&& (r matches Ok(res) ==> res matches ExecutionResult::Update {
                                count,
                            } && count == uv.len() && applied == Ok::<Seq<Option<RowV>>, Error>(
                                crate::write::slots_v(final(engine).tbls()[j].rows@),
                            ))
                            &&& (r matches Err(e) ==> applied == Err::<Seq<Option<RowV>>, Error>(
                                e,
                            ))
                        })
                    },
                },
            },
        },
{
    let ghost plan0 = plan;
    match plan {
        Plan::CreateTable { schema } => {
            let ghost sc = schema;
            proof {
                assert(plan0 == Plan::CreateTable { schema: sc });
            }
            let name = schema.name.clone();
            match engine.create_table(schema) {
                Ok(u) => Ok(ExecutionResult::CreateTable { name }),
                Err(e) => Err(e),
            }
        },
        Plan::DropTable { table, if_exists } => {
            let ghost t0 = table;
            proof {
                assert(plan0 == Plan::DropTable { table: t0, if_exists });
            }
            match engine.drop_table(&table, if_exists) {
                Ok(existed) => Ok(ExecutionResult::DropTable { name: table, existed }),
                Err(e) => Err(e),
            }
        },
        Plan::Delete { table, source } => {
            let ghost t0 = table;
            let ghost src0 = source;
            proof {
                assert(plan0 == Plan::Delete { table: t0, source: src0 });
            }
            let rows = match execute(source, engine) {
                Ok(rows) => rows,
                Err(e) => {
                    return Err(e);
                },
            };
            let ghost rv = rows_v(rows@);
            let n = rows.len() as u64;
            proof {
                assert(crate::write::rids_of(rows@) =~= vrids(rv));
            }
            match crate::write::delete(engine, &table, rows) {
                Ok(count) => Ok(ExecutionResult::Delete { count }),
                Err(e) => Err(e),
            }
        },
        Plan::Insert { table, source } => {
            let ghost t0 = table;
            let ghost src0 = source;
            proof {
                assert(plan0 == Plan::Insert { table: t0, source: src0 });
            }
            let rows = match execute(source, engine) {
                Ok(rows) => rows,
                Err(e) => {
                    return Err(e);
                },
            };
            let ghost rv = rows_v(rows@);
            let count = rows.len() as u64;
            match crate::write::insert(engine, &table, rows) {
                Ok(record_ids) => Ok(ExecutionResult::Insert { count, record_ids }),
                Err(e) => Err(e),
            }
        },
        Plan::Select(root) => {
            let ghost root0 = root;
            proof {
                assert(plan0 == Plan::Select(root0));
            }
            let width = root.columns(engine);
            let mut columns: Vec<Option<String>> = Vec::new();
            let mut i: usize = 0;
            while i < width
                invariant
                    i <= width,
                    engine.wf(),
                    *engine == *old(engine),
                    root == root0,
                    columns@.len() == i,
                    forall|j: int|
                        0 <= j < i ==> (match #[trigger] columns@[j] {
                            Some(s) => node_label(root0, engine.tbls(), j) == Some(s@),
                            None => node_label(root0, engine.tbls(), j) is None,
                        }),
                decreases width - i,
            {
                columns.push(root.column_label(engine, i));
                i = i + 1;
            }
            let rows = match execute(root, engine) {
                Ok(rows) => rows,
                Err(e) => {
                    return Err(e);
                },
            };
            Ok(ExecutionResult::Select { rows, columns })
        },
        Plan::Update { table, source, expressions } => {
            let ghost t0 = table;
            let ghost src0 = source;
            let ghost ex0 = expressions;
            proof {
                assert(plan0 == Plan::Update { table: t0, source: src0, expressions: ex0 });
            }
            let rows = match execute(source, engine) {
                Ok(rows) => rows,
                Err(e) => {
                    return Err(e);
                },
            };
            match crate::write::update(engine, table.name(), rows, &expressions) {
                Ok(count) => Ok(ExecutionResult::Update { count }),
                Err(e) => Err(e),
            }
        },
    }
}

} // verus!
