use vstd::prelude::*;
use vstd::seq_lib::*;
use crate::error::Error;
use crate::expr::{Expression, eval};
use crate::field::{Cmp, Field, FieldV, field_cmp, lemma_field_cmp_antisym, lemma_field_cmp_eq, lemma_field_cmp_trans};
use crate::row::{RecordId, Row, RowV};

verus! {

/// The sort direction of one ORDER BY key.
#[derive(Clone, Copy, Debug, PartialEq, Eq, Structural)]
pub enum Direction {
    Ascending,
    Descending,
}

/// The value of a row stream: the sequence of record-id / row-value pairs.
pub open spec fn rows_v(s: Seq<(RecordId, Row)>) -> Seq<(RecordId, RowV)> {
    s.map_values(|p: (RecordId, Row)| (p.0, p.1@))
}

/// What filtering returns: the rows whose predicate evaluates to `true`,
/// in order; non-boolean and null predicate values drop the row; the first
/// evaluation error ends the stream.
pub open spec fn filter_spec(rows: Seq<(RecordId, RowV)>, pred: Expression) -> Result<
    Seq<(RecordId, RowV)>,
    Error,
>
    decreases rows.len(),
{
    if rows.len() == 0 {
        Ok(Seq::empty())
    } else {
        match filter_spec(rows.drop_last(), pred) {
            Err(e) => Err(e),
            Ok(front) => match eval(pred, Some(rows.last().1)) {
                Err(e) => Err(e),
                Ok(v) => if v == FieldV::Boolean(true) {
                    Ok(front.push(rows.last()))
                } else {
                    Ok(front)
                },
            },
        }
    }
}

/// Filters the input rows (WHERE).
pub fn filter(source: Vec<(RecordId, Row)>, predicate: &Expression) -> (r: Result<
    Vec<(RecordId, Row)>,
    Error,
>)
    ensures
        match r {
            Ok(out) => filter_spec(rows_v(source@), *predicate) == Ok::<_, Error>(rows_v(out@)),
            Err(e) => filter_spec(rows_v(source@), *predicate) == Err::<Seq<(RecordId, RowV)>, _>(
                e,
            ),
        },
{
    let n = source.len();
    let mut out: Vec<(RecordId, Row)> = Vec::new();
    let mut i: usize = 0;
    proof {
        assert(rows_v(source@).take(0) =~= Seq::empty());
        assert(rows_v(out@) =~= Seq::empty());
    }
    while i < n
        invariant
            i <= n,
            n == source@.len(),
            filter_spec(rows_v(source@).take(i as int), *predicate) == Ok::<_, Error>(
                rows_v(out@),
            ),
        decreases n - i,
    {
        let (rid, row) = (source[i].0, source[i].1.clone());
        let ghost pre_out = rows_v(out@);
        match predicate.evaluate(Some(&row)) {
            Err(e) => {
                proof {
                    lemma_filter_spec_prefix_err(
                        rows_v(source@),
                        *predicate,
                        i as int,
                        e,
                    );
                }
                return Err(e);
            },
            Ok(v) => {
                let keep = match v {
                    Field::Boolean(b) => b,
                    _ => false,
                };
                if keep {
                    out.push((rid, row));
                }
                proof {
                    let s = rows_v(source@);
                    assert(s.take(i + 1).drop_last() =~= s.take(i as int));
                    assert(s.take(i + 1).last() == s[i as int]);
                    assert(s[i as int].1 == source@[i as int].1@);
                    if keep {
                        assert(rows_v(out@) =~= pre_out.push(s[i as int]));
                    }
                }
            },
        }
        i = i + 1;
    }
    proof {
        assert(rows_v(source@).take(n as int) =~= rows_v(source@));
    }
    Ok(out)
}

/// An error while filtering the first `i` rows is an error on the whole
/// stream.
proof fn lemma_filter_spec_prefix_err(s: Seq<(RecordId, RowV)>, pred: Expression, i: int, e: Error)
    requires
        0 <= i < s.len(),
        filter_spec(s.take(i), pred) is Ok,
        eval(pred, Some(s[i].1)) == Err::<FieldV, Error>(e),
    ensures
        filter_spec(s, pred) == Err::<Seq<(RecordId, RowV)>, Error>(e),
    decreases s.len() - i,
{
    if i == s.len() - 1 {
        assert(s.take(i) =~= s.drop_last());
    } else {
        assert(s.drop_last().take(i) =~= s.take(i));
        assert(s.drop_last()[i] == s[i]);
        lemma_filter_spec_prefix_err(s.drop_last(), pred, i, e);
    }
}

/// Limits the result to the first `limit` rows (LIMIT).
pub fn limit(source: Vec<(RecordId, Row)>, count: usize) -> (r: Vec<(RecordId, Row)>)
    ensures
        rows_v(r@) == (if count as int <= source@.len() {
            rows_v(source@).take(count as int)
        } else {
            rows_v(source@)
        }),
{
    let mut source = source;
    let ghost orig = rows_v(source@);
    if count < source.len() {
        source.truncate(count);
        proof {
            assert(rows_v(source@) =~= orig.take(count as int));
        }
    } else {
        proof {
            assert(rows_v(source@) =~= orig);
            if count as int <= orig.len() {
                assert(orig.take(count as int) =~= orig);
            }
        }
    }
    source
}

/// Skips the first `offset` rows (OFFSET).
pub fn offset(source: Vec<(RecordId, Row)>, count: usize) -> (r: Vec<(RecordId, Row)>)
    ensures
        rows_v(r@) == (if count as int <= source@.len() {
            rows_v(source@).skip(count as int)
        } else {
            Seq::<(RecordId, RowV)>::empty()
        }),
{
    let n = source.len();
    let mut out: Vec<(RecordId, Row)> = Vec::new();
    if count >= n {
        proof {
            assert(rows_v(out@) =~= Seq::<(RecordId, RowV)>::empty());
            if count as int <= source@.len() {
                assert(rows_v(source@).skip(count as int) =~= Seq::<(RecordId, RowV)>::empty());
            }
        }
        return out;
    }
    let mut i: usize = count;
    while i < n
        invariant
            count <= i <= n,
            n == source@.len(),
            rows_v(out@) =~= rows_v(source@).subrange(count as int, i as int),
        decreases n - i,
    {
        let ghost pre = rows_v(out@);
        out.push((source[i].0, source[i].1.clone()));
        proof {
            assert(out@.last().1@ == source@[i as int].1@);
            assert(rows_v(out@) =~= pre.push((source@[i as int].0, source@[i as int].1@)));
            assert(rows_v(source@)[i as int] == (source@[i as int].0, source@[i as int].1@));
            assert(rows_v(out@) =~= rows_v(source@).subrange(count as int, i + 1));
        }
        i = i + 1;
    }
    proof {
        assert(rows_v(source@).subrange(count as int, n as int) =~= rows_v(source@).skip(
            count as int,
        ));
    }
    out
}

/// The values of the given expressions on one row, first error wins.
pub open spec fn eval_all(exprs: Seq<Expression>, row: RowV) -> Result<Seq<FieldV>, Error>
    decreases exprs.len(),
{
    if exprs.len() == 0 {
        Ok(Seq::empty())
    } else {
        match eval_all(exprs.drop_last(), row) {
            Err(e) => Err(e),
            Ok(front) => match eval(exprs.last(), Some(row)) {
                Err(e) => Err(e),
                Ok(v) => Ok(front.push(v)),
            },
        }
    }
}

/// Evaluates each expression on the row, collecting the values.
pub fn evaluate_all(exprs: &Vec<Expression>, row: &Row) -> (r: Result<Vec<Field>, Error>)
    ensures
        match r {
            Ok(vals) => eval_all(exprs@, row@) == Ok::<_, Error>(vals.deep_view()),
            Err(e) => eval_all(exprs@, row@) == Err::<Seq<FieldV>, _>(e),
        },
{
    let n = exprs.len();
    let mut vals: Vec<Field> = Vec::new();
    let mut i: usize = 0;
    proof {
        assert(exprs@.take(0) =~= Seq::<Expression>::empty());
        assert(vals.deep_view() =~= Seq::<FieldV>::empty());
    }
    while i < n
        invariant
            i <= n,
            n == exprs@.len(),
            eval_all(exprs@.take(i as int), row@) == Ok::<_, Error>(vals.deep_view()),
        decreases n - i,
    {
        let ghost pre = vals.deep_view();
        match exprs[i].evaluate(Some(row)) {
            Err(e) => {
                proof {
                    lemma_eval_all_prefix_err(exprs@, row@, i as int, e);
                }
                return Err(e);
            },
            Ok(v) => {
                vals.push(v);
                proof {
                    assert(exprs@.take(i + 1).drop_last() =~= exprs@.take(i as int));
                    assert(exprs@.take(i + 1).last() == exprs@[i as int]);
                    assert(vals.deep_view() =~= pre.push(vals@[vals@.len() - 1]@));
                }
            },
        }
        i = i + 1;
    }
    proof {
        assert(exprs@.take(n as int) =~= exprs@);
    }
    Ok(vals)
}

proof fn lemma_eval_all_prefix_err(exprs: Seq<Expression>, row: RowV, i: int, e: Error)
    requires
        0 <= i < exprs.len(),
        eval_all(exprs.take(i), row) is Ok,
        eval(exprs[i], Some(row)) == Err::<FieldV, Error>(e),
    ensures
        eval_all(exprs, row) == Err::<Seq<FieldV>, Error>(e),
    decreases exprs.len() - i,
{
    if i == exprs.len() - 1 {
        assert(exprs.take(i) =~= exprs.drop_last());
    } else {
        assert(exprs.drop_last().take(i) =~= exprs.take(i));
        assert(exprs.drop_last()[i] == exprs[i]);
        lemma_eval_all_prefix_err(exprs.drop_last(), row, i, e);
    }
}

/// What projection returns: each row replaced by its expression values,
/// first error wins.
pub open spec fn project_spec(rows: Seq<(RecordId, RowV)>, exprs: Seq<Expression>) -> Result<
    Seq<(RecordId, RowV)>,
    Error,
>
    decreases rows.len(),
{
    if rows.len() == 0 {
        Ok(Seq::empty())
    } else {
        match project_spec(rows.drop_last(), exprs) {
            Err(e) => Err(e),
            Ok(front) => match eval_all(exprs, rows.last().1) {
                Err(e) => Err(e),
                Ok(vals) => Ok(front.push((rows.last().0, vals))),
            },
        }
    }
}

/// Projects each row through the given expressions (SELECT).
pub fn project(source: Vec<(RecordId, Row)>, expressions: &Vec<Expression>) -> (r: Result<
    Vec<(RecordId, Row)>,
    Error,
>)
    ensures
        match r {
            Ok(out) => project_spec(rows_v(source@), expressions@) == Ok::<_, Error>(rows_v(out@)),
            Err(e) => project_spec(rows_v(source@), expressions@) == Err::<
                Seq<(RecordId, RowV)>,
                _,
            >(e),
        },
{
    let n = source.len();
    let mut out: Vec<(RecordId, Row)> = Vec::new();
    let mut i: usize = 0;
    proof {
        assert(rows_v(source@).take(0) =~= Seq::empty());
        assert(rows_v(out@) =~= Seq::empty());
    }
    while i < n
        invariant
            i <= n,
            n == source@.len(),
            project_spec(rows_v(source@).take(i as int), expressions@) == Ok::<_, Error>(
                rows_v(out@),
            ),
        decreases n - i,
    {
        let ghost pre_out = rows_v(out@);
        let ghost s = rows_v(source@);
        match evaluate_all(expressions, &source[i].1) {
            Err(e) => {
                proof {
                    lemma_project_spec_prefix_err(s, expressions@, i as int, e);
                }
                return Err(e);
            },
            Ok(vals) => {
                out.push((source[i].0, Row::new(vals)));
                proof {
                    assert(s.take(i + 1).drop_last() =~= s.take(i as int));
                    assert(s.take(i + 1).last() == s[i as int]);
                    assert(rows_v(out@) =~= pre_out.push(
                        (s[i as int].0, out@[out@.len() - 1].1@),
                    ));
                }
            },
        }
        i = i + 1;
    }
    proof {
        assert(rows_v(source@).take(n as int) =~= rows_v(source@));
    }
    Ok(out)
}

proof fn lemma_project_spec_prefix_err(
    s: Seq<(RecordId, RowV)>,
    exprs: Seq<Expression>,
    i: int,
    e: Error,
)
    requires
        0 <= i < s.len(),
        project_spec(s.take(i), exprs) is Ok,
        eval_all(exprs, s[i].1) == Err::<Seq<FieldV>, Error>(e),
    ensures
        project_spec(s, exprs) == Err::<Seq<(RecordId, RowV)>, Error>(e),
    decreases s.len() - i,
{
    if i == s.len() - 1 {
        assert(s.take(i) =~= s.drop_last());
    } else {
        assert(s.drop_last().take(i) =~= s.take(i));
        assert(s.drop_last()[i] == s[i]);
        lemma_project_spec_prefix_err(s.drop_last(), exprs, i, e);
    }
}

/// The output width of a remap: one past the highest target index.
pub open spec fn remap_width(targets: Seq<Option<usize>>) -> int
    decreases targets.len(),
{
    if targets.len() == 0 {
        0
    } else {
        let rest = remap_width(targets.drop_last());
        let this: int = match targets.last() {
            Some(t) => t + 1,
            None => 0,
        };
        if this > rest {
            this
        } else {
            rest
        }
    }
}

/// The remapped row after placing the first `k` source columns.
pub open spec fn remap_row(row: RowV, targets: Seq<Option<usize>>, width: int, k: int) -> RowV
    decreases k,
{
    if k <= 0 {
        Seq::new(width as nat, |i: int| FieldV::Null)
    } else {
        let prev = remap_row(row, targets, width, k - 1);
        if k - 1 < row.len() && k - 1 < targets.len() && targets[k - 1] is Some {
            prev.update(targets[k - 1]->0 as int, row[k - 1])
        } else {
            prev
        }
    }
}

pub open spec fn spec_min(a: int, b: int) -> int {
    if a < b {
        a
    } else {
        b
    }
}

pub proof fn lemma_remap_width_bounds(targets: Seq<Option<usize>>)
    ensures
        0 <= remap_width(targets) <= usize::MAX as int + 1,
        forall|k: int|
            0 <= k < targets.len() && targets[k] is Some ==> (#[trigger] targets[k])->0 + 1
                <= remap_width(targets),
    decreases targets.len(),
{
    if targets.len() > 0 {
        lemma_remap_width_bounds(targets.drop_last());
        assert forall|k: int|
            0 <= k < targets.len() && targets[k] is Some implies (#[trigger] targets[k])->0 + 1
            <= remap_width(targets) by {
            if k < targets.len() - 1 {
                assert(targets.drop_last()[k] == targets[k]);
            }
        }
    }
}

/// Remaps source columns to target positions, dropping unmapped ones and
/// filling unassigned positions with nulls.
pub fn remap(source: Vec<(RecordId, Row)>, targets: &Vec<Option<usize>>) -> (r: Vec<(
    RecordId,
    Row,
)>)
    requires
        remap_width(targets@) <= usize::MAX,
    ensures
        r@.len() == source@.len(),
        forall|i: int|
            0 <= i < source@.len() ==> (#[trigger] rows_v(r@)[i]) == (
                rows_v(source@)[i].0,
                remap_row(
                    rows_v(source@)[i].1,
                    targets@,
                    remap_width(targets@),
                    spec_min(rows_v(source@)[i].1.len() as int, targets@.len() as int),
                ),
            ),
{
    proof {
        lemma_remap_width_bounds(targets@);
    }
    let tn = targets.len();
    let mut width: usize = 0;
    let mut t: usize = 0;
    while t < tn
        invariant
            t <= tn,
            tn == targets@.len(),
            width == remap_width(targets@.take(t as int)),
            remap_width(targets@) <= usize::MAX,
            width <= usize::MAX,
        decreases tn - t,
    {
        proof {
            assert(targets@.take(t + 1).drop_last() =~= targets@.take(t as int));
            assert(targets@.take(t + 1).last() == targets@[t as int]);
            lemma_remap_width_take(targets@, t + 1);
        }
        match targets[t] {
            Some(idx) => {
                proof {
                    lemma_remap_width_bounds(targets@);
                    assert(targets@[t as int] is Some);
                    assert(targets@[t as int]->0 + 1 <= remap_width(targets@));
                }
                if idx + 1 > width {
                    width = idx + 1;
                }
            },
            None => {},
        }
        t = t + 1;
    }
    proof {
        assert(targets@.take(tn as int) =~= targets@);
    }
    let n = source.len();
    let mut out: Vec<(RecordId, Row)> = Vec::new();
    let mut i: usize = 0;
    while i < n
        invariant
            i <= n,
            n == source@.len(),
            tn == targets@.len(),
            width == remap_width(targets@),
            out@.len() == i,
            forall|j: int|
                0 <= j < i ==> (#[trigger] rows_v(out@)[j]) == (
                    rows_v(source@)[j].0,
                    remap_row(
                        rows_v(source@)[j].1,
                        targets@,
                        remap_width(targets@),
                        spec_min(rows_v(source@)[j].1.len() as int, targets@.len() as int),
                    ),
                ),
        decreases n - i,
    {
        let row = &source[i].1;
        let rlen = row.len();
        let mut fields: Vec<Field> = Vec::new();
        let mut w: usize = 0;
        while w < width
            invariant
                w <= width,
                fields@.len() == w,
                forall|x: int| 0 <= x < w ==> (#[trigger] fields@[x])@ == FieldV::Null,
            decreases width - w,
        {
            fields.push(Field::Null);
            w = w + 1;
        }
        let bound = if rlen < tn {
            rlen
        } else {
            tn
        };
        let mut k: usize = 0;
        proof {
            assert(fields.deep_view() =~= remap_row(
                row@,
                targets@,
                width as int,
                0,
            ));
        }
        while k < bound
            invariant
                k <= bound,
                bound == spec_min(row@.len() as int, targets@.len() as int),
                rlen == row@.len(),
                tn == targets@.len(),
                width == remap_width(targets@),
                row@ == source@[i as int].1@,
                i < source@.len(),
                fields.deep_view() =~= remap_row(row@, targets@, width as int, k as int),
                fields@.len() == width,
            decreases bound - k,
        {
            match targets[k] {
                Some(idx) => {
                    proof {
                        lemma_remap_width_bounds(targets@);
                    }
                    let f = row.get_field(k);
                    match f {
                        Ok(v) => {
                            fields.set(idx, v.clone());
                            proof {
                                assert(fields.deep_view() =~= remap_row(
                                    row@,
                                    targets@,
                                    width as int,
                                    k as int,
                                ).update(idx as int, row@[k as int]));
                            }
                        },
                        Err(_) => {},
                    }
                },
                None => {},
            }
            k = k + 1;
        }
        let ghost pre_rows = rows_v(out@);
        out.push((source[i].0, Row::new(fields)));
        proof {
            assert(out@.last().1@ == remap_row(
                source@[i as int].1@,
                targets@,
                remap_width(targets@),
                spec_min(source@[i as int].1@.len() as int, targets@.len() as int),
            ));
            assert forall|j: int| 0 <= j < i + 1 implies (#[trigger] rows_v(out@)[j]) == (
                rows_v(source@)[j].0,
                remap_row(
                    rows_v(source@)[j].1,
                    targets@,
                    remap_width(targets@),
                    spec_min(rows_v(source@)[j].1.len() as int, targets@.len() as int),
                ),
            ) by {
                if j < i as int {
                    assert(rows_v(out@)[j] == pre_rows[j]);
                } else {
                    assert(rows_v(out@)[j] == (out@[j].0, out@[j].1@));
                }
            }
        }
        i = i + 1;
    }
    out
}

pub proof fn lemma_remap_width_take(targets: Seq<Option<usize>>, t: int)
    requires
        0 < t <= targets.len(),
    ensures
        remap_width(targets.take(t)) == {
            let rest = remap_width(targets.take(t - 1));
            let this: int = match targets[t - 1] {
                Some(x) => x + 1,
                None => 0,
            };
            if this > rest {
                this
            } else {
                rest
            }
        },
{
    assert(targets.take(t).drop_last() =~= targets.take(t - 1));
    assert(targets.take(t).last() == targets[t - 1]);
}


/// A comparison outcome adjusted for the sort direction: descending keys
/// reverse the order.
pub open spec fn dir_cmp(c: Cmp, d: Direction) -> Cmp {
    match d {
        Direction::Ascending => c,
        Direction::Descending => match c {
            Cmp::Less => Cmp::Greater,
            Cmp::Equal => Cmp::Equal,
            Cmp::Greater => Cmp::Less,
        },
    }
}

/// Lexicographic comparison of two key tuples under per-key directions;
/// comparison stops at the shortest of the three sequences.
pub open spec fn keys_cmp(a: Seq<FieldV>, b: Seq<FieldV>, dirs: Seq<Direction>) -> Cmp
    decreases a.len(),
{
    if a.len() == 0 || b.len() == 0 || dirs.len() == 0 {
        Cmp::Equal
    } else {
        let c = dir_cmp(field_cmp(a[0], b[0]), dirs[0]);
        if c == Cmp::Equal {
            keys_cmp(a.drop_first(), b.drop_first(), dirs.drop_first())
        } else {
            c
        }
    }
}

pub open spec fn exprs_of(ord: Seq<(Expression, Direction)>) -> Seq<Expression> {
    ord.map_values(|p: (Expression, Direction)| p.0)
}

pub open spec fn dirs_of(ord: Seq<(Expression, Direction)>) -> Seq<Direction> {
    ord.map_values(|p: (Expression, Direction)| p.1)
}

/// Whether every sort key evaluates without error on the row.
pub open spec fn ord_keys_ok(ord: Seq<(Expression, Direction)>, row: RowV) -> bool {
    eval_all(exprs_of(ord), row) is Ok
}

/// The row's sort-key tuple.
pub open spec fn ord_keys(ord: Seq<(Expression, Direction)>, row: RowV) -> Seq<FieldV> {
    match eval_all(exprs_of(ord), row) {
        Ok(v) => v,
        Err(_) => Seq::empty(),
    }
}

/// The sort order on rows: key tuples compared lexicographically with
/// per-key direction.
pub open spec fn ord_le(ord: Seq<(Expression, Direction)>, a: RowV, b: RowV) -> bool {
    keys_cmp(ord_keys(ord, a), ord_keys(ord, b), dirs_of(ord)) != Cmp::Greater
}

/// Whether evaluating the sort keys of every row succeeds; the first
/// failure carries its error.
pub open spec fn keys_check(rows: Seq<(RecordId, RowV)>, ord: Seq<(Expression, Direction)>) -> Result<(), Error>
    decreases rows.len(),
{
    if rows.len() == 0 {
        Ok(())
    } else {
        match keys_check(rows.drop_last(), ord) {
            Err(e) => Err(e),
            Ok(u) => match eval_all(exprs_of(ord), rows.last().1) {
                Err(e) => Err(e),
                Ok(v) => Ok(()),
            },
        }
    }
}

proof fn lemma_keys_check_prefix_err(
    s: Seq<(RecordId, RowV)>,
    ord: Seq<(Expression, Direction)>,
    i: int,
    e: Error,
)
    requires
        0 <= i < s.len(),
        keys_check(s.take(i), ord) is Ok,
        eval_all(exprs_of(ord), s[i].1) == Err::<Seq<FieldV>, Error>(e),
    ensures
        keys_check(s, ord) == Err::<(), Error>(e),
    decreases s.len() - i,
{
    if i == s.len() - 1 {
        assert(s.take(i) =~= s.drop_last());
    } else {
        assert(s.drop_last().take(i) =~= s.take(i));
        assert(s.drop_last()[i] == s[i]);
        lemma_keys_check_prefix_err(s.drop_last(), ord, i, e);
    }
}

pub proof fn lemma_eval_all_len(exprs: Seq<Expression>, row: RowV)
    requires
        eval_all(exprs, row) is Ok,
    ensures
        (match eval_all(exprs, row) {
            Ok(v) => v.len(),
            Err(_) => 0,
        }) == exprs.len(),
    decreases exprs.len(),
{
    if exprs.len() > 0 {
        lemma_eval_all_len(exprs.drop_last(), row);
    }
}

proof fn lemma_dir_cmp_eq(x: FieldV, y: FieldV, d: Direction)
    ensures
        dir_cmp(field_cmp(x, y), d) == Cmp::Equal <==> x == y,
{
    lemma_field_cmp_eq(x, y);
}

proof fn lemma_dir_cmp_antisym(x: FieldV, y: FieldV, d: Direction)
    ensures
        dir_cmp(field_cmp(x, y), d) == Cmp::Less <==> dir_cmp(field_cmp(y, x), d) == Cmp::Greater,
        dir_cmp(field_cmp(x, y), d) == Cmp::Equal <==> dir_cmp(field_cmp(y, x), d) == Cmp::Equal,
{
    lemma_field_cmp_antisym(x, y);
    lemma_field_cmp_antisym(y, x);
    lemma_field_cmp_eq(x, y);
    lemma_field_cmp_eq(y, x);
}

proof fn lemma_dir_cmp_trans(x: FieldV, y: FieldV, z: FieldV, d: Direction)
    requires
        dir_cmp(field_cmp(x, y), d) != Cmp::Greater,
        dir_cmp(field_cmp(y, z), d) != Cmp::Greater,
    ensures
        dir_cmp(field_cmp(x, z), d) != Cmp::Greater,
{
    match d {
        Direction::Ascending => {
            lemma_field_cmp_trans(x, y, z);
        },
        Direction::Descending => {
            lemma_field_cmp_antisym(x, y);
            lemma_field_cmp_antisym(y, z);
            lemma_field_cmp_antisym(x, z);
            lemma_field_cmp_antisym(z, x);
            lemma_field_cmp_eq(x, y);
            lemma_field_cmp_eq(y, z);
            lemma_field_cmp_trans(z, y, x);
        },
    }
}

pub proof fn lemma_keys_cmp_refl(a: Seq<FieldV>, dirs: Seq<Direction>)
    ensures
        keys_cmp(a, a, dirs) == Cmp::Equal,
    decreases a.len(),
{
    if a.len() != 0 && dirs.len() != 0 {
        lemma_dir_cmp_eq(a[0], a[0], dirs[0]);
        lemma_keys_cmp_refl(a.drop_first(), dirs.drop_first());
    }
}

pub proof fn lemma_keys_cmp_antisym(a: Seq<FieldV>, b: Seq<FieldV>, dirs: Seq<Direction>)
    requires
        a.len() == b.len(),
    ensures
        keys_cmp(a, b, dirs) == Cmp::Less <==> keys_cmp(b, a, dirs) == Cmp::Greater,
        keys_cmp(a, b, dirs) == Cmp::Equal <==> keys_cmp(b, a, dirs) == Cmp::Equal,
    decreases a.len(),
{
    if a.len() != 0 && dirs.len() != 0 {
        lemma_dir_cmp_antisym(a[0], b[0], dirs[0]);
        lemma_dir_cmp_antisym(b[0], a[0], dirs[0]);
        lemma_keys_cmp_antisym(a.drop_first(), b.drop_first(), dirs.drop_first());
    }
}

pub proof fn lemma_keys_cmp_trans(a: Seq<FieldV>, b: Seq<FieldV>, c: Seq<FieldV>, dirs: Seq<Direction>)
    requires
        a.len() == b.len(),
        b.len() == c.len(),
        keys_cmp(a, b, dirs) != Cmp::Greater,
        keys_cmp(b, c, dirs) != Cmp::Greater,
    ensures
        keys_cmp(a, c, dirs) != Cmp::Greater,
    decreases a.len(),
{
    if a.len() != 0 && dirs.len() != 0 {
        let c1 = dir_cmp(field_cmp(a[0], b[0]), dirs[0]);
        let c2 = dir_cmp(field_cmp(b[0], c[0]), dirs[0]);
        let c3 = dir_cmp(field_cmp(a[0], c[0]), dirs[0]);
        lemma_dir_cmp_eq(a[0], b[0], dirs[0]);
        lemma_dir_cmp_eq(b[0], c[0], dirs[0]);
        lemma_dir_cmp_eq(a[0], c[0], dirs[0]);
        lemma_dir_cmp_antisym(a[0], b[0], dirs[0]);
        lemma_dir_cmp_antisym(b[0], c[0], dirs[0]);
        lemma_dir_cmp_antisym(a[0], c[0], dirs[0]);
        lemma_dir_cmp_antisym(c[0], a[0], dirs[0]);
        lemma_dir_cmp_trans(a[0], b[0], c[0], dirs[0]);
        if c1 == Cmp::Equal && c2 == Cmp::Equal {
            lemma_keys_cmp_trans(a.drop_first(), b.drop_first(), c.drop_first(), dirs.drop_first());
        } else if c1 == Cmp::Less && c2 == Cmp::Less {
            if c3 == Cmp::Equal {
                lemma_dir_cmp_trans(c[0], a[0], b[0], dirs[0]);
            }
        }
    }
}

/// Evaluates the sort keys of one row.
fn eval_keys(order_by: &Vec<(Expression, Direction)>, row: &Row) -> (r: Result<Vec<Field>, Error>)
    ensures
        match r {
            Ok(vals) => eval_all(exprs_of(order_by@), row@) == Ok::<_, Error>(vals.deep_view()),
            Err(e) => eval_all(exprs_of(order_by@), row@) == Err::<Seq<FieldV>, _>(e),
        },
{
    let n = order_by.len();
    let mut vals: Vec<Field> = Vec::new();
    let mut i: usize = 0;
    proof {
        assert(exprs_of(order_by@).take(0) =~= Seq::<Expression>::empty());
        assert(vals.deep_view() =~= Seq::<FieldV>::empty());
    }
    while i < n
        invariant
            i <= n,
            n == order_by@.len(),
            eval_all(exprs_of(order_by@).take(i as int), row@) == Ok::<_, Error>(vals.deep_view()),
        decreases n - i,
    {
        let ghost pre = vals.deep_view();
        match order_by[i].0.evaluate(Some(row)) {
            Err(e) => {
                proof {
                    assert(exprs_of(order_by@)[i as int] == order_by@[i as int].0);
                    lemma_eval_all_prefix_err(exprs_of(order_by@), row@, i as int, e);
                }
                return Err(e);
            },
            Ok(v) => {
                vals.push(v);
                proof {
                    let es = exprs_of(order_by@);
                    assert(es.take(i + 1).drop_last() =~= es.take(i as int));
                    assert(es.take(i + 1).last() == es[i as int]);
                    assert(es[i as int] == order_by@[i as int].0);
                    assert(vals.deep_view() =~= pre.push(vals@[vals@.len() - 1]@));
                }
            },
        }
        i = i + 1;
    }
    proof {
        assert(exprs_of(order_by@).take(n as int) =~= exprs_of(order_by@));
    }
    Ok(vals)
}

/// Compares two key tuples under the per-key directions.
fn compare_keys(a: &Vec<Field>, b: &Vec<Field>, order_by: &Vec<(Expression, Direction)>) -> (r:
    Cmp)
    ensures
        r == keys_cmp(a.deep_view(), b.deep_view(), dirs_of(order_by@)),
{
    let alen = a.len();
    let blen = b.len();
    let dlen = order_by.len();
    let mut i: usize = 0;
    proof {
        assert(a.deep_view().skip(0) =~= a.deep_view());
        assert(b.deep_view().skip(0) =~= b.deep_view());
        assert(dirs_of(order_by@).skip(0) =~= dirs_of(order_by@));
    }
    while i < alen && i < blen && i < dlen
        invariant
            i <= alen,
            i <= blen,
            i <= dlen,
            alen == a@.len(),
            blen == b@.len(),
            dlen == order_by@.len(),
            keys_cmp(a.deep_view(), b.deep_view(), dirs_of(order_by@)) == keys_cmp(
                a.deep_view().skip(i as int),
                b.deep_view().skip(i as int),
                dirs_of(order_by@).skip(i as int),
            ),
        decreases alen - i,
    {
        let c = a[i].compare(&b[i]);
        let adj = match order_by[i].1 {
            Direction::Ascending => c,
            Direction::Descending => match c {
                Cmp::Less => Cmp::Greater,
                Cmp::Equal => Cmp::Equal,
                Cmp::Greater => Cmp::Less,
            },
        };
        proof {
            assert(a.deep_view().skip(i as int)[0] == a.deep_view()[i as int]);
            assert(b.deep_view().skip(i as int)[0] == b.deep_view()[i as int]);
            assert(dirs_of(order_by@).skip(i as int)[0] == dirs_of(order_by@)[i as int]);
            assert(dirs_of(order_by@)[i as int] == order_by@[i as int].1);
            assert(a.deep_view()[i as int] == a@[i as int]@);
            assert(b.deep_view()[i as int] == b@[i as int]@);
        }
        if !matches!(adj, Cmp::Equal) {
            return adj;
        }
        proof {
            assert(a.deep_view().skip(i as int).drop_first() =~= a.deep_view().skip(i + 1));
            assert(b.deep_view().skip(i as int).drop_first() =~= b.deep_view().skip(i + 1));
            assert(dirs_of(order_by@).skip(i as int).drop_first() =~= dirs_of(order_by@).skip(
                i + 1,
            ));
        }
        i = i + 1;
    }
    proof {
        assert(a.deep_view().skip(i as int).len() == alen - i);
        assert(b.deep_view().skip(i as int).len() == blen - i);
        assert(dirs_of(order_by@).skip(i as int).len() == dlen - i);
    }
    Cmp::Equal
}

/// The rows carried by a keyed item sequence.
pub open spec fn keyed_rows(items: Seq<(Vec<Field>, (RecordId, Row))>) -> Seq<(RecordId, RowV)> {
    items.map_values(|it: (Vec<Field>, (RecordId, Row))| (it.1.0, it.1.1@))
}

/// A keyed item carries the evaluated sort keys of its own row.
pub open spec fn item_linked(
    ord: Seq<(Expression, Direction)>,
    it: (Vec<Field>, (RecordId, Row)),
) -> bool {
    eval_all(exprs_of(ord), it.1.1@) == Ok::<Seq<FieldV>, Error>(it.0.deep_view())
}

/// The first `k` items are sorted by their keys.
pub open spec fn sorted_prefix(
    items: Seq<(Vec<Field>, (RecordId, Row))>,
    k: int,
    dirs: Seq<Direction>,
) -> bool {
    forall|x: int, y: int|
        0 <= x < y < k ==> keys_cmp(
            (#[trigger] items[x]).0.deep_view(),
            (#[trigger] items[y]).0.deep_view(),
            dirs,
        ) != Cmp::Greater
}


/// Removing an element and reinserting it keeps the multiset.
proof fn lemma_remove_insert_multiset(
    before: Seq<(Vec<Field>, (RecordId, Row))>,
    after: Seq<(Vec<Field>, (RecordId, Row))>,
    idx: int,
    pos: int,
)
    requires
        0 <= idx < before.len(),
        0 <= pos <= before.len() - 1,
        after == before.remove(idx).insert(pos, before[idx]),
    ensures
        after.to_multiset() == before.to_multiset(),
        keyed_rows(after).to_multiset() == keyed_rows(before).to_multiset(),
{
    broadcast use vstd::seq_lib::group_to_multiset_ensures;
    broadcast use vstd::multiset::group_multiset_axioms;

    let removed = before.remove(idx);
    let item = before[idx];
    assert(before.remove(idx).to_multiset() =~= before.to_multiset().remove(before[idx]));
    assert(after.remove(pos) =~= removed);
    assert(after.remove(pos).to_multiset() =~= after.to_multiset().remove(after[pos]));
    assert(after[pos] == item);
    assert(after.contains(item));
    assert(before.contains(item));
    assert forall|e: (Vec<Field>, (RecordId, Row))| true implies after.to_multiset().count(e)
        == before.to_multiset().count(e) by {
        if e == item {
            assert(after.to_multiset().count(item) >= 1);
            assert(before.to_multiset().count(item) >= 1);
            assert(after.to_multiset().remove(item).count(item) == after.to_multiset().count(item)
                - 1);
            assert(before.to_multiset().remove(item).count(item) == before.to_multiset().count(
                item,
            ) - 1);
        } else {
            assert(after.to_multiset().remove(item).count(e) == after.to_multiset().count(e));
            assert(before.to_multiset().remove(item).count(e) == before.to_multiset().count(e));
        }
    }
    assert(after.to_multiset() =~= before.to_multiset());
    lemma_keyed_rows_multiset(before, after);
}

/// After moving the item at `idx` back to `pos`, the first `idx + 1`
/// items are sorted.
proof fn lemma_moved_prefix_sorted(
    before: Seq<(Vec<Field>, (RecordId, Row))>,
    after: Seq<(Vec<Field>, (RecordId, Row))>,
    idx: int,
    pos: int,
    dirs: Seq<Direction>,
)
    requires
        0 <= pos <= idx < before.len(),
        after == before.remove(idx).insert(pos, before[idx]),
        sorted_prefix(before, idx, dirs),
        forall|x: int|
            0 <= x < before.len() ==> (#[trigger] before[x]).0.deep_view().len() == dirs.len(),
        forall|x: int|
            pos <= x < idx ==> keys_cmp(
                (#[trigger] before[x]).0.deep_view(),
                before[idx].0.deep_view(),
                dirs,
            ) == Cmp::Greater,
        pos > 0 ==> keys_cmp(before[pos - 1].0.deep_view(), before[idx].0.deep_view(), dirs)
            != Cmp::Greater,
    ensures
        sorted_prefix(after, idx + 1, dirs),
{
    let item = before[idx];
    assert forall|x: int, y: int| 0 <= x < y < idx + 1 implies keys_cmp(
        (#[trigger] after[x]).0.deep_view(),
        (#[trigger] after[y]).0.deep_view(),
        dirs,
    ) != Cmp::Greater by {
        if x < pos && y < pos {
            assert(after[x] == before[x]);
            assert(after[y] == before[y]);
        } else if x < pos && y == pos {
            assert(after[x] == before[x]);
            assert(after[y] == item);
            assert(keys_cmp(before[pos - 1].0.deep_view(), item.0.deep_view(), dirs)
                != Cmp::Greater);
            if x < pos - 1 {
                lemma_keys_cmp_trans(
                    before[x].0.deep_view(),
                    before[pos - 1].0.deep_view(),
                    item.0.deep_view(),
                    dirs,
                );
            }
        } else if x < pos && y > pos {
            assert(after[x] == before[x]);
            assert(after[y] == before[y - 1]);
        } else if x == pos {
            assert(after[x] == item);
            assert(after[y] == before[y - 1]);
            assert(keys_cmp(before[y - 1].0.deep_view(), item.0.deep_view(), dirs)
                == Cmp::Greater);
            lemma_keys_cmp_antisym(item.0.deep_view(), before[y - 1].0.deep_view(), dirs);
        } else {
            assert(after[x] == before[x - 1]);
            assert(after[y] == before[y - 1]);
        }
    }
}

/// Moves the item at `idx` back to its place among the sorted first `idx`
/// items, keeping the overall multiset and every item's key link.
#[verifier::rlimit(100)]
fn insert_sorted(
    keyed: &mut Vec<(Vec<Field>, (RecordId, Row))>,
    idx: usize,
    order_by: &Vec<(Expression, Direction)>,
)
    requires
        1 <= idx < old(keyed)@.len(),
        sorted_prefix(old(keyed)@, idx as int, dirs_of(order_by@)),
        forall|x: int|
            0 <= x < old(keyed)@.len() ==> item_linked(order_by@, #[trigger] old(keyed)@[x]),
    ensures
        final(keyed)@.len() == old(keyed)@.len(),
        final(keyed)@.to_multiset() == old(keyed)@.to_multiset(),
        keyed_rows(final(keyed)@).to_multiset() == keyed_rows(old(keyed)@).to_multiset(),
        sorted_prefix(final(keyed)@, idx + 1, dirs_of(order_by@)),
        forall|x: int|
            0 <= x < final(keyed)@.len() ==> item_linked(order_by@, #[trigger] final(keyed)@[x]),
        keyed_rows(final(keyed)@).take(idx + 1) =~= sort_insert(
            keyed_rows(old(keyed)@).take(idx as int),
            keyed_rows(old(keyed)@)[idx as int],
            order_by@,
        ),
        forall|x: int| idx < x < old(keyed)@.len() ==> final(keyed)@[x] == old(keyed)@[x],
{
    let ghost before = keyed@;
    let ghost dirs = dirs_of(order_by@);
    proof {
        assert forall|x: int| 0 <= x < before.len() implies (
        #[trigger] before[x]).0.deep_view().len() == order_by@.len() by {
            assert(item_linked(order_by@, before[x]));
            lemma_eval_all_len(exprs_of(order_by@), before[x].1.1@);
        }
    }
    let item = keyed.remove(idx);
    let ghost removed = keyed@;
    let mut pos: usize = idx;
    while pos > 0 && matches!(compare_keys(&keyed[pos - 1].0, &item.0, order_by), Cmp::Greater)
        invariant
            pos <= idx,
            idx < before.len(),
            keyed@ == removed,
            removed == before.remove(idx as int),
            item == before[idx as int],
            forall|x: int|
                pos <= x < idx ==> keys_cmp(
                    (#[trigger] keyed@[x]).0.deep_view(),
                    item.0.deep_view(),
                    dirs_of(order_by@),
                ) == Cmp::Greater,
        decreases pos,
    {
        pos = pos - 1;
    }
    keyed.insert(pos, item);
    proof {
        let after = keyed@;
        assert(after == removed.insert(pos as int, item));
        assert(after == before.remove(idx as int).insert(pos as int, before[idx as int]));
        lemma_remove_insert_multiset(before, after, idx as int, pos as int);
        assert forall|x: int| pos <= x < idx implies keys_cmp(
            (#[trigger] before[x]).0.deep_view(),
            before[idx as int].0.deep_view(),
            dirs,
        ) == Cmp::Greater by {
            assert(removed[x] == before[x]);
            assert(keys_cmp(removed[x].0.deep_view(), item.0.deep_view(), dirs) == Cmp::Greater);
        }
        if pos > 0 {
            assert(removed[pos - 1] == before[pos - 1]);
        }
        lemma_moved_prefix_sorted(before, after, idx as int, pos as int, dirs);
        // the prefix is exactly the stable insertion of the moved item
        let kb = keyed_rows(before).take(idx as int);
        let itv = keyed_rows(before)[idx as int];
        assert forall|x: int|
            (pos as int) <= x < kb.len() implies keys_cmp(
            ord_keys(order_by@, (#[trigger] kb[x]).1),
            ord_keys(order_by@, itv.1),
            dirs_of(order_by@),
        ) == Cmp::Greater by {
            assert(kb[x] == keyed_rows(before)[x]);
            assert(item_linked(order_by@, before[x]));
            assert(item_linked(order_by@, before[idx as int]));
            assert(ord_keys(order_by@, before[x].1.1@) == before[x].0.deep_view());
            assert(ord_keys(order_by@, before[idx as int].1.1@) == before[
                idx as int].0.deep_view());
            assert(keys_cmp(before[x].0.deep_view(), before[idx as int].0.deep_view(), dirs)
                == Cmp::Greater);
        }
        if pos > 0 {
            assert(item_linked(order_by@, before[pos - 1]));
            assert(item_linked(order_by@, before[idx as int]));
            assert(ord_keys(order_by@, kb[pos - 1].1) == before[pos - 1].0.deep_view());
            assert(ord_keys(order_by@, itv.1) == before[idx as int].0.deep_view());
        }
        lemma_sort_insert_at(kb, itv, order_by@, pos as int);
        assert(after.take(idx + 1) =~= before.take(idx as int).insert(pos as int, item));
        assert forall|x: int| 0 <= x < idx + 1 implies keyed_rows(after).take(idx + 1)[x] == (
        kb.take(pos as int) + seq![itv] + kb.skip(pos as int))[x] by {
            assert(keyed_rows(after)[x] == (after[x].1.0, after[x].1.1@));
            if x < pos as int {
                assert(after[x] == before[x]);
            } else if x == pos as int {
                assert(after[x] == item);
            } else {
                assert(after[x] == before[x - 1]);
            }
        }
        assert(keyed_rows(after).take(idx + 1) =~= kb.take(pos as int) + seq![itv] + kb.skip(
            pos as int,
        ));
        assert(keyed_rows(after).take(idx + 1) =~= sort_insert(kb, itv, order_by@));
        assert forall|x: int| 0 <= x < after.len() implies item_linked(
            order_by@,
            #[trigger] after[x],
        ) by {
            let p = pos as int;
            if x < p {
                assert(after[x] == before[x]);
            } else if x == p {
                assert(after[x] == item);
            } else if x <= idx as int {
                assert(after[x] == removed[x - 1]);
                assert(removed[x - 1] == before[x - 1]);
            } else {
                assert(after[x] == removed[x - 1]);
                assert(removed[x - 1] == before[x]);
            }
        }
    }
}

/// Sorts the rows by the given keys and directions (ORDER BY): the output
/// is a permutation of the input, sorted by the evaluated key tuples. The
/// first key-evaluation error is returned instead.
pub fn order(source: Vec<(RecordId, Row)>, order_by: &Vec<(Expression, Direction)>) -> (r: Result<
    Vec<(RecordId, Row)>,
    Error,
>)
    ensures
        match r {
            Ok(out) => {
                &&& keys_check(rows_v(source@), order_by@) is Ok
                &&& rows_v(out@) == sort_rows(rows_v(source@), order_by@)
                &&& rows_v(out@).to_multiset() == rows_v(source@).to_multiset()
                &&& out@.len() == source@.len()
                &&& forall|x: int, y: int|
                    0 <= x < y < out@.len() ==> ord_le(
                        order_by@,
                        rows_v(out@)[x].1,
                        rows_v(out@)[y].1,
                    )
            },
            Err(e) => keys_check(rows_v(source@), order_by@) == Err::<(), Error>(e),
        },
{
    broadcast use vstd::seq_lib::group_to_multiset_ensures;

    let n = source.len();
    let mut keyed: Vec<(Vec<Field>, (RecordId, Row))> = Vec::new();
    let mut i: usize = 0;
    proof {
        assert(rows_v(source@).take(0) =~= Seq::empty());
        assert(keyed_rows(keyed@) =~= Seq::empty());
    }
    while i < n
        invariant
            i <= n,
            n == source@.len(),
            keyed@.len() == i,
            keys_check(rows_v(source@).take(i as int), order_by@) is Ok,
            keyed_rows(keyed@) =~= rows_v(source@).take(i as int),
            forall|x: int| 0 <= x < i ==> item_linked(order_by@, #[trigger] keyed@[x]),
        decreases n - i,
    {
        let ghost s = rows_v(source@);
        match eval_keys(order_by, &source[i].1) {
            Err(e) => {
                proof {
                    lemma_keys_check_prefix_err(s, order_by@, i as int, e);
                }
                return Err(e);
            },
            Ok(key) => {
                let ghost pre = keyed_rows(keyed@);
                keyed.push((key, (source[i].0, source[i].1.clone())));
                proof {
                    assert(s.take(i + 1).drop_last() =~= s.take(i as int));
                    assert(s.take(i + 1).last() == s[i as int]);
                    assert(keyed_rows(keyed@) =~= pre.push(
                        (source@[i as int].0, source@[i as int].1@),
                    ));
                    assert(keyed_rows(keyed@) =~= s.take(i + 1));
                }
            },
        }
        i = i + 1;
    }
    proof {
        assert(rows_v(source@).take(n as int) =~= rows_v(source@));
    }
    let ghost dirs = dirs_of(order_by@);
    let ghost orig = keyed@;
    proof {
        if n > 0 {
            let k1 = keyed_rows(orig).take(1);
            assert(k1.drop_last() =~= Seq::<(RecordId, RowV)>::empty());
            assert(sort_rows(k1.drop_last(), order_by@) =~= Seq::<(RecordId, RowV)>::empty());
            assert(sort_insert(sort_rows(k1.drop_last(), order_by@), k1.last(), order_by@)
                =~= seq![k1.last()]);
            assert(k1 =~= seq![k1.last()]);
            assert(keyed_rows(keyed@).take(1) =~= sort_rows(keyed_rows(orig).take(1), order_by@));
        } else {
            assert(keyed_rows(keyed@).take(0) =~= sort_rows(keyed_rows(orig).take(0), order_by@));
        }
    }
    if n > 1 {
        let mut idx: usize = 1;
        while idx < n
            invariant
                1 <= idx <= n,
                n == source@.len(),
                keyed@.len() == n,
                orig.len() == n,
                keyed_rows(orig) == rows_v(source@),
                keyed_rows(keyed@).to_multiset() == rows_v(source@).to_multiset(),
                forall|x: int| 0 <= x < n ==> item_linked(order_by@, #[trigger] keyed@[x]),
                sorted_prefix(keyed@, idx as int, dirs_of(order_by@)),
                keys_check(rows_v(source@), order_by@) is Ok,
                keyed_rows(keyed@).take(idx as int) =~= sort_rows(
                    keyed_rows(orig).take(idx as int),
                    order_by@,
                ),
                forall|x: int| idx <= x < n ==> keyed@[x] == orig[x],
            decreases n - idx,
        {
            let ghost before = keyed@;
            insert_sorted(&mut keyed, idx, order_by);
            proof {
                assert(before[idx as int] == orig[idx as int]);
                assert(keyed_rows(before)[idx as int] == keyed_rows(orig)[idx as int]);
                assert(keyed_rows(orig).take(idx + 1).drop_last() =~= keyed_rows(orig).take(
                    idx as int,
                ));
                assert(keyed_rows(orig).take(idx + 1).last() == keyed_rows(orig)[idx as int]);
                assert(keyed_rows(keyed@).take(idx + 1) =~= sort_insert(
                    sort_rows(keyed_rows(orig).take(idx as int), order_by@),
                    keyed_rows(orig)[idx as int],
                    order_by@,
                )) by {
                    assert(keyed_rows(keyed@).take(idx + 1) =~= sort_insert(
                        keyed_rows(before).take(idx as int),
                        keyed_rows(before)[idx as int],
                        order_by@,
                    ));
                    assert(keyed_rows(before).take(idx as int) == sort_rows(
                        keyed_rows(orig).take(idx as int),
                        order_by@,
                    ));
                }
                assert(keyed_rows(keyed@).take(idx + 1) =~= sort_rows(
                    keyed_rows(orig).take(idx + 1),
                    order_by@,
                ));
            }
            idx = idx + 1;
        }
    }
    // strip the keys
    let mut out: Vec<(RecordId, Row)> = Vec::new();
    let mut x: usize = 0;
    proof {
        assert(rows_v(out@) =~= Seq::empty());
        assert(rows_v(out@) =~= keyed_rows(keyed@).take(0));
    }
    while x < n
        invariant
            x <= n,
            n == source@.len(),
            keyed@.len() == n,
            rows_v(out@) =~= keyed_rows(keyed@).take(x as int),
            orig.len() == n,
            keyed_rows(orig) == rows_v(source@),
            keyed_rows(keyed@).take(n as int) =~= sort_rows(
                keyed_rows(orig).take(n as int),
                order_by@,
            ),
            keyed_rows(keyed@).to_multiset() == rows_v(source@).to_multiset(),
            forall|a: int| 0 <= a < n ==> item_linked(order_by@, #[trigger] keyed@[a]),
            sorted_prefix(keyed@, n as int, dirs_of(order_by@)),
            keys_check(rows_v(source@), order_by@) is Ok,
        decreases n - x,
    {
        let ghost pre = rows_v(out@);
        out.push((keyed[x].1.0, keyed[x].1.1.clone()));
        proof {
            assert(rows_v(out@) =~= pre.push((keyed@[x as int].1.0, keyed@[x as int].1.1@)));
            assert(keyed_rows(keyed@)[x as int] == (keyed@[x as int].1.0, keyed@[x as int].1.1@));
            assert(rows_v(out@) =~= keyed_rows(keyed@).take(x + 1));
        }
        x = x + 1;
    }
    proof {
        assert(keyed_rows(keyed@).take(n as int) =~= keyed_rows(keyed@));
        assert(keyed_rows(orig).take(n as int) =~= keyed_rows(orig));
        assert(rows_v(out@) == keyed_rows(keyed@));
        assert(rows_v(out@) == sort_rows(rows_v(source@), order_by@));
        assert forall|a: int, b: int| 0 <= a < b < out@.len() implies ord_le(
            order_by@,
            rows_v(out@)[a].1,
            rows_v(out@)[b].1,
        ) by {
            assert(rows_v(out@)[a] == keyed_rows(keyed@)[a]);
            assert(rows_v(out@)[b] == keyed_rows(keyed@)[b]);
            assert(item_linked(order_by@, keyed@[a]));
            assert(item_linked(order_by@, keyed@[b]));
            assert(ord_keys(order_by@, keyed@[a].1.1@) == keyed@[a].0.deep_view());
            assert(ord_keys(order_by@, keyed@[b].1.1@) == keyed@[b].0.deep_view());
            assert(keys_cmp(keyed@[a].0.deep_view(), keyed@[b].0.deep_view(), dirs_of(order_by@))
                != Cmp::Greater);
        }
    }
    Ok(out)
}

/// Keyed item sequences with equal multisets carry row sequences with
/// equal multisets.
proof fn lemma_keyed_rows_multiset(
    a: Seq<(Vec<Field>, (RecordId, Row))>,
    b: Seq<(Vec<Field>, (RecordId, Row))>,
)
    requires
        a.to_multiset() == b.to_multiset(),
    ensures
        keyed_rows(a).to_multiset() == keyed_rows(b).to_multiset(),
    decreases a.len(),
{
    broadcast use vstd::seq_lib::group_to_multiset_ensures;
    broadcast use vstd::multiset::group_multiset_axioms;

    if a.len() == 0 {
        assert(b.to_multiset().len() == 0);
        assert(b.len() == 0);
        assert(keyed_rows(a) =~= Seq::empty());
        assert(keyed_rows(b) =~= Seq::empty());
    } else {
        let x = a.last();
        assert(a.contains(x));
        assert(a.to_multiset().count(x) > 0);
        assert(b.to_multiset().count(x) > 0);
        assert(b.contains(x));
        let j = choose|j: int| 0 <= j < b.len() && b[j] == x;
        let a2 = a.drop_last();
        let b2 = b.remove(j);
        assert(a.remove(a.len() - 1) =~= a2);
        assert(a.remove(a.len() - 1).to_multiset() =~= a.to_multiset().remove(a[a.len() - 1]));
        assert(b.remove(j).to_multiset() =~= b.to_multiset().remove(b[j]));
        assert(a2.to_multiset() =~= b2.to_multiset());
        lemma_keyed_rows_multiset(a2, b2);
        let ka = keyed_rows(a);
        let kb = keyed_rows(b);
        let xv = (x.1.0, x.1.1@);
        assert(ka.remove(ka.len() - 1) =~= keyed_rows(a2));
        assert(kb.remove(j) =~= keyed_rows(b2));
        assert(ka.remove(ka.len() - 1).to_multiset() =~= ka.to_multiset().remove(
            ka[ka.len() - 1],
        ));
        assert(kb.remove(j).to_multiset() =~= kb.to_multiset().remove(kb[j]));
        assert(ka[ka.len() - 1] == xv);
        assert(kb[j] == xv);
        assert(ka.contains(xv)) by {
            assert(ka[ka.len() - 1] == xv);
        }
        assert(kb.contains(xv)) by {
            assert(kb[j] == xv);
        }
        assert forall|e: (RecordId, RowV)| true implies ka.to_multiset().count(e)
            == kb.to_multiset().count(e) by {
            if e == xv {
                assert(ka.to_multiset().count(xv) > 0);
                assert(kb.to_multiset().count(xv) > 0);
                assert(ka.to_multiset().remove(xv).count(xv) == ka.to_multiset().count(xv) - 1);
                assert(kb.to_multiset().remove(xv).count(xv) == kb.to_multiset().count(xv) - 1);
            } else {
                assert(ka.to_multiset().remove(xv).count(e) == ka.to_multiset().count(e));
                assert(kb.to_multiset().remove(xv).count(e) == kb.to_multiset().count(e));
            }
        }
        assert(ka.to_multiset() =~= kb.to_multiset());
    }
}


/// Keys that compare equal under directions covering every position are
/// equal.
pub proof fn lemma_keys_cmp_equal_eq(a: Seq<FieldV>, b: Seq<FieldV>, dirs: Seq<Direction>)
    requires
        a.len() == b.len(),
        a.len() <= dirs.len(),
    ensures
        keys_cmp(a, b, dirs) == Cmp::Equal ==> a == b,
    decreases a.len(),
{
    if a.len() != 0 {
        lemma_dir_cmp_eq(a[0], b[0], dirs[0]);
        lemma_keys_cmp_equal_eq(a.drop_first(), b.drop_first(), dirs.drop_first());
        if keys_cmp(a, b, dirs) == Cmp::Equal {
            assert(a.drop_first() == b.drop_first());
            assert forall|i: int| 0 <= i < a.len() implies a[i] == b[i] by {
                if i > 0 {
                    assert(a.drop_first()[i - 1] == b.drop_first()[i - 1]);
                }
            }
            assert(a =~= b);
        }
    } else {
        if keys_cmp(a, b, dirs) == Cmp::Equal {
            assert(a =~= b);
        }
    }
}


/// Stable insertion of a row into a sorted row sequence: the row goes
/// after every row whose key tuple is not greater than its own.
pub open spec fn sort_insert(
    s: Seq<(RecordId, RowV)>,
    it: (RecordId, RowV),
    ord: Seq<(Expression, Direction)>,
) -> Seq<(RecordId, RowV)>
    decreases s.len(),
{
    if s.len() == 0 {
        seq![it]
    } else if keys_cmp(ord_keys(ord, s.last().1), ord_keys(ord, it.1), dirs_of(ord))
        == Cmp::Greater {
        sort_insert(s.drop_last(), it, ord).push(s.last())
    } else {
        s.push(it)
    }
}

/// The stable insertion sort of a row sequence by its key tuples.
pub open spec fn sort_rows(
    rows: Seq<(RecordId, RowV)>,
    ord: Seq<(Expression, Direction)>,
) -> Seq<(RecordId, RowV)>
    decreases rows.len(),
{
    if rows.len() == 0 {
        Seq::empty()
    } else {
        sort_insert(sort_rows(rows.drop_last(), ord), rows.last(), ord)
    }
}

/// Where the stable insertion lands: right after the last element that is
/// not greater than the inserted one.
pub proof fn lemma_sort_insert_at(
    s: Seq<(RecordId, RowV)>,
    it: (RecordId, RowV),
    ord: Seq<(Expression, Direction)>,
    p: int,
)
    requires
        0 <= p <= s.len(),
        forall|x: int|
            p <= x < s.len() ==> keys_cmp(
                ord_keys(ord, (#[trigger] s[x]).1),
                ord_keys(ord, it.1),
                dirs_of(ord),
            ) == Cmp::Greater,
        p > 0 ==> keys_cmp(ord_keys(ord, s[p - 1].1), ord_keys(ord, it.1), dirs_of(ord))
            != Cmp::Greater,
    ensures
        sort_insert(s, it, ord) =~= s.take(p) + seq![it] + s.skip(p),
    decreases s.len(),
{
    if s.len() == 0 {
        assert(sort_insert(s, it, ord) =~= s.take(p) + seq![it] + s.skip(p));
    } else if p == s.len() {
        assert(sort_insert(s, it, ord) == s.push(it));
        assert(s.push(it) =~= s.take(p) + seq![it] + s.skip(p));
    } else {
        assert(keys_cmp(ord_keys(ord, s.last().1), ord_keys(ord, it.1), dirs_of(ord))
            == Cmp::Greater);
        assert forall|x: int|
            p <= x < s.drop_last().len() implies keys_cmp(
            ord_keys(ord, (#[trigger] s.drop_last()[x]).1),
            ord_keys(ord, it.1),
            dirs_of(ord),
        ) == Cmp::Greater by {
            assert(s.drop_last()[x] == s[x]);
        }
        if p > 0 {
            assert(s.drop_last()[p - 1] == s[p - 1]);
        }
        lemma_sort_insert_at(s.drop_last(), it, ord, p);
        assert(sort_insert(s, it, ord) =~= (s.drop_last().take(p) + seq![it] + s.drop_last().skip(
            p,
        )).push(s.last()));
        assert(s.drop_last().take(p) =~= s.take(p));
        assert(s.drop_last().skip(p).push(s.last()) =~= s.skip(p));
        assert(sort_insert(s, it, ord) =~= s.take(p) + seq![it] + s.skip(p));
    }
}

} // verus!
