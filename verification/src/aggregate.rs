use vstd::prelude::*;
use crate::error::Error;
use crate::expr::{Expression, eval};
use crate::field::{Cmp, Field, FieldV, field_add, field_cmp, field_div, res_v};
use crate::row::{RecordId, Row, RowV, spec_invalid_rid};
use crate::transform::{Direction, eval_all, evaluate_all, keys_cmp, lemma_eval_all_len, lemma_keys_cmp_antisym, lemma_keys_cmp_trans, rows_v};

verus! {

/// An aggregate over the values of one expression.
#[derive(Debug)]
pub enum Aggregate {
    Average(Expression),
    Count(Expression),
    Max(Expression),
    Min(Expression),
    Sum(Expression),
}

/// The mathematical state of an accumulator.
pub enum AccumV {
    Average { count: int, sum: FieldV },
    Count(int),
    Max(Option<FieldV>),
    Min(Option<FieldV>),
    Sum(Option<FieldV>),
}

/// A running accumulator for one aggregate.
#[derive(Debug)]
pub enum Accumulator {
    Average { count: i32, sum: Field },
    Count(i32),
    Max(Option<Field>),
    Min(Option<Field>),
    Sum(Option<Field>),
}

impl View for Accumulator {
    type V = AccumV;

    open spec fn view(&self) -> AccumV {
        match self {
            Accumulator::Average { count, sum } => AccumV::Average {
                count: *count as int,
                sum: sum@,
            },
            Accumulator::Count(c) => AccumV::Count(*c as int),
            Accumulator::Max(m) => AccumV::Max(
                match m {
                    Some(f) => Some(f@),
                    None => None,
                },
            ),
            Accumulator::Min(m) => AccumV::Min(
                match m {
                    Some(f) => Some(f@),
                    None => None,
                },
            ),
            Accumulator::Sum(s) => AccumV::Sum(
                match s {
                    Some(f) => Some(f@),
                    None => None,
                },
            ),
        }
    }
}

impl DeepView for Accumulator {
    type V = AccumV;

    open spec fn deep_view(&self) -> AccumV {
        self.view()
    }
}

/// The argument expression of an aggregate.
pub open spec fn agg_expr(a: Aggregate) -> Expression {
    match a {
        Aggregate::Average(e) => e,
        Aggregate::Count(e) => e,
        Aggregate::Max(e) => e,
        Aggregate::Min(e) => e,
        Aggregate::Sum(e) => e,
    }
}

pub open spec fn agg_exprs(aggs: Seq<Aggregate>) -> Seq<Expression> {
    aggs.map_values(|a: Aggregate| agg_expr(a))
}

/// The empty accumulator of an aggregate.
pub open spec fn init_acc(a: Aggregate) -> AccumV {
    match a {
        Aggregate::Average(_) => AccumV::Average { count: 0, sum: FieldV::Integer(0) },
        Aggregate::Count(_) => AccumV::Count(0),
        Aggregate::Max(_) => AccumV::Max(None),
        Aggregate::Min(_) => AccumV::Min(None),
        Aggregate::Sum(_) => AccumV::Sum(None),
    }
}

pub open spec fn init_accs(aggs: Seq<Aggregate>) -> Seq<AccumV> {
    aggs.map_values(|a: Aggregate| init_acc(a))
}

/// One accumulator step: counting skips nulls, sums skip nulls and add
/// checked, extrema follow the field order, averages count and add.
/// Overflow of a counter or a sum is an error.
pub open spec fn acc_add(acc: AccumV, v: FieldV) -> Result<AccumV, Error> {
    match acc {
        AccumV::Count(c) => if v == FieldV::Null {
            Ok(AccumV::Count(c))
        } else if c == i32::MAX as int {
            Err(Error::TypeMismatch)
        } else {
            Ok(AccumV::Count(c + 1))
        },
        AccumV::Sum(state) => if v == FieldV::Null {
            Ok(AccumV::Sum(state))
        } else {
            let base = match state {
                Some(s) => s,
                None => FieldV::Integer(0),
            };
            match field_add(base, v) {
                Err(e) => Err(e),
                Ok(ns) => Ok(AccumV::Sum(Some(ns))),
            }
        },
        AccumV::Max(state) => match state {
            None => Ok(AccumV::Max(Some(v))),
            Some(m) => if field_cmp(v, m) == Cmp::Greater {
                Ok(AccumV::Max(Some(v)))
            } else {
                Ok(AccumV::Max(Some(m)))
            },
        },
        AccumV::Min(state) => match state {
            None => Ok(AccumV::Min(Some(v))),
            Some(m) => if field_cmp(v, m) == Cmp::Less {
                Ok(AccumV::Min(Some(v)))
            } else {
                Ok(AccumV::Min(Some(m)))
            },
        },
        AccumV::Average { count, sum } => if count == i32::MAX as int {
            Err(Error::TypeMismatch)
        } else {
            match field_add(sum, v) {
                Err(e) => Err(e),
                Ok(ns) => Ok(AccumV::Average { count: count + 1, sum: ns }),
            }
        },
    }
}

/// The final value of an accumulator: a count, a sum or extremum (null
/// without inputs), or a checked average (null without inputs).
pub open spec fn acc_value(acc: AccumV) -> Result<FieldV, Error> {
    match acc {
        AccumV::Count(c) => Ok(FieldV::Integer(c as i32)),
        AccumV::Sum(state) => match state {
            Some(s) => Ok(s),
            None => Ok(FieldV::Null),
        },
        AccumV::Max(state) => match state {
            Some(m) => Ok(m),
            None => Ok(FieldV::Null),
        },
        AccumV::Min(state) => match state {
            Some(m) => Ok(m),
            None => Ok(FieldV::Null),
        },
        AccumV::Average { count, sum } => if count > 0 {
            field_div(sum, FieldV::Integer(count as i32))
        } else {
            Ok(FieldV::Null)
        },
    }
}

impl Accumulator {
    /// The empty accumulator of an aggregate kind.
    pub fn new(aggregate: &Aggregate) -> (r: Accumulator)
        ensures
            r@ == init_acc(*aggregate),
    {
        match aggregate {
            Aggregate::Average(_) => Accumulator::Average { count: 0, sum: Field::Integer(0) },
            Aggregate::Count(_) => Accumulator::Count(0),
            Aggregate::Max(_) => Accumulator::Max(None),
            Aggregate::Min(_) => Accumulator::Min(None),
            Aggregate::Sum(_) => Accumulator::Sum(None),
        }
    }

    /// Folds one value into the accumulator; see [`acc_add`].
    pub fn add(&mut self, value: Field) -> (r: Result<(), Error>)
        ensures
            r matches Ok(u) ==> acc_add(old(self)@, value@) == Ok::<AccumV, Error>(final(self)@),
            r matches Err(e) ==> acc_add(old(self)@, value@) == Err::<AccumV, Error>(e),
    {
        match self {
            Accumulator::Count(c) => {
                if !value.is_undefined() {
                    if *c == i32::MAX {
                        return Err(Error::TypeMismatch);
                    }
                    *c = *c + 1;
                }
                Ok(())
            },
            Accumulator::Sum(state) => {
                if value.is_undefined() {
                    Ok(())
                } else {
                    let base = match state {
                        Some(s) => s.clone(),
                        None => Field::Integer(0),
                    };
                    match base.checked_add(&value) {
                        Err(e) => Err(e),
                        Ok(ns) => {
                            *state = Some(ns);
                            Ok(())
                        },
                    }
                }
            },
            Accumulator::Max(state) => {
                match state {
                    None => {
                        *state = Some(value);
                    },
                    Some(m) => {
                        if matches!(value.compare(m), Cmp::Greater) {
                            *state = Some(value);
                        }
                    },
                }
                Ok(())
            },
            Accumulator::Min(state) => {
                match state {
                    None => {
                        *state = Some(value);
                    },
                    Some(m) => {
                        if matches!(value.compare(m), Cmp::Less) {
                            *state = Some(value);
                        }
                    },
                }
                Ok(())
            },
            Accumulator::Average { count, sum } => {
                if *count == i32::MAX {
                    return Err(Error::TypeMismatch);
                }
                match sum.checked_add(&value) {
                    Err(e) => Err(e),
                    Ok(ns) => {
                        *count = *count + 1;
                        *sum = ns;
                        Ok(())
                    },
                }
            },
        }
    }

    /// The aggregate value of the accumulator; see [`acc_value`].
    pub fn value(&self) -> (r: Result<Field, Error>)
        ensures
            res_v(r) == acc_value(self@),
    {
        match self {
            Accumulator::Count(c) => Ok(Field::Integer(*c)),
            Accumulator::Sum(state) => match state {
                Some(s) => Ok(s.clone()),
                None => Ok(Field::Null),
            },
            Accumulator::Max(state) => match state {
                Some(m) => Ok(m.clone()),
                None => Ok(Field::Null),
            },
            Accumulator::Min(state) => match state {
                Some(m) => Ok(m.clone()),
                None => Ok(Field::Null),
            },
            Accumulator::Average { count, sum } => {
                if *count > 0 {
                    sum.checked_div(&Field::Integer(*count))
                } else {
                    Ok(Field::Null)
                }
            },
        }
    }
}

/// Folds one row's values into a vector of accumulators, pairing each
/// aggregate's expression value with its accumulator, in order; the first
/// evaluation or accumulation error wins.
pub open spec fn accs_update(accs: Seq<AccumV>, exprs: Seq<Expression>, row: RowV) -> Result<
    Seq<AccumV>,
    Error,
>
    decreases accs.len(),
{
    if accs.len() == 0 || exprs.len() == 0 {
        Ok(Seq::empty())
    } else if accs.len() != exprs.len() {
        Ok(Seq::empty())
    } else {
        match accs_update(accs.drop_last(), exprs.drop_last(), row) {
            Err(e) => Err(e),
            Ok(front) => match crate::expr::eval(exprs.last(), Some(row)) {
                Err(e) => Err(e),
                Ok(v) => match acc_add(accs.last(), v) {
                    Err(e) => Err(e),
                    Ok(na) => Ok(front.push(na)),
                },
            },
        }
    }
}

/// The final values of a vector of accumulators, in order.
pub open spec fn accs_values(accs: Seq<AccumV>) -> Result<Seq<FieldV>, Error>
    decreases accs.len(),
{
    if accs.len() == 0 {
        Ok(Seq::empty())
    } else {
        match accs_values(accs.drop_last()) {
            Err(e) => Err(e),
            Ok(front) => match acc_value(accs.last()) {
                Err(e) => Err(e),
                Ok(v) => Ok(front.push(v)),
            },
        }
    }
}

/// Ascending directions for a plain lexicographic key comparison.
pub open spec fn asc_dirs(n: int) -> Seq<Direction> {
    Seq::new(n as nat, |i: int| Direction::Ascending)
}

/// The ascending total order on group-key tuples.
pub open spec fn group_key_cmp(a: Seq<FieldV>, b: Seq<FieldV>) -> Cmp {
    keys_cmp(a, b, asc_dirs(a.len() as int))
}

/// One bucket: a group key and its accumulators.
pub type BucketV = (Seq<FieldV>, Seq<AccumV>);

/// The number of buckets whose key sorts strictly before `key`: in a
/// sorted bucket list, the position where `key` lives or is inserted.
pub open spec fn bucket_pos(bs: Seq<BucketV>, key: Seq<FieldV>) -> int
    decreases bs.len(),
{
    if bs.len() == 0 {
        0
    } else if group_key_cmp(bs[0].0, key) == Cmp::Less {
        1 + bucket_pos(bs.drop_first(), key)
    } else {
        0
    }
}

/// Folds one row into the sorted bucket list: an existing bucket's
/// accumulators take the row, a new bucket is created at its sorted
/// position from the empty accumulators.
pub open spec fn agg_step(
    bs: Seq<BucketV>,
    key: Seq<FieldV>,
    row: RowV,
    aggs: Seq<Aggregate>,
) -> Result<Seq<BucketV>, Error> {
    let pos = bucket_pos(bs, key);
    if pos < bs.len() && group_key_cmp(bs[pos].0, key) == Cmp::Equal {
        match accs_update(bs[pos].1, agg_exprs(aggs), row) {
            Err(e) => Err(e),
            Ok(accs) => Ok(bs.update(pos, (bs[pos].0, accs))),
        }
    } else {
        match accs_update(init_accs(aggs), agg_exprs(aggs), row) {
            Err(e) => Err(e),
            Ok(accs) => Ok(bs.insert(pos, (key, accs))),
        }
    }
}

/// Folds all rows into the sorted bucket list, in row order.
pub open spec fn agg_fold(
    rows: Seq<(RecordId, RowV)>,
    group_by: Seq<Expression>,
    aggs: Seq<Aggregate>,
) -> Result<Seq<BucketV>, Error>
    decreases rows.len(),
{
    if rows.len() == 0 {
        Ok(Seq::empty())
    } else {
        match agg_fold(rows.drop_last(), group_by, aggs) {
            Err(e) => Err(e),
            Ok(bs) => match eval_all(group_by, rows.last().1) {
                Err(e) => Err(e),
                Ok(key) => agg_step(bs, key, rows.last().1, aggs),
            },
        }
    }
}

/// The output rows of a bucket list: each bucket's key fields followed by
/// its aggregate values, under the invalid record id.
pub open spec fn buckets_out(bs: Seq<BucketV>) -> Result<Seq<(RecordId, RowV)>, Error>
    decreases bs.len(),
{
    if bs.len() == 0 {
        Ok(Seq::empty())
    } else {
        match buckets_out(bs.drop_last()) {
            Err(e) => Err(e),
            Ok(front) => match accs_values(bs.last().1) {
                Err(e) => Err(e),
                Ok(vals) => Ok(front.push((spec_invalid_rid(), bs.last().0 + vals))),
            },
        }
    }
}

/// What aggregation returns: the folded buckets in ascending key order;
/// with no input rows and no grouping, one row of empty-accumulator
/// values.
pub open spec fn agg_rows(
    rows: Seq<(RecordId, RowV)>,
    group_by: Seq<Expression>,
    aggs: Seq<Aggregate>,
) -> Result<Seq<(RecordId, RowV)>, Error> {
    match agg_fold(rows, group_by, aggs) {
        Err(e) => Err(e),
        Ok(bs) => if bs.len() == 0 && group_by.len() == 0 {
            match accs_values(init_accs(aggs)) {
                Err(e) => Err(e),
                Ok(vals) => Ok(seq![(spec_invalid_rid(), vals)]),
            }
        } else {
            buckets_out(bs)
        },
    }
}

/// The bucket list is strictly sorted by key, and every key and
/// accumulator vector has the expected width.
pub open spec fn buckets_wf(bs: Seq<BucketV>, glen: int, alen: int) -> bool {
    &&& forall|i: int, j: int|
        0 <= i < j < bs.len() ==> group_key_cmp((#[trigger] bs[i]).0, (#[trigger] bs[j]).0)
            == Cmp::Less
    &&& forall|i: int| 0 <= i < bs.len() ==> (#[trigger] bs[i]).0.len() == glen
    &&& forall|i: int| 0 <= i < bs.len() ==> (#[trigger] bs[i]).1.len() == alen
}

/// Removing one bucket keeps a bucket list well-formed.
pub proof fn lemma_buckets_wf_remove(bs: Seq<BucketV>, pos: int, glen: int, alen: int)
    requires
        buckets_wf(bs, glen, alen),
        0 <= pos < bs.len(),
    ensures
        buckets_wf(bs.remove(pos), glen, alen),
{
    let t = bs.remove(pos);
    assert forall|i: int, j: int| 0 <= i < j < t.len() implies group_key_cmp(
        (#[trigger] t[i]).0,
        (#[trigger] t[j]).0,
    ) == Cmp::Less by {
        let i2: int = if i < pos {
            i
        } else {
            i + 1
        };
        let j2: int = if j < pos {
            j
        } else {
            j + 1
        };
        assert(t[i] == bs[i2]);
        assert(t[j] == bs[j2]);
    }
    assert forall|i: int| 0 <= i < t.len() implies (#[trigger] t[i]).0.len() == glen && t[i].1.len()
        == alen by {
        let i2: int = if i < pos {
            i
        } else {
            i + 1
        };
        assert(t[i] == bs[i2]);
    }
}

pub proof fn lemma_accs_update_len(accs: Seq<AccumV>, exprs: Seq<Expression>, row: RowV)
    requires
        accs.len() == exprs.len(),
        accs_update(accs, exprs, row) is Ok,
    ensures
        (match accs_update(accs, exprs, row) {
            Ok(v) => v.len(),
            Err(_) => 0,
        }) == accs.len(),
    decreases accs.len(),
{
    if accs.len() > 0 {
        lemma_accs_update_len(accs.drop_last(), exprs.drop_last(), row);
    }
}

/// The leading strictly-smaller prefix characterizes the bucket position.
pub proof fn lemma_bucket_pos_char(bs: Seq<BucketV>, key: Seq<FieldV>, pos: int)
    requires
        0 <= pos <= bs.len(),
        forall|x: int| 0 <= x < pos ==> group_key_cmp((#[trigger] bs[x]).0, key) == Cmp::Less,
        pos < bs.len() ==> group_key_cmp(bs[pos].0, key) != Cmp::Less,
    ensures
        bucket_pos(bs, key) == pos,
    decreases bs.len(),
{
    if bs.len() > 0 {
        if pos == 0 {
        } else {
            assert(group_key_cmp(bs[0].0, key) == Cmp::Less);
            assert forall|x: int|
                0 <= x < pos - 1 implies group_key_cmp(
                (#[trigger] bs.drop_first()[x]).0,
                key,
            ) == Cmp::Less by {
                assert(bs.drop_first()[x] == bs[x + 1]);
            }
            if pos - 1 < bs.drop_first().len() {
                assert(bs.drop_first()[pos - 1] == bs[pos]);
            }
            lemma_bucket_pos_char(bs.drop_first(), key, pos - 1);
        }
    }
}

/// A fold step preserves well-formedness of the bucket list.
pub proof fn lemma_agg_step_wf(
    bs: Seq<BucketV>,
    key: Seq<FieldV>,
    row: RowV,
    aggs: Seq<Aggregate>,
    glen: int,
)
    requires
        buckets_wf(bs, glen, aggs.len() as int),
        key.len() == glen,
        agg_step(bs, key, row, aggs) is Ok,
    ensures
        (match agg_step(bs, key, row, aggs) {
            Ok(nbs) => buckets_wf(nbs, glen, aggs.len() as int) && nbs.len() >= bs.len(),
            Err(_) => true,
        }),
{
    let pos = bucket_pos(bs, key);
    lemma_bucket_pos_is_char(bs, key);
    if pos < bs.len() && group_key_cmp(bs[pos].0, key) == Cmp::Equal {
        let nbs = match agg_step(bs, key, row, aggs) {
            Ok(n) => n,
            Err(_) => bs,
        };
        lemma_accs_update_len(bs[pos].1, agg_exprs(aggs), row);
        assert forall|i: int, j: int| 0 <= i < j < nbs.len() implies group_key_cmp(
            (#[trigger] nbs[i]).0,
            (#[trigger] nbs[j]).0,
        ) == Cmp::Less by {
            assert(nbs[i].0 == bs[i].0);
            assert(nbs[j].0 == bs[j].0);
        }
    } else {
        let nbs = bs.insert(pos, (key, match accs_update(init_accs(aggs), agg_exprs(aggs), row) {
            Ok(a) => a,
            Err(_) => Seq::empty(),
        }));
        assert(init_accs(aggs).len() == aggs.len());
        lemma_accs_update_len(init_accs(aggs), agg_exprs(aggs), row);
        assert forall|i: int, j: int| 0 <= i < j < nbs.len() implies group_key_cmp(
            (#[trigger] nbs[i]).0,
            (#[trigger] nbs[j]).0,
        ) == Cmp::Less by {
            let ki = nbs[i].0;
            let kj = nbs[j].0;
            if i < pos && j < pos {
                assert(nbs[i] == bs[i]);
                assert(nbs[j] == bs[j]);
            } else if i < pos && j == pos {
                assert(nbs[i] == bs[i]);
                assert(group_key_cmp(bs[i].0, key) == Cmp::Less);
            } else if i < pos && j > pos {
                assert(nbs[i] == bs[i]);
                assert(nbs[j] == bs[j - 1]);
            } else if i == pos {
                assert(nbs[j] == bs[j - 1]);
                assert(j - 1 >= pos);
                assert(pos < bs.len());
                assert(group_key_cmp(bs[pos].0, key) != Cmp::Less);
                assert(group_key_cmp(bs[pos].0, key) != Cmp::Equal);
                assert(group_key_cmp(bs[pos].0, key) == Cmp::Greater);
                lemma_keys_cmp_antisym(key, bs[pos].0, asc_dirs(glen));
                assert(group_key_cmp(key, bs[pos].0) == Cmp::Less);
                if j - 1 > pos {
                    assert(group_key_cmp(bs[pos].0, bs[j - 1].0) == Cmp::Less);
                    lemma_group_less_trans(key, bs[pos].0, bs[j - 1].0, glen);
                }
            } else {
                assert(nbs[i] == bs[i - 1]);
                assert(nbs[j] == bs[j - 1]);
            }
        }
    }
}

/// Strict transitivity of the ascending key order.
pub proof fn lemma_group_less_trans(a: Seq<FieldV>, b: Seq<FieldV>, c: Seq<FieldV>, glen: int)
    requires
        a.len() == glen,
        b.len() == glen,
        c.len() == glen,
        group_key_cmp(a, b) == Cmp::Less,
        group_key_cmp(b, c) == Cmp::Less,
    ensures
        group_key_cmp(a, c) == Cmp::Less,
{
    let dirs = asc_dirs(glen);
    assert(dirs.len() == glen);
    lemma_keys_cmp_trans(a, b, c, dirs);
    lemma_keys_cmp_antisym(a, b, dirs);
    lemma_keys_cmp_antisym(b, c, dirs);
    lemma_keys_cmp_antisym(a, c, dirs);
    lemma_keys_cmp_antisym(c, a, dirs);
    if keys_cmp(a, c, dirs) == Cmp::Equal {
        crate::transform::lemma_keys_cmp_equal_eq(a, c, dirs);
        lemma_keys_cmp_antisym(b, a, dirs);
    }
}

/// `bucket_pos` lands on a prefix of strictly smaller keys.
pub proof fn lemma_bucket_pos_is_char(bs: Seq<BucketV>, key: Seq<FieldV>)
    ensures
        0 <= bucket_pos(bs, key) <= bs.len(),
        forall|x: int|
            0 <= x < bucket_pos(bs, key) ==> group_key_cmp((#[trigger] bs[x]).0, key) == Cmp::Less,
        bucket_pos(bs, key) < bs.len() ==> group_key_cmp(bs[bucket_pos(bs, key)].0, key)
            != Cmp::Less,
    decreases bs.len(),
{
    if bs.len() > 0 {
        lemma_bucket_pos_is_char(bs.drop_first(), key);
        if group_key_cmp(bs[0].0, key) == Cmp::Less {
            assert forall|x: int|
                0 <= x < bucket_pos(bs, key) implies group_key_cmp((#[trigger] bs[x]).0, key)
                == Cmp::Less by {
                if x > 0 {
                    assert(bs.drop_first()[x - 1] == bs[x]);
                }
            }
            if bucket_pos(bs, key) < bs.len() {
                assert(bs.drop_first()[bucket_pos(bs, key) - 1] == bs[bucket_pos(bs, key)]);
            }
        }
    }
}

/// A whole fold keeps the bucket list well-formed and sorted.
pub proof fn lemma_agg_fold_wf(
    rows: Seq<(RecordId, RowV)>,
    group_by: Seq<Expression>,
    aggs: Seq<Aggregate>,
)
    requires
        agg_fold(rows, group_by, aggs) is Ok,
    ensures
        (match agg_fold(rows, group_by, aggs) {
            Ok(bs) => buckets_wf(bs, group_by.len() as int, aggs.len() as int),
            Err(_) => true,
        }),
    decreases rows.len(),
{
    if rows.len() > 0 {
        lemma_agg_fold_wf(rows.drop_last(), group_by, aggs);
        let bs = match agg_fold(rows.drop_last(), group_by, aggs) {
            Ok(b) => b,
            Err(_) => Seq::empty(),
        };
        let key = match eval_all(group_by, rows.last().1) {
            Ok(k) => k,
            Err(_) => Seq::empty(),
        };
        lemma_eval_all_len(group_by, rows.last().1);
        lemma_agg_step_wf(bs, key, rows.last().1, aggs, group_by.len() as int);
    }
}

/// Aggregate output rows are sorted strictly ascending by their group key
/// tuple, which forms the first `group_by.len()` columns of each row.
pub proof fn lemma_aggregate_sorted(
    rows: Seq<(RecordId, RowV)>,
    group_by: Seq<Expression>,
    aggs: Seq<Aggregate>,
)
    requires
        agg_rows(rows, group_by, aggs) is Ok,
        group_by.len() > 0,
    ensures
        (match agg_rows(rows, group_by, aggs) {
            Ok(out) => forall|i: int, j: int|
                0 <= i < j < out.len() ==> group_key_cmp(
                    (#[trigger] out[i]).1.take(group_by.len() as int),
                    (#[trigger] out[j]).1.take(group_by.len() as int),
                ) == Cmp::Less,
            Err(_) => true,
        }),
{
    let bs = match agg_fold(rows, group_by, aggs) {
        Ok(b) => b,
        Err(_) => Seq::empty(),
    };
    lemma_agg_fold_wf(rows, group_by, aggs);
    let out = match agg_rows(rows, group_by, aggs) {
        Ok(o) => o,
        Err(_) => Seq::empty(),
    };
    lemma_buckets_out_shape(bs);
    assert forall|i: int, j: int| 0 <= i < j < out.len() implies group_key_cmp(
        (#[trigger] out[i]).1.take(group_by.len() as int),
        (#[trigger] out[j]).1.take(group_by.len() as int),
    ) == Cmp::Less by {
        assert(out[i].1.take(group_by.len() as int) =~= bs[i].0);
        assert(out[j].1.take(group_by.len() as int) =~= bs[j].0);
    }
}

/// Each output row of a bucket list is its bucket's key followed by the
/// aggregate values.
pub proof fn lemma_buckets_out_shape(bs: Seq<BucketV>)
    requires
        buckets_out(bs) is Ok,
    ensures
        (match buckets_out(bs) {
            Ok(out) => out.len() == bs.len() && forall|i: int|
                0 <= i < bs.len() ==> (#[trigger] out[i]).1.len() >= bs[i].0.len() && out[i].1.take(
                    bs[i].0.len() as int,
                ) =~= bs[i].0,
            Err(_) => true,
        }),
    decreases bs.len(),
{
    if bs.len() > 0 {
        lemma_buckets_out_shape(bs.drop_last());
        let out = match buckets_out(bs) {
            Ok(o) => o,
            Err(_) => Seq::empty(),
        };
        let front = match buckets_out(bs.drop_last()) {
            Ok(o) => o,
            Err(_) => Seq::empty(),
        };
        assert forall|i: int| 0 <= i < bs.len() implies (#[trigger] out[i]).1.len()
            >= bs[i].0.len() && out[i].1.take(bs[i].0.len() as int) =~= bs[i].0 by {
            if i < bs.len() - 1 {
                assert(out[i] == front[i]);
                assert(bs.drop_last()[i] == bs[i]);
            } else {
                let vals = match accs_values(bs.last().1) {
                    Ok(v) => v,
                    Err(_) => Seq::empty(),
                };
                assert(out[i].1 == bs[i].0 + vals);
                assert((bs[i].0 + vals).take(bs[i].0.len() as int) =~= bs[i].0);
            }
        }
    }
}


/// The evaluation of one row's group key followed by its fold into the
/// buckets.
pub open spec fn aggregator_step(
    bs: Seq<BucketV>,
    group_by: Seq<Expression>,
    aggs: Seq<Aggregate>,
    row: RowV,
) -> Result<Seq<BucketV>, Error> {
    match eval_all(group_by, row) {
        Err(e) => Err(e),
        Ok(key) => agg_step(bs, key, row, aggs),
    }
}

/// The rows a finished aggregator emits: the buckets in key order, or the
/// single empty-accumulator row when nothing was grouped or seen.
pub open spec fn into_rows_spec(
    bs: Seq<BucketV>,
    group_by: Seq<Expression>,
    aggs: Seq<Aggregate>,
) -> Result<Seq<(RecordId, RowV)>, Error> {
    if bs.len() == 0 && group_by.len() == 0 {
        match accs_values(init_accs(aggs)) {
            Err(e) => Err(e),
            Ok(vals) => Ok(seq![(spec_invalid_rid(), vals)]),
        }
    } else {
        buckets_out(bs)
    }
}

proof fn lemma_accs_update_prefix_err(accs: Seq<AccumV>, exprs: Seq<Expression>, row: RowV, a: int, e: Error)
    requires
        accs.len() == exprs.len(),
        0 <= a < accs.len(),
        accs_update(accs.take(a), exprs.take(a), row) is Ok,
        ({
            let step = match crate::expr::eval(exprs[a], Some(row)) {
                Err(e2) => Err(e2),
                Ok(v) => acc_add(accs[a], v),
            };
            step == Err::<AccumV, Error>(e)
        }),
    ensures
        accs_update(accs, exprs, row) == Err::<Seq<AccumV>, Error>(e),
    decreases accs.len() - a,
{
    if a == accs.len() - 1 {
        assert(accs.take(a) =~= accs.drop_last());
        assert(exprs.take(a) =~= exprs.drop_last());
    } else {
        assert(accs.drop_last().take(a) =~= accs.take(a));
        assert(exprs.drop_last().take(a) =~= exprs.take(a));
        assert(accs.drop_last()[a] == accs[a]);
        assert(exprs.drop_last()[a] == exprs[a]);
        lemma_accs_update_prefix_err(accs.drop_last(), exprs.drop_last(), row, a, e);
    }
}

proof fn lemma_accs_values_prefix_err(accs: Seq<AccumV>, a: int, e: Error)
    requires
        0 <= a < accs.len(),
        accs_values(accs.take(a)) is Ok,
        acc_value(accs[a]) == Err::<FieldV, Error>(e),
    ensures
        accs_values(accs) == Err::<Seq<FieldV>, Error>(e),
    decreases accs.len() - a,
{
    if a == accs.len() - 1 {
        assert(accs.take(a) =~= accs.drop_last());
    } else {
        assert(accs.drop_last().take(a) =~= accs.take(a));
        assert(accs.drop_last()[a] == accs[a]);
        lemma_accs_values_prefix_err(accs.drop_last(), a, e);
    }
}

proof fn lemma_buckets_out_prefix_err(bs: Seq<BucketV>, b: int, e: Error)
    requires
        0 <= b < bs.len(),
        buckets_out(bs.take(b)) is Ok,
        accs_values(bs[b].1) == Err::<Seq<FieldV>, Error>(e),
    ensures
        buckets_out(bs) == Err::<Seq<(RecordId, RowV)>, Error>(e),
    decreases bs.len() - b,
{
    if b == bs.len() - 1 {
        assert(bs.take(b) =~= bs.drop_last());
    } else {
        assert(bs.drop_last().take(b) =~= bs.take(b));
        assert(bs.drop_last()[b] == bs[b]);
        lemma_buckets_out_prefix_err(bs.drop_last(), b, e);
    }
}

proof fn lemma_agg_fold_prefix_err(
    rows: Seq<(RecordId, RowV)>,
    group_by: Seq<Expression>,
    aggs: Seq<Aggregate>,
    i: int,
    e: Error,
)
    requires
        0 <= i < rows.len(),
        agg_fold(rows.take(i), group_by, aggs) is Ok,
        ({
            let bs = match agg_fold(rows.take(i), group_by, aggs) {
                Ok(b) => b,
                Err(_) => Seq::empty(),
            };
            aggregator_step(bs, group_by, aggs, rows[i].1) == Err::<Seq<BucketV>, Error>(e)
        }),
    ensures
        agg_fold(rows, group_by, aggs) == Err::<Seq<BucketV>, Error>(e),
    decreases rows.len() - i,
{
    if i == rows.len() - 1 {
        assert(rows.take(i) =~= rows.drop_last());
    } else {
        assert(rows.drop_last().take(i) =~= rows.take(i));
        assert(rows.drop_last()[i] == rows[i]);
        lemma_agg_fold_prefix_err(rows.drop_last(), group_by, aggs, i, e);
    }
}

/// Compares two group-key tuples in the ascending lexicographic order.
fn compare_group_keys(a: &Vec<Field>, b: &Vec<Field>) -> (r: Cmp)
    ensures
        r == group_key_cmp(a.deep_view(), b.deep_view()),
{
    let alen = a.len();
    let blen = b.len();
    let ghost dirs = asc_dirs(a.deep_view().len() as int);
    let mut i: usize = 0;
    proof {
        assert(a.deep_view().skip(0) =~= a.deep_view());
        assert(b.deep_view().skip(0) =~= b.deep_view());
        assert(dirs.skip(0) =~= dirs);
    }
    while i < alen && i < blen
        invariant
            i <= alen,
            i <= blen,
            alen == a@.len(),
            blen == b@.len(),
            dirs == asc_dirs(a.deep_view().len() as int),
            group_key_cmp(a.deep_view(), b.deep_view()) == keys_cmp(
                a.deep_view().skip(i as int),
                b.deep_view().skip(i as int),
                dirs.skip(i as int),
            ),
        decreases alen - i,
    {
        let c = a[i].compare(&b[i]);
        proof {
            assert(a.deep_view().skip(i as int)[0] == a.deep_view()[i as int]);
            assert(b.deep_view().skip(i as int)[0] == b.deep_view()[i as int]);
            assert(dirs.skip(i as int)[0] == dirs[i as int]);
            assert(a.deep_view()[i as int] == a@[i as int]@);
            assert(b.deep_view()[i as int] == b@[i as int]@);
        }
        if !matches!(c, Cmp::Equal) {
            return c;
        }
        proof {
            assert(a.deep_view().skip(i as int).drop_first() =~= a.deep_view().skip(i + 1));
            assert(b.deep_view().skip(i as int).drop_first() =~= b.deep_view().skip(i + 1));
            assert(dirs.skip(i as int).drop_first() =~= dirs.skip(i + 1));
        }
        i = i + 1;
    }
    proof {
        assert(a.deep_view().skip(i as int).len() == alen - i);
        assert(b.deep_view().skip(i as int).len() == blen - i);
    }
    Cmp::Equal
}

/// Computes bucketed aggregates for rows: buckets are kept sorted by their
/// group-key tuple, so output comes in ascending key order.
#[derive(Debug)]
pub struct Aggregator {
    /// The buckets, sorted strictly ascending by group key.
    pub buckets: Vec<(Vec<Field>, Vec<Accumulator>)>,
    /// Group-by expressions; their values form the bucket key.
    pub group_by: Vec<Expression>,
    /// The aggregates being computed.
    pub aggregates: Vec<Aggregate>,
}

impl Aggregator {
    pub open spec fn buckets_v(self) -> Seq<BucketV> {
        self.buckets@.map_values(
            |b: (Vec<Field>, Vec<Accumulator>)| (b.0.deep_view(), b.1.deep_view()),
        )
    }

    pub open spec fn wf(self) -> bool {
        buckets_wf(self.buckets_v(), self.group_by@.len() as int, self.aggregates@.len() as int)
    }

    /// A fresh aggregator for the given grouping and aggregates.
    pub fn new(group_by: Vec<Expression>, aggregates: Vec<Aggregate>) -> (r: Aggregator)
        ensures
            r.wf(),
            r.buckets_v() =~= Seq::<BucketV>::empty(),
            r.group_by == group_by,
            r.aggregates == aggregates,
    {
        Aggregator { buckets: Vec::new(), group_by, aggregates }
    }

    /// Adds one row: its group key finds or creates the bucket, and each
    /// aggregate folds its expression value in. On an error the aggregate
    /// is abandoned.
    pub fn add(&mut self, row: Row) -> (r: Result<(), Error>)
        requires
            old(self).wf(),
        ensures
            final(self).wf(),
            final(self).group_by == old(self).group_by,
            final(self).aggregates == old(self).aggregates,
            r matches Ok(u) ==> aggregator_step(
                old(self).buckets_v(),
                old(self).group_by@,
                old(self).aggregates@,
                row@,
            ) == Ok::<Seq<BucketV>, Error>(final(self).buckets_v()),
            r matches Err(e) ==> aggregator_step(
                old(self).buckets_v(),
                old(self).group_by@,
                old(self).aggregates@,
                row@,
            ) == Err::<Seq<BucketV>, Error>(e),
    {
        let ghost bsv = self.buckets_v();
        let ghost glen = self.group_by@.len() as int;
        let ghost alen = self.aggregates@.len() as int;
        let key = match evaluate_all(&self.group_by, &row) {
            Ok(k) => k,
            Err(e) => {
                return Err(e);
            },
        };
        let n = self.buckets.len();
        let mut pos: usize = 0;
        while pos < n && matches!(compare_group_keys(&self.buckets[pos].0, &key), Cmp::Less)
            invariant
                pos <= n,
                n == self.buckets@.len(),
                *self == *old(self),
                forall|x: int|
                    0 <= x < pos ==> group_key_cmp(
                        (#[trigger] self.buckets_v()[x]).0,
                        key.deep_view(),
                    ) == Cmp::Less,
            decreases n - pos,
        {
            pos = pos + 1;
        }
        proof {
            lemma_bucket_pos_char(self.buckets_v(), key.deep_view(), pos as int);
        }
        let found = pos < n && matches!(compare_group_keys(&self.buckets[pos].0, &key), Cmp::Equal);
        let na = self.aggregates.len();
        if found {
            let (bkey, mut accs) = self.buckets.remove(pos);
            let ghost accs0 = accs.deep_view();
            proof {
                assert(accs0 == bsv[pos as int].1);
                assert(self.buckets_v() =~= bsv.remove(pos as int));
            }
            let mut a: usize = 0;
            proof {
                assert(accs0.take(0) =~= Seq::<AccumV>::empty());
                assert(agg_exprs(old(self).aggregates@).take(0) =~= Seq::<Expression>::empty());
                assert(accs.deep_view().take(0) =~= Seq::<AccumV>::empty());
            }
            while a < na
                invariant
                    a <= na,
                    na == self.aggregates@.len(),
                    self.aggregates == old(self).aggregates,
                    self.group_by == old(self).group_by,
                    bsv == old(self).buckets_v(),
                    buckets_wf(bsv, old(self).group_by@.len() as int, na as int),
                    self.buckets_v() =~= bsv.remove(pos as int),
                    0 <= pos < bsv.len(),
                    bucket_pos(bsv, key.deep_view()) == pos as int,
                    group_key_cmp(bsv[pos as int].0, key.deep_view()) == Cmp::Equal,
                    eval_all(old(self).group_by@, row@) == Ok::<Seq<FieldV>, Error>(
                        key.deep_view(),
                    ),
                    accs0 == bsv[pos as int].1,
                    accs@.len() == accs0.len(),
                    accs0.len() == na,
                    forall|x: int| a <= x < na ==> (#[trigger] accs@[x])@ == accs0[x],
                    accs_update(
                        accs0.take(a as int),
                        agg_exprs(old(self).aggregates@).take(a as int),
                        row@,
                    ) == Ok::<Seq<AccumV>, Error>(accs.deep_view().take(a as int)),
                decreases na - a,
            {
                let ghost exprs = agg_exprs(old(self).aggregates@);
                let ghost front = accs.deep_view().take(a as int);
                let value = match agg_argument(&self.aggregates[a]).evaluate(Some(&row)) {
                    Ok(v) => v,
                    Err(e) => {
                        proof {
                            assert(exprs[a as int] == agg_expr(old(self).aggregates@[a as int]));
                            lemma_accs_update_prefix_err(accs0, exprs, row@, a as int, e);
                            lemma_buckets_wf_remove(
                                bsv,
                                pos as int,
                                old(self).group_by@.len() as int,
                                na as int,
                            );
                        }
                        return Err(e);
                    },
                };
                let ghost pre_accs = accs@;
                let mut acc = accs.remove(a);
                let ghost acc_pre = acc@;
                proof {
                    assert(acc_pre == accs0[a as int]);
                }
                match acc.add(value) {
                    Ok(u) => {},
                    Err(e) => {
                        proof {
                            assert(exprs[a as int] == agg_expr(old(self).aggregates@[a as int]));
                            lemma_accs_update_prefix_err(accs0, exprs, row@, a as int, e);
                            lemma_buckets_wf_remove(
                                bsv,
                                pos as int,
                                old(self).group_by@.len() as int,
                                na as int,
                            );
                        }
                        return Err(e);
                    },
                }
                accs.insert(a, acc);
                proof {
                    assert(accs@ =~= pre_accs.update(a as int, acc));
                    assert(exprs.take(a + 1).drop_last() =~= exprs.take(a as int));
                    assert(accs0.take(a + 1).drop_last() =~= accs0.take(a as int));
                    assert(exprs.take(a + 1).last() == exprs[a as int]);
                    assert(accs0.take(a + 1).last() == accs0[a as int]);
                    assert(exprs[a as int] == agg_expr(old(self).aggregates@[a as int]));
                    assert forall|x: int| 0 <= x < a implies accs@[x] == pre_accs[x] by {}
                    assert(accs.deep_view().take(a as int) =~= front);
                    assert(accs.deep_view().take(a + 1) =~= front.push(acc@));
                    assert(eval(exprs[a as int], Some(row@)) == Ok::<FieldV, Error>(value@));
                    assert(acc_add(accs0[a as int], value@) == Ok::<AccumV, Error>(acc@));
                    assert(accs_update(accs0.take(a + 1), exprs.take(a + 1), row@) == Ok::<
                        Seq<AccumV>,
                        Error,
                    >(accs.deep_view().take(a + 1)));
                }
                a = a + 1;
            }
            proof {
                assert(accs0.take(na as int) =~= accs0);
                assert(agg_exprs(old(self).aggregates@).take(na as int) =~= agg_exprs(
                    old(self).aggregates@,
                ));
                assert(accs.deep_view().take(na as int) =~= accs.deep_view());
            }
            self.buckets.insert(pos, (bkey, accs));
            proof {
                assert(self.buckets_v() =~= bsv.update(
                    pos as int,
                    (bsv[pos as int].0, accs.deep_view()),
                ));
                lemma_eval_all_len(old(self).group_by@, row@);
                lemma_agg_step_wf(
                    bsv,
                    key.deep_view(),
                    row@,
                    old(self).aggregates@,
                    old(self).group_by@.len() as int,
                );
            }
            Ok(())
        } else {
            let mut accs: Vec<Accumulator> = Vec::new();
            let ghost inits = init_accs(old(self).aggregates@);
            let mut a: usize = 0;
            proof {
                assert(inits.take(0) =~= Seq::<AccumV>::empty());
                assert(agg_exprs(old(self).aggregates@).take(0) =~= Seq::<Expression>::empty());
                assert(accs.deep_view() =~= Seq::<AccumV>::empty());
                assert(accs.deep_view().take(0) =~= accs.deep_view());
            }
            while a < na
                invariant
                    a <= na,
                    na == self.aggregates@.len(),
                    *self == *old(self),
                    old(self).wf(),
                    bsv == old(self).buckets_v(),
                    inits == init_accs(old(self).aggregates@),
                    inits.len() == na,
                    eval_all(old(self).group_by@, row@) == Ok::<Seq<FieldV>, Error>(
                        key.deep_view(),
                    ),
                    bucket_pos(bsv, key.deep_view()) == pos as int,
                    !(pos < bsv.len() && group_key_cmp(bsv[pos as int].0, key.deep_view())
                        == Cmp::Equal),
                    pos <= bsv.len(),
                    accs@.len() == a,
                    accs_update(
                        inits.take(a as int),
                        agg_exprs(old(self).aggregates@).take(a as int),
                        row@,
                    ) == Ok::<Seq<AccumV>, Error>(accs.deep_view()),
                decreases na - a,
            {
                let ghost exprs = agg_exprs(old(self).aggregates@);
                let value = match agg_argument(&self.aggregates[a]).evaluate(Some(&row)) {
                    Ok(v) => v,
                    Err(e) => {
                        proof {
                            assert(exprs[a as int] == agg_expr(old(self).aggregates@[a as int]));
                            lemma_accs_update_prefix_err(inits, exprs, row@, a as int, e);
                        }
                        return Err(e);
                    },
                };
                let mut acc = Accumulator::new(&self.aggregates[a]);
                proof {
                    assert(inits[a as int] == init_acc(old(self).aggregates@[a as int]));
                }
                match acc.add(value) {
                    Ok(u) => {},
                    Err(e) => {
                        proof {
                            assert(exprs[a as int] == agg_expr(old(self).aggregates@[a as int]));
                            lemma_accs_update_prefix_err(inits, exprs, row@, a as int, e);
                        }
                        return Err(e);
                    },
                }
                let ghost pre_accs = accs.deep_view();
                accs.push(acc);
                proof {
                    assert(exprs.take(a + 1).drop_last() =~= exprs.take(a as int));
                    assert(inits.take(a + 1).drop_last() =~= inits.take(a as int));
                    assert(exprs.take(a + 1).last() == exprs[a as int]);
                    assert(inits.take(a + 1).last() == inits[a as int]);
                    assert(exprs[a as int] == agg_expr(old(self).aggregates@[a as int]));
                    assert(accs.deep_view() =~= pre_accs.push(acc@));
                    assert(accs_update(inits.take(a + 1), exprs.take(a + 1), row@) == Ok::<
                        Seq<AccumV>,
                        Error,
                    >(accs.deep_view()));
                }
                a = a + 1;
            }
            proof {
                assert(inits.take(na as int) =~= inits);
                assert(agg_exprs(old(self).aggregates@).take(na as int) =~= agg_exprs(
                    old(self).aggregates@,
                ));
            }
            self.buckets.insert(pos, (key, accs));
            proof {
                assert(self.buckets_v() =~= bsv.insert(
                    pos as int,
                    (key.deep_view(), accs.deep_view()),
                ));
                lemma_eval_all_len(old(self).group_by@, row@);
                lemma_agg_step_wf(
                    bsv,
                    key.deep_view(),
                    row@,
                    old(self).aggregates@,
                    old(self).group_by@.len() as int,
                );
            }
            Ok(())
        }
    }
}

/// The argument expression of an aggregate, by reference.
pub fn agg_argument(a: &Aggregate) -> (r: &Expression)
    ensures
        *r == agg_expr(*a),
{
    match a {
        Aggregate::Average(e) => e,
        Aggregate::Count(e) => e,
        Aggregate::Max(e) => e,
        Aggregate::Min(e) => e,
        Aggregate::Sum(e) => e,
    }
}


impl Aggregator {
    /// The aggregate result: one output row per bucket, in ascending key
    /// order, each holding the group key then the aggregate values; with
    /// no buckets and no grouping, one row of empty-accumulator values.
    pub fn into_rows(&self) -> (r: Result<Vec<(RecordId, Row)>, Error>)
        requires
            self.wf(),
        ensures
            match r {
                Ok(out) => into_rows_spec(self.buckets_v(), self.group_by@, self.aggregates@)
                    == Ok::<Seq<(RecordId, RowV)>, Error>(rows_v(out@)),
                Err(e) => into_rows_spec(self.buckets_v(), self.group_by@, self.aggregates@)
                    == Err::<Seq<(RecordId, RowV)>, Error>(e),
            },
    {
        let nb = self.buckets.len();
        let na = self.aggregates.len();
        if nb == 0 && self.group_by.len() == 0 {
            let ghost inits = init_accs(self.aggregates@);
            let mut vals: Vec<Field> = Vec::new();
            let mut a: usize = 0;
            proof {
                assert(inits.take(0) =~= Seq::<AccumV>::empty());
                assert(vals.deep_view() =~= Seq::<FieldV>::empty());
            }
            while a < na
                invariant
                    a <= na,
                    na == self.aggregates@.len(),
                    inits == init_accs(self.aggregates@),
                    inits.len() == na,
                    vals@.len() == a,
                    accs_values(inits.take(a as int)) == Ok::<Seq<FieldV>, Error>(
                        vals.deep_view(),
                    ),
                decreases na - a,
            {
                let acc = Accumulator::new(&self.aggregates[a]);
                proof {
                    assert(inits[a as int] == init_acc(self.aggregates@[a as int]));
                }
                match acc.value() {
                    Err(e) => {
                        proof {
                            lemma_accs_values_prefix_err(inits, a as int, e);
                        }
                        return Err(e);
                    },
                    Ok(v) => {
                        let ghost pre = vals.deep_view();
                        vals.push(v);
                        proof {
                            assert(inits.take(a + 1).drop_last() =~= inits.take(a as int));
                            assert(inits.take(a + 1).last() == inits[a as int]);
                            assert(vals.deep_view() =~= pre.push(vals@[vals@.len() - 1]@));
                        }
                    },
                }
                a = a + 1;
            }
            proof {
                assert(inits.take(na as int) =~= inits);
            }
            let mut out: Vec<(RecordId, Row)> = Vec::new();
            out.push((RecordId::invalid(), Row::new(vals)));
            proof {
                assert(rows_v(out@) =~= seq![(spec_invalid_rid(), out@[0].1@)]);
            }
            return Ok(out);
        }
        let mut out: Vec<(RecordId, Row)> = Vec::new();
        let mut b: usize = 0;
        proof {
            assert(self.buckets_v().take(0) =~= Seq::<BucketV>::empty());
            assert(rows_v(out@) =~= Seq::empty());
        }
        while b < nb
            invariant
                b <= nb,
                nb == self.buckets@.len(),
                na == self.aggregates@.len(),
                self.wf(),
                buckets_out(self.buckets_v().take(b as int)) == Ok::<Seq<(RecordId, RowV)>, Error>(
                    rows_v(out@),
                ),
            decreases nb - b,
        {
            let ghost bsv = self.buckets_v();
            let ghost accsv = bsv[b as int].1;
            let bn = self.buckets[b].1.len();
            let mut vals: Vec<Field> = Vec::new();
            let mut a: usize = 0;
            proof {
                assert(accsv.take(0) =~= Seq::<AccumV>::empty());
                assert(vals.deep_view() =~= Seq::<FieldV>::empty());
            }
            while a < bn
                invariant
                    a <= bn,
                    b < nb,
                    nb == self.buckets@.len(),
                    bn == self.buckets@[b as int].1@.len(),
                    accsv == self.buckets_v()[b as int].1,
                    accsv.len() == bn,
                    bsv == self.buckets_v(),
                    self.wf(),
                    buckets_out(self.buckets_v().take(b as int)) == Ok::<
                        Seq<(RecordId, RowV)>,
                        Error,
                    >(rows_v(out@)),
                    vals@.len() == a,
                    accs_values(accsv.take(a as int)) == Ok::<Seq<FieldV>, Error>(
                        vals.deep_view(),
                    ),
                decreases bn - a,
            {
                proof {
                    assert(accsv[a as int] == self.buckets@[b as int].1@[a as int]@);
                }
                match self.buckets[b].1[a].value() {
                    Err(e) => {
                        proof {
                            lemma_accs_values_prefix_err(accsv, a as int, e);
                            lemma_buckets_out_prefix_err(bsv, b as int, e);
                        }
                        return Err(e);
                    },
                    Ok(v) => {
                        let ghost pre = vals.deep_view();
                        vals.push(v);
                        proof {
                            assert(accsv.take(a + 1).drop_last() =~= accsv.take(a as int));
                            assert(accsv.take(a + 1).last() == accsv[a as int]);
                            assert(vals.deep_view() =~= pre.push(vals@[vals@.len() - 1]@));
                        }
                    },
                }
                a = a + 1;
            }
            proof {
                assert(accsv.take(bn as int) =~= accsv);
            }
            // the output row: the group key, then the aggregate values
            let mut fields: Vec<Field> = Vec::new();
            let kn = self.buckets[b].0.len();
            let mut k: usize = 0;
            while k < kn
                invariant
                    k <= kn,
                    b < nb,
                    nb == self.buckets@.len(),
                    kn == self.buckets@[b as int].0@.len(),
                    fields.deep_view() =~= self.buckets_v()[b as int].0.take(k as int),
                decreases kn - k,
            {
                let ghost pre = fields.deep_view();
                fields.push(self.buckets[b].0[k].clone());
                proof {
                    assert(fields.deep_view() =~= pre.push(
                        self.buckets@[b as int].0@[k as int]@,
                    ));
                    assert(fields.deep_view() =~= self.buckets_v()[b as int].0.take(k + 1));
                }
                k = k + 1;
            }
            let vn = vals.len();
            let mut v2: usize = 0;
            proof {
                assert(self.buckets_v()[b as int].0.take(kn as int) =~= self.buckets_v()[
                    b as int].0);
            }
            while v2 < vn
                invariant
                    v2 <= vn,
                    b < nb,
                    nb == self.buckets@.len(),
                    vn == vals@.len(),
                    fields.deep_view() =~= self.buckets_v()[b as int].0 + vals.deep_view().take(
                        v2 as int,
                    ),
                decreases vn - v2,
            {
                let ghost pre = fields.deep_view();
                fields.push(vals[v2].clone());
                proof {
                    assert(fields.deep_view() =~= pre.push(vals@[v2 as int]@));
                    assert(vals.deep_view().take(v2 + 1) =~= vals.deep_view().take(
                        v2 as int,
                    ).push(vals@[v2 as int]@));
                }
                v2 = v2 + 1;
            }
            proof {
                assert(vals.deep_view().take(vn as int) =~= vals.deep_view());
            }
            let ghost pre_out = rows_v(out@);
            out.push((RecordId::invalid(), Row::new(fields)));
            proof {
                assert(bsv.take(b + 1).drop_last() =~= bsv.take(b as int));
                assert(bsv.take(b + 1).last() == bsv[b as int]);
                assert(rows_v(out@) =~= pre_out.push(
                    (spec_invalid_rid(), bsv[b as int].0 + vals.deep_view()),
                ));
            }
            b = b + 1;
        }
        proof {
            assert(self.buckets_v().take(nb as int) =~= self.buckets_v());
            if nb == 0 {
                assert(self.group_by@.len() != 0);
            }
        }
        Ok(out)
    }
}

/// Aggregates row values from the source according to the aggregates,
/// bucketed by the group-by expressions; output rows hold the bucket key
/// then the aggregate values, in ascending bucket-key order.
pub fn aggregate(
    source: Vec<(RecordId, Row)>,
    group_by: Vec<Expression>,
    aggregates: Vec<Aggregate>,
) -> (r: Result<Vec<(RecordId, Row)>, Error>)
    ensures
        match r {
            Ok(out) => agg_rows(rows_v(source@), group_by@, aggregates@) == Ok::<
                Seq<(RecordId, RowV)>,
                Error,
            >(rows_v(out@)),
            Err(e) => agg_rows(rows_v(source@), group_by@, aggregates@) == Err::<
                Seq<(RecordId, RowV)>,
                Error,
            >(e),
        },
{
    let ghost gb = group_by@;
    let ghost ags = aggregates@;
    let mut aggregator = Aggregator::new(group_by, aggregates);
    let n = source.len();
    let mut i: usize = 0;
    proof {
        assert(rows_v(source@).take(0) =~= Seq::empty());
        assert(agg_fold(rows_v(source@).take(0), gb, ags) == Ok::<Seq<BucketV>, Error>(
            aggregator.buckets_v(),
        ));
    }
    while i < n
        invariant
            i <= n,
            n == source@.len(),
            aggregator.wf(),
            gb == group_by@,
            ags == aggregates@,
            aggregator.group_by@ == gb,
            aggregator.aggregates@ == ags,
            agg_fold(rows_v(source@).take(i as int), gb, ags) == Ok::<Seq<BucketV>, Error>(
                aggregator.buckets_v(),
            ),
        decreases n - i,
    {
        let ghost s = rows_v(source@);
        let ghost pre = aggregator.buckets_v();
        match aggregator.add(source[i].1.clone()) {
            Ok(u) => {},
            Err(e) => {
                proof {
                    assert(aggregator_step(pre, gb, ags, s[i as int].1) == Err::<
                        Seq<BucketV>,
                        Error,
                    >(e));
                    lemma_agg_fold_prefix_err(s, gb, ags, i as int, e);
                }
                return Err(e);
            },
        }
        proof {
            assert(s.take(i + 1).drop_last() =~= s.take(i as int));
            assert(s.take(i + 1).last() == s[i as int]);
            assert(s[i as int].1 == source@[i as int].1@);
        }
        i = i + 1;
    }
    proof {
        assert(rows_v(source@).take(n as int) =~= rows_v(source@));
    }
    aggregator.into_rows()
}

} // verus!
