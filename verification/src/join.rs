use vstd::prelude::*;
use crate::error::Error;
use crate::expr::{Expression, eval};
use crate::field::{Field, FieldV};
use crate::row::{RecordId, Row, RowV, spec_invalid_rid};
use crate::transform::rows_v;

verus! {

/// A row of `n` nulls, padding the right side of an outer join.
pub open spec fn nulls(n: int) -> RowV {
    Seq::new(n as nat, |i: int| FieldV::Null)
}

/// The combined rows one left row produces against the right source: for
/// each right row in order, the concatenation, kept when the predicate
/// evaluates to `true` (or there is none). The first evaluation error
/// wins.
pub open spec fn nl_row(lrow: RowV, right: Seq<(RecordId, RowV)>, pred: Option<Expression>) -> Result<
    Seq<RowV>,
    Error,
>
    decreases right.len(),
{
    if right.len() == 0 {
        Ok(Seq::empty())
    } else {
        match nl_row(lrow, right.drop_last(), pred) {
            Err(e) => Err(e),
            Ok(front) => {
                let combined = lrow + right.last().1;
                match pred {
                    Option::None => Ok(front.push(combined)),
                    Option::Some(p) => match eval(p, Some(combined)) {
                        Err(e) => Err(e),
                        Ok(v) => if v == FieldV::Boolean(true) {
                            Ok(front.push(combined))
                        } else {
                            Ok(front)
                        },
                    },
                }
            },
        }
    }
}

/// What a nested-loop join returns: for each left row all matching
/// combined rows under its record id; with `outer`, a left row without
/// matches is padded with nulls.
pub open spec fn nl_join(
    left: Seq<(RecordId, RowV)>,
    right: Seq<(RecordId, RowV)>,
    right_size: int,
    pred: Option<Expression>,
    outer: bool,
) -> Result<Seq<(RecordId, RowV)>, Error>
    decreases left.len(),
{
    if left.len() == 0 {
        Ok(Seq::empty())
    } else {
        match nl_join(left.drop_last(), right, right_size, pred, outer) {
            Err(e) => Err(e),
            Ok(front) => match nl_row(left.last().1, right, pred) {
                Err(e) => Err(e),
                Ok(ms) => if ms.len() > 0 {
                    Ok(front + ms.map_values(|m: RowV| (left.last().0, m)))
                } else if outer {
                    Ok(front.push((left.last().0, left.last().1 + nulls(right_size))))
                } else {
                    Ok(front)
                },
            },
        }
    }
}

/// The concatenation of two rows.
fn concat_rows(a: &Row, b: &Row) -> (r: Row)
    ensures
        r@ == a@ + b@,
{
    let mut fields: Vec<Field> = Vec::new();
    let alen = a.fields.len();
    let blen = b.fields.len();
    let mut i: usize = 0;
    while i < alen
        invariant
            i <= alen,
            alen == a.fields@.len(),
            fields.deep_view() =~= a@.take(i as int),
        decreases alen - i,
    {
        let ghost pre = fields.deep_view();
        fields.push(a.fields[i].clone());
        proof {
            assert(fields.deep_view() =~= pre.push(a@[i as int]));
            assert(fields.deep_view() =~= a@.take(i + 1));
        }
        i = i + 1;
    }
    let mut j: usize = 0;
    proof {
        assert(a@.take(alen as int) =~= a@);
    }
    while j < blen
        invariant
            j <= blen,
            blen == b.fields@.len(),
            fields.deep_view() =~= a@ + b@.take(j as int),
        decreases blen - j,
    {
        let ghost pre = fields.deep_view();
        fields.push(b.fields[j].clone());
        proof {
            assert(fields.deep_view() =~= pre.push(b@[j as int]));
            assert(fields.deep_view() =~= a@ + b@.take(j + 1));
        }
        j = j + 1;
    }
    proof {
        assert(b@.take(blen as int) =~= b@);
    }
    Row { fields }
}

/// A row of `n` null fields.
fn null_row(n: usize) -> (r: Row)
    ensures
        r@ == nulls(n as int),
{
    let mut fields: Vec<Field> = Vec::new();
    let mut i: usize = 0;
    while i < n
        invariant
            i <= n,
            fields@.len() == i,
            forall|x: int| 0 <= x < i ==> (#[trigger] fields@[x])@ == FieldV::Null,
        decreases n - i,
    {
        fields.push(Field::Null);
        i = i + 1;
    }
    proof {
        assert(fields.deep_view() =~= nulls(n as int));
    }
    Row { fields }
}

/// A nested-loop join: iterates the whole right source for every left row,
/// keeping the combined rows that satisfy the predicate; with `outer`, a
/// left row with no match yields one null-padded row.
pub fn nested_loop(
    left: Vec<(RecordId, Row)>,
    right: Vec<(RecordId, Row)>,
    right_size: usize,
    predicate: &Option<Expression>,
    outer: bool,
) -> (r: Result<Vec<(RecordId, Row)>, Error>)
    ensures
        match r {
            Ok(out) => nl_join(rows_v(left@), rows_v(right@), right_size as int, *predicate, outer)
                == Ok::<_, Error>(rows_v(out@)),
            Err(e) => nl_join(rows_v(left@), rows_v(right@), right_size as int, *predicate, outer)
                == Err::<Seq<(RecordId, RowV)>, _>(e),
        },
{
    let ln = left.len();
    let rn = right.len();
    let mut out: Vec<(RecordId, Row)> = Vec::new();
    let mut i: usize = 0;
    proof {
        assert(rows_v(left@).take(0) =~= Seq::empty());
        assert(rows_v(out@) =~= Seq::empty());
    }
    while i < ln
        invariant
            i <= ln,
            ln == left@.len(),
            rn == right@.len(),
            nl_join(rows_v(left@).take(i as int), rows_v(right@), right_size as int, *predicate, outer)
                == Ok::<_, Error>(rows_v(out@)),
        decreases ln - i,
    {
        let ghost lv = rows_v(left@);
        let ghost rv = rows_v(right@);
        let lrid = left[i].0;
        let mut matched: Vec<Row> = Vec::new();
        let mut j: usize = 0;
        proof {
            assert(rv.take(0) =~= Seq::empty());
            assert(matched.deep_view() =~= Seq::<RowV>::empty());
        }
        while j < rn
            invariant
                j <= rn,
                i < ln,
                ln == left@.len(),
                rn == right@.len(),
                lv == rows_v(left@),
                rv == rows_v(right@),
                lrid == left@[i as int].0,
                nl_join(lv.take(i as int), rv, right_size as int, *predicate, outer) == Ok::<
                    _,
                    Error,
                >(rows_v(out@)),
                nl_row(left@[i as int].1@, rows_v(right@).take(j as int), *predicate) == Ok::<
                    _,
                    Error,
                >(matched.deep_view()),
            decreases rn - j,
        {
            let combined = concat_rows(&left[i].1, &right[j].1);
            let keep: bool;
            match predicate {
                Option::None => {
                    keep = true;
                },
                Option::Some(p) => {
                    match p.evaluate(Some(&combined)) {
                        Err(e) => {
                            proof {
                                lemma_nl_row_prefix_err(
                                    left@[i as int].1@,
                                    rv,
                                    *predicate,
                                    j as int,
                                    e,
                                );
                                lemma_nl_join_prefix_err(
                                    lv,
                                    rv,
                                    right_size as int,
                                    *predicate,
                                    outer,
                                    i as int,
                                    e,
                                );
                            }
                            return Err(e);
                        },
                        Ok(v) => {
                            keep = match v {
                                Field::Boolean(b) => b,
                                _ => false,
                            };
                        },
                    }
                },
            }
            let ghost pre = matched.deep_view();
            if keep {
                matched.push(combined);
            }
            proof {
                assert(rv.take(j + 1).drop_last() =~= rv.take(j as int));
                assert(rv.take(j + 1).last() == rv[j as int]);
                assert(rv[j as int].1 == right@[j as int].1@);
                if keep {
                    assert(matched.deep_view() =~= pre.push(
                        left@[i as int].1@ + right@[j as int].1@,
                    ));
                }
            }
            j = j + 1;
        }
        proof {
            assert(rv.take(rn as int) =~= rv);
        }
        let ghost pre_out = rows_v(out@);
        let mcount = matched.len();
        if mcount > 0 {
            let mut m: usize = 0;
            proof {
                assert(matched.deep_view().take(0).map_values(
                    |mm: RowV| (left@[i as int].0, mm),
                ) =~= Seq::<(RecordId, RowV)>::empty());
                assert(rows_v(out@) =~= pre_out + matched.deep_view().take(0).map_values(
                    |mm: RowV| (left@[i as int].0, mm),
                ));
            }
            while m < mcount
                invariant
                    m <= mcount,
                    i < ln,
                    ln == left@.len(),
                    lrid == left@[i as int].0,
                    mcount == matched@.len(),
                    rows_v(out@) =~= pre_out + matched.deep_view().take(m as int).map_values(
                        |mm: RowV| (left@[i as int].0, mm),
                    ),
                decreases mcount - m,
            {
                let ghost pp = rows_v(out@);
                out.push((lrid, matched[m].clone()));
                proof {
                    assert(rows_v(out@) =~= pp.push((left@[i as int].0, matched@[m as int]@)));
                    assert(matched.deep_view().take(m + 1) =~= matched.deep_view().take(
                        m as int,
                    ).push(matched@[m as int]@));
                    assert(matched.deep_view().take(m + 1).map_values(
                        |mm: RowV| (left@[i as int].0, mm),
                    ) =~= matched.deep_view().take(m as int).map_values(
                        |mm: RowV| (left@[i as int].0, mm),
                    ).push((left@[i as int].0, matched@[m as int]@)));
                    assert(rows_v(out@) =~= pre_out + matched.deep_view().take(m + 1).map_values(
                        |mm: RowV| (left@[i as int].0, mm),
                    ));
                }
                m = m + 1;
            }
            proof {
                assert(matched.deep_view().take(mcount as int) =~= matched.deep_view());
            }
        } else if outer {
            let pad = null_row(right_size);
            let combined = concat_rows(&left[i].1, &pad);
            out.push((lrid, combined));
            proof {
                assert(rows_v(out@) =~= pre_out.push(
                    (left@[i as int].0, left@[i as int].1@ + nulls(right_size as int)),
                ));
            }
        }
        proof {
            assert(lv.take(i + 1).drop_last() =~= lv.take(i as int));
            assert(lv.take(i + 1).last() == lv[i as int]);
            assert(lv[i as int].1 == left@[i as int].1@);
            assert(lv[i as int].0 == left@[i as int].0);
        }
        i = i + 1;
    }
    proof {
        assert(rows_v(left@).take(ln as int) =~= rows_v(left@));
    }
    Ok(out)
}

proof fn lemma_nl_row_prefix_err(
    lrow: RowV,
    right: Seq<(RecordId, RowV)>,
    pred: Option<Expression>,
    j: int,
    e: Error,
)
    requires
        0 <= j < right.len(),
        nl_row(lrow, right.take(j), pred) is Ok,
        pred matches Some(p) && eval(p, Some(lrow + right[j].1)) == Err::<FieldV, Error>(e),
    ensures
        nl_row(lrow, right, pred) == Err::<Seq<RowV>, Error>(e),
    decreases right.len() - j,
{
    if j == right.len() - 1 {
        assert(right.take(j) =~= right.drop_last());
    } else {
        assert(right.drop_last().take(j) =~= right.take(j));
        assert(right.drop_last()[j] == right[j]);
        lemma_nl_row_prefix_err(lrow, right.drop_last(), pred, j, e);
    }
}

proof fn lemma_nl_join_prefix_err(
    left: Seq<(RecordId, RowV)>,
    right: Seq<(RecordId, RowV)>,
    right_size: int,
    pred: Option<Expression>,
    outer: bool,
    i: int,
    e: Error,
)
    requires
        0 <= i < left.len(),
        nl_join(left.take(i), right, right_size, pred, outer) is Ok,
        nl_row(left[i].1, right, pred) == Err::<Seq<RowV>, Error>(e),
    ensures
        nl_join(left, right, right_size, pred, outer) == Err::<Seq<(RecordId, RowV)>, Error>(e),
    decreases left.len() - i,
{
    if i == left.len() - 1 {
        assert(left.take(i) =~= left.drop_last());
    } else {
        assert(left.drop_last().take(i) =~= left.take(i));
        assert(left.drop_last()[i] == left[i]);
        lemma_nl_join_prefix_err(left.drop_last(), right, right_size, pred, outer, i, e);
    }
}

/// Whether every right row has the join column; the first missing column
/// is an error, as the build phase of the join reports it.
pub open spec fn hj_check(right: Seq<(RecordId, RowV)>, col: int) -> Result<(), Error>
    decreases right.len(),
{
    if right.len() == 0 {
        Ok(())
    } else {
        match hj_check(right.drop_last(), col) {
            Err(e) => Err(e),
            Ok(u) => if 0 <= col < right.last().1.len() {
                Ok(())
            } else {
                Err(Error::InvalidInput)
            },
        }
    }
}

/// The right rows whose join key equals `key`, in right order; an
/// undefined key matches nothing.
pub open spec fn hj_matches(right: Seq<(RecordId, RowV)>, col: int, key: FieldV) -> Seq<RowV>
    decreases right.len(),
{
    if right.len() == 0 {
        Seq::empty()
    } else {
        let front = hj_matches(right.drop_last(), col, key);
        let rrow = right.last().1;
        if key != FieldV::Null && 0 <= col < rrow.len() && rrow[col] == key && rrow[col]
            != FieldV::Null {
            front.push(rrow)
        } else {
            front
        }
    }
}

/// What a hash join returns: for each left row, its key's matches from the
/// right side (undefined keys match nothing), combined under the invalid
/// record id; with `outer`, a left row without matches is padded with
/// nulls.
pub open spec fn hj_join(
    left: Seq<(RecordId, RowV)>,
    left_col: int,
    right: Seq<(RecordId, RowV)>,
    right_col: int,
    right_size: int,
    outer: bool,
) -> Result<Seq<(RecordId, RowV)>, Error>
    decreases left.len(),
{
    if left.len() == 0 {
        Ok(Seq::empty())
    } else {
        match hj_join(left.drop_last(), left_col, right, right_col, right_size, outer) {
            Err(e) => Err(e),
            Ok(front) => {
                let lrow = left.last().1;
                if !(0 <= left_col < lrow.len()) {
                    Err(Error::InvalidInput)
                } else {
                    let ms = hj_matches(right, right_col, lrow[left_col]);
                    if ms.len() > 0 {
                        Ok(front + ms.map_values(|m: RowV| (spec_invalid_rid(), lrow + m)))
                    } else if outer {
                        Ok(front.push((spec_invalid_rid(), lrow + nulls(right_size))))
                    } else {
                        Ok(front)
                    }
                }
            },
        }
    }
}

/// A hash join: the right source is materialized and validated first,
/// then each left row is joined with the right rows sharing its key.
/// Null keys never match. The emitted record id is the invalid id.
pub fn hash(
    left: Vec<(RecordId, Row)>,
    left_column: usize,
    right: Vec<(RecordId, Row)>,
    right_column: usize,
    right_size: usize,
    outer: bool,
) -> (r: Result<Vec<(RecordId, Row)>, Error>)
    ensures
        match r {
            Ok(out) => hj_check(rows_v(right@), right_column as int) is Ok && hj_join(
                rows_v(left@),
                left_column as int,
                rows_v(right@),
                right_column as int,
                right_size as int,
                outer,
            ) == Ok::<_, Error>(rows_v(out@)),
            Err(e) => hj_check(rows_v(right@), right_column as int) == Err::<(), Error>(e) || (
            hj_check(rows_v(right@), right_column as int) is Ok && hj_join(
                rows_v(left@),
                left_column as int,
                rows_v(right@),
                right_column as int,
                right_size as int,
                outer,
            ) == Err::<Seq<(RecordId, RowV)>, _>(e)),
        },
{
    let rn = right.len();
    let ln = left.len();
    // build phase: every right row must have the join column
    let mut j: usize = 0;
    proof {
        assert(rows_v(right@).take(0) =~= Seq::empty());
    }
    while j < rn
        invariant
            j <= rn,
            rn == right@.len(),
            hj_check(rows_v(right@).take(j as int), right_column as int) is Ok,
        decreases rn - j,
    {
        proof {
            let rv = rows_v(right@);
            assert(rv.take(j + 1).drop_last() =~= rv.take(j as int));
            assert(rv.take(j + 1).last() == rv[j as int]);
        }
        if right_column >= right[j].1.len() {
            proof {
                lemma_hj_check_prefix_err(rows_v(right@), right_column as int, j as int);
            }
            return Err(Error::InvalidInput);
        }
        j = j + 1;
    }
    proof {
        assert(rows_v(right@).take(rn as int) =~= rows_v(right@));
    }
    // probe phase
    let mut out: Vec<(RecordId, Row)> = Vec::new();
    let mut i: usize = 0;
    proof {
        assert(rows_v(left@).take(0) =~= Seq::empty());
        assert(rows_v(out@) =~= Seq::empty());
    }
    while i < ln
        invariant
            i <= ln,
            ln == left@.len(),
            rn == right@.len(),
            hj_check(rows_v(right@), right_column as int) is Ok,
            hj_join(
                rows_v(left@).take(i as int),
                left_column as int,
                rows_v(right@),
                right_column as int,
                right_size as int,
                outer,
            ) == Ok::<_, Error>(rows_v(out@)),
        decreases ln - i,
    {
        let ghost lv = rows_v(left@);
        let ghost rv = rows_v(right@);
        proof {
            assert(lv.take(i + 1).drop_last() =~= lv.take(i as int));
            assert(lv.take(i + 1).last() == lv[i as int]);
            assert(lv[i as int].1 == left@[i as int].1@);
        }
        if left_column >= left[i].1.len() {
            proof {
                lemma_hj_join_prefix_err(
                    lv,
                    left_column as int,
                    rv,
                    right_column as int,
                    right_size as int,
                    outer,
                    i as int,
                );
            }
            return Err(Error::InvalidInput);
        }
        let key = match left[i].1.get_field(left_column) {
            Ok(f) => f.clone(),
            Err(_) => Field::Null,
        };
        let undefined = key.is_undefined();
        let mut matched: Vec<Row> = Vec::new();
        let mut k: usize = 0;
        proof {
            assert(rv.take(0) =~= Seq::empty());
            assert(matched.deep_view() =~= Seq::<RowV>::empty());
            assert(hj_matches(rv.take(0), right_column as int, key@) =~= Seq::<RowV>::empty());
        }
        while k < rn
            invariant
                k <= rn,
                i < ln,
                ln == left@.len(),
                rn == right@.len(),
                rv == rows_v(right@),
                key@ == left@[i as int].1@[left_column as int],
                undefined == (key@ == FieldV::Null),
                left_column < left@[i as int].1@.len(),
                hj_check(rows_v(right@), right_column as int) is Ok,
                matched.deep_view() =~= hj_matches(
                    rows_v(right@).take(k as int),
                    right_column as int,
                    key@,
                ),
            decreases rn - k,
        {
            proof {
                assert(rv.take(k + 1).drop_last() =~= rv.take(k as int));
                assert(rv.take(k + 1).last() == rv[k as int]);
                assert(rv[k as int].1 == right@[k as int].1@);
                lemma_hj_check_col(rv, right_column as int, k as int);
            }
            let ghost pre = matched.deep_view();
            if !undefined {
                match right[k].1.get_field(right_column) {
                    Ok(rf) => {
                        if !rf.is_undefined() && key.equals(rf) {
                            matched.push(right[k].1.clone());
                            proof {
                                assert(matched.deep_view() =~= pre.push(right@[k as int].1@));
                            }
                        }
                    },
                    Err(_) => {},
                }
            }
            k = k + 1;
        }
        proof {
            assert(rv.take(rn as int) =~= rv);
        }
        let ghost pre_out = rows_v(out@);
        let mcount = matched.len();
        let lrid = RecordId::invalid();
        if mcount > 0 {
            let mut m: usize = 0;
            proof {
                assert(matched.deep_view().take(0).map_values(
                    |mm: RowV| (spec_invalid_rid(), left@[i as int].1@ + mm),
                ) =~= Seq::<(RecordId, RowV)>::empty());
                assert(rows_v(out@) =~= pre_out + matched.deep_view().take(0).map_values(
                    |mm: RowV| (spec_invalid_rid(), left@[i as int].1@ + mm),
                ));
            }
            while m < mcount
                invariant
                    m <= mcount,
                    i < ln,
                    ln == left@.len(),
                    mcount == matched@.len(),
                    rows_v(out@) =~= pre_out + matched.deep_view().take(m as int).map_values(
                        |mm: RowV| (spec_invalid_rid(), left@[i as int].1@ + mm),
                    ),
                    lrid == spec_invalid_rid(),
                decreases mcount - m,
            {
                let ghost pp = rows_v(out@);
                let combined = concat_rows(&left[i].1, &matched[m]);
                out.push((lrid, combined));
                proof {
                    assert(rows_v(out@) =~= pp.push(
                        (spec_invalid_rid(), left@[i as int].1@ + matched@[m as int]@),
                    ));
                    assert(matched.deep_view().take(m + 1) =~= matched.deep_view().take(
                        m as int,
                    ).push(matched@[m as int]@));
                    assert(matched.deep_view().take(m + 1).map_values(
                        |mm: RowV| (spec_invalid_rid(), left@[i as int].1@ + mm),
                    ) =~= matched.deep_view().take(m as int).map_values(
                        |mm: RowV| (spec_invalid_rid(), left@[i as int].1@ + mm),
                    ).push((spec_invalid_rid(), left@[i as int].1@ + matched@[m as int]@)));
                    assert(rows_v(out@) =~= pre_out + matched.deep_view().take(m + 1).map_values(
                        |mm: RowV| (spec_invalid_rid(), left@[i as int].1@ + mm),
                    ));
                }
                m = m + 1;
            }
            proof {
                assert(matched.deep_view().take(mcount as int) =~= matched.deep_view());
            }
        } else if outer {
            let pad = null_row(right_size);
            let combined = concat_rows(&left[i].1, &pad);
            out.push((lrid, combined));
            proof {
                assert(rows_v(out@) =~= pre_out.push(
                    (spec_invalid_rid(), left@[i as int].1@ + nulls(right_size as int)),
                ));
            }
        }
        i = i + 1;
    }
    proof {
        assert(rows_v(left@).take(ln as int) =~= rows_v(left@));
    }
    Ok(out)
}

/// A right row whose key column is missing fails the build check.
proof fn lemma_hj_check_prefix_err(right: Seq<(RecordId, RowV)>, col: int, j: int)
    requires
        0 <= j < right.len(),
        hj_check(right.take(j), col) is Ok,
        !(0 <= col < right[j].1.len()),
    ensures
        hj_check(right, col) == Err::<(), Error>(Error::InvalidInput),
    decreases right.len() - j,
{
    if j == right.len() - 1 {
        assert(right.take(j) =~= right.drop_last());
    } else {
        assert(right.drop_last().take(j) =~= right.take(j));
        assert(right.drop_last()[j] == right[j]);
        lemma_hj_check_prefix_err(right.drop_last(), col, j);
    }
}

/// When the build check passed, every right row has the key column.
proof fn lemma_hj_check_col(right: Seq<(RecordId, RowV)>, col: int, j: int)
    requires
        hj_check(right, col) is Ok,
        0 <= j < right.len(),
    ensures
        0 <= col < right[j].1.len(),
    decreases right.len(),
{
    if j == right.len() - 1 {
    } else {
        assert(right.drop_last()[j] == right[j]);
        lemma_hj_check_col(right.drop_last(), col, j);
    }
}

proof fn lemma_hj_join_prefix_err(
    left: Seq<(RecordId, RowV)>,
    left_col: int,
    right: Seq<(RecordId, RowV)>,
    right_col: int,
    right_size: int,
    outer: bool,
    i: int,
)
    requires
        0 <= i < left.len(),
        hj_join(left.take(i), left_col, right, right_col, right_size, outer) is Ok,
        !(0 <= left_col < left[i].1.len()),
    ensures
        hj_join(left, left_col, right, right_col, right_size, outer) == Err::<
            Seq<(RecordId, RowV)>,
            Error,
        >(Error::InvalidInput),
    decreases left.len() - i,
{
    if i == left.len() - 1 {
        assert(left.take(i) =~= left.drop_last());
    } else {
        assert(left.drop_last().take(i) =~= left.take(i));
        assert(left.drop_last()[i] == left[i]);
        lemma_hj_join_prefix_err(left.drop_last(), left_col, right, right_col, right_size, outer, i);
    }
}

} // verus!
