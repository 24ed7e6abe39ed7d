use vstd::prelude::*;
use crate::engine::{Engine, TableSchema, apply_deletes, apply_updates, tbl_idx};
use crate::error::Error;
use crate::expr::{Expression, eval};
use crate::row::{RecordId, Row, RowV};
use crate::transform::rows_v;

verus! {

/// The record ids of a row stream.
pub open spec fn rids_of(s: Seq<(RecordId, Row)>) -> Seq<RecordId> {
    s.map_values(|p: (RecordId, Row)| p.0)
}

/// Deletes the rows named by the source's record ids; returns how many.
pub fn delete(txn: &mut Engine, table: &String, source: Vec<(RecordId, Row)>) -> (r: Result<
    u64,
    Error,
>)
    requires
        old(txn).wf(),
    ensures
        final(txn).wf(),
        !old(txn).has_table(table@) ==> r == Err::<u64, Error>(Error::NotFound) && *final(txn)
            == *old(txn),
        old(txn).has_table(table@) ==> {
            let j = tbl_idx(old(txn).tbls(), table@);
            let applied = apply_deletes(
                old(txn).tbls()[j].rows@,
                old(txn).tbls()[j].id,
                rids_of(source@),
            );
            &&& (r matches Ok(c) ==> c == source@.len() && applied == Ok::<
                Seq<Option<Row>>,
                Error,
            >(final(txn).tbls()[j].rows@) && (forall|t: int|
                0 <= t < old(txn).tbls().len() && t != j ==> final(txn).tbls()[t] == old(txn).tbls()[t]) && final(txn).tbls().len() == old(txn).tbls().len() && final(txn).tbls()[j].id == old(txn).tbls()[j].id && final(txn).tbls()[j].schema == old(txn).tbls()[j].schema)
            &&& (r matches Err(e) ==> applied == Err::<Seq<Option<Row>>, Error>(e))
        },
{
    let n = source.len();
    let mut rids: Vec<RecordId> = Vec::new();
    let mut i: usize = 0;
    while i < n
        invariant
            i <= n,
            n == source@.len(),
            rids@.len() == i,
            forall|k: int| 0 <= k < i ==> (#[trigger] rids@[k]) == source@[k].0,
        decreases n - i,
    {
        rids.push(source[i].0);
        i = i + 1;
    }
    proof {
        assert(rids@ =~= rids_of(source@));
    }
    match txn.delete(table, &rids) {
        Ok(u) => Ok(rids.len() as u64),
        Err(e) => Err(e),
    }
}

/// Inserts the source's rows into the table; returns their record ids.
pub fn insert(txn: &mut Engine, table: &TableSchema, source: Vec<(RecordId, Row)>) -> (r: Result<
    Vec<RecordId>,
    Error,
>)
    requires
        old(txn).wf(),
    ensures
        final(txn).wf(),
        !old(txn).has_table(table.name@) ==> r == Err::<Vec<RecordId>, Error>(Error::NotFound)
            && *final(txn) == *old(txn),
        old(txn).has_table(table.name@) && old(txn).table_at(table.name@).rows@.len()
            + source@.len() > u16::MAX ==> r == Err::<Vec<RecordId>, Error>(Error::OutOfSpace)
            && *final(txn) == *old(txn),
        old(txn).has_table(table.name@) && old(txn).table_at(table.name@).rows@.len()
            + source@.len() <= u16::MAX ==> {
            let j = tbl_idx(old(txn).tbls(), table.name@);
            let base = old(txn).table_at(table.name@).rows@.len();
            let id = old(txn).table_at(table.name@).id;
            &&& r matches Ok(rids)
            &&& rids@.len() == source@.len()
            &&& forall|k: int|
                0 <= k < source@.len() ==> (#[trigger] rids@[k]) == (RecordId {
                    page_id: id,
                    slot_id: (base + k) as u16,
                })
            &&& final(txn).tbls().len() == old(txn).tbls().len()
            &&& forall|t: int|
                0 <= t < old(txn).tbls().len() && t != j ==> final(txn).tbls()[t] == old(txn).tbls()[t]
            &&& final(txn).tbls()[j].rows@.len() == base + source@.len()
            &&& forall|s: int| 0 <= s < base ==> final(txn).tbls()[j].rows@[s] == old(txn).tbls()[j].rows@[s]
            &&& forall|k: int|
                0 <= k < source@.len() ==> ((#[trigger] final(txn).tbls()[j].rows@[base + k])
                    matches Some(rr) && rr@ == source@[k].1@)
            &&& final(txn).tbls()[j].id == id
            &&& final(txn).tbls()[j].schema == old(txn).tbls()[j].schema
        },
{
    let n = source.len();
    let mut rows: Vec<Row> = Vec::new();
    let mut i: usize = 0;
    while i < n
        invariant
            i <= n,
            n == source@.len(),
            rows@.len() == i,
            forall|k: int| 0 <= k < i ==> (#[trigger] rows@[k])@ == source@[k].1@,
        decreases n - i,
    {
        rows.push(source[i].1.clone());
        i = i + 1;
    }
    txn.insert(table.name(), rows)
}

/// The row after overwriting the indicated columns with the expression
/// values, each evaluated on the original row; a column out of range is
/// `InvalidInput`.
pub open spec fn upd_row(orig: RowV, exprs: Seq<(usize, Expression)>) -> Result<RowV, Error>
    decreases exprs.len(),
{
    if exprs.len() == 0 {
        Ok(orig)
    } else {
        match upd_row(orig, exprs.drop_last()) {
            Err(e) => Err(e),
            Ok(cur) => match eval(exprs.last().1, Some(orig)) {
                Err(e) => Err(e),
                Ok(v) => if (exprs.last().0 as int) < cur.len() {
                    Ok(cur.update(exprs.last().0 as int, v))
                } else {
                    Err(Error::InvalidInput)
                },
            },
        }
    }
}

pub open spec fn mp_has(s: Seq<(RecordId, RowV)>, rid: RecordId) -> bool {
    exists|k: int| 0 <= k < s.len() && s[k].0 == rid
}

pub open spec fn mp_idx(s: Seq<(RecordId, RowV)>, rid: RecordId) -> int {
    choose|k: int| 0 <= k < s.len() && s[k].0 == rid
}

pub proof fn lemma_mp_idx_is(s: Seq<(RecordId, RowV)>, rid: RecordId, k: int)
    requires
        forall|k1: int, k2: int| 0 <= k1 < k2 < s.len() ==> s[k1].0 != s[k2].0,
        0 <= k < s.len(),
        s[k].0 == rid,
    ensures
        mp_has(s, rid),
        mp_idx(s, rid) == k,
{
    assert(mp_has(s, rid));
    let i = mp_idx(s, rid);
    if i != k {
        assert(s[i].0 != s[k].0);
    }
}

/// Assoc-map insertion with last-write-wins per record id: a present id's
/// row is replaced in place, a new id is appended.
pub open spec fn map_put(s: Seq<(RecordId, RowV)>, rid: RecordId, row: RowV) -> Seq<
    (RecordId, RowV),
> {
    if mp_has(s, rid) {
        s.update(mp_idx(s, rid), (rid, row))
    } else {
        s.push((rid, row))
    }
}

/// The update map built from the source rows: per input row its new row,
/// coalesced by record id, last write wins.
pub open spec fn build_updates(
    rows: Seq<(RecordId, RowV)>,
    exprs: Seq<(usize, Expression)>,
) -> Result<Seq<(RecordId, RowV)>, Error>
    decreases rows.len(),
{
    if rows.len() == 0 {
        Ok(Seq::empty())
    } else {
        match build_updates(rows.drop_last(), exprs) {
            Err(e) => Err(e),
            Ok(front) => match upd_row(rows.last().1, exprs) {
                Err(e) => Err(e),
                Ok(nr) => Ok(map_put(front, rows.last().0, nr)),
            },
        }
    }
}

proof fn lemma_upd_row_prefix_err(orig: RowV, exprs: Seq<(usize, Expression)>, x: int, e: Error)
    requires
        0 <= x < exprs.len(),
        upd_row(orig, exprs.take(x)) is Ok,
        ({
            let cur = match upd_row(orig, exprs.take(x)) {
                Ok(c) => c,
                Err(_) => Seq::empty(),
            };
            match eval(exprs[x].1, Some(orig)) {
                Err(e2) => Err(e2),
                Ok(v) => if (exprs[x].0 as int) < cur.len() {
                    Ok(cur.update(exprs[x].0 as int, v))
                } else {
                    Err(Error::InvalidInput)
                },
            }
        }) == Err::<RowV, Error>(e),
    ensures
        upd_row(orig, exprs) == Err::<RowV, Error>(e),
    decreases exprs.len() - x,
{
    if x == exprs.len() - 1 {
        assert(exprs.take(x) =~= exprs.drop_last());
    } else {
        assert(exprs.drop_last().take(x) =~= exprs.take(x));
        assert(exprs.drop_last()[x] == exprs[x]);
        lemma_upd_row_prefix_err(orig, exprs.drop_last(), x, e);
    }
}

proof fn lemma_build_updates_prefix_err(
    s: Seq<(RecordId, RowV)>,
    exprs: Seq<(usize, Expression)>,
    i: int,
    e: Error,
)
    requires
        0 <= i < s.len(),
        build_updates(s.take(i), exprs) is Ok,
        upd_row(s[i].1, exprs) == Err::<RowV, Error>(e),
    ensures
        build_updates(s, exprs) == Err::<Seq<(RecordId, RowV)>, Error>(e),
    decreases s.len() - i,
{
    if i == s.len() - 1 {
        assert(s.take(i) =~= s.drop_last());
    } else {
        assert(s.drop_last().take(i) =~= s.take(i));
        assert(s.drop_last()[i] == s[i]);
        lemma_build_updates_prefix_err(s.drop_last(), exprs, i, e);
    }
}

/// The slots after the updates, at the level of row values.
pub open spec fn apply_updates_v(
    slots: Seq<Option<RowV>>,
    id: u32,
    ups: Seq<(RecordId, RowV)>,
) -> Result<Seq<Option<RowV>>, Error>
    decreases ups.len(),
{
    if ups.len() == 0 {
        Ok(slots)
    } else {
        match apply_updates_v(slots, id, ups.drop_last()) {
            Err(e) => Err(e),
            Ok(rs) => {
                let rid = ups.last().0;
                if rid.page_id != id {
                    Err(Error::InvalidInput)
                } else if rid.slot_id as int >= rs.len() {
                    Err(Error::InvalidInput)
                } else if rs[rid.slot_id as int] is None {
                    Err(Error::InvalidInput)
                } else {
                    Ok(rs.update(rid.slot_id as int, Some(ups.last().1)))
                }
            },
        }
    }
}

/// The row values of a slot sequence.
pub open spec fn slots_v(s: Seq<Option<Row>>) -> Seq<Option<RowV>> {
    s.map_values(
        |o: Option<Row>|
            match o {
                Some(r) => Some(r@),
                None => None,
            },
    )
}

/// The value-level application of updates agrees with the row-value one.
proof fn lemma_apply_updates_view(rows: Seq<Option<Row>>, id: u32, ups: Seq<(RecordId, Row)>)
    ensures
        (match apply_updates(rows, id, ups) {
            Ok(rs) => apply_updates_v(slots_v(rows), id, rows_v(ups)) == Ok::<
                Seq<Option<RowV>>,
                Error,
            >(slots_v(rs)),
            Err(e) => apply_updates_v(slots_v(rows), id, rows_v(ups)) == Err::<
                Seq<Option<RowV>>,
                Error,
            >(e),
        }),
    decreases ups.len(),
{
    if ups.len() == 0 {
    } else {
        lemma_apply_updates_view(rows, id, ups.drop_last());
        assert(rows_v(ups).drop_last() =~= rows_v(ups.drop_last()));
        assert(rows_v(ups).last() == (ups.last().0, ups.last().1@));
        match apply_updates(rows, id, ups.drop_last()) {
            Err(e) => {},
            Ok(rs) => {
                let rid = ups.last().0;
                if rid.page_id == id && (rid.slot_id as int) < rs.len() {
                    assert(slots_v(rs)[rid.slot_id as int] == (match rs[rid.slot_id as int] { Some(rr) => Some(rr@), None => None }));
                    if rs[rid.slot_id as int] is Some {
                        assert(slots_v(rs.update(rid.slot_id as int, Some(ups.last().1)))
                            =~= slots_v(rs).update(
                            rid.slot_id as int,
                            Some(ups.last().1@),
                        )) by {
                            let a = rs.update(rid.slot_id as int, Some(ups.last().1));
                            let b = slots_v(rs).update(rid.slot_id as int, Some(ups.last().1@));
                            assert forall|x: int| 0 <= x < a.len() implies slots_v(a)[x]
                                == b[x] by {
                                if x != rid.slot_id as int {
                                    assert(a[x] == rs[x]);
                                }
                            }
                        }
                    }
                }
            },
        }
    }
}

/// Updates the rows the source names: each output column expression is
/// evaluated on the original row; duplicate record ids coalesce, last
/// write wins. Returns the number of distinct rows updated.
pub fn update(
    txn: &mut Engine,
    table: &String,
    source: Vec<(RecordId, Row)>,
    expressions: &Vec<(usize, Expression)>,
) -> (r: Result<u64, Error>)
    requires
        old(txn).wf(),
    ensures
        final(txn).wf(),
        (match build_updates(rows_v(source@), expressions@) {
            Err(e) => r == Err::<u64, Error>(e) && *final(txn) == *old(txn),
            Ok(uv) => {
                &&& (!old(txn).has_table(table@) ==> r == Err::<u64, Error>(Error::NotFound)
                    && *final(txn) == *old(txn))
                &&& (old(txn).has_table(table@) ==> {
                    let j = tbl_idx(old(txn).tbls(), table@);
                    let applied = apply_updates_v(
                        slots_v(old(txn).tbls()[j].rows@),
                        old(txn).tbls()[j].id,
                        uv,
                    );
                    &&& (r matches Ok(c) ==> c == uv.len() && applied == Ok::<
                        Seq<Option<RowV>>,
                        Error,
                    >(slots_v(final(txn).tbls()[j].rows@)) && final(txn).tbls().len() == old(txn).tbls().len() && (forall|t: int|
                        0 <= t < old(txn).tbls().len() && t != j
                            ==> final(txn).tbls()[t] == old(txn).tbls()[t]))
                    &&& (r matches Err(e) ==> applied == Err::<Seq<Option<RowV>>, Error>(e))
                })
            },
        }),
{
    let n = source.len();
    let mut ups: Vec<(RecordId, Row)> = Vec::new();
    let mut i: usize = 0;
    proof {
        assert(rows_v(source@).take(0) =~= Seq::empty());
        assert(rows_v(ups@) =~= Seq::empty());
    }
    while i < n
        invariant
            i <= n,
            n == source@.len(),
            build_updates(rows_v(source@).take(i as int), expressions@) == Ok::<
                Seq<(RecordId, RowV)>,
                Error,
            >(rows_v(ups@)),
            forall|k1: int, k2: int| 0 <= k1 < k2 < ups@.len() ==> ups@[k1].0 != ups@[k2].0,
            *txn == *old(txn),
            old(txn).wf(),
        decreases n - i,
    {
        let ghost s = rows_v(source@);
        let orig = &source[i].1;
        let mut new_row = orig.clone();
        let en = expressions.len();
        let mut x: usize = 0;
        proof {
            assert(expressions@.take(0) =~= Seq::<(usize, Expression)>::empty());
        }
        while x < en
            invariant
                x <= en,
                en == expressions@.len(),
                i < n,
                n == source@.len(),
                s == rows_v(source@),
                s.len() == source@.len(),
                *txn == *old(txn),
                old(txn).wf(),
                build_updates(s.take(i as int), expressions@) is Ok,
                orig@ == source@[i as int].1@,
                upd_row(source@[i as int].1@, expressions@.take(x as int)) == Ok::<RowV, Error>(
                    new_row@,
                ),
            decreases en - x,
        {
            proof {
                assert(expressions@.take(x + 1).drop_last() =~= expressions@.take(x as int));
                assert(expressions@.take(x + 1).last() == expressions@[x as int]);
            }
            let v = match expressions[x].1.evaluate(Some(orig)) {
                Ok(v) => v,
                Err(e) => {
                    proof {
                        lemma_upd_row_prefix_err(source@[i as int].1@, expressions@, x as int, e);
                        lemma_build_updates_prefix_err(s, expressions@, i as int, e);
                    }
                    return Err(e);
                },
            };
            match new_row.update_field(expressions[x].0, v) {
                Ok(u) => {},
                Err(e) => {
                    proof {
                        lemma_upd_row_prefix_err(source@[i as int].1@, expressions@, x as int, e);
                        lemma_build_updates_prefix_err(s, expressions@, i as int, e);
                    }
                    return Err(e);
                },
            }
            x = x + 1;
        }
        proof {
            assert(expressions@.take(en as int) =~= expressions@);
        }
        // last write wins per record id
        let rid = source[i].0;
        let un = ups.len();
        let mut w: usize = 0;
        while w < un && !(ups[w].0 == rid)
            invariant
                w <= un,
                un == ups@.len(),
                forall|k: int| 0 <= k < w ==> (#[trigger] ups@[k]).0 != rid,
            decreases un - w,
        {
            w = w + 1;
        }
        let ghost pre_ups = rows_v(ups@);
        if w < un {
            ups.set(w, (rid, new_row));
            proof {
                assert(pre_ups[w as int].0 == rid);
                assert forall|k1: int, k2: int|
                    0 <= k1 < k2 < pre_ups.len() implies pre_ups[k1].0 != pre_ups[k2].0 by {}
                lemma_mp_idx_is(pre_ups, rid, w as int);
                assert(rows_v(ups@) =~= pre_ups.update(w as int, (rid, new_row@)));
            }
        } else {
            ups.push((rid, new_row));
            proof {
                if mp_has(pre_ups, rid) {
                    let k = mp_idx(pre_ups, rid);
                    assert(pre_ups[k].0 == rid);
                }
                assert(rows_v(ups@) =~= pre_ups.push((rid, new_row@)));
            }
        }
        proof {
            assert(s.take(i + 1).drop_last() =~= s.take(i as int));
            assert(s.take(i + 1).last() == s[i as int]);
            assert(s[i as int].1 == source@[i as int].1@);
        }
        i = i + 1;
    }
    proof {
        assert(rows_v(source@).take(n as int) =~= rows_v(source@));
    }
    let count = ups.len() as u64;
    let ghost upse = ups@;
    let ghost uv = rows_v(ups@);
    let ghost pre_txn = *txn;
    match txn.update(table, ups) {
        Ok(u) => {
            proof {
                if pre_txn.has_table(table@) {
                    let j = tbl_idx(pre_txn.tbls(), table@);
                    lemma_apply_updates_view(
                        pre_txn.tbls()[j].rows@,
                        pre_txn.tbls()[j].id,
                        upse,
                    );
                }
            }
            Ok(count)
        },
        Err(e) => {
            proof {
                if pre_txn.has_table(table@) {
                    let j = tbl_idx(pre_txn.tbls(), table@);
                    lemma_apply_updates_view(
                        pre_txn.tbls()[j].rows@,
                        pre_txn.tbls()[j].id,
                        upse,
                    );
                }
            }
            Err(e)
        },
    }
}

} // verus!
