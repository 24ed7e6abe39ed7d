use vstd::prelude::*;
use crate::error::Error;
use crate::row::{RecordId, Row, RowV};

verus! {

/// A table schema from the catalog: the table name and its ordered column
/// names.
#[derive(Debug)]
pub struct TableSchema {
    pub name: String,
    pub columns: Vec<String>,
}

impl Clone for TableSchema {
    fn clone(&self) -> (r: Self)
        ensures
            r.name@ == self.name@,
            r.columns.deep_view() == self.columns.deep_view(),
    {
        let mut columns: Vec<String> = Vec::new();
        let n = self.columns.len();
        let mut i: usize = 0;
        while i < n
            invariant
                i <= n,
                n == self.columns@.len(),
                columns@.len() == i,
                forall|j: int| 0 <= j < i ==> (#[trigger] columns@[j])@ == self.columns@[j]@,
            decreases n - i,
        {
            columns.push(self.columns[i].clone());
            i = i + 1;
        }
        proof {
            assert(columns.deep_view() =~= self.columns.deep_view());
        }
        TableSchema { name: self.name.clone(), columns }
    }
}

impl TableSchema {
    pub fn new(name: String, columns: Vec<String>) -> (r: TableSchema)
        ensures
            r.name == name,
            r.columns == columns,
    {
        TableSchema { name, columns }
    }

    pub fn name(&self) -> (r: &String)
        ensures
            r@ == self.name@,
    {
        &self.name
    }
}

/// One stored table: its id (the page-id half of its record ids), its
/// schema, and its slots; a slot is `None` once deleted.
#[derive(Debug)]
pub struct TableData {
    pub id: u32,
    pub schema: TableSchema,
    pub rows: Vec<Option<Row>>,
}

/// The live rows of a table in slot order, paired with their record ids.
pub open spec fn scan_rows(id: u32, rows: Seq<Option<Row>>) -> Seq<(RecordId, RowV)>
    decreases rows.len(),
{
    if rows.len() == 0 {
        Seq::empty()
    } else {
        scan_rows(id, rows.drop_last()) + (match rows.last() {
            Some(r) => seq![
                (RecordId { page_id: id, slot_id: (rows.len() - 1) as u16 }, r@),
            ],
            None => Seq::empty(),
        })
    }
}

pub open spec fn tbl_has(s: Seq<TableData>, name: Seq<char>) -> bool {
    exists|j: int| 0 <= j < s.len() && s[j].schema.name@ == name
}

pub open spec fn tbl_idx(s: Seq<TableData>, name: Seq<char>) -> int {
    choose|j: int| 0 <= j < s.len() && s[j].schema.name@ == name
}

pub proof fn lemma_tbl_idx_is(s: Seq<TableData>, name: Seq<char>, j: int)
    requires
        forall|i1: int, i2: int| 0 <= i1 < i2 < s.len() ==> s[i1].schema.name@ != s[i2].schema.name@,
        0 <= j < s.len(),
        s[j].schema.name@ == name,
    ensures
        tbl_has(s, name),
        tbl_idx(s, name) == j,
{
    assert(tbl_has(s, name));
    let i = tbl_idx(s, name);
    if i != j {
        assert(s[i].schema.name@ != s[j].schema.name@);
    }
}

/// The in-memory storage engine behind the execution operators: it is at
/// once the catalog (schemas by name) and the transaction surface (scan,
/// insert, update, delete by record id).
#[derive(Debug)]
pub struct Engine {
    pub tables: Vec<TableData>,
    pub next_table_id: u32,
}

impl Engine {
    pub open spec fn tbls(self) -> Seq<TableData> {
        self.tables@
    }

    pub open spec fn has_table(self, name: Seq<char>) -> bool {
        tbl_has(self.tbls(), name)
    }

    pub open spec fn table_at(self, name: Seq<char>) -> TableData {
        self.tbls()[tbl_idx(self.tbls(), name)]
    }

    /// Table names are unique, ids are unique and below the id counter,
    /// and no table outgrows the slot-id range.
    pub open spec fn wf(self) -> bool {
        &&& forall|i1: int, i2: int|
            0 <= i1 < i2 < self.tbls().len() ==> self.tbls()[i1].schema.name@
                != self.tbls()[i2].schema.name@
        &&& forall|i: int| 0 <= i < self.tbls().len() ==> (#[trigger] self.tbls()[i]).id
            < self.next_table_id
        &&& forall|i1: int, i2: int|
            0 <= i1 < i2 < self.tbls().len() ==> self.tbls()[i1].id != self.tbls()[i2].id
        &&& forall|i: int| 0 <= i < self.tbls().len() ==> (#[trigger] self.tbls()[i]).rows@.len()
            <= u16::MAX
    }

    pub fn new() -> (r: Engine)
        ensures
            r.wf(),
            r.tbls().len() == 0,
    {
        Engine { tables: Vec::new(), next_table_id: 0 }
    }

    /// Index of the table named `name`, if any.
    fn lookup(&self, name: &String) -> (r: Option<usize>)
        requires
            self.wf(),
        ensures
            match r {
                Some(j) => j < self.tbls().len() && self.tbls()[j as int].schema.name@ == name@
                    && self.has_table(name@) && tbl_idx(self.tbls(), name@) == j,
                None => !self.has_table(name@),
            },
    {
        let n = self.tables.len();
        let mut j: usize = 0;
        while j < n
            invariant
                j <= n,
                n == self.tbls().len(),
                self.wf(),
                forall|k: int| 0 <= k < j ==> (#[trigger] self.tbls()[k]).schema.name@ != name@,
            decreases n - j,
        {
            if self.tables[j].schema.name == *name {
                proof {
                    lemma_tbl_idx_is(self.tbls(), name@, j as int);
                }
                return Some(j);
            }
            j = j + 1;
        }
        None
    }

    /// Creates a table with the given schema; a duplicate name is
    /// `InvalidInput`.
    pub fn create_table(&mut self, schema: TableSchema) -> (r: Result<(), Error>)
        requires
            old(self).wf(),
            old(self).next_table_id < u32::MAX,
        ensures
            final(self).wf(),
            old(self).has_table(schema.name@) ==> r == Err::<(), Error>(Error::InvalidInput)
                && *final(self) == *old(self),
            !old(self).has_table(schema.name@) ==> {
                &&& r is Ok
                &&& final(self).tbls().len() == old(self).tbls().len() + 1
                &&& final(self).has_table(schema.name@)
                &&& final(self).table_at(schema.name@).schema == schema
                &&& final(self).table_at(schema.name@).rows@.len() == 0
                &&& forall|k: int| 0 <= k < old(self).tbls().len() ==> final(self).tbls()[k] == old(self).tbls()[k]
            },
    {
        match self.lookup(&schema.name) {
            Some(_) => Err(Error::InvalidInput),
            None => {
                let ghost pre = self.tbls();
                let ghost name = schema.name@;
                let id = self.next_table_id;
                self.tables.push(TableData { id, schema, rows: Vec::new() });
                self.next_table_id = id + 1;
                proof {
                    lemma_tbl_idx_is(self.tbls(), name, pre.len() as int);
                    assert forall|i1: int, i2: int|
                        0 <= i1 < i2 < self.tbls().len() implies self.tbls()[i1].schema.name@
                        != self.tbls()[i2].schema.name@ by {
                        if i2 == pre.len() as int {
                            assert(self.tbls()[i1] == pre[i1]);
                            assert(!(0 <= i1 < pre.len() && pre[i1].schema.name@ == name));
                        }
                    }
                }
                Ok(())
            },
        }
    }

    /// Drops the table named `name`; reports whether it existed, and
    /// fails with `NotFound` when absent unless `if_exists`.
    pub fn drop_table(&mut self, name: &String, if_exists: bool) -> (r: Result<bool, Error>)
        requires
            old(self).wf(),
        ensures
            final(self).wf(),
            !old(self).has_table(name@) && if_exists ==> r == Ok::<bool, Error>(false) && *final(self) == *old(self),
            !old(self).has_table(name@) && !if_exists ==> r == Err::<bool, Error>(Error::NotFound)
                && *final(self) == *old(self),
            old(self).has_table(name@) ==> r == Ok::<bool, Error>(true) && !final(self).has_table(
                name@,
            ) && final(self).tbls() =~= old(self).tbls().remove(
                tbl_idx(old(self).tbls(), name@),
            ),
    {
        match self.lookup(name) {
            None => {
                if if_exists {
                    Ok(false)
                } else {
                    Err(Error::NotFound)
                }
            },
            Some(j) => {
                let ghost pre = self.tbls();
                self.tables.remove(j);
                proof {
                    assert forall|i1: int, i2: int|
                        0 <= i1 < i2 < self.tbls().len() implies self.tbls()[i1].schema.name@
                        != self.tbls()[i2].schema.name@ && self.tbls()[i1].id
                        != self.tbls()[i2].id by {
                        let a: int = if i1 < j as int {
                            i1
                        } else {
                            i1 + 1
                        };
                        let b: int = if i2 < j as int {
                            i2
                        } else {
                            i2 + 1
                        };
                        assert(self.tbls()[i1] == pre[a]);
                        assert(self.tbls()[i2] == pre[b]);
                    }
                    if tbl_has(self.tbls(), name@) {
                        let w = tbl_idx(self.tbls(), name@);
                        let w2: int = if w < j as int {
                            w
                        } else {
                            w + 1
                        };
                        assert(self.tbls()[w] == pre[w2]);
                        assert(pre[w2].schema.name@ == name@);
                        assert(w2 != j as int);
                    }
                }
                Ok(true)
            },
        }
    }

    /// The schema of the table named `name`.
    pub fn get_table(&self, name: &String) -> (r: Option<&TableSchema>)
        requires
            self.wf(),
        ensures
            self.has_table(name@) ==> (r matches Some(s) && *s == self.table_at(name@).schema),
            !self.has_table(name@) ==> r is None,
    {
        match self.lookup(name) {
            Some(j) => Some(&self.tables[j].schema),
            None => None,
        }
    }

    /// All live rows of the table, in slot order, with their record ids;
    /// `NotFound` when the table does not exist.
    pub fn scan(&self, name: &String) -> (r: Result<Vec<(RecordId, Row)>, Error>)
        requires
            self.wf(),
        ensures
            !self.has_table(name@) ==> r == Err::<Vec<(RecordId, Row)>, Error>(Error::NotFound),
            self.has_table(name@) ==> (r matches Ok(out) && crate::transform::rows_v(out@)
                == scan_rows(self.table_at(name@).id, self.table_at(name@).rows@)),
    {
        let j = match self.lookup(name) {
            Some(j) => j,
            None => {
                return Err(Error::NotFound);
            },
        };
        let id = self.tables[j].id;
        let n = self.tables[j].rows.len();
        let mut out: Vec<(RecordId, Row)> = Vec::new();
        let mut i: usize = 0;
        proof {
            assert(self.tbls()[j as int].rows@.take(0) =~= Seq::<Option<Row>>::empty());
            assert(crate::transform::rows_v(out@) =~= Seq::empty());
        }
        while i < n
            invariant
                i <= n,
                j < self.tbls().len(),
                n == self.tbls()[j as int].rows@.len(),
                n <= u16::MAX,
                id == self.tbls()[j as int].id,
                crate::transform::rows_v(out@) =~= scan_rows(
                    id,
                    self.tbls()[j as int].rows@.take(i as int),
                ),
            decreases n - i,
        {
            let ghost rs = self.tbls()[j as int].rows@;
            let ghost pre = crate::transform::rows_v(out@);
            match &self.tables[j].rows[i] {
                Some(row) => {
                    out.push((RecordId::new(id, i as u16), row.clone()));
                    proof {
                        assert(rs.take(i + 1).drop_last() =~= rs.take(i as int));
                        assert(rs.take(i + 1).last() == rs[i as int]);
                        assert(crate::transform::rows_v(out@) =~= pre.push(
                            (RecordId { page_id: id, slot_id: i as u16 }, rs[i as int]->0@),
                        ));
                    }
                },
                None => {
                    proof {
                        assert(rs.take(i + 1).drop_last() =~= rs.take(i as int));
                        assert(rs.take(i + 1).last() == rs[i as int]);
                        assert(pre + Seq::<(RecordId, RowV)>::empty() =~= pre);
                    }
                },
            }
            i = i + 1;
        }
        proof {
            assert(self.tbls()[j as int].rows@.take(n as int) =~= self.tbls()[j as int].rows@);
        }
        Ok(out)
    }

    /// Appends the rows to the table, one slot each, returning their new
    /// record ids in order; `NotFound` for an unknown table, `OutOfSpace`
    /// when the slot ids would overflow.
    pub fn insert(&mut self, name: &String, rows: Vec<Row>) -> (r: Result<Vec<RecordId>, Error>)
        requires
            old(self).wf(),
        ensures
            final(self).wf(),
            !old(self).has_table(name@) ==> r == Err::<Vec<RecordId>, Error>(Error::NotFound)
                && *final(self) == *old(self),
            old(self).has_table(name@) && old(self).table_at(name@).rows@.len() + rows@.len()
                > u16::MAX ==> r == Err::<Vec<RecordId>, Error>(Error::OutOfSpace) && *final(self)
                == *old(self),
            old(self).has_table(name@) && old(self).table_at(name@).rows@.len() + rows@.len()
                <= u16::MAX ==> {
                let j = tbl_idx(old(self).tbls(), name@);
                let base = old(self).table_at(name@).rows@.len();
                let id = old(self).table_at(name@).id;
                &&& r matches Ok(rids)
                &&& rids@.len() == rows@.len()
                &&& forall|k: int|
                    0 <= k < rows@.len() ==> (#[trigger] rids@[k]) == (RecordId {
                        page_id: id,
                        slot_id: (base + k) as u16,
                    })
                &&& final(self).tbls().len() == old(self).tbls().len()
                &&& forall|t: int|
                    0 <= t < old(self).tbls().len() && t != j ==> final(self).tbls()[t] == old(self).tbls()[t]
                &&& final(self).tbls()[j].id == id
                &&& final(self).tbls()[j].schema == old(self).tbls()[j].schema
                &&& final(self).tbls()[j].rows@.len() == base + rows@.len()
                &&& forall|s: int| 0 <= s < base ==> final(self).tbls()[j].rows@[s] == old(self).tbls()[j].rows@[s]
                &&& forall|k: int|
                    0 <= k < rows@.len() ==> ((#[trigger] final(self).tbls()[j].rows@[base + k])
                        matches Some(rr) && rr@ == rows@[k]@)
                &&& final(self).has_table(name@)
                &&& tbl_idx(final(self).tbls(), name@) == j
            },
    {
        let j = match self.lookup(name) {
            Some(j) => j,
            None => {
                return Err(Error::NotFound);
            },
        };
        let base = self.tables[j].rows.len();
        let count = rows.len();
        if count > u16::MAX as usize - base {
            return Err(Error::OutOfSpace);
        }
        let id = self.tables[j].id;
        let mut rids: Vec<RecordId> = Vec::new();
        let mut k: usize = 0;
        let ghost pre = self.tbls();
        while k < count
            invariant
                k <= count,
                j < self.tbls().len(),
                count == rows@.len(),
                base + count <= u16::MAX,
                base == pre[j as int].rows@.len(),
                id == pre[j as int].id,
                pre == old(self).tbls(),
                old(self).wf(),
                self.next_table_id == old(self).next_table_id,
                self.tbls().len() == pre.len(),
                forall|t: int| 0 <= t < pre.len() && t != j ==> self.tbls()[t] == pre[t],
                self.tbls()[j as int].id == id,
                self.tbls()[j as int].schema == pre[j as int].schema,
                self.tbls()[j as int].rows@.len() == base + k,
                forall|s: int| 0 <= s < base ==> self.tbls()[j as int].rows@[s] == pre[
                    j as int].rows@[s],
                forall|x: int|
                    0 <= x < k ==> ((#[trigger] self.tbls()[j as int].rows@[base + x])
                        matches Some(rr) && rr@ == rows@[x]@),
                rids@.len() == k,
                forall|x: int|
                    0 <= x < k ==> (#[trigger] rids@[x]) == (RecordId {
                        page_id: id,
                        slot_id: (base + x) as u16,
                    }),
            decreases count - k,
        {
            rids.push(RecordId::new(id, (base + k) as u16));
            let row = rows[k].clone();
            self.tables[j].rows.push(Some(row));
            k = k + 1;
        }
        proof {
            assert forall|i1: int, i2: int|
                0 <= i1 < i2 < self.tbls().len() implies self.tbls()[i1].schema.name@
                != self.tbls()[i2].schema.name@ && self.tbls()[i1].id != self.tbls()[i2].id by {
                assert(self.tbls()[i1].schema == old(self).tbls()[i1].schema);
                assert(self.tbls()[i2].schema == old(self).tbls()[i2].schema);
                assert(self.tbls()[i1].id == old(self).tbls()[i1].id);
                assert(self.tbls()[i2].id == old(self).tbls()[i2].id);
            }
            assert forall|i: int| 0 <= i < self.tbls().len() implies (
            #[trigger] self.tbls()[i]).id < self.next_table_id && self.tbls()[i].rows@.len()
                <= u16::MAX by {
                if i != j as int {
                    assert(self.tbls()[i] == old(self).tbls()[i]);
                }
            }
            lemma_tbl_idx_is(self.tbls(), name@, j as int);
        }
        Ok(rids)
    }
}


/// The slots after applying each update in order: an update must name
/// this table's id and a live slot, else it is `InvalidInput`; earlier
/// updates stay applied when a later one fails.
pub open spec fn apply_updates(rows: Seq<Option<Row>>, id: u32, ups: Seq<(RecordId, Row)>) -> Result<
    Seq<Option<Row>>,
    Error,
>
    decreases ups.len(),
{
    if ups.len() == 0 {
        Ok(rows)
    } else {
        match apply_updates(rows, id, ups.drop_last()) {
            Err(e) => Err(e),
            Ok(rs) => {
                let rid = ups.last().0;
                if rid.page_id != id {
                    Err(Error::InvalidInput)
                } else if rid.slot_id as int >= rs.len() {
                    Err(Error::InvalidInput)
                } else if rs[rid.slot_id as int] is None {
                    Err(Error::InvalidInput)
                } else {
                    Ok(rs.update(rid.slot_id as int, Some(ups.last().1)))
                }
            },
        }
    }
}

/// The slots after tombstoning each record id in order: an id must name
/// this table and a slot in range; deleting a deleted slot is a no-op.
pub open spec fn apply_deletes(rows: Seq<Option<Row>>, id: u32, rids: Seq<RecordId>) -> Result<
    Seq<Option<Row>>,
    Error,
>
    decreases rids.len(),
{
    if rids.len() == 0 {
        Ok(rows)
    } else {
        match apply_deletes(rows, id, rids.drop_last()) {
            Err(e) => Err(e),
            Ok(rs) => {
                let rid = rids.last();
                if rid.page_id != id {
                    Err(Error::InvalidInput)
                } else if rid.slot_id as int >= rs.len() {
                    Err(Error::InvalidInput)
                } else {
                    Ok(rs.update(rid.slot_id as int, None))
                }
            },
        }
    }
}

proof fn lemma_apply_updates_prefix_err(
    rows: Seq<Option<Row>>,
    id: u32,
    ups: Seq<(RecordId, Row)>,
    k: int,
    e: Error,
)
    requires
        0 <= k < ups.len(),
        apply_updates(rows, id, ups.take(k)) is Ok,
        ({
            let rs = match apply_updates(rows, id, ups.take(k)) {
                Ok(x) => x,
                Err(_) => Seq::empty(),
            };
            let rid = ups[k].0;
            if rid.page_id != id {
                Err(Error::InvalidInput)
            } else if rid.slot_id as int >= rs.len() {
                Err(Error::InvalidInput)
            } else if rs[rid.slot_id as int] is None {
                Err(Error::InvalidInput)
            } else {
                Ok(rs.update(rid.slot_id as int, Some(ups[k].1)))
            }
        }) == Err::<Seq<Option<Row>>, Error>(e),
    ensures
        apply_updates(rows, id, ups) == Err::<Seq<Option<Row>>, Error>(e),
    decreases ups.len() - k,
{
    if k == ups.len() - 1 {
        assert(ups.take(k) =~= ups.drop_last());
    } else {
        assert(ups.drop_last().take(k) =~= ups.take(k));
        assert(ups.drop_last()[k] == ups[k]);
        lemma_apply_updates_prefix_err(rows, id, ups.drop_last(), k, e);
    }
}

proof fn lemma_apply_deletes_prefix_err(
    rows: Seq<Option<Row>>,
    id: u32,
    rids: Seq<RecordId>,
    k: int,
    e: Error,
)
    requires
        0 <= k < rids.len(),
        apply_deletes(rows, id, rids.take(k)) is Ok,
        ({
            let rs = match apply_deletes(rows, id, rids.take(k)) {
                Ok(x) => x,
                Err(_) => Seq::empty(),
            };
            let rid = rids[k];
            if rid.page_id != id {
                Err(Error::InvalidInput)
            } else if rid.slot_id as int >= rs.len() {
                Err(Error::InvalidInput)
            } else {
                Ok(rs.update(rid.slot_id as int, None))
            }
        }) == Err::<Seq<Option<Row>>, Error>(e),
    ensures
        apply_deletes(rows, id, rids) == Err::<Seq<Option<Row>>, Error>(e),
    decreases rids.len() - k,
{
    if k == rids.len() - 1 {
        assert(rids.take(k) =~= rids.drop_last());
    } else {
        assert(rids.drop_last().take(k) =~= rids.take(k));
        assert(rids.drop_last()[k] == rids[k]);
        lemma_apply_deletes_prefix_err(rows, id, rids.drop_last(), k, e);
    }
}

impl Engine {
    /// Replaces whole rows by record id, in the given order; `NotFound`
    /// for an unknown table, `InvalidInput` for a bad record id.
    pub fn update(&mut self, name: &String, updates: Vec<(RecordId, Row)>) -> (r: Result<
        (),
        Error,
    >)
        requires
            old(self).wf(),
        ensures
            final(self).wf(),
            !old(self).has_table(name@) ==> r == Err::<(), Error>(Error::NotFound) && *final(self)
                == *old(self),
            old(self).has_table(name@) ==> {
                let j = tbl_idx(old(self).tbls(), name@);
                let applied = apply_updates(
                    old(self).tbls()[j].rows@,
                    old(self).tbls()[j].id,
                    updates@,
                );
                &&& (r matches Ok(u) ==> applied == Ok::<Seq<Option<Row>>, Error>(
                    final(self).tbls()[j].rows@,
                ) && final(self).tbls().len() == old(self).tbls().len()
                    && final(self).tbls()[j].id == old(self).tbls()[j].id
                    && final(self).tbls()[j].schema == old(self).tbls()[j].schema
                    && (forall|t: int|
                    0 <= t < old(self).tbls().len() && t != j
                        ==> final(self).tbls()[t] == old(self).tbls()[t]))
                &&& (r matches Err(e) ==> applied == Err::<Seq<Option<Row>>, Error>(e))
            },
    {
        let j = match self.lookup(name) {
            Some(j) => j,
            None => {
                return Err(Error::NotFound);
            },
        };
        let id = self.tables[j].id;
        let ghost pre = self.tbls();
        let ghost ups = updates@;
        let mut pending = updates;
        let count = pending.len();
        let mut k: usize = 0;
        proof {
            assert(ups.take(0) =~= Seq::<(RecordId, Row)>::empty());
        }
        while k < count
            invariant
                k <= count,
                j < self.tbls().len(),
                count == ups.len(),
                ups == updates@,
                pending@ =~= ups.skip(k as int),
                pre == old(self).tbls(),
                old(self).wf(),
                id == pre[j as int].id,
                self.next_table_id == old(self).next_table_id,
                self.tbls().len() == pre.len(),
                forall|t: int| 0 <= t < pre.len() && t != j ==> self.tbls()[t] == pre[t],
                self.tbls()[j as int].id == id,
                self.tbls()[j as int].schema == pre[j as int].schema,
                apply_updates(pre[j as int].rows@, id, ups.take(k as int)) == Ok::<
                    Seq<Option<Row>>,
                    Error,
                >(self.tbls()[j as int].rows@),
                self.tbls()[j as int].rows@.len() == pre[j as int].rows@.len(),
                self.wf(),
                old(self).has_table(name@),
                tbl_idx(old(self).tbls(), name@) == j as int,
            decreases count - k,
        {
            let (rid, row) = pending.remove(0);
            proof {
                assert(ups.skip(k as int)[0] == ups[k as int]);
                assert(pending@ =~= ups.skip(k + 1));
                assert(ups.take(k + 1).drop_last() =~= ups.take(k as int));
                assert(ups.take(k + 1).last() == ups[k as int]);
            }
            if rid.page_id != id {
                proof {
                    lemma_apply_updates_prefix_err(
                        pre[j as int].rows@,
                        id,
                        ups,
                        k as int,
                        Error::InvalidInput,
                    );
                }
                return Err(Error::InvalidInput);
            }
            let slot = rid.slot_id as usize;
            if slot >= self.tables[j].rows.len() {
                proof {
                    lemma_apply_updates_prefix_err(
                        pre[j as int].rows@,
                        id,
                        ups,
                        k as int,
                        Error::InvalidInput,
                    );
                }
                return Err(Error::InvalidInput);
            }
            let live = match &self.tables[j].rows[slot] {
                Some(_) => true,
                None => false,
            };
            if !live {
                proof {
                    lemma_apply_updates_prefix_err(
                        pre[j as int].rows@,
                        id,
                        ups,
                        k as int,
                        Error::InvalidInput,
                    );
                }
                return Err(Error::InvalidInput);
            }
            self.tables[j].rows.set(slot, Some(row));
            proof {
                assert forall|t: int| 0 <= t < self.tbls().len() implies (
                #[trigger] self.tbls()[t]).schema.name@ == pre[t].schema.name@
                    && self.tbls()[t].id == pre[t].id
                    && self.tbls()[t].rows@.len() <= u16::MAX by {
                    if t != j as int {
                        assert(self.tbls()[t] == pre[t]);
                    }
                }
            }
            k = k + 1;
        }
        proof {
            assert(ups.take(count as int) =~= ups);
        }
        Ok(())
    }

    /// Tombstones the given record ids, in order; `NotFound` for an
    /// unknown table, `InvalidInput` for a record id naming another table
    /// or a slot out of range.
    pub fn delete(&mut self, name: &String, rids: &Vec<RecordId>) -> (r: Result<(), Error>)
        requires
            old(self).wf(),
        ensures
            final(self).wf(),
            !old(self).has_table(name@) ==> r == Err::<(), Error>(Error::NotFound) && *final(self)
                == *old(self),
            old(self).has_table(name@) ==> {
                let j = tbl_idx(old(self).tbls(), name@);
                let applied = apply_deletes(
                    old(self).tbls()[j].rows@,
                    old(self).tbls()[j].id,
                    rids@,
                );
                &&& (r matches Ok(u) ==> applied == Ok::<Seq<Option<Row>>, Error>(
                    final(self).tbls()[j].rows@,
                ) && final(self).tbls().len() == old(self).tbls().len()
                    && final(self).tbls()[j].id == old(self).tbls()[j].id
                    && final(self).tbls()[j].schema == old(self).tbls()[j].schema
                    && (forall|t: int|
                    0 <= t < old(self).tbls().len() && t != j
                        ==> final(self).tbls()[t] == old(self).tbls()[t]))
                &&& (r matches Err(e) ==> applied == Err::<Seq<Option<Row>>, Error>(e))
            },
    {
        let j = match self.lookup(name) {
            Some(j) => j,
            None => {
                return Err(Error::NotFound);
            },
        };
        let id = self.tables[j].id;
        let ghost pre = self.tbls();
        let count = rids.len();
        let mut k: usize = 0;
        proof {
            assert(rids@.take(0) =~= Seq::<RecordId>::empty());
        }
        while k < count
            invariant
                k <= count,
                j < self.tbls().len(),
                count == rids@.len(),
                pre == old(self).tbls(),
                old(self).wf(),
                id == pre[j as int].id,
                self.next_table_id == old(self).next_table_id,
                self.tbls().len() == pre.len(),
                forall|t: int| 0 <= t < pre.len() && t != j ==> self.tbls()[t] == pre[t],
                self.tbls()[j as int].id == id,
                self.tbls()[j as int].schema == pre[j as int].schema,
                apply_deletes(pre[j as int].rows@, id, rids@.take(k as int)) == Ok::<
                    Seq<Option<Row>>,
                    Error,
                >(self.tbls()[j as int].rows@),
                self.tbls()[j as int].rows@.len() == pre[j as int].rows@.len(),
                self.wf(),
                old(self).has_table(name@),
                tbl_idx(old(self).tbls(), name@) == j as int,
            decreases count - k,
        {
            let rid = rids[k];
            proof {
                assert(rids@.take(k + 1).drop_last() =~= rids@.take(k as int));
                assert(rids@.take(k + 1).last() == rids@[k as int]);
            }
            if rid.page_id != id {
                proof {
                    lemma_apply_deletes_prefix_err(
                        pre[j as int].rows@,
                        id,
                        rids@,
                        k as int,
                        Error::InvalidInput,
                    );
                }
                return Err(Error::InvalidInput);
            }
            let slot = rid.slot_id as usize;
            if slot >= self.tables[j].rows.len() {
                proof {
                    lemma_apply_deletes_prefix_err(
                        pre[j as int].rows@,
                        id,
                        rids@,
                        k as int,
                        Error::InvalidInput,
                    );
                }
                return Err(Error::InvalidInput);
            }
            self.tables[j].rows.set(slot, None);
            proof {
                assert forall|t: int| 0 <= t < self.tbls().len() implies (
                #[trigger] self.tbls()[t]).schema.name@ == pre[t].schema.name@
                    && self.tbls()[t].id == pre[t].id
                    && self.tbls()[t].rows@.len() <= u16::MAX by {
                    if t != j as int {
                        assert(self.tbls()[t] == pre[t]);
                    }
                }
            }
            k = k + 1;
        }
        proof {
            assert(rids@.take(count as int) =~= rids@);
        }
        Ok(())
    }
}

} // verus!
