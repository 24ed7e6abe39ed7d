use vstd::prelude::*;
use crate::codec::{u16_le, u16_of_le, u32_le, u32_of_le, u16_le_byte, u16_from_le, u32_le_byte, bincode_encode_page_id, bincode_decode_page_id};
use crate::error::Error;
use crate::row::RecordId;
use crate::tuple::{Tuple, TupleMetadata};

verus! {

/// Size of one page, on disk and in memory.
pub const PAGE_SIZE: usize = 4096;

/// The reserved page id that terminates a page chain.
pub const INVALID_PID: u32 = 0xFFFF_FFFF;

/// One entry of the slot directory: where the tuple's payload lies and its
/// metadata.
#[derive(Clone, Copy, Debug, PartialEq, Eq, Structural)]
pub struct TupleInfo {
    pub offset: u16,
    pub size_bytes: u16,
    pub metadata: TupleMetadata,
}

/// A slotted table page: a fixed header and a slot directory at low
/// addresses, tuple payloads at high addresses growing inward. Pages of one
/// table form a linked list through `next_page_id`.
#[derive(Debug)]
pub struct TablePage {
    pub page_id: u32,
    pub next_page_id: u32,
    pub data: Vec<u8>,
    /// Number of non-deleted tuples.
    pub tuple_cnt: u16,
    /// Number of deleted tuples.
    pub deleted_tuple_cnt: u16,
    pub tuple_info: Vec<TupleInfo>,
    pub is_dirty: bool,
}

/// Number of live (non-tombstoned) entries of a slot directory.
pub open spec fn live_count(s: Seq<TupleInfo>) -> int
    decreases s.len(),
{
    if s.len() == 0 {
        0
    } else {
        live_count(s.drop_last()) + if s.last().metadata.spec_is_deleted() {
            0int
        } else {
            1int
        }
    }
}

/// Number of tombstoned entries of a slot directory.
pub open spec fn dead_count(s: Seq<TupleInfo>) -> int
    decreases s.len(),
{
    if s.len() == 0 {
        0
    } else {
        dead_count(s.drop_last()) + if s.last().metadata.spec_is_deleted() {
            1int
        } else {
            0int
        }
    }
}

pub proof fn lemma_counts_sum(s: Seq<TupleInfo>)
    ensures
        live_count(s) + dead_count(s) == s.len(),
        0 <= live_count(s) <= s.len(),
        0 <= dead_count(s) <= s.len(),
    decreases s.len(),
{
    if s.len() > 0 {
        lemma_counts_sum(s.drop_last());
    }
}

pub proof fn lemma_counts_update(s: Seq<TupleInfo>, i: int, x: TupleInfo)
    requires
        0 <= i < s.len(),
    ensures
        live_count(s.update(i, x)) == live_count(s) + (if s[i].metadata.spec_is_deleted() {
            0int
        } else {
            -1int
        }) + (if x.metadata.spec_is_deleted() {
            0int
        } else {
            1int
        }),
        dead_count(s.update(i, x)) == dead_count(s) + (if s[i].metadata.spec_is_deleted() {
            -1int
        } else {
            0int
        }) + (if x.metadata.spec_is_deleted() {
            1int
        } else {
            0int
        }),
    decreases s.len(),
{
    if i == s.len() - 1 {
        assert(s.update(i, x).drop_last() =~= s.drop_last());
        assert(s.update(i, x).last() == x);
    } else {
        lemma_counts_update(s.drop_last(), i, x);
        assert(s.update(i, x).drop_last() =~= s.drop_last().update(i, x));
        assert(s.update(i, x).last() == s.last());
    }
}

impl TablePage {
    pub open spec fn total_slots(self) -> int {
        self.tuple_info@.len() as int
    }

    /// The exclusive upper bound of slot `i`'s payload region: the page end
    /// for slot 0, else the start of the previous slot's payload.
    pub open spec fn prev_end(self, i: int) -> int {
        if i == 0 {
            PAGE_SIZE as int
        } else {
            self.tuple_info@[i - 1].offset as int
        }
    }

    /// Slot `i`'s payload occupies exactly the bytes below the previous
    /// slot's payload.
    pub open spec fn slot_ok(self, i: int) -> bool {
        self.tuple_info@[i].offset + self.tuple_info@[i].size_bytes == self.prev_end(i)
    }

    /// The lowest address used by any tuple payload.
    pub open spec fn tuples_end(self) -> int {
        if self.total_slots() == 0 {
            PAGE_SIZE as int
        } else {
            self.tuple_info@[self.total_slots() - 1].offset as int
        }
    }

    /// One past the last byte of the header and slot directory.
    pub open spec fn header_end(self) -> int {
        12 + 4 * self.total_slots()
    }

    pub open spec fn free_space(self) -> int {
        self.tuples_end() - self.header_end()
    }

    /// A new tuple fits iff the free space holds its payload and one more
    /// slot-directory entry.
    pub open spec fn fits(self, len: int) -> bool {
        4 + len <= self.free_space()
    }

    /// Well-formedness: the counters count the directory's live and dead
    /// entries, and the payload regions form a contiguous chain from the
    /// page end down to above the slot directory.
    pub open spec fn wf(self) -> bool {
        &&& self.data@.len() == PAGE_SIZE
        &&& self.tuple_cnt as int == live_count(self.tuple_info@)
        &&& self.deleted_tuple_cnt as int == dead_count(self.tuple_info@)
        &&& self.header_end() <= self.tuples_end()
        &&& forall|i: int| 0 <= i < self.total_slots() ==> #[trigger] self.slot_ok(i)
    }

    /// The live and deleted counters of a well-formed page sum to the
    /// length of the slot directory.
    pub proof fn lemma_tuple_count_invariant(self)
        requires
            self.wf(),
        ensures
            self.tuple_cnt + self.deleted_tuple_cnt == self.tuple_info@.len(),
            self.total_slots() <= 1021,
    {
        lemma_counts_sum(self.tuple_info@);
        self.lemma_tuple_regions();
        assert(12 + 4 * self.total_slots() <= PAGE_SIZE);
    }

    proof fn lemma_chain(self, i: int, j: int)
        requires
            self.wf(),
            0 <= i <= j < self.total_slots(),
        ensures
            self.tuple_info@[j].offset + self.tuple_info@[j].size_bytes <= self.prev_end(i),
        decreases j - i,
    {
        assert(self.slot_ok(j));
        if i < j {
            self.lemma_chain(i, j - 1);
        }
    }

    /// Tuple payload regions of a well-formed page lie within the page,
    /// above the slot directory, and pairwise disjoint.
    pub proof fn lemma_tuple_regions(self)
        requires
            self.wf(),
        ensures
            forall|i: int| 0 <= i < self.total_slots() ==> #[trigger] self.tuple_info@[i].offset
                + self.tuple_info@[i].size_bytes <= PAGE_SIZE,
            forall|i: int| 0 <= i < self.total_slots() ==> self.header_end()
                <= #[trigger] self.tuple_info@[i].offset,
            forall|i: int, j: int| 0 <= i < j < self.total_slots()
                ==> #[trigger] self.tuple_info@[j].offset + self.tuple_info@[j].size_bytes
                <= #[trigger] self.tuple_info@[i].offset,
    {
        let n = self.total_slots();
        assert forall|i: int| 0 <= i < n implies #[trigger] self.tuple_info@[i].offset
            + self.tuple_info@[i].size_bytes <= PAGE_SIZE by {
            self.lemma_chain(0, i);
        }
        assert forall|i: int| 0 <= i < n implies self.header_end()
            <= #[trigger] self.tuple_info@[i].offset by {
            if i < n - 1 {
                self.lemma_chain(i + 1, n - 1);
                assert(self.slot_ok(n - 1));
            }
        }
        assert forall|i: int, j: int| 0 <= i < j < n implies #[trigger] self.tuple_info@[j].offset
            + self.tuple_info@[j].size_bytes <= #[trigger] self.tuple_info@[i].offset by {
            self.lemma_chain(i + 1, j);
        }
    }

    fn new(page_id: u32, next_page_id: u32) -> (r: TablePage)
        ensures
            r.page_id == page_id,
            r.next_page_id == next_page_id,
            r.data@ =~= Seq::new(PAGE_SIZE as nat, |i: int| 0u8),
            r.tuple_cnt == 0,
            r.deleted_tuple_cnt == 0,
            r.tuple_info@.len() == 0,
            !r.is_dirty,
            r.wf(),
    {
        let mut data: Vec<u8> = Vec::new();
        let mut i: usize = 0;
        while i < PAGE_SIZE
            invariant
                i <= PAGE_SIZE,
                data@.len() == i,
                forall|j: int| 0 <= j < i ==> data@[j] == 0u8,
            decreases PAGE_SIZE - i,
        {
            data.push(0u8);
            i = i + 1;
        }
        TablePage {
            page_id,
            next_page_id,
            data,
            tuple_cnt: 0,
            deleted_tuple_cnt: 0,
            tuple_info: Vec::new(),
            is_dirty: false,
        }
    }

    pub fn builder() -> (r: TablePageBuilder)
        ensures
            r.page_id is None,
            r.next_page_id is None,
    {
        TablePageBuilder::new()
    }

    pub fn get_next_page_id(&self) -> (r: u32)
        ensures
            r == self.next_page_id,
    {
        self.next_page_id
    }

    pub fn set_next_page_id(&mut self, pid: u32)
        ensures
            *final(self) == (TablePage { next_page_id: pid, ..*old(self) }),
    {
        self.next_page_id = pid;
    }

    /// Total number of tuples on the page, deleted ones included: deleted
    /// tuples keep their slot and are only marked by a tombstone.
    pub fn total_tuple_count(&self) -> (r: u16)
        requires
            self.wf(),
        ensures
            r as int == self.total_slots(),
    {
        proof {
            self.lemma_tuple_count_invariant();
        }
        self.tuple_cnt + self.deleted_tuple_cnt
    }

    /// The offset at which a payload of `payload`'s size would be placed,
    /// or `None` when it does not fit.
    pub fn get_next_tuple_offset(&self, payload: &Tuple) -> (r: Option<u16>)
        requires
            self.wf(),
        ensures
            self.fits(payload@.len() as int) ==> r == Some((self.tuples_end() - payload@.len())
                as u16),
            !self.fits(payload@.len() as int) ==> r is None,
    {
        proof {
            self.lemma_tuple_count_invariant();
            self.lemma_tuple_regions();
        }
        let total = self.total_tuple_count();
        let len = payload.len();
        let tuples_end: usize = if total == 0 {
            PAGE_SIZE
        } else {
            self.tuple_info[(total - 1) as usize].offset as usize
        };
        let header_needed: usize = 12 + 4 * (total as usize + 1);
        if header_needed > tuples_end || len > tuples_end - header_needed {
            None
        } else {
            Some((tuples_end - len) as u16)
        }
    }

    /// Inserts a tuple payload at the next free offset, appends its slot
    /// directory entry and counts it; returns the new slot id, or `None`
    /// when the tuple does not fit.
    pub fn insert_tuple(&mut self, meta: TupleMetadata, tuple: Tuple) -> (r: Option<u16>)
        requires
            old(self).wf(),
        ensures
            final(self).wf(),
            !old(self).fits(tuple@.len() as int) ==> r is None && *final(self) == *old(self),
            old(self).fits(tuple@.len() as int) ==> {
                let off = old(self).tuples_end() - tuple@.len();
                &&& r == Some(old(self).total_slots() as u16)
                &&& final(self).tuple_info@ =~= old(self).tuple_info@.push(
                    TupleInfo {
                        offset: off as u16,
                        size_bytes: tuple@.len() as u16,
                        metadata: meta,
                    },
                )
                &&& final(self).data@ =~= old(self).data@.take(off) + tuple@ + old(
                    self,
                ).data@.skip(off + tuple@.len())
                &&& final(self).tuple_cnt == old(self).tuple_cnt + (
                if meta.spec_is_deleted() {
                    0int
                } else {
                    1int
                })
                &&& final(self).deleted_tuple_cnt == old(self).deleted_tuple_cnt + (
                if meta.spec_is_deleted() {
                    1int
                } else {
                    0int
                })
                &&& final(self).is_dirty
                &&& final(self).page_id == old(self).page_id
                &&& final(self).next_page_id == old(self).next_page_id
            },
    {
        proof {
            self.lemma_tuple_count_invariant();
            self.lemma_tuple_regions();
        }
        let total = self.total_tuple_count();
        let len = tuple.len();
        let tuples_end: usize = if total == 0 {
            PAGE_SIZE
        } else {
            self.tuple_info[(total - 1) as usize].offset as usize
        };
        let header_needed: usize = 12 + 4 * (total as usize + 1);
        if header_needed > tuples_end || len > tuples_end - header_needed {
            return None;
        }
        let off = tuples_end - len;
        splice_bytes(&mut self.data, off, &tuple.data);
        let info = TupleInfo { offset: off as u16, size_bytes: len as u16, metadata: meta };
        self.tuple_info.push(info);
        if meta.is_deleted() {
            self.deleted_tuple_cnt = self.deleted_tuple_cnt + 1;
        } else {
            self.tuple_cnt = self.tuple_cnt + 1;
        }
        self.is_dirty = true;
        proof {
            let s = old(self).tuple_info@;
            assert(s.push(info).drop_last() =~= s);
            assert forall|i: int| 0 <= i < self.total_slots() implies #[trigger] self.slot_ok(
                i,
            ) by {
                if i < s.len() {
                    assert(old(self).slot_ok(i));
                }
            }
        }
        Some(total)
    }

    /// The payload of the tuple at `rid`, or `InvalidInput` when the record
    /// id names another page, an out-of-range slot, or a tombstoned tuple.
    pub fn get_tuple(&self, rid: &RecordId) -> (r: Result<Tuple, Error>)
        requires
            self.wf(),
        ensures
            rid.page_id != self.page_id ==> r == Err::<Tuple, Error>(Error::InvalidInput),
            rid.page_id == self.page_id && rid.slot_id as int >= self.total_slots() ==> r
                == Err::<Tuple, Error>(Error::InvalidInput),
            rid.page_id == self.page_id && (rid.slot_id as int) < self.total_slots()
                && self.tuple_info@[rid.slot_id as int].metadata.spec_is_deleted() ==> r
                == Err::<Tuple, Error>(Error::InvalidInput),
            rid.page_id == self.page_id && (rid.slot_id as int) < self.total_slots()
                && !self.tuple_info@[rid.slot_id as int].metadata.spec_is_deleted() ==> (
            r matches Ok(t) && t@ == self.data@.subrange(
                self.tuple_info@[rid.slot_id as int].offset as int,
                self.tuple_info@[rid.slot_id as int].offset
                    + self.tuple_info@[rid.slot_id as int].size_bytes,
            )),
    {
        proof {
            self.lemma_tuple_count_invariant();
            self.lemma_tuple_regions();
        }
        if rid.page_id != self.page_id {
            return Err(Error::InvalidInput);
        }
        let total = self.total_tuple_count();
        if rid.slot_id >= total {
            return Err(Error::InvalidInput);
        }
        let info = self.tuple_info[rid.slot_id as usize];
        if info.metadata.is_deleted() {
            return Err(Error::InvalidInput);
        }
        let payload = copy_bytes(&self.data, info.offset as usize, info.size_bytes as usize);
        Ok(Tuple::new(payload))
    }

    /// The metadata of the slot at `rid`, or `InvalidInput` when the record
    /// id names another page or an out-of-range slot.
    pub fn get_tuple_metadata(&self, rid: &RecordId) -> (r: Result<TupleMetadata, Error>)
        requires
            self.wf(),
        ensures
            rid.page_id != self.page_id ==> r == Err::<TupleMetadata, Error>(Error::InvalidInput),
            rid.page_id == self.page_id && rid.slot_id as int >= self.total_slots() ==> r
                == Err::<TupleMetadata, Error>(Error::InvalidInput),
            rid.page_id == self.page_id && (rid.slot_id as int) < self.total_slots() ==> r == Ok::<
                TupleMetadata,
                Error,
            >(self.tuple_info@[rid.slot_id as int].metadata),
    {
        if rid.page_id != self.page_id {
            return Err(Error::InvalidInput);
        }
        let total = self.total_tuple_count();
        if rid.slot_id >= total {
            return Err(Error::InvalidInput);
        }
        Ok(self.tuple_info[rid.slot_id as usize].metadata)
    }

    /// Replaces the metadata of the slot at `rid`, adjusting the live and
    /// deleted counters when the tombstone bit flips.
    pub fn update_tuple_metadata(&mut self, metadata: &TupleMetadata, rid: &RecordId) -> (r: Result<
        (),
        Error,
    >)
        requires
            old(self).wf(),
        ensures
            final(self).wf(),
            rid.page_id != old(self).page_id ==> r == Err::<(), Error>(Error::InvalidInput)
                && *final(self) == *old(self),
            rid.page_id == old(self).page_id && rid.slot_id as int >= old(self).total_slots() ==> r
                == Err::<(), Error>(Error::InvalidInput) && *final(self) == *old(self),
            rid.page_id == old(self).page_id && (rid.slot_id as int) < old(self).total_slots() ==> {
                let i = rid.slot_id as int;
                let was = old(self).tuple_info@[i].metadata.spec_is_deleted();
                let now = metadata.spec_is_deleted();
                &&& r is Ok
                &&& final(self).tuple_info@ =~= old(self).tuple_info@.update(
                    i,
                    TupleInfo { metadata: *metadata, ..old(self).tuple_info@[i] },
                )
                &&& final(self).tuple_cnt == old(self).tuple_cnt + (
                if was && !now {
                    1int
                } else if !was && now {
                    -1int
                } else {
                    0int
                })
                &&& final(self).deleted_tuple_cnt == old(self).deleted_tuple_cnt + (
                if was && !now {
                    -1int
                } else if !was && now {
                    1int
                } else {
                    0int
                })
                &&& final(self).data@ == old(self).data@
                &&& final(self).page_id == old(self).page_id
                &&& final(self).next_page_id == old(self).next_page_id
            },
    {
        proof {
            self.lemma_tuple_count_invariant();
        }
        if rid.page_id != self.page_id {
            return Err(Error::InvalidInput);
        }
        let total = self.total_tuple_count();
        if rid.slot_id >= total {
            return Err(Error::InvalidInput);
        }
        let slot = rid.slot_id as usize;
        let old_meta = self.tuple_info[slot].metadata;
        proof {
            lemma_counts_split(self.tuple_info@, slot as int);
        }
        self.update_tuple_cnt(&old_meta.is_deleted(), &metadata.is_deleted());
        let prev = self.tuple_info[slot];
        self.tuple_info.set(
            slot,
            TupleInfo { offset: prev.offset, size_bytes: prev.size_bytes, metadata: *metadata },
        );
        proof {
            lemma_counts_update(
                old(self).tuple_info@,
                slot as int,
                TupleInfo { metadata: *metadata, ..old(self).tuple_info@[slot as int] },
            );
            assert forall|i: int| 0 <= i < self.total_slots() implies #[trigger] self.slot_ok(
                i,
            ) by {
                assert(old(self).slot_ok(i));
            }
            assert(self.tuples_end() == old(self).tuples_end());
        }
        Ok(())
    }

    /// Overwrites the payload and metadata of the slot at `rid` in place;
    /// only payloads of the slot's exact size are supported.
    pub fn update_tuple_in_place_unchecked(
        &mut self,
        meta: TupleMetadata,
        tuple: Tuple,
        rid: &RecordId,
    ) -> (r: Result<(), Error>)
        requires
            old(self).wf(),
            (rid.slot_id as int) < old(self).total_slots(),
            tuple@.len() == old(self).tuple_info@[rid.slot_id as int].size_bytes,
        ensures
            final(self).wf(),
            r is Ok,
            ({
                let i = rid.slot_id as int;
                let off = old(self).tuple_info@[i].offset as int;
                let was = old(self).tuple_info@[i].metadata.spec_is_deleted();
                let now = meta.spec_is_deleted();
                &&& final(self).tuple_info@ =~= old(self).tuple_info@.update(
                    i,
                    TupleInfo { metadata: meta, ..old(self).tuple_info@[i] },
                )
                &&& final(self).data@ =~= old(self).data@.take(off) + tuple@ + old(
                    self,
                ).data@.skip(off + tuple@.len())
                &&& final(self).tuple_cnt == old(self).tuple_cnt + (
                if was && !now {
                    1int
                } else if !was && now {
                    -1int
                } else {
                    0int
                })
                &&& final(self).deleted_tuple_cnt == old(self).deleted_tuple_cnt + (
                if was && !now {
                    -1int
                } else if !was && now {
                    1int
                } else {
                    0int
                })
                &&& final(self).page_id == old(self).page_id
                &&& final(self).next_page_id == old(self).next_page_id
            }),
    {
        proof {
            self.lemma_tuple_count_invariant();
            self.lemma_tuple_regions();
        }
        let slot = rid.slot_id as usize;
        let old_meta = self.tuple_info[slot].metadata;
        proof {
            lemma_counts_split(self.tuple_info@, slot as int);
        }
        self.update_tuple_cnt(&old_meta.is_deleted(), &meta.is_deleted());
        let prev = self.tuple_info[slot];
        self.tuple_info.set(
            slot,
            TupleInfo { offset: prev.offset, size_bytes: prev.size_bytes, metadata: meta },
        );
        splice_bytes(&mut self.data, prev.offset as usize, &tuple.data);
        proof {
            lemma_counts_update(
                old(self).tuple_info@,
                slot as int,
                TupleInfo { metadata: meta, ..old(self).tuple_info@[slot as int] },
            );
            assert forall|i: int| 0 <= i < self.total_slots() implies #[trigger] self.slot_ok(
                i,
            ) by {
                assert(old(self).slot_ok(i));
            }
            assert(self.tuples_end() == old(self).tuples_end());
        }
        Ok(())
    }

    /// Adjusts the live and deleted counters for a tombstone-bit
    /// transition; any other combination leaves them unchanged.
    pub fn update_tuple_cnt(&mut self, old_meta_delete: &bool, new_meta_delete: &bool)
        requires
            *old_meta_delete && !*new_meta_delete ==> old(self).deleted_tuple_cnt >= 1 && old(
                self,
            ).tuple_cnt < u16::MAX,
            !*old_meta_delete && *new_meta_delete ==> old(self).tuple_cnt >= 1 && old(
                self,
            ).deleted_tuple_cnt < u16::MAX,
        ensures
            *old_meta_delete && !*new_meta_delete ==> final(self).tuple_cnt == old(self).tuple_cnt
                + 1 && final(self).deleted_tuple_cnt == old(self).deleted_tuple_cnt - 1,
            !*old_meta_delete && *new_meta_delete ==> final(self).tuple_cnt == old(self).tuple_cnt
                - 1 && final(self).deleted_tuple_cnt == old(self).deleted_tuple_cnt + 1,
            *old_meta_delete == *new_meta_delete ==> final(self).tuple_cnt == old(self).tuple_cnt
                && final(self).deleted_tuple_cnt == old(self).deleted_tuple_cnt,
            final(self).page_id == old(self).page_id,
            final(self).next_page_id == old(self).next_page_id,
            final(self).data == old(self).data,
            final(self).tuple_info == old(self).tuple_info,
            final(self).is_dirty == old(self).is_dirty,
    {
        match (old_meta_delete, new_meta_delete) {
            (true, false) => {
                self.tuple_cnt = self.tuple_cnt + 1;
                self.deleted_tuple_cnt = self.deleted_tuple_cnt - 1;
            },
            (false, true) => {
                self.tuple_cnt = self.tuple_cnt - 1;
                self.deleted_tuple_cnt = self.deleted_tuple_cnt + 1;
            },
            _ => {},
        }
    }

    /// An iterator over the live tuples of this page, starting at slot 0.
    pub fn iter(&self) -> (r: TablePageIterator)
        ensures
            r.index == 0,
    {
        TablePageIterator { index: 0 }
    }

    /// The placeholder page held by frames that carry no real page.
    pub fn create_invalid_page() -> (r: TablePage)
        ensures
            r.page_id == INVALID_PID,
            r.next_page_id == INVALID_PID,
            r.tuple_info@.len() == 0,
            r.tuple_cnt == 0,
            r.deleted_tuple_cnt == 0,
            !r.is_dirty,
            r.wf(),
    {
        TablePage::new(INVALID_PID, INVALID_PID)
    }

    pub fn is_invalid(&self) -> (r: bool)
        ensures
            r == (self.page_id == INVALID_PID && self.next_page_id == INVALID_PID),
    {
        self.page_id == INVALID_PID && self.next_page_id == INVALID_PID
    }

    pub fn get_is_dirty(&self) -> (r: bool)
        ensures
            r == self.is_dirty,
    {
        self.is_dirty
    }

    /// Sets the dirty bit; reports whether the bit changed.
    pub fn set_is_dirty(&mut self, is_dirty: bool) -> (r: bool)
        ensures
            *final(self) == (TablePage { is_dirty, ..*old(self) }),
            r == (old(self).is_dirty != is_dirty),
    {
        if self.is_dirty != is_dirty {
            self.is_dirty = is_dirty;
            true
        } else {
            false
        }
    }

    pub fn page_id(&self) -> (r: u32)
        ensures
            r == self.page_id,
    {
        self.page_id
    }

    pub fn tuple_count(&self) -> (r: u16)
        ensures
            r == self.tuple_cnt,
    {
        self.tuple_cnt
    }

    pub fn deleted_tuple_count(&self) -> (r: u16)
        ensures
            r == self.deleted_tuple_cnt,
    {
        self.deleted_tuple_cnt
    }
}

/// Counting a directory splits at any index: the counters bound the live
/// and dead entries on either side of it.
proof fn lemma_counts_split(s: Seq<TupleInfo>, i: int)
    requires
        0 <= i < s.len(),
    ensures
        s[i].metadata.spec_is_deleted() ==> dead_count(s) >= 1,
        !s[i].metadata.spec_is_deleted() ==> live_count(s) >= 1,
        live_count(s) <= s.len(),
        dead_count(s) <= s.len(),
    decreases s.len(),
{
    lemma_counts_sum(s);
    if i == s.len() - 1 {
        lemma_counts_sum(s.drop_last());
    } else {
        lemma_counts_split(s.drop_last(), i);
    }
}

/// Copies `src` over `dst` starting at `at`, leaving the rest unchanged.
fn splice_bytes(dst: &mut Vec<u8>, at: usize, src: &Vec<u8>)
    requires
        at + src@.len() <= old(dst)@.len(),
    ensures
        final(dst)@ =~= old(dst)@.take(at as int) + src@ + old(dst)@.skip(at + src@.len()),
        final(dst)@.len() == old(dst)@.len(),
{
    let n = src.len();
    let dlen = dst.len();
    let mut k: usize = 0;
    while k < n
        invariant
            k <= n,
            n == src@.len(),
            at + n <= dlen,
            dlen == dst@.len(),
            dst@.len() == old(dst)@.len(),
            forall|j: int| 0 <= j < at ==> dst@[j] == old(dst)@[j],
            forall|j: int| at <= j < at + k ==> dst@[j] == src@[j - at],
            forall|j: int| at + n <= j < dst@.len() ==> dst@[j] == old(dst)@[j],
            forall|j: int| at + k <= j < at + n ==> dst@[j] == old(dst)@[j],
        decreases n - k,
    {
        dst.set(at + k, src[k]);
        k = k + 1;
    }
}

/// A copy of `len` bytes of `src` starting at `from`.
fn copy_bytes(src: &Vec<u8>, from: usize, len: usize) -> (r: Vec<u8>)
    requires
        from + len <= src@.len(),
    ensures
        r@ =~= src@.subrange(from as int, from + len),
{
    let slen = src.len();
    let mut out: Vec<u8> = Vec::new();
    let mut k: usize = 0;
    while k < len
        invariant
            k <= len,
            from + len <= slen,
            slen == src@.len(),
            out@.len() == k,
            forall|j: int| 0 <= j < k ==> out@[j] == src@[from + j],
        decreases len - k,
    {
        out.push(src[from + k]);
        k = k + 1;
    }
    out
}

/// First live slot at or after `from`, if any.
pub open spec fn first_live(s: Seq<TupleInfo>, from: int) -> Option<int>
    decreases s.len() - from,
{
    if from >= s.len() {
        None
    } else if !s[from].metadata.spec_is_deleted() {
        Some(from)
    } else {
        first_live(s, from + 1)
    }
}

/// A cursor over the live tuples of one table page; mutating the page
/// invalidates it.
pub struct TablePageIterator {
    pub index: u16,
}

impl TablePageIterator {
    pub fn next_page_id(&self, page: &TablePage) -> (r: u32)
        ensures
            r == page.next_page_id,
    {
        page.get_next_page_id()
    }

    /// The tuple at `page_slot`, unless it is tombstoned.
    pub fn tuple_if_exists(&self, page_slot: u16, page: &TablePage) -> (r: Option<(
        RecordId,
        Tuple,
    )>)
        requires
            page.wf(),
            (page_slot as int) < page.total_slots(),
        ensures
            page.tuple_info@[page_slot as int].metadata.spec_is_deleted() ==> r is None,
            !page.tuple_info@[page_slot as int].metadata.spec_is_deleted() ==> (
            r matches Some(p) && p.0 == RecordId { page_id: page.page_id, slot_id: page_slot }
                && p.1@ == page.data@.subrange(
                page.tuple_info@[page_slot as int].offset as int,
                page.tuple_info@[page_slot as int].offset
                    + page.tuple_info@[page_slot as int].size_bytes,
            )),
    {
        if page.tuple_info[page_slot as usize].metadata.is_deleted() {
            None
        } else {
            let rid = RecordId::new(page.page_id, page_slot);
            match page.get_tuple(&rid) {
                Ok(payload) => Some((rid, payload)),
                Err(_) => None,
            }
        }
    }

    /// Advances past tombstones and returns the next live tuple, with its
    /// record id, in slot order; `None` once all slots are exhausted.
    pub fn next(&mut self, page: &TablePage) -> (r: Option<(RecordId, Tuple)>)
        requires
            page.wf(),
        ensures
            match first_live(page.tuple_info@, old(self).index as int) {
                Some(j) => r matches Some(p) && p.0 == RecordId {
                    page_id: page.page_id,
                    slot_id: j as u16,
                } && p.1@ == page.data@.subrange(
                    page.tuple_info@[j].offset as int,
                    page.tuple_info@[j].offset + page.tuple_info@[j].size_bytes,
                ) && final(self).index == j + 1,
                None => r is None && final(self).index as int == (
                if old(self).index as int >= page.total_slots() {
                    old(self).index as int
                } else {
                    page.total_slots()
                }),
            },
    {
        let total = page.total_tuple_count();
        while self.index < total
            invariant
                page.wf(),
                total as int == page.total_slots(),
                old(self).index <= self.index,
                self.index <= total || self.index == old(self).index,
                first_live(page.tuple_info@, old(self).index as int) == first_live(
                    page.tuple_info@,
                    self.index as int,
                ),
            decreases total - self.index,
        {
            let slot = self.index;
            self.index = self.index + 1;
            if let Some(item) = self.tuple_if_exists(slot, page) {
                return Some(item);
            }
        }
        None
    }
}

/// Builds a table page from a page id and an optional successor.
pub struct TablePageBuilder {
    pub page_id: Option<u32>,
    pub next_page_id: Option<u32>,
}

impl TablePageBuilder {
    fn new() -> (r: TablePageBuilder)
        ensures
            r.page_id is None,
            r.next_page_id is None,
    {
        TablePageBuilder { page_id: None, next_page_id: None }
    }

    pub fn page_id(self, page_id: u32) -> (r: Self)
        ensures
            r.page_id == Some(page_id),
            r.next_page_id == self.next_page_id,
    {
        TablePageBuilder { page_id: Some(page_id), ..self }
    }

    pub fn next_page_id(self, next_page_id: u32) -> (r: Self)
        ensures
            r.next_page_id == Some(next_page_id),
            r.page_id == self.page_id,
    {
        TablePageBuilder { next_page_id: Some(next_page_id), ..self }
    }

    /// A fresh, empty page with the configured ids; a page cannot be built
    /// without a page id.
    pub fn build(&self) -> (r: TablePage)
        requires
            self.page_id is Some,
        ensures
            r.page_id == self.page_id->0,
            r.next_page_id == (match self.next_page_id {
                Some(n) => n,
                None => INVALID_PID,
            }),
            r.data@ =~= Seq::new(PAGE_SIZE as nat, |i: int| 0u8),
            r.tuple_cnt == 0,
            r.deleted_tuple_cnt == 0,
            r.tuple_info@.len() == 0,
            !r.is_dirty,
            r.wf(),
    {
        let pid = match self.page_id {
            Some(p) => p,
            None => INVALID_PID,
        };
        let next = match self.next_page_id {
            Some(n) => n,
            None => INVALID_PID,
        };
        TablePage::new(pid, next)
    }
}


/// The serialized form of one slot-directory entry: a tombstone is encoded
/// as four zero bytes, a live slot as its offset and size, little-endian.
pub open spec fn slot_bytes(t: TupleInfo) -> Seq<u8> {
    if t.metadata.spec_is_deleted() {
        seq![0u8, 0u8, 0u8, 0u8]
    } else {
        u16_le(t.offset) + u16_le(t.size_bytes)
    }
}

pub open spec fn slots_bytes(s: Seq<TupleInfo>) -> Seq<u8>
    decreases s.len(),
{
    if s.len() == 0 {
        Seq::empty()
    } else {
        slots_bytes(s.drop_last()) + slot_bytes(s.last())
    }
}

pub proof fn lemma_slots_bytes_len(s: Seq<TupleInfo>)
    ensures
        slots_bytes(s).len() == 4 * s.len(),
    decreases s.len(),
{
    if s.len() > 0 {
        lemma_slots_bytes_len(s.drop_last());
    }
}

pub proof fn lemma_slots_bytes_index(s: Seq<TupleInfo>, i: int, k: int)
    requires
        0 <= i < s.len(),
        0 <= k < 4,
    ensures
        slots_bytes(s)[4 * i + k] == slot_bytes(s[i])[k],
    decreases s.len(),
{
    lemma_slots_bytes_len(s);
    lemma_slots_bytes_len(s.drop_last());
    if i == s.len() - 1 {
    } else {
        lemma_slots_bytes_index(s.drop_last(), i, k);
    }
}

/// A tombstone entry reconstructed from four zero bytes; otherwise a live
/// entry with the encoded offset and size.
pub open spec fn parse_slot(b: Seq<u8>, i: int) -> TupleInfo {
    let off = u16_of_le(b[12 + 4 * i], b[13 + 4 * i]);
    let size = u16_of_le(b[14 + 4 * i], b[15 + 4 * i]);
    TupleInfo {
        offset: off,
        size_bytes: size,
        metadata: TupleMetadata { is_deleted: off == 0 && size == 0 },
    }
}

pub open spec fn parsed_total(b: Seq<u8>) -> int {
    u16_of_le(b[8], b[9]) + u16_of_le(b[10], b[11])
}

/// The observable content of one slot: either a tombstone, or the payload
/// with its placement.
pub enum SlotContent {
    Dead,
    Live(u16, u16, Seq<u8>),
}

/// The observable content of a page image: ids, counters, and each slot's
/// content. A tombstone's stale placement is not observable.
pub open spec fn parse_content(b: Seq<u8>) -> (u32, u32, u16, u16, Seq<SlotContent>) {
    (
        u32_of_le(b[0], b[1], b[2], b[3]),
        u32_of_le(b[4], b[5], b[6], b[7]),
        u16_of_le(b[8], b[9]),
        u16_of_le(b[10], b[11]),
        Seq::new(
            parsed_total(b) as nat,
            |i: int|
                {
                    let t = parse_slot(b, i);
                    if t.metadata.spec_is_deleted() {
                        SlotContent::Dead
                    } else {
                        SlotContent::Live(
                            t.offset,
                            t.size_bytes,
                            b.subrange(t.offset as int, t.offset + t.size_bytes),
                        )
                    }
                },
        ),
    )
}

impl TablePage {
    pub open spec fn slot_content(self, i: int) -> SlotContent {
        let t = self.tuple_info@[i];
        if t.metadata.spec_is_deleted() {
            SlotContent::Dead
        } else {
            SlotContent::Live(
                t.offset,
                t.size_bytes,
                self.data@.subrange(t.offset as int, t.offset + t.size_bytes),
            )
        }
    }

    /// The observable content of this page: ids, counters, and each slot's
    /// tombstone state, placement and payload.
    pub open spec fn content(self) -> (u32, u32, u16, u16, Seq<SlotContent>) {
        (
            self.page_id,
            self.next_page_id,
            self.tuple_cnt,
            self.deleted_tuple_cnt,
            Seq::new(self.tuple_info@.len(), |i: int| self.slot_content(i)),
        )
    }

    /// The 12-byte fixed header followed by the slot directory.
    pub open spec fn header_bytes(self) -> Seq<u8> {
        u32_le(self.page_id) + u32_le(self.next_page_id) + u16_le(self.tuple_cnt) + u16_le(
            self.deleted_tuple_cnt,
        ) + slots_bytes(self.tuple_info@)
    }

    /// The page image: the encoded header and directory, then the byte
    /// region holding the payloads, which is already laid out in `data`.
    pub open spec fn spec_serialize(self) -> Seq<u8> {
        self.header_bytes() + self.data@.skip(self.header_end())
    }

    /// Encodes the header and slot directory over the resident payload
    /// bytes, little-endian throughout; tombstones become zero entries.
    pub fn serialize(&self) -> (r: Vec<u8>)
        requires
            self.wf(),
        ensures
            r@ == self.spec_serialize(),
            r@.len() == PAGE_SIZE,
    {
        proof {
            self.lemma_tuple_count_invariant();
            lemma_slots_bytes_len(self.tuple_info@);
        }
        let mut out: Vec<u8> = Vec::new();
        let pid_bytes = bincode_encode_page_id(self.page_id);
        out.push(pid_bytes[0]);
        out.push(pid_bytes[1]);
        out.push(pid_bytes[2]);
        out.push(pid_bytes[3]);
        out.push(u32_le_byte(self.next_page_id, 0));
        out.push(u32_le_byte(self.next_page_id, 1));
        out.push(u32_le_byte(self.next_page_id, 2));
        out.push(u32_le_byte(self.next_page_id, 3));
        out.push(u16_le_byte(self.tuple_cnt, 0));
        out.push(u16_le_byte(self.tuple_cnt, 1));
        out.push(u16_le_byte(self.deleted_tuple_cnt, 0));
        out.push(u16_le_byte(self.deleted_tuple_cnt, 1));
        let ghost fixed: Seq<u8> = u32_le(self.page_id) + u32_le(self.next_page_id) + u16_le(
            self.tuple_cnt,
        ) + u16_le(self.deleted_tuple_cnt);
        proof {
            assert(out@ =~= fixed);
            assert(slots_bytes(self.tuple_info@.take(0)) =~= Seq::<u8>::empty());
            assert(out@ =~= fixed + slots_bytes(self.tuple_info@.take(0)));
        }
        let total = self.total_tuple_count() as usize;
        let mut i: usize = 0;
        while i < total
            invariant
                i <= total,
                total == self.total_slots(),
                self.wf(),
                out@ =~= fixed + slots_bytes(self.tuple_info@.take(i as int)),
                fixed == u32_le(self.page_id) + u32_le(self.next_page_id) + u16_le(self.tuple_cnt)
                    + u16_le(self.deleted_tuple_cnt),
            decreases total - i,
        {
            let info = self.tuple_info[i];
            if info.metadata.is_deleted() {
                out.push(0u8);
                out.push(0u8);
                out.push(0u8);
                out.push(0u8);
            } else {
                out.push(u16_le_byte(info.offset, 0));
                out.push(u16_le_byte(info.offset, 1));
                out.push(u16_le_byte(info.size_bytes, 0));
                out.push(u16_le_byte(info.size_bytes, 1));
            }
            i = i + 1;
            proof {
                let t = self.tuple_info@.take(i as int);
                assert(t.drop_last() =~= self.tuple_info@.take(i - 1));
                assert(t.last() == self.tuple_info@[i - 1]);
                assert(out@ =~= fixed + slots_bytes(t));
            }
        }
        proof {
            assert(self.tuple_info@.take(total as int) =~= self.tuple_info@);
            assert(out@ =~= self.header_bytes());
            assert(out@.len() == self.header_end());
        }
        let header_len = 12 + 4 * total;
        let mut j: usize = header_len;
        while j < PAGE_SIZE
            invariant
                header_len == self.header_end(),
                header_len <= j <= PAGE_SIZE,
                self.wf(),
                out@ =~= self.header_bytes() + self.data@.subrange(header_len as int, j as int),
            decreases PAGE_SIZE - j,
        {
            out.push(self.data[j]);
            j = j + 1;
            proof {
                assert(self.data@.subrange(header_len as int, j as int) =~= self.data@.subrange(
                    header_len as int,
                    j - 1,
                ).push(self.data@[j - 1]));
                assert(out@ =~= self.header_bytes() + self.data@.subrange(
                    header_len as int,
                    j as int,
                ));
            }
        }
        proof {
            assert(self.data@.subrange(header_len as int, PAGE_SIZE as int) =~= self.data@.skip(
                self.header_end(),
            ));
            assert(out@ =~= self.spec_serialize());
        }
        out
    }

    /// Rebuilds a page from a page image: the header and slot directory
    /// are decoded, a zero entry becomes a tombstone, and the raw bytes are
    /// kept as the payload region.
    pub fn deserialize(buffer: &[u8]) -> (r: TablePage)
        requires
            buffer@.len() == PAGE_SIZE,
            12 + 4 * parsed_total(buffer@) <= PAGE_SIZE,
        ensures
            r.page_id == u32_of_le(buffer@[0], buffer@[1], buffer@[2], buffer@[3]),
            r.next_page_id == u32_of_le(buffer@[4], buffer@[5], buffer@[6], buffer@[7]),
            r.tuple_cnt == u16_of_le(buffer@[8], buffer@[9]),
            r.deleted_tuple_cnt == u16_of_le(buffer@[10], buffer@[11]),
            r.tuple_info@.len() == parsed_total(buffer@),
            forall|i: int| 0 <= i < parsed_total(buffer@) ==> #[trigger] r.tuple_info@[i]
                == parse_slot(buffer@, i),
            r.data@ == buffer@,
            !r.is_dirty,
            r.content() == parse_content(buffer@),
    {
        let page_id = bincode_decode_page_id(buffer);
        let next_page_id = crate::codec::u32_from_le(buffer[4], buffer[5], buffer[6], buffer[7]);
        let tuple_cnt = u16_from_le(buffer[8], buffer[9]);
        let deleted_tuple_cnt = u16_from_le(buffer[10], buffer[11]);
        let total: usize = tuple_cnt as usize + deleted_tuple_cnt as usize;
        let mut tuple_info: Vec<TupleInfo> = Vec::new();
        let mut i: usize = 0;
        while i < total
            invariant
                i <= total,
                total == parsed_total(buffer@),
                buffer@.len() == PAGE_SIZE,
                12 + 4 * parsed_total(buffer@) <= PAGE_SIZE,
                tuple_info@.len() == i,
                forall|k: int| 0 <= k < i ==> #[trigger] tuple_info@[k] == parse_slot(buffer@, k),
            decreases total - i,
        {
            let base = 12 + 4 * i;
            let off = u16_from_le(buffer[base], buffer[base + 1]);
            let size = u16_from_le(buffer[base + 2], buffer[base + 3]);
            let deleted = off == 0 && size == 0;
            tuple_info.push(
                TupleInfo { offset: off, size_bytes: size, metadata: TupleMetadata::new(deleted) },
            );
            i = i + 1;
        }
        let mut data: Vec<u8> = Vec::new();
        let mut j: usize = 0;
        while j < PAGE_SIZE
            invariant
                j <= PAGE_SIZE,
                buffer@.len() == PAGE_SIZE,
                data@.len() == j,
                forall|k: int| 0 <= k < j ==> data@[k] == buffer@[k],
            decreases PAGE_SIZE - j,
        {
            data.push(buffer[j]);
            j = j + 1;
        }
        proof {
            assert(data@ =~= buffer@);
        }
        let page = TablePage {
            page_id,
            next_page_id,
            data,
            tuple_cnt,
            deleted_tuple_cnt,
            tuple_info,
            is_dirty: false,
        };
        proof {
            assert(Seq::new(page.tuple_info@.len(), |i: int| page.slot_content(i)) =~= Seq::new(
                parsed_total(buffer@) as nat,
                |i: int|
                    {
                        let t = parse_slot(buffer@, i);
                        if t.metadata.spec_is_deleted() {
                            SlotContent::Dead
                        } else {
                            SlotContent::Live(
                                t.offset,
                                t.size_bytes,
                                buffer@.subrange(t.offset as int, t.offset + t.size_bytes),
                            )
                        }
                    },
            ));
        }
        page
    }

    /// Serialization followed by deserialization preserves the observable
    /// content of any well-formed page: its ids, its counters, and each
    /// slot's tombstone state, placement and payload.
    pub proof fn lemma_serialize_round_trip(self)
        requires
            self.wf(),
        ensures
            parse_content(self.spec_serialize()) == self.content(),
    {
        let b = self.spec_serialize();
        let n = self.total_slots();
        self.lemma_tuple_count_invariant();
        self.lemma_tuple_regions();
        lemma_slots_bytes_len(self.tuple_info@);
        assert(self.header_bytes().len() == self.header_end());
        assert(b.len() == PAGE_SIZE);
        // the twelve fixed bytes decode to the ids and counters
        assert forall|k: int| 0 <= k < self.header_end() implies b[k]
            == self.header_bytes()[k] by {}
        crate::codec::lemma_u32_le_roundtrip(self.page_id);
        crate::codec::lemma_u32_le_roundtrip(self.next_page_id);
        crate::codec::lemma_u16_le_roundtrip(self.tuple_cnt);
        crate::codec::lemma_u16_le_roundtrip(self.deleted_tuple_cnt);
        assert(b[0] == u32_le(self.page_id)[0]);
        assert(b[1] == u32_le(self.page_id)[1]);
        assert(b[2] == u32_le(self.page_id)[2]);
        assert(b[3] == u32_le(self.page_id)[3]);
        assert(b[4] == u32_le(self.next_page_id)[0]);
        assert(b[5] == u32_le(self.next_page_id)[1]);
        assert(b[6] == u32_le(self.next_page_id)[2]);
        assert(b[7] == u32_le(self.next_page_id)[3]);
        assert(b[8] == u16_le(self.tuple_cnt)[0]);
        assert(b[9] == u16_le(self.tuple_cnt)[1]);
        assert(b[10] == u16_le(self.deleted_tuple_cnt)[0]);
        assert(b[11] == u16_le(self.deleted_tuple_cnt)[1]);
        assert(parsed_total(b) == n);
        // payload bytes are carried through unchanged
        assert forall|j: int| self.header_end() <= j < PAGE_SIZE implies b[j]
            == self.data@[j] by {
            assert(b[j] == self.data@.skip(self.header_end())[j - self.header_end()]);
        }
        // each directory entry decodes to the slot it was encoded from
        assert forall|i: int| 0 <= i < n implies self.slot_content(i) == {
            let t = parse_slot(b, i);
            if t.metadata.spec_is_deleted() {
                SlotContent::Dead
            } else {
                SlotContent::Live(
                    t.offset,
                    t.size_bytes,
                    b.subrange(t.offset as int, t.offset + t.size_bytes),
                )
            }
        } by {
            let s = self.tuple_info@;
            assert(b[12 + 4 * i] == slots_bytes(s)[4 * i + 0]);
            assert(b[13 + 4 * i] == slots_bytes(s)[4 * i + 1]);
            assert(b[14 + 4 * i] == slots_bytes(s)[4 * i + 2]);
            assert(b[15 + 4 * i] == slots_bytes(s)[4 * i + 3]);
            lemma_slots_bytes_index(s, i, 0);
            lemma_slots_bytes_index(s, i, 1);
            lemma_slots_bytes_index(s, i, 2);
            lemma_slots_bytes_index(s, i, 3);
            let t = parse_slot(b, i);
            if s[i].metadata.spec_is_deleted() {
                assert(u16_of_le(0u8, 0u8) == 0) by (bit_vector);
                assert(t.offset == 0 && t.size_bytes == 0);
            } else {
                crate::codec::lemma_u16_le_roundtrip(s[i].offset);
                crate::codec::lemma_u16_le_roundtrip(s[i].size_bytes);
                assert(t.offset == s[i].offset);
                assert(t.size_bytes == s[i].size_bytes);
                assert(s[i].offset >= self.header_end());
                assert(t.offset != 0 || t.size_bytes != 0);
                assert(b.subrange(t.offset as int, t.offset + t.size_bytes)
                    =~= self.data@.subrange(s[i].offset as int, s[i].offset + s[i].size_bytes));
            }
        }
        assert(Seq::new(parsed_total(b) as nat, |i: int| {
            let t = parse_slot(b, i);
            if t.metadata.spec_is_deleted() {
                SlotContent::Dead
            } else {
                SlotContent::Live(
                    t.offset,
                    t.size_bytes,
                    b.subrange(t.offset as int, t.offset + t.size_bytes),
                )
            }
        }) =~= Seq::new(self.tuple_info@.len(), |i: int| self.slot_content(i)));
    }
}


/// Equality of everything a page stores durably: the dirty bit is
/// in-memory bookkeeping and not part of the page.
pub open spec fn page_eq_mod_dirty(a: TablePage, b: TablePage) -> bool {
    &&& a.page_id == b.page_id
    &&& a.next_page_id == b.next_page_id
    &&& a.data@ == b.data@
    &&& a.tuple_cnt == b.tuple_cnt
    &&& a.deleted_tuple_cnt == b.deleted_tuple_cnt
    &&& a.tuple_info@ == b.tuple_info@
}

impl Clone for TablePage {
    fn clone(&self) -> (r: Self)
        ensures
            page_eq_mod_dirty(r, *self),
            r.is_dirty == self.is_dirty,
            self.wf() ==> r.wf(),
    {
        let dlen = self.data.len();
        let mut data: Vec<u8> = Vec::new();
        let mut i: usize = 0;
        while i < dlen
            invariant
                i <= dlen,
                dlen == self.data@.len(),
                data@.len() == i,
                forall|j: int| 0 <= j < i ==> data@[j] == self.data@[j],
            decreases dlen - i,
        {
            data.push(self.data[i]);
            i = i + 1;
        }
        let ilen = self.tuple_info.len();
        let mut tuple_info: Vec<TupleInfo> = Vec::new();
        let mut t: usize = 0;
        while t < ilen
            invariant
                t <= ilen,
                ilen == self.tuple_info@.len(),
                tuple_info@.len() == t,
                forall|j: int| 0 <= j < t ==> tuple_info@[j] == self.tuple_info@[j],
            decreases ilen - t,
        {
            tuple_info.push(self.tuple_info[t]);
            t = t + 1;
        }
        proof {
            assert(data@ =~= self.data@);
            assert(tuple_info@ =~= self.tuple_info@);
        }
        let r = TablePage {
            page_id: self.page_id,
            next_page_id: self.next_page_id,
            data,
            tuple_cnt: self.tuple_cnt,
            deleted_tuple_cnt: self.deleted_tuple_cnt,
            tuple_info,
            is_dirty: self.is_dirty,
        };
        proof {
            if self.wf() {
                assert forall|i: int| 0 <= i < r.total_slots() implies #[trigger] r.slot_ok(
                    i,
                ) by {
                    assert(self.slot_ok(i));
                }
            }
        }
        r
    }
}


/// Pages equal up to the dirty bit are equally well-formed.
pub proof fn lemma_wf_mod_dirty(a: TablePage, b: TablePage)
    requires
        page_eq_mod_dirty(a, b),
        b.wf(),
    ensures
        a.wf(),
{
    assert forall|i: int| 0 <= i < a.total_slots() implies #[trigger] a.slot_ok(i) by {
        assert(b.slot_ok(i));
    }
}

} // verus!
