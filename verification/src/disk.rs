use vstd::prelude::*;
use crate::table_page::{TablePage, page_eq_mod_dirty, INVALID_PID};

verus! {

/// The page store under the buffer pool: it allocates, reads, writes and
/// deallocates whole pages by page id. Allocation is append-only, so a page
/// id never outlives its slot; a deallocated slot stays reserved.
#[derive(Debug)]
pub struct DiskManager {
    pub pages: Vec<Option<TablePage>>,
}

impl DiskManager {
    /// Every stored page is well-formed, clean, and lies at its own id.
    pub open spec fn wf(self) -> bool {
        &&& self.pages@.len() <= INVALID_PID
        &&& forall|p: int|
            0 <= p < self.pages@.len() && self.pages@[p] is Some ==> (
            #[trigger] self.pages@[p]->0).wf() && self.pages@[p]->0.page_id == p
                && !self.pages@[p]->0.is_dirty
    }

    pub open spec fn is_allocated(self, pid: u32) -> bool {
        pid < self.pages@.len() && self.pages@[pid as int] is Some
    }

    pub open spec fn spec_page(self, pid: u32) -> TablePage {
        self.pages@[pid as int]->0
    }

    pub open spec fn next_id(self) -> int {
        self.pages@.len() as int
    }

    pub open spec fn can_allocate(self) -> bool {
        self.pages@.len() < INVALID_PID
    }

    pub fn new() -> (r: DiskManager)
        ensures
            r.wf(),
            r.pages@.len() == 0,
    {
        DiskManager { pages: Vec::new() }
    }

    /// Reserves the next page id and stores a fresh, empty page under it.
    pub fn allocate_new_page(&mut self) -> (r: u32)
        requires
            old(self).wf(),
            old(self).can_allocate(),
        ensures
            final(self).wf(),
            r as int == old(self).next_id(),
            final(self).pages@.len() == old(self).pages@.len() + 1,
            final(self).is_allocated(r),
            final(self).spec_page(r).page_id == r,
            final(self).spec_page(r).next_page_id == INVALID_PID,
            final(self).spec_page(r).tuple_info@.len() == 0,
            final(self).spec_page(r).tuple_cnt == 0,
            final(self).spec_page(r).deleted_tuple_cnt == 0,
            !final(self).spec_page(r).is_dirty,
            final(self).spec_page(r).wf(),
            forall|p: int| 0 <= p < old(self).pages@.len()
                ==> final(self).pages@[p] == old(self).pages@[p],
    {
        let pid = self.pages.len() as u32;
        let page = TablePage::builder().page_id(pid).build();
        self.pages.push(Some(page));
        pid
    }

    /// A copy of the page stored under `page_id`; reading a page that was
    /// never allocated is not meaningful.
    pub fn read_page(&self, page_id: &u32) -> (r: TablePage)
        requires
            self.wf(),
            self.is_allocated(*page_id),
        ensures
            page_eq_mod_dirty(r, self.spec_page(*page_id)),
            !r.is_dirty,
            r.wf(),
            r.page_id == *page_id,
    {
        match &self.pages[*page_id as usize] {
            Some(page) => page.clone(),
            None => TablePage::create_invalid_page(),
        }
    }

    /// Stores the durable content of `page` under its page id; the dirty
    /// bit is in-memory state and is not stored.
    pub fn write_page(&mut self, page: TablePage)
        requires
            old(self).wf(),
            page.wf(),
            old(self).is_allocated(page.page_id),
        ensures
            final(self).wf(),
            final(self).pages@.len() == old(self).pages@.len(),
            final(self).is_allocated(page.page_id),
            page_eq_mod_dirty(final(self).spec_page(page.page_id), page),
            !final(self).spec_page(page.page_id).is_dirty,
            forall|p: int|
                0 <= p < old(self).pages@.len() && p != page.page_id as int
                    ==> final(self).pages@[p] == old(self).pages@[p],
    {
        let pid = page.page_id as usize;
        let mut stored = page;
        stored.is_dirty = false;
        proof {
            assert(stored.wf()) by {
                assert forall|i: int| 0 <= i < stored.total_slots() implies #[trigger] stored.slot_ok(i) by {
                    assert(page.slot_ok(i));
                }
            }
        }
        self.pages.set(pid, Some(stored));
    }

    /// Releases the slot of `page_id`; the id stays reserved and is not
    /// handed out again.
    pub fn deallocate_page(&mut self, page_id: &u32)
        requires
            old(self).wf(),
            old(self).is_allocated(*page_id),
        ensures
            final(self).wf(),
            final(self).pages@ =~= old(self).pages@.update(*page_id as int, None::<TablePage>),
            !final(self).is_allocated(*page_id),
    {
        self.pages.set(*page_id as usize, None);
    }
}

} // verus!
