use vstd::prelude::*;
use crate::disk::DiskManager;
use crate::replacer::{AccessType, FrameId, LRUKReplacer};
use crate::table_page::{TablePage, page_eq_mod_dirty, INVALID_PID};

verus! {

/// Frame bookkeeping: which frame a page occupies and how many callers
/// have it pinned.
#[derive(Copy, Clone, Debug)]
pub struct FrameMetadata {
    pub frame_id: FrameId,
    pub pin_count: usize,
}

impl FrameMetadata {
    pub fn new(frame_id: FrameId) -> (r: Self)
        ensures
            r.frame_id == frame_id,
            r.pin_count == 0,
    {
        Self { frame_id, pin_count: 0 }
    }

    pub fn pin_count(&self) -> (r: usize)
        ensures
            r == self.pin_count,
    {
        self.pin_count
    }

    pub fn increment_pin_count(&mut self)
        requires
            old(self).pin_count < usize::MAX,
        ensures
            final(self).pin_count == old(self).pin_count + 1,
            final(self).frame_id == old(self).frame_id,
    {
        self.pin_count = self.pin_count + 1;
    }

    pub fn decrement_pin_count(&mut self)
        requires
            old(self).pin_count >= 1,
        ensures
            final(self).pin_count == old(self).pin_count - 1,
            final(self).frame_id == old(self).frame_id,
    {
        self.pin_count = self.pin_count - 1;
    }

    pub fn frame_id(&self) -> (r: &FrameId)
        ensures
            *r == self.frame_id,
    {
        &self.frame_id
    }
}

/// One page-table entry: a resident page id and its frame bookkeeping.
#[derive(Copy, Clone, Debug)]
pub struct PtEntry {
    pub page_id: u32,
    pub meta: FrameMetadata,
}

pub open spec fn pt_has(s: Seq<PtEntry>, pid: u32) -> bool {
    exists|j: int| 0 <= j < s.len() && s[j].page_id == pid
}

pub open spec fn pt_idx(s: Seq<PtEntry>, pid: u32) -> int {
    choose|j: int| 0 <= j < s.len() && s[j].page_id == pid
}

pub open spec fn pt_keys_unique(s: Seq<PtEntry>) -> bool {
    forall|i: int, j: int| 0 <= i < j < s.len() ==> s[i].page_id != s[j].page_id
}

/// Whether some page-table entry occupies frame `f`.
pub open spec fn pt_has_frame(s: Seq<PtEntry>, f: int) -> bool {
    exists|j: int| 0 <= j < s.len() && s[j].meta.frame_id == f
}

/// Whether the frame list contains `f`.
pub open spec fn list_has(s: Seq<FrameId>, f: int) -> bool {
    exists|i: int| 0 <= i < s.len() && s[i] == f
}

pub proof fn lemma_pt_idx_is(s: Seq<PtEntry>, pid: u32, j: int)
    requires
        pt_keys_unique(s),
        0 <= j < s.len(),
        s[j].page_id == pid,
    ensures
        pt_has(s, pid),
        pt_idx(s, pid) == j,
{
    assert(pt_has(s, pid));
    let i = pt_idx(s, pid);
    if i != j {
        assert(s[i].page_id != s[j].page_id);
    }
}

/// The buffer pool: a fixed array of frames, each holding at most one
/// page; a page table mapping resident page ids to frames; an LRU-K
/// replacer choosing eviction victims; and the free list of unused frames.
#[derive(Debug)]
pub struct BufferPoolManager {
    /// Number of frames in the pool.
    pub pool_size: usize,
    /// The page resident in each frame; free frames hold a placeholder.
    pub pages: Vec<TablePage>,
    /// Maps resident page ids to frame metadata.
    pub page_table: Vec<PtEntry>,
    /// The page store under the pool.
    pub disk_manager: DiskManager,
    /// Chooses unpinned frames for replacement.
    pub replacer: LRUKReplacer,
    /// Frames that hold no page.
    pub free_list: Vec<FrameId>,
}

impl BufferPoolManager {
    pub open spec fn pt(self) -> Seq<PtEntry> {
        self.page_table@
    }

    pub open spec fn mapped(self, pid: u32) -> bool {
        pt_has(self.pt(), pid)
    }

    pub open spec fn frame_of(self, pid: u32) -> int {
        self.pt()[pt_idx(self.pt(), pid)].meta.frame_id as int
    }

    pub open spec fn pin_of(self, pid: u32) -> int {
        self.pt()[pt_idx(self.pt(), pid)].meta.pin_count as int
    }

    /// The resident page holding `pid`.
    pub open spec fn page_of(self, pid: u32) -> TablePage {
        self.pages@[self.frame_of(pid)]
    }

    pub open spec fn frame_mapped(self, f: int) -> bool {
        pt_has_frame(self.pt(), f)
    }

    pub open spec fn free_has(self, f: int) -> bool {
        list_has(self.free_list@, f)
    }

    /// The storage half of well-formedness: frames, page table, free list
    /// and page store are mutually consistent.
    pub open spec fn wf_storage(self) -> bool {
        &&& self.pages@.len() == self.pool_size
        &&& self.disk_manager.wf()
        &&& pt_keys_unique(self.pt())
        &&& forall|j: int| 0 <= j < self.pt().len() ==> (#[trigger] self.pt()[j]).meta.frame_id
            < self.pool_size
        &&& forall|j1: int, j2: int| 0 <= j1 < j2 < self.pt().len()
            ==> self.pt()[j1].meta.frame_id != self.pt()[j2].meta.frame_id
        &&& forall|i: int| 0 <= i < self.free_list@.len() ==> (#[trigger] self.free_list@[i])
            < self.pool_size
        &&& forall|i1: int, i2: int| 0 <= i1 < i2 < self.free_list@.len()
            ==> self.free_list@[i1] != self.free_list@[i2]
        &&& forall|f: int|
            0 <= f < self.pool_size ==> ((#[trigger] list_has(self.free_list@, f)) <==> !pt_has_frame(
                self.pt(),
                f,
            ))
        &&& forall|j: int|
            0 <= j < self.pt().len() ==> self.pages@[(
            #[trigger] self.pt()[j]).meta.frame_id as int].page_id == self.pt()[j].page_id
        &&& forall|f: int| 0 <= f < self.pool_size ==> (#[trigger] self.pages@[f]).wf()
        &&& forall|j: int|
            0 <= j < self.pt().len() ==> self.disk_manager.is_allocated(
                (#[trigger] self.pt()[j]).page_id,
            )
    }

    /// The policy half: the replacer tracks exactly the resident frames,
    /// and a resident frame is evictable exactly when its pin count is
    /// zero.
    pub open spec fn replacer_sync(self) -> bool {
        &&& self.replacer.wf()
        &&& self.replacer.max_size == self.pool_size
        &&& forall|f: int| self.replacer.known(f) ==> pt_has_frame(self.pt(), f)
        &&& forall|j: int|
            0 <= j < self.pt().len() ==> self.replacer.known(
                (#[trigger] self.pt()[j]).meta.frame_id as int,
            )
        &&& forall|j: int|
            0 <= j < self.pt().len() ==> (self.replacer.evictable(
                (#[trigger] self.pt()[j]).meta.frame_id as int,
            ) <==> self.pt()[j].meta.pin_count == 0)
    }

    pub open spec fn wf(self) -> bool {
        self.wf_storage() && self.replacer_sync()
    }

    /// Free frames and page-table frames partition the frame range
    /// disjointly: every frame is on exactly one side.
    pub proof fn lemma_frame_partition(self)
        requires
            self.wf(),
        ensures
            forall|f: int|
                0 <= f < self.pool_size ==> ((#[trigger] self.free_has(f)) <==> !self.frame_mapped(
                    f,
                )),
            forall|f: int|
                0 <= f < self.pool_size ==> (self.free_has(f) || self.frame_mapped(f)),
            forall|f: int|
                0 <= f < self.pool_size ==> !(self.free_has(f) && self.frame_mapped(f)),
    {
    }

    pub fn new(pool_size: usize, replacer_k: usize, disk_manager: DiskManager) -> (r: Self)
        requires
            replacer_k >= 1,
            disk_manager.wf(),
        ensures
            r.wf(),
            r.pool_size == pool_size,
            r.free_list@.len() == pool_size,
            r.pt().len() == 0,
            r.disk_manager == disk_manager,
            r.replacer.current_timestamp == 0,
    {
        let mut pages: Vec<TablePage> = Vec::new();
        let mut free_list: Vec<FrameId> = Vec::new();
        let mut i: usize = 0;
        while i < pool_size
            invariant
                i <= pool_size,
                pages@.len() == i,
                free_list@.len() == i,
                forall|f: int| 0 <= f < i ==> (#[trigger] pages@[f]).wf(),
                forall|f: int| 0 <= f < i ==> (#[trigger] free_list@[f]) == f,
            decreases pool_size - i,
        {
            pages.push(TablePage::create_invalid_page());
            free_list.push(i);
            i = i + 1;
        }
        let r = BufferPoolManager {
            pool_size,
            pages,
            page_table: Vec::new(),
            disk_manager,
            replacer: LRUKReplacer::new(pool_size, replacer_k),
            free_list,
        };
        proof {
            assert forall|f: int| 0 <= f < pool_size implies ((#[trigger] list_has(
                r.free_list@,
                f,
            )) <==> !pt_has_frame(r.pt(), f)) by {
                assert(r.free_list@[f] == f);
                assert(list_has(r.free_list@, f));
            }
        }
        r
    }

    pub fn builder() -> (r: BufferPoolManagerBuilder)
        ensures
            r.pool_size is None,
            r.replacer_k is None,
            r.disk_manager is None,
    {
        BufferPoolManagerBuilder { pool_size: None, replacer_k: None, disk_manager: None }
    }

    /// Index of `pid` in the page table, if resident.
    fn lookup(&self, pid: u32) -> (r: Option<usize>)
        requires
            pt_keys_unique(self.pt()),
        ensures
            match r {
                Some(j) => j < self.pt().len() && self.pt()[j as int].page_id == pid
                    && self.mapped(pid) && pt_idx(self.pt(), pid) == j,
                None => !self.mapped(pid),
            },
    {
        let n = self.page_table.len();
        let mut j: usize = 0;
        while j < n
            invariant
                j <= n,
                n == self.pt().len(),
                pt_keys_unique(self.pt()),
                forall|k: int| 0 <= k < j ==> (#[trigger] self.pt()[k]).page_id != pid,
            decreases n - j,
        {
            if self.page_table[j].page_id == pid {
                proof {
                    lemma_pt_idx_is(self.pt(), pid, j as int);
                }
                return Some(j);
            }
            j = j + 1;
        }
        None
    }

    /// Writes the page holding `page_id` to the page store, whether dirty
    /// or not, and clears its dirty bit.
    pub fn flush_page(&mut self, page_id: &u32)
        requires
            old(self).wf_storage(),
            old(self).mapped(*page_id),
        ensures
            final(self).wf_storage(),
            final(self).pool_size == old(self).pool_size,
            final(self).page_table == old(self).page_table,
            final(self).replacer == old(self).replacer,
            final(self).free_list == old(self).free_list,
            page_eq_mod_dirty(
                final(self).disk_manager.spec_page(*page_id),
                old(self).page_of(*page_id),
            ),
            final(self).disk_manager.pages@.len() == old(self).disk_manager.pages@.len(),
            forall|p: int|
                0 <= p < old(self).disk_manager.pages@.len() && p != *page_id as int
                    ==> final(self).disk_manager.pages@[p] == old(self).disk_manager.pages@[p],
            final(self).pages@ =~= old(self).pages@.update(
                old(self).frame_of(*page_id),
                (TablePage { is_dirty: false, ..old(self).page_of(*page_id) }),
            ),
        {
        let j = match self.lookup(*page_id) {
            Some(j) => j,
            None => {
                proof {
                    assert(false);
                }
                0
            },
        };
        let frame = self.page_table[j].meta.frame_id;
        let copy = self.pages[frame].clone();
        proof {
            assert(self.pages@[frame as int].wf());
            assert(copy.page_id == *page_id);
        }
        self.disk_manager.write_page(copy);
        self.pages[frame].is_dirty = false;
        proof {
            assert(self.pages@[frame as int] == (TablePage {
                is_dirty: false,
                ..old(self).page_of(*page_id)
            }));
            assert forall|f: int| 0 <= f < self.pool_size implies (
                #[trigger] self.pages@[f]).wf() by {
                if f == frame as int {
                    crate::table_page::lemma_wf_mod_dirty(
                        self.pages@[f],
                        old(self).pages@[f],
                    );
                }
            }
        }
    }

    /// Flushes every resident page.
    pub fn flush_all_pages(&mut self)
        requires
            old(self).wf(),
        ensures
            final(self).wf(),
            final(self).page_table == old(self).page_table,
            final(self).replacer == old(self).replacer,
            final(self).free_list == old(self).free_list,
            forall|f: int|
                0 <= f < final(self).pool_size ==> !(#[trigger] final(self).pages@[f]).is_dirty
                    || !old(self).frame_mapped(f),
            forall|j: int|
                0 <= j < old(self).pt().len() ==> page_eq_mod_dirty(
                    final(self).disk_manager.spec_page((#[trigger] old(self).pt()[j]).page_id),
                    old(self).page_of(old(self).pt()[j].page_id),
                ),
    {
        let n = self.page_table.len();
        let mut j: usize = 0;
        while j < n
            invariant
                j <= n,
                self.wf_storage(),
                n == self.pt().len(),
                self.page_table == old(self).page_table,
                self.replacer == old(self).replacer,
                self.free_list == old(self).free_list,
                self.pool_size == old(self).pool_size,
                self.disk_manager.pages@.len() == old(self).disk_manager.pages@.len(),
                old(self).replacer_sync(),
                forall|k: int|
                    0 <= k < n ==> (#[trigger] self.pages@[self.pt()[k].meta.frame_id as int])
                        == (if k < j {
                        TablePage {
                            is_dirty: false,
                            ..old(self).pages@[self.pt()[k].meta.frame_id as int]
                        }
                    } else {
                        old(self).pages@[self.pt()[k].meta.frame_id as int]
                    }),
                forall|f: int|
                    0 <= f < self.pool_size && !self.frame_mapped(f) ==> (
                    #[trigger] self.pages@[f]) == old(self).pages@[f],
                forall|k: int|
                    0 <= k < j ==> page_eq_mod_dirty(
                        self.disk_manager.spec_page((#[trigger] self.pt()[k]).page_id),
                        old(self).page_of(self.pt()[k].page_id),
                    ),
                forall|p: int|
                    0 <= p < old(self).disk_manager.pages@.len() && !pt_has(self.pt(), p as u32)
                        ==> (#[trigger] self.disk_manager.pages@[p]) == old(
                        self,
                    ).disk_manager.pages@[p],
            decreases n - j,
        {
            let pid = self.page_table[j].page_id;
            proof {
                lemma_pt_idx_is(self.pt(), pid, j as int);
                assert(old(self).mapped(pid));
                lemma_pt_idx_is(old(self).pt(), pid, j as int);
            }
            let ghost before = *self;
            self.flush_page(&pid);
            proof {
                assert forall|k: int|
                    0 <= k < n implies (#[trigger] self.pages@[self.pt()[k].meta.frame_id as int])
                        == (if k < j + 1 {
                        TablePage {
                            is_dirty: false,
                            ..old(self).pages@[self.pt()[k].meta.frame_id as int]
                        }
                    } else {
                        old(self).pages@[self.pt()[k].meta.frame_id as int]
                    }) by {
                    if k != j as int {
                        assert(self.pt()[k].meta.frame_id != self.pt()[j as int].meta.frame_id);
                    }
                }
                assert forall|k: int|
                    0 <= k < j + 1 implies page_eq_mod_dirty(
                        self.disk_manager.spec_page((#[trigger] self.pt()[k]).page_id),
                        old(self).page_of(self.pt()[k].page_id),
                    ) by {
                    if k < j as int {
                        assert(self.pt()[k].page_id != pid);
                        assert(self.disk_manager.spec_page(self.pt()[k].page_id)
                            == before.disk_manager.spec_page(self.pt()[k].page_id));
                    } else {
                        lemma_pt_idx_is(old(self).pt(), pid, j as int);
                    }
                }
            }
            j = j + 1;
        }
        proof {
            assert(self.replacer_sync());
        }
    }
}

/// Builds a buffer pool from a pool size, a replacer `k`, and the page
/// store it manages.
pub struct BufferPoolManagerBuilder {
    pub pool_size: Option<usize>,
    pub replacer_k: Option<usize>,
    pub disk_manager: Option<DiskManager>,
}

impl BufferPoolManagerBuilder {
    pub fn pool_size(self, pool_size: usize) -> (r: Self)
        ensures
            r.pool_size == Some(pool_size),
            r.replacer_k == self.replacer_k,
            r.disk_manager == self.disk_manager,
    {
        BufferPoolManagerBuilder { pool_size: Some(pool_size), ..self }
    }

    pub fn replacer_k(self, replacer_k: usize) -> (r: Self)
        ensures
            r.replacer_k == Some(replacer_k),
            r.pool_size == self.pool_size,
            r.disk_manager == self.disk_manager,
    {
        BufferPoolManagerBuilder { replacer_k: Some(replacer_k), ..self }
    }

    pub fn disk_manager(self, disk_manager: DiskManager) -> (r: Self)
        ensures
            r.disk_manager == Some(disk_manager),
            r.pool_size == self.pool_size,
            r.replacer_k == self.replacer_k,
    {
        BufferPoolManagerBuilder { disk_manager: Some(disk_manager), ..self }
    }

    /// The configured pool; every part must have been set.
    pub fn build(self) -> (r: BufferPoolManager)
        requires
            self.pool_size is Some,
            self.replacer_k is Some,
            self.replacer_k->0 >= 1,
            self.disk_manager is Some,
            self.disk_manager->0.wf(),
        ensures
            r.wf(),
            r.pool_size == self.pool_size->0,
            r.free_list@.len() == r.pool_size,
            r.pt().len() == 0,
            r.disk_manager == self.disk_manager->0,
    {
        let pool_size = match self.pool_size {
            Some(p) => p,
            None => 1,
        };
        let replacer_k = match self.replacer_k {
            Some(k) => k,
            None => 1,
        };
        let disk_manager = match self.disk_manager {
            Some(d) => d,
            None => DiskManager::new(),
        };
        BufferPoolManager::new(pool_size, replacer_k, disk_manager)
    }
}


pub proof fn lemma_pt_push(s: Seq<PtEntry>, e: PtEntry)
    requires
        pt_keys_unique(s),
        !pt_has(s, e.page_id),
    ensures
        pt_keys_unique(s.push(e)),
        pt_has(s.push(e), e.page_id),
        pt_idx(s.push(e), e.page_id) == s.len(),
        forall|q: u32|
            pt_has(s, q) && q != e.page_id ==> pt_has(s.push(e), q) && s.push(e)[pt_idx(
                s.push(e),
                q,
            )] == s[pt_idx(s, q)],
        forall|q: u32| pt_has(s.push(e), q) ==> q == e.page_id || pt_has(s, q),
        forall|f: int|
            pt_has_frame(s.push(e), f) <==> (pt_has_frame(s, f) || f == e.meta.frame_id as int),
{
    let t = s.push(e);
    assert(t[s.len() as int] == e);
    assert forall|i: int, j: int| 0 <= i < j < t.len() implies t[i].page_id != t[j].page_id by {
        if j < s.len() {
        } else {
            assert(t[i] == s[i]);
            assert(!(0 <= i < s.len() && s[i].page_id == e.page_id));
        }
    }
    assert forall|q: u32| pt_has(s, q) && q != e.page_id implies pt_has(t, q) && t[pt_idx(t, q)]
        == s[pt_idx(s, q)] by {
        let j = pt_idx(s, q);
        assert(0 <= j < s.len() && s[j].page_id == q);
        assert(t[j] == s[j]);
        lemma_pt_idx_is(t, q, j);
        lemma_pt_idx_is(s, q, j);
    }
    assert forall|q: u32| pt_has(t, q) implies q == e.page_id || pt_has(s, q) by {
        let j = pt_idx(t, q);
        if j < s.len() {
            assert(s[j].page_id == q);
        }
    }
    assert forall|f: int| pt_has_frame(t, f) implies (pt_has_frame(s, f) || f
        == e.meta.frame_id as int) by {
        let j = choose|j: int| 0 <= j < t.len() && t[j].meta.frame_id == f;
        if j < s.len() {
            assert(s[j].meta.frame_id == f);
        }
    }
    assert forall|f: int| pt_has_frame(s, f) implies pt_has_frame(t, f) by {
        let j = choose|j: int| 0 <= j < s.len() && s[j].meta.frame_id == f;
        assert(t[j].meta.frame_id == f);
    }
}

pub proof fn lemma_pt_remove(s: Seq<PtEntry>, j: int)
    requires
        pt_keys_unique(s),
        forall|j1: int, j2: int|
            0 <= j1 < j2 < s.len() ==> s[j1].meta.frame_id != s[j2].meta.frame_id,
        0 <= j < s.len(),
    ensures
        pt_keys_unique(s.remove(j)),
        forall|j1: int, j2: int|
            0 <= j1 < j2 < s.remove(j).len() ==> s.remove(j)[j1].meta.frame_id != s.remove(
                j,
            )[j2].meta.frame_id,
        !pt_has(s.remove(j), s[j].page_id),
        forall|q: u32|
            pt_has(s, q) && q != s[j].page_id ==> pt_has(s.remove(j), q) && s.remove(j)[pt_idx(
                s.remove(j),
                q,
            )] == s[pt_idx(s, q)],
        forall|q: u32| pt_has(s.remove(j), q) ==> pt_has(s, q) && q != s[j].page_id,
        forall|f: int|
            pt_has_frame(s.remove(j), f) <==> (pt_has_frame(s, f) && f != s[j].meta.frame_id as int),
{
    let t = s.remove(j);
    assert forall|k: int| 0 <= k < t.len() implies t[k] == (if k < j {
        s[k]
    } else {
        s[k + 1]
    }) by {}
    assert forall|q: u32| pt_has(s, q) && q != s[j].page_id implies pt_has(t, q) && t[pt_idx(t, q)]
        == s[pt_idx(s, q)] by {
        let i = pt_idx(s, q);
        assert(0 <= i < s.len() && s[i].page_id == q);
        assert(i != j);
        let i2: int = if i < j {
            i
        } else {
            i - 1
        };
        assert(t[i2] == s[i]);
        lemma_pt_idx_is(t, q, i2);
        lemma_pt_idx_is(s, q, i);
    }
    assert forall|q: u32| pt_has(t, q) implies pt_has(s, q) && q != s[j].page_id by {
        let i = pt_idx(t, q);
        let i2: int = if i < j {
            i
        } else {
            i + 1
        };
        assert(s[i2] == t[i]);
        assert(s[i2].page_id == q);
        if q == s[j].page_id {
            assert(i2 != j);
        }
    }
    assert forall|f: int| pt_has_frame(t, f) implies (pt_has_frame(s, f) && f
        != s[j].meta.frame_id as int) by {
        let i = choose|i: int| 0 <= i < t.len() && t[i].meta.frame_id == f;
        let i2: int = if i < j {
            i
        } else {
            i + 1
        };
        assert(s[i2].meta.frame_id == f);
        if f == s[j].meta.frame_id as int {
            assert(i2 != j);
        }
    }
    assert forall|f: int| pt_has_frame(s, f) && f != s[j].meta.frame_id as int implies pt_has_frame(
        t,
        f,
    ) by {
        let i = choose|i: int| 0 <= i < s.len() && s[i].meta.frame_id == f;
        assert(i != j);
        let i2: int = if i < j {
            i
        } else {
            i - 1
        };
        assert(t[i2] == s[i]);
    }
}

pub proof fn lemma_pt_update(s: Seq<PtEntry>, j: int, e: PtEntry)
    requires
        pt_keys_unique(s),
        0 <= j < s.len(),
        e.page_id == s[j].page_id,
        e.meta.frame_id == s[j].meta.frame_id,
    ensures
        pt_keys_unique(s.update(j, e)),
        pt_has(s.update(j, e), e.page_id),
        pt_idx(s.update(j, e), e.page_id) == j,
        forall|q: u32| pt_has(s.update(j, e), q) <==> pt_has(s, q),
        forall|q: u32|
            pt_has(s, q) && q != e.page_id ==> s.update(j, e)[pt_idx(s.update(j, e), q)]
                == s[pt_idx(s, q)],
        forall|f: int| pt_has_frame(s.update(j, e), f) <==> pt_has_frame(s, f),
{
    let t = s.update(j, e);
    lemma_pt_idx_is(t, e.page_id, j);
    assert forall|q: u32| pt_has(t, q) implies pt_has(s, q) by {
        let i = pt_idx(t, q);
        if i == j {
            assert(s[j].page_id == q);
        } else {
            assert(s[i].page_id == q);
        }
    }
    assert forall|q: u32| pt_has(s, q) implies pt_has(t, q) by {
        let i = pt_idx(s, q);
        if i == j {
            assert(t[j].page_id == q);
        } else {
            assert(t[i].page_id == q);
        }
    }
    assert forall|q: u32| pt_has(s, q) && q != e.page_id implies t[pt_idx(t, q)] == s[pt_idx(
        s,
        q,
    )] by {
        let i = pt_idx(s, q);
        assert(i != j);
        assert(t[i] == s[i]);
        lemma_pt_idx_is(t, q, i);
    }
    assert forall|f: int| pt_has_frame(t, f) implies pt_has_frame(s, f) by {
        let i = choose|i: int| 0 <= i < t.len() && t[i].meta.frame_id == f;
        if i == j {
            assert(s[j].meta.frame_id == f);
        } else {
            assert(s[i].meta.frame_id == f);
        }
    }
    assert forall|f: int| pt_has_frame(s, f) implies pt_has_frame(t, f) by {
        let i = choose|i: int| 0 <= i < s.len() && s[i].meta.frame_id == f;
        if i == j {
            assert(t[j].meta.frame_id == f);
        } else {
            assert(t[i].meta.frame_id == f);
        }
    }
}

pub proof fn lemma_list_push(s: Seq<FrameId>, x: FrameId)
    ensures
        forall|f: int| list_has(s.push(x), f) <==> (list_has(s, f) || f == x as int),
{
    let t = s.push(x);
    assert(t[s.len() as int] == x);
    assert forall|f: int| list_has(t, f) implies (list_has(s, f) || f == x as int) by {
        let i = choose|i: int| 0 <= i < t.len() && t[i] == f;
        if i < s.len() {
            assert(s[i] == f);
        }
    }
    assert forall|f: int| list_has(s, f) implies list_has(t, f) by {
        let i = choose|i: int| 0 <= i < s.len() && s[i] == f;
        assert(t[i] == f);
    }
}

pub proof fn lemma_list_pop(s: Seq<FrameId>)
    requires
        s.len() > 0,
        forall|i1: int, i2: int| 0 <= i1 < i2 < s.len() ==> s[i1] != s[i2],
    ensures
        forall|f: int| list_has(s.remove(0), f) <==> (list_has(s, f) && f != s[0] as int),
        forall|i1: int, i2: int|
            0 <= i1 < i2 < s.remove(0).len() ==> s.remove(0)[i1] != s.remove(0)[i2],
{
    let t = s.remove(0);
    assert forall|k: int| 0 <= k < t.len() implies t[k] == s[k + 1] by {}
    assert forall|f: int| list_has(t, f) implies (list_has(s, f) && f != s[0] as int) by {
        let i = choose|i: int| 0 <= i < t.len() && t[i] == f;
        assert(s[i + 1] == f);
    }
    assert forall|f: int| list_has(s, f) && f != s[0] as int implies list_has(t, f) by {
        let i = choose|i: int| 0 <= i < s.len() && s[i] == f;
        assert(i != 0);
        assert(t[i - 1] == f);
    }
}

impl BufferPoolManager {
    /// Every mapping of `q` — its frame, pin count and resident page — is
    /// the same in `b` as in `a`.
    pub open spec fn same_mapping(a: Self, b: Self, q: u32) -> bool {
        &&& b.mapped(q)
        &&& b.frame_of(q) == a.frame_of(q)
        &&& b.pin_of(q) == a.pin_of(q)
        &&& b.page_of(q) == a.page_of(q)
    }

    /// Frees one frame by evicting the replacer's victim: a dirty victim
    /// is flushed to the page store first, its mapping is dropped, and the
    /// frame joins the free list.
    fn evict_frame(&mut self) -> (r: Option<FrameId>)
        requires
            old(self).wf(),
        ensures
            final(self).wf(),
            final(self).pool_size == old(self).pool_size,
            final(self).replacer.current_timestamp == old(self).replacer.current_timestamp,
            final(self).disk_manager.pages@.len() == old(self).disk_manager.pages@.len(),
            r is None ==> *final(self) == *old(self) && (forall|g: int|
                !old(self).replacer.evictable(g)),
            r matches Some(f) ==> f < old(self).pool_size && (forall|q: u32|
                #[trigger] final(self).mapped(q) ==> old(self).mapped(q)) && exists|victim: u32|
                {
                    &&& #[trigger] old(self).mapped(victim)
                    &&& old(self).frame_of(victim) == f as int
                    &&& old(self).pin_of(victim) == 0
                    &&& !final(self).mapped(victim)
                    &&& (old(self).page_of(victim).is_dirty ==> page_eq_mod_dirty(
                        final(self).disk_manager.spec_page(victim),
                        old(self).page_of(victim),
                    ))
                    &&& (!old(self).page_of(victim).is_dirty ==> final(self).disk_manager == old(
                        self,
                    ).disk_manager)
                    &&& forall|p: int|
                        0 <= p < old(self).disk_manager.pages@.len() && p != victim as int
                            ==> final(self).disk_manager.pages@[p] == old(
                            self,
                        ).disk_manager.pages@[p]
                    &&& final(self).free_list@ =~= old(self).free_list@.push(f)
                    &&& forall|q: u32|
                        #[trigger] old(self).mapped(q) && q != victim ==> Self::same_mapping(
                            *old(self),
                            *final(self),
                            q,
                        )
                },
    {
        let evicted = self.replacer.evict();
        let frame = match evicted {
            None => {
                return None;
            },
            Some(frame) => frame,
        };
        proof {
            assert(old(self).replacer.evictable(frame as int));
            assert(old(self).replacer.known(frame as int));
            assert(pt_has_frame(self.pt(), frame as int));
        }
        let n = self.page_table.len();
        let mut j: usize = 0;
        while j < n && self.page_table[j].meta.frame_id != frame
            invariant
                j <= n,
                n == self.pt().len(),
                forall|k: int| 0 <= k < j ==> (#[trigger] self.pt()[k]).meta.frame_id != frame,
                pt_has_frame(self.pt(), frame as int),
            decreases n - j,
        {
            j = j + 1;
        }
        proof {
            if j == n {
                let w = choose|k: int|
                    0 <= k < self.pt().len() && self.pt()[k].meta.frame_id == frame as int;
                assert(self.pt()[w].meta.frame_id != frame);
                assert(false);
            }
        }
        let victim_pid = self.page_table[j].page_id;
        let ghost mid = *self;
        proof {
            lemma_pt_idx_is(self.pt(), victim_pid, j as int);
            lemma_pt_idx_is(old(self).pt(), victim_pid, j as int);
            assert(old(self).mapped(victim_pid));
            assert(old(self).frame_of(victim_pid) == frame as int);
            assert(old(self).pin_of(victim_pid) == 0);
        }
        if self.pages[frame].get_is_dirty() {
            self.flush_page(&victim_pid);
        }
        let ghost flushed = *self;
        self.page_table.remove(j);
        self.free_list.push(frame);
        proof {
            lemma_pt_remove(flushed.pt(), j as int);
            lemma_list_push(flushed.free_list@, frame);
            assert(self.pt() =~= flushed.pt().remove(j as int));
            // partition: the victim frame moves from mapped to free
            assert forall|f: int|
                0 <= f < self.pool_size implies ((#[trigger] list_has(self.free_list@, f))
                <==> !pt_has_frame(self.pt(), f)) by {
                assert(list_has(flushed.free_list@, f) <==> !pt_has_frame(flushed.pt(), f));
            }
            // the free list stays duplicate-free: the victim frame was mapped
            assert(!list_has(flushed.free_list@, frame as int));
            assert forall|i1: int, i2: int|
                0 <= i1 < i2 < self.free_list@.len() implies self.free_list@[i1]
                != self.free_list@[i2] by {
                if i2 == self.free_list@.len() - 1 {
                    assert(self.free_list@[i1] == flushed.free_list@[i1]);
                    if self.free_list@[i1] == frame {
                        assert(list_has(flushed.free_list@, frame as int));
                    }
                }
            }
            // replacer sync: the victim's node is gone, the rest unchanged
            assert forall|f: int| self.replacer.known(f) implies pt_has_frame(self.pt(), f) by {
                assert(old(self).replacer.known(f));
                assert(f != frame as int);
                assert(pt_has_frame(flushed.pt(), f));
            }
            assert forall|k: int| 0 <= k < self.pt().len() implies (self.replacer.evictable(
                (#[trigger] self.pt()[k]).meta.frame_id as int,
            ) <==> self.pt()[k].meta.pin_count == 0) by {
                let e = self.pt()[k];
                let k2: int = if k < j as int {
                    k
                } else {
                    k + 1
                };
                assert(e == flushed.pt()[k2]);
                assert(e.meta.frame_id != frame);
                assert(flushed.replacer.evictable(e.meta.frame_id as int) <==> e.meta.pin_count
                    == 0);
                assert(self.replacer.evictable(e.meta.frame_id as int)
                    == flushed.replacer.evictable(e.meta.frame_id as int));
            }
            // the surviving mappings are untouched
            assert forall|q: u32|
                #[trigger] old(self).mapped(q) && q != victim_pid implies Self::same_mapping(
                    *old(self),
                    *self,
                    q,
                ) by {
                assert(pt_has(flushed.pt(), q));
                assert(flushed.pt()[pt_idx(flushed.pt(), q)] == old(self).pt()[pt_idx(
                    old(self).pt(),
                    q,
                )]);
                assert(self.pt()[pt_idx(self.pt(), q)] == flushed.pt()[pt_idx(flushed.pt(), q)]);
                assert(old(self).frame_of(q) != frame as int);
            }
            assert(!pt_has(self.pt(), victim_pid));
        }
        Some(frame)
    }

    /// Allocates a new page, installs it pinned in a frame, and returns
    /// its id; a frame is taken from the free list, else freed by
    /// eviction, flushing the victim if dirty. `None` when every frame is
    /// pinned.
    pub fn new_page(&mut self) -> (r: Option<u32>)
        requires
            old(self).wf(),
            old(self).disk_manager.can_allocate(),
            old(self).replacer.current_timestamp < usize::MAX,
        ensures
            final(self).wf(),
            final(self).pool_size == old(self).pool_size,
            r is None ==> *final(self) == *old(self) && old(self).free_list@.len() == 0 && (
            forall|g: int| !old(self).replacer.evictable(g)),
            r matches Some(pid) ==> {
                &&& pid as int == old(self).disk_manager.next_id()
                &&& final(self).mapped(pid)
                &&& final(self).pin_of(pid) == 1
                &&& final(self).page_of(pid).page_id == pid
                &&& final(self).page_of(pid).next_page_id == INVALID_PID
                &&& final(self).page_of(pid).tuple_info@.len() == 0
                &&& final(self).page_of(pid).tuple_cnt == 0
                &&& final(self).page_of(pid).deleted_tuple_cnt == 0
                &&& !final(self).replacer.evictable(final(self).frame_of(pid))
                &&& final(self).disk_manager.is_allocated(pid)
                &&& (old(self).free_list@.len() > 0 ==> forall|q: u32|
                    #[trigger] old(self).mapped(q) ==> Self::same_mapping(
                        *old(self),
                        *final(self),
                        q,
                    ))
                &&& (old(self).free_list@.len() == 0 ==> exists|victim: u32|
                    {
                        &&& #[trigger] old(self).mapped(victim)
                        &&& old(self).pin_of(victim) == 0
                        &&& !final(self).mapped(victim)
                        &&& (old(self).page_of(victim).is_dirty ==> page_eq_mod_dirty(
                            final(self).disk_manager.spec_page(victim),
                            old(self).page_of(victim),
                        ))
                        &&& forall|q: u32|
                            #[trigger] old(self).mapped(q) && q != victim ==> Self::same_mapping(
                                *old(self),
                                *final(self),
                                q,
                            )
                    })
            },
    {
        let ghost entry_state = *self;
        if self.free_list.len() == 0 {
            let got = self.evict_frame();
            if got.is_none() {
                return None;
            }
        }
        let ghost pre = *self;
        let frame = self.free_list.remove(0);
        proof {
            lemma_list_pop(pre.free_list@, );
            assert(list_has(pre.free_list@, frame as int));
            assert(!pt_has_frame(pre.pt(), frame as int));
        }
        let pid = self.disk_manager.allocate_new_page();
        proof {
            assert(!pt_has(self.pt(), pid)) by {
                if pt_has(self.pt(), pid) {
                    let k = pt_idx(self.pt(), pid);
                    assert(pre.disk_manager.is_allocated(self.pt()[k].page_id));
                }
            }
        }
        let page = self.disk_manager.read_page(&pid);
        self.pages.set(frame, page);
        let mut meta = FrameMetadata::new(frame);
        meta.increment_pin_count();
        self.page_table.push(PtEntry { page_id: pid, meta });
        self.replacer.record_access(&frame, AccessType::Lookup);
        self.replacer.set_evictable(&frame, false);
        proof {
            let pushed = pre.pt().push(PtEntry { page_id: pid, meta });
            assert(self.pt() =~= pushed);
            lemma_pt_push(pre.pt(), PtEntry { page_id: pid, meta });
            lemma_pt_idx_is(self.pt(), pid, pre.pt().len() as int);
            lemma_list_pop(pre.free_list@, );
            // partition: the frame leaves the free list and becomes mapped
            assert forall|f: int|
                0 <= f < self.pool_size implies ((#[trigger] list_has(self.free_list@, f))
                <==> !pt_has_frame(self.pt(), f)) by {
                assert(list_has(pre.free_list@, f) <==> !pt_has_frame(pre.pt(), f));
                assert(list_has(self.free_list@, f) <==> (list_has(pre.free_list@, f) && f
                    != frame as int));
            }
            // replacer sync after the access and the pin
            assert forall|f: int| self.replacer.known(f) implies pt_has_frame(self.pt(), f) by {
                if f != frame as int {
                    assert(pre.replacer.known(f));
                    assert(pt_has_frame(pre.pt(), f));
                }
            }
            assert forall|k: int| 0 <= k < self.pt().len() implies (self.replacer.evictable(
                (#[trigger] self.pt()[k]).meta.frame_id as int,
            ) <==> self.pt()[k].meta.pin_count == 0) by {
                if k < pre.pt().len() {
                    let e = pre.pt()[k];
                    assert(e.meta.frame_id != frame);
                    assert(pre.replacer.evictable(e.meta.frame_id as int) <==> e.meta.pin_count
                        == 0);
                }
            }
            // surviving mappings are untouched
            assert forall|q: u32|
                #[trigger] pre.mapped(q) implies Self::same_mapping(pre, *self, q) by {
                assert(q != pid);
                assert(self.pt()[pt_idx(self.pt(), q)] == pre.pt()[pt_idx(pre.pt(), q)]);
                assert(pre.frame_of(q) != frame as int);
            }
            if old(self).free_list@.len() > 0 {
                assert(pre == entry_state);
            }
        }
        Some(pid)
    }
}


impl BufferPoolManager {
    /// Fetches `page_id`, pinning its frame and disabling its eviction: a
    /// resident page is pinned once more; otherwise the page is read from
    /// the page store into a free frame, or into one freed by eviction.
    /// The caller receives a copy of the resident page. `None` when no
    /// frame can be freed. Fetching a page id that was never allocated is
    /// excluded.
    pub fn fetch_page(&mut self, page_id: &u32) -> (r: Option<TablePage>)
        requires
            old(self).wf(),
            old(self).mapped(*page_id) || old(self).disk_manager.is_allocated(*page_id),
            old(self).mapped(*page_id) ==> old(self).pin_of(*page_id) < usize::MAX,
            old(self).replacer.current_timestamp < usize::MAX,
        ensures
            final(self).wf(),
            final(self).pool_size == old(self).pool_size,
            r is None ==> *final(self) == *old(self) && !old(self).mapped(*page_id) && old(
                self,
            ).free_list@.len() == 0 && (forall|g: int| !old(self).replacer.evictable(g)),
            r matches Some(p) ==> {
                &&& final(self).mapped(*page_id)
                &&& page_eq_mod_dirty(p, final(self).page_of(*page_id))
                &&& !final(self).replacer.evictable(final(self).frame_of(*page_id))
                &&& (old(self).mapped(*page_id) ==> {
                    &&& final(self).pin_of(*page_id) == old(self).pin_of(*page_id) + 1
                    &&& final(self).frame_of(*page_id) == old(self).frame_of(*page_id)
                    &&& final(self).page_of(*page_id) == old(self).page_of(*page_id)
                    &&& final(self).disk_manager == old(self).disk_manager
                    &&& forall|q: u32|
                        #[trigger] old(self).mapped(q) && q != *page_id ==> Self::same_mapping(
                            *old(self),
                            *final(self),
                            q,
                        )
                })
                &&& (!old(self).mapped(*page_id) ==> {
                    &&& final(self).pin_of(*page_id) == 1
                    &&& page_eq_mod_dirty(
                        final(self).page_of(*page_id),
                        old(self).disk_manager.spec_page(*page_id),
                    )
                    &&& !final(self).page_of(*page_id).is_dirty
                    &&& (old(self).free_list@.len() > 0 ==> forall|q: u32|
                        #[trigger] old(self).mapped(q) ==> Self::same_mapping(
                            *old(self),
                            *final(self),
                            q,
                        ))
                    &&& (old(self).free_list@.len() == 0 ==> exists|victim: u32|
                        {
                            &&& #[trigger] old(self).mapped(victim)
                            &&& old(self).pin_of(victim) == 0
                            &&& !final(self).mapped(victim)
                            &&& (old(self).page_of(victim).is_dirty ==> page_eq_mod_dirty(
                                final(self).disk_manager.spec_page(victim),
                                old(self).page_of(victim),
                            ))
                            &&& forall|q: u32|
                                #[trigger] old(self).mapped(q) && q != victim
                                    ==> Self::same_mapping(*old(self), *final(self), q)
                        })
                })
            },
    {
        let ghost entry_state = *self;
        match self.lookup(*page_id) {
            Some(j) => {
                let frame = self.page_table[j].meta.frame_id;
                self.replacer.record_access(&frame, AccessType::Lookup);
                self.replacer.set_evictable(&frame, false);
                let mut e = self.page_table[j];
                e.meta.increment_pin_count();
                self.page_table.set(j, e);
                proof {
                    lemma_pt_idx_is(old(self).pt(), *page_id, j as int);
                    lemma_pt_update(old(self).pt(), j as int, e);
                    assert(self.pt() =~= old(self).pt().update(j as int, e));
                        assert forall|f: int| self.replacer.known(f) implies pt_has_frame(
                        self.pt(),
                        f,
                    ) by {
                        assert(old(self).replacer.known(f));
                        assert(pt_has_frame(old(self).pt(), f));
                        let w = choose|w: int|
                            0 <= w < old(self).pt().len() && old(self).pt()[w].meta.frame_id == f;
                        assert(self.pt()[w].meta.frame_id == f);
                    }
                assert forall|k: int| 0 <= k < self.pt().len() implies self.replacer.known(
                        (#[trigger] self.pt()[k]).meta.frame_id as int,
                    ) by {
                        assert(old(self).replacer.known(old(self).pt()[k].meta.frame_id as int));
                    }
                    assert forall|k: int| 0 <= k < self.pt().len() implies (
                    self.replacer.evictable((#[trigger] self.pt()[k]).meta.frame_id as int)
                        <==> self.pt()[k].meta.pin_count == 0) by {
                        if k != j as int {
                            let ee = old(self).pt()[k];
                            assert(ee.meta.frame_id != frame);
                            assert(old(self).replacer.evictable(ee.meta.frame_id as int)
                                <==> ee.meta.pin_count == 0);
                        }
                    }
                    assert forall|q: u32|
                        #[trigger] old(self).mapped(q) && q != *page_id implies Self::same_mapping(
                            *old(self),
                            *self,
                            q,
                        ) by {
                        assert(self.pt()[pt_idx(self.pt(), q)] == old(self).pt()[pt_idx(
                            old(self).pt(),
                            q,
                        )]);
                    }
                }
                let snapshot = self.pages[frame].clone();
                return Some(snapshot);
            },
            None => {},
        }
        if self.free_list.len() == 0 {
            let got = self.evict_frame();
            if got.is_none() {
                return None;
            }
        }
        let ghost pre = *self;
        let frame = self.free_list.remove(0);
        proof {
            lemma_list_pop(pre.free_list@, );
            assert(list_has(pre.free_list@, frame as int));
            assert(!pt_has_frame(pre.pt(), frame as int));
            assert(!pt_has(pre.pt(), *page_id)) by {
                if pt_has(pre.pt(), *page_id) {
                    assert(pre.mapped(*page_id));
                    assert(old(self).mapped(*page_id));
                }
            }
        }
        let page = self.disk_manager.read_page(page_id);
        self.pages.set(frame, page);
        let mut meta = FrameMetadata::new(frame);
        meta.increment_pin_count();
        self.page_table.push(PtEntry { page_id: *page_id, meta });
        self.replacer.record_access(&frame, AccessType::Lookup);
        self.replacer.set_evictable(&frame, false);
        proof {
            let pushed = pre.pt().push(PtEntry { page_id: *page_id, meta });
            assert(self.pt() =~= pushed);
            lemma_pt_push(pre.pt(), PtEntry { page_id: *page_id, meta });
            lemma_pt_idx_is(self.pt(), *page_id, pre.pt().len() as int);
            assert forall|f: int|
                0 <= f < self.pool_size implies ((#[trigger] list_has(self.free_list@, f))
                <==> !pt_has_frame(self.pt(), f)) by {
                assert(list_has(pre.free_list@, f) <==> !pt_has_frame(pre.pt(), f));
                assert(list_has(self.free_list@, f) <==> (list_has(pre.free_list@, f) && f
                    != frame as int));
            }
            assert forall|f: int| self.replacer.known(f) implies pt_has_frame(self.pt(), f) by {
                if f != frame as int {
                    assert(pre.replacer.known(f));
                    assert(pt_has_frame(pre.pt(), f));
                }
            }
            assert forall|k: int| 0 <= k < self.pt().len() implies self.replacer.known(
                (#[trigger] self.pt()[k]).meta.frame_id as int,
            ) by {
                if k < pre.pt().len() {
                    assert(pre.replacer.known(pre.pt()[k].meta.frame_id as int));
                    assert(pre.pt()[k].meta.frame_id != frame);
                }
            }
            assert forall|k: int| 0 <= k < self.pt().len() implies (self.replacer.evictable(
                (#[trigger] self.pt()[k]).meta.frame_id as int,
            ) <==> self.pt()[k].meta.pin_count == 0) by {
                if k < pre.pt().len() {
                    let e = pre.pt()[k];
                    assert(e.meta.frame_id != frame);
                    assert(pre.replacer.evictable(e.meta.frame_id as int) <==> e.meta.pin_count
                        == 0);
                }
            }
            assert forall|q: u32|
                #[trigger] pre.mapped(q) implies Self::same_mapping(pre, *self, q) by {
                assert(self.pt()[pt_idx(self.pt(), q)] == pre.pt()[pt_idx(pre.pt(), q)]);
                assert(pre.frame_of(q) != frame as int);
            }
            if old(self).free_list@.len() > 0 {
                assert(pre == entry_state);
            }
        }
        let snapshot = self.pages[frame].clone();
        Some(snapshot)
    }

    /// Unpins `page_id` once, merging in the caller's dirty flag; a pin
    /// count that reaches zero makes the frame evictable. Returns `false`
    /// when the page was not pinned. Unpinning an unknown page is
    /// excluded.
    pub fn unpin_page(&mut self, page_id: &u32, is_dirty: bool) -> (r: bool)
        requires
            old(self).wf(),
            old(self).mapped(*page_id),
        ensures
            final(self).wf(),
            final(self).pool_size == old(self).pool_size,
            old(self).pin_of(*page_id) == 0 ==> !r && *final(self) == *old(self),
            old(self).pin_of(*page_id) >= 1 ==> {
                &&& r
                &&& final(self).mapped(*page_id)
                &&& final(self).pin_of(*page_id) == old(self).pin_of(*page_id) - 1
                &&& final(self).frame_of(*page_id) == old(self).frame_of(*page_id)
                &&& final(self).page_of(*page_id) == (TablePage {
                    is_dirty: old(self).page_of(*page_id).is_dirty || is_dirty,
                    ..old(self).page_of(*page_id)
                })
                &&& (old(self).pin_of(*page_id) == 1 ==> final(self).replacer.evictable(
                    final(self).frame_of(*page_id),
                ))
                &&& (old(self).pin_of(*page_id) > 1 ==> final(self).replacer == old(self).replacer)
                &&& final(self).disk_manager == old(self).disk_manager
                &&& final(self).free_list == old(self).free_list
                &&& forall|q: u32|
                    #[trigger] old(self).mapped(q) && q != *page_id ==> Self::same_mapping(
                        *old(self),
                        *final(self),
                        q,
                    )
            },
    {
        let j = match self.lookup(*page_id) {
            Some(j) => j,
            None => {
                proof {
                    assert(false);
                }
                0
            },
        };
        let pin = self.page_table[j].meta.pin_count;
        if pin == 0 {
            return false;
        }
        let frame = self.page_table[j].meta.frame_id;
        let mut e = self.page_table[j];
        e.meta.decrement_pin_count();
        self.page_table.set(j, e);
        let was_dirty = self.pages[frame].is_dirty;
        self.pages[frame].is_dirty = was_dirty || is_dirty;
        if pin == 1 {
            self.replacer.set_evictable(&frame, true);
        }
        proof {
            lemma_pt_idx_is(old(self).pt(), *page_id, j as int);
            lemma_pt_update(old(self).pt(), j as int, e);
            assert(self.pt() =~= old(self).pt().update(j as int, e));
            crate::table_page::lemma_wf_mod_dirty(
                self.pages@[frame as int],
                old(self).pages@[frame as int],
            );
            assert forall|f: int| 0 <= f < self.pool_size implies (
            #[trigger] self.pages@[f]).wf() by {
                if f != frame as int {
                    assert(self.pages@[f] == old(self).pages@[f]);
                }
            }
            assert forall|f: int| self.replacer.known(f) implies pt_has_frame(self.pt(), f) by {
                assert(old(self).replacer.known(f));
                assert(pt_has_frame(old(self).pt(), f));
                let w = choose|w: int|
                    0 <= w < old(self).pt().len() && old(self).pt()[w].meta.frame_id == f;
                assert(self.pt()[w].meta.frame_id == f);
            }
            assert forall|k: int| 0 <= k < self.pt().len() implies self.replacer.known(
                (#[trigger] self.pt()[k]).meta.frame_id as int,
            ) by {
                assert(old(self).replacer.known(old(self).pt()[k].meta.frame_id as int));
            }
            assert forall|k: int| 0 <= k < self.pt().len() implies (self.replacer.evictable(
                (#[trigger] self.pt()[k]).meta.frame_id as int,
            ) <==> self.pt()[k].meta.pin_count == 0) by {
                if k != j as int {
                    let ee = old(self).pt()[k];
                    assert(ee.meta.frame_id != frame);
                    assert(old(self).replacer.evictable(ee.meta.frame_id as int)
                        <==> ee.meta.pin_count == 0);
                }
            }
            assert forall|q: u32|
                #[trigger] old(self).mapped(q) && q != *page_id implies Self::same_mapping(
                    *old(self),
                    *self,
                    q,
                ) by {
                assert(self.pt()[pt_idx(self.pt(), q)] == old(self).pt()[pt_idx(
                    old(self).pt(),
                    q,
                )]);
                assert(old(self).frame_of(q) != frame as int);
            }
        }
        true
    }

    /// Deletes `page_id` from the pool and the page store: refused (with
    /// `false`) while the page is pinned; otherwise its mapping, replacer
    /// node and disk slot are released and the frame returns to the free
    /// list. Deleting an unknown page is excluded.
    pub fn delete_page(&mut self, page_id: u32) -> (r: bool)
        requires
            old(self).wf(),
            old(self).mapped(page_id),
        ensures
            final(self).wf(),
            final(self).pool_size == old(self).pool_size,
            old(self).pin_of(page_id) > 0 ==> !r && *final(self) == *old(self),
            old(self).pin_of(page_id) == 0 ==> {
                &&& r
                &&& !final(self).mapped(page_id)
                &&& !final(self).disk_manager.is_allocated(page_id)
                &&& list_has(final(self).free_list@, old(self).frame_of(page_id))
                &&& forall|q: u32|
                    #[trigger] old(self).mapped(q) && q != page_id ==> Self::same_mapping(
                        *old(self),
                        *final(self),
                        q,
                    )
            },
    {
        let j = match self.lookup(page_id) {
            Some(j) => j,
            None => {
                proof {
                    assert(false);
                }
                0
            },
        };
        if self.page_table[j].meta.pin_count > 0 {
            return false;
        }
        let frame = self.page_table[j].meta.frame_id;
        proof {
            lemma_pt_idx_is(old(self).pt(), page_id, j as int);
        }
        self.page_table.remove(j);
        self.pages.set(frame, TablePage::create_invalid_page());
        self.disk_manager.deallocate_page(&page_id);
        self.replacer.remove(&frame);
        self.free_list.push(frame);
        proof {
            lemma_pt_remove(old(self).pt(), j as int);
            lemma_list_push(old(self).free_list@, frame);
            assert(self.pt() =~= old(self).pt().remove(j as int));
            assert forall|f: int|
                0 <= f < self.pool_size implies ((#[trigger] list_has(self.free_list@, f))
                <==> !pt_has_frame(self.pt(), f)) by {
                assert(list_has(old(self).free_list@, f) <==> !pt_has_frame(old(self).pt(), f));
            }
            assert(!list_has(old(self).free_list@, frame as int));
            assert forall|i1: int, i2: int|
                0 <= i1 < i2 < self.free_list@.len() implies self.free_list@[i1]
                != self.free_list@[i2] by {
                if i2 == self.free_list@.len() - 1 {
                    assert(self.free_list@[i1] == old(self).free_list@[i1]);
                    if self.free_list@[i1] == frame {
                        assert(list_has(old(self).free_list@, frame as int));
                    }
                }
            }
            assert forall|f: int| self.replacer.known(f) implies pt_has_frame(self.pt(), f) by {
                assert(old(self).replacer.known(f));
                assert(f != frame as int);
                assert(pt_has_frame(old(self).pt(), f));
            }
            assert forall|k: int| 0 <= k < self.pt().len() implies self.replacer.known(
                (#[trigger] self.pt()[k]).meta.frame_id as int,
            ) && (self.replacer.evictable(self.pt()[k].meta.frame_id as int)
                <==> self.pt()[k].meta.pin_count == 0) by {
                let e = self.pt()[k];
                let k2: int = if k < j as int {
                    k
                } else {
                    k + 1
                };
                assert(e == old(self).pt()[k2]);
                assert(e.meta.frame_id != frame);
                assert(old(self).replacer.known(e.meta.frame_id as int));
                assert(old(self).replacer.evictable(e.meta.frame_id as int) <==> e.meta.pin_count
                    == 0);
            }
            assert forall|j2: int| 0 <= j2 < self.pt().len() implies self.disk_manager.is_allocated(
                (#[trigger] self.pt()[j2]).page_id,
            ) by {
                let k2: int = if j2 < j as int {
                    j2
                } else {
                    j2 + 1
                };
                assert(self.pt()[j2] == old(self).pt()[k2]);
                assert(self.pt()[j2].page_id != page_id);
            }
            assert forall|q: u32|
                #[trigger] old(self).mapped(q) && q != page_id implies Self::same_mapping(
                    *old(self),
                    *self,
                    q,
                ) by {
                assert(pt_has(self.pt(), q));
                assert(self.pt()[pt_idx(self.pt(), q)] == old(self).pt()[pt_idx(
                    old(self).pt(),
                    q,
                )]);
                assert(old(self).frame_of(q) != frame as int);
            }
        }
        true
    }

    /// The number of frames in the pool.
    pub fn size(&self) -> (r: usize)
        ensures
            r == self.pool_size,
    {
        self.pool_size
    }

    /// The dirty bit of the resident page `page_id`.
    pub fn get_is_dirty(&self, page_id: &u32) -> (r: bool)
        requires
            self.wf(),
            self.mapped(*page_id),
        ensures
            r == self.page_of(*page_id).is_dirty,
    {
        let j = match self.lookup(*page_id) {
            Some(j) => j,
            None => {
                proof {
                    assert(false);
                }
                0
            },
        };
        let frame = self.page_table[j].meta.frame_id;
        self.pages[frame].get_is_dirty()
    }

    /// The pin count of `page_id`, or `None` when it is not resident.
    pub fn get_pin_count(&self, page_id: &u32) -> (r: Option<usize>)
        requires
            self.wf(),
        ensures
            self.mapped(*page_id) ==> r == Some(self.pin_of(*page_id) as usize),
            !self.mapped(*page_id) ==> r is None,
    {
        match self.lookup(*page_id) {
            Some(j) => Some(self.page_table[j].meta.pin_count),
            None => None,
        }
    }

    /// Sets the dirty bit of the resident page `page_id`.
    pub fn set_is_dirty(&mut self, page_id: &u32, is_dirty: bool)
        requires
            old(self).wf(),
            old(self).mapped(*page_id),
        ensures
            final(self).wf(),
            final(self).page_of(*page_id) == (TablePage {
                is_dirty,
                ..old(self).page_of(*page_id)
            }),
            final(self).page_table == old(self).page_table,
            final(self).replacer == old(self).replacer,
            final(self).free_list == old(self).free_list,
            final(self).disk_manager == old(self).disk_manager,
            final(self).pool_size == old(self).pool_size,
            forall|q: u32|
                #[trigger] old(self).mapped(q) && q != *page_id ==> Self::same_mapping(
                    *old(self),
                    *final(self),
                    q,
                ),
    {
        let j = match self.lookup(*page_id) {
            Some(j) => j,
            None => {
                proof {
                    assert(false);
                }
                0
            },
        };
        let frame = self.page_table[j].meta.frame_id;
        self.pages[frame].is_dirty = is_dirty;
        proof {
            lemma_pt_idx_is(self.pt(), *page_id, j as int);
            crate::table_page::lemma_wf_mod_dirty(
                self.pages@[frame as int],
                old(self).pages@[frame as int],
            );
            assert forall|f: int| 0 <= f < self.pool_size implies (
            #[trigger] self.pages@[f]).wf() by {
                if f != frame as int {
                    assert(self.pages@[f] == old(self).pages@[f]);
                }
            }
            assert forall|q: u32|
                #[trigger] old(self).mapped(q) && q != *page_id implies Self::same_mapping(
                    *old(self),
                    *self,
                    q,
                ) by {
                assert(old(self).frame_of(q) != frame as int);
            }
        }
    }

    /// Hands the replacer the evictable flag for the frame of the resident
    /// page `page_id`; the flag must agree with the pin count, which is
    /// what keeps the policy and the pool in step.
    pub fn set_evictable(&mut self, page_id: &u32, is_evictable: bool)
        requires
            old(self).wf(),
            old(self).mapped(*page_id),
            is_evictable <==> old(self).pin_of(*page_id) == 0,
        ensures
            final(self).wf(),
            final(self).replacer.evictable(final(self).frame_of(*page_id)) == is_evictable,
            final(self).page_table == old(self).page_table,
            final(self).pages == old(self).pages,
            final(self).free_list == old(self).free_list,
            final(self).disk_manager == old(self).disk_manager,
            final(self).pool_size == old(self).pool_size,
    {
        let j = match self.lookup(*page_id) {
            Some(j) => j,
            None => {
                proof {
                    assert(false);
                }
                0
            },
        };
        let frame = self.page_table[j].meta.frame_id;
        self.replacer.set_evictable(&frame, is_evictable);
        proof {
            lemma_pt_idx_is(self.pt(), *page_id, j as int);
            assert forall|k: int| 0 <= k < self.pt().len() implies self.replacer.known(
                (#[trigger] self.pt()[k]).meta.frame_id as int,
            ) && (self.replacer.evictable(self.pt()[k].meta.frame_id as int)
                <==> self.pt()[k].meta.pin_count == 0) by {
                let e = self.pt()[k];
                assert(old(self).replacer.known(e.meta.frame_id as int));
                if k != j as int {
                    assert(e.meta.frame_id != frame);
                    assert(old(self).replacer.evictable(e.meta.frame_id as int)
                        <==> e.meta.pin_count == 0);
                }
            }
        }
    }

    /// Writes a caller's modified copy of a page back into its frame: the
    /// page must be resident and pinned by the caller. This is how a page
    /// obtained from `fetch_page` or `new_page` is changed.
    pub fn update_page(&mut self, page: TablePage) -> (r: bool)
        requires
            old(self).wf(),
            page.wf(),
        ensures
            final(self).wf(),
            final(self).pool_size == old(self).pool_size,
            !(old(self).mapped(page.page_id) && old(self).pin_of(page.page_id) >= 1) ==> !r
                && *final(self) == *old(self),
            old(self).mapped(page.page_id) && old(self).pin_of(page.page_id) >= 1 ==> {
                &&& r
                &&& final(self).page_of(page.page_id) == page
                &&& final(self).page_table == old(self).page_table
                &&& final(self).replacer == old(self).replacer
                &&& final(self).free_list == old(self).free_list
                &&& final(self).disk_manager == old(self).disk_manager
                &&& forall|q: u32|
                    #[trigger] old(self).mapped(q) && q != page.page_id ==> Self::same_mapping(
                        *old(self),
                        *final(self),
                        q,
                    )
            },
    {
        let j = match self.lookup(page.page_id) {
            Some(j) => j,
            None => {
                return false;
            },
        };
        if self.page_table[j].meta.pin_count == 0 {
            return false;
        }
        let frame = self.page_table[j].meta.frame_id;
        proof {
            lemma_pt_idx_is(self.pt(), page.page_id, j as int);
        }
        let ghost pid = page.page_id;
        self.pages.set(frame, page);
        proof {
            assert forall|q: u32|
                #[trigger] old(self).mapped(q) && q != pid implies Self::same_mapping(
                    *old(self),
                    *self,
                    q,
                ) by {
                assert(old(self).frame_of(q) != frame as int);
            }
        }
        true
    }
}

} // verus!
