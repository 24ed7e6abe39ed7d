use vstd::prelude::*;

verus! {

/// The kind of access recorded for a frame; the policy does not currently
/// distinguish them.
#[derive(Clone, Copy, Debug, PartialEq, Eq, Structural)]
pub enum AccessType {
    Unknown,
    Lookup,
    Scan,
    Index,
}

pub type FrameId = usize;

/// Per-frame access history: the last up-to-`k` access timestamps, oldest
/// first, and the evictable bit.
#[derive(Debug)]
pub struct LRUKNode {
    pub history: Vec<usize>,
    pub k: usize,
    pub is_evictable: bool,
}

impl LRUKNode {
    fn new(k: usize) -> (r: LRUKNode)
        ensures
            r.history@.len() == 0,
            r.k == k,
            !r.is_evictable,
    {
        LRUKNode { history: Vec::new(), k, is_evictable: false }
    }

    pub open spec fn spec_infinite(self) -> bool {
        self.history@.len() != self.k
    }

    /// The backward k-distance at `now`: infinite (`usize::MAX`) until `k`
    /// accesses are recorded, afterwards the age of the oldest retained
    /// access.
    pub open spec fn spec_k_distance(self, now: int) -> int {
        if self.spec_infinite() {
            usize::MAX as int
        } else {
            now - self.history@[0]
        }
    }

    pub fn has_infinite_backwards_k_distance(&self) -> (r: bool)
        ensures
            r == self.spec_infinite(),
    {
        self.history.len() != self.k
    }

    /// The distance of the k'th most recent access from `current_timestamp`
    /// if `k` accesses have been recorded, and `usize::MAX` otherwise.
    pub fn get_backwards_k_distance(&self, current_timestamp: usize) -> (r: usize)
        requires
            !self.spec_infinite() ==> self.history@.len() >= 1 && self.history@[0]
                <= current_timestamp,
        ensures
            r == self.spec_k_distance(current_timestamp as int),
    {
        if self.has_infinite_backwards_k_distance() {
            usize::MAX
        } else {
            current_timestamp - self.history[0]
        }
    }
}

pub open spec fn node_is_evictable(n: Option<LRUKNode>) -> bool {
    n is Some && n->0.is_evictable
}

/// Number of evictable nodes in a frame store.
pub open spec fn count_evictable(s: Seq<Option<LRUKNode>>) -> int
    decreases s.len(),
{
    if s.len() == 0 {
        0
    } else {
        count_evictable(s.drop_last()) + if node_is_evictable(s.last()) {
            1int
        } else {
            0int
        }
    }
}

pub proof fn lemma_count_evictable_bounds(s: Seq<Option<LRUKNode>>)
    ensures
        0 <= count_evictable(s) <= s.len(),
    decreases s.len(),
{
    if s.len() > 0 {
        lemma_count_evictable_bounds(s.drop_last());
    }
}

pub proof fn lemma_count_evictable_update(s: Seq<Option<LRUKNode>>, i: int, x: Option<LRUKNode>)
    requires
        0 <= i < s.len(),
    ensures
        count_evictable(s.update(i, x)) == count_evictable(s) + (if node_is_evictable(s[i]) {
            -1int
        } else {
            0int
        }) + (if node_is_evictable(x) {
            1int
        } else {
            0int
        }),
    decreases s.len(),
{
    if i == s.len() - 1 {
        assert(s.update(i, x).drop_last() =~= s.drop_last());
        assert(s.update(i, x).last() == x);
    } else {
        lemma_count_evictable_update(s.drop_last(), i, x);
        assert(s.update(i, x).drop_last() =~= s.drop_last().update(i, x));
        assert(s.update(i, x).last() == s.last());
    }
}

/// LRU-K replacement policy over a fixed set of frames. Frame ids are
/// dense in `[0, max_size)`, so the store is an array indexed by frame id;
/// an absent frame holds `None`.
#[derive(Debug)]
pub struct LRUKReplacer {
    pub node_store: Vec<Option<LRUKNode>>,
    pub current_timestamp: usize,
    /// Number of evictable frames; not the number of stored frames.
    pub curr_size: usize,
    /// Number of frames the replacer can track.
    pub max_size: usize,
    pub k: usize,
}

impl LRUKReplacer {
    pub open spec fn known(self, f: int) -> bool {
        0 <= f < self.node_store@.len() && self.node_store@[f] is Some
    }

    pub open spec fn evictable(self, f: int) -> bool {
        self.known(f) && self.node_store@[f]->0.is_evictable
    }

    pub open spec fn node_wf(self, n: LRUKNode) -> bool {
        &&& n.k == self.k
        &&& 1 <= n.history@.len() <= self.k
        &&& forall|a: int| 0 <= a < n.history@.len() ==> #[trigger] n.history@[a]
            < self.current_timestamp
        &&& forall|a: int, b: int| 0 <= a < b < n.history@.len() ==> n.history@[a] < n.history@[b]
    }

    pub open spec fn wf(self) -> bool {
        &&& self.node_store@.len() == self.max_size
        &&& self.k >= 1
        &&& self.curr_size == count_evictable(self.node_store@)
        &&& forall|f: int| self.known(f) ==> self.node_wf(#[trigger] self.node_store@[f]->0)
    }

    /// The backward k-distance of the (known) frame `f` at the current
    /// timestamp.
    pub open spec fn spec_k_dist(self, f: int) -> int {
        self.node_store@[f]->0.spec_k_distance(self.current_timestamp as int)
    }

    /// The most recent recorded access of the (known) frame `f`.
    pub open spec fn spec_most_recent(self, f: int) -> int {
        self.node_store@[f]->0.history@.last() as int
    }

    /// The eviction order: `g` loses to `f` when its k-distance is smaller,
    /// or equal with a more recent last access.
    pub open spec fn beaten_by(self, g: int, f: int) -> bool {
        self.spec_k_dist(g) < self.spec_k_dist(f) || (self.spec_k_dist(g) == self.spec_k_dist(f)
            && self.spec_most_recent(g) >= self.spec_most_recent(f))
    }

    pub fn new(num_frames: usize, k: usize) -> (r: LRUKReplacer)
        requires
            k >= 1,
        ensures
            r.wf(),
            r.max_size == num_frames,
            r.k == k,
            r.current_timestamp == 0,
            r.curr_size == 0,
            forall|f: int| !r.known(f),
    {
        let mut node_store: Vec<Option<LRUKNode>> = Vec::new();
        let mut i: usize = 0;
        while i < num_frames
            invariant
                i <= num_frames,
                node_store@.len() == i,
                forall|f: int| 0 <= f < i ==> #[trigger] node_store@[f] is None,
                count_evictable(node_store@) == 0,
            decreases num_frames - i,
        {
            let ghost prev = node_store@;
            node_store.push(None);
            i = i + 1;
            proof {
                assert(node_store@.drop_last() =~= prev);
            }
        }
        LRUKReplacer { node_store, current_timestamp: 0, curr_size: 0, max_size: num_frames, k }
    }

    pub fn builder() -> (r: LRUKReplacerBuilder)
        ensures
            r.max_size is None,
            r.k is None,
    {
        LRUKReplacerBuilder { max_size: None, k: None }
    }

    /// Evicts the evictable frame with the largest backward k-distance;
    /// frames with fewer than `k` recorded accesses count as infinitely
    /// distant, and ties fall to the least recent last access. The chosen
    /// frame is removed from the store. `None` when nothing is evictable.
    pub fn evict(&mut self) -> (r: Option<FrameId>)
        requires
            old(self).wf(),
        ensures
            final(self).wf(),
            final(self).current_timestamp == old(self).current_timestamp,
            final(self).max_size == old(self).max_size,
            final(self).k == old(self).k,
            r is None ==> (forall|g: int| !old(self).evictable(g)) && *final(self) == *old(self),
            r matches Some(f) ==> {
                &&& old(self).evictable(f as int)
                &&& forall|g: int|
                    old(self).evictable(g) && g != f as int ==> old(self).beaten_by(g, f as int)
                &&& final(self).node_store@ =~= old(self).node_store@.update(
                    f as int,
                    None::<LRUKNode>,
                )
                &&& final(self).curr_size == old(self).curr_size - 1
            },
    {
        let mut best: Option<usize> = None;
        let mut best_dist: usize = 0;
        let mut best_recent: usize = usize::MAX;
        let mut f: usize = 0;
        while f < self.max_size
            invariant
                self.wf(),
                f <= self.max_size,
                match best {
                    Some(bf) => {
                        &&& bf < f
                        &&& self.evictable(bf as int)
                        &&& best_dist == self.spec_k_dist(bf as int)
                        &&& best_recent == self.spec_most_recent(bf as int)
                        &&& forall|g: int|
                            0 <= g < f && self.evictable(g) && g != bf as int ==> self.beaten_by(
                                g,
                                bf as int,
                            )
                    },
                    None => forall|g: int| 0 <= g < f ==> !self.evictable(g),
                },
            decreases self.max_size - f,
        {
            let take: bool;
            let d: usize;
            let mr: usize;
            match &self.node_store[f] {
                Some(node) => {
                    if node.is_evictable {
                        proof {
                            assert(self.known(f as int));
                            assert(self.node_wf(self.node_store@[f as int]->0));
                        }
                        d = node.get_backwards_k_distance(self.current_timestamp);
                        mr = node.history[node.history.len() - 1];
                        take = match best {
                            None => true,
                            Some(_) => d > best_dist || (d == best_dist && mr < best_recent),
                        };
                    } else {
                        take = false;
                        d = 0;
                        mr = 0;
                    }
                },
                None => {
                    take = false;
                    d = 0;
                    mr = 0;
                },
            }
            if take {
                best = Some(f);
                best_dist = d;
                best_recent = mr;
            }
            f = f + 1;
        }
        match best {
            Some(bf) => {
                self.remove(&bf);
                Some(bf)
            },
            None => None,
        }
    }

    /// Records an access to `frame_id` at the current timestamp, keeping at
    /// most the `k` most recent timestamps, and advances the clock. An
    /// unknown frame is created non-evictable.
    pub fn record_access(&mut self, frame_id: &FrameId, _access_type: AccessType)
        requires
            old(self).wf(),
            *frame_id < old(self).max_size,
            old(self).current_timestamp < usize::MAX,
        ensures
            final(self).wf(),
            final(self).current_timestamp == old(self).current_timestamp + 1,
            final(self).max_size == old(self).max_size,
            final(self).k == old(self).k,
            final(self).curr_size == old(self).curr_size,
            forall|g: int|
                0 <= g < old(self).max_size && g != *frame_id ==> final(self).node_store@[g] == old(
                    self,
                ).node_store@[g],
            final(self).known(*frame_id as int),
            ({
                let h = final(self).node_store@[*frame_id as int]->0.history@;
                &&& h.last() == old(self).current_timestamp
                &&& (old(self).known(*frame_id as int) ==> {
                    let oh = old(self).node_store@[*frame_id as int]->0.history@;
                    &&& h =~= (if oh.len() < old(self).k {
                        oh
                    } else {
                        oh.skip(1)
                    }).push(old(self).current_timestamp)
                    &&& final(self).node_store@[*frame_id as int]->0.is_evictable == old(
                        self,
                    ).node_store@[*frame_id as int]->0.is_evictable
                })
                &&& (!old(self).known(*frame_id as int) ==> h =~= seq![
                    old(self).current_timestamp,
                ] && !final(self).node_store@[*frame_id as int]->0.is_evictable)
            }),
    {
        let f = *frame_id;
        let now = self.current_timestamp;
        let ghost prev = self.node_store@;
        let present = match &self.node_store[f] {
            Some(_) => true,
            None => false,
        };
        if present {
            proof {
                assert(self.known(f as int));
                assert(self.node_wf(self.node_store@[f as int]->0));
            }
            if let Some(node) = &mut self.node_store[f] {
                if node.history.len() < node.k {
                    node.history.push(now);
                } else {
                    node.history.remove(0);
                    node.history.push(now);
                }
            }
        } else {
            let mut history: Vec<usize> = Vec::new();
            history.push(now);
            self.node_store.set(f, Some(LRUKNode { history, k: self.k, is_evictable: false }));
        }
        self.current_timestamp = now + 1;
        proof {
            lemma_count_evictable_update(prev, f as int, self.node_store@[f as int]);
            let oh = prev[f as int]->0.history@;
            let h = self.node_store@[f as int]->0.history@;
            if old(self).known(f as int) {
                if oh.len() < old(self).k {
                    assert(h =~= oh.push(now));
                } else {
                    assert(oh.remove(0) =~= oh.skip(1));
                    assert(h =~= oh.skip(1).push(now));
                }
            } else {
                assert(h =~= seq![now]);
            }
            assert forall|g: int| self.known(g) implies self.node_wf(
                #[trigger] self.node_store@[g]->0,
            ) by {
                if g != f as int {
                    assert(prev[g] == self.node_store@[g]);
                    assert(old(self).known(g));
                    assert(old(self).node_wf(old(self).node_store@[g]->0));
                }
            }
        }
    }

    /// Sets the evictable bit of a known frame; flipping it adjusts the
    /// count of evictable frames by one. Idempotent otherwise.
    pub fn set_evictable(&mut self, frame_id: &FrameId, set_evictable: bool)
        requires
            old(self).wf(),
            old(self).known(*frame_id as int),
        ensures
            final(self).wf(),
            final(self).current_timestamp == old(self).current_timestamp,
            final(self).max_size == old(self).max_size,
            final(self).k == old(self).k,
            final(self).node_store@ =~= old(self).node_store@.update(
                *frame_id as int,
                Some(
                    LRUKNode {
                        is_evictable: set_evictable,
                        ..old(self).node_store@[*frame_id as int]->0
                    },
                ),
            ),
            final(self).curr_size == old(self).curr_size + (if old(self).evictable(
                *frame_id as int,
            ) {
                -1int
            } else {
                0int
            }) + (if set_evictable {
                1int
            } else {
                0int
            }),
    {
        let f = *frame_id;
        let ghost prev = self.node_store@;
        let was = match &self.node_store[f] {
            Some(node) => node.is_evictable,
            None => false,
        };
        if let Some(node) = &mut self.node_store[f] {
            node.is_evictable = set_evictable;
        }
        if was != set_evictable {
            if set_evictable {
                proof {
                    lemma_count_evictable_update(prev, f as int, self.node_store@[f as int]);
                    lemma_count_evictable_bounds(self.node_store@);
                }
                self.curr_size = self.curr_size + 1;
            } else {
                proof {
                    lemma_count_evictable_update(prev, f as int, self.node_store@[f as int]);
                    lemma_count_evictable_bounds(self.node_store@);
                }
                self.curr_size = self.curr_size - 1;
            }
        }
        proof {
            lemma_count_evictable_update(prev, f as int, self.node_store@[f as int]);
            assert forall|g: int| self.known(g) implies self.node_wf(
                #[trigger] self.node_store@[g]->0,
            ) by {
                assert(old(self).known(g));
                assert(old(self).node_wf(old(self).node_store@[g]->0));
            }
            assert(final(self).node_store@ =~= old(self).node_store@.update(
                f as int,
                Some(LRUKNode { is_evictable: set_evictable, ..old(self).node_store@[f as int]->0 }),
            ));
        }
    }

    /// Removes a known, evictable frame with its history and decrements the
    /// count; removing an unknown frame is a no-op. A known frame must be
    /// evictable to be removed.
    pub fn remove(&mut self, frame_id: &FrameId)
        requires
            old(self).wf(),
            old(self).known(*frame_id as int) ==> old(self).evictable(*frame_id as int),
        ensures
            final(self).wf(),
            final(self).current_timestamp == old(self).current_timestamp,
            final(self).max_size == old(self).max_size,
            final(self).k == old(self).k,
            old(self).known(*frame_id as int) ==> final(self).node_store@ =~= old(
                self,
            ).node_store@.update(*frame_id as int, None::<LRUKNode>) && final(self).curr_size
                == old(self).curr_size - 1,
            !old(self).known(*frame_id as int) ==> *final(self) == *old(self),
    {
        let f = *frame_id;
        if f >= self.node_store.len() {
            return ;
        }
        let present = match &self.node_store[f] {
            Some(_) => true,
            None => false,
        };
        if present {
            let ghost prev = self.node_store@;
            proof {
                lemma_count_evictable_bounds(prev);
                if self.curr_size == 0 {
                    lemma_count_evictable_update(prev, f as int, None);
                    lemma_count_evictable_bounds(prev.update(f as int, None));
                }
            }
            self.node_store.set(f, None);
            self.curr_size = self.curr_size - 1;
            proof {
                lemma_count_evictable_update(prev, f as int, None);
                assert forall|g: int| self.known(g) implies self.node_wf(
                    #[trigger] self.node_store@[g]->0,
                ) by {
                    assert(self.node_store@[g] == prev[g]);
                    assert(old(self).known(g));
                    assert(old(self).node_wf(old(self).node_store@[g]->0));
                }
            }
        }
    }

    pub fn is_full_capacity(&self) -> (r: bool)
        ensures
            r == (self.curr_size == self.max_size),
    {
        self.curr_size == self.max_size
    }

    /// The number of evictable frames.
    pub fn size(&self) -> (r: usize)
        ensures
            r == self.curr_size,
    {
        self.curr_size
    }

    fn increment_current_size(&mut self)
        requires
            old(self).curr_size < usize::MAX,
        ensures
            *final(self) == (LRUKReplacer { curr_size: (old(self).curr_size + 1) as usize, ..*old(self) }),
    {
        self.curr_size = self.curr_size + 1;
    }

    fn decrement_current_size(&mut self)
        requires
            old(self).curr_size >= 1,
        ensures
            *final(self) == (LRUKReplacer { curr_size: (old(self).curr_size - 1) as usize, ..*old(self) }),
    {
        self.curr_size = self.curr_size - 1;
    }
}

/// Builds a replacer from a frame count and a `k`, both positive.
pub struct LRUKReplacerBuilder {
    pub max_size: Option<usize>,
    pub k: Option<usize>,
}

impl LRUKReplacerBuilder {
    pub fn max_size(self, num_frames: usize) -> (r: Self)
        requires
            num_frames > 0,
        ensures
            r.max_size == Some(num_frames),
            r.k == self.k,
    {
        LRUKReplacerBuilder { max_size: Some(num_frames), ..self }
    }

    pub fn k(self, k: usize) -> (r: Self)
        requires
            k > 0,
        ensures
            r.k == Some(k),
            r.max_size == self.max_size,
    {
        LRUKReplacerBuilder { k: Some(k), ..self }
    }

    /// The configured replacer; both the size and `k` must have been set.
    pub fn build(self) -> (r: LRUKReplacer)
        requires
            self.max_size is Some,
            self.k is Some,
            self.k->0 >= 1,
        ensures
            r.wf(),
            r.max_size == self.max_size->0,
            r.k == self.k->0,
            r.current_timestamp == 0,
            r.curr_size == 0,
            forall|f: int| !r.known(f),
    {
        let max_size = match self.max_size {
            Some(m) => m,
            None => 1,
        };
        let k = match self.k {
            Some(k) => k,
            None => 1,
        };
        LRUKReplacer::new(max_size, k)
    }
}

} // verus!
