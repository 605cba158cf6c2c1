use vstd::prelude::*;

use std::collections::HashMap;

use crate::config::{FrameId, PageId, ReplacePolicy, PAGE_SIZE};
use crate::page::{Page, PageModel};
use crate::replacer::{
    policy_after_victim, policy_inserted, policy_removed, policy_victim, PolicyModel,
    PolicyReplacer, Replacer,
};

verus! {

broadcast use vstd::std_specs::hash::group_hash_axioms;

/// A dirty page leaving memory: its bytes are owed to the backing file.
pub struct Eviction {
    pub page_id: PageId,
    pub data: Vec<u8>,
}

/// A frame handed out for a new residency, with the write-back its former
/// page needs, if any.
pub struct Victim {
    pub frame_id: FrameId,
    pub evicted: Option<Eviction>,
}

/// What `fix_page` found.
pub enum FixOutcome {
    /// The page is resident in this frame and now pinned once more.
    Hit(FrameId),
    /// The page is not resident. The frame is reserved for it: write back
    /// the eviction, if any, then read the page and hand it to `load_page`.
    Miss(Victim),
    /// No frame can be had: every one is pinned. Also returned, with
    /// nothing changed, for a resident page whose pin count cannot grow.
    Exhausted,
}

/// The pool as a mathematical value.
pub struct PoolModel {
    /// Frame contents, indexed by frame id.
    pub frames: Seq<PageModel>,
    /// Resident pages and their frames.
    pub table: Map<PageId, FrameId>,
    /// Never-used frames, as a stack whose top is the last element.
    pub free: Seq<FrameId>,
    /// The frames the replacer tracks.
    pub candidates: Set<FrameId>,
    /// The replacer's state, which decides the order of eviction.
    pub policy: PolicyModel,
    pub read_io: nat,
    pub write_io: nat,
    pub hits: nat,
}

impl PoolModel {
    pub open spec fn frame_count(self) -> nat {
        self.frames.len()
    }

    /// Frame `f` holds the page the table maps to it.
    pub open spec fn resident(self, f: FrameId) -> bool {
        &&& f < self.frames.len()
        &&& self.frames[f as int].page_id matches Some(p)
        &&& self.table.contains_key(p)
        &&& self.table[p] == f
    }

    /// Frame `f` is still on the free list.
    pub open spec fn is_free(self, f: FrameId) -> bool {
        self.frames.len() - self.free.len() <= f < self.frames.len()
    }

    /// The resident frames nobody pins.
    pub open spec fn unpinned_resident(self) -> Set<FrameId> {
        Set::new(|f: FrameId| self.resident(f) && self.frames[f as int].pin_count == 0)
    }
}

/// Counters never go down.
pub open spec fn counters_grow(pre: PoolModel, post: PoolModel) -> bool {
    pre.read_io <= post.read_io && pre.write_io <= post.write_io && pre.hits <= post.hits
}

/// `v` is the top of the free list, popped.
pub open spec fn takes_free(pre: PoolModel, post: PoolModel, v: Victim) -> bool {
    &&& pre.free.len() > 0
    &&& v.frame_id == pre.free.last()
    &&& v.evicted is None
    &&& post == PoolModel { free: pre.free.drop_last(), ..pre }
}

/// `v` is the replacer's victim, taken out of the page table; a dirty one
/// is cleaned and its bytes handed out for write-back.
pub open spec fn evicts(pre: PoolModel, post: PoolModel, v: Victim) -> bool {
    let f = v.frame_id;
    let page = pre.frames[f as int];
    &&& pre.free.len() == 0
    &&& policy_victim(pre.policy) == Some(f)
    &&& pre.candidates.contains(f)
    &&& pre.resident(f)
    &&& page.pin_count == 0
    &&& match v.evicted {
        Some(e) => page.dirty && e.page_id == page.page_id.unwrap() && e.data@ == page.data,
        None => !page.dirty,
    }
    &&& post.frames == pre.frames.update(f as int, PageModel { dirty: false, ..page })
    &&& post.table == pre.table.remove(page.page_id.unwrap())
    &&& post.free == pre.free
    &&& post.candidates == pre.candidates.remove(f)
    &&& post.policy == policy_after_victim(pre.policy)
    &&& post.write_io == pre.write_io + if page.dirty { 1nat } else { 0nat }
    &&& post.read_io == pre.read_io
    &&& post.hits == pre.hits
}

/// What `select_victim` does: the free list first, then the replacer.
pub open spec fn select_victim_post(pre: PoolModel, post: PoolModel, r: Option<Victim>) -> bool {
    match r {
        Some(v) => if pre.free.len() > 0 {
            takes_free(pre, post, v)
        } else {
            evicts(pre, post, v)
        },
        None => pre.free.len() == 0 && pre.candidates.is_empty() && policy_victim(pre.policy) is None
            && post == pre,
    }
}

/// What `fix_page` does: a resident page is pinned once more; a missing
/// one gets a frame as `select_victim` gives it.
pub open spec fn fix_page_post(
    pre: PoolModel,
    post: PoolModel,
    page_id: PageId,
    is_dirty: bool,
    r: FixOutcome,
) -> bool {
    if pre.table.contains_key(page_id) {
        let f = pre.table[page_id];
        let page = pre.frames[f as int];
        if page.pin_count < usize::MAX {
            &&& r matches FixOutcome::Hit(g) && g == f
            &&& post == PoolModel {
                frames: pre.frames.update(
                    f as int,
                    PageModel { pin_count: page.pin_count + 1, dirty: page.dirty || is_dirty, ..page },
                ),
                candidates: pre.candidates.remove(f),
                policy: policy_removed(pre.policy, f),
                hits: pre.hits + 1,
                ..pre
            }
        } else {
            r is Exhausted && post == pre
        }
    } else {
        match r {
            FixOutcome::Miss(v) => select_victim_post(pre, post, Some(v)),
            FixOutcome::Exhausted => select_victim_post(pre, post, None),
            FixOutcome::Hit(_) => false,
        }
    }
}

/// `frame_id` was handed out for a new residency and not yet filled: it is
/// neither free nor resident, and `page_id` is not resident either.
pub open spec fn can_install(pre: PoolModel, frame_id: FrameId, page_id: PageId) -> bool {
    &&& frame_id < pre.frame_count()
    &&& !pre.is_free(frame_id)
    &&& !pre.resident(frame_id)
    &&& !pre.table.contains_key(page_id)
}

/// `page_id` now lives in `frame_id`, pinned once, with the given bytes and
/// dirty flag; nothing else moved but the counters.
pub open spec fn installs(
    pre: PoolModel,
    post: PoolModel,
    frame_id: FrameId,
    page_id: PageId,
    data: Seq<u8>,
    dirty: bool,
) -> bool {
    &&& post.frames == pre.frames.update(
        frame_id as int,
        PageModel { page_id: Some(page_id), data, dirty, pin_count: 1 },
    )
    &&& post.table == pre.table.insert(page_id, frame_id)
    &&& post.free == pre.free
    &&& post.candidates == pre.candidates
    &&& post.policy == pre.policy
    &&& post.write_io == pre.write_io
    &&& post.hits == pre.hits
}

/// What `unfix_page` does: one pin of a resident page is released, and a
/// page nobody pins any longer goes back to the replacer.
pub open spec fn unfix_page_post(
    pre: PoolModel,
    post: PoolModel,
    page_id: PageId,
    r: Option<FrameId>,
) -> bool {
    if pre.table.contains_key(page_id) {
        let f = pre.table[page_id];
        let page = pre.frames[f as int];
        &&& r == Some(f)
        &&& post == PoolModel {
            frames: pre.frames.update(
                f as int,
                PageModel { pin_count: (page.pin_count - 1) as nat, ..page },
            ),
            candidates: if page.pin_count == 1 {
                pre.candidates.insert(f)
            } else {
                pre.candidates
            },
            policy: if page.pin_count == 1 {
                policy_inserted(pre.policy, f, pre.frame_count())
            } else {
                pre.policy
            },
            ..pre
        }
    } else {
        r is None && post == pre
    }
}

/// The dirty frames, in frame order.
pub open spec fn dirty_frames(frames: Seq<PageModel>) -> Seq<PageModel>
    decreases frames.len(),
{
    if frames.len() == 0 {
        Seq::empty()
    } else {
        let rest = dirty_frames(frames.drop_last());
        if frames.last().dirty {
            rest.push(frames.last())
        } else {
            rest
        }
    }
}

/// Every dirty flag cleared.
pub open spec fn all_clean(frames: Seq<PageModel>) -> Seq<PageModel> {
    frames.map_values(|p: PageModel| PageModel { dirty: false, ..p })
}

/// The sets of frame ids within a finite set of integers are no larger.
proof fn lemma_len_within(s: Set<FrameId>, r: Set<int>)
    requires
        s.finite(),
        r.finite(),
        forall|g: FrameId| s.contains(g) ==> r.contains(g as int),
    ensures
        s.len() <= r.len(),
{
    let cast = |g: FrameId| g as int;
    let t = s.map(cast);
    assert(vstd::relations::injective_on(cast, s));
    vstd::set_lib::lemma_map_size(s, t, cast);
    assert(t.subset_of(r));
    vstd::set_lib::lemma_len_subset(t, r);
}

/// The buffer manager: frames, free list, page table, replacer and I/O
/// counters.
pub struct BMgr {
    free_list: Vec<FrameId>,
    pages: Vec<Page>,
    replacer: PolicyReplacer,
    page_table: HashMap<PageId, FrameId>,
    num_write_io: usize,
    num_read_io: usize,
    num_hits: usize,
}

impl View for BMgr {
    type V = PoolModel;

    closed spec fn view(&self) -> PoolModel {
        PoolModel {
            frames: self.pages@.map_values(|p: Page| p@),
            table: self.page_table@,
            free: self.free_list@,
            candidates: self.replacer.candidates(),
            policy: self.replacer.model(),
            read_io: self.num_read_io as nat,
            write_io: self.num_write_io as nat,
            hits: self.num_hits as nat,
        }
    }
}

impl BMgr {
    pub closed spec fn wf(&self) -> bool {
        let m = self@;
        let n = self.pages@.len();
        &&& self.replacer.wf()
        &&& self.replacer.capacity() == n
        &&& self.free_list@.len() <= n
        &&& forall|i: int| 0 <= i < self.free_list@.len() ==> self.free_list@[i] == n - 1 - i
        &&& forall|f: int| 0 <= f < n ==> #[trigger] self.pages@[f].wf()
        &&& forall|p: PageId| #[trigger]
            m.table.contains_key(p) ==> m.table[p] < n && m.frames[m.table[p] as int].page_id
                == Some(p) && !m.is_free(m.table[p])
        &&& forall|f: FrameId| #[trigger]
            m.is_free(f) ==> m.frames[f as int].page_id is None
        &&& forall|f: FrameId|
            f < n && !#[trigger] m.resident(f) ==> m.frames[f as int].pin_count == 0
                && !m.frames[f as int].dirty
        &&& forall|f: FrameId| #[trigger]
            m.candidates.contains(f) <==> m.resident(f) && m.frames[f as int].pin_count == 0
        &&& self.num_read_io + self.num_write_io <= usize::MAX
    }

    /// Room left in the counters for one more operation, a flush included.
    pub open spec fn can_count(&self) -> bool {
        self@.hits < usize::MAX && self@.read_io + self@.write_io + self@.frame_count() + 2
            <= usize::MAX
    }

    /// A pool of `frame_num` frames, all free, with the given policy.
    pub fn new(replace_policy: ReplacePolicy, frame_num: usize) -> (r: BMgr)
        ensures
            r.wf(),
            r@.frame_count() == frame_num,
            r@.free == Seq::new(frame_num as nat, |i: int| (frame_num - 1 - i) as FrameId),
            r@.table == Map::<PageId, FrameId>::empty(),
            r@.candidates == Set::<FrameId>::empty(),
            r@.policy == (match replace_policy {
                ReplacePolicy::Lru => PolicyModel::Lru(Seq::empty()),
                ReplacePolicy::Clock => PolicyModel::Clock(Seq::empty()),
            }),
            forall|f: int| 0 <= f < frame_num ==> #[trigger] r@.frames[f] == (PageModel {
                page_id: None,
                data: Seq::new(PAGE_SIZE as nat, |i: int| 0u8),
                dirty: false,
                pin_count: 0,
            }),
            r@.read_io == 0 && r@.write_io == 0 && r@.hits == 0,
    {
        let mut free_list: Vec<FrameId> = Vec::new();
        let mut i: usize = frame_num;
        while i > 0
            invariant
                i <= frame_num,
                free_list@.len() == frame_num - i,
                forall|j: int| 0 <= j < free_list@.len() ==> free_list@[j] == frame_num - 1 - j,
            decreases i,
        {
            i = i - 1;
            free_list.push(i);
        }
        let mut pages: Vec<Page> = Vec::new();
        let mut k: usize = 0;
        while k < frame_num
            invariant
                k <= frame_num,
                pages@.len() == k,
                forall|f: int| 0 <= f < k ==> (#[trigger] pages@[f]).wf() && pages@[f]@ == (PageModel {
                    page_id: None,
                    data: Seq::new(PAGE_SIZE as nat, |i: int| 0u8),
                    dirty: false,
                    pin_count: 0,
                }),
            decreases frame_num - k,
        {
            pages.push(Page::new(None));
            k = k + 1;
        }
        let replacer = PolicyReplacer::new(replace_policy, frame_num);
        let r = BMgr {
            free_list,
            pages,
            replacer,
            page_table: HashMap::new(),
            num_write_io: 0,
            num_read_io: 0,
            num_hits: 0,
        };
        proof {
            let m = r@;
            assert(m.free =~= Seq::new(frame_num as nat, |i: int| (frame_num - 1 - i) as FrameId));
            assert(m.table =~= Map::<PageId, FrameId>::empty());
            assert forall|f: int| 0 <= f < frame_num implies #[trigger] m.frames[f] == r.pages@[f]@ by {}
            assert forall|f: FrameId| #[trigger] m.is_free(f) implies m.frames[f as int].page_id is None by {
                assert(m.frames[f as int] == r.pages@[f as int]@);
            }
            assert forall|f: FrameId| f < frame_num && !#[trigger] m.resident(f) implies m.frames[f as int].pin_count == 0
                && !m.frames[f as int].dirty by {
                assert(m.frames[f as int] == r.pages@[f as int]@);
            }
            assert forall|f: FrameId| #[trigger]
                m.candidates.contains(f) <==> m.resident(f) && m.frames[f as int].pin_count == 0 by {
                if m.resident(f) {
                    assert(m.frames[f as int] == r.pages@[f as int]@);
                }
            }
        }
        r
    }

    proof fn lemma_frame(&self, f: int)
        requires
            0 <= f < self.pages@.len(),
        ensures
            self@.frames[f] == self.pages@[f]@,
            self@.frame_count() == self.pages@.len(),
    {
    }

    /// A frame for a new residency: the top of the free list if any is left,
    /// else the replacer's victim, which leaves the page table; a dirty
    /// victim is cleaned and its bytes returned for write-back. `None` when
    /// every frame is pinned.
    pub fn select_victim(&mut self) -> (r: Option<Victim>)
        requires
            old(self).wf(),
            old(self).can_count(),
        ensures
            final(self).wf(),
            select_victim_post(old(self)@, final(self)@, r),
            counters_grow(old(self)@, final(self)@),
    {
        if self.free_list.len() > 0 {
            let f = self.free_list.pop().unwrap();
            let ghost m = self@;
            proof {
                assert(m.free =~= old(self)@.free.drop_last());
                assert(m.frames =~= old(self)@.frames);
                assert forall|g: FrameId| #[trigger] m.is_free(g) implies old(self)@.is_free(g) by {}
                assert forall|p: PageId| #[trigger] m.table.contains_key(p) implies !m.is_free(m.table[p]) by {
                    assert(!old(self)@.is_free(m.table[p]));
                }
                assert(m == PoolModel { free: old(self)@.free.drop_last(), ..old(self)@ });
                assert forall|g: FrameId| g < m.frame_count() && !#[trigger] m.resident(g) implies m.frames[g as int].pin_count == 0
                    && !m.frames[g as int].dirty by {
                    assert(!old(self)@.resident(g));
                }
                assert forall|g: FrameId| #[trigger]
                    m.candidates.contains(g) <==> m.resident(g) && m.frames[g as int].pin_count == 0 by {
                    assert(m.resident(g) == old(self)@.resident(g));
                }
                assert forall|g: int| 0 <= g < self.pages@.len() implies #[trigger] self.pages@[g].wf() by {
                    assert(old(self).pages@[g].wf());
                }
            }
            return Some(Victim { frame_id: f, evicted: None });
        }
        proof {
            self.replacer.lemma_candidates_bounded();
        }
        match self.replacer.victim() {
            None => None,
            Some(f) => {
                let ghost pre = old(self)@;
                assert(pre.resident(f));
                proof {
                    self.lemma_frame(f as int);
                }
                let old_pid = self.pages[f].get_page_id().unwrap();
                let evicted = if self.pages[f].is_dirty() {
                    let data = self.pages[f].get_data().clone();
                    self.num_write_io = self.num_write_io + 1;
                    self.pages[f].set_dirty(false);
                    Some(Eviction { page_id: old_pid, data })
                } else {
                    None
                };
                self.page_table.remove(&old_pid);
                let ghost m = self@;
                proof {
                    let page = pre.frames[f as int];
                    assert(m.frames =~= pre.frames.update(f as int, PageModel { dirty: false, ..page }));
                    assert(m.table =~= pre.table.remove(old_pid));
                    assert forall|g: int| 0 <= g < self.pages@.len() implies #[trigger] self.pages@[g].wf() by {
                        assert(old(self).pages@[g].wf());
                    }
                    assert forall|p: PageId| #[trigger] m.table.contains_key(p) implies m.table[p] < m.frame_count() && m.frames[m.table[p] as int].page_id
                        == Some(p) && !m.is_free(m.table[p]) by {
                        assert(pre.table.contains_key(p));
                    }
                    assert forall|g: FrameId| #[trigger] m.is_free(g) implies m.frames[g as int].page_id is None by {
                        assert(pre.is_free(g));
                    }
                    assert forall|g: FrameId| g < m.frame_count() && !#[trigger] m.resident(g) implies m.frames[g as int].pin_count == 0
                        && !m.frames[g as int].dirty by {
                        if g != f {
                            if pre.resident(g) {
                                assert(m.resident(g));
                            }
                        }
                    }
                    assert forall|g: FrameId| #[trigger]
                        m.candidates.contains(g) <==> m.resident(g) && m.frames[g as int].pin_count == 0 by {
                        if g != f {
                            if pre.resident(g) {
                                assert(m.resident(g));
                            }
                            if m.resident(g) {
                                assert(pre.resident(g));
                            }
                        } else {
                            assert(!m.resident(g));
                        }
                    }
                }
                Some(Victim { frame_id: f, evicted })
            },
        }
    }

    /// Pins `page_id`. A resident page is a hit; a missing one is given a
    /// frame (see `FixOutcome::Miss`), which the caller fills with
    /// `load_page`.
    pub fn fix_page(&mut self, page_id: PageId, is_dirty: bool) -> (r: FixOutcome)
        requires
            old(self).wf(),
            old(self).can_count(),
        ensures
            final(self).wf(),
            fix_page_post(old(self)@, final(self)@, page_id, is_dirty, r),
            counters_grow(old(self)@, final(self)@),
            final(self)@.free.len() <= old(self)@.free.len(),
            !old(self)@.table.contains_key(page_id) && old(self)@.free.len() > 0
                ==> final(self)@.free.len() == old(self)@.free.len() - 1,
            r matches FixOutcome::Hit(f) ==> final(self)@.resident(f) && final(self)@.table[page_id]
                == f && final(self)@.frames[f as int].pin_count > 0,
    {
        match self.page_table.get(&page_id) {
            Some(fr) => {
                let f: FrameId = *fr;
                let ghost pre = old(self)@;
                proof {
                    self.lemma_frame(f as int);
                }
                if self.pages[f].get_pin_count() == usize::MAX {
                    return FixOutcome::Exhausted;
                }
                self.num_hits = self.num_hits + 1;
                if self.pages[f].get_pin_count() == 0 {
                    self.replacer.remove(f);
                } else {
                    self.replacer.remove(f);
                    assert(pre.candidates.remove(f) =~= pre.candidates);
                }
                self.pages[f].increment_pin_count();
                if is_dirty {
                    self.pages[f].set_dirty(true);
                }
                let ghost m = self@;
                proof {
                    let page = pre.frames[f as int];
                    assert(m.frames =~= pre.frames.update(
                        f as int,
                        PageModel { pin_count: page.pin_count + 1, dirty: page.dirty || is_dirty, ..page },
                    ));
                    assert(m.table == pre.table);
                    assert forall|g: int| 0 <= g < self.pages@.len() implies #[trigger] self.pages@[g].wf() by {
                        assert(old(self).pages@[g].wf());
                    }
                    assert forall|g: FrameId| #[trigger] m.resident(g) <==> pre.resident(g) by {}
                    assert forall|p: PageId| #[trigger] m.table.contains_key(p) implies m.table[p] < m.frame_count() && m.frames[m.table[p] as int].page_id
                        == Some(p) && !m.is_free(m.table[p]) by {
                        assert(pre.table.contains_key(p));
                    }
                    assert forall|g: FrameId| #[trigger] m.is_free(g) implies m.frames[g as int].page_id is None by {
                        assert(pre.is_free(g));
                    }
                    assert forall|g: FrameId| g < m.frame_count() && !#[trigger] m.resident(g) implies m.frames[g as int].pin_count == 0
                        && !m.frames[g as int].dirty by {
                        assert(!pre.resident(g));
                    }
                    assert(m.candidates == pre.candidates.remove(f));
                    assert forall|g: FrameId| #[trigger]
                        m.candidates.contains(g) <==> m.resident(g) && m.frames[g as int].pin_count == 0 by {
                        assert(m.resident(g) == pre.resident(g));
                        if g != f {
                            assert(pre.candidates.contains(g) <==> pre.resident(g) && pre.frames[g as int].pin_count == 0);
                        }
                    }
                }
                FixOutcome::Hit(f)
            },
            None => {
                match self.select_victim() {
                    Some(v) => FixOutcome::Miss(v),
                    None => FixOutcome::Exhausted,
                }
            },
        }
    }

    /// Whether frame `frame_id` holds the page the table maps to it.
    fn is_resident(&self, frame_id: FrameId) -> (r: bool)
        requires
            frame_id < self.pages@.len(),
        ensures
            r == self@.resident(frame_id),
    {
        proof {
            self.lemma_frame(frame_id as int);
        }
        match self.pages[frame_id].get_page_id() {
            Some(q) => match self.page_table.get(&q) {
                Some(g) => *g == frame_id,
                None => false,
            },
            None => false,
        }
    }

    /// Whether `frame_id` and `page_id` are fit for `install`.
    fn installable(&self, frame_id: FrameId, page_id: PageId) -> (r: bool)
        requires
            self.wf(),
        ensures
            r == can_install(self@, frame_id, page_id),
    {
        frame_id < self.pages.len() && frame_id < self.pages.len() - self.free_list.len()
            && !self.is_resident(frame_id) && !self.page_table.contains_key(&page_id)
    }

    /// Moves `page_id` into the frame; `read` tells whether its bytes came
    /// from disk.
    fn install(&mut self, frame_id: FrameId, page_id: PageId, data: Vec<u8>, dirty: bool, read: bool)
        requires
            old(self).wf(),
            old(self).can_count(),
            can_install(old(self)@, frame_id, page_id),
            data@.len() == PAGE_SIZE,
        ensures
            final(self).wf(),
            installs(old(self)@, final(self)@, frame_id, page_id, data@, dirty),
            final(self)@.read_io == old(self)@.read_io + if read { 1nat } else { 0nat },
    {
        let ghost pre = old(self)@;
        let ghost d = data@;
        proof {
            self.lemma_frame(frame_id as int);
        }
        self.pages[frame_id].set_data(data);
        self.pages[frame_id].set_page_id(page_id);
        self.pages[frame_id].set_dirty(dirty);
        self.pages[frame_id].increment_pin_count();
        self.page_table.insert(page_id, frame_id);
        if read {
            self.num_read_io = self.num_read_io + 1;
        }
        let ghost m = self@;
        proof {
            let f = frame_id;
            assert(m.frames =~= pre.frames.update(
                f as int,
                PageModel { page_id: Some(page_id), data: d, dirty, pin_count: 1 },
            ));
            assert(m.table =~= pre.table.insert(page_id, f));
            assert forall|g: int| 0 <= g < self.pages@.len() implies #[trigger] self.pages@[g].wf() by {
                assert(old(self).pages@[g].wf());
            }
            assert forall|g: FrameId| g != f implies (#[trigger] m.resident(g) <==> pre.resident(g)) by {
                if m.resident(g) {
                    assert(pre.frames[g as int] == m.frames[g as int]);
                }
            }
            assert(m.resident(f));
            assert forall|p: PageId| #[trigger] m.table.contains_key(p) implies m.table[p] < m.frame_count() && m.frames[m.table[p] as int].page_id
                == Some(p) && !m.is_free(m.table[p]) by {
                if p != page_id {
                    assert(pre.table.contains_key(p));
                    assert(pre.resident(pre.table[p]));
                }
            }
            assert forall|g: FrameId| #[trigger] m.is_free(g) implies m.frames[g as int].page_id is None by {
                assert(pre.is_free(g));
            }
            assert forall|g: FrameId| g < m.frame_count() && !#[trigger] m.resident(g) implies m.frames[g as int].pin_count == 0
                && !m.frames[g as int].dirty by {
                assert(!pre.resident(g));
            }
            assert forall|g: FrameId| #[trigger]
                m.candidates.contains(g) <==> m.resident(g) && m.frames[g as int].pin_count == 0 by {
                if g != f {
                    assert(pre.candidates.contains(g) <==> pre.resident(g) && pre.frames[g as int].pin_count == 0);
                } else {
                    assert(!pre.candidates.contains(g));
                }
            }
        }
    }

    /// Completes a miss: `page_id`, read from disk as `data`, moves into the
    /// frame that `fix_page` or `select_victim` handed out, pinned once and
    /// dirty as asked. Refused (`None`, nothing changes) unless the frame is
    /// such a frame, the page is not resident and `data` is one page long.
    pub fn load_page(&mut self, frame_id: FrameId, page_id: PageId, data: Vec<u8>, is_dirty: bool) -> (r: Option<FrameId>)
        requires
            old(self).wf(),
            old(self).can_count(),
        ensures
            final(self).wf(),
            r is Some <==> can_install(old(self)@, frame_id, page_id) && data@.len() == PAGE_SIZE,
            r is Some ==> r == Some(frame_id) && installs(old(self)@, final(self)@, frame_id, page_id, data@, is_dirty)
                && final(self)@.read_io == old(self)@.read_io + 1,
            r is None ==> final(self)@ == old(self)@,
            counters_grow(old(self)@, final(self)@),
    {
        if !self.installable(frame_id, page_id) || data.len() != PAGE_SIZE {
            return None;
        }
        let ghost d = data@;
        self.install(frame_id, page_id, data, is_dirty, true);
        Some(frame_id)
    }

    /// Places the freshly allocated, zero-filled page `page_id` into the
    /// frame that `select_victim` handed out, pinned once and dirty. Refused
    /// (`None`, nothing changes) unless the frame is such a frame and the
    /// page is not resident.
    pub fn fix_new_page(&mut self, frame_id: FrameId, page_id: PageId) -> (r: Option<FrameId>)
        requires
            old(self).wf(),
            old(self).can_count(),
        ensures
            final(self).wf(),
            r is Some <==> can_install(old(self)@, frame_id, page_id),
            r is Some ==> r == Some(frame_id) && installs(
                old(self)@,
                final(self)@,
                frame_id,
                page_id,
                Seq::new(PAGE_SIZE as nat, |i: int| 0u8),
                true,
            ) && final(self)@.read_io == old(self)@.read_io,
            r is None ==> final(self)@ == old(self)@,
            counters_grow(old(self)@, final(self)@),
    {
        if !self.installable(frame_id, page_id) {
            return None;
        }
        let zeros = vec![0u8; PAGE_SIZE];
        assert(zeros@ =~= Seq::new(PAGE_SIZE as nat, |i: int| 0u8));
        self.install(frame_id, page_id, zeros, true, false);
        Some(frame_id)
    }

    /// Releases one pin of `page_id`; the last one returns its frame to the
    /// replacer. `None` when the page is not resident.
    pub fn unfix_page(&mut self, page_id: PageId) -> (r: Option<FrameId>)
        requires
            old(self).wf(),
            old(self)@.table.contains_key(page_id) ==> old(self)@.frames[old(
                self,
            )@.table[page_id] as int].pin_count > 0,
        ensures
            final(self).wf(),
            unfix_page_post(old(self)@, final(self)@, page_id, r),
            counters_grow(old(self)@, final(self)@),
    {
        match self.page_table.get(&page_id) {
            Some(fr) => {
                let f: FrameId = *fr;
                let ghost pre = old(self)@;
                proof {
                    self.lemma_frame(f as int);
                }
                self.pages[f].decrement_pin_count();
                if self.pages[f].get_pin_count() == 0 {
                    proof {
                        let n = pre.frame_count();
                        let r = vstd::set_lib::set_int_range(0, n as int).remove(f as int);
                        vstd::set_lib::lemma_int_range(0, n as int);
                        self.replacer.lemma_candidates_bounded();
                        assert forall|g: FrameId| pre.candidates.contains(g) implies r.contains(g as int) by {
                            assert(pre.resident(g));
                        }
                        lemma_len_within(pre.candidates, r);
                    }
                    self.replacer.insert(f);
                }
                let ghost m = self@;
                proof {
                    let page = pre.frames[f as int];
                    assert(m.frames =~= pre.frames.update(
                        f as int,
                        PageModel { pin_count: (page.pin_count - 1) as nat, ..page },
                    ));
                    assert forall|g: int| 0 <= g < self.pages@.len() implies #[trigger] self.pages@[g].wf() by {
                        assert(old(self).pages@[g].wf());
                    }
                    assert forall|g: FrameId| #[trigger] m.resident(g) <==> pre.resident(g) by {}
                    assert forall|p: PageId| #[trigger] m.table.contains_key(p) implies m.table[p] < m.frame_count() && m.frames[m.table[p] as int].page_id
                        == Some(p) && !m.is_free(m.table[p]) by {
                        assert(pre.table.contains_key(p));
                    }
                    assert forall|g: FrameId| #[trigger] m.is_free(g) implies m.frames[g as int].page_id is None by {
                        assert(pre.is_free(g));
                    }
                    assert forall|g: FrameId| g < m.frame_count() && !#[trigger] m.resident(g) implies m.frames[g as int].pin_count == 0
                        && !m.frames[g as int].dirty by {
                        assert(!pre.resident(g));
                    }
                    assert forall|g: FrameId| #[trigger]
                        m.candidates.contains(g) <==> m.resident(g) && m.frames[g as int].pin_count == 0 by {
                        if g != f {
                            assert(pre.candidates.contains(g) <==> pre.resident(g) && pre.frames[g as int].pin_count == 0);
                        }
                    }
                }
                Some(f)
            },
            None => None,
        }
    }

    /// Cleans frame `f` if dirty, handing out its bytes for write-back.
    fn clean_frame(&mut self, f: FrameId) -> (r: Option<Eviction>)
        requires
            old(self).wf(),
            f < old(self)@.frame_count(),
            old(self)@.read_io + old(self)@.write_io < usize::MAX,
        ensures
            final(self).wf(),
            final(self)@ == (PoolModel {
                frames: old(self)@.frames.update(f as int, PageModel { dirty: false, ..old(self)@.frames[f as int] }),
                write_io: old(self)@.write_io + if old(self)@.frames[f as int].dirty { 1nat } else { 0nat },
                ..old(self)@
            }),
            r is Some <==> old(self)@.frames[f as int].dirty,
            r matches Some(e) ==> Some(e.page_id) == old(self)@.frames[f as int].page_id
                && e.data@ == old(self)@.frames[f as int].data,
    {
        let ghost pre = old(self)@;
        proof {
            self.lemma_frame(f as int);
        }
        if !self.pages[f].is_dirty() {
            assert(pre.frames.update(f as int, PageModel { dirty: false, ..pre.frames[f as int] }) =~= pre.frames);
            return None;
        }
        assert(pre.resident(f));
        let pid = self.pages[f].get_page_id().unwrap();
        let data = self.pages[f].get_data().clone();
        self.pages[f].set_dirty(false);
        self.num_write_io = self.num_write_io + 1;
        let ghost m = self@;
        proof {
            let page = pre.frames[f as int];
            assert(m.frames =~= pre.frames.update(f as int, PageModel { dirty: false, ..page }));
            assert forall|g: int| 0 <= g < self.pages@.len() implies #[trigger] self.pages@[g].wf() by {
                assert(old(self).pages@[g].wf());
            }
            assert forall|g: FrameId| #[trigger] m.resident(g) <==> pre.resident(g) by {}
            assert forall|p: PageId| #[trigger] m.table.contains_key(p) implies m.table[p] < m.frame_count() && m.frames[m.table[p] as int].page_id
                == Some(p) && !m.is_free(m.table[p]) by {
                assert(pre.table.contains_key(p));
            }
            assert forall|g: FrameId| #[trigger] m.is_free(g) implies m.frames[g as int].page_id is None by {
                assert(pre.is_free(g));
            }
            assert forall|g: FrameId| g < m.frame_count() && !#[trigger] m.resident(g) implies m.frames[g as int].pin_count == 0
                && !m.frames[g as int].dirty by {
                assert(!pre.resident(g));
            }
            assert forall|g: FrameId| #[trigger]
                m.candidates.contains(g) <==> m.resident(g) && m.frames[g as int].pin_count == 0 by {
                assert(pre.candidates.contains(g) <==> pre.resident(g) && pre.frames[g as int].pin_count == 0);
            }
        }
        Some(Eviction { page_id: pid, data })
    }

    /// Cleans every dirty frame, in frame order, and returns the pages whose
    /// bytes are owed to the backing file. Run it before the pool goes away.
    pub fn write_dirtys(&mut self) -> (r: Vec<Eviction>)
        requires
            old(self).wf(),
            old(self).can_count(),
        ensures
            final(self).wf(),
            final(self)@ == (PoolModel {
                frames: all_clean(old(self)@.frames),
                write_io: old(self)@.write_io + r@.len(),
                ..old(self)@
            }),
            counters_grow(old(self)@, final(self)@),
            r@.len() == dirty_frames(old(self)@.frames).len(),
            forall|i: int| 0 <= i < r@.len() ==> Some(#[trigger] r@[i].page_id) == dirty_frames(old(self)@.frames)[i].page_id
                && r@[i].data@ == dirty_frames(old(self)@.frames)[i].data,
    {
        let ghost pre = old(self)@;
        let n = self.pages.len();
        let mut r: Vec<Eviction> = Vec::new();
        let mut k: usize = 0;
        while k < n
            invariant
                self.wf(),
                n == pre.frame_count(),
                k <= n,
                self@.frames.len() == n,
                forall|j: int| 0 <= j < k ==> #[trigger] self@.frames[j] == (PageModel { dirty: false, ..pre.frames[j] }),
                forall|j: int| k <= j < n ==> #[trigger] self@.frames[j] == pre.frames[j],
                self@.table == pre.table,
                self@.free == pre.free,
                self@.candidates == pre.candidates,
                self@.policy == pre.policy,
                self@.read_io == pre.read_io,
                self@.hits == pre.hits,
                self@.write_io == pre.write_io + r@.len(),
                r@.len() <= k,
                pre.read_io + pre.write_io + n + 2 <= usize::MAX,
                r@.len() == dirty_frames(pre.frames.subrange(0, k as int)).len(),
                forall|i: int| 0 <= i < r@.len() ==> Some(#[trigger] r@[i].page_id) == dirty_frames(pre.frames.subrange(0, k as int))[i].page_id
                    && r@[i].data@ == dirty_frames(pre.frames.subrange(0, k as int))[i].data,
            decreases n - k,
        {
            let ghost before = r@;
            let e = self.clean_frame(k);
            proof {
                assert(pre.frames.subrange(0, k + 1).drop_last() =~= pre.frames.subrange(0, k as int));
                assert(pre.frames.subrange(0, k + 1).last() == pre.frames[k as int]);
            }
            if let Some(e) = e {
                r.push(e);
            }
            k = k + 1;
            proof {
                let d = dirty_frames(pre.frames.subrange(0, k as int));
                assert forall|i: int| 0 <= i < r@.len() implies Some(#[trigger] r@[i].page_id) == d[i].page_id
                    && r@[i].data@ == d[i].data by {
                    if i < before.len() {
                        assert(r@[i] == before[i]);
                    }
                }
            }
        }
        proof {
            assert(pre.frames.subrange(0, n as int) =~= pre.frames);
            assert(self@.frames =~= all_clean(pre.frames));
        }
        r
    }

    pub fn num_free_frames(&self) -> (r: usize)
        ensures
            r == self@.free.len(),
    {
        self.free_list.len()
    }

    pub fn get_read_io_num(&self) -> (r: usize)
        ensures
            r == self@.read_io,
    {
        self.num_read_io
    }

    pub fn get_write_io_num(&self) -> (r: usize)
        ensures
            r == self@.write_io,
    {
        self.num_write_io
    }

    /// Reads and writes together.
    pub fn get_io_num(&self) -> (r: usize)
        requires
            self.wf(),
        ensures
            r == self@.read_io + self@.write_io,
    {
        self.num_read_io + self.num_write_io
    }

    pub fn get_hit_num(&self) -> (r: usize)
        ensures
            r == self@.hits,
    {
        self.num_hits
    }

    /// Whether the counters have room for one more operation.
    pub fn has_counter_room(&self) -> (r: bool)
        ensures
            r == self.can_count(),
    {
        self.num_hits < usize::MAX && self.num_read_io <= usize::MAX - self.num_write_io
            && self.num_read_io + self.num_write_io <= usize::MAX - 2
            && self.pages.len() <= usize::MAX - 2 - (self.num_read_io + self.num_write_io)
    }

    /// How many frames the replacer tracks: the resident frames nobody pins.
    pub fn replacer_size(&self) -> (r: usize)
        requires
            self.wf(),
        ensures
            r == self@.unpinned_resident().len(),
    {
        proof {
            lemma_replacer_tracks_unpinned(self);
        }
        self.replacer.size()
    }

    /// The replacer, for inspection.
    pub fn replacer(&self) -> (r: &PolicyReplacer)
        requires
            self.wf(),
        ensures
            r.wf(),
            r.candidates() == self@.candidates,
    {
        &self.replacer
    }

    /// Number of frames.
    pub fn frame_count(&self) -> (r: usize)
        ensures
            r == self@.frame_count(),
    {
        self.pages.len()
    }

    /// The contents of frame `frame_id`.
    pub fn frame(&self, frame_id: FrameId) -> (r: &Page)
        requires
            frame_id < self@.frame_count(),
        ensures
            r@ == self@.frames[frame_id as int],
    {
        &self.pages[frame_id]
    }

    /// The frame holding `page_id`, if resident.
    pub fn lookup(&self, page_id: PageId) -> (r: Option<FrameId>)
        ensures
            r == (if self@.table.contains_key(page_id) {
                Some(self@.table[page_id])
            } else {
                None
            }),
    {
        match self.page_table.get(&page_id) {
            Some(f) => Some(*f),
            None => None,
        }
    }

    /// The resident pages with their frames, in no particular order.
    pub fn resident_pages(&self) -> (r: Vec<(PageId, FrameId)>)
        requires
            self.wf(),
        ensures
            forall|i: int| 0 <= i < r@.len() ==> self@.table.contains_key(#[trigger] r@[i].0)
                && self@.table[r@[i].0] == r@[i].1,
            forall|p: PageId| #[trigger] self@.table.contains_key(p) ==> r@.contains((p, self@.table[p])),
    {
        let mut r: Vec<(PageId, FrameId)> = Vec::new();
        let n = self.pages.len();
        let mut f: usize = 0;
        while f < n
            invariant
                self.wf(),
                n == self@.frame_count(),
                f <= n,
                forall|i: int| 0 <= i < r@.len() ==> self@.table.contains_key(#[trigger] r@[i].0)
                    && self@.table[r@[i].0] == r@[i].1,
                forall|p: PageId| #[trigger] self@.table.contains_key(p) && self@.table[p] < f
                    ==> r@.contains((p, self@.table[p])),
            decreases n - f,
        {
            let ghost before = r@;
            proof {
                self.lemma_frame(f as int);
            }
            if self.is_resident(f) {
                let p = self.pages[f].get_page_id().unwrap();
                r.push((p, f));
                proof {
                    assert(r@[r@.len() - 1] == (p, f));
                }
            }
            proof {
                assert forall|p: PageId| #[trigger] self@.table.contains_key(p) && self@.table[p] < f + 1
                    implies r@.contains((p, self@.table[p])) by {
                    if self@.table[p] < f {
                        let i = choose|i: int| 0 <= i < before.len() && before[i] == (p, self@.table[p]);
                        assert(r@[i] == before[i]);
                    } else {
                        assert(self@.resident(f));
                        assert(r@[r@.len() - 1] == (p, f));
                    }
                }
            }
            f = f + 1;
        }
        r
    }

    /// Marks the page in frame `frame_id` dirty; a frame holding no resident
    /// page is left alone.
    pub fn set_dirty(&mut self, frame_id: FrameId)
        requires
            old(self).wf(),
        ensures
            final(self).wf(),
            frame_id < old(self)@.frame_count() && old(self)@.resident(frame_id) ==> final(self)@ == (PoolModel {
                frames: old(self)@.frames.update(frame_id as int, PageModel { dirty: true, ..old(self)@.frames[frame_id as int] }),
                ..old(self)@
            }),
            !(frame_id < old(self)@.frame_count() && old(self)@.resident(frame_id)) ==> final(self)@ == old(self)@,
            counters_grow(old(self)@, final(self)@),
    {
        if frame_id >= self.pages.len() || !self.is_resident(frame_id) {
            return;
        }
        let ghost pre = old(self)@;
        proof {
            self.lemma_frame(frame_id as int);
        }
        self.pages[frame_id].set_dirty(true);
        let ghost m = self@;
        proof {
            let f = frame_id;
            let page = pre.frames[f as int];
            assert(m.frames =~= pre.frames.update(f as int, PageModel { dirty: true, ..page }));
            assert forall|g: int| 0 <= g < self.pages@.len() implies #[trigger] self.pages@[g].wf() by {
                assert(old(self).pages@[g].wf());
            }
            assert forall|g: FrameId| #[trigger] m.resident(g) <==> pre.resident(g) by {}
            assert forall|p: PageId| #[trigger] m.table.contains_key(p) implies m.table[p] < m.frame_count() && m.frames[m.table[p] as int].page_id
                == Some(p) && !m.is_free(m.table[p]) by {
                assert(pre.table.contains_key(p));
            }
            assert forall|g: FrameId| #[trigger] m.is_free(g) implies m.frames[g as int].page_id is None by {
                assert(pre.is_free(g));
            }
            assert forall|g: FrameId| g < m.frame_count() && !#[trigger] m.resident(g) implies m.frames[g as int].pin_count == 0
                && !m.frames[g as int].dirty by {
                assert(!pre.resident(g));
            }
            assert forall|g: FrameId| #[trigger]
                m.candidates.contains(g) <==> m.resident(g) && m.frames[g as int].pin_count == 0 by {
                assert(pre.candidates.contains(g) <==> pre.resident(g) && pre.frames[g as int].pin_count == 0);
            }
        }
    }
}

/// Resident pages and never-used frames together never outnumber the
/// frames.
pub proof fn lemma_occupancy_bound(bm: &BMgr)
    requires
        bm.wf(),
    ensures
        bm@.table.dom().finite(),
        bm@.table.dom().len() + bm@.free.len() <= bm@.frame_count(),
{
    let m = bm@;
    let n = m.frame_count();
    let dom = m.table.dom();
    let to_frame = |p: PageId| m.table[p];
    let used = dom.map(to_frame);
    assert(vstd::relations::injective_on(to_frame, dom)) by {
        assert forall|p: PageId, q: PageId|
            dom.contains(p) && dom.contains(q) && #[trigger] to_frame(p) == #[trigger] to_frame(q)
            implies p == q by {
            assert(m.frames[m.table[p] as int].page_id == Some(p));
            assert(m.frames[m.table[q] as int].page_id == Some(q));
        }
    }
    vstd::set_lib::lemma_map_size(dom, used, to_frame);
    let range = vstd::set_lib::set_int_range(0, n - m.free.len());
    vstd::set_lib::lemma_int_range(0, n - m.free.len());
    assert forall|g: FrameId| used.contains(g) implies range.contains(g as int) by {
        let p = choose|p: PageId| dom.contains(p) && to_frame(p) == g;
        assert(m.table.contains_key(p));
        assert(!m.is_free(m.table[p]));
    }
    lemma_len_within(used, range);
}

/// Every page-table entry names a frame that holds that page, so no two
/// entries share a frame.
pub proof fn lemma_table_agrees(bm: &BMgr)
    requires
        bm.wf(),
    ensures
        forall|p: PageId| #[trigger] bm@.table.contains_key(p) ==> bm@.table[p] < bm@.frame_count()
            && bm@.frames[bm@.table[p] as int].page_id == Some(p) && bm@.resident(bm@.table[p]),
        forall|p: PageId, q: PageId|
            bm@.table.contains_key(p) && bm@.table.contains_key(q) && #[trigger] bm@.table[p]
                == #[trigger] bm@.table[q] ==> p == q,
{
    assert forall|p: PageId, q: PageId|
        bm@.table.contains_key(p) && bm@.table.contains_key(q) && #[trigger] bm@.table[p]
            == #[trigger] bm@.table[q] implies p == q by {
        assert(bm@.frames[bm@.table[p] as int].page_id == Some(p));
        assert(bm@.frames[bm@.table[q] as int].page_id == Some(q));
    }
}

/// The replacer tracks exactly the resident frames that nobody pins. When
/// no frame sits between eviction and refill, those are exactly the frames
/// that hold some page and nobody pins.
pub proof fn lemma_replacer_tracks_unpinned(bm: &BMgr)
    requires
        bm.wf(),
    ensures
        bm@.candidates == bm@.unpinned_resident(),
        bm@.candidates.finite(),
        (forall|f: FrameId| f < bm@.frame_count() && (#[trigger] bm@.frames[f as int]).page_id is Some
            ==> bm@.resident(f)) ==> bm@.candidates == Set::new(
            |f: FrameId| f < bm@.frame_count() && bm@.frames[f as int].page_id is Some
                && bm@.frames[f as int].pin_count == 0,
        ),
{
    bm.replacer.lemma_candidates_bounded();
    assert(bm@.candidates =~= bm@.unpinned_resident());
    if forall|f: FrameId| f < bm@.frame_count() && (#[trigger] bm@.frames[f as int]).page_id is Some
        ==> bm@.resident(f) {
        assert(bm@.candidates =~= Set::new(
            |f: FrameId| f < bm@.frame_count() && bm@.frames[f as int].page_id is Some
                && bm@.frames[f as int].pin_count == 0,
        ));
    }
}

/// A page that was fixed and then unfixed is still resident, so fixing it
/// again is a hit on the same frame.
pub proof fn lemma_refix_hits(
    fixed: PoolModel,
    unfixed: PoolModel,
    refixed: PoolModel,
    page_id: PageId,
    is_dirty: bool,
    r_unfix: Option<FrameId>,
    r_fix: FixOutcome,
)
    requires
        fixed.table.contains_key(page_id),
        fixed.table[page_id] < fixed.frame_count(),
        0 < fixed.frames[fixed.table[page_id] as int].pin_count <= usize::MAX,
        unfix_page_post(fixed, unfixed, page_id, r_unfix),
        fix_page_post(unfixed, refixed, page_id, is_dirty, r_fix),
    ensures
        r_fix matches FixOutcome::Hit(f) && f == fixed.table[page_id],
        refixed.hits == unfixed.hits + 1,
{
    let f = fixed.table[page_id];
    assert(unfixed.table == fixed.table);
    assert(unfixed.frames[f as int].pin_count < usize::MAX);
}

/// While never-used frames remain, a new residency takes one of them:
/// nothing is evicted and nothing is written.
pub proof fn lemma_free_frames_never_evict(pre: PoolModel, post: PoolModel, r: Option<Victim>)
    requires
        pre.free.len() > 0,
        select_victim_post(pre, post, r),
    ensures
        r matches Some(v) && v.evicted is None,
        post.write_io == pre.write_io,
        post.table == pre.table,
        post.free.len() == pre.free.len() - 1,
{
}

/// Once no never-used frame is left, a new residency writes at most one
/// page, and only when some resident page was dirty.
pub proof fn lemma_full_pool_writes_at_most_one(pre: PoolModel, post: PoolModel, r: Option<Victim>)
    requires
        pre.free.len() == 0,
        select_victim_post(pre, post, r),
    ensures
        post.write_io <= pre.write_io + 1,
        post.write_io == pre.write_io + 1 ==> exists|f: FrameId|
            pre.resident(f) && #[trigger] pre.frames[f as int].dirty,
        (forall|f: FrameId| #[trigger] pre.resident(f) ==> !pre.frames[f as int].dirty) ==> post.write_io
            == pre.write_io,
{
    if let Some(v) = r {
        assert(pre.resident(v.frame_id));
    }
}

/// With every frame pinned, fixing a page that is not resident finds no
/// frame and changes nothing.
pub proof fn lemma_all_pinned_exhausted(
    bm: &BMgr,
    post: PoolModel,
    page_id: PageId,
    is_dirty: bool,
    r: FixOutcome,
)
    requires
        bm.wf(),
        forall|f: FrameId| f < bm@.frame_count() ==> #[trigger] bm@.resident(f)
            && bm@.frames[f as int].pin_count > 0,
        !bm@.table.contains_key(page_id),
        fix_page_post(bm@, post, page_id, is_dirty, r),
    ensures
        r is Exhausted,
        post == bm@,
{
    let m = bm@;
    if m.free.len() > 0 {
        let f = m.free[0];
        assert(bm.free_list@[0] == m.frame_count() - 1);
        assert(m.is_free(f));
        assert(m.resident(f));
    }
    if !m.candidates.is_empty() {
        let g = m.candidates.choose();
        assert(m.candidates.contains(g));
        assert(m.resident(g));
    }
}

} // verus!
