//! Eviction policies: each tracks the unpinned resident frames (its
//! candidates) and elects one of them as victim on demand.
use vstd::prelude::*;

use crate::config::FrameId;

pub mod clock_replacer;
pub mod lru_replacer;


pub use clock_replacer::{clock_inserted, clock_removed, swept, ClockEntry, ClockReplacer};
pub use lru_replacer::{lru_inserted, lru_removed, LruReplacer};

use crate::config::ReplacePolicy;

verus! {

/// How the tracked set changes when a victim is asked for: `None` only when
/// nothing is tracked, else the victim leaves the set.
pub open spec fn victim_sets(pre: Set<FrameId>, post: Set<FrameId>, r: Option<FrameId>) -> bool {
    match r {
        None => pre.is_empty() && post == pre,
        Some(f) => pre.contains(f) && post == pre.remove(f),
    }
}

/// How the tracked set changes on insert: the frame joins it; past
/// capacity one other frame leaves to make room; with no capacity at all
/// nothing changes.
pub open spec fn insert_sets(pre: Set<FrameId>, post: Set<FrameId>, f: FrameId, capacity: nat) -> bool {
    &&& pre.contains(f) || pre.len() < capacity ==> post == pre.insert(f)
    &&& !pre.contains(f) && pre.len() >= capacity > 0 ==> exists|g: FrameId|
        pre.contains(g) && post == pre.remove(g).insert(f)
    &&& capacity == 0 ==> post == pre
}

/// The contract every eviction policy meets, stated over its candidate set.
pub trait Replacer: Sized {
    spec fn wf(&self) -> bool;

    /// The frames currently tracked.
    spec fn candidates(&self) -> Set<FrameId>;

    /// How many frames may be tracked at once.
    spec fn capacity(&self) -> nat;

    proof fn lemma_candidates_bounded(&self)
        requires
            self.wf(),
        ensures
            self.candidates().finite(),
            self.candidates().len() <= self.capacity(),
    ;

    /// Elects a victim and stops tracking it.
    fn victim(&mut self) -> (r: Option<FrameId>)
        requires
            old(self).wf(),
        ensures
            final(self).wf(),
            final(self).capacity() == old(self).capacity(),
            victim_sets(old(self).candidates(), final(self).candidates(), r),
    ;

    /// Tracks a frame (or refreshes it).
    fn insert(&mut self, frame_id: FrameId)
        requires
            old(self).wf(),
        ensures
            final(self).wf(),
            final(self).capacity() == old(self).capacity(),
            insert_sets(old(self).candidates(), final(self).candidates(), frame_id, old(self).capacity()),
    ;

    /// Stops tracking a frame; nothing happens if it is not tracked.
    fn remove(&mut self, frame_id: FrameId)
        requires
            old(self).wf(),
        ensures
            final(self).wf(),
            final(self).capacity() == old(self).capacity(),
            final(self).candidates() == old(self).candidates().remove(frame_id),
    ;

    /// How many frames are tracked.
    fn size(&self) -> (r: usize)
        requires
            self.wf(),
        ensures
            r == self.candidates().len(),
    ;
}

/// The state of a replacer of either policy: LRU's recency order (least
/// recent first) or the clock's entries in hand order.
pub enum PolicyModel {
    Lru(Seq<FrameId>),
    Clock(Seq<ClockEntry>),
}

/// The frame the policy elects next, if any.
pub open spec fn policy_victim(m: PolicyModel) -> Option<FrameId> {
    match m {
        PolicyModel::Lru(s) => if s.len() > 0 {
            Some(s[0])
        } else {
            None
        },
        PolicyModel::Clock(s) => if s.len() > 0 {
            Some(swept(s)[0].frame_id)
        } else {
            None
        },
    }
}

/// The state once the elected frame has left.
pub open spec fn policy_after_victim(m: PolicyModel) -> PolicyModel {
    match m {
        PolicyModel::Lru(s) => PolicyModel::Lru(
            if s.len() > 0 {
                s.drop_first()
            } else {
                s
            },
        ),
        PolicyModel::Clock(s) => PolicyModel::Clock(
            if s.len() > 0 {
                swept(s).drop_first()
            } else {
                s
            },
        ),
    }
}

pub open spec fn policy_removed(m: PolicyModel, f: FrameId) -> PolicyModel {
    match m {
        PolicyModel::Lru(s) => PolicyModel::Lru(lru_removed(s, f)),
        PolicyModel::Clock(s) => PolicyModel::Clock(clock_removed(s, f)),
    }
}

pub open spec fn policy_inserted(m: PolicyModel, f: FrameId, capacity: nat) -> PolicyModel {
    match m {
        PolicyModel::Lru(s) => PolicyModel::Lru(lru_inserted(s, f, capacity)),
        PolicyModel::Clock(s) => PolicyModel::Clock(clock_inserted(s, f, capacity)),
    }
}

/// A replacer chosen at run time by policy.
pub enum PolicyReplacer {
    Lru(LruReplacer),
    Clock(ClockReplacer),
}

impl PolicyReplacer {
    pub open spec fn model(&self) -> PolicyModel {
        match self {
            PolicyReplacer::Lru(r) => PolicyModel::Lru(r@),
            PolicyReplacer::Clock(r) => PolicyModel::Clock(r@),
        }
    }

    pub fn new(policy: ReplacePolicy, frame_num: usize) -> (r: Self)
        ensures
            r.wf(),
            r.candidates() == Set::<FrameId>::empty(),
            r.capacity() == frame_num,
            r.model() == (match policy {
                ReplacePolicy::Lru => PolicyModel::Lru(Seq::empty()),
                ReplacePolicy::Clock => PolicyModel::Clock(Seq::empty()),
            }),
    {
        let r = match policy {
            ReplacePolicy::Lru => PolicyReplacer::Lru(LruReplacer::new(frame_num)),
            ReplacePolicy::Clock => PolicyReplacer::Clock(ClockReplacer::new(frame_num)),
        };
        proof {
            assert(r.candidates() =~= Set::<FrameId>::empty());
        }
        r
    }

    /// Elects the policy's victim and stops tracking it.
    pub fn victim(&mut self) -> (r: Option<FrameId>)
        requires
            old(self).wf(),
        ensures
            final(self).wf(),
            final(self).capacity() == old(self).capacity(),
            victim_sets(old(self).candidates(), final(self).candidates(), r),
            r == policy_victim(old(self).model()),
            final(self).model() == policy_after_victim(old(self).model()),
    {
        match self {
            PolicyReplacer::Lru(r) => r.victim(),
            PolicyReplacer::Clock(r) => r.victim(),
        }
    }

    pub fn insert(&mut self, frame_id: FrameId)
        requires
            old(self).wf(),
        ensures
            final(self).wf(),
            final(self).capacity() == old(self).capacity(),
            insert_sets(old(self).candidates(), final(self).candidates(), frame_id, old(self).capacity()),
            final(self).model() == policy_inserted(old(self).model(), frame_id, old(self).capacity()),
    {
        match self {
            PolicyReplacer::Lru(r) => r.insert(frame_id),
            PolicyReplacer::Clock(r) => r.insert(frame_id),
        }
    }

    pub fn remove(&mut self, frame_id: FrameId)
        requires
            old(self).wf(),
        ensures
            final(self).wf(),
            final(self).capacity() == old(self).capacity(),
            final(self).candidates() == old(self).candidates().remove(frame_id),
            final(self).model() == policy_removed(old(self).model(), frame_id),
    {
        match self {
            PolicyReplacer::Lru(r) => r.remove(frame_id),
            PolicyReplacer::Clock(r) => r.remove(frame_id),
        }
    }

    pub fn size(&self) -> (r: usize)
        requires
            self.wf(),
        ensures
            r == self.candidates().len(),
    {
        match self {
            PolicyReplacer::Lru(r) => Replacer::size(r),
            PolicyReplacer::Clock(r) => Replacer::size(r),
        }
    }
}

impl Replacer for PolicyReplacer {
    open spec fn wf(&self) -> bool {
        match self {
            PolicyReplacer::Lru(r) => r.wf(),
            PolicyReplacer::Clock(r) => r.wf(),
        }
    }

    open spec fn candidates(&self) -> Set<FrameId> {
        match self {
            PolicyReplacer::Lru(r) => r.candidates(),
            PolicyReplacer::Clock(r) => r.candidates(),
        }
    }

    open spec fn capacity(&self) -> nat {
        match self {
            PolicyReplacer::Lru(r) => r.capacity(),
            PolicyReplacer::Clock(r) => r.capacity(),
        }
    }

    proof fn lemma_candidates_bounded(&self) {
        match self {
            PolicyReplacer::Lru(r) => r.lemma_candidates_bounded(),
            PolicyReplacer::Clock(r) => r.lemma_candidates_bounded(),
        }
    }

    fn victim(&mut self) -> (r: Option<FrameId>) {
        PolicyReplacer::victim(self)
    }

    fn insert(&mut self, frame_id: FrameId) {
        PolicyReplacer::insert(self, frame_id)
    }

    fn remove(&mut self, frame_id: FrameId) {
        PolicyReplacer::remove(self, frame_id)
    }

    fn size(&self) -> (r: usize) {
        PolicyReplacer::size(self)
    }
}

/// Removing one entry of a sequence without duplicates removes exactly that
/// value from its set of elements.
pub(crate) proof fn lemma_remove_at_to_set(s: Seq<FrameId>, i: int)
    requires
        s.no_duplicates(),
        0 <= i < s.len(),
    ensures
        s.remove(i).to_set() == s.to_set().remove(s[i]),
        s.remove(i).no_duplicates(),
{
    let t = s.remove(i);
    assert forall|x: FrameId| t.to_set().contains(x) <==> s.to_set().remove(s[i]).contains(x) by {
        if t.contains(x) {
            let j = choose|j: int| 0 <= j < t.len() && t[j] == x;
            if j < i {
                assert(s[j] == x);
            } else {
                assert(s[j + 1] == x);
            }
        }
        if s.contains(x) && x != s[i] {
            let j = choose|j: int| 0 <= j < s.len() && s[j] == x;
            if j < i {
                assert(t[j] == x);
            } else {
                assert(t[j - 1] == x);
            }
        }
    }
    assert(t.to_set() =~= s.to_set().remove(s[i]));
}

/// A slot at one position of a list without duplicates is absent once that
/// position is removed.
pub(crate) proof fn lemma_remove_at_index_absent(o: Seq<usize>, i: int)
    requires
        o.no_duplicates(),
        0 <= i < o.len(),
    ensures
        !o.remove(i).contains(o[i]),
{
    if o.remove(i).contains(o[i]) {
        let k = choose|k: int| 0 <= k < o.remove(i).len() && o.remove(i)[k] == o[i];
        if k < i {
            assert(o[k] == o[i]);
        } else {
            assert(o[k + 1] == o[i]);
        }
    }
}

} // verus!
