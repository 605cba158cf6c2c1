use vstd::prelude::*;

use std::collections::HashMap;

use crate::config::FrameId;
use crate::replacer::{
    insert_sets, lemma_remove_at_index_absent, lemma_remove_at_to_set, victim_sets, Replacer,
};

verus! {

broadcast use {vstd::seq_lib::group_seq_properties, vstd::std_specs::hash::group_hash_axioms};

/// Marks the absence of a neighbour.
const NIL: usize = usize::MAX;

/// A list node: a frame id and the slots of its neighbours.
#[derive(Clone, Copy)]
struct LruNode {
    frame_id: FrameId,
    prev: usize,
    next: usize,
}

/// Least-recently-used eviction. The tracked frames form a doubly-linked
/// list, threaded through an arena of nodes by slot index: the head is the
/// least recently used, the tail the most recently used. A map from frame id
/// to slot makes every operation constant-time.
pub struct LruReplacer {
    nodes: Vec<LruNode>,
    spare: Vec<usize>,
    head: usize,
    tail: usize,
    slots: HashMap<FrameId, usize>,
    capacity: usize,
    /// The slots of the list, head first.
    order: Ghost<Seq<usize>>,
}

/// `order` is a well-linked list through `nodes`, from `head` to `tail`.
spec fn linked(nodes: Seq<LruNode>, order: Seq<usize>, head: usize, tail: usize) -> bool {
    &&& order.no_duplicates()
    &&& nodes.len() <= NIL
    &&& forall|i: int| 0 <= i < order.len() ==> #[trigger] order[i] < nodes.len()
    &&& order.len() == 0 ==> head == NIL && tail == NIL
    &&& order.len() > 0 ==> head == order[0] && tail == order.last()
    &&& forall|i: int|
        0 <= i < order.len() ==> (#[trigger] nodes[order[i] as int]).prev == (if i == 0 {
            NIL
        } else {
            order[i - 1]
        })
    &&& forall|i: int|
        0 <= i < order.len() ==> (#[trigger] nodes[order[i] as int]).next == (if i == order.len()
            - 1 {
            NIL
        } else {
            order[i + 1]
        })
}

spec fn frames_along(nodes: Seq<LruNode>, order: Seq<usize>) -> Seq<FrameId> {
    order.map_values(|s: usize| nodes[s as int].frame_id)
}

/// Where `f` stands in `s`.
pub open spec fn position_of(s: Seq<FrameId>, f: FrameId) -> int {
    choose|i: int| 0 <= i < s.len() && s[i] == f
}

/// `s` without `f`.
pub open spec fn lru_removed(s: Seq<FrameId>, f: FrameId) -> Seq<FrameId> {
    if s.contains(f) {
        s.remove(position_of(s, f))
    } else {
        s
    }
}

/// Recency order after `f` is used: it moves (or is added) to the back, and
/// past `capacity` the front leaves.
pub open spec fn lru_inserted(s: Seq<FrameId>, f: FrameId, capacity: nat) -> Seq<FrameId> {
    if s.contains(f) {
        lru_removed(s, f).push(f)
    } else if s.len() < capacity {
        s.push(f)
    } else {
        s.push(f).drop_first()
    }
}

proof fn lemma_position_unique(s: Seq<FrameId>, i: int)
    requires
        s.no_duplicates(),
        0 <= i < s.len(),
    ensures
        position_of(s, s[i]) == i,
{
    let j = position_of(s, s[i]);
    assert(0 <= j < s.len() && s[j] == s[i]);
}

/// Same frame ids in every slot.
spec fn same_frames(a: Seq<LruNode>, b: Seq<LruNode>) -> bool {
    a.len() == b.len() && forall|k: int| 0 <= k < a.len() ==> #[trigger] a[k].frame_id == b[k].frame_id
}

impl View for LruReplacer {
    type V = Seq<FrameId>;

    closed spec fn view(&self) -> Seq<FrameId> {
        frames_along(self.nodes@, self.order@)
    }
}

impl LruReplacer {
    pub closed spec fn spec_capacity(&self) -> nat {
        self.capacity as nat
    }

    pub closed spec fn inv(&self) -> bool {
        let o = self.order@;
        let nd = self.nodes@;
        &&& linked(nd, o, self.head, self.tail)
        &&& self@.no_duplicates()
        &&& o.len() <= self.capacity
        &&& forall|f: FrameId| #[trigger] self.slots@.contains_key(f) <==> self@.contains(f)
        &&& forall|i: int| 0 <= i < o.len() ==> self.slots@[#[trigger] nd[o[i] as int].frame_id] == o[i]
        &&& self.spare@.no_duplicates()
        &&& forall|j: int| 0 <= j < self.spare@.len() ==> #[trigger] self.spare@[j] < nd.len()
            && !o.contains(self.spare@[j])
        &&& nd.len() == o.len() + self.spare@.len()
    }

    pub fn new(frame_num: usize) -> (r: Self)
        ensures
            r.inv(),
            r@ == Seq::<FrameId>::empty(),
            r.spec_capacity() == frame_num,
    {
        let r = LruReplacer {
            nodes: Vec::new(),
            spare: Vec::new(),
            head: NIL,
            tail: NIL,
            slots: HashMap::new(),
            capacity: frame_num,
            order: Ghost(Seq::empty()),
        };
        assert(r@ =~= Seq::<FrameId>::empty());
        r
    }

    /// Takes the node at position `i` of the list out of it.
    fn unlink(&mut self, Ghost(i): Ghost<int>, s: usize)
        requires
            linked(old(self).nodes@, old(self).order@, old(self).head, old(self).tail),
            0 <= i < old(self).order@.len(),
            old(self).order@[i] == s,
        ensures
            linked(final(self).nodes@, final(self).order@, final(self).head, final(self).tail),
            final(self).order@ == old(self).order@.remove(i),
            same_frames(final(self).nodes@, old(self).nodes@),
            final(self).spare == old(self).spare,
            final(self).slots == old(self).slots,
            final(self).capacity == old(self).capacity,
    {
        let ghost o = self.order@;
        let ghost nd = self.nodes@;
        let p = self.nodes[s].prev;
        let n = self.nodes[s].next;
        if p != NIL {
            let mut node = self.nodes[p];
            node.next = n;
            self.nodes.set(p, node);
        } else {
            self.head = n;
        }
        if n != NIL {
            let mut node = self.nodes[n];
            node.prev = p;
            self.nodes.set(n, node);
        } else {
            self.tail = p;
        }
        self.order = Ghost(o.remove(i));
        proof {
            let o2 = o.remove(i);
            let nd2 = self.nodes@;
            assert(i > 0 ==> p == o[i - 1]);
            assert(i < o.len() - 1 ==> n == o[i + 1]);
            assert forall|k: int| 0 <= k < o2.len() implies #[trigger] o2[k] < nd2.len() by {
                if k < i {
                    assert(o2[k] == o[k]);
                } else {
                    assert(o2[k] == o[k + 1]);
                }
            }
            assert forall|k: int| 0 <= k < o2.len() implies (#[trigger] nd2[o2[k] as int]).prev == (if k == 0 {
                NIL
            } else {
                o2[k - 1]
            }) by {
                if k < i {
                    assert(o2[k] == o[k]);
                    if k > 0 {
                        assert(o2[k - 1] == o[k - 1]);
                    }
                    assert(o[k] != n);
                } else {
                    assert(o2[k] == o[k + 1]);
                    if k > i {
                        assert(o2[k - 1] == o[k]);
                        assert(o[k + 1] != n);
                        assert(o[k + 1] != p);
                    } else if k > 0 {
                        assert(o2[k - 1] == o[k - 1]);
                    }
                }
            }
            assert forall|k: int| 0 <= k < o2.len() implies (#[trigger] nd2[o2[k] as int]).next == (if k == o2.len() - 1 {
                NIL
            } else {
                o2[k + 1]
            }) by {
                if k < i {
                    assert(o2[k] == o[k]);
                    if k + 1 < i {
                        assert(o2[k + 1] == o[k + 1]);
                        assert(o[k] != p);
                        assert(o[k] != n);
                    } else if k + 1 < o2.len() {
                        assert(o2[k + 1] == o[k + 2]);
                    }
                } else {
                    assert(o2[k] == o[k + 1]);
                    assert(o[k + 1] != p);
                    if k + 1 < o2.len() {
                        assert(o2[k + 1] == o[k + 2]);
                    }
                }
            }
            assert(o2.len() > 0 ==> self.head == o2[0] && self.tail == o2.last());
            assert forall|k: int| 0 <= k < nd.len() implies #[trigger] nd2[k].frame_id == nd[k].frame_id by {}
        }
    }

    /// Appends the node in slot `s`, not on the list, at the tail.
    fn link_back(&mut self, s: usize)
        requires
            linked(old(self).nodes@, old(self).order@, old(self).head, old(self).tail),
            s < old(self).nodes@.len(),
            !old(self).order@.contains(s),
        ensures
            linked(final(self).nodes@, final(self).order@, final(self).head, final(self).tail),
            final(self).order@ == old(self).order@.push(s),
            same_frames(final(self).nodes@, old(self).nodes@),
            final(self).spare == old(self).spare,
            final(self).slots == old(self).slots,
            final(self).capacity == old(self).capacity,
    {
        let ghost o = self.order@;
        let ghost nd = self.nodes@;
        let t = self.tail;
        let mut node = self.nodes[s];
        node.prev = t;
        node.next = NIL;
        self.nodes.set(s, node);
        if t != NIL {
            let mut last = self.nodes[t];
            last.next = s;
            self.nodes.set(t, last);
        } else {
            self.head = s;
        }
        self.tail = s;
        self.order = Ghost(o.push(s));
        proof {
            let o2 = o.push(s);
            let nd2 = self.nodes@;
            assert(o.len() > 0 ==> t == o.last());
            assert forall|k: int| 0 <= k < o2.len() implies #[trigger] o2[k] < nd2.len() by {}
            assert forall|k: int| 0 <= k < o2.len() implies (#[trigger] nd2[o2[k] as int]).prev == (if k == 0 {
                NIL
            } else {
                o2[k - 1]
            }) by {
                if k < o.len() {
                    assert(o[k] != s);
                    if k == o.len() - 1 {
                        assert(o[k] == t);
                    }
                }
            }
            assert forall|k: int| 0 <= k < o2.len() implies (#[trigger] nd2[o2[k] as int]).next == (if k == o2.len() - 1 {
                NIL
            } else {
                o2[k + 1]
            }) by {
                if k < o.len() {
                    assert(o[k] != s);
                }
            }
            assert forall|k: int| 0 <= k < nd.len() implies #[trigger] nd2[k].frame_id == nd[k].frame_id by {}
        }
    }

    proof fn lemma_position(&self, f: FrameId) -> (i: int)
        requires
            self.inv(),
            self.slots@.contains_key(f),
        ensures
            0 <= i < self.order@.len(),
            self.order@[i] == self.slots@[f],
            self@[i] == f,
    {
        assert(self@.contains(f));
        let i = choose|i: int| 0 <= i < self@.len() && self@[i] == f;
        assert(self.nodes@[self.order@[i] as int].frame_id == f);
        i
    }

    /// The state after the node at position `i` (frame `f`, slot `s`) left
    /// the list, its map entry and its slot were given back.
    proof fn lemma_after_unlink(&self, pre: &Self, i: int, s: usize, f: FrameId)
        requires
            pre.inv(),
            0 <= i < pre.order@.len(),
            pre.order@[i] == s,
            pre@[i] == f,
            linked(self.nodes@, self.order@, self.head, self.tail),
            self.order@ == pre.order@.remove(i),
            same_frames(self.nodes@, pre.nodes@),
            self.slots@ == pre.slots@.remove(f),
            self.spare@ == pre.spare@.push(s),
            self.capacity == pre.capacity,
        ensures
            self.inv(),
            self@ == pre@.remove(i),
    {
        let o = pre.order@;
        let o2 = self.order@;
        assert forall|k: int| 0 <= k < o2.len() implies self.nodes@[o2[k] as int].frame_id
            == pre.nodes@[o2[k] as int].frame_id by {
            assert(o2[k] < self.nodes@.len());
        }
        assert(self@ =~= pre@.remove(i));
        lemma_remove_at_to_set(pre@, i);
        assert forall|g: FrameId| #[trigger] self.slots@.contains_key(g) <==> self@.contains(g) by {
            assert(self@.to_set().contains(g) == self@.contains(g));
            assert(pre@.to_set().contains(g) == pre@.contains(g));
        }
        assert forall|k: int| 0 <= k < o2.len() implies self.slots@[#[trigger] self.nodes@[o2[k] as int].frame_id] == o2[k] by {
            let j = if k < i { k } else { k + 1 };
            assert(o2[k] == o[j]);
            assert(pre.slots@[pre.nodes@[o[j] as int].frame_id] == o[j]);
            assert(pre@[j] != pre@[i]);
            assert(pre@[j] == pre.nodes@[o[j] as int].frame_id);
        }
        assert forall|j: int| 0 <= j < self.spare@.len() implies #[trigger] self.spare@[j] < self.nodes@.len()
            && !o2.contains(self.spare@[j]) by {
            if j < pre.spare@.len() {
                assert(!o.contains(pre.spare@[j]));
                if o2.contains(self.spare@[j]) {
                    let k = choose|k: int| 0 <= k < o2.len() && o2[k] == self.spare@[j];
                    let j2 = if k < i { k } else { k + 1 };
                    assert(o[j2] == self.spare@[j]);
                }
            } else {
                if o2.contains(s) {
                    let k = choose|k: int| 0 <= k < o2.len() && o2[k] == s;
                    let j2 = if k < i { k } else { k + 1 };
                    assert(o[j2] == s);
                }
            }
        }
        assert forall|a: int, b: int| 0 <= a < b < self.spare@.len() implies self.spare@[a] != self.spare@[b] by {
            if b == pre.spare@.len() {
                assert(!o.contains(pre.spare@[a]));
            }
        }
    }

    /// The state after the node in slot `s`, now holding frame `f`, was
    /// appended to the list and entered in the map.
    proof fn lemma_after_append(&self, pre: &Self, s: usize, f: FrameId)
        requires
            pre.inv(),
            !pre@.contains(f),
            pre.order@.len() < pre.capacity,
            linked(self.nodes@, self.order@, self.head, self.tail),
            self.order@ == pre.order@.push(s),
            s < self.nodes@.len(),
            self.nodes@[s as int].frame_id == f,
            forall|k: int| 0 <= k < pre.nodes@.len() && k != s ==> #[trigger] self.nodes@[k].frame_id
                == pre.nodes@[k].frame_id,
            self.slots@ == pre.slots@.insert(f, s),
            self.capacity == pre.capacity,
            (pre.spare@.len() > 0 && s == pre.spare@.last() && self.spare@ == pre.spare@.drop_last()
                && self.nodes@.len() == pre.nodes@.len()) || (s == pre.nodes@.len()
                && self.spare@ == pre.spare@ && self.nodes@.len() == pre.nodes@.len() + 1),
        ensures
            self.inv(),
            self@ == pre@.push(f),
    {
        let o = pre.order@;
        let o2 = self.order@;
        assert(!o.contains(s)) by {
            if o.contains(s) {
                let k = choose|k: int| 0 <= k < o.len() && o[k] == s;
                if pre.spare@.len() > 0 && s == pre.spare@.last() && self.spare@ == pre.spare@.drop_last() {
                    assert(!o.contains(pre.spare@[pre.spare@.len() - 1]));
                }
            }
        }
        assert forall|k: int| 0 <= k < o.len() implies self.nodes@[o[k] as int].frame_id
            == pre.nodes@[o[k] as int].frame_id by {
            assert(o[k] != s);
        }
        assert(self@ =~= pre@.push(f));
        assert forall|g: FrameId| #[trigger] self.slots@.contains_key(g) <==> self@.contains(g) by {
            if g != f && self@.contains(g) {
                let k = choose|k: int| 0 <= k < self@.len() && self@[k] == g;
                assert(pre@[k] == g);
            }
            if g == f {
                assert(self@[o.len() as int] == f);
            }
        }
        assert forall|k: int| 0 <= k < o2.len() implies self.slots@[#[trigger] self.nodes@[o2[k] as int].frame_id] == o2[k] by {
            if k < o.len() {
                assert(pre@[k] != f);
                assert(pre@[k] == pre.nodes@[o[k] as int].frame_id);
            }
        }
        assert forall|j: int| 0 <= j < self.spare@.len() implies #[trigger] self.spare@[j] < self.nodes@.len()
            && !o2.contains(self.spare@[j]) by {
            assert(pre.spare@[j] == self.spare@[j]);
            assert(!o.contains(pre.spare@[j]));
            if o2.contains(self.spare@[j]) {
                let k = choose|k: int| 0 <= k < o2.len() && o2[k] == self.spare@[j];
                if k == o.len() {
                    assert(self.spare@[j] == s);
                } else {
                    assert(o[k] == self.spare@[j]);
                }
            }
        }
        assert(self.spare@.no_duplicates()) by {
            assert forall|a: int, b: int| 0 <= a < b < self.spare@.len() implies self.spare@[a] != self.spare@[b] by {
                assert(pre.spare@[a] == self.spare@[a]);
                assert(pre.spare@[b] == self.spare@[b]);
            }
        }
        assert(self@.no_duplicates()) by {
            assert forall|a: int, b: int| 0 <= a < b < self@.len() implies self@[a] != self@[b] by {
                if b == o.len() {
                    assert(pre@.contains(self@[a]) ==> pre@[a] == self@[a]);
                    assert(pre@[a] == self@[a]);
                }
            }
        }
    }

    /// Evicts the least recently used frame.
    pub fn victim(&mut self) -> (r: Option<FrameId>)
        requires
            old(self).inv(),
        ensures
            final(self).inv(),
            final(self).spec_capacity() == old(self).spec_capacity(),
            old(self)@.len() == 0 ==> r.is_none() && final(self)@ == old(self)@,
            old(self)@.len() > 0 ==> r == Some(old(self)@[0]) && final(self)@ == old(
                self,
            )@.drop_first(),
            victim_sets(old(self)@.to_set(), final(self)@.to_set(), r),
    {
        if self.head == NIL {
            proof {
                assert(self@.to_set() =~= Set::<FrameId>::empty());
            }
            return None;
        }
        let s = self.head;
        let f = self.nodes[s].frame_id;
        let ghost pre = *self;
        self.unlink(Ghost(0), s);
        self.slots.remove(&f);
        self.spare.push(s);
        proof {
            self.lemma_after_unlink(&pre, 0, s, f);
            assert(pre@.remove(0) =~= pre@.drop_first());
            lemma_remove_at_to_set(pre@, 0);
        }
        Some(f)
    }

    /// Stops tracking `frame_id`, if tracked.
    pub fn remove(&mut self, frame_id: FrameId)
        requires
            old(self).inv(),
        ensures
            final(self).inv(),
            final(self).spec_capacity() == old(self).spec_capacity(),
            old(self)@.contains(frame_id) ==> exists|i: int|
                0 <= i < old(self)@.len() && old(self)@[i] == frame_id && final(self)@ == old(
                    self,
                )@.remove(i),
            !old(self)@.contains(frame_id) ==> final(self)@ == old(self)@,
            final(self)@ == lru_removed(old(self)@, frame_id),
            final(self)@.to_set() == old(self)@.to_set().remove(frame_id),
    {
        let found = self.slots.get(&frame_id);
        if let Some(sr) = found {
            let s: usize = *sr;
            let ghost pre = *self;
            let ghost i = self.lemma_position(frame_id);
            self.unlink(Ghost(i), s);
            self.slots.remove(&frame_id);
            self.spare.push(s);
            proof {
                self.lemma_after_unlink(&pre, i, s, frame_id);
                lemma_position_unique(pre@, i);
                lemma_remove_at_to_set(pre@, i);
            }
        } else {
            proof {
                assert(!self@.contains(frame_id));
                assert(self@.to_set().remove(frame_id) =~= self@.to_set());
            }
        }
    }

    /// Marks `frame_id` as the most recently used. A frame not yet tracked
    /// that would exceed the capacity makes the least recently used one leave.
    pub fn insert(&mut self, frame_id: FrameId)
        requires
            old(self).inv(),
        ensures
            final(self).inv(),
            final(self).spec_capacity() == old(self).spec_capacity(),
            old(self)@.contains(frame_id) ==> exists|i: int|
                0 <= i < old(self)@.len() && old(self)@[i] == frame_id && final(self)@ == old(
                    self,
                )@.remove(i).push(frame_id),
            !old(self)@.contains(frame_id) && old(self)@.len() < old(self).spec_capacity()
                ==> final(self)@ == old(self)@.push(frame_id),
            !old(self)@.contains(frame_id) && old(self)@.len() >= old(self).spec_capacity()
                ==> final(self)@ == old(self)@.push(frame_id).drop_first(),
            final(self)@ == lru_inserted(old(self)@, frame_id, old(self).spec_capacity()),
            insert_sets(old(self)@.to_set(), final(self)@.to_set(), frame_id, old(self).spec_capacity()),
    {
        proof {
            old(self)@.unique_seq_to_set();
        }
        let found = self.slots.get(&frame_id);
        if let Some(sr) = found {
            let s: usize = *sr;
            let ghost pre = *self;
            let ghost i = self.lemma_position(frame_id);
            self.unlink(Ghost(i), s);
            proof {
                lemma_remove_at_index_absent(pre.order@, i);
            }
            self.link_back(s);
            proof {
                self.lemma_after_move_back(&pre, i, s, frame_id);
                lemma_position_unique(pre@, i);
                lemma_remove_at_to_set(pre@, i);
                assert(pre@.to_set().remove(frame_id).insert(frame_id) =~= pre@.to_set());
                pre@.remove(i).lemma_push_to_set_commute(frame_id);
                assert(pre@.to_set().contains(frame_id));
                assert(pre@.to_set().insert(frame_id) =~= pre@.to_set());
                assert(self@.to_set() == pre@.to_set().insert(frame_id));
                assert(pre@.len() <= pre.spec_capacity());
            }
            return;
        }
        proof {
            self.lemma_len();
        }
        if self.slots.len() >= self.capacity {
            if self.capacity == 0 {
                proof {
                    assert(old(self)@.push(frame_id).drop_first() =~= old(self)@);
                }
                return;
            }
            self.victim();
        }
        let ghost pre = *self;
        self.append_new(frame_id);
        proof {
            let o = old(self)@;
            if o.len() >= old(self).spec_capacity() {
                assert(pre@ == o.drop_first());
                assert(o.drop_first().push(frame_id) =~= o.push(frame_id).drop_first());
                let t = o.push(frame_id);
                lemma_remove_at_to_set(t, 0);
                assert(t.drop_first() =~= t.remove(0));
                assert(o[0] != frame_id);
                assert(t.to_set().remove(o[0]) =~= o.to_set().remove(o[0]).insert(frame_id));
                o.lemma_push_to_set_commute(frame_id);
                assert(o.to_set().contains(o[0]));
            } else {
                o.lemma_push_to_set_commute(frame_id);
            }
        }
    }

    /// Puts the untracked `frame_id` at the tail, in a spare slot or a new one.
    fn append_new(&mut self, frame_id: FrameId)
        requires
            old(self).inv(),
            !old(self)@.contains(frame_id),
            old(self)@.len() < old(self).spec_capacity(),
        ensures
            final(self).inv(),
            final(self).spec_capacity() == old(self).spec_capacity(),
            final(self)@ == old(self)@.push(frame_id),
    {
        let ghost pre = *self;
        proof {
            self.lemma_len();
        }
        let s = match self.spare.pop() {
            Some(s) => {
                let mut node = self.nodes[s];
                node.frame_id = frame_id;
                self.nodes.set(s, node);
                s
            },
            None => {
                self.nodes.push(LruNode { frame_id, prev: NIL, next: NIL });
                self.nodes.len() - 1
            },
        };
        proof {
            assert(!pre.order@.contains(s)) by {
                if pre.order@.contains(s) && pre.spare@.len() > 0 {
                    assert(!pre.order@.contains(pre.spare@[pre.spare@.len() - 1]));
                }
            }
            assert forall|k: int| 0 <= k < pre.order@.len() implies (#[trigger] self.nodes@[pre.order@[k] as int]) == pre.nodes@[pre.order@[k] as int] by {
                assert(pre.order@[k] != s);
            }
        }
        self.link_back(s);
        self.slots.insert(frame_id, s);
        proof {
            self.lemma_after_append(&pre, s, frame_id);
        }
    }


    /// The state after the node at position `i` (frame `f`, slot `s`) was
    /// moved to the tail.
    proof fn lemma_after_move_back(&self, pre: &Self, i: int, s: usize, f: FrameId)
        requires
            pre.inv(),
            0 <= i < pre.order@.len(),
            pre.order@[i] == s,
            pre@[i] == f,
            linked(self.nodes@, self.order@, self.head, self.tail),
            self.order@ == pre.order@.remove(i).push(s),
            same_frames(self.nodes@, pre.nodes@),
            self.slots@ == pre.slots@,
            self.spare@ == pre.spare@,
            self.capacity == pre.capacity,
        ensures
            self.inv(),
            self@ == pre@.remove(i).push(f),
    {
        let o = pre.order@;
        assert(!o.remove(i).contains(s)) by {
            lemma_remove_at_index_absent(o, i);
        }
        assert forall|k: int| 0 <= k < self.order@.len() implies self.nodes@[self.order@[k] as int].frame_id
            == pre.nodes@[self.order@[k] as int].frame_id by {
            assert(self.order@[k] < self.nodes@.len());
        }
        assert(self@ =~= pre@.remove(i).push(f));
        lemma_remove_at_to_set(pre@, i);
        assert(!pre@.remove(i).contains(f)) by {
            assert(!pre@.remove(i).to_set().contains(f));
        }
        assert(self@.no_duplicates()) by {
            assert forall|a: int, b: int| 0 <= a < b < self@.len() implies self@[a] != self@[b] by {
                if b == self@.len() - 1 {
                    assert(pre@.remove(i)[a] == self@[a]);
                } else {
                    assert(pre@.remove(i)[a] == self@[a]);
                    assert(pre@.remove(i)[b] == self@[b]);
                }
            }
        }
        assert forall|g: FrameId| #[trigger] self.slots@.contains_key(g) <==> self@.contains(g) by {
            assert(pre.slots@.contains_key(g) <==> pre@.contains(g));
            if pre@.contains(g) {
                let k = choose|k: int| 0 <= k < pre@.len() && pre@[k] == g;
                if k == i {
                    assert(self@[self@.len() - 1] == g);
                } else {
                    let k2 = if k < i { k } else { k - 1 };
                    assert(self@[k2] == g);
                }
            }
            if self@.contains(g) {
                let k = choose|k: int| 0 <= k < self@.len() && self@[k] == g;
                if k == self@.len() - 1 {
                    assert(g == f);
                } else {
                    let k2 = if k < i { k } else { k + 1 };
                    assert(pre@[k2] == g);
                }
            }
        }
        assert forall|k: int| 0 <= k < self.order@.len() implies self.slots@[#[trigger] self.nodes@[self.order@[k] as int].frame_id] == self.order@[k] by {
            if k == self.order@.len() - 1 {
                assert(self.order@[k] == s);
            } else {
                let k2 = if k < i { k } else { k + 1 };
                assert(self.order@[k] == o[k2]);
                assert(pre.slots@[pre.nodes@[o[k2] as int].frame_id] == o[k2]);
            }
        }
        assert forall|j: int| 0 <= j < self.spare@.len() implies #[trigger] self.spare@[j] < self.nodes@.len()
            && !self.order@.contains(self.spare@[j]) by {
            assert(!o.contains(self.spare@[j]));
            if self.order@.contains(self.spare@[j]) {
                let k = choose|k: int| 0 <= k < self.order@.len() && self.order@[k] == self.spare@[j];
                if k == self.order@.len() - 1 {
                    assert(o[i] == s);
                } else {
                    let k2 = if k < i { k } else { k + 1 };
                    assert(o[k2] == self.spare@[j]);
                }
            }
        }
    }

    proof fn lemma_len(&self)
        requires
            self.inv(),
        ensures
            self.slots@.len() == self@.len(),
            self@.len() == self.order@.len(),
    {
        self@.unique_seq_to_set();
        assert(self.slots@.dom() =~= self@.to_set());
    }

    pub fn size(&self) -> (r: usize)
        requires
            self.inv(),
        ensures
            r == self@.len(),
    {
        proof {
            self.lemma_len();
        }
        self.slots.len()
    }

    /// The tracked frames, least recently used first.
    pub fn frames(&self) -> (r: Vec<FrameId>)
        requires
            self.inv(),
        ensures
            r@ == self@,
    {
        let mut r: Vec<FrameId> = Vec::new();
        let mut cur = self.head;
        let ghost o = self.order@;
        let mut k: usize = 0;
        while cur != NIL
            invariant
                self.inv(),
                o == self.order@,
                k <= o.len(),
                cur == (if k < o.len() { o[k as int] } else { NIL }),
                r@ == self@.subrange(0, k as int),
            decreases o.len() - k,
        {
            proof {
                if k >= o.len() {
                    assert(false);
                }
            }
            r.push(self.nodes[cur].frame_id);
            cur = self.nodes[cur].next;
            k = k + 1;
            assert(r@ =~= self@.subrange(0, k as int));
        }
        assert(r@ =~= self@);
        r
    }
}

impl Replacer for LruReplacer {
    open spec fn wf(&self) -> bool {
        self.inv()
    }

    open spec fn candidates(&self) -> Set<FrameId> {
        self@.to_set()
    }

    open spec fn capacity(&self) -> nat {
        self.spec_capacity()
    }

    proof fn lemma_candidates_bounded(&self) {
        self@.unique_seq_to_set();
    }

    fn victim(&mut self) -> (r: Option<FrameId>) {
        LruReplacer::victim(self)
    }

    fn insert(&mut self, frame_id: FrameId) {
        LruReplacer::insert(self, frame_id)
    }

    fn remove(&mut self, frame_id: FrameId) {
        LruReplacer::remove(self, frame_id)
    }

    fn size(&self) -> (r: usize) {
        proof {
            self@.unique_seq_to_set();
        }
        LruReplacer::size(self)
    }
}

} // verus!
