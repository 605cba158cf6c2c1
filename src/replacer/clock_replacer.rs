use vstd::prelude::*;

use std::collections::HashMap;

use crate::config::FrameId;
use crate::replacer::{
    insert_sets, lemma_remove_at_index_absent, lemma_remove_at_to_set, victim_sets, Replacer,
};

verus! {

broadcast use {vstd::seq_lib::group_seq_properties, vstd::std_specs::hash::group_hash_axioms};

/// One slot of the clock: a tracked frame and its reference bit.
#[derive(Clone, Copy, Debug, PartialEq, Eq, Structural)]
pub struct ClockEntry {
    pub frame_id: FrameId,
    pub referenced: bool,
}

/// The entry with its reference bit cleared.
pub open spec fn cleared(e: ClockEntry) -> ClockEntry {
    ClockEntry { frame_id: e.frame_id, referenced: false }
}

/// Every reference bit cleared.
pub open spec fn clear_all(s: Seq<ClockEntry>) -> Seq<ClockEntry> {
    s.map_values(|e: ClockEntry| cleared(e))
}

/// The tracked frame ids, in hand order.
pub open spec fn frames_of(s: Seq<ClockEntry>) -> Seq<FrameId> {
    s.map_values(|e: ClockEntry| e.frame_id)
}

/// `k` is the first entry, in hand order, whose reference bit is clear.
pub open spec fn first_unreferenced(s: Seq<ClockEntry>, k: int) -> bool {
    0 <= k < s.len() && !s[k].referenced && forall|j: int| 0 <= j < k ==> s[j].referenced
}

/// The ring seen from the hand once it has swept past every referenced entry
/// (clearing their bits) and stopped on an unreferenced one. When every bit
/// was set, one full revolution clears them all and the hand stops where it
/// started.
pub open spec fn swept(s: Seq<ClockEntry>) -> Seq<ClockEntry> {
    if exists|k: int| first_unreferenced(s, k) {
        let k = choose|k: int| first_unreferenced(s, k);
        s.subrange(k, s.len() as int) + clear_all(s.subrange(0, k))
    } else {
        clear_all(s)
    }
}

/// Where the entry of frame `f` stands in `s`.
pub open spec fn entry_position(s: Seq<ClockEntry>, f: FrameId) -> int {
    choose|i: int| 0 <= i < s.len() && s[i].frame_id == f
}

/// `s` without the entry of `f`.
pub open spec fn clock_removed(s: Seq<ClockEntry>, f: FrameId) -> Seq<ClockEntry> {
    if frames_of(s).contains(f) {
        s.remove(entry_position(s, f))
    } else {
        s
    }
}

/// Hand order after `f` is inserted: a tracked frame gets its bit set; a
/// new one goes last with its bit set; past `capacity` it replaces the
/// entry the hand elects.
pub open spec fn clock_inserted(s: Seq<ClockEntry>, f: FrameId, capacity: nat) -> Seq<ClockEntry> {
    let e = ClockEntry { frame_id: f, referenced: true };
    if frames_of(s).contains(f) {
        s.update(entry_position(s, f), e)
    } else if s.len() < capacity {
        s.push(e)
    } else if capacity > 0 {
        swept(s).drop_first().push(e)
    } else {
        s
    }
}

proof fn lemma_entry_position_unique(s: Seq<ClockEntry>, i: int)
    requires
        frames_of(s).no_duplicates(),
        0 <= i < s.len(),
    ensures
        entry_position(s, s[i].frame_id) == i,
{
    let j = entry_position(s, s[i].frame_id);
    assert(0 <= j < s.len() && s[j].frame_id == s[i].frame_id);
    assert(frames_of(s)[j] == frames_of(s)[i]);
}

/// Marks an unset hand.
const NIL: usize = usize::MAX;

/// A ring node: a tracked frame, its reference bit and the slots of its
/// neighbours.
#[derive(Clone, Copy)]
struct ClockNode {
    frame_id: FrameId,
    referenced: bool,
    prev: usize,
    next: usize,
}

/// Second-chance eviction. The tracked frames form a circular
/// doubly-linked list, threaded through an arena of nodes by slot index and
/// scanned by a hand; a set reference bit spares its frame once. A map from
/// frame id to slot makes lookups constant-time.
pub struct ClockReplacer {
    nodes: Vec<ClockNode>,
    spare: Vec<usize>,
    hand: usize,
    slots: HashMap<FrameId, usize>,
    capacity: usize,
    /// The slots of the ring in the order the hand meets them, starting at
    /// the hand.
    order: Ghost<Seq<usize>>,
}

/// `order` is a well-linked ring through `nodes` that starts at `hand`.
spec fn ring(nodes: Seq<ClockNode>, order: Seq<usize>, hand: usize) -> bool {
    &&& order.no_duplicates()
    &&& nodes.len() <= NIL
    &&& forall|i: int| 0 <= i < order.len() ==> #[trigger] order[i] < nodes.len()
    &&& order.len() == 0 ==> hand == NIL
    &&& order.len() > 0 ==> hand == order[0]
    &&& forall|i: int|
        0 <= i < order.len() ==> (#[trigger] nodes[order[i] as int]).next == (if i == order.len()
            - 1 {
            order[0]
        } else {
            order[i + 1]
        })
    &&& forall|i: int|
        0 <= i < order.len() ==> (#[trigger] nodes[order[i] as int]).prev == (if i == 0 {
            order[order.len() - 1]
        } else {
            order[i - 1]
        })
}

spec fn entry_of(n: ClockNode) -> ClockEntry {
    ClockEntry { frame_id: n.frame_id, referenced: n.referenced }
}

spec fn entries_along(nodes: Seq<ClockNode>, order: Seq<usize>) -> Seq<ClockEntry> {
    order.map_values(|s: usize| entry_of(nodes[s as int]))
}

/// Same frame id and reference bit in every slot.
spec fn same_entries(a: Seq<ClockNode>, b: Seq<ClockNode>) -> bool {
    a.len() == b.len() && forall|k: int| 0 <= k < a.len() ==> entry_of(#[trigger] a[k]) == entry_of(b[k])
}

impl View for ClockReplacer {
    /// The entries in the order the hand meets them, starting at the hand.
    type V = Seq<ClockEntry>;

    closed spec fn view(&self) -> Seq<ClockEntry> {
        entries_along(self.nodes@, self.order@)
    }
}

proof fn lemma_first_unique(s: Seq<ClockEntry>, k: int)
    requires
        first_unreferenced(s, k),
    ensures
        (choose|j: int| first_unreferenced(s, j)) == k,
{
    let j = choose|j: int| first_unreferenced(s, j);
    if j < k {
        assert(s[j].referenced);
    } else if k < j {
        assert(s[k].referenced);
    }
}

/// Turning a sequence by one keeps its elements.
proof fn lemma_rotate_frames(s: Seq<FrameId>)
    requires
        s.len() > 0,
        s.no_duplicates(),
    ensures
        s.drop_first().push(s[0]).no_duplicates(),
        s.drop_first().push(s[0]).to_set() == s.to_set(),
{
    let t = s.drop_first().push(s[0]);
    assert forall|a: int, b: int| 0 <= a < b < t.len() implies t[a] != t[b] by {
        if b == t.len() - 1 {
            assert(t[a] == s[a + 1]);
        } else {
            assert(t[a] == s[a + 1] && t[b] == s[b + 1]);
        }
    }
    assert forall|x: FrameId| t.contains(x) <==> s.contains(x) by {
        if s.contains(x) {
            let k = choose|k: int| 0 <= k < s.len() && s[k] == x;
            if k == 0 {
                assert(t[t.len() - 1] == x);
            } else {
                assert(t[k - 1] == x);
            }
        }
        if t.contains(x) {
            let k = choose|k: int| 0 <= k < t.len() && t[k] == x;
            if k == t.len() - 1 {
                assert(s[0] == x);
            } else {
                assert(s[k + 1] == x);
            }
        }
    }
    assert(t.to_set() =~= s.to_set());
}

impl ClockReplacer {
    pub closed spec fn spec_capacity(&self) -> nat {
        self.capacity as nat
    }

    pub closed spec fn inv(&self) -> bool {
        let o = self.order@;
        let nd = self.nodes@;
        &&& ring(nd, o, self.hand)
        &&& frames_of(self@).no_duplicates()
        &&& o.len() <= self.capacity
        &&& forall|f: FrameId| #[trigger] self.slots@.contains_key(f) <==> frames_of(self@).contains(f)
        &&& forall|i: int| 0 <= i < o.len() ==> self.slots@[#[trigger] nd[o[i] as int].frame_id] == o[i]
        &&& self.spare@.no_duplicates()
        &&& forall|j: int| 0 <= j < self.spare@.len() ==> #[trigger] self.spare@[j] < nd.len()
            && !o.contains(self.spare@[j])
        &&& nd.len() == o.len() + self.spare@.len()
    }

    pub fn new(frame_num: usize) -> (r: Self)
        ensures
            r.inv(),
            r@ == Seq::<ClockEntry>::empty(),
            r.spec_capacity() == frame_num,
    {
        let r = ClockReplacer {
            nodes: Vec::new(),
            spare: Vec::new(),
            hand: NIL,
            slots: HashMap::new(),
            capacity: frame_num,
            order: Ghost(Seq::empty()),
        };
        assert(r@ =~= Seq::<ClockEntry>::empty());
        assert(frames_of(r@) =~= Seq::<FrameId>::empty());
        r
    }

    proof fn lemma_len(&self)
        requires
            self.inv(),
        ensures
            self.slots@.len() == self@.len(),
            self@.len() == self.order@.len(),
            frames_of(self@).len() == self@.len(),
    {
        frames_of(self@).unique_seq_to_set();
        assert(self.slots@.dom() =~= frames_of(self@).to_set());
    }

    proof fn lemma_position(&self, f: FrameId) -> (i: int)
        requires
            self.inv(),
            self.slots@.contains_key(f),
        ensures
            0 <= i < self.order@.len(),
            self.order@[i] == self.slots@[f],
            self@[i].frame_id == f,
    {
        let fr = frames_of(self@);
        assert(fr.contains(f));
        let i = choose|i: int| 0 <= i < fr.len() && fr[i] == f;
        assert(self.nodes@[self.order@[i] as int].frame_id == f);
        i
    }

    /// Takes the node at position `i` of the ring out of it; the hand moves
    /// on if it rested there.
    fn unlink(&mut self, Ghost(i): Ghost<int>, s: usize)
        requires
            ring(old(self).nodes@, old(self).order@, old(self).hand),
            0 <= i < old(self).order@.len(),
            old(self).order@[i] == s,
        ensures
            ring(final(self).nodes@, final(self).order@, final(self).hand),
            final(self).order@ == old(self).order@.remove(i),
            same_entries(final(self).nodes@, old(self).nodes@),
            final(self).spare == old(self).spare,
            final(self).slots == old(self).slots,
            final(self).capacity == old(self).capacity,
    {
        let ghost o = self.order@;
        let ghost nd = self.nodes@;
        let ghost len = o.len();
        if self.nodes[s].next == s {
            proof {
                if len > 1 {
                    if i == len - 1 {
                        assert(o[0] == s);
                    } else {
                        assert(o[i + 1] == s);
                    }
                }
            }
            self.hand = NIL;
            self.order = Ghost(o.remove(i));
            proof {
                assert(o.remove(i).len() == 0);
                assert forall|k: int| 0 <= k < nd.len() implies entry_of(#[trigger] self.nodes@[k]) == entry_of(nd[k]) by {}
            }
            return;
        }
        proof {
            if len == 1 {
                assert(nd[o[0] as int].next == o[0]);
            }
        }
        let p = self.nodes[s].prev;
        let n = self.nodes[s].next;
        let mut node = self.nodes[p];
        node.next = n;
        self.nodes.set(p, node);
        let mut node = self.nodes[n];
        node.prev = p;
        self.nodes.set(n, node);
        if self.hand == s {
            self.hand = n;
        }
        self.order = Ghost(o.remove(i));
        proof {
            let o2 = o.remove(i);
            let nd2 = self.nodes@;
            let pi = if i == 0 { len - 1 } else { i - 1 };
            let ni = if i == len - 1 { 0 } else { i + 1 };
            assert(p == o[pi]);
            assert(n == o[ni]);
            assert(pi != i && ni != i);
            assert forall|k: int| 0 <= k < o2.len() implies #[trigger] o2[k] < nd2.len() by {
                if k < i {
                    assert(o2[k] == o[k]);
                } else {
                    assert(o2[k] == o[k + 1]);
                }
            }
            assert forall|k: int| 0 <= k < o2.len() implies (#[trigger] nd2[o2[k] as int]).next == (if k == o2.len() - 1 {
                o2[0]
            } else {
                o2[k + 1]
            }) by {
                let j = if k < i { k } else { k + 1 };
                assert(o2[k] == o[j]);
                let jn = if k == o2.len() - 1 { 0 } else { k + 1 };
                let jn2 = if jn < i { jn } else { jn + 1 };
                assert(o2[jn] == o[jn2]);
                if j == pi {
                } else {
                    assert(o[j] != p);
                    if o[j] == n {
                        assert(j == ni);
                    }
                }
            }
            assert forall|k: int| 0 <= k < o2.len() implies (#[trigger] nd2[o2[k] as int]).prev == (if k == 0 {
                o2[o2.len() - 1]
            } else {
                o2[k - 1]
            }) by {
                let j = if k < i { k } else { k + 1 };
                assert(o2[k] == o[j]);
                let jp = if k == 0 { o2.len() - 1 } else { k - 1 };
                let jp2 = if jp < i { jp } else { jp + 1 };
                assert(o2[jp] == o[jp2]);
                if j == ni {
                } else {
                    assert(o[j] != n);
                }
            }
            if i == 0 {
                assert(o2[0] == o[1]);
            } else {
                assert(o2[0] == o[0]);
            }
            assert forall|k: int| 0 <= k < nd.len() implies entry_of(#[trigger] nd2[k]) == entry_of(nd[k]) by {}
        }
    }

    /// Puts the node in slot `s`, not on the ring, just behind the hand, so
    /// that the hand meets it last.
    fn link_behind_hand(&mut self, s: usize)
        requires
            ring(old(self).nodes@, old(self).order@, old(self).hand),
            s < old(self).nodes@.len(),
            !old(self).order@.contains(s),
        ensures
            ring(final(self).nodes@, final(self).order@, final(self).hand),
            final(self).order@ == old(self).order@.push(s),
            same_entries(final(self).nodes@, old(self).nodes@),
            final(self).spare == old(self).spare,
            final(self).slots == old(self).slots,
            final(self).capacity == old(self).capacity,
    {
        let ghost o = self.order@;
        let ghost nd = self.nodes@;
        if self.hand == NIL {
            let mut node = self.nodes[s];
            node.prev = s;
            node.next = s;
            self.nodes.set(s, node);
            self.hand = s;
            self.order = Ghost(o.push(s));
            proof {
                assert forall|k: int| 0 <= k < nd.len() implies entry_of(#[trigger] self.nodes@[k]) == entry_of(nd[k]) by {}
            }
            return;
        }
        let h = self.hand;
        let l = self.nodes[h].prev;
        let mut node = self.nodes[s];
        node.prev = l;
        node.next = h;
        self.nodes.set(s, node);
        let mut last = self.nodes[l];
        last.next = s;
        self.nodes.set(l, last);
        let mut first = self.nodes[h];
        first.prev = s;
        self.nodes.set(h, first);
        self.order = Ghost(o.push(s));
        proof {
            let o2 = o.push(s);
            let nd2 = self.nodes@;
            let len = o.len();
            assert(h == o[0]);
            assert(l == o[len - 1]);
            assert forall|k: int| 0 <= k < o2.len() implies #[trigger] o2[k] < nd2.len() by {}
            assert forall|k: int| 0 <= k < o2.len() implies (#[trigger] nd2[o2[k] as int]).next == (if k == o2.len() - 1 {
                o2[0]
            } else {
                o2[k + 1]
            }) by {
                if k < len {
                    assert(o[k] != s);
                }
            }
            assert forall|k: int| 0 <= k < o2.len() implies (#[trigger] nd2[o2[k] as int]).prev == (if k == 0 {
                o2[o2.len() - 1]
            } else {
                o2[k - 1]
            }) by {
                if k < len {
                    assert(o[k] != s);
                }
            }
            assert forall|k: int| 0 <= k < nd.len() implies entry_of(#[trigger] nd2[k]) == entry_of(nd[k]) by {}
        }
    }

    /// The state after the node at position `i` (frame `f`, slot `s`) left
    /// the ring, its map entry and its slot were given back.
    proof fn lemma_after_unlink(&self, pre: &Self, i: int, s: usize, f: FrameId)
        requires
            pre.inv(),
            0 <= i < pre.order@.len(),
            pre.order@[i] == s,
            pre@[i].frame_id == f,
            ring(self.nodes@, self.order@, self.hand),
            self.order@ == pre.order@.remove(i),
            same_entries(self.nodes@, pre.nodes@),
            self.slots@ == pre.slots@.remove(f),
            self.spare@ == pre.spare@.push(s),
            self.capacity == pre.capacity,
        ensures
            self.inv(),
            self@ == pre@.remove(i),
            frames_of(self@).to_set() == frames_of(pre@).to_set().remove(f),
    {
        let o = pre.order@;
        let o2 = self.order@;
        assert forall|k: int| 0 <= k < o2.len() implies entry_of(self.nodes@[o2[k] as int])
            == entry_of(pre.nodes@[o2[k] as int]) by {
            assert(o2[k] < self.nodes@.len());
        }
        assert(self@ =~= pre@.remove(i));
        assert(frames_of(self@) =~= frames_of(pre@).remove(i));
        lemma_remove_at_to_set(frames_of(pre@), i);
        assert forall|g: FrameId| #[trigger] self.slots@.contains_key(g) <==> frames_of(self@).contains(g) by {
            assert(frames_of(self@).to_set().contains(g) == frames_of(self@).contains(g));
            assert(frames_of(pre@).to_set().contains(g) == frames_of(pre@).contains(g));
        }
        assert forall|k: int| 0 <= k < o2.len() implies self.slots@[#[trigger] self.nodes@[o2[k] as int].frame_id] == o2[k] by {
            let j = if k < i { k } else { k + 1 };
            assert(o2[k] == o[j]);
            assert(pre.slots@[pre.nodes@[o[j] as int].frame_id] == o[j]);
            assert(frames_of(pre@)[j] != frames_of(pre@)[i]);
            assert(frames_of(pre@)[j] == pre.nodes@[o[j] as int].frame_id);
        }
        assert forall|j: int| 0 <= j < self.spare@.len() implies #[trigger] self.spare@[j] < self.nodes@.len()
            && !o2.contains(self.spare@[j]) by {
            if j < pre.spare@.len() {
                assert(!o.contains(pre.spare@[j]));
                if o2.contains(self.spare@[j]) {
                    let k = choose|k: int| 0 <= k < o2.len() && o2[k] == self.spare@[j];
                    let j2 = if k < i { k } else { k + 1 };
                    assert(o[j2] == self.spare@[j]);
                }
            } else {
                lemma_remove_at_index_absent(o, i);
            }
        }
        assert forall|a: int, b: int| 0 <= a < b < self.spare@.len() implies self.spare@[a] != self.spare@[b] by {
            if b == pre.spare@.len() {
                assert(!o.contains(pre.spare@[a]));
            }
        }
    }

    /// The state after the node in slot `s`, now holding frame `f` with its
    /// bit set, joined the ring behind the hand and entered the map.
    proof fn lemma_after_append(&self, pre: &Self, s: usize, f: FrameId)
        requires
            pre.inv(),
            !frames_of(pre@).contains(f),
            pre.order@.len() < pre.capacity,
            ring(self.nodes@, self.order@, self.hand),
            self.order@ == pre.order@.push(s),
            s < self.nodes@.len(),
            entry_of(self.nodes@[s as int]) == (ClockEntry { frame_id: f, referenced: true }),
            forall|k: int| 0 <= k < pre.nodes@.len() && k != s ==> entry_of(#[trigger] self.nodes@[k])
                == entry_of(pre.nodes@[k]),
            self.slots@ == pre.slots@.insert(f, s),
            self.capacity == pre.capacity,
            (pre.spare@.len() > 0 && s == pre.spare@.last() && self.spare@ == pre.spare@.drop_last()
                && self.nodes@.len() == pre.nodes@.len()) || (s == pre.nodes@.len()
                && self.spare@ == pre.spare@ && self.nodes@.len() == pre.nodes@.len() + 1),
        ensures
            self.inv(),
            self@ == pre@.push(ClockEntry { frame_id: f, referenced: true }),
    {
        let o = pre.order@;
        let o2 = self.order@;
        let e = ClockEntry { frame_id: f, referenced: true };
        assert(!o.contains(s)) by {
            if o.contains(s) {
                let k = choose|k: int| 0 <= k < o.len() && o[k] == s;
                if pre.spare@.len() > 0 && s == pre.spare@.last() && self.spare@ == pre.spare@.drop_last() {
                    assert(!o.contains(pre.spare@[pre.spare@.len() - 1]));
                }
            }
        }
        assert forall|k: int| 0 <= k < o.len() implies entry_of(self.nodes@[o[k] as int])
            == entry_of(pre.nodes@[o[k] as int]) by {
            assert(o[k] != s);
        }
        assert(self@ =~= pre@.push(e));
        let fr = frames_of(self@);
        let fp = frames_of(pre@);
        assert(fr =~= fp.push(f));
        assert forall|g: FrameId| #[trigger] self.slots@.contains_key(g) <==> fr.contains(g) by {
            if g != f && fr.contains(g) {
                let k = choose|k: int| 0 <= k < fr.len() && fr[k] == g;
                assert(fp[k] == g);
            }
            if g == f {
                assert(fr[o.len() as int] == f);
            }
            if g != f && fp.contains(g) {
                let k = choose|k: int| 0 <= k < fp.len() && fp[k] == g;
                assert(fr[k] == g);
            }
        }
        assert forall|k: int| 0 <= k < o2.len() implies self.slots@[#[trigger] self.nodes@[o2[k] as int].frame_id] == o2[k] by {
            if k < o.len() {
                assert(fp[k] != f);
                assert(fp[k] == pre.nodes@[o[k] as int].frame_id);
            }
        }
        assert forall|j: int| 0 <= j < self.spare@.len() implies #[trigger] self.spare@[j] < self.nodes@.len()
            && !o2.contains(self.spare@[j]) by {
            assert(pre.spare@[j] == self.spare@[j]);
            assert(!o.contains(pre.spare@[j]));
            if o2.contains(self.spare@[j]) {
                let k = choose|k: int| 0 <= k < o2.len() && o2[k] == self.spare@[j];
                if k == o.len() {
                    assert(self.spare@[j] == s);
                } else {
                    assert(o[k] == self.spare@[j]);
                }
            }
        }
        assert(self.spare@.no_duplicates()) by {
            assert forall|a: int, b: int| 0 <= a < b < self.spare@.len() implies self.spare@[a] != self.spare@[b] by {
                assert(pre.spare@[a] == self.spare@[a]);
                assert(pre.spare@[b] == self.spare@[b]);
            }
        }
        assert(fr.no_duplicates()) by {
            assert forall|a: int, b: int| 0 <= a < b < fr.len() implies fr[a] != fr[b] by {
                assert(fp[a] == fr[a]);
                if b < o.len() {
                    assert(fp[b] == fr[b]);
                }
            }
        }
    }

    /// Clears the bit under the hand and moves the hand on.
    fn clear_and_advance(&mut self)
        requires
            old(self).inv(),
            old(self).order@.len() > 0,
        ensures
            final(self).inv(),
            final(self).capacity == old(self).capacity,
            final(self)@ == old(self)@.drop_first().push(cleared(old(self)@[0])),
            frames_of(final(self)@).to_set() == frames_of(old(self)@).to_set(),
    {
        let ghost pre = *self;
        let ghost o = self.order@;
        let ghost nd = self.nodes@;
        let s = self.hand;
        let mut node = self.nodes[s];
        node.referenced = false;
        self.nodes.set(s, node);
        self.hand = node.next;
        self.order = Ghost(o.drop_first().push(o[0]));
        proof {
            let o2 = self.order@;
            let nd2 = self.nodes@;
            let len = o.len();
            assert(s == o[0]);
            assert forall|k: int| 0 <= k < o2.len() implies #[trigger] o2[k] < nd2.len() by {}
            assert(o2.no_duplicates()) by {
                assert forall|a: int, b: int| 0 <= a < b < o2.len() implies o2[a] != o2[b] by {
                    if b == len - 1 {
                        assert(o2[a] == o[a + 1]);
                    } else {
                        assert(o2[a] == o[a + 1] && o2[b] == o[b + 1]);
                    }
                }
            }
            assert forall|k: int| 0 <= k < o2.len() implies (#[trigger] nd2[o2[k] as int]).next == (if k == o2.len() - 1 {
                o2[0]
            } else {
                o2[k + 1]
            }) by {
                if k < len - 1 {
                    assert(o2[k] == o[k + 1]);
                } else {
                    assert(o2[k] == o[0]);
                }
            }
            assert forall|k: int| 0 <= k < o2.len() implies (#[trigger] nd2[o2[k] as int]).prev == (if k == 0 {
                o2[o2.len() - 1]
            } else {
                o2[k - 1]
            }) by {
                if k < len - 1 {
                    assert(o2[k] == o[k + 1]);
                } else {
                    assert(o2[k] == o[0]);
                }
            }
            assert(len > 1 ==> self.hand == o[1]);
            assert(len == 1 ==> self.hand == o[0]);
            assert forall|k: int| 0 <= k < len - 1 implies o2[k] != s by {
                assert(o2[k] == o[k + 1]);
            }
            assert(self@ =~= pre@.drop_first().push(cleared(pre@[0])));
            let fp = frames_of(pre@);
            assert(frames_of(self@) =~= fp.drop_first().push(fp[0]));
            lemma_rotate_frames(fp);
            assert forall|g: FrameId| #[trigger] self.slots@.contains_key(g) <==> frames_of(self@).contains(g) by {
                assert(frames_of(self@).to_set().contains(g) == frames_of(self@).contains(g));
                assert(fp.to_set().contains(g) == fp.contains(g));
            }
            assert forall|k: int| 0 <= k < o2.len() implies self.slots@[#[trigger] nd2[o2[k] as int].frame_id] == o2[k] by {
                if k < len - 1 {
                    assert(o2[k] == o[k + 1]);
                } else {
                    assert(o2[k] == o[0]);
                }
            }
            assert forall|j: int| 0 <= j < self.spare@.len() implies #[trigger] self.spare@[j] < nd2.len()
                && !o2.contains(self.spare@[j]) by {
                assert(!o.contains(self.spare@[j]));
                if o2.contains(self.spare@[j]) {
                    let k = choose|k: int| 0 <= k < o2.len() && o2[k] == self.spare@[j];
                    if k < len - 1 {
                        assert(o[k + 1] == self.spare@[j]);
                    } else {
                        assert(o[0] == self.spare@[j]);
                    }
                }
            }
        }
    }

    /// Moves the hand past referenced entries, clearing their bits, until it
    /// rests on an unreferenced one.
    fn sweep(&mut self)
        requires
            old(self).inv(),
            old(self)@.len() > 0,
        ensures
            final(self).inv(),
            final(self).capacity == old(self).capacity,
            final(self)@ == swept(old(self)@),
            frames_of(final(self)@).to_set() == frames_of(old(self)@).to_set(),
    {
        let ghost s = self@;
        let ghost mut k: int = 0;
        proof {
            assert(s.subrange(0, s.len() as int) + clear_all(s.subrange(0, 0)) =~= s);
        }
        while self.nodes[self.hand].referenced
            invariant
                self.inv(),
                self.capacity == old(self).capacity,
                self@.len() == s.len() > 0,
                0 <= k <= s.len(),
                forall|j: int| 0 <= j < k ==> s[j].referenced,
                self@ == s.subrange(k, s.len() as int) + clear_all(s.subrange(0, k)),
                frames_of(self@).to_set() == frames_of(s).to_set(),
            decreases s.len() - k,
        {
            proof {
                assert(self@[0] == entry_of(self.nodes@[self.hand as int]));
                if k == s.len() {
                    assert(self@[0] == cleared(s[0]));
                    assert(false);
                }
            }
            let ghost before = self@;
            self.clear_and_advance();
            proof {
                assert(before[0] == s[k]);
                k = k + 1;
                assert(self@ =~= s.subrange(k, s.len() as int) + clear_all(s.subrange(0, k)));
            }
        }
        proof {
            assert(self@[0] == entry_of(self.nodes@[self.hand as int]));
            if k < s.len() {
                assert(first_unreferenced(s, k));
                lemma_first_unique(s, k);
            } else {
                assert(s.subrange(k, s.len() as int) + clear_all(s.subrange(0, k)) =~= clear_all(s));
                if exists|j: int| first_unreferenced(s, j) {
                    let j = choose|j: int| first_unreferenced(s, j);
                    assert(s[j].referenced);
                }
            }
        }
    }

    /// Elects the first unreferenced entry from the hand on, clearing the
    /// bits of the referenced entries passed over, and stops tracking it.
    pub fn victim(&mut self) -> (r: Option<FrameId>)
        requires
            old(self).inv(),
        ensures
            final(self).inv(),
            final(self).spec_capacity() == old(self).spec_capacity(),
            old(self)@.len() == 0 ==> r.is_none() && final(self)@ == old(self)@,
            old(self)@.len() > 0 ==> r == Some(swept(old(self)@)[0].frame_id) && final(self)@
                == swept(old(self)@).drop_first(),
            victim_sets(frames_of(old(self)@).to_set(), frames_of(final(self)@).to_set(), r),
    {
        if self.hand == NIL {
            proof {
                assert(frames_of(self@).to_set() =~= Set::<FrameId>::empty());
            }
            return None;
        }
        self.sweep();
        let ghost pre = *self;
        let s = self.hand;
        let f = self.nodes[s].frame_id;
        self.unlink(Ghost(0), s);
        self.slots.remove(&f);
        self.spare.push(s);
        proof {
            self.lemma_after_unlink(&pre, 0, s, f);
            assert(pre@.remove(0) =~= pre@.drop_first());
            assert(frames_of(pre@)[0] == f);
            assert(frames_of(pre@).to_set().contains(f));
        }
        Some(f)
    }

    /// Stops tracking `frame_id`, if tracked; the hand moves on if it
    /// rested on it.
    pub fn remove(&mut self, frame_id: FrameId)
        requires
            old(self).inv(),
        ensures
            final(self).inv(),
            final(self).spec_capacity() == old(self).spec_capacity(),
            frames_of(old(self)@).contains(frame_id) ==> exists|i: int|
                0 <= i < old(self)@.len() && old(self)@[i].frame_id == frame_id && final(self)@
                    == old(self)@.remove(i),
            !frames_of(old(self)@).contains(frame_id) ==> final(self)@ == old(self)@,
            frames_of(final(self)@).to_set() == frames_of(old(self)@).to_set().remove(frame_id),
            final(self)@ == clock_removed(old(self)@, frame_id),
    {
        let found = self.slots.get(&frame_id);
        match found {
            Some(sr) => {
                let s: usize = *sr;
                let ghost pre = *self;
                let ghost i = self.lemma_position(frame_id);
                self.unlink(Ghost(i), s);
                self.slots.remove(&frame_id);
                self.spare.push(s);
                proof {
                    self.lemma_after_unlink(&pre, i, s, frame_id);
                    lemma_entry_position_unique(pre@, i);
                    assert(frames_of(pre@)[i] == frame_id);
                }
            },
            None => {
                proof {
                    assert(!frames_of(self@).to_set().contains(frame_id));
                    assert(frames_of(self@).to_set().remove(frame_id) =~= frames_of(self@).to_set());
                }
            },
        }
    }

    /// Puts the untracked `frame_id`, its bit set, just behind the hand, in
    /// a spare slot or a new one.
    fn append_new(&mut self, frame_id: FrameId)
        requires
            old(self).inv(),
            !frames_of(old(self)@).contains(frame_id),
            old(self)@.len() < old(self).spec_capacity(),
        ensures
            final(self).inv(),
            final(self).spec_capacity() == old(self).spec_capacity(),
            final(self)@ == old(self)@.push(ClockEntry { frame_id, referenced: true }),
    {
        let ghost pre = *self;
        let s = match self.spare.pop() {
            Some(s) => {
                let mut node = self.nodes[s];
                node.frame_id = frame_id;
                node.referenced = true;
                self.nodes.set(s, node);
                s
            },
            None => {
                self.nodes.push(ClockNode { frame_id, referenced: true, prev: NIL, next: NIL });
                self.nodes.len() - 1
            },
        };
        proof {
            assert(!pre.order@.contains(s)) by {
                if pre.order@.contains(s) && pre.spare@.len() > 0 {
                    assert(!pre.order@.contains(pre.spare@[pre.spare@.len() - 1]));
                }
            }
            assert forall|k: int| 0 <= k < pre.order@.len() implies (#[trigger] self.nodes@[pre.order@[k] as int]) == pre.nodes@[pre.order@[k] as int] by {
                assert(pre.order@[k] != s);
            }
        }
        self.link_behind_hand(s);
        self.slots.insert(frame_id, s);
        proof {
            self.lemma_after_append(&pre, s, frame_id);
        }
    }

    /// Tracks `frame_id` with its reference bit set. A tracked frame only
    /// has its bit set again; a new one goes just behind the hand, or, when
    /// the clock is full, takes the place of the entry the hand elects.
    pub fn insert(&mut self, frame_id: FrameId)
        requires
            old(self).inv(),
        ensures
            final(self).inv(),
            final(self).spec_capacity() == old(self).spec_capacity(),
            frames_of(old(self)@).contains(frame_id) ==> exists|i: int|
                0 <= i < old(self)@.len() && old(self)@[i].frame_id == frame_id && final(self)@
                    == old(self)@.update(i, ClockEntry { frame_id, referenced: true }),
            !frames_of(old(self)@).contains(frame_id) && old(self)@.len() < old(
                self,
            ).spec_capacity() ==> final(self)@ == old(self)@.push(
                ClockEntry { frame_id, referenced: true },
            ),
            !frames_of(old(self)@).contains(frame_id) && old(self)@.len() >= old(
                self,
            ).spec_capacity() > 0 ==> final(self)@ == swept(old(self)@).drop_first().push(
                ClockEntry { frame_id, referenced: true },
            ),
            old(self).spec_capacity() == 0 ==> final(self)@ == old(self)@,
            final(self)@ == clock_inserted(old(self)@, frame_id, old(self).spec_capacity()),
            insert_sets(
                frames_of(old(self)@).to_set(),
                frames_of(final(self)@).to_set(),
                frame_id,
                old(self).spec_capacity(),
            ),
    {
        proof {
            self.lemma_len();
            frames_of(old(self)@).unique_seq_to_set();
        }
        let found = self.slots.get(&frame_id);
        if let Some(sr) = found {
            let s: usize = *sr;
            let ghost pre = *self;
            let ghost i = self.lemma_position(frame_id);
            let mut node = self.nodes[s];
            node.referenced = true;
            self.nodes.set(s, node);
            proof {
                let o = pre.order@;
                assert forall|k: int| 0 <= k < o.len() && k != i implies self.nodes@[o[k] as int] == pre.nodes@[o[k] as int] by {}
                assert(self@ =~= pre@.update(i, ClockEntry { frame_id, referenced: true }));
                assert(frames_of(self@) =~= frames_of(pre@));
                assert forall|k: int| 0 <= k < o.len() implies self.slots@[#[trigger] self.nodes@[o[k] as int].frame_id] == o[k] by {
                    assert(pre.slots@[pre.nodes@[o[k] as int].frame_id] == o[k]);
                }
                assert(frames_of(pre@)[i] == frame_id);
                lemma_entry_position_unique(pre@, i);
                assert(frames_of(pre@).to_set().contains(frame_id));
                assert(frames_of(pre@).to_set().insert(frame_id) =~= frames_of(pre@).to_set());
                assert(pre@.len() <= pre.spec_capacity());
            }
            return;
        }
        if self.slots.len() >= self.capacity {
            if self.capacity == 0 {
                return;
            }
            let ghost pre = *self;
            proof {
                assert(!frames_of(pre@).to_set().contains(frame_id));
            }
            self.victim();
            let ghost mid = *self;
            proof {
                mid.lemma_len();
                assert(!frames_of(pre@).to_set().contains(frame_id));
                assert(!frames_of(mid@).to_set().contains(frame_id));
            }
            self.append_new(frame_id);
            proof {
                assert(frames_of(self@) =~= frames_of(mid@).push(frame_id));
                assert(frames_of(self@).to_set() =~= frames_of(mid@).to_set().insert(frame_id));
                let g = swept(pre@)[0].frame_id;
                assert(frames_of(pre@).to_set().contains(g));
            }
            return;
        }
        self.append_new(frame_id);
        proof {
            assert(!frames_of(old(self)@).to_set().contains(frame_id));
            assert(frames_of(self@) =~= frames_of(old(self)@).push(frame_id));
            frames_of(old(self)@).lemma_push_to_set_commute(frame_id);
        }
    }

    pub fn size(&self) -> (r: usize)
        requires
            self.inv(),
        ensures
            r == self@.len(),
    {
        proof {
            self.lemma_len();
        }
        self.slots.len()
    }

    /// The entries in hand order, starting at the hand.
    pub fn entries(&self) -> (r: Vec<ClockEntry>)
        requires
            self.inv(),
        ensures
            r@ == self@,
    {
        proof {
            self.lemma_len();
        }
        let n = self.slots.len();
        let ghost o = self.order@;
        let mut r: Vec<ClockEntry> = Vec::new();
        let mut cur = self.hand;
        let mut k: usize = 0;
        while k < n
            invariant
                self.inv(),
                o == self.order@,
                n == o.len(),
                k <= n,
                k < n ==> cur == o[k as int],
                r@ == self@.subrange(0, k as int),
            decreases n - k,
        {
            let node = self.nodes[cur];
            r.push(ClockEntry { frame_id: node.frame_id, referenced: node.referenced });
            cur = node.next;
            k = k + 1;
            assert(r@ =~= self@.subrange(0, k as int));
        }
        assert(r@ =~= self@);
        r
    }
}

impl Replacer for ClockReplacer {
    open spec fn wf(&self) -> bool {
        self.inv()
    }

    open spec fn candidates(&self) -> Set<FrameId> {
        frames_of(self@).to_set()
    }

    open spec fn capacity(&self) -> nat {
        self.spec_capacity()
    }

    proof fn lemma_candidates_bounded(&self) {
        self.lemma_len();
        frames_of(self@).unique_seq_to_set();
    }

    fn victim(&mut self) -> (r: Option<FrameId>) {
        ClockReplacer::victim(self)
    }

    fn insert(&mut self, frame_id: FrameId) {
        ClockReplacer::insert(self, frame_id)
    }

    fn remove(&mut self, frame_id: FrameId) {
        ClockReplacer::remove(self, frame_id)
    }

    fn size(&self) -> (r: usize) {
        proof {
            self.lemma_len();
            frames_of(self@).unique_seq_to_set();
        }
        ClockReplacer::size(self)
    }
}

} // verus!
