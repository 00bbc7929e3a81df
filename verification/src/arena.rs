//! The node store: a slot array addressed by generational handles, and the
//! primitive tree-topology operations over it.

use vstd::prelude::*;

use crate::node::DomError;
use crate::node::Handle;
use crate::node::Node;
use crate::node::NodeData;

verus! {

/// One slot of the store: the generation it was allocated with, and the
/// node living in it.  Slots are never freed during construction, so the
/// generation recorded here never moves past the one a handle carries.
pub struct Slot {
    /// Generation of the slot; checked against every handle presented.
    pub generation: u64,
    /// The node stored in the slot.
    pub node: Node,
}

/// The arena owning every node of the document tree.
pub struct Arena {
    /// The slots, in allocation order.
    pub slots: Vec<Slot>,
}

/// A sequence of handles with no repeated element.
pub open spec fn distinct_seq(s: Seq<Handle>) -> bool {
    forall|j1: int, j2: int| 0 <= j1 < j2 < s.len() ==> s[j1] != s[j2]
}

/// `s` with the first occurrence of `c` taken out (or `s` itself when `c`
/// does not occur).
pub open spec fn remove_first(s: Seq<Handle>, c: Handle) -> Seq<Handle>
    decreases s.len(),
{
    if s.len() == 0 {
        s
    } else if s.first() == c {
        s.drop_first()
    } else {
        seq![s.first()] + remove_first(s.drop_first(), c)
    }
}

/// `s` with `n` spliced in immediately before the first occurrence of `s0`
/// (or appended at the end when `s0` does not occur).
pub open spec fn insert_before_first(s: Seq<Handle>, s0: Handle, n: Handle) -> Seq<Handle>
    decreases s.len(),
{
    if s.len() == 0 {
        seq![n]
    } else if s.first() == s0 {
        seq![n] + s
    } else {
        seq![s.first()] + insert_before_first(s.drop_first(), s0, n)
    }
}

impl Arena {
    /// The handle a slot would be addressed by.
    pub open spec fn handle_at(self, i: int) -> Handle {
        Handle { index: i as usize, generation: self.slots@[i].generation }
    }

    /// The handle names a live slot of this arena.
    pub open spec fn valid(self, h: Handle) -> bool {
        h.index < self.slots@.len() && self.slots@[h.index as int].generation == h.generation
    }

    /// The node a handle names.
    pub open spec fn node_of(self, h: Handle) -> Node {
        self.slots@[h.index as int].node
    }

    /// The payload of the node a handle names.
    pub open spec fn data_of(self, h: Handle) -> NodeData {
        self.node_of(h).data
    }

    /// The parent link of the node a handle names.
    pub open spec fn parent_of(self, h: Handle) -> Option<Handle> {
        self.node_of(h).parent
    }

    /// The ordered child list of the node a handle names.
    pub open spec fn children_of(self, h: Handle) -> Seq<Handle> {
        self.node_of(h).children@
    }

    /// The parent link of slot `i` is consistent: it names a live slot
    /// whose child list mentions this one.
    pub open spec fn parent_ok(self, i: int) -> bool {
        match self.slots@[i].node.parent {
            Some(p) => self.valid(p) && self.children_of(p).contains(self.handle_at(i)),
            None => true,
        }
    }

    /// The child list of slot `i` is consistent: every child is live,
    /// points back here, and no child is listed twice.
    pub open spec fn children_ok(self, i: int) -> bool {
        let cs = self.slots@[i].node.children@;
        &&& forall|j: int|
            0 <= j < cs.len() ==> self.valid(#[trigger] cs[j]) && self.node_of(cs[j]).parent
                == Some(self.handle_at(i))
        &&& distinct_seq(cs)
    }

    /// Both directions of the link invariant hold at slot `i`.
    pub open spec fn slot_ok(self, i: int) -> bool {
        self.parent_ok(i) && self.children_ok(i)
    }

    /// The whole store is well formed: the slot count fits the machine and
    /// parent and child links are mutually consistent everywhere.
    pub open spec fn wf(self) -> bool {
        &&& self.slots@.len() <= usize::MAX
        &&& forall|i: int| 0 <= i < self.slots@.len() ==> #[trigger] self.slot_ok(i)
    }

    /// `post` still answers for every handle `pre` answered for: no slot
    /// was dropped and no generation moved.
    pub open spec fn handles_preserved(pre: Arena, post: Arena) -> bool {
        &&& pre.slots@.len() <= post.slots@.len()
        &&& forall|i: int|
            0 <= i < pre.slots@.len() ==> post.slots@[i].generation == #[trigger] pre.slots@[i].generation
    }

    /// The arenas have the same slots and generations, so exactly the same
    /// handles are live in both.
    pub open spec fn same_shape(pre: Arena, post: Arena) -> bool {
        &&& pre.slots@.len() == post.slots@.len()
        &&& forall|i: int|
            0 <= i < pre.slots@.len() ==> post.slots@[i].generation == #[trigger] pre.slots@[i].generation
    }

    /// No payload differs between `pre` and `post`.
    pub open spec fn all_data_same(pre: Arena, post: Arena) -> bool {
        forall|x: Handle| pre.valid(x) ==> post.data_of(x) == #[trigger] pre.data_of(x)
    }

    /// What the child list of `x` is once `c` has been detached: if `c`
    /// hung under `x` it is taken out, otherwise the list is untouched.
    pub open spec fn children_after_detach(self, x: Handle, c: Handle) -> Seq<Handle> {
        if self.parent_of(c) == Some(x) {
            remove_first(self.children_of(x), c)
        } else {
            self.children_of(x)
        }
    }

    /// Two live handles naming the same slot are the same handle.
    pub proof fn lemma_valid_same_index(self, a: Handle, b: Handle)
        requires
            self.valid(a),
            self.valid(b),
            a.index == b.index,
        ensures
            a == b,
    {
    }

    /// In a well-formed arena every listed child is live and points back
    /// at the parent it is listed under.
    pub proof fn lemma_wf_child(self, p: Handle, j: int)
        requires
            self.wf(),
            self.valid(p),
            0 <= j < self.children_of(p).len(),
        ensures
            self.valid(self.children_of(p)[j]),
            self.parent_of(self.children_of(p)[j]) == Some(p),
    {
        assert(self.slot_ok(p.index as int));
        assert(self.handle_at(p.index as int) == p);
    }

    /// In a well-formed arena a node with no parent is listed in no child
    /// list at all.
    pub proof fn lemma_no_parent_not_listed(self, x: Handle, c: Handle, j: int)
        requires
            self.wf(),
            self.valid(x),
            0 <= j < self.children_of(x).len(),
            self.children_of(x)[j] == c,
        ensures
            self.parent_of(c) == Some(x),
    {
        assert(self.slot_ok(x.index as int));
        assert(self.handle_at(x.index as int) == x);
    }
}

/// Taking one occurrence out at a known position is `remove_first`, as
/// long as nothing equal stands before that position.
pub proof fn lemma_remove_at_is_remove_first(s: Seq<Handle>, k: int)
    requires
        0 <= k < s.len(),
        forall|j: int| 0 <= j < k ==> s[j] != s[k],
    ensures
        remove_first(s, s[k]) == s.remove(k),
    decreases k,
{
    if k == 0 {
        assert(s.first() == s[0]);
        assert(s.drop_first() =~= s.remove(0));
    } else {
        assert(s.first() != s[k]);
        let t = s.drop_first();
        assert(t[k - 1] == s[k]);
        assert(forall|j: int| 0 <= j < k - 1 ==> #[trigger] t[j] == s[j + 1] && t[j] != t[k - 1]);
        lemma_remove_at_is_remove_first(t, k - 1);
        assert(seq![s.first()] + t.remove(k - 1) =~= s.remove(k));
    }
}

/// Splicing at a known position is `insert_before_first`, as long as
/// nothing equal to the reference stands before that position.
pub proof fn lemma_insert_at_is_insert_before_first(s: Seq<Handle>, k: int, n: Handle)
    requires
        0 <= k < s.len(),
        forall|j: int| 0 <= j < k ==> s[j] != s[k],
    ensures
        insert_before_first(s, s[k], n) == s.insert(k, n),
    decreases k,
{
    if k == 0 {
        assert(s.first() == s[0]);
        assert(seq![n] + s =~= s.insert(0, n));
    } else {
        assert(s.first() != s[k]);
        let t = s.drop_first();
        assert(t[k - 1] == s[k]);
        assert(forall|j: int| 0 <= j < k - 1 ==> #[trigger] t[j] == s[j + 1] && t[j] != t[k - 1]);
        lemma_insert_at_is_insert_before_first(t, k - 1, n);
        assert(seq![s.first()] + t.insert(k - 1, n) =~= s.insert(k, n));
    }
}

impl Arena {
    /// An empty store.
    pub fn empty() -> (a: Arena)
        ensures
            a.slots@.len() == 0,
            a.wf(),
    {
        Arena { slots: Vec::new() }
    }

    /// Looks a handle up, failing exactly when it is stale or foreign.
    pub fn get(&self, h: Handle) -> (r: Result<&Node, DomError>)
        ensures
            match r {
                Ok(n) => self.valid(h) && *n == self.node_of(h),
                Err(e) => !self.valid(h) && e == DomError::InvalidHandle,
            },
    {
        if h.index < self.slots.len() {
            let slot = &self.slots[h.index];
            if slot.generation == h.generation {
                Ok(&slot.node)
            } else {
                Err(DomError::InvalidHandle)
            }
        } else {
            Err(DomError::InvalidHandle)
        }
    }

    /// Allocates a fresh slot holding `data`, detached, with no children.
    pub fn new_node(&mut self, data: NodeData) -> (h: Handle)
        ensures
            final(self).slots@.len() == old(self).slots@.len() + 1,
            h.index == old(self).slots@.len(),
            final(self).valid(h),
            final(self).data_of(h) == data,
            final(self).parent_of(h) == None::<Handle>,
            final(self).children_of(h) == Seq::<Handle>::empty(),
            forall|i: int|
                0 <= i < old(self).slots@.len() ==> final(self).slots@[i] == #[trigger] old(
                    self,
                ).slots@[i],
            Arena::handles_preserved(*old(self), *final(self)),
            old(self).wf() ==> final(self).wf(),
    {
        let index = self.slots.len();
        let node = Node { data, parent: None, children: Vec::new() };
        self.slots.push(Slot { generation: 0, node });
        let h = Handle { index, generation: 0 };
        let new_len = self.slots.len();
        proof {
            assert(self.slots@.len() == new_len);
            assert(self.children_of(h) =~= Seq::<Handle>::empty());
            if old(self).wf() {
                assert forall|i: int| 0 <= i < self.slots@.len() implies #[trigger] self.slot_ok(
                    i,
                ) by {
                    if i < old(self).slots@.len() {
                        assert(old(self).slot_ok(i));
                        assert(self.handle_at(i) == old(self).handle_at(i));
                        assert(self.parent_ok(i)) by {
                            match old(self).slots@[i].node.parent {
                                Some(p) => {
                                    assert(self.children_of(p) == old(self).children_of(p));
                                },
                                None => {},
                            }
                        }
                        assert(self.children_ok(i)) by {
                            let cs = old(self).slots@[i].node.children@;
                            assert(forall|j: int|
                                0 <= j < cs.len() ==> self.node_of(#[trigger] cs[j]) == old(
                                    self,
                                ).node_of(cs[j]));
                        }
                    } else {
                        assert(self.slots@[i].node.parent == None::<Handle>);
                        assert(self.slots@[i].node.children@.len() == 0);
                    }
                }
            }
        }
        h
    }

    /// Takes the node of slot `i` out for rebuilding, leaving a detached
    /// placeholder behind until `set_node` puts the slot back.
    pub(crate) fn take_node(&mut self, i: usize) -> (n: Node)
        requires
            i < old(self).slots@.len(),
        ensures
            n == old(self).slots@[i as int].node,
            final(self).slots@.len() == old(self).slots@.len(),
            final(self).slots@[i as int].generation == old(self).slots@[i as int].generation,
            forall|j: int|
                0 <= j < old(self).slots@.len() && j != i ==> final(self).slots@[j] == #[trigger] old(
                    self,
                ).slots@[j],
    {
        let slot = self.slots.remove(i);
        let placeholder = Node { data: NodeData::Document, parent: None, children: Vec::new() };
        self.slots.insert(i, Slot { generation: slot.generation, node: placeholder });
        proof {
            assert(self.slots@ =~= old(self).slots@.update(i as int, self.slots@[i as int]));
        }
        slot.node
    }

    /// Puts a rebuilt node back into slot `i`, keeping the generation.
    pub(crate) fn set_node(&mut self, i: usize, n: Node)
        requires
            i < old(self).slots@.len(),
        ensures
            final(self).slots@.len() == old(self).slots@.len(),
            final(self).slots@[i as int].generation == old(self).slots@[i as int].generation,
            final(self).slots@[i as int].node == n,
            forall|j: int|
                0 <= j < old(self).slots@.len() && j != i ==> final(self).slots@[j] == #[trigger] old(
                    self,
                ).slots@[j],
    {
        let slot = self.slots.remove(i);
        self.slots.insert(i, Slot { generation: slot.generation, node: n });
        proof {
            assert(self.slots@ =~= old(self).slots@.update(i as int, self.slots@[i as int]));
        }
    }

    /// Finds the position of `c` in the child list of `p`.
    pub(crate) fn find_child(&self, p: Handle, c: Handle) -> (k: usize)
        requires
            self.valid(p),
            self.children_of(p).contains(c),
        ensures
            k < self.children_of(p).len(),
            self.children_of(p)[k as int] == c,
            forall|j: int| 0 <= j < k ==> self.children_of(p)[j] != c,
    {
        let node = &self.slots[p.index].node;
        let mut k: usize = 0;
        loop
            invariant
                self.valid(p),
                self.children_of(p).contains(c),
                node.children@ == self.children_of(p),
                k <= node.children@.len(),
                forall|j: int| 0 <= j < k ==> node.children@[j] != c,
            decreases node.children@.len() - k,
        {
            if k >= node.children.len() {
                proof {
                    let w = choose|w: int|
                        0 <= w < self.children_of(p).len() && self.children_of(p)[w] == c;
                    assert(false);
                }
            }
            let cand = node.children[k];
            if cand.index == c.index && cand.generation == c.generation {
                return k;
            }
            k = k + 1;
        }
    }
}

/// Removing position `k` keeps every element but the one at `k`.
pub proof fn lemma_remove_props(s: Seq<Handle>, k: int)
    requires
        0 <= k < s.len(),
        distinct_seq(s),
    ensures
        distinct_seq(s.remove(k)),
        forall|x: Handle| #[trigger] s.remove(k).contains(x) <==> (s.contains(x) && x != s[k]),
{
    let t = s.remove(k);
    assert(forall|j: int| 0 <= j < k ==> t[j] == s[j]);
    assert(forall|j: int| k <= j < t.len() ==> t[j] == s[j + 1]);
    assert forall|x: Handle| #[trigger] t.contains(x) implies (s.contains(x) && x != s[k]) by {
        let j = choose|j: int| 0 <= j < t.len() && t[j] == x;
        if j < k {
            assert(s[j] == x);
        } else {
            assert(s[j + 1] == x);
        }
    }
    assert forall|x: Handle| s.contains(x) && x != s[k] implies #[trigger] t.contains(x) by {
        let j = choose|j: int| 0 <= j < s.len() && s[j] == x;
        if j < k {
            assert(t[j] == x);
        } else {
            assert(j != k);
            assert(t[j - 1] == x);
        }
    }
}

/// With no repeats, taking the first occurrence of a present element out
/// keeps exactly the other elements, with no repeats.
pub proof fn lemma_remove_first_props(s: Seq<Handle>, c: Handle)
    requires
        distinct_seq(s),
        s.contains(c),
    ensures
        remove_first(s, c).len() == s.len() - 1,
        distinct_seq(remove_first(s, c)),
        forall|x: Handle| #[trigger] remove_first(s, c).contains(x) <==> (s.contains(x) && x != c),
{
    let j = choose|j: int| 0 <= j < s.len() && s[j] == c;
    assert(forall|i: int| 0 <= i < j ==> s[i] != s[j]);
    lemma_remove_at_is_remove_first(s, j);
    lemma_remove_props(s, j);
}

/// Splicing a fresh element in keeps every old element, adds the new one,
/// and keeps the list free of repeats.
pub proof fn lemma_insert_props(s: Seq<Handle>, k: int, n: Handle)
    requires
        0 <= k <= s.len(),
        distinct_seq(s),
        !s.contains(n),
    ensures
        distinct_seq(s.insert(k, n)),
        forall|x: Handle| #[trigger] s.insert(k, n).contains(x) <==> (s.contains(x) || x == n),
{
    let t = s.insert(k, n);
    assert(forall|j: int| 0 <= j < k ==> t[j] == s[j]);
    assert(t[k] == n);
    assert(forall|j: int| k < j < t.len() ==> t[j] == s[j - 1]);
    assert(forall|j: int| 0 <= j < s.len() ==> s[j] != n);
    assert forall|x: Handle| #[trigger] t.contains(x) implies (s.contains(x) || x == n) by {
        let j = choose|j: int| 0 <= j < t.len() && t[j] == x;
        if j < k {
            assert(s[j] == x);
        } else if j > k {
            assert(s[j - 1] == x);
        }
    }
    assert forall|x: Handle| s.contains(x) implies #[trigger] t.contains(x) by {
        let j = choose|j: int| 0 <= j < s.len() && s[j] == x;
        if j < k {
            assert(t[j] == x);
        } else {
            assert(t[j + 1] == x);
        }
    }
    assert(t.contains(n)) by {
        assert(t[k] == n);
    }
    assert forall|j1: int, j2: int| 0 <= j1 < j2 < t.len() implies t[j1] != t[j2] by {
        if j1 == k {
            assert(t[j2] == s[j2 - 1]);
        } else if j2 == k {
            assert(t[j1] == s[j1]);
        }
    }
}

impl Arena {
    /// Decides whether a handle names a live node.
    pub fn is_valid(&self, h: Handle) -> (r: bool)
        ensures
            r == self.valid(h),
    {
        h.index < self.slots.len() && self.slots[h.index].generation == h.generation
    }

    /// Unlinks `h` from its parent, if it has one.  The node keeps its
    /// payload and its own children; it merely stops being anyone's child.
    /// Fails exactly when the handle is stale or foreign.
    pub fn detach(&mut self, h: Handle) -> (r: Result<(), DomError>)
        requires
            old(self).wf(),
        ensures
            final(self).wf(),
            Arena::same_shape(*old(self), *final(self)),
            Arena::all_data_same(*old(self), *final(self)),
            match r {
                Ok(()) => {
                    &&& old(self).valid(h)
                    &&& final(self).parent_of(h) == None::<Handle>
                    &&& forall|x: Handle|
                        old(self).valid(x) && x != h ==> final(self).parent_of(x) == #[trigger] old(
                            self,
                        ).parent_of(x)
                    &&& forall|x: Handle|
                        old(self).valid(x) ==> final(self).children_of(x) == #[trigger] old(
                            self,
                        ).children_after_detach(x, h)
                },
                Err(e) => {
                    &&& e == DomError::InvalidHandle
                    &&& !old(self).valid(h)
                    &&& *final(self) == *old(self)
                },
            },
    {
        let parent_opt = match self.get(h) {
            Ok(n) => n.parent,
            Err(e) => {
                return Err(e);
            },
        };
        match parent_opt {
            None => {
                proof {
                    assert forall|x: Handle| old(self).valid(x) implies self.children_of(x)
                        == #[trigger] old(self).children_after_detach(x, h) by {
                        assert(old(self).parent_of(h) != Some(x));
                    }
                }
                Ok(())
            },
            Some(p) => {
                proof {
                    assert(old(self).slot_ok(h.index as int));
                    assert(old(self).handle_at(h.index as int) == h);
                }
                let k = self.find_child(p, h);
                let mut pn = self.take_node(p.index);
                let _ = pn.children.remove(k);
                self.set_node(p.index, pn);
                let mut hn = self.take_node(h.index);
                hn.parent = None;
                self.set_node(h.index, hn);
                proof {
                    let s0 = *old(self);
                    let s1 = *self;
                    let cs0 = s0.children_of(p);
                    assert(s0.slot_ok(p.index as int));
                    lemma_remove_at_is_remove_first(cs0, k as int);
                    lemma_remove_props(cs0, k as int);
                    let cs1 = cs0.remove(k as int);
                    assert(s1.children_of(p) == cs1);
                    assert(s1.parent_of(h) == None::<Handle>);
                    assert(Arena::same_shape(s0, s1));
                    assert forall|i: int| 0 <= i < s1.slots@.len() implies s1.handle_at(i) == s0.handle_at(i) by {}
                    assert forall|x: Handle| s0.valid(x) implies s1.data_of(x) == #[trigger] s0.data_of(x) by {
                        if x.index == p.index {
                        } else if x.index == h.index {
                        }
                    }
                    assert forall|x: Handle| s0.valid(x) && x != h implies s1.parent_of(x)
                        == #[trigger] s0.parent_of(x) by {
                        assert(x.index != h.index);
                    }
                    assert forall|x: Handle| s0.valid(x) implies s1.children_of(x) == #[trigger] s0.children_after_detach(x, h) by {
                        if x.index == p.index {
                            assert(x == p);
                        } else {
                            assert(x != p);
                            assert(s0.parent_of(h) != Some(x));
                        }
                    }
                    assert forall|i: int| 0 <= i < s1.slots@.len() implies #[trigger] s1.slot_ok(i) by {
                        assert(s0.slot_ok(i));
                        let hi = s0.handle_at(i);
                        assert(s0.valid(hi));
                        assert(s1.parent_ok(i)) by {
                            match s1.slots@[i].node.parent {
                                Some(q) => {
                                    assert(i != h.index as int);
                                    assert(s0.slots@[i].node.parent == Some(q));
                                    assert(s0.children_of(q).contains(hi));
                                    if q.index == p.index {
                                        assert(q == p);
                                        assert(hi != h);
                                        assert(cs1.contains(hi));
                                    } else {
                                        assert(s1.children_of(q) == s0.children_of(q));
                                    }
                                },
                                None => {},
                            }
                        }
                        assert(s1.children_ok(i)) by {
                            let csi = s1.slots@[i].node.children@;
                            if i == p.index as int {
                                assert(csi == cs1);
                                assert forall|j: int| 0 <= j < csi.len() implies s1.valid(
                                    #[trigger] csi[j],
                                ) && s1.node_of(csi[j]).parent == Some(s1.handle_at(i)) by {
                                    assert(csi.contains(csi[j]));
                                    assert(cs0.contains(csi[j]) && csi[j] != h);
                                    let x = csi[j];
                                    let j0 = choose|j0: int| 0 <= j0 < cs0.len() && cs0[j0] == x;
                                    assert(s0.children_ok(p.index as int));
                                    assert(s0.valid(x));
                                    assert(s0.node_of(x).parent == Some(s0.handle_at(i)));
                                    assert(x.index != h.index);
                                    assert(s1.node_of(x).parent == s0.node_of(x).parent);
                                }
                            } else {
                                assert(csi == s0.slots@[i].node.children@);
                                assert forall|j: int| 0 <= j < csi.len() implies s1.valid(
                                    #[trigger] csi[j],
                                ) && s1.node_of(csi[j]).parent == Some(s1.handle_at(i)) by {
                                    assert(s0.children_ok(i));
                                    let x = csi[j];
                                    assert(s0.valid(x));
                                    assert(s0.node_of(x).parent == Some(s0.handle_at(i)));
                                    assert(x != h) by {
                                        if x == h {
                                            assert(s0.parent_of(h) == Some(s0.handle_at(i)));
                                            assert(s0.valid(p));
                                            assert(s0.handle_at(i) == p);
                                            assert(i == p.index as int);
                                        }
                                    }
                                    assert(x.index != h.index);
                                    assert(s1.node_of(x).parent == s0.node_of(x).parent);
                                }
                            }
                        }
                    }
                }
                Ok(())
            },
        }
    }

    /// Links a detached node as the new last child of `p`.
    fn attach_last(&mut self, p: Handle, c: Handle)
        requires
            old(self).wf(),
            old(self).valid(p),
            old(self).valid(c),
            old(self).parent_of(c) == None::<Handle>,
            p.index != c.index,
        ensures
            final(self).wf(),
            Arena::same_shape(*old(self), *final(self)),
            Arena::all_data_same(*old(self), *final(self)),
            final(self).parent_of(c) == Some(p),
            forall|x: Handle|
                old(self).valid(x) && x != c ==> final(self).parent_of(x) == #[trigger] old(
                    self,
                ).parent_of(x),
            final(self).children_of(p) == old(self).children_of(p).push(c),
            forall|x: Handle|
                old(self).valid(x) && x != p ==> final(self).children_of(x) == #[trigger] old(
                    self,
                ).children_of(x),
    {
        let mut pn = self.take_node(p.index);
        pn.children.push(c);
        self.set_node(p.index, pn);
        let mut cn = self.take_node(c.index);
        cn.parent = Some(p);
        self.set_node(c.index, cn);
        proof {
            let s0 = *old(self);
            let s1 = *self;
            let cs0 = s0.children_of(p);
            let cs1 = cs0.push(c);
            assert(s1.children_of(p) == cs1);
            assert(Arena::same_shape(s0, s1));
            assert forall|i: int| 0 <= i < s1.slots@.len() implies s1.handle_at(i) == s0.handle_at(i) by {}
            assert forall|x: Handle, j: int|
                s0.valid(x) && 0 <= j < s0.children_of(x).len() implies #[trigger] s0.children_of(
                x,
            )[j] != c by {
                if s0.children_of(x)[j] == c {
                    s0.lemma_no_parent_not_listed(x, c, j);
                }
            }
            assert(!cs0.contains(c)) by {
                if cs0.contains(c) {
                    let j = choose|j: int| 0 <= j < cs0.len() && cs0[j] == c;
                }
            }
            assert(s0.slot_ok(p.index as int));
            assert(s0.children_ok(p.index as int));
            lemma_insert_props(cs0, cs0.len() as int, c);
            assert(cs1 == cs0.insert(cs0.len() as int, c));
            assert forall|i: int| 0 <= i < s1.slots@.len() implies #[trigger] s1.slot_ok(i) by {
                assert(s0.slot_ok(i));
                let hi = s0.handle_at(i);
                assert(s0.valid(hi));
                assert(s1.parent_ok(i)) by {
                    if i == c.index as int {
                        assert(s1.slots@[i].node.parent == Some(p));
                        assert(s1.handle_at(c.index as int) == c);
                        assert(cs1.contains(c)) by {
                            assert(cs1[cs1.len() - 1] == c);
                        }
                    } else {
                        match s1.slots@[i].node.parent {
                            Some(q) => {
                                assert(s0.slots@[i].node.parent == Some(q));
                                assert(s0.children_of(q).contains(hi));
                                if q.index == p.index {
                                    assert(q == p);
                                    let j = choose|j: int| 0 <= j < cs0.len() && cs0[j] == hi;
                                    assert(cs1[j] == hi);
                                    assert(cs1.contains(hi));
                                } else {
                                    assert(s1.children_of(q) == s0.children_of(q));
                                }
                            },
                            None => {},
                        }
                    }
                }
                assert(s1.children_ok(i)) by {
                    let csi = s1.slots@[i].node.children@;
                    if i == p.index as int {
                        assert(csi == cs1);
                        assert forall|j: int| 0 <= j < csi.len() implies s1.valid(
                            #[trigger] csi[j],
                        ) && s1.node_of(csi[j]).parent == Some(s1.handle_at(i)) by {
                            if j < cs0.len() {
                                assert(csi[j] == cs0[j]);
                                assert(s0.valid(cs0[j]));
                                assert(s0.node_of(cs0[j]).parent == Some(s0.handle_at(i)));
                                assert(cs0[j] != c);
                                assert(cs0[j].index != c.index || !s0.valid(cs0[j]) || cs0[j] == c);
                                assert(s1.node_of(csi[j]).parent == s0.node_of(csi[j]).parent);
                            } else {
                                assert(csi[j] == c);
                                assert(s1.node_of(c).parent == Some(p));
                                assert(s1.handle_at(p.index as int) == p);
                            }
                        }
                    } else {
                        assert(csi == s0.slots@[i].node.children@);
                        assert forall|j: int| 0 <= j < csi.len() implies s1.valid(
                            #[trigger] csi[j],
                        ) && s1.node_of(csi[j]).parent == Some(s1.handle_at(i)) by {
                            assert(s0.children_ok(i));
                            let x = csi[j];
                            assert(s0.valid(x));
                            assert(s0.node_of(x).parent == Some(s0.handle_at(i)));
                            assert(x != c);
                            assert(x.index != c.index);
                            assert(s1.node_of(x).parent == s0.node_of(x).parent);
                        }
                    }
                }
            }
        }
    }

    /// Detaches `c` from wherever it hangs and appends it as the new last
    /// child of `p`.  Ordering among all other siblings is untouched.
    /// A node cannot be appended to itself.  Fails exactly when one of the
    /// handles is stale or foreign.
    pub fn append_child(&mut self, p: Handle, c: Handle) -> (r: Result<(), DomError>)
        requires
            old(self).wf(),
            c != p,
        ensures
            final(self).wf(),
            Arena::same_shape(*old(self), *final(self)),
            Arena::all_data_same(*old(self), *final(self)),
            match r {
                Ok(()) => {
                    &&& old(self).valid(p) && old(self).valid(c)
                    &&& final(self).parent_of(c) == Some(p)
                    &&& forall|x: Handle|
                        old(self).valid(x) && x != c ==> final(self).parent_of(x) == #[trigger] old(
                            self,
                        ).parent_of(x)
                    &&& final(self).children_of(p) == old(self).children_after_detach(p, c).push(c)
                    &&& forall|x: Handle|
                        old(self).valid(x) && x != p ==> final(self).children_of(x) == #[trigger] old(
                            self,
                        ).children_after_detach(x, c)
                },
                Err(e) => {
                    &&& e == DomError::InvalidHandle
                    &&& !old(self).valid(p) || !old(self).valid(c)
                    &&& *final(self) == *old(self)
                },
            },
    {
        if !self.is_valid(p) || !self.is_valid(c) {
            return Err(DomError::InvalidHandle);
        }
        let ghost s0 = *self;
        let r1 = self.detach(c);
        proof {
            assert(r1 is Ok);
            assert(self.valid(p) && self.valid(c));
            assert(p.index != c.index) by {
                if p.index == c.index {
                    s0.lemma_valid_same_index(p, c);
                }
            }
        }
        self.attach_last(p, c);
        proof {
            assert(self.children_of(p) == s0.children_after_detach(p, c).push(c));
            assert forall|x: Handle| s0.valid(x) && x != p implies self.children_of(x)
                == #[trigger] s0.children_after_detach(x, c) by {}
        }
        Ok(())
    }
}

impl Arena {
    /// Detaches `n` from wherever it hangs and splices it in immediately
    /// before `sib` in `sib`'s parent's child list.  A node cannot be
    /// inserted before itself.  Fails with
    /// `InvalidHandle` on a stale or foreign handle, and with `NoParent`
    /// when `sib` has no parent to insert relative to.
    pub fn insert_before(&mut self, sib: Handle, n: Handle) -> (r: Result<(), DomError>)
        requires
            old(self).wf(),
            n != sib,
        ensures
            final(self).wf(),
            Arena::same_shape(*old(self), *final(self)),
            Arena::all_data_same(*old(self), *final(self)),
            match r {
                Ok(()) => {
                    &&& old(self).valid(sib) && old(self).valid(n)
                    &&& old(self).parent_of(sib) is Some
                    &&& final(self).parent_of(n) == old(self).parent_of(sib)
                    &&& forall|x: Handle|
                        old(self).valid(x) && x != n ==> final(self).parent_of(x) == #[trigger] old(
                            self,
                        ).parent_of(x)
                    &&& forall|x: Handle|
                        old(self).valid(x) ==> final(self).children_of(x) == (
                        if old(self).parent_of(sib) == Some(x) {
                            insert_before_first(
                                #[trigger] old(self).children_after_detach(x, n),
                                sib,
                                n,
                            )
                        } else {
                            old(self).children_after_detach(x, n)
                        })
                },
                Err(e) => {
                    &&& *final(self) == *old(self)
                    &&& if !old(self).valid(sib) || !old(self).valid(n) {
                        e == DomError::InvalidHandle
                    } else {
                        e == DomError::NoParent && old(self).parent_of(sib) is None
                    }
                },
            },
    {
        if !self.is_valid(sib) || !self.is_valid(n) {
            return Err(DomError::InvalidHandle);
        }
        let par_opt = match self.get(sib) {
            Ok(node) => node.parent,
            Err(_) => {
                return Err(DomError::InvalidHandle);
            },
        };
        let p = match par_opt {
            None => {
                return Err(DomError::NoParent);
            },
            Some(p) => p,
        };
        let ghost s0 = *self;
        let _ = self.detach(n);
        let ghost s1 = *self;
        proof {
            assert(s0.slot_ok(sib.index as int));
            assert(s0.handle_at(sib.index as int) == sib);
            assert(s0.valid(p));
            assert(s0.children_of(p).contains(sib));
            assert(s1.children_of(p) == s0.children_after_detach(p, n));
            if s0.parent_of(n) == Some(p) {
                assert(s0.slot_ok(p.index as int));
                assert(s0.slot_ok(n.index as int));
                assert(s0.handle_at(n.index as int) == n);
                assert(s0.children_of(p).contains(n));
                lemma_remove_first_props(s0.children_of(p), n);
            }
            assert(s1.children_of(p).contains(sib));
            assert(s1.valid(p) && s1.valid(n) && s1.valid(sib));
        }
        let k = self.find_child(p, sib);
        let mut pn = self.take_node(p.index);
        pn.children.insert(k, n);
        self.set_node(p.index, pn);
        let mut nn = self.take_node(n.index);
        nn.parent = Some(p);
        self.set_node(n.index, nn);
        proof {
            let s2 = *self;
            let mid = s1.children_of(p);
            let cs2 = mid.insert(k as int, n);
            assert(s2.children_of(p) == cs2);
            assert(s2.parent_of(n) == Some(p));
            assert(Arena::same_shape(s1, s2));
            assert forall|i: int| 0 <= i < s2.slots@.len() implies s2.handle_at(i) == s1.handle_at(
                i,
            ) by {}
            assert forall|x: Handle, j: int|
                s1.valid(x) && 0 <= j < s1.children_of(x).len() implies #[trigger] s1.children_of(
                x,
            )[j] != n by {
                if s1.children_of(x)[j] == n {
                    s1.lemma_no_parent_not_listed(x, n, j);
                }
            }
            assert(!mid.contains(n)) by {
                if mid.contains(n) {
                    let j = choose|j: int| 0 <= j < mid.len() && mid[j] == n;
                }
            }
            assert(s1.slot_ok(p.index as int));
            lemma_insert_props(mid, k as int, n);
            lemma_insert_at_is_insert_before_first(mid, k as int, n);
            assert(insert_before_first(mid, sib, n) == cs2);
            assert forall|i: int| 0 <= i < s2.slots@.len() implies #[trigger] s2.slot_ok(i) by {
                assert(s1.slot_ok(i));
                let hi = s1.handle_at(i);
                assert(s1.valid(hi));
                assert(s2.parent_ok(i)) by {
                    if i == n.index as int {
                        assert(s2.slots@[i].node.parent == Some(p));
                        assert(s1.handle_at(n.index as int) == n);
                        assert(cs2.contains(n));
                    } else {
                        match s2.slots@[i].node.parent {
                            Some(q) => {
                                assert(s1.slots@[i].node.parent == Some(q));
                                assert(s1.children_of(q).contains(hi));
                                if q.index == p.index {
                                    assert(q == p);
                                    assert(cs2.contains(hi));
                                } else {
                                    assert(s2.children_of(q) == s1.children_of(q));
                                }
                            },
                            None => {},
                        }
                    }
                }
                assert(s2.children_ok(i)) by {
                    let csi = s2.slots@[i].node.children@;
                    if i == p.index as int {
                        assert(csi == cs2);
                        assert forall|j: int| 0 <= j < csi.len() implies s2.valid(
                            #[trigger] csi[j],
                        ) && s2.node_of(csi[j]).parent == Some(s2.handle_at(i)) by {
                            assert(csi.contains(csi[j]));
                            let x = csi[j];
                            if x == n {
                                assert(s2.node_of(n).parent == Some(p));
                                assert(s1.handle_at(p.index as int) == p);
                            } else {
                                assert(mid.contains(x));
                                let j0 = choose|j0: int| 0 <= j0 < mid.len() && mid[j0] == x;
                                assert(s1.children_ok(p.index as int));
                                assert(s1.valid(x));
                                assert(s1.node_of(x).parent == Some(s1.handle_at(i)));
                                assert(x.index != n.index);
                                assert(s2.node_of(x).parent == s1.node_of(x).parent);
                            }
                        }
                    } else {
                        assert(csi == s1.slots@[i].node.children@);
                        assert forall|j: int| 0 <= j < csi.len() implies s2.valid(
                            #[trigger] csi[j],
                        ) && s2.node_of(csi[j]).parent == Some(s2.handle_at(i)) by {
                            assert(s1.children_ok(i));
                            let x = csi[j];
                            assert(s1.valid(x));
                            assert(s1.node_of(x).parent == Some(s1.handle_at(i)));
                            assert(x != n);
                            assert(x.index != n.index);
                            assert(s2.node_of(x).parent == s1.node_of(x).parent);
                        }
                    }
                }
            }
            assert forall|x: Handle| s0.valid(x) && x != n implies s2.parent_of(x) == #[trigger] s0.parent_of(x) by {
                assert(x.index != n.index);
                if x.index == p.index {
                }
            }
            assert forall|x: Handle| s0.valid(x) implies s2.children_of(x) == (
            if s0.parent_of(sib) == Some(x) {
                insert_before_first(#[trigger] s0.children_after_detach(x, n), sib, n)
            } else {
                s0.children_after_detach(x, n)
            }) by {
                if x.index == p.index {
                    assert(x == p);
                } else {
                    assert(x != p);
                    assert(s2.children_of(x) == s1.children_of(x));
                }
            }
        }
        Ok(())
    }

    /// Moves the complete, ordered child list of `from` to the end of
    /// `to`'s child list; `from` ends with no children.  The two nodes
    /// must differ, and `to` cannot be moved under itself.  Fails exactly
    /// when one of the handles is stale or foreign.
    pub fn transfer_children(&mut self, from: Handle, to: Handle) -> (r: Result<(), DomError>)
        requires
            old(self).wf(),
            from != to,
            !(old(self).valid(from) && old(self).children_of(from).contains(to)),
        ensures
            final(self).wf(),
            Arena::same_shape(*old(self), *final(self)),
            Arena::all_data_same(*old(self), *final(self)),
            match r {
                Ok(()) => {
                    &&& old(self).valid(from) && old(self).valid(to)
                    &&& final(self).children_of(from) == Seq::<Handle>::empty()
                    &&& final(self).children_of(to) == old(self).children_of(to) + old(
                        self,
                    ).children_of(from)
                    &&& forall|x: Handle|
                        old(self).valid(x) ==> final(self).parent_of(x) == (
                        if old(self).children_of(from).contains(x) {
                            Some(to)
                        } else {
                            #[trigger] old(self).parent_of(x)
                        })
                    &&& forall|x: Handle|
                        old(self).valid(x) && x != from && x != to ==> final(self).children_of(x)
                            == #[trigger] old(self).children_of(x)
                },
                Err(e) => {
                    &&& e == DomError::InvalidHandle
                    &&& !old(self).valid(from) || !old(self).valid(to)
                    &&& *final(self) == *old(self)
                },
            },
    {
        if !self.is_valid(from) || !self.is_valid(to) {
            return Err(DomError::InvalidHandle);
        }
        let ghost s0 = *self;
        proof {
            assert(s0.slot_ok(from.index as int));
            assert(s0.slot_ok(to.index as int));
            assert(from.index != to.index) by {
                if from.index == to.index {
                    s0.lemma_valid_same_index(from, to);
                }
            }
            assert(s0.handle_at(from.index as int) == from);
            assert(s0.handle_at(to.index as int) == to);
        }
        let mut fnode = self.take_node(from.index);
        let mut moved = fnode.children;
        fnode.children = Vec::new();
        self.set_node(from.index, fnode);
        let ghost mseq = moved@;
        proof {
            assert(mseq == s0.children_of(from));
            assert(self.children_of(from) =~= Seq::<Handle>::empty());
        }
        let mut i: usize = 0;
        while i < moved.len()
            invariant
                s0.wf(),
                s0.valid(from),
                s0.valid(to),
                from.index != to.index,
                mseq == s0.children_of(from),
                !mseq.contains(to),
                moved@ == mseq,
                i <= mseq.len(),
                distinct_seq(mseq),
                forall|j: int| 0 <= j < mseq.len() ==> s0.valid(#[trigger] mseq[j]),
                Arena::same_shape(s0, *self),
                forall|x: Handle| s0.valid(x) ==> self.data_of(x) == #[trigger] s0.data_of(x),
                self.children_of(from) == Seq::<Handle>::empty(),
                forall|x: Handle|
                    s0.valid(x) && x.index != from.index ==> self.children_of(x) == #[trigger] s0.children_of(
                        x,
                    ),
                forall|x: Handle|
                    s0.valid(x) ==> self.parent_of(x) == (
                    if mseq.take(i as int).contains(x) {
                        Some(to)
                    } else {
                        #[trigger] s0.parent_of(x)
                    }),
            decreases mseq.len() - i,
        {
            let c = moved[i];
            proof {
                assert(mseq[i as int] == c);
                assert(s0.valid(c));
            }
            let mut cn = self.take_node(c.index);
            cn.parent = Some(to);
            self.set_node(c.index, cn);
            proof {
                assert(mseq.take(i as int + 1).drop_last() =~= mseq.take(i as int));
                assert(mseq.take(i as int + 1).last() == c);
                assert forall|x: Handle| s0.valid(x) implies self.parent_of(x) == (
                if mseq.take(i as int + 1).contains(x) {
                    Some(to)
                } else {
                    #[trigger] s0.parent_of(x)
                }) by {
                    if x.index == c.index {
                        assert(x == c);
                        assert(mseq.take(i as int + 1).contains(c)) by {
                            assert(mseq.take(i as int + 1).last() == c);
                        }
                    } else {
                        assert(x != c);
                        assert(mseq.take(i as int + 1).contains(x) == mseq.take(
                            i as int,
                        ).contains(x)) by {
                            if mseq.take(i as int + 1).contains(x) {
                                let j = choose|j: int|
                                    0 <= j < i as int + 1 && #[trigger] mseq.take(
                                        i as int + 1,
                                    )[j] == x;
                                assert(j != i as int);
                                assert(mseq.take(i as int)[j] == x);
                            }
                            if mseq.take(i as int).contains(x) {
                                let j = choose|j: int|
                                    0 <= j < i as int && #[trigger] mseq.take(i as int)[j] == x;
                                assert(mseq.take(i as int + 1)[j] == x);
                            }
                        }
                    }
                }
                assert forall|x: Handle|
                    s0.valid(x) && x.index != from.index implies self.children_of(x)
                    == #[trigger] s0.children_of(x) by {}
                assert(self.children_of(from) =~= Seq::<Handle>::empty());
            }
            i = i + 1;
        }
        proof {
            assert(mseq.take(mseq.len() as int) =~= mseq);
        }
        let mut tnode = self.take_node(to.index);
        tnode.children.append(&mut moved);
        self.set_node(to.index, tnode);
        proof {
            let s2 = *self;
            let cs_to = s0.children_of(to);
            let cs2 = cs_to + mseq;
            assert(s2.children_of(to) == cs2);
            assert(Arena::same_shape(s0, s2));
            assert forall|i2: int| 0 <= i2 < s2.slots@.len() implies s2.handle_at(i2)
                == s0.handle_at(i2) by {}
            assert forall|x: Handle| mseq.contains(x) implies s0.parent_of(x) == Some(from) by {
                let j = choose|j: int| 0 <= j < mseq.len() && mseq[j] == x;
                s0.lemma_wf_child(from, j);
            }
            assert forall|x: Handle| cs_to.contains(x) implies !mseq.contains(x) && s0.parent_of(
                x,
            ) == Some(to) by {
                let j = choose|j: int| 0 <= j < cs_to.len() && cs_to[j] == x;
                s0.lemma_wf_child(to, j);
            }
            assert forall|x: Handle| s0.valid(x) implies s2.parent_of(x) == (
            if mseq.contains(x) {
                Some(to)
            } else {
                #[trigger] s0.parent_of(x)
            }) by {
                assert(x.index != to.index || x == to);
                if x == to {
                    assert(!mseq.contains(to));
                }
            }
            assert(s2.children_of(from) =~= Seq::<Handle>::empty());
            assert forall|x: Handle|
                s0.valid(x) && x != from && x != to implies s2.children_of(x) == #[trigger] s0.children_of(
                x,
            ) by {
                assert(x.index != from.index && x.index != to.index);
            }
            assert(distinct_seq(cs2)) by {
                assert(s0.children_ok(from.index as int));
                assert(s0.children_ok(to.index as int));
                assert forall|j1: int, j2: int| 0 <= j1 < j2 < cs2.len() implies cs2[j1] != cs2[j2] by {
                    if j1 < cs_to.len() && j2 >= cs_to.len() {
                        assert(cs2[j1] == cs_to[j1]);
                        assert(cs2[j2] == mseq[j2 - cs_to.len()]);
                        assert(cs_to.contains(cs_to[j1]));
                        assert(mseq.contains(mseq[j2 - cs_to.len()]));
                    }
                }
            }
            assert forall|i2: int| 0 <= i2 < s2.slots@.len() implies #[trigger] s2.slot_ok(i2) by {
                assert(s0.slot_ok(i2));
                let hi = s0.handle_at(i2);
                assert(s0.valid(hi));
                assert(s2.parent_ok(i2)) by {
                    match s2.slots@[i2].node.parent {
                        Some(q) => {
                            if mseq.contains(hi) {
                                assert(s2.parent_of(hi) == Some(to));
                                assert(q == to);
                                let j = choose|j: int| 0 <= j < mseq.len() && mseq[j] == hi;
                                assert(cs2[cs_to.len() + j] == hi);
                                assert(cs2.contains(hi));
                            } else {
                                assert(s0.parent_of(hi) == Some(q));
                                assert(s0.children_of(q).contains(hi));
                                if q.index == from.index {
                                    assert(q == from);
                                    assert(mseq.contains(hi));
                                } else if q.index == to.index {
                                    assert(q == to);
                                    let j = choose|j: int|
                                        0 <= j < cs_to.len() && cs_to[j] == hi;
                                    assert(cs2[j] == hi);
                                    assert(cs2.contains(hi));
                                } else {
                                    assert(s2.children_of(q) == s0.children_of(q));
                                }
                            }
                        },
                        None => {},
                    }
                }
                assert(s2.children_ok(i2)) by {
                    let csi = s2.slots@[i2].node.children@;
                    if i2 == to.index as int {
                        assert(csi == cs2);
                        assert forall|j: int| 0 <= j < csi.len() implies s2.valid(
                            #[trigger] csi[j],
                        ) && s2.node_of(csi[j]).parent == Some(s2.handle_at(i2)) by {
                            let x = csi[j];
                            if j < cs_to.len() {
                                assert(x == cs_to[j]);
                                assert(cs_to.contains(x));
                                assert(s0.valid(x));
                                assert(!mseq.contains(x));
                                assert(s2.parent_of(x) == s0.parent_of(x));
                                assert(s0.parent_of(x) == Some(to));
                            } else {
                                assert(x == mseq[j - cs_to.len()]);
                                assert(mseq.contains(x));
                                assert(s0.valid(x));
                                assert(s2.parent_of(x) == Some(to));
                            }
                            assert(s2.handle_at(i2) == to);
                        }
                    } else if i2 == from.index as int {
                        assert(csi.len() == 0);
                    } else {
                        assert(s2.children_of(hi) == s0.children_of(hi));
                        assert(csi == s0.slots@[i2].node.children@);
                        assert forall|j: int| 0 <= j < csi.len() implies s2.valid(
                            #[trigger] csi[j],
                        ) && s2.node_of(csi[j]).parent == Some(s2.handle_at(i2)) by {
                            assert(s0.children_ok(i2));
                            let x = csi[j];
                            assert(s0.valid(x));
                            assert(s0.node_of(x).parent == Some(s0.handle_at(i2)));
                            assert(!mseq.contains(x)) by {
                                if mseq.contains(x) {
                                    assert(s0.parent_of(x) == Some(from));
                                    assert(s0.handle_at(i2) == from);
                                }
                            }
                            assert(s2.parent_of(x) == s0.parent_of(x));
                        }
                    }
                }
            }
        }
        Ok(())
    }
}

} // verus!
