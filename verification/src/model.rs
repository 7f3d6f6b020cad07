//! Ghost model of the entity store.
//!
//! A [`Shape`] is the structural part of a store: which slots are occupied,
//! with which generation, attributes and children. The geometry computed by
//! the layout passes lives apart, in a sequence of [`GeomNode`] records, so
//! that the passes can be described as functions from geometry to geometry
//! over a fixed shape.
//!
//! Every occupied slot carries a `stamp`, the value of the store's insertion
//! counter when its occupant was created. The store maintains the ordering
//! invariant [`Shape::stamps_wf`]: a node's valid children were always
//! created before the node itself. That invariant rules out reference
//! cycles, and every recursive walk in this crate terminates by descending
//! along stamps.

use vstd::prelude::*;

use crate::params::LayoutParams;
use crate::store::EntityHandle;

verus! {

/// Structural content of an occupied slot: the node's attributes and its
/// ordered child handles.
pub ghost struct NodeShape {
    pub params: LayoutParams,
    pub children: Seq<EntityHandle>,
}

/// One slot of the store, as the model sees it.
pub ghost struct SlotShape {
    /// Bumped on every insertion into and removal from the slot, so that
    /// handles to earlier occupants are recognizably stale.
    pub generation: u64,
    /// Insertion counter value at the time the occupant was created.
    pub stamp: u64,
    /// The occupant, or `None` for a vacant slot.
    pub node: Option<NodeShape>,
}

/// The structural part of a whole store.
pub ghost struct Shape {
    pub slots: Seq<SlotShape>,
}

/// The computed geometry of one node: size and position, written only by
/// the layout passes.
#[derive(Clone, Copy, Debug, PartialEq, Eq, Structural)]
pub struct GeomNode {
    pub width: u16,
    pub height: u16,
    pub x: u16,
    pub y: u16,
}

impl Default for GeomNode {
    fn default() -> (r: Self)
        ensures
            r == (GeomNode { width: 0, height: 0, x: 0, y: 0 }),
    {
        GeomNode { width: 0, height: 0, x: 0, y: 0 }
    }
}

impl Shape {
    pub open spec fn len(self) -> nat {
        self.slots.len()
    }

    pub open spec fn in_bounds(self, s: int) -> bool {
        0 <= s < self.slots.len()
    }

    /// Whether slot `s` currently holds a node.
    pub open spec fn occupied(self, s: int) -> bool {
        self.in_bounds(s) && self.slots[s].node is Some
    }

    /// A handle is valid while its slot holds a node of the same generation.
    pub open spec fn valid(self, h: EntityHandle) -> bool {
        &&& self.occupied(h.slot as int)
        &&& self.slots[h.slot as int].generation == h.generation
    }

    /// The node in slot `s`; meaningful only when `occupied(s)`.
    pub open spec fn node_at(self, s: int) -> NodeShape {
        self.slots[s].node->Some_0
    }

    /// The node a valid handle refers to.
    pub open spec fn node(self, h: EntityHandle) -> NodeShape {
        self.node_at(h.slot as int)
    }

    /// The insertion stamp of slot `s`.
    pub open spec fn stamp(self, s: int) -> u64 {
        self.slots[s].stamp
    }

    /// Creation-order invariant: every valid child of an occupied node was
    /// inserted strictly before the node itself. Insertion can only link
    /// already-existing nodes as children, so the store preserves this;
    /// it makes every child walk well-founded.
    pub open spec fn stamps_wf(self) -> bool {
        forall|s: int, k: int|
            self.occupied(s) && 0 <= k < self.node_at(s).children.len() && self.valid(
                #[trigger] self.node_at(s).children[k],
            ) ==> self.stamp(self.node_at(s).children[k].slot as int) < self.stamp(s)
    }

    /// Whether the whole tree under `h` can be walked: `h` is valid and so,
    /// recursively, is every child. Layout fails on exactly the trees where
    /// this is false.
    pub open spec fn subtree_ok(self, h: EntityHandle) -> bool
        decreases self.stamp(h.slot as int)
            when self.stamps_wf()
    {
        &&& self.valid(h)
        &&& forall|k: int|
            0 <= k < self.node(h).children.len() ==> {
                let c = #[trigger] self.node(h).children[k];
                if self.valid(c) {
                    self.subtree_ok(c)
                } else {
                    false
                }
            }
    }

    /// Whether slot `s` is reachable from `h` through valid child handles,
    /// `h` itself included.
    pub open spec fn in_subtree(self, h: EntityHandle, s: int) -> bool
        decreases self.stamp(h.slot as int)
            when self.stamps_wf()
    {
        &&& self.valid(h)
        &&& (h.slot == s || exists|k: int|
            0 <= k < self.node(h).children.len() && {
                let c = #[trigger] self.node(h).children[k];
                if self.valid(c) {
                    self.in_subtree(c, s)
                } else {
                    false
                }
            })
    }

    /// The handles of the subtree under `h`, depth first, parents before
    /// children. Invalid handles contribute nothing.
    pub open spec fn flatten(self, h: EntityHandle) -> Seq<EntityHandle>
        decreases self.stamp(h.slot as int), 1nat
            when self.stamps_wf()
    {
        if self.valid(h) {
            seq![h] + self.flatten_kids(h, 0)
        } else {
            Seq::empty()
        }
    }

    /// The concatenated [`Shape::flatten`] of `h`'s children from index `i` on.
    pub open spec fn flatten_kids(self, h: EntityHandle, i: int) -> Seq<EntityHandle>
        decreases self.stamp(h.slot as int), 0nat, self.node(h).children.len() - i
            when self.stamps_wf() && self.valid(h)
    {
        if i < 0 || i >= self.node(h).children.len() {
            Seq::empty()
        } else {
            let c = self.node(h).children[i];
            (if self.valid(c) {
                self.flatten(c)
            } else {
                Seq::empty()
            }) + self.flatten_kids(h, i + 1)
        }
    }
    /// Subtree membership points at stored nodes only.
    pub proof fn lemma_in_subtree_occupied(sh: Shape, h: EntityHandle, s: int)
        requires
            sh.stamps_wf(),
            sh.in_subtree(h, s),
        ensures
            sh.occupied(s),
        decreases sh.stamp(h.slot as int),
    {
        if h.slot == s {
        } else {
            let k = choose|k: int|
                0 <= k < sh.node(h).children.len() && {
                    let c = #[trigger] sh.node(h).children[k];
                    if sh.valid(c) {
                        sh.in_subtree(c, s)
                    } else {
                        false
                    }
                };
            let c = sh.node(h).children[k];
            assert(sh.stamp(c.slot as int) < sh.stamp(h.slot as int));
            Shape::lemma_in_subtree_occupied(sh, c, s);
        }
    }

    /// Stamps only fall along child edges, so every slot in a subtree was
    /// stamped no later than the subtree's root.
    pub proof fn lemma_in_subtree_stamp(sh: Shape, h: EntityHandle, s: int)
        requires
            sh.stamps_wf(),
            sh.in_subtree(h, s),
        ensures
            sh.stamp(s) <= sh.stamp(h.slot as int),
        decreases sh.stamp(h.slot as int),
    {
        if h.slot == s {
        } else {
            let k = choose|k: int|
                0 <= k < sh.node(h).children.len() && {
                    let c = #[trigger] sh.node(h).children[k];
                    if sh.valid(c) {
                        sh.in_subtree(c, s)
                    } else {
                        false
                    }
                };
            let c = sh.node(h).children[k];
            assert(sh.stamp(c.slot as int) < sh.stamp(h.slot as int));
            Shape::lemma_in_subtree_stamp(sh, c, s);
        }
    }

    /// Two valid handles to the same slot are the same handle: both carry
    /// the slot's current generation.
    pub proof fn lemma_valid_same_slot(self, h0: EntityHandle, h1: EntityHandle)
        requires
            self.valid(h0),
            self.valid(h1),
            h0.slot == h1.slot,
        ensures
            h0 == h1,
    {
    }

    /// What [`Shape::flatten`] collects: exactly the valid handles whose
    /// slots lie in the subtree of `h`.
    pub proof fn lemma_flatten_covers(self, h: EntityHandle)
        requires
            self.stamps_wf(),
        ensures
            forall|j: int|
                0 <= j < self.flatten(h).len() ==> self.valid(#[trigger] self.flatten(h)[j]),
            forall|h0: EntityHandle|
                self.flatten(h).contains(h0) <==> (self.valid(h0) && self.in_subtree(
                    h,
                    h0.slot as int,
                )),
        decreases self.stamp(h.slot as int), 1nat, 0nat,
    {
        if !self.valid(h) {
            assert(self.flatten(h) == Seq::<EntityHandle>::empty());
            assert forall|h0: EntityHandle|
                self.flatten(h).contains(h0) <==> (self.valid(h0) && self.in_subtree(
                    h,
                    h0.slot as int,
                )) by {
                if self.flatten(h).contains(h0) {
                    let j = choose|j: int| 0 <= j < self.flatten(h).len() && self.flatten(h)[j] == h0;
                    assert(false);
                }
            }
        } else {
            self.lemma_flatten_kids_covers(h, 0);
            assert(self.flatten(h) == seq![h] + self.flatten_kids(h, 0));
            assert forall|j: int|
                0 <= j < self.flatten(h).len() implies self.valid(#[trigger] self.flatten(h)[j]) by {
                if j == 0 {
                    assert(self.flatten(h)[j] == h);
                } else {
                    assert(self.flatten(h)[j] == self.flatten_kids(h, 0)[j - 1]);
                }
            }
            assert forall|h0: EntityHandle|
                self.flatten(h).contains(h0) <==> (self.valid(h0) && self.in_subtree(
                    h,
                    h0.slot as int,
                )) by {
                if self.flatten(h).contains(h0) {
                    let j = choose|j: int| 0 <= j < self.flatten(h).len() && self.flatten(h)[j] == h0;
                    if j == 0 {
                        assert(h0 == h);
                        assert(self.in_subtree(h, h0.slot as int));
                    } else {
                        assert(self.flatten_kids(h, 0)[j - 1] == h0);
                        assert(self.flatten_kids(h, 0).contains(h0));
                        assert(self.valid(h0) && self.in_subtree(h, h0.slot as int));
                    }
                }
                if self.valid(h0) && self.in_subtree(h, h0.slot as int) {
                    if h0.slot == h.slot {
                        self.lemma_valid_same_slot(h0, h);
                        assert(self.flatten(h)[0] == h0);
                        assert(self.flatten(h).contains(h0));
                    } else {
                        assert(self.flatten_kids(h, 0).contains(h0));
                        let j = choose|j: int|
                            0 <= j < self.flatten_kids(h, 0).len() && self.flatten_kids(h, 0)[j]
                                == h0;
                        assert(self.flatten(h)[j + 1] == h0);
                        assert(self.flatten(h).contains(h0));
                    }
                }
            }
        }
    }

    /// The part of [`Shape::lemma_flatten_covers`] about the children from
    /// index `i` on.
    proof fn lemma_flatten_kids_covers(self, h: EntityHandle, i: int)
        requires
            self.stamps_wf(),
            self.valid(h),
            0 <= i,
        ensures
            forall|j: int|
                0 <= j < self.flatten_kids(h, i).len() ==> self.valid(
                    #[trigger] self.flatten_kids(h, i)[j],
                ),
            forall|h0: EntityHandle|
                self.flatten_kids(h, i).contains(h0) <==> (self.valid(h0) && exists|k: int|
                    i <= k < self.node(h).children.len() && {
                        let c = #[trigger] self.node(h).children[k];
                        self.valid(c) && self.in_subtree(c, h0.slot as int)
                    }),
        decreases self.stamp(h.slot as int), 0nat, self.node(h).children.len() - i,
    {
        let cs = self.node(h).children;
        if i < 0 || i >= cs.len() {
            assert(self.flatten_kids(h, i) == Seq::<EntityHandle>::empty());
            assert forall|h0: EntityHandle|
                self.flatten_kids(h, i).contains(h0) <==> (self.valid(h0) && exists|k: int|
                    i <= k < cs.len() && {
                        let c = #[trigger] cs[k];
                        self.valid(c) && self.in_subtree(c, h0.slot as int)
                    }) by {
                if self.flatten_kids(h, i).contains(h0) {
                    let j = choose|j: int|
                        0 <= j < self.flatten_kids(h, i).len() && self.flatten_kids(h, i)[j] == h0;
                    assert(false);
                }
            }
        } else {
            let c = cs[i];
            let head = if self.valid(c) {
                self.flatten(c)
            } else {
                Seq::<EntityHandle>::empty()
            };
            let tail = self.flatten_kids(h, i + 1);
            assert(self.flatten_kids(h, i) == head + tail);
            if self.valid(c) {
                self.lemma_flatten_covers(c);
            }
            self.lemma_flatten_kids_covers(h, i + 1);
            assert forall|j: int|
                0 <= j < self.flatten_kids(h, i).len() implies self.valid(
                    #[trigger] self.flatten_kids(h, i)[j],
                ) by {
                if j < head.len() {
                    assert(self.flatten_kids(h, i)[j] == head[j]);
                } else {
                    assert(self.flatten_kids(h, i)[j] == tail[j - head.len()]);
                }
            }
            assert forall|h0: EntityHandle|
                self.flatten_kids(h, i).contains(h0) <==> (self.valid(h0) && exists|k: int|
                    i <= k < cs.len() && {
                        let ck = #[trigger] cs[k];
                        self.valid(ck) && self.in_subtree(ck, h0.slot as int)
                    }) by {
                if self.flatten_kids(h, i).contains(h0) {
                    let j = choose|j: int|
                        0 <= j < self.flatten_kids(h, i).len() && self.flatten_kids(h, i)[j] == h0;
                    if j < head.len() {
                        assert(head[j] == h0);
                        assert(head.contains(h0));
                        assert(self.valid(c) && self.in_subtree(c, h0.slot as int));
                        assert(i <= i < cs.len() && self.valid(cs[i]) && self.in_subtree(
                            cs[i],
                            h0.slot as int,
                        ));
                    } else {
                        assert(tail[j - head.len()] == h0);
                        assert(tail.contains(h0));
                    }
                }
                if self.valid(h0) && exists|k: int|
                    i <= k < cs.len() && {
                        let ck = #[trigger] cs[k];
                        self.valid(ck) && self.in_subtree(ck, h0.slot as int)
                    } {
                    let k = choose|k: int|
                        i <= k < cs.len() && {
                            let ck = #[trigger] cs[k];
                            self.valid(ck) && self.in_subtree(ck, h0.slot as int)
                        };
                    if k == i {
                        assert(head.contains(h0));
                        let j = choose|j: int| 0 <= j < head.len() && head[j] == h0;
                        assert(self.flatten_kids(h, i)[j] == h0);
                    } else {
                        assert(tail.contains(h0));
                        let j = choose|j: int| 0 <= j < tail.len() && tail[j] == h0;
                        assert(self.flatten_kids(h, i)[j + head.len()] == h0);
                    }
                    assert(self.flatten_kids(h, i).contains(h0));
                }
            }
        }
    }
}

} // verus!
