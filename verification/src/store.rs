//! The entity store: a generational arena of layout nodes and their widget
//! payloads.
//!
//! Every insertion hands out an [`EntityHandle`] carrying the slot index and
//! the slot's generation at that moment. Removing a node bumps the slot's
//! generation, so handles to the old occupant fail every later lookup
//! distinctly instead of aliasing whatever reuses the slot.
//!
//! Freed slots are threaded onto a free list and reused in O(1). A slot
//! whose generation counter is about to run out is retired instead of
//! reused, so generations never wrap and stale handles never come back to
//! life.

use vstd::prelude::*;

use crate::model::{GeomNode, NodeShape, Shape, SlotShape};
use crate::params::LayoutParams;

verus! {

/// Opaque identifier of a stored node: a slot index plus the generation the
/// slot had when the node was inserted.
///
/// Two handles are equal only if both fields match; a handle is usable only
/// while the generation still matches the slot's.
#[derive(Clone, Copy, Debug, PartialEq, Eq, Hash, Structural)]
pub struct EntityHandle {
    pub slot: usize,
    pub generation: u64,
}

/// How a store lookup or update can fail.
#[derive(Clone, Copy, Debug, PartialEq, Eq, Structural)]
pub enum StoreError {
    /// The handle's slot is vacant, out of bounds, or holds a later
    /// occupant.
    InvalidHandle,
    /// A child being linked was inserted after the node it is linked
    /// under; accepting it could close a reference cycle.
    ChildNewerThanParent,
}

/// One node of the layout tree: its styling attributes, its ordered child
/// handles, and the geometry computed by the last layout run.
#[derive(Debug)]
pub struct LayoutNode {
    pub params: LayoutParams,
    pub children: Vec<EntityHandle>,
    /// Computed width, written by `calculate_layout`.
    pub width: u16,
    /// Computed height, written by `calculate_layout`.
    pub height: u16,
    /// Computed column in root coordinates, written by `calculate_layout`.
    pub x: u16,
    /// Computed row in root coordinates, written by `calculate_layout`.
    pub y: u16,
}

impl LayoutNode {
    /// A node with the given attributes and children and zeroed geometry.
    pub fn new(params: LayoutParams, children: Vec<EntityHandle>) -> (r: LayoutNode)
        ensures
            r.params == params,
            r.children@ == children@,
            r.width == 0u16 && r.height == 0u16 && r.x == 0u16 && r.y == 0u16,
    {
        LayoutNode { params, children, width: 0, height: 0, x: 0, y: 0 }
    }
}

enum SlotState<W> {
    Occupied { node: LayoutNode, payload: W },
    Vacant { next_free: usize },
}

struct Slot<W> {
    generation: u64,
    stamp: u64,
    state: SlotState<W>,
}

/// The entity store. `W` is the widget payload type; the store never looks
/// inside a payload, it only keeps it next to its node and hands it back.
pub struct ElementCtx<W> {
    slots: Vec<Slot<W>>,
    /// Head of the free list, or `usize::MAX` when it is empty.
    free_head: usize,
    /// Total number of insertions ever made; the next node's stamp.
    tick: u64,
    /// The free list as a sequence of slot indices, head first.
    free_list: Ghost<Seq<usize>>,
}

/// The placeholder recorded for a child handle that was already stale when
/// it was linked; it matches no slot, ever.
pub closed spec fn spec_dead_handle() -> EntityHandle {
    EntityHandle { slot: usize::MAX, generation: 0 }
}

/// Child lists are stored with already-stale handles replaced by the dead
/// placeholder, so that a handle recorded as a child can never become valid
/// again through slot reuse.
pub open spec fn spec_sanitize(sh: Shape, cs: Seq<EntityHandle>) -> Seq<EntityHandle> {
    Seq::new(cs.len(), |k: int| if sh.valid(cs[k]) { cs[k] } else { spec_dead_handle() })
}

/// Both stores hold the very same slot `s`: same structure, geometry and
/// payload.
pub open spec fn slot_unchanged<W>(pre: ElementCtx<W>, post: ElementCtx<W>, s: int) -> bool {
    &&& post.shape().slots[s] == pre.shape().slots[s]
    &&& post.geom()[s] == pre.geom()[s]
    &&& post.payload_at(s) == pre.payload_at(s)
}

/// Relates a slot before and after a geometry write-back: everything is
/// kept except the occupant's computed geometry, which becomes `gn`.
spec fn slot_after_write<W>(a: Slot<W>, b: Slot<W>, gn: GeomNode) -> bool {
    &&& b.generation == a.generation
    &&& b.stamp == a.stamp
    &&& match (a.state, b.state) {
        (
            SlotState::Occupied { node: na, payload: pa },
            SlotState::Occupied { node: nb, payload: pb },
        ) => {
            &&& pb == pa
            &&& nb.params == na.params
            &&& nb.children == na.children
            &&& nb.width == gn.width
            &&& nb.height == gn.height
            &&& nb.x == gn.x
            &&& nb.y == gn.y
        },
        (SlotState::Vacant { next_free: la }, SlotState::Vacant { next_free: lb }) => lb == la,
        _ => false,
    }
}

impl<W> ElementCtx<W> {
    /// The structural model: occupancy, generations, stamps, attributes and
    /// children of every slot.
    pub closed spec fn shape(self) -> Shape {
        Shape {
            slots: Seq::new(
                self.slots@.len(),
                |i: int| SlotShape {
                    generation: self.slots@[i].generation,
                    stamp: self.slots@[i].stamp,
                    node: match self.slots@[i].state {
                        SlotState::Occupied { node, .. } => Some(
                            NodeShape { params: node.params, children: node.children@ },
                        ),
                        SlotState::Vacant { .. } => None,
                    },
                },
            ),
        }
    }

    /// The computed geometry of every slot; vacant slots read as zeroes.
    pub closed spec fn geom(self) -> Seq<GeomNode> {
        Seq::new(
            self.slots@.len(),
            |i: int| match self.slots@[i].state {
                SlotState::Occupied { node, .. } => GeomNode {
                    width: node.width,
                    height: node.height,
                    x: node.x,
                    y: node.y,
                },
                SlotState::Vacant { .. } => GeomNode { width: 0, height: 0, x: 0, y: 0 },
            },
        )
    }

    /// The payload stored in slot `s`; meaningless for vacant slots.
    pub closed spec fn payload_at(self, s: int) -> W {
        match self.slots@[s].state {
            SlotState::Occupied { payload, .. } => payload,
            SlotState::Vacant { .. } => arbitrary(),
        }
    }

    /// Total number of insertions made so far.
    pub closed spec fn tick_val(self) -> u64 {
        self.tick
    }

    /// Whether `h` currently refers to a stored node.
    pub open spec fn valid(self, h: EntityHandle) -> bool {
        self.shape().valid(h)
    }

    spec fn free_wf(self) -> bool {
        let fl = self.free_list@;
        &&& forall|i: int|
            0 <= i < fl.len() ==> {
                &&& #[trigger] fl[i] < self.slots@.len()
                &&& self.slots@[fl[i] as int].state is Vacant
                &&& self.slots@[fl[i] as int].generation <= u64::MAX - 2
                &&& self.slots@[fl[i] as int].state->next_free == if i + 1 < fl.len() {
                    fl[i + 1]
                } else {
                    usize::MAX
                }
            }
        &&& forall|i: int, j: int| 0 <= i < j < fl.len() ==> fl[i] != fl[j]
        &&& self.free_head == if fl.len() == 0 {
            usize::MAX
        } else {
            fl[0]
        }
    }

    /// Every stored child handle either is the dead placeholder or carries a
    /// generation no later than its slot's current one. Generations only
    /// grow, so a stored child that is stale now can never match its slot
    /// again.
    spec fn children_wf(self) -> bool {
        forall|s: int, k: int|
            self.shape().occupied(s) && 0 <= k < self.shape().node_at(s).children.len() ==> {
                let c = #[trigger] self.shape().node_at(s).children[k];
                ||| c == spec_dead_handle()
                ||| (c.slot < self.shape().len() && c.generation <= self.shape().slots[
                    c.slot as int
                ].generation)
            }
    }

    /// The store's internal invariant. Constructors establish it and every
    /// operation preserves it.
    pub closed spec fn wf(self) -> bool {
        &&& self.slots@.len() <= self.tick
        &&& self.slots@.len() <= usize::MAX
        &&& self.free_wf()
        &&& forall|s: int|
            0 <= s < self.slots@.len() ==> #[trigger] self.slots@[s].stamp < self.tick
        &&& forall|s: int|
            0 <= s < self.slots@.len() && self.slots@[s].state is Occupied
                ==> #[trigger] self.slots@[s].generation <= u64::MAX - 1
        &&& self.children_wf()
        &&& self.shape().stamps_wf()
    }

    /// Facts the layout modules need about any well-formed store, which
    /// they cannot read out of the closed invariant themselves: the
    /// recorded graph is well-founded, the model sequences line up, and
    /// vacant slots carry no geometry.
    pub proof fn lemma_wf_model(self)
        requires
            self.wf(),
        ensures
            self.shape().stamps_wf(),
            self.shape().len() <= usize::MAX,
            self.geom().len() == self.shape().len(),
            forall|s: int|
                0 <= s < self.shape().len() && !self.shape().occupied(s) ==> self.geom()[s]
                    == (GeomNode { width: 0, height: 0, x: 0, y: 0 }),
    {
    }

    /// An empty store.
    pub fn new() -> (r: ElementCtx<W>)
        ensures
            r.wf(),
            r.shape().len() == 0,
            r.tick_val() == 0,
    {
        let r = ElementCtx {
            slots: Vec::new(),
            free_head: usize::MAX,
            tick: 0,
            free_list: Ghost(Seq::empty()),
        };
        proof {
            assert(r.shape().slots.len() == 0);
        }
        r
    }

    /// Total number of insertions ever made; grows by exactly one per
    /// stored node, so it counts construction work.
    pub fn insertions(&self) -> (r: u64)
        ensures
            r == self.tick_val(),
    {
        self.tick
    }

    /// Whether `h` currently refers to a stored node.
    pub fn contains(&self, h: EntityHandle) -> (r: bool)
        ensures
            r == self.valid(h),
    {
        h.slot < self.slots.len() && self.slots[h.slot].generation == h.generation && matches!(
            &self.slots[h.slot].state,
            SlotState::Occupied { .. },
        )
    }
}

impl<W> ElementCtx<W> {
    /// Replaces child handles that are already stale with the dead
    /// placeholder; see [`spec_sanitize`].
    fn sanitize_children(&self, children: Vec<EntityHandle>) -> (r: Vec<EntityHandle>)
        ensures
            r@ == spec_sanitize(self.shape(), children@),
    {
        let mut clean: Vec<EntityHandle> = Vec::new();
        let mut i: usize = 0;
        while i < children.len()
            invariant
                i <= children.len(),
                clean@ == spec_sanitize(self.shape(), children@).take(i as int),
            decreases children.len() - i,
        {
            let c = children[i];
            if self.contains(c) {
                clean.push(c);
            } else {
                clean.push(EntityHandle { slot: usize::MAX, generation: 0 });
            }
            i = i + 1;
            proof {
                assert(clean@ =~= spec_sanitize(self.shape(), children@).take(i as int));
            }
        }
        proof {
            assert(clean@ =~= spec_sanitize(self.shape(), children@));
        }
        clean
    }

    /// Stores a node and its payload, reusing a freed slot if one is
    /// available, and returns a fresh handle to it.
    ///
    /// Children already stale at this point are recorded as permanently
    /// dead references; they surface as lookup errors during layout, like
    /// children that go stale later.
    pub fn insert(&mut self, node: LayoutNode, payload: W) -> (h: EntityHandle)
        requires
            old(self).wf(),
            old(self).tick_val() < usize::MAX as u64,
        ensures
            final(self).wf(),
            final(self).valid(h),
            h.slot < final(self).shape().len(),
            final(self).shape().node_at(h.slot as int).params == node.params,
            final(self).shape().node_at(h.slot as int).children == spec_sanitize(
                old(self).shape(),
                node.children@,
            ),
            final(self).geom()[h.slot as int] == (GeomNode {
                width: node.width,
                height: node.height,
                x: node.x,
                y: node.y,
            }),
            final(self).payload_at(h.slot as int) == payload,
            final(self).shape().stamp(h.slot as int) == old(self).tick_val(),
            final(self).tick_val() == old(self).tick_val() + 1,
            old(self).shape().len() <= final(self).shape().len() <= old(self).shape().len() + 1,
            forall|s: int|
                0 <= s < old(self).shape().len() && s != h.slot ==> slot_unchanged(
                    *old(self),
                    *final(self),
                    s,
                ),
            forall|h0: EntityHandle|
                #[trigger] final(self).valid(h0) <==> (old(self).valid(h0) || h0 == h),
            forall|s: int|
                0 <= s < old(self).shape().len() ==> #[trigger] final(self).shape().slots[s].generation
                    >= old(self).shape().slots[s].generation,
            !old(self).shape().occupied(h.slot as int),
    {
        let ghost pre = *self;
        let stamp = self.tick;
        self.tick = self.tick + 1;
        let children = self.sanitize_children(node.children);
        let node = LayoutNode { children, ..node };
        let ghost cs = node.children@;
        let h: EntityHandle;
        if self.free_head != usize::MAX {
            let s = self.free_head;
            proof {
                assert(pre.free_list@.len() > 0);
                assert(pre.free_list@[0] == s);
            }
            let next: usize = match &self.slots[s].state {
                SlotState::Vacant { next_free } => *next_free,
                SlotState::Occupied { .. } => usize::MAX,
            };
            let g = self.slots[s].generation + 1;
            self.slots[s] = Slot {
                generation: g,
                stamp,
                state: SlotState::Occupied { node, payload },
            };
            self.free_head = next;
            proof {
                self.free_list@ = pre.free_list@.drop_first();
            }
            h = EntityHandle { slot: s, generation: g };
        } else {
            let s = self.slots.len();
            self.slots.push(Slot {
                generation: 1,
                stamp,
                state: SlotState::Occupied { node, payload },
            });
            h = EntityHandle { slot: s, generation: 1 };
        }
        proof {
            let post = *self;
            // The reused slot was vacant, so no handle to it was valid, and
            // sanitized children never point at it.
            assert forall|s: int|
                0 <= s < pre.slots@.len() && s != h.slot implies post.slots@[s] == pre.slots@[s] by {}
            assert(post.shape().node_at(h.slot as int).children == cs);
            assert(cs == spec_sanitize(pre.shape(), node.children@));
            // children_wf for the new node: sanitized children are dead or
            // were valid in pre, hence point below the current generations.
            assert forall|s: int, k: int|
                post.shape().occupied(s) && 0 <= k < post.shape().node_at(s).children.len()
                implies {
                    let c = #[trigger] post.shape().node_at(s).children[k];
                    ||| c == spec_dead_handle()
                    ||| (c.slot < post.shape().len() && c.generation <= post.shape().slots[
                        c.slot as int
                    ].generation)
                } by {
                let c = post.shape().node_at(s).children[k];
                if s != h.slot {
                    assert(pre.shape().occupied(s));
                    assert(pre.shape().node_at(s).children[k] == c);
                } else {
                    if pre.shape().valid(cs[k]) {
                        assert(c == cs[k]);
                        assert(c.slot != h.slot);
                    } else {
                        assert(c == spec_dead_handle());
                    }
                }
            }
            // stamps_wf: a child valid after the insertion either is the new
            // node's sanitized child (stamped strictly earlier) or was
            // already a valid child before.
            assert forall|s: int, k: int|
                post.shape().occupied(s) && 0 <= k < post.shape().node_at(s).children.len()
                    && post.shape().valid(#[trigger] post.shape().node_at(s).children[k])
                implies post.shape().stamp(
                    post.shape().node_at(s).children[k].slot as int,
                ) < post.shape().stamp(s) by {
                let c = post.shape().node_at(s).children[k];
                assert(c != spec_dead_handle()) by {
                    if c == spec_dead_handle() {
                        assert(!post.shape().valid(c));
                    }
                }
                if s != h.slot {
                    assert(pre.shape().occupied(s));
                    assert(pre.shape().node_at(s).children[k] == c);
                    // c cannot be a newly revived handle to the reused slot:
                    if c.slot == h.slot {
                        assert(c.generation <= pre.shape().slots[c.slot as int].generation);
                        assert(!post.shape().valid(c));
                    } else {
                        assert(pre.shape().valid(c));
                        assert(pre.shape().stamp(c.slot as int) < pre.shape().stamp(s));
                    }
                } else {
                    // the new node: its valid children were valid in pre
                    assert(pre.shape().valid(cs[k]) && c == cs[k]);
                    assert(c.slot != h.slot);
                    assert(pre.shape().stamp(c.slot as int) < pre.tick);
                }
            }
            // validity is exactly extended by the fresh handle
            assert forall|h0: EntityHandle| #[trigger]
                post.valid(h0) <==> (pre.valid(h0) || h0 == h) by {
                if h0.slot == h.slot {
                    assert(!pre.valid(h0)) by {
                        if h.slot < pre.slots@.len() {
                            assert(pre.slots@[h.slot as int].state is Vacant);
                        }
                    }
                    if post.valid(h0) {
                        assert(h0.generation == h.generation);
                        assert(h0 == h);
                    }
                    if h0 == h {
                        assert(post.valid(h0));
                    }
                }
            }
            assert(post.free_wf()) by {
                let fl = post.free_list@;
                if pre.free_list@.len() > 0 {
                    assert forall|i: int| 0 <= i < fl.len() implies {
                        &&& #[trigger] fl[i] < post.slots@.len()
                        &&& post.slots@[fl[i] as int].state is Vacant
                        &&& post.slots@[fl[i] as int].generation <= u64::MAX - 2
                        &&& post.slots@[fl[i] as int].state->next_free == if i + 1 < fl.len() {
                            fl[i + 1]
                        } else {
                            usize::MAX
                        }
                    } by {
                        assert(fl[i] == pre.free_list@[i + 1]);
                        assert(pre.free_list@[i + 1] != pre.free_list@[0]);
                    }
                }
            }
        }
        h
    }
    /// Detaches and returns the payload of `h`'s node, freeing its slot.
    ///
    /// An invalid handle silently yields `None`, so removing twice is
    /// harmless. The removed node's children are not touched: handles to
    /// them stay usable, but any copy of `h` left in another node's child
    /// list will fail lookups from now on.
    pub fn remove(&mut self, h: EntityHandle) -> (r: Option<W>)
        requires
            old(self).wf(),
        ensures
            final(self).wf(),
            r is Some <==> old(self).valid(h),
            old(self).valid(h) ==> r == Some(old(self).payload_at(h.slot as int)),
            final(self).tick_val() == old(self).tick_val(),
            final(self).shape().len() == old(self).shape().len(),
            forall|h0: EntityHandle|
                #[trigger] final(self).valid(h0) <==> (old(self).valid(h0) && h0 != h),
            forall|s: int|
                0 <= s < old(self).shape().len() && s != h.slot ==> slot_unchanged(
                    *old(self),
                    *final(self),
                    s,
                ),
            old(self).valid(h) ==> {
                &&& !final(self).shape().occupied(h.slot as int)
                &&& final(self).shape().slots[h.slot as int].generation == old(
                    self,
                ).shape().slots[h.slot as int].generation + 1
                &&& final(self).shape().slots[h.slot as int].stamp == old(self).shape().slots[
                    h.slot as int
                ].stamp
            },
            !old(self).valid(h) ==> *final(self) == *old(self),
    {
        if !self.contains(h) {
            return None;
        }
        let ghost pre = *self;
        let s = h.slot;
        let g = self.slots[s].generation;
        // A slot whose generation is close to running out is retired: it is
        // emptied but never goes back on the free list.
        let will_free = g + 1 <= u64::MAX - 2;
        let next = if will_free {
            self.free_head
        } else {
            usize::MAX
        };
        let mut st = SlotState::Vacant { next_free: next };
        core::mem::swap(&mut self.slots[s].state, &mut st);
        self.slots[s].generation = g + 1;
        if will_free {
            self.free_head = s;
            proof {
                self.free_list@ = seq![s].add(pre.free_list@);
            }
        }
        let payload = match st {
            SlotState::Occupied { payload, .. } => payload,
            SlotState::Vacant { .. } => vstd::pervasive::unreached(),
        };
        proof {
            let post = *self;
            assert forall|s2: int|
                0 <= s2 < pre.slots@.len() && s2 != h.slot implies post.slots@[s2]
                == pre.slots@[s2] by {}
            // the free list gained at most the freed slot, which was occupied
            // before and therefore on no list
            assert(post.free_wf()) by {
                let fl = post.free_list@;
                if will_free {
                    assert forall|i: int| 0 <= i < fl.len() implies {
                        &&& #[trigger] fl[i] < post.slots@.len()
                        &&& post.slots@[fl[i] as int].state is Vacant
                        &&& post.slots@[fl[i] as int].generation <= u64::MAX - 2
                        &&& post.slots@[fl[i] as int].state->next_free == if i + 1 < fl.len() {
                            fl[i + 1]
                        } else {
                            usize::MAX
                        }
                    } by {
                        if i > 0 {
                            assert(fl[i] == pre.free_list@[i - 1]);
                            assert(fl[i] != s) by {
                                assert(pre.slots@[pre.free_list@[i - 1] as int].state is Vacant);
                            }
                        }
                    }
                    assert forall|i: int, j: int| 0 <= i < j < fl.len() implies fl[i] != fl[j] by {
                        if i > 0 {
                            assert(fl[i] == pre.free_list@[i - 1]);
                        }
                        assert(fl[j] == pre.free_list@[j - 1]);
                        if i == 0 {
                            assert(pre.slots@[pre.free_list@[j - 1] as int].state is Vacant);
                        }
                    }
                } else {
                    assert forall|i: int| 0 <= i < fl.len() implies {
                        &&& #[trigger] fl[i] < post.slots@.len()
                        &&& post.slots@[fl[i] as int].state is Vacant
                        &&& post.slots@[fl[i] as int].generation <= u64::MAX - 2
                        &&& post.slots@[fl[i] as int].state->next_free == if i + 1 < fl.len() {
                            fl[i + 1]
                        } else {
                            usize::MAX
                        }
                    } by {
                        assert(pre.slots@[fl[i] as int].state is Vacant);
                        assert(fl[i] != s);
                    }
                }
            }
            // children_wf: generations only grew
            assert forall|p: int, k: int|
                post.shape().occupied(p) && 0 <= k < post.shape().node_at(p).children.len()
                implies {
                    let c = #[trigger] post.shape().node_at(p).children[k];
                    ||| c == spec_dead_handle()
                    ||| (c.slot < post.shape().len() && c.generation <= post.shape().slots[
                        c.slot as int
                    ].generation)
                } by {
                assert(p != h.slot);
                assert(pre.shape().occupied(p));
                assert(pre.shape().node_at(p).children[k] == post.shape().node_at(p).children[k]);
            }
            // stamps_wf: validity only shrank and stamps are untouched
            assert forall|p: int, k: int|
                post.shape().occupied(p) && 0 <= k < post.shape().node_at(p).children.len()
                    && post.shape().valid(#[trigger] post.shape().node_at(p).children[k])
                implies post.shape().stamp(
                    post.shape().node_at(p).children[k].slot as int,
                ) < post.shape().stamp(p) by {
                let c = post.shape().node_at(p).children[k];
                assert(p != h.slot);
                assert(pre.shape().occupied(p));
                assert(pre.shape().node_at(p).children[k] == c);
                assert(c.slot != h.slot);
                assert(pre.shape().valid(c));
            }
            assert forall|h0: EntityHandle| #[trigger]
                post.valid(h0) <==> (pre.valid(h0) && h0 != h) by {
                if h0.slot == h.slot {
                    assert(!post.valid(h0));
                    if pre.valid(h0) && h0 != h {
                        assert(h0.generation == g);
                        assert(h0 == h);
                    }
                }
            }
        }
        Some(payload)
    }

    /// Replaces the styling attributes of `h`'s node, leaving its children
    /// and computed geometry as they are.
    pub fn set_params(&mut self, h: EntityHandle, params: LayoutParams) -> (r: Result<
        (),
        StoreError,
    >)
        requires
            old(self).wf(),
        ensures
            final(self).wf(),
            r is Ok <==> old(self).valid(h),
            !old(self).valid(h) ==> *final(self) == *old(self) && r->Err_0
                == StoreError::InvalidHandle,
            final(self).tick_val() == old(self).tick_val(),
            final(self).shape().len() == old(self).shape().len(),
            forall|h0: EntityHandle| #[trigger] final(self).valid(h0) == old(self).valid(h0),
            forall|s: int|
                0 <= s < old(self).shape().len() && s != h.slot ==> slot_unchanged(
                    *old(self),
                    *final(self),
                    s,
                ),
            old(self).valid(h) ==> {
                &&& final(self).shape().node(h).params == params
                &&& final(self).shape().node(h).children == old(self).shape().node(h).children
                &&& final(self).shape().slots[h.slot as int].generation == old(
                    self,
                ).shape().slots[h.slot as int].generation
                &&& final(self).shape().slots[h.slot as int].stamp == old(self).shape().slots[
                    h.slot as int
                ].stamp
                &&& final(self).geom()[h.slot as int] == old(self).geom()[h.slot as int]
                &&& final(self).payload_at(h.slot as int) == old(self).payload_at(h.slot as int)
            },
    {
        if !self.contains(h) {
            return Err(StoreError::InvalidHandle);
        }
        let ghost pre = *self;
        match &mut self.slots[h.slot].state {
            SlotState::Occupied { node, .. } => {
                node.params = params;
            },
            SlotState::Vacant { .. } => {},
        }
        proof {
            let post = *self;
            assert forall|s2: int|
                0 <= s2 < pre.slots@.len() && s2 != h.slot implies post.slots@[s2]
                == pre.slots@[s2] by {}
            assert(post.shape().node(h).children == pre.shape().node(h).children);
            assert forall|p: int, k: int|
                post.shape().occupied(p) && 0 <= k < post.shape().node_at(p).children.len()
                implies {
                    let c = #[trigger] post.shape().node_at(p).children[k];
                    ||| c == spec_dead_handle()
                    ||| (c.slot < post.shape().len() && c.generation <= post.shape().slots[
                        c.slot as int
                    ].generation)
                } by {
                assert(pre.shape().occupied(p));
                assert(pre.shape().node_at(p).children[k] == post.shape().node_at(p).children[k]);
            }
            assert forall|p: int, k: int|
                post.shape().occupied(p) && 0 <= k < post.shape().node_at(p).children.len()
                    && post.shape().valid(#[trigger] post.shape().node_at(p).children[k])
                implies post.shape().stamp(
                    post.shape().node_at(p).children[k].slot as int,
                ) < post.shape().stamp(p) by {
                assert(pre.shape().occupied(p));
                assert(pre.shape().node_at(p).children[k] == post.shape().node_at(p).children[k]);
                assert(pre.shape().valid(post.shape().node_at(p).children[k]));
            }
        }
        Ok(())
    }

    /// Replaces the child list of `h`'s node.
    ///
    /// Stale children are recorded as dead references, as on insertion. A
    /// child that is alive but was inserted after `h`'s node is refused:
    /// links may only point from later nodes to earlier ones, which is what
    /// keeps the stored graph free of cycles. Every construction path in
    /// this crate creates children before linking them, so the refusal is
    /// only ever seen by a caller that links by hand in the wrong order.
    pub fn set_children(&mut self, h: EntityHandle, children: Vec<EntityHandle>) -> (r: Result<
        (),
        StoreError,
    >)
        requires
            old(self).wf(),
        ensures
            final(self).wf(),
            r is Ok <==> (old(self).valid(h) && forall|k: int|
                0 <= k < children@.len() && old(self).valid(#[trigger] children@[k]) ==> old(
                    self,
                ).shape().stamp(children@[k].slot as int) < old(self).shape().stamp(
                    h.slot as int,
                )),
            !(r is Ok) ==> *final(self) == *old(self),
            !(r is Ok) ==> (r->Err_0 == StoreError::InvalidHandle <==> !old(self).valid(h)),
            !(r is Ok) && old(self).valid(h) ==> r->Err_0 == StoreError::ChildNewerThanParent,
            final(self).tick_val() == old(self).tick_val(),
            final(self).shape().len() == old(self).shape().len(),
            forall|h0: EntityHandle| #[trigger] final(self).valid(h0) == old(self).valid(h0),
            forall|s: int|
                0 <= s < old(self).shape().len() && s != h.slot ==> slot_unchanged(
                    *old(self),
                    *final(self),
                    s,
                ),
            r is Ok ==> {
                &&& final(self).shape().node(h).params == old(self).shape().node(h).params
                &&& final(self).shape().node(h).children == spec_sanitize(
                    old(self).shape(),
                    children@,
                )
                &&& final(self).shape().slots[h.slot as int].generation == old(
                    self,
                ).shape().slots[h.slot as int].generation
                &&& final(self).shape().slots[h.slot as int].stamp == old(self).shape().slots[
                    h.slot as int
                ].stamp
                &&& final(self).geom()[h.slot as int] == old(self).geom()[h.slot as int]
                &&& final(self).payload_at(h.slot as int) == old(self).payload_at(h.slot as int)
            },
    {
        if !self.contains(h) {
            return Err(StoreError::InvalidHandle);
        }
        let ghost pre = *self;
        let stamp_h = self.slots[h.slot].stamp;
        let mut clean: Vec<EntityHandle> = Vec::new();
        let mut i: usize = 0;
        while i < children.len()
            invariant
                *self == pre,
                pre.wf(),
                pre.valid(h),
                stamp_h == pre.shape().stamp(h.slot as int),
                i <= children.len(),
                clean@ == spec_sanitize(pre.shape(), children@).take(i as int),
                forall|k: int|
                    0 <= k < i && pre.valid(#[trigger] children@[k]) ==> pre.shape().stamp(
                        children@[k].slot as int,
                    ) < stamp_h,
            decreases children.len() - i,
        {
            let c = children[i];
            if self.contains(c) {
                if self.slots[c.slot].stamp >= stamp_h {
                    return Err(StoreError::ChildNewerThanParent);
                }
                clean.push(c);
            } else {
                clean.push(EntityHandle { slot: usize::MAX, generation: 0 });
            }
            i = i + 1;
            proof {
                assert(clean@ =~= spec_sanitize(pre.shape(), children@).take(i as int));
            }
        }
        proof {
            assert(clean@ =~= spec_sanitize(pre.shape(), children@));
        }
        match &mut self.slots[h.slot].state {
            SlotState::Occupied { node, .. } => {
                node.children = clean;
            },
            SlotState::Vacant { .. } => {},
        }
        proof {
            let post = *self;
            assert forall|s2: int|
                0 <= s2 < pre.slots@.len() && s2 != h.slot implies post.slots@[s2]
                == pre.slots@[s2] by {}
            assert(post.shape().node(h).children == spec_sanitize(pre.shape(), children@));
            assert forall|p: int, k: int|
                post.shape().occupied(p) && 0 <= k < post.shape().node_at(p).children.len()
                implies {
                    let c = #[trigger] post.shape().node_at(p).children[k];
                    ||| c == spec_dead_handle()
                    ||| (c.slot < post.shape().len() && c.generation <= post.shape().slots[
                        c.slot as int
                    ].generation)
                } by {
                let c = post.shape().node_at(p).children[k];
                assert(pre.shape().occupied(p));
                if p != h.slot {
                    assert(pre.shape().node_at(p).children[k] == c);
                } else {
                    if pre.shape().valid(children@[k]) {
                        assert(c == children@[k]);
                    } else {
                        assert(c == spec_dead_handle());
                    }
                }
            }
            assert forall|p: int, k: int|
                post.shape().occupied(p) && 0 <= k < post.shape().node_at(p).children.len()
                    && post.shape().valid(#[trigger] post.shape().node_at(p).children[k])
                implies post.shape().stamp(
                    post.shape().node_at(p).children[k].slot as int,
                ) < post.shape().stamp(p) by {
                let c = post.shape().node_at(p).children[k];
                assert(pre.shape().occupied(p));
                if p != h.slot {
                    assert(pre.shape().node_at(p).children[k] == c);
                    assert(pre.shape().valid(c));
                } else {
                    assert(c != spec_dead_handle()) by {
                        if c == spec_dead_handle() {
                            assert(!post.shape().valid(c));
                        }
                    }
                    assert(pre.shape().valid(children@[k]) && c == children@[k]);
                    assert(pre.shape().stamp(c.slot as int) < stamp_h);
                }
            }
        }
        Ok(())
    }

    /// Appends the handles of the subtree under `h` to `out`: depth first,
    /// parents before children, stale children skipped. An invalid `h`
    /// appends nothing.
    pub fn collect_subtree(&self, h: EntityHandle, out: &mut Vec<EntityHandle>)
        requires
            self.wf(),
        ensures
            final(out)@ == old(out)@ + self.shape().flatten(h),
        decreases self.shape().stamp(h.slot as int),
    {
        if !self.contains(h) {
            proof {
                assert(final(out)@ =~= old(out)@ + self.shape().flatten(h));
            }
            return;
        }
        out.push(h);
        let node = match &self.slots[h.slot].state {
            SlotState::Occupied { node, .. } => node,
            SlotState::Vacant { .. } => vstd::pervasive::unreached(),
        };
        proof {
            assert(node.children@ == self.shape().node(h).children);
        }
        let ghost base = out@;
        let mut i: usize = 0;
        while i < node.children.len()
            invariant
                self.wf(),
                self.valid(h),
                node.children@ == self.shape().node(h).children,
                i <= node.children.len(),
                out@ + self.shape().flatten_kids(h, i as int) == base
                    + self.shape().flatten_kids(h, 0),
            decreases node.children.len() - i,
        {
            let c = node.children[i];
            if self.contains(c) {
                proof {
                    // the child was inserted strictly earlier, so the walk
                    // descends along stamps
                    assert(self.shape().stamp(c.slot as int) < self.shape().stamp(h.slot as int));
                }
                self.collect_subtree(c, out);
            }
            i = i + 1;
            proof {
                assert(out@ + self.shape().flatten_kids(h, i as int) =~= base
                    + self.shape().flatten_kids(h, 0));
            }
        }
        proof {
            assert(out@ =~= old(out)@ + self.shape().flatten(h));
        }
    }

    /// Removes `h`'s node and, recursively, every node reachable from it
    /// through valid child handles. Payloads of the whole subtree are
    /// dropped. An invalid handle removes nothing.
    pub fn despawn(&mut self, h: EntityHandle)
        requires
            old(self).wf(),
        ensures
            final(self).wf(),
            final(self).tick_val() == old(self).tick_val(),
            final(self).shape().len() == old(self).shape().len(),
            forall|h0: EntityHandle|
                #[trigger] final(self).valid(h0) <==> (old(self).valid(h0) && !old(
                    self,
                ).shape().in_subtree(h, h0.slot as int)),
            forall|s: int|
                0 <= s < old(self).shape().len() && !old(self).shape().in_subtree(h, s)
                    ==> slot_unchanged(*old(self), *final(self), s),
    {
        let ghost pre = *self;
        let mut doom: Vec<EntityHandle> = Vec::new();
        self.collect_subtree(h, &mut doom);
        proof {
            pre.shape().lemma_flatten_covers(h);
        }
        let mut i: usize = 0;
        while i < doom.len()
            invariant
                self.wf(),
                pre.wf(),
                self.tick_val() == pre.tick_val(),
                self.shape().len() == pre.shape().len(),
                i <= doom.len(),
                doom@ == pre.shape().flatten(h),
                forall|j: int| 0 <= j < doom@.len() ==> pre.shape().valid(#[trigger] doom@[j]),
                forall|h0: EntityHandle|
                    #[trigger] self.valid(h0) <==> (pre.valid(h0) && !doom@.take(
                        i as int,
                    ).contains(h0)),
                forall|s: int|
                    0 <= s < pre.shape().len() && (forall|j: int|
                        0 <= j < i ==> (#[trigger] doom@[j]).slot != s) ==> slot_unchanged(
                        pre,
                        *self,
                        s,
                    ),
            decreases doom.len() - i,
        {
            let c = doom[i];
            let ghost mid = *self;
            let _ = self.remove(c);
            proof {
                assert forall|h0: EntityHandle|
                    #[trigger] self.valid(h0) <==> (pre.valid(h0) && !doom@.take(
                        i + 1 as int,
                    ).contains(h0)) by {
                    assert(mid.valid(h0) == (pre.valid(h0) && !doom@.take(i as int).contains(h0)));
                    assert(self.valid(h0) == (mid.valid(h0) && h0 != c));
                    assert(doom@.take(i + 1 as int) =~= doom@.take(i as int).push(c));
                    assert(doom@.take(i + 1 as int)[i as int] == c);
                    if doom@.take(i + 1 as int).contains(h0) {
                        let j = choose|j: int|
                            0 <= j < i + 1 && #[trigger] doom@.take(i + 1 as int)[j] == h0;
                        if j < i {
                            assert(doom@.take(i as int)[j] == h0);
                            assert(doom@.take(i as int).contains(h0));
                        }
                    }
                    if doom@.take(i as int).contains(h0) {
                        let j = choose|j: int|
                            0 <= j < i && #[trigger] doom@.take(i as int)[j] == h0;
                        assert(doom@.take(i + 1 as int)[j] == h0);
                        assert(doom@.take(i + 1 as int).contains(h0));
                    }
                }
                assert forall|s: int|
                    0 <= s < pre.shape().len() && (forall|j: int|
                        0 <= j < i + 1 ==> (#[trigger] doom@[j]).slot != s) implies slot_unchanged(
                        pre,
                        *self,
                        s,
                    ) by {
                    assert(doom@[i as int].slot != s);
                    assert(slot_unchanged(pre, mid, s));
                    assert(slot_unchanged(mid, *self, s));
                }
            }
            i = i + 1;
        }
        proof {
            assert(doom@.take(doom@.len() as int) =~= doom@);
            assert forall|h0: EntityHandle|
                #[trigger] self.valid(h0) <==> (pre.valid(h0) && !pre.shape().in_subtree(
                    h,
                    h0.slot as int,
                )) by {
                if pre.valid(h0) {
                    assert(doom@.contains(h0) <==> pre.shape().in_subtree(h, h0.slot as int));
                }
            }
            assert forall|s: int|
                0 <= s < pre.shape().len() && !pre.shape().in_subtree(h, s)
                implies slot_unchanged(pre, *self, s) by {
                assert forall|j: int| 0 <= j < doom@.len() implies (#[trigger] doom@[j]).slot
                    != s by {
                    if doom@[j].slot == s {
                        assert(doom@.contains(doom@[j]));
                        assert(pre.shape().in_subtree(h, doom@[j].slot as int));
                    }
                }
            }
        }
    }

    /// Copies the computed geometry of every slot into a plain vector,
    /// indexed by slot.
    pub(crate) fn extract_geom(&self) -> (g: Vec<GeomNode>)
        ensures
            g@ == self.geom(),
    {
        let mut g: Vec<GeomNode> = Vec::new();
        let mut i: usize = 0;
        while i < self.slots.len()
            invariant
                i <= self.slots@.len(),
                g@ == self.geom().take(i as int),
            decreases self.slots@.len() - i,
        {
            let gn = match &self.slots[i].state {
                SlotState::Occupied { node, .. } => GeomNode {
                    width: node.width,
                    height: node.height,
                    x: node.x,
                    y: node.y,
                },
                SlotState::Vacant { .. } => GeomNode { width: 0, height: 0, x: 0, y: 0 },
            };
            g.push(gn);
            i = i + 1;
            proof {
                assert(g@ =~= self.geom().take(i as int));
            }
        }
        proof {
            assert(g@ =~= self.geom());
        }
        g
    }

    /// Writes geometry back into the occupied slots; entry `i` of `g` is
    /// for slot `i`, entries of vacant slots are ignored.
    pub(crate) fn write_geom(&mut self, g: &Vec<GeomNode>)
        requires
            old(self).wf(),
            g@.len() == old(self).shape().len(),
        ensures
            final(self).wf(),
            final(self).tick_val() == old(self).tick_val(),
            final(self).shape() == old(self).shape(),
            forall|s: int|
                0 <= s < old(self).shape().len() ==> final(self).payload_at(s) == old(
                    self,
                ).payload_at(s),
            forall|h0: EntityHandle| #[trigger] final(self).valid(h0) == old(self).valid(h0),
            final(self).geom() == Seq::new(
                old(self).shape().len(),
                |s: int|
                    if old(self).shape().occupied(s) {
                        g@[s]
                    } else {
                        GeomNode { width: 0, height: 0, x: 0, y: 0 }
                    },
            ),
    {
        let ghost pre = *self;
        let mut i: usize = 0;
        while i < self.slots.len()
            invariant
                g@.len() == pre.slots@.len(),
                self.slots@.len() == pre.slots@.len(),
                self.free_head == pre.free_head,
                self.tick == pre.tick,
                self.free_list@ == pre.free_list@,
                i <= self.slots@.len(),
                forall|s: int|
                    i <= s < pre.slots@.len() ==> #[trigger] self.slots@[s] == pre.slots@[s],
                forall|s: int|
                    0 <= s < i ==> slot_after_write(pre.slots@[s], #[trigger] self.slots@[s], g@[s]),
            decreases self.slots@.len() - i,
        {
            let gn = g[i];
            match &mut self.slots[i].state {
                SlotState::Occupied { node, .. } => {
                    node.width = gn.width;
                    node.height = gn.height;
                    node.x = gn.x;
                    node.y = gn.y;
                },
                SlotState::Vacant { .. } => {},
            }
            proof {
                assert(slot_after_write(pre.slots@[i as int], self.slots@[i as int], g@[i as int]));
            }
            i = i + 1;
        }
        proof {
            let post = *self;
            let target = Seq::new(
                pre.shape().len(),
                |s: int|
                    if pre.shape().occupied(s) {
                        g@[s]
                    } else {
                        GeomNode { width: 0, height: 0, x: 0, y: 0 }
                    },
            );
            assert forall|s: int| 0 <= s < pre.slots@.len() implies post.shape().slots[s]
                == pre.shape().slots[s] && post.geom()[s] == target[s] && post.payload_at(s)
                == pre.payload_at(s) by {
                assert(slot_after_write(pre.slots@[s], post.slots@[s], g@[s]));
            }
            assert(post.shape().slots =~= pre.shape().slots);
            assert(post.shape() == pre.shape());
            assert(post.geom() =~= target);
            assert forall|h0: EntityHandle| #[trigger]
                post.valid(h0) == pre.valid(h0) by {}
            assert(post.wf()) by {
                assert forall|k: int| 0 <= k < post.free_list@.len() implies {
                    &&& #[trigger] post.free_list@[k] < post.slots@.len()
                    &&& post.slots@[post.free_list@[k] as int].state is Vacant
                    &&& post.slots@[post.free_list@[k] as int].generation <= u64::MAX - 2
                    &&& post.slots@[post.free_list@[k] as int].state->next_free == if k + 1
                        < post.free_list@.len() {
                        post.free_list@[k + 1]
                    } else {
                        usize::MAX
                    }
                } by {
                    let f = pre.free_list@[k] as int;
                    assert(pre.slots@[f].state is Vacant);
                    assert(slot_after_write(pre.slots@[f], post.slots@[f], g@[f]));
                }
                assert forall|s: int|
                    0 <= s < post.slots@.len() && post.slots@[s].state is Occupied
                    implies #[trigger] post.slots@[s].generation <= u64::MAX - 1 by {
                    assert(slot_after_write(pre.slots@[s], post.slots@[s], g@[s]));
                }
            }
        }
    }

    /// Reads the node a handle refers to.
    ///
    /// Fails distinctly, never returning another occupant's data: a handle
    /// to a removed node keeps failing even after its slot is reused.
    pub fn get(&self, h: EntityHandle) -> (r: Result<&LayoutNode, StoreError>)
        ensures
            r is Ok <==> self.valid(h),
            r is Ok ==> {
                let n = *r->Ok_0;
                &&& n.params == self.shape().node(h).params
                &&& n.children@ == self.shape().node(h).children
                &&& (GeomNode { width: n.width, height: n.height, x: n.x, y: n.y }) == self.geom()[
                    h.slot as int
                ]
            },
            !(r is Ok) ==> r->Err_0 == StoreError::InvalidHandle,
    {
        if h.slot < self.slots.len() {
            let slot = &self.slots[h.slot];
            if slot.generation == h.generation {
                match &slot.state {
                    SlotState::Occupied { node, .. } => {
                        return Ok(node);
                    },
                    SlotState::Vacant { .. } => {},
                }
            }
        }
        Err(StoreError::InvalidHandle)
    }

    /// Reads the widget payload a handle refers to, with the same failure
    /// behaviour as [`ElementCtx::get`].
    pub fn get_payload(&self, h: EntityHandle) -> (r: Result<&W, StoreError>)
        ensures
            r is Ok <==> self.valid(h),
            r is Ok ==> *r->Ok_0 == self.payload_at(h.slot as int),
            !(r is Ok) ==> r->Err_0 == StoreError::InvalidHandle,
    {
        if h.slot < self.slots.len() {
            let slot = &self.slots[h.slot];
            if slot.generation == h.generation {
                match &slot.state {
                    SlotState::Occupied { payload, .. } => {
                        return Ok(payload);
                    },
                    SlotState::Vacant { .. } => {},
                }
            }
        }
        Err(StoreError::InvalidHandle)
    }
}

impl<W> Default for ElementCtx<W> {
    fn default() -> (r: Self)
        ensures
            r.wf(),
            r.shape().len() == 0,
            r.tick_val() == 0,
    {
        ElementCtx::new()
    }
}

} // verus!
