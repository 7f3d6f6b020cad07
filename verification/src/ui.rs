//! Tree construction: builder descriptions and the materializer that turns
//! them into store entries.
//!
//! A [`NodeDesc`] describes a node that is not stored yet: attributes, a
//! widget payload, and children that are either further descriptions or
//! handles of nodes inserted earlier. Materializing walks the description
//! bottom-up and performs exactly one store insertion per described node,
//! so building a tree of `N` descriptions costs `N` insertions.

use vstd::prelude::*;

use crate::params::{Direction, Justify, LayoutParams, Padding, ParamPatch, Size};
use crate::store::{spec_dead_handle, ElementCtx, EntityHandle, LayoutNode};

verus! {

/// A child of a description: either a nested description, or a node that
/// already lives in the store.
pub enum Kid<W> {
    Desc(NodeDesc<W>),
    Existing(EntityHandle),
}

/// A not-yet-stored node: what to insert, and in which order.
pub struct NodeDesc<W> {
    pub params: LayoutParams,
    pub payload: W,
    pub children: Vec<Kid<W>>,
}

/// How many store insertions materializing `d` performs: one per nested
/// description, none for already-existing handles.
pub open spec fn spec_desc_count<W>(d: NodeDesc<W>) -> nat
    decreases d,
{
    1 + spec_kids_count_from(d.children@, 0)
}

/// The insertions owed by the children of a description from index `i` on.
pub open spec fn spec_kids_count_from<W>(ks: Seq<Kid<W>>, i: int) -> nat
    decreases ks, ks.len() - i,
{
    if i < 0 || i >= ks.len() {
        0
    } else {
        (match ks[i] {
            Kid::Desc(d) => spec_desc_count(d),
            Kid::Existing(_) => 0,
        }) + spec_kids_count_from(ks, i + 1)
    }
}

/// Later suffixes of a child list owe no more insertions than earlier
/// ones.
proof fn lemma_kids_count_prefix<W>(ks: Seq<Kid<W>>, j: int, i: int)
    requires
        0 <= j <= i,
    ensures
        spec_kids_count_from(ks, j) >= spec_kids_count_from(ks, i),
    decreases i - j,
{
    if j < i {
        lemma_kids_count_prefix(ks, j + 1, i);
    }
}

/// The store holds exactly what `d` described at `h`: the attributes
/// match, and each child is the materialization of its description or the
/// pre-existing handle it named (recorded as dead if it was already
/// stale).
pub open spec fn spec_materialized<W>(sh: crate::model::Shape, h: EntityHandle, d: NodeDesc<W>) -> bool
    decreases d,
{
    &&& sh.valid(h)
    &&& sh.node(h).params == d.params
    &&& sh.node(h).children.len() == d.children@.len()
    &&& forall|k: int|
        0 <= k < d.children@.len() ==> (match #[trigger] d.children@[k] {
            Kid::Desc(dd) => spec_materialized(sh, sh.node(h).children[k], dd),
            Kid::Existing(e) => sh.node(h).children[k] == e || sh.node(h).children[k]
                == spec_dead_handle(),
        })
}

/// Materialization only speaks of slots that are occupied, so it survives
/// any store change that leaves the occupied slots as they are.
proof fn lemma_materialized_frame<W>(
    sh1: crate::model::Shape,
    sh2: crate::model::Shape,
    h: EntityHandle,
    d: NodeDesc<W>,
)
    requires
        spec_materialized(sh1, h, d),
        sh1.len() <= sh2.len(),
        forall|s: int| 0 <= s < sh1.len() && sh1.occupied(s) ==> sh2.slots[s] == sh1.slots[s],
    ensures
        spec_materialized(sh2, h, d),
    decreases d,
{
    assert(sh2.slots[h.slot as int] == sh1.slots[h.slot as int]);
    assert forall|k: int|
        0 <= k < d.children@.len() implies (match #[trigger] d.children@[k] {
            Kid::Desc(dd) => spec_materialized(sh2, sh2.node(h).children[k], dd),
            Kid::Existing(e) => sh2.node(h).children[k] == e || sh2.node(h).children[k]
                == spec_dead_handle(),
        }) by {
        match d.children@[k] {
            Kid::Desc(dd) => {
                lemma_materialized_frame(sh1, sh2, sh1.node(h).children[k], dd);
            },
            Kid::Existing(_) => {},
        }
    }
}

impl<W> NodeDesc<W> {
    /// A description with default attributes, no children, and the given
    /// payload.
    pub fn new(payload: W) -> (r: NodeDesc<W>)
        ensures
            r.params == crate::params::spec_default_params(),
            r.children@.len() == 0,
            r.payload == payload,
    {
        NodeDesc { params: LayoutParams::default(), payload, children: Vec::new() }
    }

    /// Sets the width policy.
    pub fn width(self, s: Size) -> (r: Self)
        ensures
            r.params == (LayoutParams { width: s, ..self.params }),
            r.children@ == self.children@,
            r.payload == self.payload,
    {
        NodeDesc { params: LayoutParams { width: s, ..self.params }, ..self }
    }

    /// Sets the height policy.
    pub fn height(self, s: Size) -> (r: Self)
        ensures
            r.params == (LayoutParams { height: s, ..self.params }),
            r.children@ == self.children@,
            r.payload == self.payload,
    {
        NodeDesc { params: LayoutParams { height: s, ..self.params }, ..self }
    }

    /// Sets the layout direction for the children.
    pub fn direction(self, d: Direction) -> (r: Self)
        ensures
            r.params == (LayoutParams { direction: d, ..self.params }),
            r.children@ == self.children@,
            r.payload == self.payload,
    {
        NodeDesc { params: LayoutParams { direction: d, ..self.params }, ..self }
    }

    /// Sets the padding.
    pub fn padding(self, p: Padding) -> (r: Self)
        ensures
            r.params == (LayoutParams { padding: p, ..self.params }),
            r.children@ == self.children@,
            r.payload == self.payload,
    {
        NodeDesc { params: LayoutParams { padding: p, ..self.params }, ..self }
    }

    /// Sets the spacing between consecutive children.
    pub fn gap(self, gap: u16) -> (r: Self)
        ensures
            r.params == (LayoutParams { gap, ..self.params }),
            r.children@ == self.children@,
            r.payload == self.payload,
    {
        NodeDesc { params: LayoutParams { gap, ..self.params }, ..self }
    }

    /// Sets the main-axis justification.
    pub fn main_justify(self, j: Justify) -> (r: Self)
        ensures
            r.params == (LayoutParams { main_justify: j, ..self.params }),
            r.children@ == self.children@,
            r.payload == self.payload,
    {
        NodeDesc { params: LayoutParams { main_justify: j, ..self.params }, ..self }
    }

    /// Replaces the whole attribute record at once.
    pub fn layout_params(self, params: LayoutParams) -> (r: Self)
        ensures
            r.params == params,
            r.children@ == self.children@,
            r.payload == self.payload,
    {
        NodeDesc { params, ..self }
    }

    /// Applies one attribute, such as [`crate::params::Width`] or a
    /// [`Padding`].
    pub fn with<P: ParamPatch>(self, patch: P) -> (r: Self)
        ensures
            r.params == patch.apply_spec(self.params),
            r.children@ == self.children@,
            r.payload == self.payload,
    {
        let params = patch.apply(self.params);
        NodeDesc { params, ..self }
    }

    /// Appends a nested description as the next child.
    pub fn child(self, kid: NodeDesc<W>) -> (r: Self)
        ensures
            r.params == self.params,
            r.payload == self.payload,
            r.children@ == self.children@.push(Kid::Desc(kid)),
    {
        let mut children = self.children;
        children.push(Kid::Desc(kid));
        NodeDesc { children, ..self }
    }

    /// Appends an already-stored node as the next child.
    pub fn child_handle(self, h: EntityHandle) -> (r: Self)
        ensures
            r.params == self.params,
            r.payload == self.payload,
            r.children@ == self.children@.push(Kid::Existing(h)),
    {
        let mut children = self.children;
        children.push(Kid::Existing(h));
        NodeDesc { children, ..self }
    }

    /// Materializes the description into `ctx`; shorthand for
    /// [`ElementCtx::spawn_ui`] that reads well at the end of a builder
    /// chain.
    pub fn create(self, ctx: &mut ElementCtx<W>) -> (h: EntityHandle)
        requires
            old(ctx).wf(),
            old(ctx).tick_val() + spec_desc_count(self) <= usize::MAX as u64,
        ensures
            final(ctx).wf(),
            final(ctx).valid(h),
            final(ctx).tick_val() == old(ctx).tick_val() + spec_desc_count(self),
            spec_materialized(final(ctx).shape(), h, self),
            forall|h0: EntityHandle|
                old(ctx).valid(h0) ==> #[trigger] final(ctx).valid(h0),
            forall|s: int|
                0 <= s < old(ctx).shape().len() && old(ctx).shape().occupied(s)
                    ==> crate::store::slot_unchanged(*old(ctx), *final(ctx), s),
    {
        ctx.spawn_ui(self)
    }
}

/// A marker implemented by every builder in this crate; extension traits
/// can hang additional methods off it.
pub trait ElementalBuilder {

}

impl<W> ElementalBuilder for NodeDesc<W> {

}

impl<W> ElementCtx<W> {
    /// Materializes a description tree: inserts every nested description,
    /// children before parents, and returns the handle of the root.
    ///
    /// Exactly [`spec_desc_count`] insertions are performed — shared
    /// subtrees are referenced by handle and never inserted twice — and
    /// nothing already stored is touched.
    pub fn spawn_ui(&mut self, desc: NodeDesc<W>) -> (h: EntityHandle)
        requires
            old(self).wf(),
            old(self).tick_val() + spec_desc_count(desc) <= usize::MAX as u64,
        ensures
            final(self).wf(),
            final(self).valid(h),
            final(self).tick_val() == old(self).tick_val() + spec_desc_count(desc),
            old(self).shape().len() <= final(self).shape().len(),
            spec_materialized(final(self).shape(), h, desc),
            forall|h0: EntityHandle|
                old(self).valid(h0) ==> #[trigger] final(self).valid(h0),
            forall|s: int|
                0 <= s < old(self).shape().len() && old(self).shape().occupied(s)
                    ==> crate::store::slot_unchanged(*old(self), *final(self), s),
        decreases desc,
    {
        let ghost desc0 = desc;
        let NodeDesc { params, payload, children } = desc;
        let ghost kids = children@;
        let ghost pre = *self;
        let mut rest = children;
        let n0 = rest.len();
        let mut handles: Vec<EntityHandle> = Vec::new();
        let mut i: usize = 0;
        while rest.len() > 0
            invariant
                self.wf(),
                pre.wf(),
                kids.len() <= usize::MAX,
                kids == desc0.children@,
                desc0 == desc,
                spec_desc_count(desc) == 1 + spec_kids_count_from(kids, 0),
                i + rest@.len() == kids.len(),
                rest@ == kids.subrange(i as int, kids.len() as int),
                handles@.len() == i,
                self.tick_val() == pre.tick_val() + spec_kids_count_from(kids, 0)
                    - spec_kids_count_from(kids, i as int),
                pre.tick_val() + spec_kids_count_from(kids, 0) + 1 <= usize::MAX as u64,
                pre.shape().len() <= self.shape().len(),
                forall|h0: EntityHandle| pre.valid(h0) ==> #[trigger] self.valid(h0),
                forall|s: int|
                    0 <= s < pre.shape().len() && pre.shape().occupied(s)
                        ==> crate::store::slot_unchanged(pre, *self, s),
                forall|k: int|
                    0 <= k < i ==> (match #[trigger] kids[k] {
                        Kid::Desc(dd) => spec_materialized(self.shape(), handles@[k], dd),
                        Kid::Existing(e) => handles@[k] == e,
                    }),
            decreases rest@.len(),
        {
            let kid = rest.remove(0);
            let ghost mid = *self;
            proof {
                assert(kids[i as int] == kid);
                assert(spec_kids_count_from(kids, i as int) == (match kids[i as int] {
                    Kid::Desc(d) => spec_desc_count(d),
                    Kid::Existing(_) => 0,
                }) + spec_kids_count_from(kids, i + 1));
            }
            match kid {
                Kid::Desc(dd) => {
                    proof {
                        assert(kids[i as int] == Kid::Desc(dd));
                        assert(spec_kids_count_from(kids, i as int) >= spec_desc_count(dd));
                        lemma_kids_count_prefix(kids, 0, i as int);
                        assert(spec_desc_count(dd) < spec_desc_count(desc0));
                    }
                    let ch = self.spawn_ui(dd);
                    handles.push(ch);
                    proof {
                        assert forall|s: int|
                            0 <= s < pre.shape().len() && pre.shape().occupied(s) implies
                            crate::store::slot_unchanged(pre, *self, s) by {
                            assert(crate::store::slot_unchanged(pre, mid, s));
                            assert(mid.shape().occupied(s));
                            assert(crate::store::slot_unchanged(mid, *self, s));
                        }
                        assert forall|k: int|
                            0 <= k < i + 1 implies (match #[trigger] kids[k] {
                                Kid::Desc(d2) => spec_materialized(self.shape(), handles@[k], d2),
                                Kid::Existing(e) => handles@[k] == e,
                            }) by {
                            if k < i {
                                match kids[k] {
                                    Kid::Desc(d2) => {
                                        lemma_materialized_frame(
                                            mid.shape(),
                                            self.shape(),
                                            handles@[k],
                                            d2,
                                        );
                                    },
                                    Kid::Existing(_) => {},
                                }
                            }
                        }
                    }
                },
                Kid::Existing(e) => {
                    handles.push(e);
                },
            }
            i = i + 1;
            proof {
                assert(rest@ =~= kids.subrange(i as int, kids.len() as int));
            }
        }
        proof {
            assert(i == kids.len());
            assert(spec_kids_count_from(kids, i as int) == 0);
        }
        let ghost before_root = *self;
        let node = LayoutNode::new(params, handles);
        let h = self.insert(node, payload);
        proof {
            assert forall|s: int|
                0 <= s < pre.shape().len() && pre.shape().occupied(s) implies
                crate::store::slot_unchanged(pre, *self, s) by {
                assert(crate::store::slot_unchanged(pre, before_root, s));
                assert(before_root.shape().occupied(s));
                assert(s != h.slot);
                assert(crate::store::slot_unchanged(before_root, *self, s));
            }
            assert forall|s: int|
                0 <= s < before_root.shape().len() && before_root.shape().occupied(s) implies
                self.shape().slots[s] == before_root.shape().slots[s] by {
                assert(s != h.slot);
                assert(crate::store::slot_unchanged(before_root, *self, s));
            }
            // every child handle that a nested description produced is
            // still valid here, so sanitizing keeps it word for word
            assert(final(self).shape().node(h).children == crate::store::spec_sanitize(
                before_root.shape(),
                node.children@,
            ));
            assert forall|k: int|
                0 <= k < kids.len() implies (match #[trigger] kids[k] {
                Kid::Desc(dd) => spec_materialized(
                    self.shape(),
                    self.shape().node(h).children[k],
                    dd,
                ),
                Kid::Existing(e) => self.shape().node(h).children[k] == e || self.shape().node(
                    h,
                ).children[k] == spec_dead_handle(),
            }) by {
                match kids[k] {
                    Kid::Desc(dd) => {
                        assert(spec_materialized(before_root.shape(), node.children@[k], dd));
                        assert(before_root.valid(node.children@[k]));
                        assert(self.shape().node(h).children[k] == node.children@[k]);
                        lemma_materialized_frame(
                            before_root.shape(),
                            self.shape(),
                            node.children@[k],
                            dd,
                        );
                    },
                    Kid::Existing(e) => {
                        if before_root.valid(node.children@[k]) {
                            assert(self.shape().node(h).children[k] == node.children@[k]);
                        } else {
                            assert(self.shape().node(h).children[k] == spec_dead_handle());
                        }
                    },
                }
            }
            assert(spec_desc_count(desc) == 1 + spec_kids_count_from(kids, 0));
        }
        h
    }
}

} // verus!
