//! The layout entry point and its error type.
//!
//! [`crate::store::ElementCtx::calculate_layout`] runs the three passes in
//! order — intrinsic sizing ([`crate::fit`]), growth distribution
//! ([`crate::grow`]) and position assignment ([`crate::position`]) — over a
//! snapshot of the store's geometry, and commits the result only when every
//! reachable node resolved.

use vstd::prelude::*;

use crate::fit::spec_fit;
use crate::grow::spec_grow;
use crate::model::GeomNode;
use crate::position::spec_position;
use crate::store::{ElementCtx, EntityHandle};

verus! {

/// Why a layout run failed.
///
/// Geometry is computed for a whole tree or not at all: a dangling child
/// reference is a construction bug, so the run reports it instead of
/// skipping the node and rendering half-computed geometry.
#[derive(Clone, Copy, Debug, PartialEq, Eq, Structural)]
pub enum LayoutError {
    /// A handle encountered during the walk — the root or a recorded child
    /// — no longer refers to a stored node.
    InvalidHandle(EntityHandle),
}

/// Geometry after the three passes: intrinsic sizes, then growth, then
/// positions.
pub open spec fn spec_layout(
    sh: crate::model::Shape,
    g: Seq<GeomNode>,
    h: EntityHandle,
) -> Seq<GeomNode> {
    spec_position(sh, spec_grow(sh, spec_fit(sh, g, h), h), h)
}

impl<W> ElementCtx<W> {
    /// Computes the size and position of every node reachable from `root`
    /// and stores them in the nodes, leaving everything else — structure,
    /// attributes, payloads, the root's own position — untouched.
    ///
    /// The run succeeds exactly when the whole tree under `root` can be
    /// walked; on failure the store is left as it was, geometry included.
    pub fn calculate_layout(&mut self, root: EntityHandle) -> (r: Result<(), LayoutError>)
        requires
            old(self).wf(),
        ensures
            final(self).wf(),
            final(self).shape() == old(self).shape(),
            final(self).tick_val() == old(self).tick_val(),
            forall|s: int|
                0 <= s < old(self).shape().len() ==> final(self).payload_at(s) == old(
                    self,
                ).payload_at(s),
            forall|h0: EntityHandle| #[trigger] final(self).valid(h0) == old(self).valid(h0),
            r is Ok <==> old(self).shape().subtree_ok(root),
            r is Ok ==> final(self).geom() == spec_layout(
                old(self).shape(),
                old(self).geom(),
                root,
            ),
            r is Err ==> *final(self) == *old(self),
    {
        proof {
            old(self).lemma_wf_model();
        }
        let mut g = self.extract_geom();
        let r1 = self.fit_pass(&mut g, root);
        match r1 {
            Err(e) => {
                return Err(e);
            },
            Ok(()) => {},
        }
        let r2 = self.grow_pass(&mut g, root);
        match r2 {
            Err(e) => {
                return Err(e);
            },
            Ok(()) => {},
        }
        let r3 = self.position_pass(&mut g, root);
        match r3 {
            Err(e) => {
                return Err(e);
            },
            Ok(()) => {},
        }
        self.write_geom(&g);
        proof {
            let sh = old(self).shape();
            let g_in = old(self).geom();
            old(self).lemma_wf_model();
            let target = spec_layout(sh, g_in, root);
            crate::fit::lemma_fit_frame(sh, g_in, root);
            let gf = spec_fit(sh, g_in, root);
            crate::grow::lemma_grow_frame(sh, gf, root);
            let gg = spec_grow(sh, gf, root);
            crate::position::lemma_position_frame(sh, gg, root);
            assert(g@ == target);
            assert forall|s: int|
                0 <= s < sh.len() && !sh.occupied(s) implies target[s] == (GeomNode {
                width: 0,
                height: 0,
                x: 0,
                y: 0,
            }) by {
                assert(!sh.in_subtree(root, s)) by {
                    if sh.in_subtree(root, s) {
                        crate::model::Shape::lemma_in_subtree_occupied(sh, root, s);
                    }
                }
                assert(gf[s] == g_in[s]);
                assert(gg[s] == gf[s]);
                assert(target[s] == gg[s]);
            }
            assert(self.geom() =~= target);
        }
        Ok(())
    }
}

} // verus!
