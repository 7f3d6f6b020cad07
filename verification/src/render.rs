//! The render walk: turns computed geometry into an ordered list of draw
//! calls, clipping every node against its ancestors.
//!
//! The walk itself paints nothing — it resolves which rectangle each
//! node's widget payload may touch, parents before children, and a backend
//! then plays the list back against its buffer. Unlike layout, rendering
//! runs every frame and must not fall over a bad subtree: a handle that no
//! longer resolves is treated as empty and skipped, subtree included.

use vstd::prelude::*;

use crate::model::{GeomNode, Shape};
use crate::store::{ElementCtx, EntityHandle};

verus! {

/// An axis-aligned rectangle of character cells.
#[derive(Clone, Copy, Debug, PartialEq, Eq, Structural)]
pub struct Rect {
    pub x: u16,
    pub y: u16,
    pub width: u16,
    pub height: u16,
}

/// The overlap of two rectangles; empty overlaps collapse to a zero-sized
/// rectangle at the clamped position.
pub open spec fn spec_intersect(a: Rect, b: Rect) -> Rect {
    let x1 = if a.x >= b.x {
        a.x
    } else {
        b.x
    };
    let y1 = if a.y >= b.y {
        a.y
    } else {
        b.y
    };
    let ax2 = crate::axis::sat16(a.x + a.width);
    let bx2 = crate::axis::sat16(b.x + b.width);
    let ay2 = crate::axis::sat16(a.y + a.height);
    let by2 = crate::axis::sat16(b.y + b.height);
    let x2 = if ax2 <= bx2 {
        ax2
    } else {
        bx2
    };
    let y2 = if ay2 <= by2 {
        ay2
    } else {
        by2
    };
    Rect {
        x: x1,
        y: y1,
        width: crate::axis::sat16(x2 - x1),
        height: crate::axis::sat16(y2 - y1),
    }
}

impl Rect {
    pub fn new(x: u16, y: u16, width: u16, height: u16) -> (r: Rect)
        ensures
            r == (Rect { x, y, width, height }),
    {
        Rect { x, y, width, height }
    }

    /// Whether the rectangle covers no cells.
    pub fn is_empty(&self) -> (r: bool)
        ensures
            r == (self.width == 0 || self.height == 0),
    {
        self.width == 0 || self.height == 0
    }

    /// The largest rectangle covered by both `self` and `other`.
    pub fn intersection(self, other: Rect) -> (r: Rect)
        ensures
            r == spec_intersect(self, other),
            r.x + r.width <= self.x + self.width || r.width == 0,
            r.x + r.width <= other.x + other.width || r.width == 0,
            r.y + r.height <= self.y + self.height || r.height == 0,
            r.y + r.height <= other.y + other.height || r.height == 0,
            r.x >= self.x && r.x >= other.x && r.y >= self.y && r.y >= other.y,
    {
        let x1 = if self.x >= other.x {
            self.x
        } else {
            other.x
        };
        let y1 = if self.y >= other.y {
            self.y
        } else {
            other.y
        };
        let ax2 = crate::axis::sat_add(self.x, self.width);
        let bx2 = crate::axis::sat_add(other.x, other.width);
        let ay2 = crate::axis::sat_add(self.y, self.height);
        let by2 = crate::axis::sat_add(other.y, other.height);
        let x2 = if ax2 <= bx2 {
            ax2
        } else {
            bx2
        };
        let y2 = if ay2 <= by2 {
            ay2
        } else {
            by2
        };
        Rect {
            x: x1,
            y: y1,
            width: crate::axis::sat_sub(x2, x1),
            height: crate::axis::sat_sub(y2, y1),
        }
    }
}

/// One step of the render walk: draw this node's payload into this
/// rectangle. Commands are emitted parents first, so playing the list in
/// order paints children over their ancestors.
#[derive(Clone, Copy, Debug, PartialEq, Eq, Structural)]
pub struct DrawCmd {
    /// The node whose payload is to be painted.
    pub target: EntityHandle,
    /// The rectangle the payload may touch: the node's computed rectangle
    /// clipped by every ancestor and the caller's clip rectangle.
    pub area: Rect,
}

/// The computed rectangle of slot `s`.
pub open spec fn spec_node_rect(g: Seq<GeomNode>, s: int) -> Rect {
    Rect { x: g[s].x, y: g[s].y, width: g[s].width, height: g[s].height }
}

/// The draw calls for the subtree under `h`, clipped to `clip`: the node
/// itself, then each child's subtree clipped to this node's visible
/// rectangle. An invalid handle yields nothing.
pub open spec fn spec_render(sh: Shape, g: Seq<GeomNode>, h: EntityHandle, clip: Rect) -> Seq<
    DrawCmd,
>
    decreases sh.stamp(h.slot as int), 1nat, 0nat
        when sh.stamps_wf()
{
    if !sh.valid(h) {
        Seq::empty()
    } else {
        let area = spec_intersect(clip, spec_node_rect(g, h.slot as int));
        seq![DrawCmd { target: h, area }] + spec_render_kids(sh, g, h, area, 0)
    }
}

/// The concatenated [`spec_render`] of `h`'s children from index `i` on.
pub open spec fn spec_render_kids(
    sh: Shape,
    g: Seq<GeomNode>,
    h: EntityHandle,
    clip: Rect,
    i: int,
) -> Seq<DrawCmd>
    decreases sh.stamp(h.slot as int), 0nat, sh.node(h).children.len() - i
        when sh.stamps_wf() && sh.valid(h) && 0 <= i
{
    let cs = sh.node(h).children;
    if i >= cs.len() {
        Seq::empty()
    } else {
        let c = cs[i];
        (if sh.valid(c) {
            spec_render(sh, g, c, clip)
        } else {
            Seq::empty()
        }) + spec_render_kids(sh, g, h, clip, i + 1)
    }
}

impl<W> ElementCtx<W> {
    /// Appends the draw calls for the subtree under `h`, clipped to `clip`,
    /// onto `out`.
    fn render_into(&self, h: EntityHandle, clip: Rect, out: &mut Vec<DrawCmd>)
        requires
            self.wf(),
        ensures
            final(out)@ == old(out)@ + spec_render(self.shape(), self.geom(), h, clip),
        decreases self.shape().stamp(h.slot as int),
    {
        let ghost sh = self.shape();
        proof {
            self.lemma_wf_model();
        }
        if !self.contains(h) {
            proof {
                assert(final(out)@ =~= old(out)@ + spec_render(sh, self.geom(), h, clip));
            }
            return;
        }
        let node = match self.get(h) {
            Ok(n) => n,
            Err(_) => vstd::pervasive::unreached(),
        };
        let own = Rect { x: node.x, y: node.y, width: node.width, height: node.height };
        proof {
            assert(own == spec_node_rect(self.geom(), h.slot as int));
        }
        let area = clip.intersection(own);
        proof {
            assert(area == spec_intersect(clip, spec_node_rect(self.geom(), h.slot as int)));
        }
        out.push(DrawCmd { target: h, area });
        let ghost base = out@;
        let mut i: usize = 0;
        while i < node.children.len()
            invariant
                self.wf(),
                sh == self.shape(),
                sh.stamps_wf(),
                sh.valid(h),
                node.children@ == sh.node(h).children,
                i <= node.children@.len(),
                out@ + spec_render_kids(sh, self.geom(), h, area, i as int) == base
                    + spec_render_kids(sh, self.geom(), h, area, 0),
            decreases node.children@.len() - i,
        {
            let c = node.children[i];
            if self.contains(c) {
                proof {
                    assert(sh.node_at(h.slot as int).children[i as int] == c);
                    assert(sh.stamp(c.slot as int) < sh.stamp(h.slot as int));
                }
                self.render_into(c, area, out);
            }
            i = i + 1;
            proof {
                assert(out@ + spec_render_kids(sh, self.geom(), h, area, i as int) =~= base
                    + spec_render_kids(sh, self.geom(), h, area, 0));
            }
        }
        proof {
            assert(out@ =~= old(out)@ + spec_render(sh, self.geom(), h, clip));
        }
    }

    /// The draw calls for the tree under `root`, every rectangle clipped
    /// against all its ancestors and against `clip`.
    ///
    /// Rendering is lenient where layout is strict: a node whose handle no
    /// longer resolves contributes nothing, and the rest of the frame still
    /// paints.
    pub fn render(&self, root: EntityHandle, clip: Rect) -> (r: Vec<DrawCmd>)
        requires
            self.wf(),
        ensures
            r@ == spec_render(self.shape(), self.geom(), root, clip),
    {
        let mut out: Vec<DrawCmd> = Vec::new();
        self.render_into(root, clip, &mut out);
        out
    }
}

} // verus!
