//! Intrinsic ("fit") sizing: the first, post-order layout pass.
//!
//! Each node first takes any `Fixed` lengths, children are sized
//! recursively, oversized `Fixed` children inside a `Fixed` parent are
//! clamped to the parent's inner size, and the children's extents — summed
//! along the main axis, maximised across it, plus padding and gaps — become
//! the size of `Fit` and `Grow` nodes.

use vstd::prelude::*;

use crate::axis::{
    gap_total, sat16, sat_add, sat_sub, spec_axify, spec_gap_total, spec_pad_cross, spec_pad_main,
    spec_unaxify, AxisSizes,
};
use crate::layout::LayoutError;
use crate::model::{GeomNode, Shape};
use crate::params::{LayoutParams, Size, spec_fixed_len};
use crate::store::{ElementCtx, EntityHandle};

verus! {

/// A node's geometry after its `Fixed` policies are applied.
pub open spec fn spec_fit_fixed(g: Seq<GeomNode>, s: int, p: LayoutParams) -> Seq<GeomNode> {
    let gn = g[s];
    let w = if p.width is Fixed {
        spec_fixed_len(p.width)
    } else {
        gn.width
    };
    let h = if p.height is Fixed {
        spec_fixed_len(p.height)
    } else {
        gn.height
    };
    g.update(s, GeomNode { width: w, height: h, x: gn.x, y: gn.y })
}

/// Walks the children of `h` from index `i` on, clamping each already-sized
/// child and accumulating the space the children use: main-axis sizes add
/// up, cross-axis sizes take the maximum. Returns the updated geometry and
/// the accumulated extent.
pub open spec fn spec_fit_gather(
    sh: Shape,
    g: Seq<GeomNode>,
    h: EntityHandle,
    inner_w: u16,
    inner_h: u16,
    i: int,
    acc: AxisSizes,
) -> (Seq<GeomNode>, AxisSizes)
    decreases sh.node(h).children.len() - i,
{
    let cs = sh.node(h).children;
    if i < 0 || i >= cs.len() {
        (g, acc)
    } else {
        let c = cs[i];
        if !sh.valid(c) {
            spec_fit_gather(sh, g, h, inner_w, inner_h, i + 1, acc)
        } else {
            let p = sh.node(h).params;
            let cp = sh.node(c).params;
            let gn = g[c.slot as int];
            let w = if p.width is Fixed && cp.width is Fixed && gn.width > inner_w {
                inner_w
            } else {
                gn.width
            };
            let hh = if p.height is Fixed && cp.height is Fixed && gn.height > inner_h {
                inner_h
            } else {
                gn.height
            };
            let g1 = g.update(c.slot as int, GeomNode { width: w, height: hh, x: gn.x, y: gn.y });
            let a = spec_axify(p.direction, w, hh);
            let acc1 = AxisSizes {
                main_axis: sat16(acc.main_axis + a.main_axis),
                cross_axis: if acc.cross_axis >= a.cross_axis {
                    acc.cross_axis
                } else {
                    a.cross_axis
                },
            };
            spec_fit_gather(sh, g1, h, inner_w, inner_h, i + 1, acc1)
        }
    }
}

/// The per-node tail of the fit pass, run after the children are sized:
/// clamps the children, adds padding and gaps to their accumulated extent,
/// and gives that extent to the node's own `Fit` and `Grow` axes.
pub open spec fn spec_fit_finish(sh: Shape, g: Seq<GeomNode>, h: EntityHandle) -> Seq<GeomNode> {
    let s = h.slot as int;
    let p = sh.node(h).params;
    let inner_w = sat16(g[s].width - (p.padding.left + p.padding.right));
    let inner_h = sat16(g[s].height - (p.padding.top + p.padding.bottom));
    let zero = AxisSizes { main_axis: 0, cross_axis: 0 };
    let pair = spec_fit_gather(sh, g, h, inner_w, inner_h, 0, zero);
    let g1 = pair.0;
    let used = pair.1;
    let padded = AxisSizes {
        main_axis: sat16(used.main_axis + spec_pad_main(p.direction, p.padding)),
        cross_axis: sat16(used.cross_axis + spec_pad_cross(p.direction, p.padding)),
    };
    let full = AxisSizes {
        main_axis: sat16(padded.main_axis + spec_gap_total(p.gap, sh.node(h).children.len())),
        cross_axis: padded.cross_axis,
    };
    let dims = spec_unaxify(p.direction, full);
    let gn = g1[s];
    let w = if p.width is Fixed {
        gn.width
    } else {
        dims.0
    };
    let hh = if p.height is Fixed {
        gn.height
    } else {
        dims.1
    };
    g1.update(s, GeomNode { width: w, height: hh, x: gn.x, y: gn.y })
}

/// Geometry after the whole fit pass under `h`: own fixed axes, children
/// recursively, then the per-node tail. An invalid handle changes nothing.
pub open spec fn spec_fit(sh: Shape, g: Seq<GeomNode>, h: EntityHandle) -> Seq<GeomNode>
    decreases sh.stamp(h.slot as int), 1nat, 0nat
        when sh.stamps_wf()
{
    if !sh.valid(h) {
        g
    } else {
        let g1 = spec_fit_fixed(g, h.slot as int, sh.node(h).params);
        let g2 = spec_fit_kids(sh, g1, h, 0);
        spec_fit_finish(sh, g2, h)
    }
}

/// [`spec_fit`] folded over the children of `h` from index `i` on.
pub open spec fn spec_fit_kids(sh: Shape, g: Seq<GeomNode>, h: EntityHandle, i: int) -> Seq<
    GeomNode,
>
    decreases sh.stamp(h.slot as int), 0nat, sh.node(h).children.len() - i
        when sh.stamps_wf() && sh.valid(h) && 0 <= i
{
    let cs = sh.node(h).children;
    if i >= cs.len() {
        g
    } else {
        let c = cs[i];
        let g1 = if sh.valid(c) {
            spec_fit(sh, g, c)
        } else {
            g
        };
        spec_fit_kids(sh, g1, h, i + 1)
    }
}

/// What [`spec_fit_gather`] leaves alone: slots outside the subtree of `h`
/// (and `h` itself), and every position.
pub proof fn lemma_fit_gather_frame(
    sh: Shape,
    g: Seq<GeomNode>,
    h: EntityHandle,
    inner_w: u16,
    inner_h: u16,
    i: int,
    acc: AxisSizes,
)
    requires
        sh.stamps_wf(),
        sh.valid(h),
        g.len() == sh.len(),
    ensures
        spec_fit_gather(sh, g, h, inner_w, inner_h, i, acc).0.len() == g.len(),
        forall|s: int|
            0 <= s < g.len() && (!sh.in_subtree(h, s) || s == h.slot) ==> spec_fit_gather(
                sh,
                g,
                h,
                inner_w,
                inner_h,
                i,
                acc,
            ).0[s] == g[s],
        forall|s: int|
            0 <= s < g.len() ==> spec_fit_gather(sh, g, h, inner_w, inner_h, i, acc).0[s].x
                == g[s].x && spec_fit_gather(sh, g, h, inner_w, inner_h, i, acc).0[s].y == g[s].y,
    decreases sh.node(h).children.len() - i,
{
    let cs = sh.node(h).children;
    if i < 0 || i >= cs.len() {
        assert(spec_fit_gather(sh, g, h, inner_w, inner_h, i, acc) == (g, acc));
    } else {
        let c = cs[i];
        if !sh.valid(c) {
            lemma_fit_gather_frame(sh, g, h, inner_w, inner_h, i + 1, acc);
            assert(spec_fit_gather(sh, g, h, inner_w, inner_h, i, acc) == spec_fit_gather(
                sh,
                g,
                h,
                inner_w,
                inner_h,
                i + 1,
                acc,
            ));
        } else {
            assert(sh.in_subtree(h, c.slot as int)) by {
                assert(sh.in_subtree(c, c.slot as int));
            }
            assert(c.slot != h.slot) by {
                assert(sh.stamp(c.slot as int) < sh.stamp(h.slot as int));
            }
            let p = sh.node(h).params;
            let cp = sh.node(c).params;
            let gn = g[c.slot as int];
            let w = if p.width is Fixed && cp.width is Fixed && gn.width > inner_w {
                inner_w
            } else {
                gn.width
            };
            let hh = if p.height is Fixed && cp.height is Fixed && gn.height > inner_h {
                inner_h
            } else {
                gn.height
            };
            let g1 = g.update(c.slot as int, GeomNode { width: w, height: hh, x: gn.x, y: gn.y });
            let a = spec_axify(p.direction, w, hh);
            let acc1 = AxisSizes {
                main_axis: sat16(acc.main_axis + a.main_axis),
                cross_axis: if acc.cross_axis >= a.cross_axis {
                    acc.cross_axis
                } else {
                    a.cross_axis
                },
            };
            lemma_fit_gather_frame(sh, g1, h, inner_w, inner_h, i + 1, acc1);
            assert(spec_fit_gather(sh, g, h, inner_w, inner_h, i, acc) == spec_fit_gather(
                sh,
                g1,
                h,
                inner_w,
                inner_h,
                i + 1,
                acc1,
            ));
            assert forall|s: int|
                0 <= s < g.len() && (!sh.in_subtree(h, s) || s == h.slot) implies spec_fit_gather(
                sh,
                g,
                h,
                inner_w,
                inner_h,
                i,
                acc,
            ).0[s] == g[s] by {
                assert(spec_fit_gather(sh, g1, h, inner_w, inner_h, i + 1, acc1).0[s] == g1[s]);
                assert(g1[s] == g[s]);
            }
            assert forall|s: int| 0 <= s < g.len() implies spec_fit_gather(
                sh,
                g,
                h,
                inner_w,
                inner_h,
                i,
                acc,
            ).0[s].x == g[s].x && spec_fit_gather(sh, g, h, inner_w, inner_h, i, acc).0[s].y
                == g[s].y by {
                assert(spec_fit_gather(sh, g1, h, inner_w, inner_h, i + 1, acc1).0[s].x
                    == g1[s].x);
                assert(spec_fit_gather(sh, g1, h, inner_w, inner_h, i + 1, acc1).0[s].y
                    == g1[s].y);
            }
        }
    }
}

/// What the whole fit pass leaves alone: slots outside the subtree of `h`,
/// and every position.
pub proof fn lemma_fit_frame(sh: Shape, g: Seq<GeomNode>, h: EntityHandle)
    requires
        sh.stamps_wf(),
        g.len() == sh.len(),
    ensures
        spec_fit(sh, g, h).len() == g.len(),
        forall|s: int|
            0 <= s < g.len() && !sh.in_subtree(h, s) ==> spec_fit(sh, g, h)[s] == g[s],
        forall|s: int|
            0 <= s < g.len() ==> spec_fit(sh, g, h)[s].x == g[s].x && spec_fit(sh, g, h)[s].y
                == g[s].y,
    decreases sh.stamp(h.slot as int), 1nat, 0nat,
{
    if !sh.valid(h) {
        assert(spec_fit(sh, g, h) == g);
    } else {
        assert(sh.in_subtree(h, h.slot as int));
        let g1 = spec_fit_fixed(g, h.slot as int, sh.node(h).params);
        lemma_fit_kids_frame(sh, g1, h, 0);
        let g2 = spec_fit_kids(sh, g1, h, 0);
        let zero = AxisSizes { main_axis: 0, cross_axis: 0 };
        let p = sh.node(h).params;
        let inner_w = sat16(g2[h.slot as int].width - (p.padding.left + p.padding.right));
        let inner_h = sat16(g2[h.slot as int].height - (p.padding.top + p.padding.bottom));
        lemma_fit_gather_frame(sh, g2, h, inner_w, inner_h, 0, zero);
        let g3 = spec_fit_gather(sh, g2, h, inner_w, inner_h, 0, zero).0;
        assert(spec_fit(sh, g, h) == spec_fit_finish(sh, g2, h));
        assert forall|s: int|
            0 <= s < g.len() && !sh.in_subtree(h, s) implies spec_fit(sh, g, h)[s] == g[s] by {
            assert(g1[s] == g[s]);
            assert(spec_fit_kids(sh, g1, h, 0)[s] == g1[s]);
            assert(g3[s] == g2[s]);
            assert(s != h.slot);
        }
        assert forall|s: int|
            0 <= s < g.len() implies spec_fit(sh, g, h)[s].x == g[s].x && spec_fit(
            sh,
            g,
            h,
        )[s].y == g[s].y by {
            assert(g1[s].x == g[s].x && g1[s].y == g[s].y);
            assert(spec_fit_kids(sh, g1, h, 0)[s].x == g1[s].x && spec_fit_kids(
                sh,
                g1,
                h,
                0,
            )[s].y == g1[s].y);
            assert(g3[s].x == g2[s].x && g3[s].y == g2[s].y);
        }
    }
}

/// The frame of [`spec_fit_kids`]: it changes nothing outside the strict
/// subtrees of the children, and no position anywhere.
pub proof fn lemma_fit_kids_frame(sh: Shape, g: Seq<GeomNode>, h: EntityHandle, i: int)
    requires
        sh.stamps_wf(),
        sh.valid(h),
        0 <= i,
        g.len() == sh.len(),
    ensures
        spec_fit_kids(sh, g, h, i).len() == g.len(),
        forall|s: int|
            0 <= s < g.len() && (!sh.in_subtree(h, s) || s == h.slot) ==> spec_fit_kids(
                sh,
                g,
                h,
                i,
            )[s] == g[s],
        forall|s: int|
            0 <= s < g.len() ==> spec_fit_kids(sh, g, h, i)[s].x == g[s].x && spec_fit_kids(
                sh,
                g,
                h,
                i,
            )[s].y == g[s].y,
    decreases sh.stamp(h.slot as int), 0nat, sh.node(h).children.len() - i,
{
    let cs = sh.node(h).children;
    if i >= cs.len() {
        assert(spec_fit_kids(sh, g, h, i) == g);
    } else {
        let c = cs[i];
        let g1 = if sh.valid(c) {
            spec_fit(sh, g, c)
        } else {
            g
        };
        assert(spec_fit_kids(sh, g, h, i) == spec_fit_kids(sh, g1, h, i + 1));
        if sh.valid(c) {
            lemma_fit_frame(sh, g, c);
            assert forall|s: int|
                0 <= s < g.len() && (!sh.in_subtree(h, s) || s == h.slot) implies g1[s]
                == g[s] by {
                if sh.in_subtree(c, s) {
                    assert(sh.in_subtree(h, s));
                    crate::model::Shape::lemma_in_subtree_stamp(sh, c, s);
                    assert(sh.stamp(c.slot as int) < sh.stamp(h.slot as int));
                    assert(s != h.slot);
                }
            }
        }
        lemma_fit_kids_frame(sh, g1, h, i + 1);
        assert(spec_fit_kids(sh, g, h, i) == spec_fit_kids(sh, g1, h, i + 1));
        assert forall|s: int|
            0 <= s < g.len() && (!sh.in_subtree(h, s) || s == h.slot) implies spec_fit_kids(
            sh,
            g,
            h,
            i,
        )[s] == g[s] by {
            assert(spec_fit_kids(sh, g1, h, i + 1)[s] == g1[s]);
        }
        assert forall|s: int|
            0 <= s < g.len() implies spec_fit_kids(sh, g, h, i)[s].x == g[s].x && spec_fit_kids(
            sh,
            g,
            h,
            i,
        )[s].y == g[s].y by {
            assert(spec_fit_kids(sh, g1, h, i + 1)[s].x == g1[s].x && spec_fit_kids(
                sh,
                g1,
                h,
                i + 1,
            )[s].y == g1[s].y);
            assert(g1[s].x == g[s].x && g1[s].y == g[s].y);
        }
    }
}

impl<W> ElementCtx<W> {
    /// Runs the fit pass under `h` over the geometry snapshot `g`.
    ///
    /// Succeeds exactly when the whole subtree can be walked; on success
    /// the snapshot holds the geometry described by [`spec_fit`].
    pub(crate) fn fit_pass(&self, g: &mut Vec<GeomNode>, h: EntityHandle) -> (r: Result<
        (),
        LayoutError,
    >)
        requires
            self.wf(),
            old(g)@.len() == self.shape().len(),
        ensures
            final(g)@.len() == old(g)@.len(),
            r is Ok <==> self.shape().subtree_ok(h),
            r is Ok ==> final(g)@ == spec_fit(self.shape(), old(g)@, h),
            !(r is Ok) ==> r->Err_0 is InvalidHandle,
        decreases self.shape().stamp(h.slot as int),
    {
        let ghost sh = self.shape();
        proof {
            self.lemma_wf_model();
        }
        if !self.contains(h) {
            proof {
                assert(!sh.subtree_ok(h));
            }
            return Err(LayoutError::InvalidHandle(h));
        }
        let node = match self.get(h) {
            Ok(n) => n,
            Err(_) => vstd::pervasive::unreached(),
        };
        let p = node.params;
        let s = h.slot;
        let mut gn = g[s];
        match p.width {
            Size::Fixed(n) => {
                gn.width = n;
            },
            _ => {},
        }
        match p.height {
            Size::Fixed(n) => {
                gn.height = n;
            },
            _ => {},
        }
        g[s] = gn;
        let ghost g1 = g@;
        proof {
            assert(g1 =~= spec_fit_fixed(old(g)@, s as int, p));
        }
        let mut i: usize = 0;
        while i < node.children.len()
            invariant
                self.wf(),
                sh == self.shape(),
                sh.stamps_wf(),
                sh.valid(h),
                p == sh.node(h).params,
                node.children@ == sh.node(h).children,
                s == h.slot,
                g@.len() == sh.len(),
                g@.len() == old(g)@.len(),
                i <= node.children@.len(),
                spec_fit_kids(sh, g@, h, i as int) == spec_fit_kids(sh, g1, h, 0),
                forall|k: int|
                    0 <= k < i ==> sh.subtree_ok(#[trigger] node.children@[k]),
            decreases node.children@.len() - i,
        {
            let c = node.children[i];
            if !self.contains(c) {
                proof {
                    assert(!sh.subtree_ok(h));
                }
                return Err(LayoutError::InvalidHandle(c));
            }
            proof {
                assert(sh.node_at(h.slot as int).children[i as int] == c);
                assert(sh.stamp(c.slot as int) < sh.stamp(h.slot as int));
            }
            let ghost g_before = g@;
            let res = self.fit_pass(g, c);
            match res {
                Err(e) => {
                    proof {
                        assert(!sh.subtree_ok(c));
                        assert(!sh.subtree_ok(h));
                    }
                    return Err(e);
                },
                Ok(()) => {},
            }
            proof {
                assert(g@ == spec_fit(sh, g_before, c));
                assert(spec_fit_kids(sh, g@, h, i + 1) == spec_fit_kids(sh, g_before, h, i as int));
            }
            i = i + 1;
        }
        let ghost g2 = g@;
        proof {
            assert(spec_fit_kids(sh, g2, h, i as int) == g2);
            assert(g2 == spec_fit_kids(sh, g1, h, 0));
            assert(sh.subtree_ok(h));
        }
        let inner_w = sat_sub(g[s].width, sat_add(p.padding.left, p.padding.right));
        let inner_h = sat_sub(g[s].height, sat_add(p.padding.top, p.padding.bottom));
        let mut acc = AxisSizes { main_axis: 0, cross_axis: 0 };
        let ghost zero = AxisSizes { main_axis: 0, cross_axis: 0 };
        let mut j: usize = 0;
        while j < node.children.len()
            invariant
                self.wf(),
                sh == self.shape(),
                sh.stamps_wf(),
                sh.valid(h),
                sh.subtree_ok(h),
                p == sh.node(h).params,
                node.children@ == sh.node(h).children,
                s == h.slot,
                g@.len() == sh.len(),
                g@.len() == old(g)@.len(),
                j <= node.children@.len(),
                inner_w == sat16(g2[s as int].width - (p.padding.left + p.padding.right)),
                inner_h == sat16(g2[s as int].height - (p.padding.top + p.padding.bottom)),
                spec_fit_gather(sh, g@, h, inner_w, inner_h, j as int, acc) == spec_fit_gather(
                    sh,
                    g2,
                    h,
                    inner_w,
                    inner_h,
                    0,
                    zero,
                ),
            decreases node.children@.len() - j,
        {
            let c = node.children[j];
            proof {
                assert(sh.node_at(h.slot as int).children[j as int] == c);
                if !sh.valid(c) {
                    assert(!sh.subtree_ok(h));
                }
            }
            let cnode = match self.get(c) {
                Ok(n) => n,
                Err(_) => vstd::pervasive::unreached(),
            };
            let cp = cnode.params;
            let ghost g_before = g@;
            let ghost acc_before = acc;
            let mut cgn = g[c.slot];
            if p.width.should_clamp() && cp.width.should_clamp() && cgn.width > inner_w {
                cgn.width = inner_w;
            }
            if p.height.should_clamp() && cp.height.should_clamp() && cgn.height > inner_h {
                cgn.height = inner_h;
            }
            g[c.slot] = cgn;
            acc = acc.increase(cgn.width, cgn.height, p.direction);
            j = j + 1;
            proof {
                assert(g@ =~= g_before.update(
                    c.slot as int,
                    GeomNode {
                        width: cgn.width,
                        height: cgn.height,
                        x: g_before[c.slot as int].x,
                        y: g_before[c.slot as int].y,
                    },
                ));
                assert(spec_fit_gather(sh, g@, h, inner_w, inner_h, j as int, acc)
                    == spec_fit_gather(sh, g_before, h, inner_w, inner_h, j - 1, acc_before));
            }
        }
        proof {
            assert(spec_fit_gather(sh, g@, h, inner_w, inner_h, j as int, acc) == (g@, acc));
        }
        let space = acc.pad(p.padding, p.direction);
        let gaps = gap_total(p.gap, node.children.len());
        let full = AxisSizes {
            main_axis: sat_add(space.main_axis, gaps),
            cross_axis: space.cross_axis,
        };
        let dims = full.to_dims(p.direction);
        let mut own = g[s];
        match p.width {
            Size::Fixed(_) => {},
            _ => {
                own.width = dims.0;
            },
        }
        match p.height {
            Size::Fixed(_) => {},
            _ => {
                own.height = dims.1;
            },
        }
        g[s] = own;
        proof {
            assert(g@ =~= spec_fit_finish(sh, g2, h));
            assert(g@ == spec_fit(sh, old(g)@, h));
        }
        Ok(())
    }
}

} // verus!
