//! Position assignment: the third, pre-order layout pass.
//!
//! For each container the pass measures the main-axis space its children
//! leave unused and turns the justification policy into three numbers: a
//! leading offset before the first child, extra spacing inside each gap,
//! and how many front gaps absorb one indivisible leftover cell each. A
//! cursor then walks the children in order, placing each at the parent's
//! padded origin plus the cursor.

use vstd::prelude::*;

use crate::axis::{gap_total, sat16, sat_add, sat_sub, spec_gap_total, spec_pad_main};
use crate::grow::{spec_main_of, spec_sum_main};
use crate::layout::LayoutError;
use crate::model::{GeomNode, Shape};
use crate::params::{Direction, Justify};
use crate::store::{ElementCtx, EntityHandle};

verus! {

/// The three quantities a justification policy derives from `rem` leftover
/// cells and `n` children: leading offset, extra spacing per gap, and the
/// number of front gaps that take one more cell. With no or one child the
/// multi-child policies degenerate to `Start`.
pub open spec fn spec_align(j: Justify, rem: u16, n: nat) -> (u16, u16, u16) {
    match j {
        Justify::Start => (0u16, 0u16, 0u16),
        Justify::Center => ((rem / 2) as u16, 0u16, 0u16),
        Justify::End => (rem, 0u16, 0u16),
        Justify::SpaceBetween => if n <= 1 {
            (0u16, 0u16, 0u16)
        } else {
            let d = n as int - 1;
            (0u16, (rem as int / d) as u16, (rem as int % d) as u16)
        },
        Justify::SpaceAround => if n <= 1 {
            (0u16, 0u16, 0u16)
        } else {
            let d = 2 * (n as int);
            let sp = rem as int / d;
            (sp as u16, (2 * sp) as u16, (rem as int % d) as u16)
        },
        Justify::SpaceEvenly => if n <= 1 {
            (0u16, 0u16, 0u16)
        } else {
            let d = 2 * (n as int) + 2;
            let sp = rem as int / d;
            ((2 * sp) as u16, (2 * sp) as u16, 0u16)
        },
    }
}

/// Computes [`spec_align`] for a child count held in a `usize`.
pub fn align_values(j: Justify, rem: u16, n: usize) -> (r: (u16, u16, u16))
    ensures
        r == spec_align(j, rem, n as nat),
{
    match j {
        Justify::Start => (0u16, 0u16, 0u16),
        Justify::Center => (rem / 2, 0u16, 0u16),
        Justify::End => (rem, 0u16, 0u16),
        Justify::SpaceBetween => {
            if n <= 1 {
                (0u16, 0u16, 0u16)
            } else if n - 1 > rem as usize {
                // more gaps than cells: nothing to spread, all cells are
                // leftover units
                proof {
                    assert(rem as int / (n - 1) == 0 && rem as int % (n - 1) == rem) by (
                    nonlinear_arith)
                        requires
                            0 <= rem < n - 1,
                    ;
                }
                (0u16, 0u16, rem)
            } else {
                let d: usize = n - 1;
                let q: usize = rem as usize / d;
                let r2: usize = rem as usize % d;
                proof {
                    assert(rem as int / (d as int) <= rem && 0 <= rem as int / (d as int) && rem
                        as int % (d as int) <= rem && 0 <= rem as int % (d as int)) by (
                    nonlinear_arith)
                        requires
                            rem >= 0,
                            d >= 1,
                    ;
                }
                (0u16, q as u16, r2 as u16)
            }
        },
        Justify::SpaceAround => {
            if n <= 1 {
                (0u16, 0u16, 0u16)
            } else if n > 32767 || 2 * n > rem as usize {
                proof {
                    assert(rem as int / (2 * n) == 0 && rem as int % (2 * n) == rem) by (
                    nonlinear_arith)
                        requires
                            0 <= rem,
                            2 * n > rem,
                    ;
                }
                (0u16, 0u16, rem)
            } else {
                let d: usize = 2 * n;
                let sp: usize = rem as usize / d;
                let r2: usize = rem as usize % d;
                proof {
                    assert(2 * (rem as int / (d as int)) <= rem && 0 <= rem as int / (d as int)
                        && rem as int % (d as int) <= rem && 0 <= rem as int % (d as int)) by (
                    nonlinear_arith)
                        requires
                            rem >= 0,
                            d >= 2,
                    ;
                }
                (sp as u16, (2 * sp) as u16, r2 as u16)
            }
        },
        Justify::SpaceEvenly => {
            if n <= 1 {
                (0u16, 0u16, 0u16)
            } else if n > 32766 || 2 * n + 2 > rem as usize {
                proof {
                    assert(rem as int / (2 * n + 2) == 0) by (nonlinear_arith)
                        requires
                            0 <= rem,
                            2 * n + 2 > rem,
                    ;
                }
                (0u16, 0u16, 0u16)
            } else {
                let d: usize = 2 * n + 2;
                let sp: usize = rem as usize / d;
                proof {
                    assert(2 * (rem as int / (d as int)) <= rem && 0 <= rem as int / (d as int))
                        by (nonlinear_arith)
                        requires
                            rem >= 0,
                            d >= 2,
                    ;
                }
                ((2 * sp) as u16, (2 * sp) as u16, 0u16)
            }
        },
    }
}

/// Where a child sits: the parent's padded origin, shifted along the main
/// axis by the cursor.
pub open spec fn spec_child_pos(
    parent: GeomNode,
    dir: Direction,
    pad_left: u16,
    pad_top: u16,
    cursor: u16,
    child: GeomNode,
) -> GeomNode {
    match dir {
        Direction::Horizontal => GeomNode {
            width: child.width,
            height: child.height,
            x: sat16(parent.x + cursor + pad_left),
            y: sat16(parent.y + pad_top),
        },
        Direction::Vertical => GeomNode {
            width: child.width,
            height: child.height,
            x: sat16(parent.x + pad_left),
            y: sat16(parent.y + cursor + pad_top),
        },
    }
}

/// Geometry after the whole position pass under `h`: each child is placed
/// at the running cursor, then positioned recursively. An invalid handle
/// changes nothing.
pub open spec fn spec_position(sh: Shape, g: Seq<GeomNode>, h: EntityHandle) -> Seq<GeomNode>
    decreases sh.stamp(h.slot as int), 1nat, 0nat
        when sh.stamps_wf()
{
    if !sh.valid(h) {
        g
    } else {
        let p = sh.node(h).params;
        let s = h.slot as int;
        let n = sh.node(h).children.len();
        let used = spec_sum_main(sh, g, h, 0, 0);
        let total = sat16(used + spec_gap_total(p.gap, n));
        let inner_main = sat16(spec_main_of(g[s], p.direction) - spec_pad_main(p.direction, p.padding));
        let rem = sat16(inner_main - total);
        let a = spec_align(p.main_justify, rem, n);
        spec_pos_kids(sh, g, h, 0, a.0, a.1, a.2)
    }
}

/// Walks the children from index `i` on: places each at `cursor`, recurses
/// into it, and advances the cursor by the child's extent, the gap, the
/// extra spacing and one leftover unit while any remain.
pub open spec fn spec_pos_kids(
    sh: Shape,
    g: Seq<GeomNode>,
    h: EntityHandle,
    i: int,
    cursor: u16,
    between: u16,
    runits: u16,
) -> Seq<GeomNode>
    decreases sh.stamp(h.slot as int), 0nat, sh.node(h).children.len() - i
        when sh.stamps_wf() && sh.valid(h) && 0 <= i
{
    let cs = sh.node(h).children;
    if i >= cs.len() {
        g
    } else {
        let c = cs[i];
        if !sh.valid(c) {
            spec_pos_kids(sh, g, h, i + 1, cursor, between, runits)
        } else {
            let p = sh.node(h).params;
            let s = h.slot as int;
            let placed = spec_child_pos(
                g[s],
                p.direction,
                p.padding.left,
                p.padding.top,
                cursor,
                g[c.slot as int],
            );
            let g1 = g.update(c.slot as int, placed);
            let tick: u16 = if runits > 0 {
                1u16
            } else {
                0u16
            };
            let cursor1 = sat16(
                cursor + spec_main_of(g1[c.slot as int], p.direction) + p.gap + between + tick,
            );
            let g2 = spec_position(sh, g1, c);
            spec_pos_kids(sh, g2, h, i + 1, cursor1, between, (runits - tick) as u16)
        }
    }
}

/// What the whole position pass leaves alone: slots outside the subtree of
/// `h`, the node's own slot, and every size.
pub proof fn lemma_position_frame(sh: Shape, g: Seq<GeomNode>, h: EntityHandle)
    requires
        sh.stamps_wf(),
        g.len() == sh.len(),
    ensures
        spec_position(sh, g, h).len() == g.len(),
        forall|s: int|
            0 <= s < g.len() && (!sh.in_subtree(h, s) || s == h.slot) ==> spec_position(
                sh,
                g,
                h,
            )[s] == g[s],
        forall|s: int|
            0 <= s < g.len() ==> spec_position(sh, g, h)[s].width == g[s].width && spec_position(
                sh,
                g,
                h,
            )[s].height == g[s].height,
    decreases sh.stamp(h.slot as int), 1nat, 0nat,
{
    if !sh.valid(h) {
        assert(spec_position(sh, g, h) == g);
    } else {
        let p = sh.node(h).params;
        let n = sh.node(h).children.len();
        let used = spec_sum_main(sh, g, h, 0, 0);
        let total = sat16(used + spec_gap_total(p.gap, n));
        let inner_main = sat16(
            spec_main_of(g[h.slot as int], p.direction) - spec_pad_main(p.direction, p.padding),
        );
        let rem = sat16(inner_main - total);
        let a = spec_align(p.main_justify, rem, n);
        lemma_pos_kids_frame(sh, g, h, 0, a.0, a.1, a.2);
        assert(spec_position(sh, g, h) == spec_pos_kids(sh, g, h, 0, a.0, a.1, a.2));
    }
}

/// The frame of [`spec_pos_kids`]: nothing changes outside the strict
/// subtrees of the children, and no size anywhere.
proof fn lemma_pos_kids_frame(
    sh: Shape,
    g: Seq<GeomNode>,
    h: EntityHandle,
    i: int,
    cursor: u16,
    between: u16,
    runits: u16,
)
    requires
        sh.stamps_wf(),
        sh.valid(h),
        0 <= i,
        g.len() == sh.len(),
    ensures
        spec_pos_kids(sh, g, h, i, cursor, between, runits).len() == g.len(),
        forall|s: int|
            0 <= s < g.len() && (!sh.in_subtree(h, s) || s == h.slot) ==> spec_pos_kids(
                sh,
                g,
                h,
                i,
                cursor,
                between,
                runits,
            )[s] == g[s],
        forall|s: int|
            0 <= s < g.len() ==> spec_pos_kids(sh, g, h, i, cursor, between, runits)[s].width
                == g[s].width && spec_pos_kids(sh, g, h, i, cursor, between, runits)[s].height
                == g[s].height,
    decreases sh.stamp(h.slot as int), 0nat, sh.node(h).children.len() - i,
{
    let cs = sh.node(h).children;
    if i >= cs.len() {
        assert(spec_pos_kids(sh, g, h, i, cursor, between, runits) == g);
    } else {
        let c = cs[i];
        if !sh.valid(c) {
            lemma_pos_kids_frame(sh, g, h, i + 1, cursor, between, runits);
            assert(spec_pos_kids(sh, g, h, i, cursor, between, runits) == spec_pos_kids(
                sh,
                g,
                h,
                i + 1,
                cursor,
                between,
                runits,
            ));
        } else {
            assert(sh.in_subtree(h, c.slot as int)) by {
                assert(sh.in_subtree(c, c.slot as int));
            }
            assert(c.slot != h.slot) by {
                assert(sh.stamp(c.slot as int) < sh.stamp(h.slot as int));
            }
            let placed = spec_child_pos(
                g[h.slot as int],
                sh.node(h).params.direction,
                sh.node(h).params.padding.left,
                sh.node(h).params.padding.top,
                cursor,
                g[c.slot as int],
            );
            let g1 = g.update(c.slot as int, placed);
            let tick: u16 = if runits > 0 {
                1u16
            } else {
                0u16
            };
            let cursor1 = sat16(
                cursor + spec_main_of(g1[c.slot as int], sh.node(h).params.direction)
                    + sh.node(h).params.gap + between + tick,
            );
            let g2 = spec_position(sh, g1, c);
            lemma_position_frame(sh, g1, c);
            lemma_pos_kids_frame(sh, g2, h, i + 1, cursor1, between, (runits - tick) as u16);
            assert(spec_pos_kids(sh, g, h, i, cursor, between, runits) == spec_pos_kids(
                sh,
                g2,
                h,
                i + 1,
                cursor1,
                between,
                (runits - tick) as u16,
            ));
            assert forall|s: int|
                0 <= s < g.len() && (!sh.in_subtree(h, s) || s == h.slot) implies spec_pos_kids(
                sh,
                g,
                h,
                i,
                cursor,
                between,
                runits,
            )[s] == g[s] by {
                assert(g1[s] == g[s]);
                assert(g2[s] == g1[s]) by {
                    if sh.in_subtree(c, s) {
                        assert(sh.in_subtree(h, s));
                        crate::model::Shape::lemma_in_subtree_stamp(sh, c, s);
                        assert(sh.stamp(c.slot as int) < sh.stamp(h.slot as int));
                        assert(s != h.slot);
                    }
                }
                assert(spec_pos_kids(
                    sh,
                    g2,
                    h,
                    i + 1,
                    cursor1,
                    between,
                    (runits - tick) as u16,
                )[s] == g2[s]);
            }
            assert forall|s: int|
                0 <= s < g.len() implies spec_pos_kids(
                sh,
                g,
                h,
                i,
                cursor,
                between,
                runits,
            )[s].width == g[s].width && spec_pos_kids(
                sh,
                g,
                h,
                i,
                cursor,
                between,
                runits,
            )[s].height == g[s].height by {
                assert(g1[s].width == g[s].width && g1[s].height == g[s].height);
                assert(g2[s].width == g1[s].width && g2[s].height == g1[s].height);
                assert(spec_pos_kids(
                    sh,
                    g2,
                    h,
                    i + 1,
                    cursor1,
                    between,
                    (runits - tick) as u16,
                )[s].width == g2[s].width && spec_pos_kids(
                    sh,
                    g2,
                    h,
                    i + 1,
                    cursor1,
                    between,
                    (runits - tick) as u16,
                )[s].height == g2[s].height);
            }
        }
    }
}

impl<W> ElementCtx<W> {
    /// Runs the position pass under `h` over the geometry snapshot `g`.
    ///
    /// Succeeds exactly when the whole subtree can be walked; on success
    /// the snapshot holds the geometry described by [`spec_position`]. The
    /// node's own position is an input, not an output: the root stays where
    /// the caller put it.
    pub(crate) fn position_pass(&self, g: &mut Vec<GeomNode>, h: EntityHandle) -> (r: Result<
        (),
        LayoutError,
    >)
        requires
            self.wf(),
            old(g)@.len() == self.shape().len(),
        ensures
            final(g)@.len() == old(g)@.len(),
            r is Ok <==> self.shape().subtree_ok(h),
            r is Ok ==> final(g)@ == spec_position(self.shape(), old(g)@, h),
            !(r is Ok) ==> r->Err_0 is InvalidHandle,
        decreases self.shape().stamp(h.slot as int),
    {
        let ghost sh = self.shape();
        proof {
            self.lemma_wf_model();
        }
        if !self.contains(h) {
            proof {
                assert(!sh.subtree_ok(h));
            }
            return Err(LayoutError::InvalidHandle(h));
        }
        let node = match self.get(h) {
            Ok(n) => n,
            Err(_) => vstd::pervasive::unreached(),
        };
        let p = node.params;
        let s = h.slot;
        // children's used space, checking every child on the way
        let mut used: u16 = 0;
        let mut i: usize = 0;
        while i < node.children.len()
            invariant
                self.wf(),
                sh == self.shape(),
                sh.stamps_wf(),
                sh.valid(h),
                p == sh.node(h).params,
                node.children@ == sh.node(h).children,
                g@.len() == sh.len(),
                i <= node.children@.len(),
                spec_sum_main(sh, g@, h, i as int, used) == spec_sum_main(sh, g@, h, 0, 0),
                forall|k: int| 0 <= k < i ==> sh.valid(#[trigger] node.children@[k]),
            decreases node.children@.len() - i,
        {
            let c = node.children[i];
            if !self.contains(c) {
                proof {
                    assert(!sh.subtree_ok(h));
                }
                return Err(LayoutError::InvalidHandle(c));
            }
            let gn = g[c.slot];
            let v = match p.direction {
                Direction::Horizontal => gn.width,
                Direction::Vertical => gn.height,
            };
            used = sat_add(used, v);
            i = i + 1;
        }
        proof {
            assert(spec_sum_main(sh, g@, h, node.children@.len() as int, used) == used);
        }
        let gaps = gap_total(p.gap, node.children.len());
        let total = sat_add(used, gaps);
        let own_main = match p.direction {
            Direction::Horizontal => g[s].width,
            Direction::Vertical => g[s].height,
        };
        let pad_main = match p.direction {
            Direction::Horizontal => sat_add(p.padding.left, p.padding.right),
            Direction::Vertical => sat_add(p.padding.top, p.padding.bottom),
        };
        let inner_main = sat_sub(own_main, pad_main);
        let rem = sat_sub(inner_main, total);
        let a = align_values(p.main_justify, rem, node.children.len());
        let mut cursor: u16 = a.0;
        let between: u16 = a.1;
        let mut runits: u16 = a.2;
        let ghost g0 = g@;
        let mut i2: usize = 0;
        while i2 < node.children.len()
            invariant
                self.wf(),
                sh == self.shape(),
                sh.stamps_wf(),
                sh.valid(h),
                p == sh.node(h).params,
                node.children@ == sh.node(h).children,
                s == h.slot,
                g@.len() == sh.len(),
                g@.len() == old(g)@.len(),
                i2 <= node.children@.len(),
                forall|k: int|
                    0 <= k < node.children@.len() ==> sh.valid(#[trigger] node.children@[k]),
                spec_pos_kids(sh, g@, h, i2 as int, cursor, between, runits) == spec_pos_kids(
                    sh,
                    g0,
                    h,
                    0,
                    a.0,
                    a.1,
                    a.2,
                ),
                forall|k: int|
                    0 <= k < i2 ==> sh.subtree_ok(#[trigger] node.children@[k]),
            decreases node.children@.len() - i2,
        {
            let c = node.children[i2];
            proof {
                assert(sh.node_at(h.slot as int).children[i2 as int] == c);
                assert(sh.stamp(c.slot as int) < sh.stamp(h.slot as int));
            }
            let parent_gn = g[s];
            let child_gn = g[c.slot];
            let placed = match p.direction {
                Direction::Horizontal => GeomNode {
                    width: child_gn.width,
                    height: child_gn.height,
                    x: sat_add(sat_add(parent_gn.x, cursor), p.padding.left),
                    y: sat_add(parent_gn.y, p.padding.top),
                },
                Direction::Vertical => GeomNode {
                    width: child_gn.width,
                    height: child_gn.height,
                    x: sat_add(parent_gn.x, p.padding.left),
                    y: sat_add(sat_add(parent_gn.y, cursor), p.padding.top),
                },
            };
            let ghost g_before = g@;
            g[c.slot] = placed;
            proof {
                crate::axis::lemma_sat16_add_chain(
                    parent_gn.x + cursor,
                    p.padding.left,
                );
                crate::axis::lemma_sat16_add_chain(
                    parent_gn.y + cursor,
                    p.padding.top,
                );
                assert(placed == spec_child_pos(
                    g_before[s as int],
                    p.direction,
                    p.padding.left,
                    p.padding.top,
                    cursor,
                    g_before[c.slot as int],
                ));
                assert(g@ =~= g_before.update(c.slot as int, placed));
            }
            let tick: u16 = if runits > 0 {
                1u16
            } else {
                0u16
            };
            let child_main = match p.direction {
                Direction::Horizontal => g[c.slot].width,
                Direction::Vertical => g[c.slot].height,
            };
            let ghost cursor_old = cursor;
            let ghost runits_old = runits;
            cursor = sat_add(sat_add(sat_add(sat_add(cursor, child_main), p.gap), between), tick);
            runits = runits - tick;
            proof {
                crate::axis::lemma_sat16_add_chain(cursor_old + child_main, p.gap);
                crate::axis::lemma_sat16_add_chain(cursor_old + child_main + p.gap, between);
                crate::axis::lemma_sat16_add_chain(
                    cursor_old + child_main + p.gap + between,
                    tick,
                );
                assert(cursor == sat16(
                    cursor_old + spec_main_of(g@[c.slot as int], p.direction) + p.gap + between
                        + tick,
                ));
            }
            let ghost g_placed = g@;
            let res = self.position_pass(g, c);
            match res {
                Err(e) => {
                    proof {
                        assert(!sh.subtree_ok(c));
                        assert(!sh.subtree_ok(h));
                    }
                    return Err(e);
                },
                Ok(()) => {},
            }
            proof {
                assert(g@ == spec_position(sh, g_placed, c));
                assert(spec_pos_kids(sh, g@, h, i2 + 1, cursor, between, runits) == spec_pos_kids(
                    sh,
                    g_before,
                    h,
                    i2 as int,
                    cursor_old,
                    between,
                    runits_old,
                ));
            }
            i2 = i2 + 1;
        }
        proof {
            assert(spec_pos_kids(sh, g@, h, i2 as int, cursor, between, runits) == g@);
            assert(sh.subtree_ok(h));
            assert(g@ == spec_position(sh, old(g)@, h));
        }
        Ok(())
    }
}

} // verus!
