//! Growth distribution: the second, post-order layout pass.
//!
//! Children whose cross-axis policy is `Grow` take the parent's inner
//! cross-axis size exactly. Along the main axis, the space left in the
//! parent is poured into the `Grow` children level by level: the smallest
//! are raised to the next size up until everything left is spent or all
//! `Grow` children stand equal, and what then remains is divided evenly,
//! the first children in order taking the indivisible units. No cell is
//! lost and none is handed out twice.

use vstd::prelude::*;

use crate::axis::{gap_total, sat16, sat_add, sat_sub, spec_gap_total, AxisSizes};
use crate::layout::LayoutError;
use crate::model::{GeomNode, Shape};
use crate::params::{Direction, spec_cross_size, spec_main_size};
use crate::store::{ElementCtx, EntityHandle};

verus! {

/// The main-axis extent of a node's geometry under direction `dir`.
pub open spec fn spec_main_of(gn: GeomNode, dir: Direction) -> u16 {
    match dir {
        Direction::Horizontal => gn.width,
        Direction::Vertical => gn.height,
    }
}

/// `gn` with its main-axis extent replaced.
pub open spec fn spec_with_main(gn: GeomNode, dir: Direction, v: u16) -> GeomNode {
    match dir {
        Direction::Horizontal => GeomNode { width: v, height: gn.height, x: gn.x, y: gn.y },
        Direction::Vertical => GeomNode { width: gn.width, height: v, x: gn.x, y: gn.y },
    }
}

/// `gn` with its cross-axis extent replaced.
pub open spec fn spec_with_cross(gn: GeomNode, dir: Direction, v: u16) -> GeomNode {
    match dir {
        Direction::Horizontal => GeomNode { width: gn.width, height: v, x: gn.x, y: gn.y },
        Direction::Vertical => GeomNode { width: v, height: gn.height, x: gn.x, y: gn.y },
    }
}

/// Saturating sum of the children's main-axis extents, from index `i` on,
/// starting at `acc`.
pub open spec fn spec_sum_main(
    sh: Shape,
    g: Seq<GeomNode>,
    h: EntityHandle,
    i: int,
    acc: u16,
) -> u16
    decreases sh.node(h).children.len() - i,
{
    let cs = sh.node(h).children;
    if i < 0 || i >= cs.len() {
        acc
    } else {
        let c = cs[i];
        let acc1 = if sh.valid(c) {
            sat16(acc + spec_main_of(g[c.slot as int], sh.node(h).params.direction))
        } else {
            acc
        };
        spec_sum_main(sh, g, h, i + 1, acc1)
    }
}

/// Sets the cross-axis extent of every cross-`Grow` child to the parent's
/// inner cross-axis size, from index `i` on.
pub open spec fn spec_grow_cross(
    sh: Shape,
    g: Seq<GeomNode>,
    h: EntityHandle,
    inner_cross: u16,
    i: int,
) -> Seq<GeomNode>
    decreases sh.node(h).children.len() - i,
{
    let cs = sh.node(h).children;
    if i < 0 || i >= cs.len() {
        g
    } else {
        let c = cs[i];
        let dir = sh.node(h).params.direction;
        let g1 = if sh.valid(c) && spec_cross_size(
            dir,
            sh.node(c).params.width,
            sh.node(c).params.height,
        ) is Grow {
            g.update(c.slot as int, spec_with_cross(g[c.slot as int], dir, inner_cross))
        } else {
            g
        };
        spec_grow_cross(sh, g1, h, inner_cross, i + 1)
    }
}

/// The slots of the children whose main-axis policy is `Grow`, in child
/// order, from index `i` on.
pub open spec fn spec_grow_list(sh: Shape, h: EntityHandle, i: int) -> Seq<usize>
    decreases sh.node(h).children.len() - i,
{
    let cs = sh.node(h).children;
    if i < 0 || i >= cs.len() {
        Seq::empty()
    } else {
        let c = cs[i];
        let rest = spec_grow_list(sh, h, i + 1);
        if sh.valid(c) && spec_main_size(
            sh.node(h).params.direction,
            sh.node(c).params.width,
            sh.node(c).params.height,
        ) is Grow {
            seq![c.slot] + rest
        } else {
            rest
        }
    }
}

/// Running minimum of the growing children's main-axis extents, from
/// index `i` on, starting at `cur`.
pub open spec fn spec_min_main(
    g: Seq<GeomNode>,
    dir: Direction,
    gi: Seq<usize>,
    i: int,
    cur: u16,
) -> u16
    decreases gi.len() - i,
{
    if i < 0 || i >= gi.len() {
        cur
    } else {
        let v = spec_main_of(g[gi[i] as int], dir);
        spec_min_main(g, dir, gi, i + 1, if v < cur {
            v
        } else {
            cur
        })
    }
}

/// The least main-axis extent strictly above `m` among the growing
/// children from index `i` on; `cur` is the best candidate so far.
pub open spec fn spec_next_above(
    g: Seq<GeomNode>,
    dir: Direction,
    gi: Seq<usize>,
    i: int,
    m: u16,
    cur: Option<u16>,
) -> Option<u16>
    decreases gi.len() - i,
{
    if i < 0 || i >= gi.len() {
        cur
    } else {
        let v = spec_main_of(g[gi[i] as int], dir);
        let cur1 = if v > m && (cur is None || v < cur->Some_0) {
            Some(v)
        } else {
            cur
        };
        spec_next_above(g, dir, gi, i + 1, m, cur1)
    }
}

/// How many growing children from index `i` on sit exactly at extent `m`.
pub open spec fn spec_count_at(
    g: Seq<GeomNode>,
    dir: Direction,
    gi: Seq<usize>,
    i: int,
    m: u16,
) -> int
    decreases gi.len() - i,
{
    if i < 0 || i >= gi.len() {
        0
    } else {
        (if spec_main_of(g[gi[i] as int], dir) == m {
            1int
        } else {
            0int
        }) + spec_count_at(g, dir, gi, i + 1, m)
    }
}

/// Raises every growing child sitting at `m` to `m2`, from index `i` on.
pub open spec fn spec_raise(
    g: Seq<GeomNode>,
    dir: Direction,
    gi: Seq<usize>,
    i: int,
    m: u16,
    m2: u16,
) -> Seq<GeomNode>
    decreases gi.len() - i,
{
    if i < 0 || i >= gi.len() {
        g
    } else {
        let s = gi[i] as int;
        let g1 = if spec_main_of(g[s], dir) == m {
            g.update(s, spec_with_main(g[s], dir, m2))
        } else {
            g
        };
        spec_raise(g1, dir, gi, i + 1, m, m2)
    }
}

/// Adds `q` to every growing child from index `i` on, plus one extra cell
/// while `r` front positions remain.
pub open spec fn spec_distribute(
    g: Seq<GeomNode>,
    dir: Direction,
    gi: Seq<usize>,
    i: int,
    q: u16,
    r: int,
) -> Seq<GeomNode>
    decreases gi.len() - i,
{
    if i < 0 || i >= gi.len() {
        g
    } else {
        let s = gi[i] as int;
        let extra: int = if i < r {
            1
        } else {
            0
        };
        let g1 = g.update(s, spec_with_main(g[s], dir, sat16(spec_main_of(g[s], dir) + q + extra)));
        spec_distribute(g1, dir, gi, i + 1, q, r)
    }
}

/// Gives the remaining cells to the children sitting at the minimum `m`:
/// `q` each, one extra for the first `r` of them in order.
pub open spec fn spec_partial(
    g: Seq<GeomNode>,
    dir: Direction,
    gi: Seq<usize>,
    i: int,
    m: u16,
    q: u16,
    r: int,
) -> Seq<GeomNode>
    decreases gi.len() - i,
{
    if i < 0 || i >= gi.len() {
        g
    } else {
        let s = gi[i] as int;
        if spec_main_of(g[s], dir) == m {
            let extra: int = if r > 0 {
                1
            } else {
                0
            };
            let g1 = g.update(s, spec_with_main(g[s], dir, sat16(m + q + extra)));
            spec_partial(g1, dir, gi, i + 1, m, q, r - extra)
        } else {
            spec_partial(g, dir, gi, i + 1, m, q, r)
        }
    }
}

/// The main-axis water-filling loop: raise the smallest growing children
/// level by level while the leftover lasts, then divide what remains.
pub open spec fn spec_fill(g: Seq<GeomNode>, dir: Direction, gi: Seq<usize>, rem: u16) -> Seq<
    GeomNode,
>
    decreases rem,
{
    if rem == 0 || gi.len() == 0 {
        g
    } else {
        let m = spec_min_main(g, dir, gi, 1, spec_main_of(g[gi[0] as int], dir));
        let m2o = spec_next_above(g, dir, gi, 0, m, None);
        let cnt = spec_count_at(g, dir, gi, 0, m);
        if m2o is Some {
            let m2 = m2o->Some_0;
            let need = cnt * (m2 - m);
            if cnt <= 0 {
                g
            } else if 1 <= need <= rem {
                spec_fill(spec_raise(g, dir, gi, 0, m, m2), dir, gi, (rem - need) as u16)
            } else {
                spec_partial(g, dir, gi, 0, m, ((rem as int) / cnt) as u16, (rem as int) % cnt)
            }
        } else {
            spec_distribute(
                g,
                dir,
                gi,
                0,
                ((rem as int) / (gi.len() as int)) as u16,
                (rem as int) % (gi.len() as int),
            )
        }
    }
}

/// Geometry after the whole growth pass under `h`: the node's leftover
/// main-axis space is distributed to its children, then each child's own
/// subtree is grown. An invalid handle changes nothing.
pub open spec fn spec_grow(sh: Shape, g: Seq<GeomNode>, h: EntityHandle) -> Seq<GeomNode>
    decreases sh.stamp(h.slot as int), 1nat, 0nat
        when sh.stamps_wf()
{
    if !sh.valid(h) {
        g
    } else {
        let p = sh.node(h).params;
        let s = h.slot as int;
        let inner = spec_grow_inner(sh, g, h);
        let rem0 = spec_grow_leftover(sh, g, h);
        let g1 = spec_grow_cross(sh, g, h, inner.cross_axis, 0);
        let gi = spec_grow_list(sh, h, 0);
        let g2 = spec_fill(g1, p.direction, gi, rem0);
        spec_grow_kids(sh, g2, h, 0)
    }
}

/// The main-axis space left in `h` for its growing children: the inner
/// extent minus what the children already use and the gaps between them.
pub open spec fn spec_grow_leftover(sh: Shape, g: Seq<GeomNode>, h: EntityHandle) -> u16 {
    let p = sh.node(h).params;
    let inner = spec_grow_inner(sh, g, h);
    let used = spec_sum_main(sh, g, h, 0, 0);
    let gaps = spec_gap_total(p.gap, sh.node(h).children.len());
    sat16(inner.main_axis - sat16(used + gaps))
}

/// The node's inner size: its extent minus padding, per axis, saturating.
pub open spec fn spec_grow_inner(sh: Shape, g: Seq<GeomNode>, h: EntityHandle) -> AxisSizes {
    let p = sh.node(h).params;
    let s = h.slot as int;
    let own = match p.direction {
        Direction::Horizontal => AxisSizes { main_axis: g[s].width, cross_axis: g[s].height },
        Direction::Vertical => AxisSizes { main_axis: g[s].height, cross_axis: g[s].width },
    };
    AxisSizes {
        main_axis: sat16(own.main_axis - crate::axis::spec_pad_main(p.direction, p.padding)),
        cross_axis: sat16(own.cross_axis - crate::axis::spec_pad_cross(p.direction, p.padding)),
    }
}

/// [`spec_grow`] folded over the children of `h` from index `i` on.
pub open spec fn spec_grow_kids(sh: Shape, g: Seq<GeomNode>, h: EntityHandle, i: int) -> Seq<
    GeomNode,
>
    decreases sh.stamp(h.slot as int), 0nat, sh.node(h).children.len() - i
        when sh.stamps_wf() && sh.valid(h) && 0 <= i
{
    let cs = sh.node(h).children;
    if i >= cs.len() {
        g
    } else {
        let c = cs[i];
        let g1 = if sh.valid(c) {
            spec_grow(sh, g, c)
        } else {
            g
        };
        spec_grow_kids(sh, g1, h, i + 1)
    }
}

/// What the cross-axis fold leaves alone: slots outside the subtree of `h`
/// (and `h` itself), and every position.
pub(crate) proof fn lemma_grow_cross_frame(sh: Shape, g: Seq<GeomNode>, h: EntityHandle, ic: u16, i: int)
    requires
        sh.stamps_wf(),
        sh.valid(h),
        g.len() == sh.len(),
    ensures
        spec_grow_cross(sh, g, h, ic, i).len() == g.len(),
        forall|s: int|
            0 <= s < g.len() && (!sh.in_subtree(h, s) || s == h.slot) ==> spec_grow_cross(
                sh,
                g,
                h,
                ic,
                i,
            )[s] == g[s],
        forall|s: int|
            0 <= s < g.len() ==> spec_grow_cross(sh, g, h, ic, i)[s].x == g[s].x
                && spec_grow_cross(sh, g, h, ic, i)[s].y == g[s].y,
    decreases sh.node(h).children.len() - i,
{
    let cs = sh.node(h).children;
    if i < 0 || i >= cs.len() {
        assert(spec_grow_cross(sh, g, h, ic, i) == g);
    } else {
        let c = cs[i];
        let dir = sh.node(h).params.direction;
        let g1 = if sh.valid(c) && spec_cross_size(
            dir,
            sh.node(c).params.width,
            sh.node(c).params.height,
        ) is Grow {
            g.update(c.slot as int, spec_with_cross(g[c.slot as int], dir, ic))
        } else {
            g
        };
        if sh.valid(c) {
            assert(sh.in_subtree(h, c.slot as int)) by {
                assert(sh.in_subtree(c, c.slot as int));
            }
            assert(c.slot != h.slot) by {
                assert(sh.stamp(c.slot as int) < sh.stamp(h.slot as int));
            }
        }
        lemma_grow_cross_frame(sh, g1, h, ic, i + 1);
        assert(spec_grow_cross(sh, g, h, ic, i) == spec_grow_cross(sh, g1, h, ic, i + 1));
        assert forall|s: int|
            0 <= s < g.len() && (!sh.in_subtree(h, s) || s == h.slot) implies spec_grow_cross(
            sh,
            g,
            h,
            ic,
            i,
        )[s] == g[s] by {
            assert(spec_grow_cross(sh, g1, h, ic, i + 1)[s] == g1[s]);
        }
        assert forall|s: int|
            0 <= s < g.len() implies spec_grow_cross(sh, g, h, ic, i)[s].x == g[s].x
            && spec_grow_cross(sh, g, h, ic, i)[s].y == g[s].y by {
            assert(spec_grow_cross(sh, g1, h, ic, i + 1)[s].x == g1[s].x && spec_grow_cross(
                sh,
                g1,
                h,
                ic,
                i + 1,
            )[s].y == g1[s].y);
        }
    }
}

/// The cross-axis fold never changes a main-axis extent.
pub(crate) proof fn lemma_grow_cross_mains(
    sh: Shape,
    g: Seq<GeomNode>,
    h: EntityHandle,
    ic: u16,
    i: int,
)
    requires
        sh.valid(h),
        g.len() == sh.len(),
    ensures
        spec_grow_cross(sh, g, h, ic, i).len() == g.len(),
        forall|s: int|
            0 <= s < g.len() ==> spec_main_of(
                #[trigger] spec_grow_cross(sh, g, h, ic, i)[s],
                sh.node(h).params.direction,
            ) == spec_main_of(g[s], sh.node(h).params.direction),
    decreases sh.node(h).children.len() - i,
{
    let cs = sh.node(h).children;
    if i < 0 || i >= cs.len() {
    } else {
        let c = cs[i];
        let dir = sh.node(h).params.direction;
        let g1 = if sh.valid(c) && spec_cross_size(
            dir,
            sh.node(c).params.width,
            sh.node(c).params.height,
        ) is Grow {
            g.update(c.slot as int, spec_with_cross(g[c.slot as int], dir, ic))
        } else {
            g
        };
        lemma_grow_cross_mains(sh, g1, h, ic, i + 1);
        assert forall|s: int|
            0 <= s < g.len() implies spec_main_of(
            #[trigger] spec_grow_cross(sh, g, h, ic, i)[s],
            dir,
        ) == spec_main_of(g[s], dir) by {
            assert(spec_main_of(spec_grow_cross(sh, g1, h, ic, i + 1)[s], dir) == spec_main_of(
                g1[s],
                dir,
            ));
            assert(spec_main_of(g1[s], dir) == spec_main_of(g[s], dir));
        }
    }
}

/// Every entry of the growing-children list is the slot of some child of
/// `h`: inside the subtree, in bounds and never `h`'s own slot.
pub(crate) proof fn lemma_grow_list_props(sh: Shape, h: EntityHandle, i: int)
    requires
        sh.stamps_wf(),
        sh.valid(h),
    ensures
        forall|k: int|
            0 <= k < spec_grow_list(sh, h, i).len() ==> {
                let t = #[trigger] spec_grow_list(sh, h, i)[k];
                &&& (t as int) < sh.len()
                &&& sh.in_subtree(h, t as int)
                &&& t != h.slot
                &&& exists|j: int|
                    0 <= j < sh.node(h).children.len() && sh.valid(
                        #[trigger] sh.node(h).children[j],
                    ) && sh.node(h).children[j].slot == t
            },
    decreases sh.node(h).children.len() - i,
{
    let cs = sh.node(h).children;
    if i < 0 || i >= cs.len() {
    } else {
        let c = cs[i];
        lemma_grow_list_props(sh, h, i + 1);
        let rest = spec_grow_list(sh, h, i + 1);
        if sh.valid(c) && spec_main_size(
            sh.node(h).params.direction,
            sh.node(c).params.width,
            sh.node(c).params.height,
        ) is Grow {
            assert(sh.in_subtree(h, c.slot as int)) by {
                assert(sh.in_subtree(c, c.slot as int));
            }
            assert(c.slot != h.slot) by {
                assert(sh.stamp(c.slot as int) < sh.stamp(h.slot as int));
            }
            assert forall|k: int|
                0 <= k < spec_grow_list(sh, h, i).len() implies {
                    let t = #[trigger] spec_grow_list(sh, h, i)[k];
                    &&& (t as int) < sh.len()
                    &&& sh.in_subtree(h, t as int)
                    &&& t != h.slot
                    &&& exists|j: int|
                        0 <= j < cs.len() && sh.valid(#[trigger] cs[j]) && cs[j].slot == t
                } by {
                if k == 0 {
                    assert(spec_grow_list(sh, h, i)[k] == c.slot);
                    assert(0 <= i < cs.len() && sh.valid(cs[i]) && cs[i].slot == c.slot);
                } else {
                    assert(spec_grow_list(sh, h, i)[k] == rest[k - 1]);
                }
            }
        }
    }
}

/// What [`spec_raise`] leaves alone: slots not on the list, and every
/// position.
pub(crate) proof fn lemma_raise_frame(g: Seq<GeomNode>, dir: Direction, gi: Seq<usize>, i: int, m: u16, m2: u16)
    requires
        forall|k: int| 0 <= k < gi.len() ==> (#[trigger] gi[k]) < g.len(),
    ensures
        spec_raise(g, dir, gi, i, m, m2).len() == g.len(),
        forall|s: int|
            0 <= s < g.len() && !gi.contains(s as usize) ==> spec_raise(g, dir, gi, i, m, m2)[s]
                == g[s],
        forall|s: int|
            0 <= s < g.len() ==> spec_raise(g, dir, gi, i, m, m2)[s].x == g[s].x && spec_raise(
                g,
                dir,
                gi,
                i,
                m,
                m2,
            )[s].y == g[s].y,
    decreases gi.len() - i,
{
    if i < 0 || i >= gi.len() {
    } else {
        let s0 = gi[i] as int;
        let g1 = if spec_main_of(g[s0], dir) == m {
            g.update(s0, spec_with_main(g[s0], dir, m2))
        } else {
            g
        };
        lemma_raise_frame(g1, dir, gi, i + 1, m, m2);
        assert(spec_raise(g, dir, gi, i, m, m2) == spec_raise(g1, dir, gi, i + 1, m, m2));
        assert forall|s: int|
            0 <= s < g.len() && !gi.contains(s as usize) implies spec_raise(g, dir, gi, i, m, m2)[s]
            == g[s] by {
            assert(gi.contains(gi[i]));
            assert(s != s0);
            assert(spec_raise(g1, dir, gi, i + 1, m, m2)[s] == g1[s]);
        }
        assert forall|s: int|
            0 <= s < g.len() implies spec_raise(g, dir, gi, i, m, m2)[s].x == g[s].x && spec_raise(
            g,
            dir,
            gi,
            i,
            m,
            m2,
        )[s].y == g[s].y by {
            assert(spec_raise(g1, dir, gi, i + 1, m, m2)[s].x == g1[s].x && spec_raise(
                g1,
                dir,
                gi,
                i + 1,
                m,
                m2,
            )[s].y == g1[s].y);
        }
    }
}

/// What [`spec_partial`] leaves alone: slots not on the list, and every
/// position.
pub(crate) proof fn lemma_partial_frame(
    g: Seq<GeomNode>,
    dir: Direction,
    gi: Seq<usize>,
    i: int,
    m: u16,
    q: u16,
    r: int,
)
    requires
        forall|k: int| 0 <= k < gi.len() ==> (#[trigger] gi[k]) < g.len(),
    ensures
        spec_partial(g, dir, gi, i, m, q, r).len() == g.len(),
        forall|s: int|
            0 <= s < g.len() && !gi.contains(s as usize) ==> spec_partial(g, dir, gi, i, m, q, r)[s]
                == g[s],
        forall|s: int|
            0 <= s < g.len() ==> spec_partial(g, dir, gi, i, m, q, r)[s].x == g[s].x
                && spec_partial(g, dir, gi, i, m, q, r)[s].y == g[s].y,
    decreases gi.len() - i,
{
    if i < 0 || i >= gi.len() {
    } else {
        let s0 = gi[i] as int;
        if spec_main_of(g[s0], dir) == m {
            let extra: int = if r > 0 {
                1
            } else {
                0
            };
            let g1 = g.update(s0, spec_with_main(g[s0], dir, sat16(m + q + extra)));
            lemma_partial_frame(g1, dir, gi, i + 1, m, q, r - extra);
            assert(spec_partial(g, dir, gi, i, m, q, r) == spec_partial(
                g1,
                dir,
                gi,
                i + 1,
                m,
                q,
                r - extra,
            ));
            assert forall|s: int|
                0 <= s < g.len() && !gi.contains(s as usize) implies spec_partial(
                g,
                dir,
                gi,
                i,
                m,
                q,
                r,
            )[s] == g[s] by {
                assert(gi.contains(gi[i]));
                assert(s != s0);
                assert(spec_partial(g1, dir, gi, i + 1, m, q, r - extra)[s] == g1[s]);
            }
            assert forall|s: int|
                0 <= s < g.len() implies spec_partial(g, dir, gi, i, m, q, r)[s].x == g[s].x
                && spec_partial(g, dir, gi, i, m, q, r)[s].y == g[s].y by {
                assert(spec_partial(g1, dir, gi, i + 1, m, q, r - extra)[s].x == g1[s].x
                    && spec_partial(g1, dir, gi, i + 1, m, q, r - extra)[s].y == g1[s].y);
            }
        } else {
            lemma_partial_frame(g, dir, gi, i + 1, m, q, r);
            assert(spec_partial(g, dir, gi, i, m, q, r) == spec_partial(g, dir, gi, i + 1, m, q, r));
        }
    }
}

/// What [`spec_distribute`] leaves alone: slots not on the list, and every
/// position.
pub(crate) proof fn lemma_distribute_frame(
    g: Seq<GeomNode>,
    dir: Direction,
    gi: Seq<usize>,
    i: int,
    q: u16,
    r: int,
)
    requires
        forall|k: int| 0 <= k < gi.len() ==> (#[trigger] gi[k]) < g.len(),
    ensures
        spec_distribute(g, dir, gi, i, q, r).len() == g.len(),
        forall|s: int|
            0 <= s < g.len() && !gi.contains(s as usize) ==> spec_distribute(g, dir, gi, i, q, r)[s]
                == g[s],
        forall|s: int|
            0 <= s < g.len() ==> spec_distribute(g, dir, gi, i, q, r)[s].x == g[s].x
                && spec_distribute(g, dir, gi, i, q, r)[s].y == g[s].y,
    decreases gi.len() - i,
{
    if i < 0 || i >= gi.len() {
    } else {
        let s0 = gi[i] as int;
        let extra: int = if i < r {
            1
        } else {
            0
        };
        let g1 = g.update(s0, spec_with_main(g[s0], dir, sat16(spec_main_of(g[s0], dir) + q + extra)));
        lemma_distribute_frame(g1, dir, gi, i + 1, q, r);
        assert(spec_distribute(g, dir, gi, i, q, r) == spec_distribute(g1, dir, gi, i + 1, q, r));
        assert forall|s: int|
            0 <= s < g.len() && !gi.contains(s as usize) implies spec_distribute(
            g,
            dir,
            gi,
            i,
            q,
            r,
        )[s] == g[s] by {
            assert(gi.contains(gi[i]));
            assert(s != s0);
            assert(spec_distribute(g1, dir, gi, i + 1, q, r)[s] == g1[s]);
        }
        assert forall|s: int|
            0 <= s < g.len() implies spec_distribute(g, dir, gi, i, q, r)[s].x == g[s].x
            && spec_distribute(g, dir, gi, i, q, r)[s].y == g[s].y by {
            assert(spec_distribute(g1, dir, gi, i + 1, q, r)[s].x == g1[s].x && spec_distribute(
                g1,
                dir,
                gi,
                i + 1,
                q,
                r,
            )[s].y == g1[s].y);
        }
    }
}

/// What [`spec_fill`] leaves alone: slots not on the list, and every
/// position.
pub(crate) proof fn lemma_fill_frame(g: Seq<GeomNode>, dir: Direction, gi: Seq<usize>, rem: u16)
    requires
        forall|k: int| 0 <= k < gi.len() ==> (#[trigger] gi[k]) < g.len(),
    ensures
        spec_fill(g, dir, gi, rem).len() == g.len(),
        forall|s: int|
            0 <= s < g.len() && !gi.contains(s as usize) ==> spec_fill(g, dir, gi, rem)[s] == g[s],
        forall|s: int|
            0 <= s < g.len() ==> spec_fill(g, dir, gi, rem)[s].x == g[s].x && spec_fill(
                g,
                dir,
                gi,
                rem,
            )[s].y == g[s].y,
    decreases rem,
{
    if rem == 0 || gi.len() == 0 {
    } else {
        let m = spec_min_main(g, dir, gi, 1, spec_main_of(g[gi[0] as int], dir));
        let m2o = spec_next_above(g, dir, gi, 0, m, None);
        let cnt = spec_count_at(g, dir, gi, 0, m);
        if m2o is Some {
            let m2 = m2o->Some_0;
            let need = cnt * (m2 - m);
            if cnt <= 0 {
            } else if 1 <= need <= rem {
                let g1 = spec_raise(g, dir, gi, 0, m, m2);
                lemma_raise_frame(g, dir, gi, 0, m, m2);
                lemma_fill_frame(g1, dir, gi, (rem - need) as u16);
                assert forall|s: int|
                    0 <= s < g.len() && !gi.contains(s as usize) implies spec_fill(
                    g,
                    dir,
                    gi,
                    rem,
                )[s] == g[s] by {
                    assert(spec_fill(g1, dir, gi, (rem - need) as u16)[s] == g1[s]);
                }
                assert forall|s: int|
                    0 <= s < g.len() implies spec_fill(g, dir, gi, rem)[s].x == g[s].x
                    && spec_fill(g, dir, gi, rem)[s].y == g[s].y by {
                    assert(spec_fill(g1, dir, gi, (rem - need) as u16)[s].x == g1[s].x
                        && spec_fill(g1, dir, gi, (rem - need) as u16)[s].y == g1[s].y);
                }
            } else {
                lemma_partial_frame(g, dir, gi, 0, m, ((rem as int) / cnt) as u16, (rem as int) % cnt);
            }
        } else {
            lemma_distribute_frame(
                g,
                dir,
                gi,
                0,
                ((rem as int) / (gi.len() as int)) as u16,
                (rem as int) % (gi.len() as int),
            );
        }
    }
}

/// What the whole growth pass leaves alone: slots outside the subtree of
/// `h`, the node's own slot, and every position.
pub proof fn lemma_grow_frame(sh: Shape, g: Seq<GeomNode>, h: EntityHandle)
    requires
        sh.stamps_wf(),
        g.len() == sh.len(),
        sh.len() <= usize::MAX,
    ensures
        spec_grow(sh, g, h).len() == g.len(),
        forall|s: int|
            0 <= s < g.len() && (!sh.in_subtree(h, s) || s == h.slot) ==> spec_grow(sh, g, h)[s]
                == g[s],
        forall|s: int|
            0 <= s < g.len() ==> spec_grow(sh, g, h)[s].x == g[s].x && spec_grow(sh, g, h)[s].y
                == g[s].y,
    decreases sh.stamp(h.slot as int), 1nat, 0nat,
{
    if !sh.valid(h) {
        assert(spec_grow(sh, g, h) == g);
    } else {
        let p = sh.node(h).params;
        let inner = spec_grow_inner(sh, g, h);
        let used = spec_sum_main(sh, g, h, 0, 0);
        let gaps = spec_gap_total(p.gap, sh.node(h).children.len());
        let rem0 = sat16(inner.main_axis - sat16(used + gaps));
        let g1 = spec_grow_cross(sh, g, h, inner.cross_axis, 0);
        let gi = spec_grow_list(sh, h, 0);
        let g2 = spec_fill(g1, p.direction, gi, rem0);
        lemma_grow_cross_frame(sh, g, h, inner.cross_axis, 0);
        lemma_grow_list_props(sh, h, 0);
        assert forall|k: int| 0 <= k < gi.len() implies (#[trigger] gi[k]) < g1.len() by {}
        lemma_fill_frame(g1, p.direction, gi, rem0);
        lemma_grow_kids_frame(sh, g2, h, 0);
        assert(spec_grow(sh, g, h) == spec_grow_kids(sh, g2, h, 0));
        assert forall|s: int|
            0 <= s < g.len() && (!sh.in_subtree(h, s) || s == h.slot) implies spec_grow(
            sh,
            g,
            h,
        )[s] == g[s] by {
            assert(g1[s] == g[s]);
            assert(!gi.contains(s as usize)) by {
                if gi.contains(s as usize) {
                    let k = choose|k: int| 0 <= k < gi.len() && #[trigger] gi[k] == s as usize;
                    assert((s as usize) as int == s);
                    assert(sh.in_subtree(h, gi[k] as int) && gi[k] != h.slot);
                    assert(sh.in_subtree(h, s) && s != h.slot);
                }
            }
            assert(g2[s] == g1[s]);
            assert(spec_grow_kids(sh, g2, h, 0)[s] == g2[s]);
        }
        assert forall|s: int|
            0 <= s < g.len() implies spec_grow(sh, g, h)[s].x == g[s].x && spec_grow(sh, g, h)[s].y
            == g[s].y by {
            assert(g1[s].x == g[s].x && g1[s].y == g[s].y);
            assert(g2[s].x == g1[s].x && g2[s].y == g1[s].y);
            assert(spec_grow_kids(sh, g2, h, 0)[s].x == g2[s].x && spec_grow_kids(
                sh,
                g2,
                h,
                0,
            )[s].y == g2[s].y);
        }
    }
}

/// The frame of [`spec_grow_kids`]: nothing changes outside the strict
/// subtrees of the children, and no position anywhere.
proof fn lemma_grow_kids_frame(sh: Shape, g: Seq<GeomNode>, h: EntityHandle, i: int)
    requires
        sh.stamps_wf(),
        sh.valid(h),
        0 <= i,
        g.len() == sh.len(),
        sh.len() <= usize::MAX,
    ensures
        spec_grow_kids(sh, g, h, i).len() == g.len(),
        forall|s: int|
            0 <= s < g.len() && (!sh.in_subtree(h, s) || s == h.slot) ==> spec_grow_kids(
                sh,
                g,
                h,
                i,
            )[s] == g[s],
        forall|s: int|
            0 <= s < g.len() ==> spec_grow_kids(sh, g, h, i)[s].x == g[s].x && spec_grow_kids(
                sh,
                g,
                h,
                i,
            )[s].y == g[s].y,
    decreases sh.stamp(h.slot as int), 0nat, sh.node(h).children.len() - i,
{
    let cs = sh.node(h).children;
    if i >= cs.len() {
        assert(spec_grow_kids(sh, g, h, i) == g);
    } else {
        let c = cs[i];
        let g1 = if sh.valid(c) {
            spec_grow(sh, g, c)
        } else {
            g
        };
        if sh.valid(c) {
            lemma_grow_frame(sh, g, c);
            assert forall|s: int|
                0 <= s < g.len() && (!sh.in_subtree(h, s) || s == h.slot) implies g1[s]
                == g[s] by {
                if sh.in_subtree(c, s) {
                    assert(sh.in_subtree(h, s));
                    crate::model::Shape::lemma_in_subtree_stamp(sh, c, s);
                    assert(sh.stamp(c.slot as int) < sh.stamp(h.slot as int));
                    assert(s != h.slot);
                }
            }
        }
        lemma_grow_kids_frame(sh, g1, h, i + 1);
        assert(spec_grow_kids(sh, g, h, i) == spec_grow_kids(sh, g1, h, i + 1));
        assert forall|s: int|
            0 <= s < g.len() && (!sh.in_subtree(h, s) || s == h.slot) implies spec_grow_kids(
            sh,
            g,
            h,
            i,
        )[s] == g[s] by {
            assert(spec_grow_kids(sh, g1, h, i + 1)[s] == g1[s]);
        }
        assert forall|s: int|
            0 <= s < g.len() implies spec_grow_kids(sh, g, h, i)[s].x == g[s].x && spec_grow_kids(
            sh,
            g,
            h,
            i,
        )[s].y == g[s].y by {
            assert(spec_grow_kids(sh, g1, h, i + 1)[s].x == g1[s].x && spec_grow_kids(
                sh,
                g1,
                h,
                i + 1,
            )[s].y == g1[s].y);
            assert(g1[s].x == g[s].x && g1[s].y == g[s].y);
        }
    }
}

/// If some growing child from `i` on sits at `m`, the count at `m` is
/// positive.
pub(crate) proof fn lemma_count_at_witness(
    g: Seq<GeomNode>,
    dir: Direction,
    gi: Seq<usize>,
    i: int,
    m: u16,
    j: int,
)
    requires
        0 <= i <= j < gi.len(),
        spec_main_of(g[gi[j] as int], dir) == m,
    ensures
        spec_count_at(g, dir, gi, i, m) >= 1,
    decreases gi.len() - i,
{
    if i == j {
        lemma_count_at_nonneg(g, dir, gi, i + 1, m);
    } else {
        lemma_count_at_witness(g, dir, gi, i + 1, m, j);
    }
}

/// A count is never negative.
pub(crate) proof fn lemma_count_at_nonneg(g: Seq<GeomNode>, dir: Direction, gi: Seq<usize>, i: int, m: u16)
    ensures
        spec_count_at(g, dir, gi, i, m) >= 0,
    decreases gi.len() - i,
{
    if 0 <= i < gi.len() {
        lemma_count_at_nonneg(g, dir, gi, i + 1, m);
    }
}

impl<W> ElementCtx<W> {
    /// Runs the growth pass under `h` over the geometry snapshot `g`.
    ///
    /// Succeeds exactly when the whole subtree can be walked; on success
    /// the snapshot holds the geometry described by [`spec_grow`].
    pub(crate) fn grow_pass(&self, g: &mut Vec<GeomNode>, h: EntityHandle) -> (r: Result<
        (),
        LayoutError,
    >)
        requires
            self.wf(),
            old(g)@.len() == self.shape().len(),
        ensures
            final(g)@.len() == old(g)@.len(),
            r is Ok <==> self.shape().subtree_ok(h),
            r is Ok ==> final(g)@ == spec_grow(self.shape(), old(g)@, h),
            !(r is Ok) ==> r->Err_0 is InvalidHandle,
        decreases self.shape().stamp(h.slot as int),
    {
        let ghost sh = self.shape();
        proof {
            self.lemma_wf_model();
        }
        if !self.contains(h) {
            proof {
                assert(!sh.subtree_ok(h));
            }
            return Err(LayoutError::InvalidHandle(h));
        }
        let node = match self.get(h) {
            Ok(n) => n,
            Err(_) => vstd::pervasive::unreached(),
        };
        let p = node.params;
        let s = h.slot;
        let own = AxisSizes::from_dims(p.direction, g[s].width, g[s].height);
        let inner = own.shrink(p.padding, p.direction);
        proof {
            assert(inner == spec_grow_inner(sh, g@, h));
        }
        // Sum the children's current main-axis extents; this walk also
        // surfaces any dangling child before anything is mutated.
        let mut used: u16 = 0;
        let mut i: usize = 0;
        while i < node.children.len()
            invariant
                self.wf(),
                sh == self.shape(),
                sh.stamps_wf(),
                sh.valid(h),
                p == sh.node(h).params,
                node.children@ == sh.node(h).children,
                g@.len() == sh.len(),
                i <= node.children@.len(),
                spec_sum_main(sh, g@, h, i as int, used) == spec_sum_main(sh, g@, h, 0, 0),
                forall|k: int| 0 <= k < i ==> sh.valid(#[trigger] node.children@[k]),
            decreases node.children@.len() - i,
        {
            let c = node.children[i];
            if !self.contains(c) {
                proof {
                    assert(!sh.subtree_ok(h));
                }
                return Err(LayoutError::InvalidHandle(c));
            }
            let gn = g[c.slot];
            let v = match p.direction {
                Direction::Horizontal => gn.width,
                Direction::Vertical => gn.height,
            };
            used = sat_add(used, v);
            i = i + 1;
        }
        let gaps = gap_total(p.gap, node.children.len());
        let rem0 = sat_sub(inner.main_axis, sat_add(used, gaps));
        proof {
            assert(spec_sum_main(sh, g@, h, node.children@.len() as int, used) == used);
        }
        // Cross axis: growing children take the inner cross size exactly.
        let ghost g0 = g@;
        let mut i2: usize = 0;
        while i2 < node.children.len()
            invariant
                self.wf(),
                sh == self.shape(),
                sh.stamps_wf(),
                sh.valid(h),
                p == sh.node(h).params,
                node.children@ == sh.node(h).children,
                g@.len() == sh.len(),
                g@.len() == old(g)@.len(),
                i2 <= node.children@.len(),
                forall|k: int|
                    0 <= k < node.children@.len() ==> sh.valid(#[trigger] node.children@[k]),
                spec_grow_cross(sh, g@, h, inner.cross_axis, i2 as int) == spec_grow_cross(
                    sh,
                    g0,
                    h,
                    inner.cross_axis,
                    0,
                ),
            decreases node.children@.len() - i2,
        {
            let c = node.children[i2];
            let cnode = match self.get(c) {
                Ok(n) => n,
                Err(_) => vstd::pervasive::unreached(),
            };
            let ghost g_before = g@;
            if cnode.params.cross_size(p.direction).is_grow() {
                let gn = g[c.slot];
                let gn2 = match p.direction {
                    Direction::Horizontal => GeomNode {
                        width: gn.width,
                        height: inner.cross_axis,
                        x: gn.x,
                        y: gn.y,
                    },
                    Direction::Vertical => GeomNode {
                        width: inner.cross_axis,
                        height: gn.height,
                        x: gn.x,
                        y: gn.y,
                    },
                };
                g[c.slot] = gn2;
                proof {
                    assert(g@ =~= g_before.update(
                        c.slot as int,
                        spec_with_cross(g_before[c.slot as int], p.direction, inner.cross_axis),
                    ));
                }
            }
            i2 = i2 + 1;
            proof {
                assert(spec_grow_cross(sh, g@, h, inner.cross_axis, i2 as int) == spec_grow_cross(
                    sh,
                    g_before,
                    h,
                    inner.cross_axis,
                    i2 - 1,
                ));
            }
        }
        let ghost g1 = g@;
        proof {
            assert(spec_grow_cross(sh, g@, h, inner.cross_axis, i2 as int) == g@);
            assert(g1 == spec_grow_cross(sh, g0, h, inner.cross_axis, 0));
        }
        // Collect the main-axis growing children, in order.
        let mut gi: Vec<usize> = Vec::new();
        let mut i3: usize = 0;
        while i3 < node.children.len()
            invariant
                self.wf(),
                sh == self.shape(),
                sh.stamps_wf(),
                sh.valid(h),
                p == sh.node(h).params,
                node.children@ == sh.node(h).children,
                g@.len() == sh.len(),
                i3 <= node.children@.len(),
                forall|k: int|
                    0 <= k < node.children@.len() ==> sh.valid(#[trigger] node.children@[k]),
                gi@ + spec_grow_list(sh, h, i3 as int) == spec_grow_list(sh, h, 0),
                forall|k: int| 0 <= k < gi@.len() ==> (#[trigger] gi@[k]) < g@.len(),
            decreases node.children@.len() - i3,
        {
            let c = node.children[i3];
            let cnode = match self.get(c) {
                Ok(n) => n,
                Err(_) => vstd::pervasive::unreached(),
            };
            if cnode.params.main_size(p.direction).is_grow() {
                gi.push(c.slot);
            }
            proof {
                assert(gi@ + spec_grow_list(sh, h, i3 + 1 as int) =~= spec_grow_list(sh, h, 0));
            }
            i3 = i3 + 1;
        }
        proof {
            assert(spec_grow_list(sh, h, i3 as int) == Seq::<usize>::empty());
            assert(gi@ =~= spec_grow_list(sh, h, 0));
        }
        // Main axis: water-fill the growing children with the leftover.
        let ghost gi_s = gi@;
        let mut rem: u16 = rem0;
        if gi.len() > 0 {
            while rem > 0
                invariant
                    gi@ == gi_s,
                    gi@.len() > 0,
                    g@.len() == old(g)@.len(),
                    g@.len() == sh.len(),
                    forall|k: int| 0 <= k < gi@.len() ==> (#[trigger] gi@[k]) < g@.len(),
                    spec_fill(g@, p.direction, gi@, rem) == spec_fill(g1, p.direction, gi_s, rem0),
                decreases rem,
            {
                // the smallest current extent among the growing children
                let mut m: u16 = match p.direction {
                    Direction::Horizontal => g[gi[0]].width,
                    Direction::Vertical => g[gi[0]].height,
                };
                let ghost j_min: int = 0;
                let mut k: usize = 1;
                while k < gi.len()
                    invariant
                        gi@ == gi_s,
                        g@.len() == sh.len(),
                        forall|kk: int| 0 <= kk < gi@.len() ==> (#[trigger] gi@[kk]) < g@.len(),
                        1 <= k <= gi@.len(),
                        spec_min_main(g@, p.direction, gi@, k as int, m) == spec_min_main(
                            g@,
                            p.direction,
                            gi@,
                            1,
                            spec_main_of(g@[gi@[0] as int], p.direction),
                        ),
                        exists|j: int|
                            0 <= j < k && spec_main_of(g@[gi@[j] as int], p.direction) == m,
                    decreases gi@.len() - k,
                {
                    let v = match p.direction {
                        Direction::Horizontal => g[gi[k]].width,
                        Direction::Vertical => g[gi[k]].height,
                    };
                    if v < m {
                        m = v;
                        proof {
                            assert(spec_main_of(g@[gi@[k as int] as int], p.direction) == m);
                        }
                    }
                    k = k + 1;
                }
                proof {
                    assert(spec_min_main(g@, p.direction, gi@, k as int, m) == m);
                }
                // the next size up, if any
                let mut m2: Option<u16> = None;
                let mut k2: usize = 0;
                while k2 < gi.len()
                    invariant
                        gi@ == gi_s,
                        g@.len() == sh.len(),
                        forall|kk: int| 0 <= kk < gi@.len() ==> (#[trigger] gi@[kk]) < g@.len(),
                        k2 <= gi@.len(),
                        spec_next_above(g@, p.direction, gi@, k2 as int, m, m2)
                            == spec_next_above(g@, p.direction, gi@, 0, m, None),
                        m2 is Some ==> m2->Some_0 > m,
                    decreases gi@.len() - k2,
                {
                    let v = match p.direction {
                        Direction::Horizontal => g[gi[k2]].width,
                        Direction::Vertical => g[gi[k2]].height,
                    };
                    let better = match m2 {
                        Option::None => v > m,
                        Option::Some(b) => v > m && v < b,
                    };
                    if better {
                        m2 = Some(v);
                    }
                    k2 = k2 + 1;
                }
                // how many stand at the minimum
                let mut cnt: usize = 0;
                let mut k3: usize = 0;
                while k3 < gi.len()
                    invariant
                        gi@ == gi_s,
                        g@.len() == sh.len(),
                        forall|kk: int| 0 <= kk < gi@.len() ==> (#[trigger] gi@[kk]) < g@.len(),
                        k3 <= gi@.len(),
                        cnt <= k3,
                        cnt + spec_count_at(g@, p.direction, gi@, k3 as int, m) == spec_count_at(
                            g@,
                            p.direction,
                            gi@,
                            0,
                            m,
                        ),
                    decreases gi@.len() - k3,
                {
                    let v = match p.direction {
                        Direction::Horizontal => g[gi[k3]].width,
                        Direction::Vertical => g[gi[k3]].height,
                    };
                    if v == m {
                        cnt = cnt + 1;
                    }
                    k3 = k3 + 1;
                }
                proof {
                    let j = choose|j: int|
                        0 <= j < gi@.len() && spec_main_of(g@[gi@[j] as int], p.direction) == m;
                    lemma_count_at_witness(g@, p.direction, gi@, 0, m, j);
                    assert(cnt >= 1);
                }
                match m2 {
                    Option::Some(m2v) => {
                        let ghost need = spec_count_at(g@, p.direction, gi@, 0, m) * (m2v - m);
                        proof {
                            assert(need == cnt * (m2v - m));
                        }
                        let diff: u16 = m2v - m;
                        let mut do_raise = false;
                        let mut need16: u16 = 0;
                        if cnt <= rem as usize {
                            proof {
                                assert(cnt * diff <= 0xffff * 0xffff) by (nonlinear_arith)
                                    requires
                                        0 <= cnt <= 0xffff,
                                        0 <= diff <= 0xffff,
                                ;
                            }
                            let need32: u32 = (cnt as u32) * (diff as u32);
                            if need32 <= rem as u32 {
                                do_raise = true;
                                need16 = need32 as u16;
                            }
                        }
                        proof {
                            if !do_raise {
                                assert(!(1 <= need <= rem)) by {
                                    if cnt > rem as usize {
                                        assert(need >= cnt * 1) by (nonlinear_arith)
                                            requires
                                                need == cnt * (diff as int),
                                                diff >= 1,
                                                cnt >= 1,
                                        ;
                                    }
                                }
                            }
                        }
                        if do_raise {
                            proof {
                                assert(need == need16);
                                assert(need >= 1) by (nonlinear_arith)
                                    requires
                                        need == cnt * (diff as int),
                                        cnt >= 1,
                                        diff >= 1,
                                ;
                                assert(1 <= need <= rem);
                            }
                            let ghost g_before = g@;
                            let mut k4: usize = 0;
                            while k4 < gi.len()
                                invariant
                                    gi@ == gi_s,
                                    g@.len() == sh.len(),
                                    forall|kk: int|
                                        0 <= kk < gi@.len() ==> (#[trigger] gi@[kk]) < g@.len(),
                                    k4 <= gi@.len(),
                                    spec_raise(g@, p.direction, gi@, k4 as int, m, m2v)
                                        == spec_raise(g_before, p.direction, gi@, 0, m, m2v),
                                decreases gi@.len() - k4,
                            {
                                let sgi = gi[k4];
                                let gn = g[sgi];
                                let v = match p.direction {
                                    Direction::Horizontal => gn.width,
                                    Direction::Vertical => gn.height,
                                };
                                let ghost g_mid = g@;
                                if v == m {
                                    let gn2 = match p.direction {
                                        Direction::Horizontal => GeomNode {
                                            width: m2v,
                                            height: gn.height,
                                            x: gn.x,
                                            y: gn.y,
                                        },
                                        Direction::Vertical => GeomNode {
                                            width: gn.width,
                                            height: m2v,
                                            x: gn.x,
                                            y: gn.y,
                                        },
                                    };
                                    g[sgi] = gn2;
                                    proof {
                                        assert(g@ =~= g_mid.update(
                                            sgi as int,
                                            spec_with_main(
                                                g_mid[sgi as int],
                                                p.direction,
                                                m2v,
                                            ),
                                        ));
                                    }
                                }
                                k4 = k4 + 1;
                            }
                            proof {
                                assert(spec_raise(g@, p.direction, gi@, k4 as int, m, m2v) == g@);
                                assert(g@ == spec_raise(g_before, p.direction, gi@, 0, m, m2v));
                            }
                            rem = rem - need16;
                            proof {
                                assert(spec_fill(g_before, p.direction, gi@, (rem + need16) as u16)
                                    == spec_fill(g@, p.direction, gi@, rem));
                            }
                        } else {
                            // not enough left to level up: hand what is left
                            // to the smallest, front first
                            let q: u16 = ((rem as usize) / cnt) as u16;
                            let mut r: usize = (rem as usize) % cnt;
                            proof {
                                assert(rem as int % (cnt as int) <= rem as int
                                    && 0 <= rem as int % (cnt as int)) by (nonlinear_arith)
                                    requires
                                        rem >= 0,
                                        cnt >= 1,
                                ;
                                assert(r <= rem);
                            }
                            let ghost g_before = g@;
                            let ghost q_s = q;
                            let ghost r_s = r as int;
                            let mut k5: usize = 0;
                            while k5 < gi.len()
                                invariant
                                    gi@ == gi_s,
                                    g@.len() == sh.len(),
                                    forall|kk: int|
                                        0 <= kk < gi@.len() ==> (#[trigger] gi@[kk]) < g@.len(),
                                    k5 <= gi@.len(),
                                    r <= rem,
                                    spec_partial(g@, p.direction, gi@, k5 as int, m, q, r as int)
                                        == spec_partial(
                                        g_before,
                                        p.direction,
                                        gi@,
                                        0,
                                        m,
                                        q_s,
                                        r_s,
                                    ),
                                decreases gi@.len() - k5,
                            {
                                let sgi = gi[k5];
                                let gn = g[sgi];
                                let v = match p.direction {
                                    Direction::Horizontal => gn.width,
                                    Direction::Vertical => gn.height,
                                };
                                let ghost g_mid = g@;
                                let ghost r_mid = r as int;
                                if v == m {
                                    let mut newv = sat_add(m, q);
                                    if r > 0 {
                                        newv = sat_add(newv, 1);
                                        r = r - 1;
                                    }
                                    let gn2 = match p.direction {
                                        Direction::Horizontal => GeomNode {
                                            width: newv,
                                            height: gn.height,
                                            x: gn.x,
                                            y: gn.y,
                                        },
                                        Direction::Vertical => GeomNode {
                                            width: gn.width,
                                            height: newv,
                                            x: gn.x,
                                            y: gn.y,
                                        },
                                    };
                                    g[sgi] = gn2;
                                    proof {
                                        let extra: int = if r_mid > 0 {
                                            1
                                        } else {
                                            0
                                        };
                                        if extra == 1 {
                                            crate::axis::lemma_sat16_add_chain(m + q, 1);
                                        }
                                        assert(newv == sat16(m + q + extra));
                                        assert(g@ =~= g_mid.update(
                                            sgi as int,
                                            spec_with_main(
                                                g_mid[sgi as int],
                                                p.direction,
                                                sat16(m + q + extra),
                                            ),
                                        ));
                                    }
                                }
                                k5 = k5 + 1;
                            }
                            proof {
                                assert(spec_partial(g@, p.direction, gi@, k5 as int, m, q, r as int)
                                    == g@);
                                assert(g@ == spec_partial(g_before, p.direction, gi@, 0, m, q_s, r_s));
                                assert(spec_fill(g_before, p.direction, gi@, rem) == g@);
                            }
                            rem = 0;
                        }
                    },
                    Option::None => {
                        // all growing children stand equal: divide evenly
                        let q: u16 = ((rem as usize) / gi.len()) as u16;
                        let r: usize = (rem as usize) % gi.len();
                        proof {
                            assert(rem as int % (gi@.len() as int) <= rem as int
                                && 0 <= rem as int % (gi@.len() as int)) by (nonlinear_arith)
                                requires
                                    rem >= 0,
                                    gi@.len() >= 1,
                            ;
                            assert(r <= rem);
                        }
                        let ghost g_before = g@;
                        let ghost q_s = q;
                        let ghost r_s = r as int;
                        let mut k6: usize = 0;
                        while k6 < gi.len()
                            invariant
                                gi@ == gi_s,
                                g@.len() == sh.len(),
                                forall|kk: int|
                                    0 <= kk < gi@.len() ==> (#[trigger] gi@[kk]) < g@.len(),
                                k6 <= gi@.len(),
                                q_s == q,
                                r_s == r as int,
                                spec_distribute(g@, p.direction, gi@, k6 as int, q_s, r_s)
                                    == spec_distribute(g_before, p.direction, gi@, 0, q_s, r_s),
                            decreases gi@.len() - k6,
                        {
                            let sgi = gi[k6];
                            let gn = g[sgi];
                            let v = match p.direction {
                                Direction::Horizontal => gn.width,
                                Direction::Vertical => gn.height,
                            };
                            let mut newv = sat_add(v, q);
                            if k6 < r {
                                newv = sat_add(newv, 1);
                            }
                            let gn2 = match p.direction {
                                Direction::Horizontal => GeomNode {
                                    width: newv,
                                    height: gn.height,
                                    x: gn.x,
                                    y: gn.y,
                                },
                                Direction::Vertical => GeomNode {
                                    width: gn.width,
                                    height: newv,
                                    x: gn.x,
                                    y: gn.y,
                                },
                            };
                            let ghost g_mid = g@;
                            g[sgi] = gn2;
                            proof {
                                let extra: int = if (k6 as int) < r_s {
                                    1
                                } else {
                                    0
                                };
                                if extra == 1 {
                                    crate::axis::lemma_sat16_add_chain(v + q_s, 1);
                                }
                                assert(newv == sat16(v + q_s + extra));
                                assert(g@ =~= g_mid.update(
                                    sgi as int,
                                    spec_with_main(
                                        g_mid[sgi as int],
                                        p.direction,
                                        sat16(
                                            spec_main_of(g_mid[sgi as int], p.direction) + q_s
                                                + extra,
                                        ),
                                    ),
                                ));
                            }
                            k6 = k6 + 1;
                        }
                        proof {
                            assert(spec_distribute(g@, p.direction, gi@, k6 as int, q_s, r_s)
                                == g@);
                            assert(spec_fill(g_before, p.direction, gi@, rem) == g@);
                        }
                        rem = 0;
                    },
                }
            }
            proof {
                assert(spec_fill(g@, p.direction, gi@, rem) == g@);
            }
        }
        let ghost g2 = g@;
        proof {
            if gi_s.len() == 0 {
                assert(spec_fill(g1, p.direction, gi_s, rem0) == g1);
            }
            assert(g2 == spec_fill(g1, p.direction, gi_s, rem0));
        }
        // Recurse into the children's own subtrees.
        let mut i4: usize = 0;
        while i4 < node.children.len()
            invariant
                self.wf(),
                sh == self.shape(),
                sh.stamps_wf(),
                sh.valid(h),
                p == sh.node(h).params,
                node.children@ == sh.node(h).children,
                s == h.slot,
                g@.len() == sh.len(),
                g@.len() == old(g)@.len(),
                i4 <= node.children@.len(),
                forall|k: int|
                    0 <= k < node.children@.len() ==> sh.valid(#[trigger] node.children@[k]),
                spec_grow_kids(sh, g@, h, i4 as int) == spec_grow_kids(sh, g2, h, 0),
                forall|k: int|
                    0 <= k < i4 ==> sh.subtree_ok(#[trigger] node.children@[k]),
            decreases node.children@.len() - i4,
        {
            let c = node.children[i4];
            proof {
                assert(sh.node_at(h.slot as int).children[i4 as int] == c);
                assert(sh.stamp(c.slot as int) < sh.stamp(h.slot as int));
            }
            let ghost g_before = g@;
            let res = self.grow_pass(g, c);
            match res {
                Err(e) => {
                    proof {
                        assert(!sh.subtree_ok(c));
                        assert(!sh.subtree_ok(h));
                    }
                    return Err(e);
                },
                Ok(()) => {},
            }
            proof {
                assert(g@ == spec_grow(sh, g_before, c));
                assert(spec_grow_kids(sh, g@, h, i4 + 1) == spec_grow_kids(
                    sh,
                    g_before,
                    h,
                    i4 as int,
                ));
            }
            i4 = i4 + 1;
        }
        proof {
            assert(spec_grow_kids(sh, g@, h, i4 as int) == g@);
            assert(sh.subtree_ok(h));
            assert(g@ == spec_grow(sh, old(g)@, h));
        }
        Ok(())
    }
}

} // verus!
