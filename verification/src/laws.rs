//! Global properties of the engine, stated and proved once over the
//! models that the public contracts already speak of.

use vstd::prelude::*;

use crate::fit::{lemma_fit_frame, lemma_fit_gather_frame, lemma_fit_kids_frame, spec_fit, spec_fit_finish, spec_fit_fixed, spec_fit_gather, spec_fit_kids};
use crate::grow::{lemma_grow_frame, spec_grow};
use crate::layout::spec_layout;
use crate::model::{GeomNode, Shape};
use crate::params::spec_fixed_len;
use crate::position::lemma_position_frame;
use crate::store::{ElementCtx, EntityHandle};

verus! {

/// Handle-reuse safety: after a node is removed, its handle never works
/// again — not even when a later insertion reuses the freed slot.
///
/// The hypotheses are exactly what [`ElementCtx::remove`] and
/// [`ElementCtx::insert`] ensure: `s1` is `s0` after `remove(a)` succeeded,
/// `s2` is `s1` after an `insert` returned `b`. The fresh handle is a
/// different handle, and `a` stays dead in `s2`: a lookup with it fails
/// distinctly instead of surfacing `b`'s data.
pub proof fn lemma_handle_reuse_safe<W>(
    s0: ElementCtx<W>,
    s1: ElementCtx<W>,
    s2: ElementCtx<W>,
    a: EntityHandle,
    b: EntityHandle,
)
    requires
        s0.valid(a),
        // from `remove(a)`:
        forall|h0: EntityHandle| #[trigger] s1.valid(h0) <==> (s0.valid(h0) && h0 != a),
        s1.shape().len() == s0.shape().len(),
        s1.shape().slots[a.slot as int].generation == s0.shape().slots[a.slot as int].generation
            + 1,
        // from `insert` returning `b`:
        forall|h0: EntityHandle| #[trigger] s2.valid(h0) <==> (s1.valid(h0) || h0 == b),
        s1.shape().len() <= s2.shape().len(),
        forall|s: int|
            0 <= s < s1.shape().len() ==> #[trigger] s2.shape().slots[s].generation
                >= s1.shape().slots[s].generation,
    ensures
        !s2.valid(a),
        s2.valid(b),
        a != b,
{
    assert(s2.valid(b));
    if a == b {
        // both handles would name the same slot with the same generation,
        // but the slot's generation strictly grew when `a` was removed
        assert(s2.shape().slots[a.slot as int].generation >= s1.shape().slots[
            a.slot as int
        ].generation);
        assert(s0.shape().slots[a.slot as int].generation == a.generation);
        assert(s2.shape().slots[b.slot as int].generation == b.generation);
        assert(false);
    }
    assert(!s1.valid(a));
}

/// Fixed-size invariance: a layout run gives a root whose width or height
/// policy is `Fixed(n)` exactly `n` cells on that axis, whatever its
/// children declare.
///
/// For a non-root node the same holds unless the node sits inside a
/// `Fixed` parent that is too small for it, in which case intrinsic sizing
/// clamps the declared length to the parent's inner size.
pub proof fn lemma_fixed_size_invariance(sh: Shape, g: Seq<GeomNode>, h: EntityHandle)
    requires
        sh.stamps_wf(),
        sh.len() <= usize::MAX,
        g.len() == sh.len(),
        sh.valid(h),
    ensures
        sh.node(h).params.width is Fixed ==> spec_layout(sh, g, h)[h.slot as int].width
            == spec_fixed_len(sh.node(h).params.width),
        sh.node(h).params.height is Fixed ==> spec_layout(sh, g, h)[h.slot as int].height
            == spec_fixed_len(sh.node(h).params.height),
{
    let s = h.slot as int;
    let p = sh.node(h).params;
    let gf = spec_fit(sh, g, h);
    let gg = spec_grow(sh, gf, h);
    // the fit pass pins the root's fixed axes ...
    let g1 = spec_fit_fixed(g, s, p);
    let g2 = spec_fit_kids(sh, g1, h, 0);
    lemma_fit_kids_frame(sh, g1, h, 0);
    assert(g2[s] == g1[s]);
    let zero = crate::axis::AxisSizes { main_axis: 0, cross_axis: 0 };
    let inner_w = crate::axis::sat16(g2[s].width - (p.padding.left + p.padding.right));
    let inner_h = crate::axis::sat16(g2[s].height - (p.padding.top + p.padding.bottom));
    lemma_fit_gather_frame(sh, g2, h, inner_w, inner_h, 0, zero);
    let g3 = spec_fit_gather(sh, g2, h, inner_w, inner_h, 0, zero).0;
    assert(g3[s] == g2[s]);
    assert(gf == spec_fit_finish(sh, g2, h));
    // ... the growth pass never touches the node's own slot ...
    lemma_grow_frame(sh, gf, h);
    assert(sh.in_subtree(h, s));
    assert(gg[s] == gf[s]);
    // ... and the position pass never touches sizes.
    lemma_position_frame(sh, gg, h);
    assert(spec_layout(sh, g, h)[s].width == gg[s].width);
    assert(spec_layout(sh, g, h)[s].height == gg[s].height);
}

/// The main-axis extents of the growing children from index `i` on, as a
/// mathematical sum.
pub open spec fn spec_sum_gi(g: Seq<GeomNode>, dir: crate::params::Direction, gi: Seq<usize>, i: int) -> int
    decreases gi.len() - i,
{
    if i < 0 || i >= gi.len() {
        0
    } else {
        crate::grow::spec_main_of(g[gi[i] as int], dir) + spec_sum_gi(g, dir, gi, i + 1)
    }
}

/// A sum of extents bounds each of its entries and is never negative.
proof fn lemma_sum_gi_entry_bound(
    g: Seq<GeomNode>,
    dir: crate::params::Direction,
    gi: Seq<usize>,
    i: int,
    k: int,
)
    requires
        0 <= i <= k < gi.len(),
    ensures
        spec_sum_gi(g, dir, gi, i) >= crate::grow::spec_main_of(g[gi[k] as int], dir),
        spec_sum_gi(g, dir, gi, i) >= 0,
    decreases gi.len() - i,
{
    lemma_sum_gi_nonneg(g, dir, gi, i + 1);
    if i < k {
        lemma_sum_gi_entry_bound(g, dir, gi, i + 1, k);
    }
}

/// A sum of extents is never negative.
proof fn lemma_sum_gi_nonneg(g: Seq<GeomNode>, dir: crate::params::Direction, gi: Seq<usize>, i: int)
    ensures
        spec_sum_gi(g, dir, gi, i) >= 0,
    decreases gi.len() - i,
{
    if 0 <= i < gi.len() {
        lemma_sum_gi_nonneg(g, dir, gi, i + 1);
    }
}

/// The running minimum of the growing children is attained by one of them.
proof fn lemma_min_attained(g: Seq<GeomNode>, dir: crate::params::Direction, gi: Seq<usize>, i: int, cur: u16, j: int)
    requires
        1 <= i,
        0 <= j < i <= gi.len(),
        crate::grow::spec_main_of(g[gi[j] as int], dir) == cur,
    ensures
        exists|k: int|
            0 <= k < gi.len() && crate::grow::spec_main_of(g[gi[k] as int], dir)
                == crate::grow::spec_min_main(g, dir, gi, i, cur),
    decreases gi.len() - i,
{
    if i >= gi.len() {
        assert(crate::grow::spec_main_of(g[gi[j] as int], dir) == crate::grow::spec_min_main(
            g,
            dir,
            gi,
            i,
            cur,
        ));
    } else {
        let v = crate::grow::spec_main_of(g[gi[i] as int], dir);
        if v < cur {
            lemma_min_attained(g, dir, gi, i + 1, v, i);
        } else {
            lemma_min_attained(g, dir, gi, i + 1, cur, j);
        }
    }
}

/// Whatever `spec_next_above` returns lies strictly above `m`.
proof fn lemma_next_above_gt(
    g: Seq<GeomNode>,
    dir: crate::params::Direction,
    gi: Seq<usize>,
    i: int,
    m: u16,
    cur: Option<u16>,
)
    requires
        cur is Some ==> cur->Some_0 > m,
    ensures
        crate::grow::spec_next_above(g, dir, gi, i, m, cur) is Some ==> crate::grow::spec_next_above(
            g,
            dir,
            gi,
            i,
            m,
            cur,
        )->Some_0 > m,
    decreases gi.len() - i,
{
    if 0 <= i < gi.len() {
        let v = crate::grow::spec_main_of(g[gi[i] as int], dir);
        let cur1 = if v > m && (cur is None || v < cur->Some_0) {
            Some(v)
        } else {
            cur
        };
        lemma_next_above_gt(g, dir, gi, i + 1, m, cur1);
    }
}

/// A slot not named by the list from `i` on keeps its geometry through
/// [`crate::grow::spec_raise`].
proof fn lemma_raise_untouched(
    g: Seq<GeomNode>,
    dir: crate::params::Direction,
    gi: Seq<usize>,
    i: int,
    m: u16,
    m2: u16,
    s: int,
)
    requires
        forall|k: int| i <= k < gi.len() ==> (#[trigger] gi[k]) as int != s,
        0 <= s < g.len(),
        forall|k: int| 0 <= k < gi.len() ==> (#[trigger] gi[k]) < g.len(),
    ensures
        crate::grow::spec_raise(g, dir, gi, i, m, m2)[s] == g[s],
        crate::grow::spec_raise(g, dir, gi, i, m, m2).len() == g.len(),
    decreases gi.len() - i,
{
    if 0 <= i < gi.len() {
        let s0 = gi[i] as int;
        let g1 = if crate::grow::spec_main_of(g[s0], dir) == m {
            g.update(s0, crate::grow::spec_with_main(g[s0], dir, m2))
        } else {
            g
        };
        lemma_raise_untouched(g1, dir, gi, i + 1, m, m2, s);
    }
}

/// Raising the children at `m` to `m2` adds exactly `m2 - m` per child at
/// `m` to their summed extent.
proof fn lemma_raise_sum(
    g: Seq<GeomNode>,
    dir: crate::params::Direction,
    gi: Seq<usize>,
    i: int,
    m: u16,
    m2: u16,
)
    requires
        m2 >= m,
        0 <= i,
        forall|k: int| 0 <= k < gi.len() ==> (#[trigger] gi[k]) < g.len(),
        forall|k1: int, k2: int| 0 <= k1 < k2 < gi.len() ==> gi[k1] != gi[k2],
    ensures
        spec_sum_gi(crate::grow::spec_raise(g, dir, gi, i, m, m2), dir, gi, i) == spec_sum_gi(
            g,
            dir,
            gi,
            i,
        ) + crate::grow::spec_count_at(g, dir, gi, i, m) * (m2 - m),
        crate::grow::spec_raise(g, dir, gi, i, m, m2).len() == g.len(),
    decreases gi.len() - i,
{
    if i >= gi.len() {
    } else {
        let s0 = gi[i] as int;
        let hit = crate::grow::spec_main_of(g[s0], dir) == m;
        let g1 = if hit {
            g.update(s0, crate::grow::spec_with_main(g[s0], dir, m2))
        } else {
            g
        };
        lemma_raise_sum(g1, dir, gi, i + 1, m, m2);
        assert(crate::grow::spec_count_at(g1, dir, gi, i + 1, m) == crate::grow::spec_count_at(
            g,
            dir,
            gi,
            i + 1,
            m,
        )) by {
            lemma_count_at_same(g, g1, dir, gi, i + 1);
        }
        let out = crate::grow::spec_raise(g, dir, gi, i, m, m2);
        assert(out == crate::grow::spec_raise(g1, dir, gi, i + 1, m, m2));
        assert(out[s0] == g1[s0]) by {
            lemma_raise_untouched(g1, dir, gi, i + 1, m, m2, s0);
        }
        assert(spec_sum_gi(g1, dir, gi, i + 1) == spec_sum_gi(g, dir, gi, i + 1)) by {
            lemma_sum_gi_same(g, g1, dir, gi, i + 1);
        }
        let cnt_tail = crate::grow::spec_count_at(g, dir, gi, i + 1, m);
        assert(crate::grow::spec_count_at(g, dir, gi, i, m) == (if hit {
            1int
        } else {
            0int
        }) + cnt_tail);
        assert(((if hit {
            1int
        } else {
            0int
        }) + cnt_tail) * (m2 - m) == (if hit {
            (m2 - m) as int
        } else {
            0int
        }) + cnt_tail * (m2 - m)) by (nonlinear_arith);
    }
}

/// Two geometries that agree on the listed slots from `i` on have the same
/// counts at `m` there.
proof fn lemma_count_at_same(
    a: Seq<GeomNode>,
    b: Seq<GeomNode>,
    dir: crate::params::Direction,
    gi: Seq<usize>,
    i: int,
)
    requires
        forall|k: int| i <= k < gi.len() ==> b[(#[trigger] gi[k]) as int] == a[gi[k] as int],
    ensures
        forall|m: u16|
            #[trigger] crate::grow::spec_count_at(b, dir, gi, i, m) == crate::grow::spec_count_at(
                a,
                dir,
                gi,
                i,
                m,
            ),
    decreases gi.len() - i,
{
    if 0 <= i < gi.len() {
        lemma_count_at_same(a, b, dir, gi, i + 1);
        assert forall|m: u16|
            #[trigger] crate::grow::spec_count_at(b, dir, gi, i, m) == crate::grow::spec_count_at(
            a,
            dir,
            gi,
            i,
            m,
        ) by {
            assert(crate::grow::spec_count_at(b, dir, gi, i + 1, m)
                == crate::grow::spec_count_at(a, dir, gi, i + 1, m));
            assert(b[gi[i] as int] == a[gi[i] as int]);
        }
    } else {
        assert forall|m: u16|
            #[trigger] crate::grow::spec_count_at(b, dir, gi, i, m) == crate::grow::spec_count_at(
            a,
            dir,
            gi,
            i,
            m,
        ) by {
            assert(crate::grow::spec_count_at(b, dir, gi, i, m) == 0);
            assert(crate::grow::spec_count_at(a, dir, gi, i, m) == 0);
        }
    }
}

/// Two geometries that agree on the listed slots from `i` on have the same
/// summed extent there.
proof fn lemma_sum_gi_same(
    a: Seq<GeomNode>,
    b: Seq<GeomNode>,
    dir: crate::params::Direction,
    gi: Seq<usize>,
    i: int,
)
    requires
        forall|k: int| i <= k < gi.len() ==> b[(#[trigger] gi[k]) as int] == a[gi[k] as int],
    ensures
        spec_sum_gi(b, dir, gi, i) == spec_sum_gi(a, dir, gi, i),
    decreases gi.len() - i,
{
    if 0 <= i < gi.len() {
        lemma_sum_gi_same(a, b, dir, gi, i + 1);
    }
}


/// A slot not named by the list from `i` on keeps its geometry through
/// [`crate::grow::spec_distribute`].
proof fn lemma_distribute_untouched(
    g: Seq<GeomNode>,
    dir: crate::params::Direction,
    gi: Seq<usize>,
    i: int,
    q: u16,
    r: int,
    s: int,
)
    requires
        forall|k: int| i <= k < gi.len() ==> (#[trigger] gi[k]) as int != s,
        0 <= s < g.len(),
        forall|k: int| 0 <= k < gi.len() ==> (#[trigger] gi[k]) < g.len(),
    ensures
        crate::grow::spec_distribute(g, dir, gi, i, q, r)[s] == g[s],
        crate::grow::spec_distribute(g, dir, gi, i, q, r).len() == g.len(),
    decreases gi.len() - i,
{
    if 0 <= i < gi.len() {
        let s0 = gi[i] as int;
        let extra: int = if i < r {
            1
        } else {
            0
        };
        let g1 = g.update(
            s0,
            crate::grow::spec_with_main(
                g[s0],
                dir,
                crate::axis::sat16(crate::grow::spec_main_of(g[s0], dir) + q + extra),
            ),
        );
        lemma_distribute_untouched(g1, dir, gi, i + 1, q, r, s);
    }
}

/// Dividing evenly adds exactly `q` per child plus one for each of the
/// first `r` positions.
proof fn lemma_distribute_sum(
    g: Seq<GeomNode>,
    dir: crate::params::Direction,
    gi: Seq<usize>,
    i: int,
    q: u16,
    r: int,
)
    requires
        0 <= i <= gi.len(),
        0 <= r <= gi.len(),
        forall|k: int| 0 <= k < gi.len() ==> (#[trigger] gi[k]) < g.len(),
        forall|k1: int, k2: int| 0 <= k1 < k2 < gi.len() ==> gi[k1] != gi[k2],
        forall|k: int|
            i <= k < gi.len() ==> crate::grow::spec_main_of(#[trigger] g[gi[k] as int], dir) + q
                + (if k < r {
                1int
            } else {
                0int
            }) <= 0xffff,
    ensures
        spec_sum_gi(crate::grow::spec_distribute(g, dir, gi, i, q, r), dir, gi, i) == spec_sum_gi(
            g,
            dir,
            gi,
            i,
        ) + q * (gi.len() - i) + (if i < r {
            r - i
        } else {
            0int
        }),
        crate::grow::spec_distribute(g, dir, gi, i, q, r).len() == g.len(),
    decreases gi.len() - i,
{
    if i >= gi.len() {
        assert(q * (gi.len() - i) == 0) by (nonlinear_arith)
            requires
                gi.len() - i == 0,
        ;
    } else {
        let s0 = gi[i] as int;
        let extra: int = if i < r {
            1
        } else {
            0
        };
        let newmain = crate::axis::sat16(crate::grow::spec_main_of(g[s0], dir) + q + extra);
        assert(newmain == crate::grow::spec_main_of(g[s0], dir) + q + extra);
        let g1 = g.update(s0, crate::grow::spec_with_main(g[s0], dir, newmain));
        assert forall|k: int|
            i + 1 <= k < gi.len() implies crate::grow::spec_main_of(
            #[trigger] g1[gi[k] as int],
            dir,
        ) + q + (if k < r {
            1int
        } else {
            0int
        }) <= 0xffff by {
            assert(gi[k] != gi[i]);
        }
        lemma_distribute_sum(g1, dir, gi, i + 1, q, r);
        let out = crate::grow::spec_distribute(g, dir, gi, i, q, r);
        assert(out == crate::grow::spec_distribute(g1, dir, gi, i + 1, q, r));
        assert(out[s0] == g1[s0]) by {
            lemma_distribute_untouched(g1, dir, gi, i + 1, q, r, s0);
        }
        assert(spec_sum_gi(g1, dir, gi, i + 1) == spec_sum_gi(g, dir, gi, i + 1)) by {
            lemma_sum_gi_same(g, g1, dir, gi, i + 1);
        }
        assert(q * (gi.len() - i) == q + q * (gi.len() - (i + 1))) by (nonlinear_arith)
            requires
                i < gi.len(),
        ;
    }
}

/// A slot not named by the list from `i` on keeps its geometry through
/// [`crate::grow::spec_partial`].
proof fn lemma_partial_untouched(
    g: Seq<GeomNode>,
    dir: crate::params::Direction,
    gi: Seq<usize>,
    i: int,
    m: u16,
    q: u16,
    r: int,
    s: int,
)
    requires
        forall|k: int| i <= k < gi.len() ==> (#[trigger] gi[k]) as int != s,
        0 <= s < g.len(),
        forall|k: int| 0 <= k < gi.len() ==> (#[trigger] gi[k]) < g.len(),
    ensures
        crate::grow::spec_partial(g, dir, gi, i, m, q, r)[s] == g[s],
        crate::grow::spec_partial(g, dir, gi, i, m, q, r).len() == g.len(),
    decreases gi.len() - i,
{
    if 0 <= i < gi.len() {
        let s0 = gi[i] as int;
        if crate::grow::spec_main_of(g[s0], dir) == m {
            let extra: int = if r > 0 {
                1
            } else {
                0
            };
            let g1 = g.update(
                s0,
                crate::grow::spec_with_main(g[s0], dir, crate::axis::sat16(m + q + extra)),
            );
            lemma_partial_untouched(g1, dir, gi, i + 1, m, q, r - extra, s);
        } else {
            lemma_partial_untouched(g, dir, gi, i + 1, m, q, r, s);
        }
    }
}

/// Handing leftovers to the children at the minimum adds exactly `q` per
/// such child plus `r` extra cells in total.
proof fn lemma_partial_sum(
    g: Seq<GeomNode>,
    dir: crate::params::Direction,
    gi: Seq<usize>,
    i: int,
    m: u16,
    q: u16,
    r: int,
)
    requires
        0 <= i,
        0 <= r <= crate::grow::spec_count_at(g, dir, gi, i, m),
        forall|k: int| 0 <= k < gi.len() ==> (#[trigger] gi[k]) < g.len(),
        forall|k1: int, k2: int| 0 <= k1 < k2 < gi.len() ==> gi[k1] != gi[k2],
        m + q + (if r > 0 {
            1int
        } else {
            0int
        }) <= 0xffff,
    ensures
        spec_sum_gi(crate::grow::spec_partial(g, dir, gi, i, m, q, r), dir, gi, i) == spec_sum_gi(
            g,
            dir,
            gi,
            i,
        ) + q * crate::grow::spec_count_at(g, dir, gi, i, m) + r,
        crate::grow::spec_partial(g, dir, gi, i, m, q, r).len() == g.len(),
    decreases gi.len() - i,
{
    if i >= gi.len() {
        assert(q * crate::grow::spec_count_at(g, dir, gi, i, m) == 0) by (nonlinear_arith)
            requires
                crate::grow::spec_count_at(g, dir, gi, i, m) == 0,
        ;
    } else {
        let s0 = gi[i] as int;
        let cnt = crate::grow::spec_count_at(g, dir, gi, i, m);
        let cnt_tail = crate::grow::spec_count_at(g, dir, gi, i + 1, m);
        crate::grow::lemma_count_at_nonneg(g, dir, gi, i + 1, m);
        if crate::grow::spec_main_of(g[s0], dir) == m {
            let extra: int = if r > 0 {
                1
            } else {
                0
            };
            let newmain = crate::axis::sat16(m + q + extra);
            assert(newmain == m + q + extra);
            let g1 = g.update(s0, crate::grow::spec_with_main(g[s0], dir, newmain));
            assert(crate::grow::spec_count_at(g1, dir, gi, i + 1, m) == cnt_tail) by {
                lemma_count_at_same(g, g1, dir, gi, i + 1);
            }
            lemma_partial_sum(g1, dir, gi, i + 1, m, q, r - extra);
            let out = crate::grow::spec_partial(g, dir, gi, i, m, q, r);
            assert(out == crate::grow::spec_partial(g1, dir, gi, i + 1, m, q, r - extra));
            assert(out[s0] == g1[s0]) by {
                lemma_partial_untouched(g1, dir, gi, i + 1, m, q, r - extra, s0);
            }
            assert(spec_sum_gi(g1, dir, gi, i + 1) == spec_sum_gi(g, dir, gi, i + 1)) by {
                lemma_sum_gi_same(g, g1, dir, gi, i + 1);
            }
            assert(q * cnt == q + q * cnt_tail) by (nonlinear_arith)
                requires
                    cnt == 1 + cnt_tail,
            ;
        } else {
            lemma_partial_sum(g, dir, gi, i + 1, m, q, r);
            let out = crate::grow::spec_partial(g, dir, gi, i, m, q, r);
            assert(out == crate::grow::spec_partial(g, dir, gi, i + 1, m, q, r));
            assert(out[s0] == g[s0]) by {
                assert(forall|k: int|
                    i + 1 <= k < gi.len() ==> (#[trigger] gi[k]) as int != s0);
                lemma_partial_untouched(g, dir, gi, i + 1, m, q, r, s0);
            }
        }
    }
}

/// Exact growth distribution: the water-filling loop hands out every
/// leftover cell exactly once. With at least one growing child, distinct
/// child slots, and no saturation, the summed main-axis extent of the
/// growing children rises by exactly the leftover: no cell is lost to
/// integer division and none is assigned twice. Together with the frame
/// lemmas — non-growing children and all positions stay untouched — this
/// is why a container with a `Grow` child comes out exactly filled.
pub proof fn lemma_fill_exact(
    g: Seq<GeomNode>,
    dir: crate::params::Direction,
    gi: Seq<usize>,
    rem: u16,
)
    requires
        gi.len() > 0,
        forall|k: int| 0 <= k < gi.len() ==> (#[trigger] gi[k]) < g.len(),
        forall|k1: int, k2: int| 0 <= k1 < k2 < gi.len() ==> gi[k1] != gi[k2],
        spec_sum_gi(g, dir, gi, 0) + rem <= 0xffff,
    ensures
        spec_sum_gi(crate::grow::spec_fill(g, dir, gi, rem), dir, gi, 0) == spec_sum_gi(
            g,
            dir,
            gi,
            0,
        ) + rem,
        crate::grow::spec_fill(g, dir, gi, rem).len() == g.len(),
    decreases rem,
{
    if rem == 0 {
    } else {
        let m0 = crate::grow::spec_main_of(g[gi[0] as int], dir);
        let m = crate::grow::spec_min_main(g, dir, gi, 1, m0);
        let m2o = crate::grow::spec_next_above(g, dir, gi, 0, m, None);
        let cnt = crate::grow::spec_count_at(g, dir, gi, 0, m);
        lemma_min_attained(g, dir, gi, 1, m0, 0);
        let wit = choose|k: int|
            0 <= k < gi.len() && crate::grow::spec_main_of(g[gi[k] as int], dir) == m;
        crate::grow::lemma_count_at_witness(g, dir, gi, 0, m, wit);
        lemma_sum_gi_entry_bound(g, dir, gi, 0, wit);
        let total = spec_sum_gi(g, dir, gi, 0);
        if m2o is Some {
            let m2 = m2o->Some_0;
            lemma_next_above_gt(g, dir, gi, 0, m, None);
            let need = cnt * (m2 - m);
            assert(need >= 1) by (nonlinear_arith)
                requires
                    need == cnt * (m2 - m),
                    cnt >= 1,
                    m2 - m >= 1,
            ;
            if 1 <= need <= rem {
                lemma_raise_sum(g, dir, gi, 0, m, m2);
                let g1 = crate::grow::spec_raise(g, dir, gi, 0, m, m2);
                lemma_fill_exact(g1, dir, gi, (rem - need) as u16);
            } else {
                let q = (rem as int) / cnt;
                let r = (rem as int) % cnt;
                assert(q * cnt + r == rem && 0 <= r < cnt && 0 <= q <= rem) by (nonlinear_arith)
                    requires
                        q == (rem as int) / cnt,
                        r == (rem as int) % cnt,
                        cnt >= 1,
                        rem >= 1,
                ;
                assert(r > 0 ==> q + 1 <= rem) by (nonlinear_arith)
                    requires
                        q * cnt + r == rem,
                        0 <= r < cnt,
                        q >= 0,
                ;
                assert(m + q + (if r > 0 {
                    1int
                } else {
                    0int
                }) <= 0xffff);
                lemma_partial_sum(g, dir, gi, 0, m, q as u16, r);
            }
        } else {
            let q = (rem as int) / (gi.len() as int);
            let r = (rem as int) % (gi.len() as int);
            assert(q * gi.len() + r == rem && 0 <= r < gi.len() && 0 <= q <= rem) by (
            nonlinear_arith)
                requires
                    q == (rem as int) / (gi.len() as int),
                    r == (rem as int) % (gi.len() as int),
                    gi.len() >= 1,
                    rem >= 1,
            ;
            assert(r > 0 ==> q + 1 <= rem) by (nonlinear_arith)
                requires
                    q * gi.len() + r == rem,
                    0 <= r < gi.len(),
                    q >= 0,
            ;
            assert forall|k: int|
                0 <= k < gi.len() implies crate::grow::spec_main_of(
                #[trigger] g[gi[k] as int],
                dir,
            ) + (q as u16) + (if k < r {
                1int
            } else {
                0int
            }) <= 0xffff by {
                lemma_sum_gi_entry_bound(g, dir, gi, 0, k);
            }
            lemma_distribute_sum(g, dir, gi, 0, q as u16, r);
        }
    }
}

/// Two geometries assign the same sizes to slot `s`.
pub open spec fn sizes_agree(a: Seq<GeomNode>, b: Seq<GeomNode>, s: int) -> bool {
    a[s].width == b[s].width && a[s].height == b[s].height
}

/// The sizes the fit pass computes inside a subtree depend only on the
/// tree, never on the geometry it starts from.
proof fn lemma_fit_det(sh: Shape, ga: Seq<GeomNode>, gb: Seq<GeomNode>, h: EntityHandle)
    requires
        sh.stamps_wf(),
        sh.len() <= usize::MAX,
        ga.len() == sh.len(),
        gb.len() == sh.len(),
    ensures
        forall|s: int|
            #![trigger sizes_agree(spec_fit(sh, ga, h), spec_fit(sh, gb, h), s)]
            0 <= s < sh.len() && sh.in_subtree(h, s) ==> sizes_agree(
                spec_fit(sh, ga, h),
                spec_fit(sh, gb, h),
                s,
            ),
    decreases sh.stamp(h.slot as int), 1nat, 0nat,
{
    if !sh.valid(h) {
    } else {
        let s0 = h.slot as int;
        let p = sh.node(h).params;
        let ga1 = spec_fit_fixed(ga, s0, p);
        let gb1 = spec_fit_fixed(gb, s0, p);
        let ga2 = spec_fit_kids(sh, ga1, h, 0);
        let gb2 = spec_fit_kids(sh, gb1, h, 0);
        lemma_fit_kids_det(sh, ga1, gb1, h, 0);
        lemma_fit_kids_frame(sh, ga1, h, 0);
        lemma_fit_kids_frame(sh, gb1, h, 0);
        // the two folded geometries agree on every child slot and on the
        // node's fixed axes
        assert(ga2[s0] == ga1[s0] && gb2[s0] == gb1[s0]);
        let iw_a = crate::axis::sat16(ga2[s0].width - (p.padding.left + p.padding.right));
        let iw_b = crate::axis::sat16(gb2[s0].width - (p.padding.left + p.padding.right));
        let ih_a = crate::axis::sat16(ga2[s0].height - (p.padding.top + p.padding.bottom));
        let ih_b = crate::axis::sat16(gb2[s0].height - (p.padding.top + p.padding.bottom));
        let zero = crate::axis::AxisSizes { main_axis: 0, cross_axis: 0 };
        assert forall|k: int|
            0 <= k < sh.node(h).children.len() && sh.valid(#[trigger] sh.node(h).children[k])
            implies sizes_agree(ga2, gb2, sh.node(h).children[k].slot as int) by {
            let c = sh.node(h).children[k];
            assert(sh.in_subtree(c, c.slot as int));
            assert(exists|k2: int|
                0 <= k2 < sh.node(h).children.len() && {
                    let c2 = #[trigger] sh.node(h).children[k2];
                    if sh.valid(c2) {
                        sh.in_subtree(c2, c.slot as int)
                    } else {
                        false
                    }
                });
            assert(sizes_agree(
                spec_fit_kids(sh, ga1, h, 0),
                spec_fit_kids(sh, gb1, h, 0),
                c.slot as int,
            ));
        }
        lemma_fit_gather_det(sh, ga2, gb2, h, iw_a, iw_b, ih_a, ih_b, 0, zero, zero);
        lemma_fit_gather_frame(sh, ga2, h, iw_a, ih_a, 0, zero);
        lemma_fit_gather_frame(sh, gb2, h, iw_b, ih_b, 0, zero);
        let pa = spec_fit_gather(sh, ga2, h, iw_a, ih_a, 0, zero);
        let pb = spec_fit_gather(sh, gb2, h, iw_b, ih_b, 0, zero);
        assert(pa.1 == pb.1);
        assert(spec_fit(sh, ga, h) == spec_fit_finish(sh, ga2, h));
        assert(spec_fit(sh, gb, h) == spec_fit_finish(sh, gb2, h));
        assert forall|s: int|
            0 <= s < sh.len() && sh.in_subtree(h, s) implies sizes_agree(
            spec_fit(sh, ga, h),
            spec_fit(sh, gb, h),
            s,
        ) by {
            if s == s0 {
            } else {
                assert(sizes_agree(ga2, gb2, s)) by {
                    assert(sizes_agree(
                        spec_fit_kids(sh, ga1, h, 0),
                        spec_fit_kids(sh, gb1, h, 0),
                        s,
                    ));
                }
                assert(sizes_agree(pa.0, pb.0, s));
                assert(pa.0[s] == spec_fit(sh, ga, h)[s] && pb.0[s] == spec_fit(sh, gb, h)[s]);
            }
        }
    }
}

/// The clamp-and-accumulate fold computes the same extents and the same
/// clamped child sizes in two runs whose geometries agree on the child
/// slots.
proof fn lemma_fit_gather_det(
    sh: Shape,
    ga: Seq<GeomNode>,
    gb: Seq<GeomNode>,
    h: EntityHandle,
    iw_a: u16,
    iw_b: u16,
    ih_a: u16,
    ih_b: u16,
    i: int,
    acc_a: crate::axis::AxisSizes,
    acc_b: crate::axis::AxisSizes,
)
    requires
        sh.stamps_wf(),
        sh.valid(h),
        sh.len() <= usize::MAX,
        ga.len() == sh.len(),
        gb.len() == sh.len(),
        acc_a == acc_b,
        sh.node(h).params.width is Fixed ==> iw_a == iw_b,
        sh.node(h).params.height is Fixed ==> ih_a == ih_b,
        forall|k: int|
            i <= k < sh.node(h).children.len() && sh.valid(#[trigger] sh.node(h).children[k])
                ==> sizes_agree(ga, gb, sh.node(h).children[k].slot as int),
    ensures
        spec_fit_gather(sh, ga, h, iw_a, ih_a, i, acc_a).1 == spec_fit_gather(
            sh,
            gb,
            h,
            iw_b,
            ih_b,
            i,
            acc_b,
        ).1,
        forall|s: int|
            #![trigger sizes_agree(
                spec_fit_gather(sh, ga, h, iw_a, ih_a, i, acc_a).0,
                spec_fit_gather(sh, gb, h, iw_b, ih_b, i, acc_b).0,
                s,
            )]
            0 <= s < sh.len() && sizes_agree(ga, gb, s) ==> sizes_agree(
                spec_fit_gather(sh, ga, h, iw_a, ih_a, i, acc_a).0,
                spec_fit_gather(sh, gb, h, iw_b, ih_b, i, acc_b).0,
                s,
            ),
    decreases sh.node(h).children.len() - i,
{
    let cs = sh.node(h).children;
    if i < 0 || i >= cs.len() {
    } else {
        let c = cs[i];
        if !sh.valid(c) {
            lemma_fit_gather_det(sh, ga, gb, h, iw_a, iw_b, ih_a, ih_b, i + 1, acc_a, acc_b);
            assert(spec_fit_gather(sh, ga, h, iw_a, ih_a, i, acc_a) == spec_fit_gather(
                sh,
                ga,
                h,
                iw_a,
                ih_a,
                i + 1,
                acc_a,
            ));
            assert(spec_fit_gather(sh, gb, h, iw_b, ih_b, i, acc_b) == spec_fit_gather(
                sh,
                gb,
                h,
                iw_b,
                ih_b,
                i + 1,
                acc_b,
            ));
        } else {
            let p = sh.node(h).params;
            let cp = sh.node(c).params;
            let gna = ga[c.slot as int];
            let gnb = gb[c.slot as int];
            assert(sizes_agree(ga, gb, c.slot as int));
            let wa = if p.width is Fixed && cp.width is Fixed && gna.width > iw_a {
                iw_a
            } else {
                gna.width
            };
            let wb = if p.width is Fixed && cp.width is Fixed && gnb.width > iw_b {
                iw_b
            } else {
                gnb.width
            };
            let ha = if p.height is Fixed && cp.height is Fixed && gna.height > ih_a {
                ih_a
            } else {
                gna.height
            };
            let hb = if p.height is Fixed && cp.height is Fixed && gnb.height > ih_b {
                ih_b
            } else {
                gnb.height
            };
            assert(wa == wb && ha == hb);
            let ga1 = ga.update(
                c.slot as int,
                GeomNode { width: wa, height: ha, x: gna.x, y: gna.y },
            );
            let gb1 = gb.update(
                c.slot as int,
                GeomNode { width: wb, height: hb, x: gnb.x, y: gnb.y },
            );
            let aa = crate::axis::spec_axify(p.direction, wa, ha);
            let acc1a = crate::axis::AxisSizes {
                main_axis: crate::axis::sat16(acc_a.main_axis + aa.main_axis),
                cross_axis: if acc_a.cross_axis >= aa.cross_axis {
                    acc_a.cross_axis
                } else {
                    aa.cross_axis
                },
            };
            assert forall|k: int|
                i + 1 <= k < cs.len() && sh.valid(#[trigger] cs[k]) implies sizes_agree(
                ga1,
                gb1,
                cs[k].slot as int,
            ) by {
                if cs[k].slot == c.slot {
                } else {
                    assert(sizes_agree(ga, gb, cs[k].slot as int));
                }
            }
            lemma_fit_gather_det(sh, ga1, gb1, h, iw_a, iw_b, ih_a, ih_b, i + 1, acc1a, acc1a);
            assert(spec_fit_gather(sh, ga, h, iw_a, ih_a, i, acc_a) == spec_fit_gather(
                sh,
                ga1,
                h,
                iw_a,
                ih_a,
                i + 1,
                acc1a,
            ));
            assert(spec_fit_gather(sh, gb, h, iw_b, ih_b, i, acc_b) == spec_fit_gather(
                sh,
                gb1,
                h,
                iw_b,
                ih_b,
                i + 1,
                acc1a,
            ));
            assert forall|s: int|
                0 <= s < sh.len() && sizes_agree(ga, gb, s) implies sizes_agree(
                spec_fit_gather(sh, ga, h, iw_a, ih_a, i, acc_a).0,
                spec_fit_gather(sh, gb, h, iw_b, ih_b, i, acc_b).0,
                s,
            ) by {
                assert(sizes_agree(ga1, gb1, s)) by {
                    if s != c.slot as int {
                        assert(ga1[s] == ga[s] && gb1[s] == gb[s]);
                    }
                }
                assert(sizes_agree(
                    spec_fit_gather(sh, ga1, h, iw_a, ih_a, i + 1, acc1a).0,
                    spec_fit_gather(sh, gb1, h, iw_b, ih_b, i + 1, acc1a).0,
                    s,
                ));
            }
        }
    }
}

/// [`lemma_fit_det`] folded over the children: the fold makes the two
/// geometries agree on every slot of the children's subtrees, and keeps
/// any size agreement they already had.
proof fn lemma_fit_kids_det(sh: Shape, ga: Seq<GeomNode>, gb: Seq<GeomNode>, h: EntityHandle, i: int)
    requires
        sh.stamps_wf(),
        sh.len() <= usize::MAX,
        ga.len() == sh.len(),
        gb.len() == sh.len(),
        sh.valid(h),
        0 <= i,
    ensures
        forall|s: int|
            #![trigger sizes_agree(spec_fit_kids(sh, ga, h, i), spec_fit_kids(sh, gb, h, i), s)]
            0 <= s < sh.len() && (sizes_agree(ga, gb, s) || exists|k: int|
                i <= k < sh.node(h).children.len() && {
                    let c = #[trigger] sh.node(h).children[k];
                    if sh.valid(c) {
                        sh.in_subtree(c, s)
                    } else {
                        false
                    }
                }) ==> sizes_agree(
                spec_fit_kids(sh, ga, h, i),
                spec_fit_kids(sh, gb, h, i),
                s,
            ),
    decreases sh.stamp(h.slot as int), 0nat, sh.node(h).children.len() - i,
{
    let cs = sh.node(h).children;
    if i >= cs.len() {
    } else {
        let c = cs[i];
        let ga1 = if sh.valid(c) {
            spec_fit(sh, ga, c)
        } else {
            ga
        };
        let gb1 = if sh.valid(c) {
            spec_fit(sh, gb, c)
        } else {
            gb
        };
        if sh.valid(c) {
            lemma_fit_det(sh, ga, gb, c);
            lemma_fit_frame(sh, ga, c);
            lemma_fit_frame(sh, gb, c);
        }
        lemma_fit_kids_det(sh, ga1, gb1, h, i + 1);
        assert(spec_fit_kids(sh, ga, h, i) == spec_fit_kids(sh, ga1, h, i + 1));
        assert(spec_fit_kids(sh, gb, h, i) == spec_fit_kids(sh, gb1, h, i + 1));
        assert forall|s: int|
            0 <= s < sh.len() && (sizes_agree(ga, gb, s) || exists|k: int|
                i <= k < cs.len() && {
                    let ck = #[trigger] cs[k];
                    if sh.valid(ck) {
                        sh.in_subtree(ck, s)
                    } else {
                        false
                    }
                }) implies sizes_agree(
            spec_fit_kids(sh, ga, h, i),
            spec_fit_kids(sh, gb, h, i),
            s,
        ) by {
            let agreed_before = sizes_agree(ga, gb, s);
            if sh.valid(c) && sh.in_subtree(c, s) {
                // freshly recomputed identically in both runs
                assert(sizes_agree(ga1, gb1, s));
            } else if agreed_before {
                // untouched by this child's pass in both runs
                if sh.valid(c) {
                    assert(ga1[s] == ga[s] && gb1[s] == gb[s]);
                }
                assert(sizes_agree(ga1, gb1, s));
            } else {
                let k = choose|k: int|
                    i <= k < cs.len() && {
                        let ck = #[trigger] cs[k];
                        if sh.valid(ck) {
                            sh.in_subtree(ck, s)
                        } else {
                            false
                        }
                    };
                assert(k > i);
                assert(exists|k2: int|
                    i + 1 <= k2 < cs.len() && {
                        let ck = #[trigger] cs[k2];
                        if sh.valid(ck) {
                            sh.in_subtree(ck, s)
                        } else {
                            false
                        }
                    });
            }
        }
    }
}

/// The fold scans read only main-axis extents: two geometries with equal
/// extents on the list scan alike.
proof fn lemma_min_main_same(
    ga: Seq<GeomNode>,
    gb: Seq<GeomNode>,
    dir: crate::params::Direction,
    gi: Seq<usize>,
    i: int,
    cur: u16,
)
    requires
        forall|k: int|
            i <= k < gi.len() ==> crate::grow::spec_main_of(ga[(#[trigger] gi[k]) as int], dir)
                == crate::grow::spec_main_of(gb[gi[k] as int], dir),
    ensures
        crate::grow::spec_min_main(ga, dir, gi, i, cur) == crate::grow::spec_min_main(
            gb,
            dir,
            gi,
            i,
            cur,
        ),
    decreases gi.len() - i,
{
    if 0 <= i < gi.len() {
        let v = crate::grow::spec_main_of(ga[gi[i] as int], dir);
        lemma_min_main_same(ga, gb, dir, gi, i + 1, if v < cur {
            v
        } else {
            cur
        });
    }
}

/// See [`lemma_min_main_same`], for the next-size-up scan.
proof fn lemma_next_above_same(
    ga: Seq<GeomNode>,
    gb: Seq<GeomNode>,
    dir: crate::params::Direction,
    gi: Seq<usize>,
    i: int,
    m: u16,
    cur: Option<u16>,
)
    requires
        forall|k: int|
            i <= k < gi.len() ==> crate::grow::spec_main_of(ga[(#[trigger] gi[k]) as int], dir)
                == crate::grow::spec_main_of(gb[gi[k] as int], dir),
    ensures
        crate::grow::spec_next_above(ga, dir, gi, i, m, cur) == crate::grow::spec_next_above(
            gb,
            dir,
            gi,
            i,
            m,
            cur,
        ),
    decreases gi.len() - i,
{
    if 0 <= i < gi.len() {
        let v = crate::grow::spec_main_of(ga[gi[i] as int], dir);
        let cur1 = if v > m && (cur is None || v < cur->Some_0) {
            Some(v)
        } else {
            cur
        };
        lemma_next_above_same(ga, gb, dir, gi, i + 1, m, cur1);
    }
}

/// See [`lemma_min_main_same`], for the count at a level.
proof fn lemma_count_main_same(
    ga: Seq<GeomNode>,
    gb: Seq<GeomNode>,
    dir: crate::params::Direction,
    gi: Seq<usize>,
    i: int,
    m: u16,
)
    requires
        forall|k: int|
            i <= k < gi.len() ==> crate::grow::spec_main_of(ga[(#[trigger] gi[k]) as int], dir)
                == crate::grow::spec_main_of(gb[gi[k] as int], dir),
    ensures
        crate::grow::spec_count_at(ga, dir, gi, i, m) == crate::grow::spec_count_at(
            gb,
            dir,
            gi,
            i,
            m,
        ),
    decreases gi.len() - i,
{
    if 0 <= i < gi.len() {
        lemma_count_main_same(ga, gb, dir, gi, i + 1, m);
    }
}

/// The filling steps write the same extents into both runs and keep any
/// pointwise size agreement. The shared hypothesis: the two runs agree on
/// the sizes of every listed slot.
pub open spec fn gi_sizes_agree(
    ga: Seq<GeomNode>,
    gb: Seq<GeomNode>,
    gi: Seq<usize>,
    i: int,
) -> bool {
    forall|k: int| i <= k < gi.len() ==> sizes_agree(ga, gb, (#[trigger] gi[k]) as int)
}

/// [`crate::grow::spec_raise`] writes the same sizes in two agreeing runs.
proof fn lemma_raise_det(
    ga: Seq<GeomNode>,
    gb: Seq<GeomNode>,
    dir: crate::params::Direction,
    gi: Seq<usize>,
    i: int,
    m: u16,
    m2: u16,
)
    requires
        ga.len() == gb.len(),
        forall|k: int| 0 <= k < gi.len() ==> (#[trigger] gi[k]) < ga.len(),
        gi_sizes_agree(ga, gb, gi, i),
    ensures
        forall|s: int|
            #![trigger sizes_agree(
                crate::grow::spec_raise(ga, dir, gi, i, m, m2),
                crate::grow::spec_raise(gb, dir, gi, i, m, m2),
                s,
            )]
            0 <= s < ga.len() && sizes_agree(ga, gb, s) ==> sizes_agree(
                crate::grow::spec_raise(ga, dir, gi, i, m, m2),
                crate::grow::spec_raise(gb, dir, gi, i, m, m2),
                s,
            ),
    decreases gi.len() - i,
{
    if 0 <= i < gi.len() {
        let s0 = gi[i] as int;
        assert(sizes_agree(ga, gb, s0));
        let hit = crate::grow::spec_main_of(ga[s0], dir) == m;
        let ga1 = if hit {
            ga.update(s0, crate::grow::spec_with_main(ga[s0], dir, m2))
        } else {
            ga
        };
        let gb1 = if hit {
            gb.update(s0, crate::grow::spec_with_main(gb[s0], dir, m2))
        } else {
            gb
        };
        assert(gi_sizes_agree(ga1, gb1, gi, i + 1)) by {
            assert forall|k: int|
                i + 1 <= k < gi.len() implies sizes_agree(ga1, gb1, (#[trigger] gi[k]) as int) by {
                if gi[k] as int != s0 {
                    assert(sizes_agree(ga, gb, gi[k] as int));
                }
            }
        }
        lemma_raise_det(ga1, gb1, dir, gi, i + 1, m, m2);
        assert forall|s: int|
            0 <= s < ga.len() && sizes_agree(ga, gb, s) implies sizes_agree(
            crate::grow::spec_raise(ga, dir, gi, i, m, m2),
            crate::grow::spec_raise(gb, dir, gi, i, m, m2),
            s,
        ) by {
            assert(sizes_agree(ga1, gb1, s)) by {
                if s != s0 {
                    assert(ga1[s] == ga[s] && gb1[s] == gb[s]);
                }
            }
            assert(sizes_agree(
                crate::grow::spec_raise(ga1, dir, gi, i + 1, m, m2),
                crate::grow::spec_raise(gb1, dir, gi, i + 1, m, m2),
                s,
            ));
        }
    }
}

/// [`crate::grow::spec_distribute`] writes the same sizes in two agreeing
/// runs.
proof fn lemma_distribute_det(
    ga: Seq<GeomNode>,
    gb: Seq<GeomNode>,
    dir: crate::params::Direction,
    gi: Seq<usize>,
    i: int,
    q: u16,
    r: int,
)
    requires
        ga.len() == gb.len(),
        forall|k: int| 0 <= k < gi.len() ==> (#[trigger] gi[k]) < ga.len(),
        gi_sizes_agree(ga, gb, gi, i),
    ensures
        forall|s: int|
            #![trigger sizes_agree(
                crate::grow::spec_distribute(ga, dir, gi, i, q, r),
                crate::grow::spec_distribute(gb, dir, gi, i, q, r),
                s,
            )]
            0 <= s < ga.len() && sizes_agree(ga, gb, s) ==> sizes_agree(
                crate::grow::spec_distribute(ga, dir, gi, i, q, r),
                crate::grow::spec_distribute(gb, dir, gi, i, q, r),
                s,
            ),
    decreases gi.len() - i,
{
    if 0 <= i < gi.len() {
        let s0 = gi[i] as int;
        assert(sizes_agree(ga, gb, s0));
        let extra: int = if i < r {
            1
        } else {
            0
        };
        let va = crate::axis::sat16(crate::grow::spec_main_of(ga[s0], dir) + q + extra);
        let ga1 = ga.update(s0, crate::grow::spec_with_main(ga[s0], dir, va));
        let gb1 = gb.update(s0, crate::grow::spec_with_main(gb[s0], dir, va));
        assert(gi_sizes_agree(ga1, gb1, gi, i + 1)) by {
            assert forall|k: int|
                i + 1 <= k < gi.len() implies sizes_agree(ga1, gb1, (#[trigger] gi[k]) as int) by {
                if gi[k] as int != s0 {
                    assert(sizes_agree(ga, gb, gi[k] as int));
                }
            }
        }
        lemma_distribute_det(ga1, gb1, dir, gi, i + 1, q, r);
        assert forall|s: int|
            0 <= s < ga.len() && sizes_agree(ga, gb, s) implies sizes_agree(
            crate::grow::spec_distribute(ga, dir, gi, i, q, r),
            crate::grow::spec_distribute(gb, dir, gi, i, q, r),
            s,
        ) by {
            assert(sizes_agree(ga1, gb1, s)) by {
                if s != s0 {
                    assert(ga1[s] == ga[s] && gb1[s] == gb[s]);
                }
            }
            assert(sizes_agree(
                crate::grow::spec_distribute(ga1, dir, gi, i + 1, q, r),
                crate::grow::spec_distribute(gb1, dir, gi, i + 1, q, r),
                s,
            ));
        }
    }
}

/// [`crate::grow::spec_partial`] writes the same sizes in two agreeing
/// runs.
proof fn lemma_partial_det(
    ga: Seq<GeomNode>,
    gb: Seq<GeomNode>,
    dir: crate::params::Direction,
    gi: Seq<usize>,
    i: int,
    m: u16,
    q: u16,
    r: int,
)
    requires
        ga.len() == gb.len(),
        forall|k: int| 0 <= k < gi.len() ==> (#[trigger] gi[k]) < ga.len(),
        gi_sizes_agree(ga, gb, gi, i),
    ensures
        forall|s: int|
            #![trigger sizes_agree(
                crate::grow::spec_partial(ga, dir, gi, i, m, q, r),
                crate::grow::spec_partial(gb, dir, gi, i, m, q, r),
                s,
            )]
            0 <= s < ga.len() && sizes_agree(ga, gb, s) ==> sizes_agree(
                crate::grow::spec_partial(ga, dir, gi, i, m, q, r),
                crate::grow::spec_partial(gb, dir, gi, i, m, q, r),
                s,
            ),
    decreases gi.len() - i,
{
    if 0 <= i < gi.len() {
        let s0 = gi[i] as int;
        assert(sizes_agree(ga, gb, s0));
        if crate::grow::spec_main_of(ga[s0], dir) == m {
            let extra: int = if r > 0 {
                1
            } else {
                0
            };
            let va = crate::axis::sat16(m + q + extra);
            let ga1 = ga.update(s0, crate::grow::spec_with_main(ga[s0], dir, va));
            let gb1 = gb.update(s0, crate::grow::spec_with_main(gb[s0], dir, va));
            assert(gi_sizes_agree(ga1, gb1, gi, i + 1)) by {
                assert forall|k: int|
                    i + 1 <= k < gi.len() implies sizes_agree(
                    ga1,
                    gb1,
                    (#[trigger] gi[k]) as int,
                ) by {
                    if gi[k] as int != s0 {
                        assert(sizes_agree(ga, gb, gi[k] as int));
                    }
                }
            }
            lemma_partial_det(ga1, gb1, dir, gi, i + 1, m, q, r - extra);
            assert forall|s: int|
                0 <= s < ga.len() && sizes_agree(ga, gb, s) implies sizes_agree(
                crate::grow::spec_partial(ga, dir, gi, i, m, q, r),
                crate::grow::spec_partial(gb, dir, gi, i, m, q, r),
                s,
            ) by {
                assert(sizes_agree(ga1, gb1, s)) by {
                    if s != s0 {
                        assert(ga1[s] == ga[s] && gb1[s] == gb[s]);
                    }
                }
                assert(sizes_agree(
                    crate::grow::spec_partial(ga1, dir, gi, i + 1, m, q, r - extra),
                    crate::grow::spec_partial(gb1, dir, gi, i + 1, m, q, r - extra),
                    s,
                ));
            }
        } else {
            lemma_partial_det(ga, gb, dir, gi, i + 1, m, q, r);
            assert forall|s: int|
                0 <= s < ga.len() && sizes_agree(ga, gb, s) implies sizes_agree(
                crate::grow::spec_partial(ga, dir, gi, i, m, q, r),
                crate::grow::spec_partial(gb, dir, gi, i, m, q, r),
                s,
            ) by {
                assert(sizes_agree(
                    crate::grow::spec_partial(ga, dir, gi, i + 1, m, q, r),
                    crate::grow::spec_partial(gb, dir, gi, i + 1, m, q, r),
                    s,
                ));
            }
        }
    }
}

/// The whole water-filling loop writes the same sizes in two agreeing
/// runs.
proof fn lemma_fill_det(
    ga: Seq<GeomNode>,
    gb: Seq<GeomNode>,
    dir: crate::params::Direction,
    gi: Seq<usize>,
    rem: u16,
)
    requires
        ga.len() == gb.len(),
        forall|k: int| 0 <= k < gi.len() ==> (#[trigger] gi[k]) < ga.len(),
        gi_sizes_agree(ga, gb, gi, 0),
    ensures
        forall|s: int|
            #![trigger sizes_agree(
                crate::grow::spec_fill(ga, dir, gi, rem),
                crate::grow::spec_fill(gb, dir, gi, rem),
                s,
            )]
            0 <= s < ga.len() && sizes_agree(ga, gb, s) ==> sizes_agree(
                crate::grow::spec_fill(ga, dir, gi, rem),
                crate::grow::spec_fill(gb, dir, gi, rem),
                s,
            ),
    decreases rem,
{
    if rem == 0 || gi.len() == 0 {
    } else {
        assert forall|k: int|
            0 <= k < gi.len() implies crate::grow::spec_main_of(
            ga[(#[trigger] gi[k]) as int],
            dir,
        ) == crate::grow::spec_main_of(gb[gi[k] as int], dir) by {
            assert(sizes_agree(ga, gb, gi[k] as int));
        }
        let m0a = crate::grow::spec_main_of(ga[gi[0] as int], dir);
        let m = crate::grow::spec_min_main(ga, dir, gi, 1, m0a);
        lemma_min_main_same(ga, gb, dir, gi, 1, m0a);
        let m2o = crate::grow::spec_next_above(ga, dir, gi, 0, m, None);
        lemma_next_above_same(ga, gb, dir, gi, 0, m, None);
        let cnt = crate::grow::spec_count_at(ga, dir, gi, 0, m);
        lemma_count_main_same(ga, gb, dir, gi, 0, m);
        if m2o is Some {
            let m2 = m2o->Some_0;
            let need = cnt * (m2 - m);
            if cnt <= 0 {
            } else if 1 <= need <= rem {
                let ga1 = crate::grow::spec_raise(ga, dir, gi, 0, m, m2);
                let gb1 = crate::grow::spec_raise(gb, dir, gi, 0, m, m2);
                lemma_raise_det(ga, gb, dir, gi, 0, m, m2);
                crate::grow::lemma_raise_frame(ga, dir, gi, 0, m, m2);
                crate::grow::lemma_raise_frame(gb, dir, gi, 0, m, m2);
                assert(gi_sizes_agree(ga1, gb1, gi, 0)) by {
                    assert forall|k: int|
                        0 <= k < gi.len() implies sizes_agree(
                        ga1,
                        gb1,
                        (#[trigger] gi[k]) as int,
                    ) by {
                        assert(sizes_agree(ga, gb, gi[k] as int));
                    }
                }
                lemma_fill_det(ga1, gb1, dir, gi, (rem - need) as u16);
                assert forall|s: int|
                    0 <= s < ga.len() && sizes_agree(ga, gb, s) implies sizes_agree(
                    crate::grow::spec_fill(ga, dir, gi, rem),
                    crate::grow::spec_fill(gb, dir, gi, rem),
                    s,
                ) by {
                    assert(sizes_agree(ga1, gb1, s));
                    assert(sizes_agree(
                        crate::grow::spec_fill(ga1, dir, gi, (rem - need) as u16),
                        crate::grow::spec_fill(gb1, dir, gi, (rem - need) as u16),
                        s,
                    ));
                }
            } else {
                lemma_partial_det(
                    ga,
                    gb,
                    dir,
                    gi,
                    0,
                    m,
                    ((rem as int) / cnt) as u16,
                    (rem as int) % cnt,
                );
            }
        } else {
            lemma_distribute_det(
                ga,
                gb,
                dir,
                gi,
                0,
                ((rem as int) / (gi.len() as int)) as u16,
                (rem as int) % (gi.len() as int),
            );
        }
    }
}

/// The summed extent of the children reads sizes only.
proof fn lemma_sum_main_det(
    sh: Shape,
    ga: Seq<GeomNode>,
    gb: Seq<GeomNode>,
    h: EntityHandle,
    i: int,
    acc: u16,
)
    requires
        sh.valid(h),
        forall|k: int|
            i <= k < sh.node(h).children.len() && sh.valid(#[trigger] sh.node(h).children[k])
                ==> sizes_agree(ga, gb, sh.node(h).children[k].slot as int),
    ensures
        crate::grow::spec_sum_main(sh, ga, h, i, acc) == crate::grow::spec_sum_main(
            sh,
            gb,
            h,
            i,
            acc,
        ),
    decreases sh.node(h).children.len() - i,
{
    let cs = sh.node(h).children;
    if i < 0 || i >= cs.len() {
    } else {
        let c = cs[i];
        let acc1 = if sh.valid(c) {
            crate::axis::sat16(
                acc + crate::grow::spec_main_of(ga[c.slot as int], sh.node(h).params.direction),
            )
        } else {
            acc
        };
        lemma_sum_main_det(sh, ga, gb, h, i + 1, acc1);
    }
}

/// The cross-axis fold writes the same sizes in two agreeing runs.
proof fn lemma_grow_cross_det(
    sh: Shape,
    ga: Seq<GeomNode>,
    gb: Seq<GeomNode>,
    h: EntityHandle,
    ic: u16,
    i: int,
)
    requires
        sh.valid(h),
        ga.len() == gb.len(),
        ga.len() == sh.len(),
        forall|k: int|
            i <= k < sh.node(h).children.len() && sh.valid(#[trigger] sh.node(h).children[k])
                ==> sizes_agree(ga, gb, sh.node(h).children[k].slot as int),
    ensures
        forall|s: int|
            #![trigger sizes_agree(
                crate::grow::spec_grow_cross(sh, ga, h, ic, i),
                crate::grow::spec_grow_cross(sh, gb, h, ic, i),
                s,
            )]
            0 <= s < ga.len() && sizes_agree(ga, gb, s) ==> sizes_agree(
                crate::grow::spec_grow_cross(sh, ga, h, ic, i),
                crate::grow::spec_grow_cross(sh, gb, h, ic, i),
                s,
            ),
    decreases sh.node(h).children.len() - i,
{
    let cs = sh.node(h).children;
    if i < 0 || i >= cs.len() {
    } else {
        let c = cs[i];
        let dir = sh.node(h).params.direction;
        let hit = sh.valid(c) && crate::params::spec_cross_size(
            dir,
            sh.node(c).params.width,
            sh.node(c).params.height,
        ) is Grow;
        let ga1 = if hit {
            ga.update(c.slot as int, crate::grow::spec_with_cross(ga[c.slot as int], dir, ic))
        } else {
            ga
        };
        let gb1 = if hit {
            gb.update(c.slot as int, crate::grow::spec_with_cross(gb[c.slot as int], dir, ic))
        } else {
            gb
        };
        if hit {
            assert(sizes_agree(ga, gb, c.slot as int));
        }
        assert forall|k: int|
            i + 1 <= k < cs.len() && sh.valid(#[trigger] cs[k]) implies sizes_agree(
            ga1,
            gb1,
            cs[k].slot as int,
        ) by {
            if hit && cs[k].slot == c.slot {
            } else {
                assert(sizes_agree(ga, gb, cs[k].slot as int));
            }
        }
        lemma_grow_cross_det(sh, ga1, gb1, h, ic, i + 1);
        assert(crate::grow::spec_grow_cross(sh, ga, h, ic, i) == crate::grow::spec_grow_cross(
            sh,
            ga1,
            h,
            ic,
            i + 1,
        ));
        assert(crate::grow::spec_grow_cross(sh, gb, h, ic, i) == crate::grow::spec_grow_cross(
            sh,
            gb1,
            h,
            ic,
            i + 1,
        ));
        assert forall|s: int|
            0 <= s < ga.len() && sizes_agree(ga, gb, s) implies sizes_agree(
            crate::grow::spec_grow_cross(sh, ga, h, ic, i),
            crate::grow::spec_grow_cross(sh, gb, h, ic, i),
            s,
        ) by {
            assert(sizes_agree(ga1, gb1, s)) by {
                if !(hit && s == c.slot as int) {
                    if hit {
                        assert(ga1[s] == ga[s] && gb1[s] == gb[s]);
                    }
                }
            }
            assert(sizes_agree(
                crate::grow::spec_grow_cross(sh, ga1, h, ic, i + 1),
                crate::grow::spec_grow_cross(sh, gb1, h, ic, i + 1),
                s,
            ));
        }
    }
}

/// The sizes the growth pass computes inside a subtree agree between two
/// runs whose starting geometries agree in sizes on that subtree.
proof fn lemma_grow_det(sh: Shape, ga: Seq<GeomNode>, gb: Seq<GeomNode>, h: EntityHandle)
    requires
        sh.stamps_wf(),
        sh.len() <= usize::MAX,
        ga.len() == sh.len(),
        gb.len() == sh.len(),
        forall|s: int| 0 <= s < sh.len() && sh.in_subtree(h, s) ==> sizes_agree(ga, gb, s),
    ensures
        forall|s: int|
            #![trigger sizes_agree(spec_grow(sh, ga, h), spec_grow(sh, gb, h), s)]
            0 <= s < sh.len() && sizes_agree(ga, gb, s) ==> sizes_agree(
                spec_grow(sh, ga, h),
                spec_grow(sh, gb, h),
                s,
            ),
    decreases sh.stamp(h.slot as int), 1nat, 0nat,
{
    if !sh.valid(h) {
    } else {
        let p = sh.node(h).params;
        let s0 = h.slot as int;
        assert(sh.in_subtree(h, s0));
        assert(sizes_agree(ga, gb, s0));
        assert(crate::grow::spec_grow_inner(sh, ga, h) == crate::grow::spec_grow_inner(sh, gb, h));
        let inner = crate::grow::spec_grow_inner(sh, ga, h);
        assert forall|k: int|
            0 <= k < sh.node(h).children.len() && sh.valid(#[trigger] sh.node(h).children[k])
            implies sizes_agree(ga, gb, sh.node(h).children[k].slot as int) by {
            let c = sh.node(h).children[k];
            assert(sh.in_subtree(c, c.slot as int));
            assert(sh.in_subtree(h, c.slot as int));
        }
        lemma_sum_main_det(sh, ga, gb, h, 0, 0);
        let used = crate::grow::spec_sum_main(sh, ga, h, 0, 0);
        let gaps = crate::axis::spec_gap_total(p.gap, sh.node(h).children.len());
        let rem0 = crate::axis::sat16(inner.main_axis - crate::axis::sat16(used + gaps));
        lemma_grow_cross_det(sh, ga, gb, h, inner.cross_axis, 0);
        let ga1 = crate::grow::spec_grow_cross(sh, ga, h, inner.cross_axis, 0);
        let gb1 = crate::grow::spec_grow_cross(sh, gb, h, inner.cross_axis, 0);
        crate::grow::lemma_grow_cross_frame(sh, ga, h, inner.cross_axis, 0);
        crate::grow::lemma_grow_cross_frame(sh, gb, h, inner.cross_axis, 0);
        let gi = crate::grow::spec_grow_list(sh, h, 0);
        crate::grow::lemma_grow_list_props(sh, h, 0);
        assert(gi_sizes_agree(ga1, gb1, gi, 0)) by {
            assert forall|k: int|
                0 <= k < gi.len() implies sizes_agree(ga1, gb1, (#[trigger] gi[k]) as int) by {
                assert(sh.in_subtree(h, gi[k] as int));
                assert(sizes_agree(ga, gb, gi[k] as int));
            }
        }
        lemma_fill_det(ga1, gb1, p.direction, gi, rem0);
        let ga2 = crate::grow::spec_fill(ga1, p.direction, gi, rem0);
        let gb2 = crate::grow::spec_fill(gb1, p.direction, gi, rem0);
        crate::grow::lemma_fill_frame(ga1, p.direction, gi, rem0);
        crate::grow::lemma_fill_frame(gb1, p.direction, gi, rem0);
        lemma_grow_kids_det(sh, ga2, gb2, h, 0);
        assert(spec_grow(sh, ga, h) == crate::grow::spec_grow_kids(sh, ga2, h, 0));
        assert(spec_grow(sh, gb, h) == crate::grow::spec_grow_kids(sh, gb2, h, 0));
        assert forall|s: int|
            0 <= s < sh.len() && sizes_agree(ga, gb, s) implies sizes_agree(
            spec_grow(sh, ga, h),
            spec_grow(sh, gb, h),
            s,
        ) by {
            assert(sizes_agree(ga1, gb1, s));
            assert(sizes_agree(ga2, gb2, s));
            assert(sizes_agree(
                crate::grow::spec_grow_kids(sh, ga2, h, 0),
                crate::grow::spec_grow_kids(sh, gb2, h, 0),
                s,
            ));
        }
    }
}

/// [`lemma_grow_det`] folded over the children.
proof fn lemma_grow_kids_det(sh: Shape, ga: Seq<GeomNode>, gb: Seq<GeomNode>, h: EntityHandle, i: int)
    requires
        sh.stamps_wf(),
        sh.len() <= usize::MAX,
        ga.len() == sh.len(),
        gb.len() == sh.len(),
        sh.valid(h),
        0 <= i,
        forall|s: int| 0 <= s < sh.len() && sh.in_subtree(h, s) ==> sizes_agree(ga, gb, s),
    ensures
        forall|s: int|
            #![trigger sizes_agree(
                crate::grow::spec_grow_kids(sh, ga, h, i),
                crate::grow::spec_grow_kids(sh, gb, h, i),
                s,
            )]
            0 <= s < sh.len() && sizes_agree(ga, gb, s) ==> sizes_agree(
                crate::grow::spec_grow_kids(sh, ga, h, i),
                crate::grow::spec_grow_kids(sh, gb, h, i),
                s,
            ),
    decreases sh.stamp(h.slot as int), 0nat, sh.node(h).children.len() - i,
{
    let cs = sh.node(h).children;
    if i >= cs.len() {
    } else {
        let c = cs[i];
        let ga1 = if sh.valid(c) {
            spec_grow(sh, ga, c)
        } else {
            ga
        };
        let gb1 = if sh.valid(c) {
            spec_grow(sh, gb, c)
        } else {
            gb
        };
        if sh.valid(c) {
            assert forall|s: int|
                0 <= s < sh.len() && sh.in_subtree(c, s) implies sizes_agree(ga, gb, s) by {
                assert(sh.in_subtree(h, s));
            }
            lemma_grow_det(sh, ga, gb, c);
            lemma_grow_frame(sh, ga, c);
            lemma_grow_frame(sh, gb, c);
        }
        assert forall|s: int|
            0 <= s < sh.len() && sh.in_subtree(h, s) implies sizes_agree(ga1, gb1, s) by {
            assert(sizes_agree(ga, gb, s));
            if sh.valid(c) {
                if sh.in_subtree(c, s) {
                    assert(sizes_agree(spec_grow(sh, ga, c), spec_grow(sh, gb, c), s));
                } else {
                    assert(ga1[s] == ga[s] && gb1[s] == gb[s]);
                }
            }
        }
        lemma_grow_kids_det(sh, ga1, gb1, h, i + 1);
        assert(crate::grow::spec_grow_kids(sh, ga, h, i) == crate::grow::spec_grow_kids(
            sh,
            ga1,
            h,
            i + 1,
        ));
        assert(crate::grow::spec_grow_kids(sh, gb, h, i) == crate::grow::spec_grow_kids(
            sh,
            gb1,
            h,
            i + 1,
        ));
        assert forall|s: int|
            0 <= s < sh.len() && sizes_agree(ga, gb, s) implies sizes_agree(
            crate::grow::spec_grow_kids(sh, ga, h, i),
            crate::grow::spec_grow_kids(sh, gb, h, i),
            s,
        ) by {
            assert(sizes_agree(ga1, gb1, s)) by {
                if sh.valid(c) {
                    if sh.in_subtree(c, s) {
                        assert(sizes_agree(spec_grow(sh, ga, c), spec_grow(sh, gb, c), s));
                    } else {
                        assert(ga1[s] == ga[s] && gb1[s] == gb[s]);
                    }
                }
            }
            assert(sizes_agree(
                crate::grow::spec_grow_kids(sh, ga1, h, i + 1),
                crate::grow::spec_grow_kids(sh, gb1, h, i + 1),
                s,
            ));
        }
    }
}

/// The position pass writes the same geometry in two runs that agree on
/// the subtree's sizes and on the node's own record.
proof fn lemma_position_det(sh: Shape, ga: Seq<GeomNode>, gb: Seq<GeomNode>, h: EntityHandle)
    requires
        sh.stamps_wf(),
        sh.len() <= usize::MAX,
        ga.len() == sh.len(),
        gb.len() == sh.len(),
        forall|s: int| 0 <= s < sh.len() && sh.in_subtree(h, s) ==> sizes_agree(ga, gb, s),
        0 <= h.slot < sh.len() ==> ga[h.slot as int] == gb[h.slot as int],
    ensures
        forall|s: int|
            #![trigger crate::position::spec_position(sh, ga, h)[s], crate::position::spec_position(sh, gb, h)[s]]
            0 <= s < sh.len() && (ga[s] == gb[s] || sh.in_subtree(h, s))
                ==> crate::position::spec_position(sh, ga, h)[s] == crate::position::spec_position(
                sh,
                gb,
                h,
            )[s],
    decreases sh.stamp(h.slot as int), 1nat, 0nat,
{
    if !sh.valid(h) {
    } else {
        let p = sh.node(h).params;
        let s0 = h.slot as int;
        let n = sh.node(h).children.len();
        assert(sh.in_subtree(h, s0));
        assert forall|k: int|
            0 <= k < n && sh.valid(#[trigger] sh.node(h).children[k]) implies sizes_agree(
            ga,
            gb,
            sh.node(h).children[k].slot as int,
        ) by {
            let c = sh.node(h).children[k];
            assert(sh.in_subtree(c, c.slot as int));
            assert(sh.in_subtree(h, c.slot as int));
        }
        lemma_sum_main_det(sh, ga, gb, h, 0, 0);
        let used = crate::grow::spec_sum_main(sh, ga, h, 0, 0);
        let total = crate::axis::sat16(used + crate::axis::spec_gap_total(p.gap, n));
        let inner_main = crate::axis::sat16(
            crate::grow::spec_main_of(ga[s0], p.direction) - crate::axis::spec_pad_main(
                p.direction,
                p.padding,
            ),
        );
        let rem = crate::axis::sat16(inner_main - total);
        let a = crate::position::spec_align(p.main_justify, rem, n);
        lemma_pos_kids_det(sh, ga, gb, h, 0, a.0, a.1, a.2);
        assert(crate::position::spec_position(sh, ga, h) == crate::position::spec_pos_kids(
            sh,
            ga,
            h,
            0,
            a.0,
            a.1,
            a.2,
        ));
        assert(crate::position::spec_position(sh, gb, h) == crate::position::spec_pos_kids(
            sh,
            gb,
            h,
            0,
            a.0,
            a.1,
            a.2,
        ));
        assert forall|s: int|
            0 <= s < sh.len() && (ga[s] == gb[s] || sh.in_subtree(h, s))
            implies crate::position::spec_position(sh, ga, h)[s]
            == crate::position::spec_position(sh, gb, h)[s] by {
            if !(ga[s] == gb[s]) {
                assert(sh.in_subtree(h, s));
                if s == h.slot as int {
                    assert(ga[s] == gb[s]);
                } else {
                    let k = choose|k: int|
                        0 <= k < sh.node(h).children.len() && {
                            let c = #[trigger] sh.node(h).children[k];
                            if sh.valid(c) {
                                sh.in_subtree(c, s)
                            } else {
                                false
                            }
                        };
                }
            }
            assert(crate::position::spec_pos_kids(sh, ga, h, 0, a.0, a.1, a.2)[s]
                == crate::position::spec_pos_kids(sh, gb, h, 0, a.0, a.1, a.2)[s]);
        }
    }
}

/// [`lemma_position_det`] folded over the children.
proof fn lemma_pos_kids_det(
    sh: Shape,
    ga: Seq<GeomNode>,
    gb: Seq<GeomNode>,
    h: EntityHandle,
    i: int,
    cursor: u16,
    between: u16,
    runits: u16,
)
    requires
        sh.stamps_wf(),
        sh.len() <= usize::MAX,
        ga.len() == sh.len(),
        gb.len() == sh.len(),
        sh.valid(h),
        0 <= i,
        forall|s: int| 0 <= s < sh.len() && sh.in_subtree(h, s) ==> sizes_agree(ga, gb, s),
        ga[h.slot as int] == gb[h.slot as int],
    ensures
        forall|s: int|
            #![trigger crate::position::spec_pos_kids(sh, ga, h, i, cursor, between, runits)[s],
                crate::position::spec_pos_kids(sh, gb, h, i, cursor, between, runits)[s]]
            0 <= s < sh.len() && (ga[s] == gb[s] || exists|k: int|
                i <= k < sh.node(h).children.len() && {
                    let c = #[trigger] sh.node(h).children[k];
                    if sh.valid(c) {
                        sh.in_subtree(c, s)
                    } else {
                        false
                    }
                }) ==> crate::position::spec_pos_kids(sh, ga, h, i, cursor, between, runits)[s]
                == crate::position::spec_pos_kids(sh, gb, h, i, cursor, between, runits)[s],
    decreases sh.stamp(h.slot as int), 0nat, sh.node(h).children.len() - i,
{
    let cs = sh.node(h).children;
    if i >= cs.len() {
    } else {
        let c = cs[i];
        if !sh.valid(c) {
            lemma_pos_kids_det(sh, ga, gb, h, i + 1, cursor, between, runits);
            assert(crate::position::spec_pos_kids(sh, ga, h, i, cursor, between, runits)
                == crate::position::spec_pos_kids(sh, ga, h, i + 1, cursor, between, runits));
            assert(crate::position::spec_pos_kids(sh, gb, h, i, cursor, between, runits)
                == crate::position::spec_pos_kids(sh, gb, h, i + 1, cursor, between, runits));
            assert forall|s: int|
                0 <= s < sh.len() && (ga[s] == gb[s] || exists|k: int|
                    i <= k < cs.len() && {
                        let c2 = #[trigger] cs[k];
                        if sh.valid(c2) {
                            sh.in_subtree(c2, s)
                        } else {
                            false
                        }
                    }) implies crate::position::spec_pos_kids(
                sh,
                ga,
                h,
                i,
                cursor,
                between,
                runits,
            )[s] == crate::position::spec_pos_kids(sh, gb, h, i, cursor, between, runits)[s] by {
                if !(ga[s] == gb[s]) {
                    let k = choose|k: int|
                        i <= k < cs.len() && {
                            let c2 = #[trigger] cs[k];
                            if sh.valid(c2) {
                                sh.in_subtree(c2, s)
                            } else {
                                false
                            }
                        };
                    assert(k > i);
                }
                assert(crate::position::spec_pos_kids(sh, ga, h, i + 1, cursor, between, runits)[s]
                    == crate::position::spec_pos_kids(sh, gb, h, i + 1, cursor, between, runits)[s]);
            }
        } else {
            assert(sh.in_subtree(h, c.slot as int)) by {
                assert(sh.in_subtree(c, c.slot as int));
            }
            assert(c.slot != h.slot) by {
                assert(sh.stamp(c.slot as int) < sh.stamp(h.slot as int));
            }
            assert(sizes_agree(ga, gb, c.slot as int));
            let placed_a = crate::position::spec_child_pos(
                ga[h.slot as int],
                p_dir(sh, h),
                sh.node(h).params.padding.left,
                sh.node(h).params.padding.top,
                cursor,
                ga[c.slot as int],
            );
            let placed_b = crate::position::spec_child_pos(
                gb[h.slot as int],
                p_dir(sh, h),
                sh.node(h).params.padding.left,
                sh.node(h).params.padding.top,
                cursor,
                gb[c.slot as int],
            );
            assert(placed_a == placed_b);
            let ga1 = ga.update(c.slot as int, placed_a);
            let gb1 = gb.update(c.slot as int, placed_b);
            let tick: u16 = if runits > 0 {
                1u16
            } else {
                0u16
            };
            let cursor1 = crate::axis::sat16(
                cursor + crate::grow::spec_main_of(ga1[c.slot as int], p_dir(sh, h))
                    + sh.node(h).params.gap + between + tick,
            );
            assert forall|s: int|
                0 <= s < sh.len() && sh.in_subtree(c, s) implies sizes_agree(ga1, gb1, s) by {
                assert(sh.in_subtree(h, s));
                assert(sizes_agree(ga, gb, s));
            }
            lemma_position_det(sh, ga1, gb1, c);
            let g2a = crate::position::spec_position(sh, ga1, c);
            let g2b = crate::position::spec_position(sh, gb1, c);
            lemma_position_frame(sh, ga1, c);
            lemma_position_frame(sh, gb1, c);
            assert(!sh.in_subtree(c, h.slot as int)) by {
                if sh.in_subtree(c, h.slot as int) {
                    crate::model::Shape::lemma_in_subtree_stamp(sh, c, h.slot as int);
                    assert(sh.stamp(c.slot as int) < sh.stamp(h.slot as int));
                }
            }
            assert(g2a[h.slot as int] == g2b[h.slot as int]) by {
                assert(g2a[h.slot as int] == ga1[h.slot as int]);
                assert(g2b[h.slot as int] == gb1[h.slot as int]);
            }
            assert forall|s: int|
                0 <= s < sh.len() && sh.in_subtree(h, s) implies sizes_agree(g2a, g2b, s) by {
                assert(g2a[s].width == ga1[s].width && g2a[s].height == ga1[s].height);
                assert(g2b[s].width == gb1[s].width && g2b[s].height == gb1[s].height);
                assert(sizes_agree(ga, gb, s));
                if s == c.slot as int {
                    assert(sizes_agree(ga1, gb1, s));
                } else {
                    assert(ga1[s].width == ga[s].width && gb1[s].width == gb[s].width);
                    assert(ga1[s].height == ga[s].height && gb1[s].height == gb[s].height);
                }
            }
            lemma_pos_kids_det(sh, g2a, g2b, h, i + 1, cursor1, between, (runits - tick) as u16);
            assert(crate::position::spec_pos_kids(sh, ga, h, i, cursor, between, runits)
                == crate::position::spec_pos_kids(
                sh,
                g2a,
                h,
                i + 1,
                cursor1,
                between,
                (runits - tick) as u16,
            ));
            assert(crate::position::spec_pos_kids(sh, gb, h, i, cursor, between, runits)
                == crate::position::spec_pos_kids(
                sh,
                g2b,
                h,
                i + 1,
                cursor1,
                between,
                (runits - tick) as u16,
            ));
            assert forall|s: int|
                0 <= s < sh.len() && (ga[s] == gb[s] || exists|k: int|
                    i <= k < cs.len() && {
                        let c2 = #[trigger] cs[k];
                        if sh.valid(c2) {
                            sh.in_subtree(c2, s)
                        } else {
                            false
                        }
                    }) implies crate::position::spec_pos_kids(
                sh,
                ga,
                h,
                i,
                cursor,
                between,
                runits,
            )[s] == crate::position::spec_pos_kids(sh, gb, h, i, cursor, between, runits)[s] by {
                assert(g2a[s] == g2b[s] || exists|k: int|
                    i + 1 <= k < cs.len() && {
                        let c2 = #[trigger] cs[k];
                        if sh.valid(c2) {
                            sh.in_subtree(c2, s)
                        } else {
                            false
                        }
                    }) by {
                    if ga[s] == gb[s] {
                        // the slot entered equal; the child write and the
                        // child's own pass keep the two runs equal there
                        assert(ga1[s] == gb1[s]);
                        if sh.in_subtree(c, s) {
                            assert(g2a[s] == g2b[s]);
                        } else {
                            assert(g2a[s] == ga1[s] && g2b[s] == gb1[s]);
                        }
                    } else {
                        let k = choose|k: int|
                            i <= k < cs.len() && {
                                let c2 = #[trigger] cs[k];
                                if sh.valid(c2) {
                                    sh.in_subtree(c2, s)
                                } else {
                                    false
                                }
                            };
                        if k == i {
                            assert(sh.in_subtree(c, s));
                            assert(g2a[s] == g2b[s]);
                        }
                    }
                }
                assert(crate::position::spec_pos_kids(
                    sh,
                    g2a,
                    h,
                    i + 1,
                    cursor1,
                    between,
                    (runits - tick) as u16,
                )[s] == crate::position::spec_pos_kids(
                    sh,
                    g2b,
                    h,
                    i + 1,
                    cursor1,
                    between,
                    (runits - tick) as u16,
                )[s]);
            }
        }
    }
}

/// Direction shorthand used by the position lemmas.
spec fn p_dir(sh: Shape, h: EntityHandle) -> crate::params::Direction {
    sh.node(h).params.direction
}

/// Idempotence: laying out an unmodified tree a second time reproduces
/// the very same sizes and positions.
///
/// Together with `calculate_layout`'s contract — the stored geometry after
/// a successful run is exactly `spec_layout` of the stored shape and the
/// previous geometry, and the shape itself is untouched — this says that
/// two consecutive successful runs leave identical geometry behind.
pub proof fn lemma_layout_idempotent(sh: Shape, g: Seq<GeomNode>, h: EntityHandle)
    requires
        sh.stamps_wf(),
        sh.len() <= usize::MAX,
        g.len() == sh.len(),
    ensures
        spec_layout(sh, spec_layout(sh, g, h), h) == spec_layout(sh, g, h),
{
    let once = spec_layout(sh, g, h);
    let fa = spec_fit(sh, g, h);
    lemma_fit_frame(sh, g, h);
    let ga2 = spec_grow(sh, fa, h);
    lemma_grow_frame(sh, fa, h);
    lemma_position_frame(sh, ga2, h);
    assert(once.len() == sh.len());
    let fb = spec_fit(sh, once, h);
    lemma_fit_frame(sh, once, h);
    let gb2 = spec_grow(sh, fb, h);
    lemma_grow_frame(sh, fb, h);
    lemma_position_frame(sh, gb2, h);
    lemma_fit_det(sh, g, once, h);
    assert forall|s: int|
        0 <= s < sh.len() && sh.in_subtree(h, s) implies sizes_agree(fa, fb, s) by {
        assert(sizes_agree(spec_fit(sh, g, h), spec_fit(sh, once, h), s));
    }
    lemma_grow_det(sh, fa, fb, h);
    assert forall|s: int|
        0 <= s < sh.len() && sh.in_subtree(h, s) implies sizes_agree(ga2, gb2, s) by {
        assert(sizes_agree(fa, fb, s));
        assert(sizes_agree(spec_grow(sh, fa, h), spec_grow(sh, fb, h), s));
    }
    if sh.valid(h) {
        let s0 = h.slot as int;
        assert(sh.in_subtree(h, s0));
        // the root's record is identical in both runs: sizes agree, and
        // no pass ever moves the root
        assert(ga2[s0].x == g[s0].x && ga2[s0].y == g[s0].y) by {
            assert(fa[s0].x == g[s0].x && fa[s0].y == g[s0].y);
            assert(ga2[s0].x == fa[s0].x && ga2[s0].y == fa[s0].y);
        }
        assert(once[s0] == ga2[s0]);
        assert(gb2[s0].x == once[s0].x && gb2[s0].y == once[s0].y) by {
            assert(fb[s0].x == once[s0].x && fb[s0].y == once[s0].y);
            assert(gb2[s0].x == fb[s0].x && gb2[s0].y == fb[s0].y);
        }
        assert(ga2[s0] == gb2[s0]);
    }
    lemma_position_det(sh, ga2, gb2, h);
    assert forall|s: int|
        0 <= s < sh.len() implies spec_layout(sh, spec_layout(sh, g, h), h)[s] == spec_layout(
        sh,
        g,
        h,
    )[s] by {
        if sh.in_subtree(h, s) {
            assert(crate::position::spec_position(sh, ga2, h)[s]
                == crate::position::spec_position(sh, gb2, h)[s]);
        } else {
            // outside the subtree nothing is ever written
            assert(once[s] == g[s]) by {
                assert(fa[s] == g[s]);
                assert(ga2[s] == fa[s]);
                assert(crate::position::spec_position(sh, ga2, h)[s] == ga2[s]);
            }
            assert(fb[s] == once[s]);
            assert(gb2[s] == fb[s]);
            assert(crate::position::spec_position(sh, gb2, h)[s] == gb2[s]);
            assert(crate::position::spec_position(sh, ga2, h)[s] == ga2[s]);
            assert(ga2[s] == fa[s] && fa[s] == g[s]);
        }
    }
    assert(spec_layout(sh, spec_layout(sh, g, h), h) =~= spec_layout(sh, g, h));
}


/// Two geometries with equal main-axis extents on the listed slots have
/// equal summed extents there.
proof fn lemma_sum_gi_mains_same(
    a: Seq<GeomNode>,
    b: Seq<GeomNode>,
    dir: crate::params::Direction,
    gi: Seq<usize>,
    i: int,
)
    requires
        forall|k: int|
            i <= k < gi.len() ==> crate::grow::spec_main_of(b[(#[trigger] gi[k]) as int], dir)
                == crate::grow::spec_main_of(a[gi[k] as int], dir),
    ensures
        spec_sum_gi(b, dir, gi, i) == spec_sum_gi(a, dir, gi, i),
    decreases gi.len() - i,
{
    if 0 <= i < gi.len() {
        lemma_sum_gi_mains_same(a, b, dir, gi, i + 1);
    }
}

/// When no sibling's subtree reaches slot `t` except as its own root, the
/// recursion into the children leaves `t` untouched.
proof fn lemma_grow_kids_slot_frame(
    sh: Shape,
    g: Seq<GeomNode>,
    h: EntityHandle,
    i: int,
    t: int,
)
    requires
        sh.stamps_wf(),
        sh.len() <= usize::MAX,
        g.len() == sh.len(),
        sh.valid(h),
        0 <= i,
        0 <= t < sh.len(),
        forall|j: int|
            0 <= j < sh.node(h).children.len() && sh.valid(#[trigger] sh.node(h).children[j])
                ==> sh.node(h).children[j].slot == t || !sh.in_subtree(
                sh.node(h).children[j],
                t,
            ),
    ensures
        crate::grow::spec_grow_kids(sh, g, h, i)[t] == g[t],
    decreases sh.stamp(h.slot as int), 0nat, sh.node(h).children.len() - i,
{
    let cs = sh.node(h).children;
    if i >= cs.len() {
    } else {
        let c = cs[i];
        let g1 = if sh.valid(c) {
            spec_grow(sh, g, c)
        } else {
            g
        };
        if sh.valid(c) {
            lemma_grow_frame(sh, g, c);
            assert(g1[t] == g[t]) by {
                assert(c.slot == t || !sh.in_subtree(c, t));
            }
        }
        lemma_grow_kids_slot_frame(sh, g1, h, i + 1, t);
        assert(crate::grow::spec_grow_kids(sh, g, h, i) == crate::grow::spec_grow_kids(
            sh,
            g1,
            h,
            i + 1,
        ));
    }
}

/// Exact growth at container level: when a container has growing children
/// on its main axis, one growth pass hands them exactly the container's
/// leftover main-axis space — afterwards the children's summed extents
/// plus the gaps meet the inner extent to the cell.
///
/// The hypotheses are the tree discipline construction guarantees: the
/// growing children sit in distinct slots and no child's subtree reaches a
/// sibling's slot; the arithmetic bound keeps the sums below the
/// saturation cap.
pub proof fn lemma_container_filled(sh: Shape, g: Seq<GeomNode>, h: EntityHandle)
    requires
        sh.stamps_wf(),
        sh.len() <= usize::MAX,
        g.len() == sh.len(),
        sh.valid(h),
        crate::grow::spec_grow_list(sh, h, 0).len() > 0,
        forall|k1: int, k2: int|
            0 <= k1 < k2 < crate::grow::spec_grow_list(sh, h, 0).len()
                ==> crate::grow::spec_grow_list(sh, h, 0)[k1] != crate::grow::spec_grow_list(
                sh,
                h,
                0,
            )[k2],
        forall|j: int, k: int|
            0 <= j < sh.node(h).children.len() && 0 <= k < sh.node(h).children.len() && sh.valid(
                #[trigger] sh.node(h).children[j],
            ) && sh.valid(#[trigger] sh.node(h).children[k]) && sh.node(h).children[j].slot
                != sh.node(h).children[k].slot ==> !sh.in_subtree(
                sh.node(h).children[j],
                sh.node(h).children[k].slot as int,
            ),
        spec_sum_gi(g, sh.node(h).params.direction, crate::grow::spec_grow_list(sh, h, 0), 0)
            + crate::grow::spec_grow_leftover(sh, g, h) <= 0xffff,
    ensures
        spec_sum_gi(
            spec_grow(sh, g, h),
            sh.node(h).params.direction,
            crate::grow::spec_grow_list(sh, h, 0),
            0,
        ) == spec_sum_gi(g, sh.node(h).params.direction, crate::grow::spec_grow_list(sh, h, 0), 0)
            + crate::grow::spec_grow_leftover(sh, g, h),
{
    let p = sh.node(h).params;
    let dir = p.direction;
    let inner = crate::grow::spec_grow_inner(sh, g, h);
    let rem0 = crate::grow::spec_grow_leftover(sh, g, h);
    let gi = crate::grow::spec_grow_list(sh, h, 0);
    crate::grow::lemma_grow_list_props(sh, h, 0);
    let g1 = crate::grow::spec_grow_cross(sh, g, h, inner.cross_axis, 0);
    crate::grow::lemma_grow_cross_mains(sh, g, h, inner.cross_axis, 0);
    assert(spec_sum_gi(g1, dir, gi, 0) == spec_sum_gi(g, dir, gi, 0)) by {
        lemma_sum_gi_mains_same(g, g1, dir, gi, 0);
    }
    let g2 = crate::grow::spec_fill(g1, dir, gi, rem0);
    lemma_fill_exact(g1, dir, gi, rem0);
    assert(spec_sum_gi(g2, dir, gi, 0) == spec_sum_gi(g, dir, gi, 0) + rem0);
    let g3 = crate::grow::spec_grow_kids(sh, g2, h, 0);
    assert(spec_grow(sh, g, h) == g3);
    assert forall|k: int|
        0 <= k < gi.len() implies crate::grow::spec_main_of(
        g3[(#[trigger] gi[k]) as int],
        dir,
    ) == crate::grow::spec_main_of(g2[gi[k] as int], dir) by {
        let t = gi[k] as int;
        let j0 = choose|j: int|
            0 <= j < sh.node(h).children.len() && sh.valid(#[trigger] sh.node(h).children[j])
                && sh.node(h).children[j].slot == gi[k];
        assert forall|j: int|
            0 <= j < sh.node(h).children.len() && sh.valid(#[trigger] sh.node(h).children[j])
            implies sh.node(h).children[j].slot == gi[k] as usize || !sh.in_subtree(
            sh.node(h).children[j],
            t,
        ) by {
            if sh.node(h).children[j].slot != gi[k] {
                assert(sh.node(h).children[j].slot != sh.node(h).children[j0].slot);
                assert(!sh.in_subtree(
                    sh.node(h).children[j],
                    sh.node(h).children[j0].slot as int,
                ));
            }
        }
        lemma_grow_kids_slot_frame(sh, g2, h, 0, t);
    }
    assert(spec_sum_gi(g3, dir, gi, 0) == spec_sum_gi(g2, dir, gi, 0)) by {
        lemma_sum_gi_mains_same(g2, g3, dir, gi, 0);
    }
}

} // verus!