//! Main-axis / cross-axis arithmetic.
//!
//! All size arithmetic in the engine saturates: sums are capped at
//! `u16::MAX` and differences at zero, so no configuration of paddings,
//! gaps and sizes can underflow, overflow or panic.

use vstd::prelude::*;

use crate::params::{Direction, Padding};

verus! {

/// `v` clamped into the `u16` range.
pub open spec fn sat16(v: int) -> u16 {
    if v > 0xffff {
        0xffffu16
    } else if v < 0 {
        0u16
    } else {
        v as u16
    }
}

/// Saturating addition on cell counts.
pub fn sat_add(a: u16, b: u16) -> (r: u16)
    ensures
        r == sat16(a + b),
{
    a.saturating_add(b)
}

/// Saturating subtraction on cell counts.
pub fn sat_sub(a: u16, b: u16) -> (r: u16)
    ensures
        r == sat16(a - b),
{
    a.saturating_sub(b)
}

/// Saturating multiplication on cell counts.
pub fn sat_mul(a: u16, b: u16) -> (r: u16)
    ensures
        r == sat16(a * b),
{
    match a.checked_mul(b) {
        Some(r) => r,
        None => 0xffffu16,
    }
}

/// Total main-axis spacing for `n` children separated by `gap`:
/// one gap between each consecutive pair, none around the ends.
pub open spec fn spec_gap_total(gap: u16, n: nat) -> u16 {
    if n == 0 {
        0u16
    } else {
        sat16(gap * (n - 1))
    }
}

/// Computes [`spec_gap_total`] for a child count held in a `usize`.
pub fn gap_total(gap: u16, n: usize) -> (r: u16)
    ensures
        r == spec_gap_total(gap, n as nat),
{
    if n == 0 {
        proof {
            assert(0u16 == spec_gap_total(gap, n as nat));
        }
        0u16
    } else if n - 1 > 0xffff {
        // At least 2^16 gaps: any positive gap saturates, and a zero gap
        // contributes nothing.
        if gap == 0 {
            proof {
                assert(0u16 == spec_gap_total(gap, n as nat));
            }
            0u16
        } else {
            proof {
                assert(gap * (n - 1) > 0xffff) by (nonlinear_arith)
                    requires
                        gap >= 1,
                        n - 1 > 0xffff,
                ;
            }
            0xffffu16
        }
    } else {
        let m: u16 = (n - 1) as u16;
        let r = sat_mul(gap, m);
        proof {
            assert(m == n - 1);
            assert(gap * m == gap * (n - 1)) by (nonlinear_arith)
                requires
                    m == n - 1,
            ;
        }
        r
    }
}

/// Saturating addition can be chained: capping an intermediate sum does
/// not change the capped total.
pub proof fn lemma_sat16_add_chain(a: int, b: u16)
    requires
        a >= 0,
    ensures
        sat16(sat16(a) + b) == sat16(a + b),
{
    if a > 0xffff {
        assert(sat16(a) == 0xffffu16);
    }
}

/// A size seen from a container's point of view: along its layout
/// direction (main) and perpendicular to it (cross).
#[derive(Clone, Copy, Debug, PartialEq, Eq, Structural)]
pub struct AxisSizes {
    pub main_axis: u16,
    pub cross_axis: u16,
}

/// `(x, y)` dimensions reordered as main/cross for `dir`.
pub open spec fn spec_axify(dir: Direction, x: u16, y: u16) -> AxisSizes {
    match dir {
        Direction::Horizontal => AxisSizes { main_axis: x, cross_axis: y },
        Direction::Vertical => AxisSizes { main_axis: y, cross_axis: x },
    }
}

/// Main/cross sizes reordered back into `(x, y)` dimensions for `dir`.
pub open spec fn spec_unaxify(dir: Direction, a: AxisSizes) -> (u16, u16) {
    match dir {
        Direction::Horizontal => (a.main_axis, a.cross_axis),
        Direction::Vertical => (a.cross_axis, a.main_axis),
    }
}

/// Both padding insets along the main axis of `dir`, as a mathematical sum.
pub open spec fn spec_pad_main(dir: Direction, p: Padding) -> int {
    match dir {
        Direction::Horizontal => p.left + p.right,
        Direction::Vertical => p.top + p.bottom,
    }
}

/// Both padding insets along the cross axis of `dir`, as a mathematical sum.
pub open spec fn spec_pad_cross(dir: Direction, p: Padding) -> int {
    match dir {
        Direction::Horizontal => p.top + p.bottom,
        Direction::Vertical => p.left + p.right,
    }
}

impl AxisSizes {
    /// The component-wise minimum.
    pub fn min(self, other: AxisSizes) -> (r: AxisSizes)
        ensures
            r.main_axis == if self.main_axis <= other.main_axis {
                self.main_axis
            } else {
                other.main_axis
            },
            r.cross_axis == if self.cross_axis <= other.cross_axis {
                self.cross_axis
            } else {
                other.cross_axis
            },
    {
        AxisSizes {
            main_axis: if self.main_axis <= other.main_axis {
                self.main_axis
            } else {
                other.main_axis
            },
            cross_axis: if self.cross_axis <= other.cross_axis {
                self.cross_axis
            } else {
                other.cross_axis
            },
        }
    }

    /// The same sizes with the main axis replaced.
    pub fn with_main(self, value: u16) -> (r: AxisSizes)
        ensures
            r == (AxisSizes { main_axis: value, cross_axis: self.cross_axis }),
    {
        AxisSizes { main_axis: value, cross_axis: self.cross_axis }
    }

    /// Reads `(x, y)` dimensions as main/cross for `dir`.
    pub fn from_dims(dir: Direction, x: u16, y: u16) -> (r: AxisSizes)
        ensures
            r == spec_axify(dir, x, y),
    {
        match dir {
            Direction::Horizontal => AxisSizes { main_axis: x, cross_axis: y },
            Direction::Vertical => AxisSizes { main_axis: y, cross_axis: x },
        }
    }

    /// Writes main/cross sizes back into `(x, y)` order for `dir`.
    pub fn to_dims(self, dir: Direction) -> (r: (u16, u16))
        ensures
            r == spec_unaxify(dir, self),
            spec_axify(dir, r.0, r.1) == self,
    {
        match dir {
            Direction::Horizontal => (self.main_axis, self.cross_axis),
            Direction::Vertical => (self.cross_axis, self.main_axis),
        }
    }

    /// Grows both axes by the padding of `dir`, saturating.
    pub fn pad(self, padding: Padding, dir: Direction) -> (r: AxisSizes)
        ensures
            r.main_axis == sat16(self.main_axis + spec_pad_main(dir, padding)),
            r.cross_axis == sat16(self.cross_axis + spec_pad_cross(dir, padding)),
    {
        match dir {
            Direction::Horizontal => AxisSizes {
                main_axis: sat_add(self.main_axis, sat_add(padding.left, padding.right)),
                cross_axis: sat_add(self.cross_axis, sat_add(padding.top, padding.bottom)),
            },
            Direction::Vertical => AxisSizes {
                main_axis: sat_add(self.main_axis, sat_add(padding.top, padding.bottom)),
                cross_axis: sat_add(self.cross_axis, sat_add(padding.left, padding.right)),
            },
        }
    }

    /// Shrinks both axes by the padding of `dir`, saturating at zero.
    pub fn shrink(self, padding: Padding, dir: Direction) -> (r: AxisSizes)
        ensures
            r.main_axis == sat16(self.main_axis - spec_pad_main(dir, padding)),
            r.cross_axis == sat16(self.cross_axis - spec_pad_cross(dir, padding)),
    {
        match dir {
            Direction::Horizontal => AxisSizes {
                main_axis: sat_sub(self.main_axis, sat_add(padding.left, padding.right)),
                cross_axis: sat_sub(self.cross_axis, sat_add(padding.top, padding.bottom)),
            },
            Direction::Vertical => AxisSizes {
                main_axis: sat_sub(self.main_axis, sat_add(padding.top, padding.bottom)),
                cross_axis: sat_sub(self.cross_axis, sat_add(padding.left, padding.right)),
            },
        }
    }

    /// Accounts for one more child of dimensions `(x, y)`: main-axis sizes
    /// add up, cross-axis sizes take the maximum.
    pub fn increase(self, x: u16, y: u16, dir: Direction) -> (r: AxisSizes)
        ensures
            r.main_axis == sat16(self.main_axis + spec_axify(dir, x, y).main_axis),
            r.cross_axis == if self.cross_axis >= spec_axify(dir, x, y).cross_axis {
                self.cross_axis
            } else {
                spec_axify(dir, x, y).cross_axis
            },
    {
        let by = AxisSizes::from_dims(dir, x, y);
        AxisSizes {
            main_axis: sat_add(self.main_axis, by.main_axis),
            cross_axis: if self.cross_axis >= by.cross_axis {
                self.cross_axis
            } else {
                by.cross_axis
            },
        }
    }
}

} // verus!
