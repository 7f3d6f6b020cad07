//! Styling attributes of a layout node: sizing policies, layout direction,
//! padding, gap and main-axis justification.

use vstd::prelude::*;

verus! {

/// Sizing policy for one axis of a node.
#[derive(Clone, Copy, Debug, PartialEq, Eq, Structural)]
pub enum Size {
    /// The axis is exactly this many cells, independent of content.
    Fixed(u16),
    /// The axis shrinks to the size of the content.
    Fit,
    /// The axis expands to fill the space left in the parent.
    Grow,
}

impl Size {
    /// A `Fixed` parent pins its size, so oversized `Fixed` children are
    /// clamped against its inner size during intrinsic sizing.
    pub fn should_clamp(&self) -> (r: bool)
        ensures
            r == (self is Fixed),
    {
        matches!(self, Size::Fixed(_))
    }

    /// Whether the policy asks for leftover space.
    pub fn is_grow(&self) -> (r: bool)
        ensures
            r == (self is Grow),
    {
        matches!(self, Size::Grow)
    }
}

impl Default for Size {
    fn default() -> (r: Self)
        ensures
            r == Size::Fit,
    {
        Size::Fit
    }
}

/// Axis along which a container lays out its children (the main axis).
#[derive(Clone, Copy, Debug, PartialEq, Eq, Structural)]
pub enum Direction {
    Horizontal,
    Vertical,
}

impl Default for Direction {
    fn default() -> (r: Self)
        ensures
            r == Direction::Vertical,
    {
        Direction::Vertical
    }
}

/// Policy distributing leftover main-axis space among and around children.
#[derive(Clone, Copy, Debug, PartialEq, Eq, Structural)]
pub enum Justify {
    Start,
    Center,
    SpaceBetween,
    SpaceAround,
    SpaceEvenly,
    End,
}

impl Justify {
    /// All justification policies, in a fixed order.
    pub fn iter() -> (r: Vec<Justify>)
        ensures
            r@ == seq![
                Justify::Start,
                Justify::Center,
                Justify::SpaceBetween,
                Justify::SpaceAround,
                Justify::SpaceEvenly,
                Justify::End,
            ],
    {
        let mut v: Vec<Justify> = Vec::new();
        v.push(Justify::Start);
        v.push(Justify::Center);
        v.push(Justify::SpaceBetween);
        v.push(Justify::SpaceAround);
        v.push(Justify::SpaceEvenly);
        v.push(Justify::End);
        proof {
            assert(v@ =~= seq![
                Justify::Start,
                Justify::Center,
                Justify::SpaceBetween,
                Justify::SpaceAround,
                Justify::SpaceEvenly,
                Justify::End,
            ]);
        }
        v
    }
}

impl Default for Justify {
    fn default() -> (r: Self)
        ensures
            r == Justify::Start,
    {
        Justify::Start
    }
}

/// Four non-negative insets around a node's content.
#[derive(Clone, Copy, Debug, PartialEq, Eq, Structural)]
pub struct Padding {
    pub left: u16,
    pub right: u16,
    pub top: u16,
    pub bottom: u16,
}

impl Padding {
    pub fn new(left: u16, right: u16, top: u16, bottom: u16) -> (r: Padding)
        ensures
            r == (Padding { left, right, top, bottom }),
    {
        Padding { left, right, top, bottom }
    }

    /// The same inset on all four sides.
    pub fn uniform(n: u16) -> (r: Padding)
        ensures
            r == (Padding { left: n, right: n, top: n, bottom: n }),
    {
        Padding { left: n, right: n, top: n, bottom: n }
    }
}

impl Default for Padding {
    fn default() -> (r: Self)
        ensures
            r == (Padding { left: 0, right: 0, top: 0, bottom: 0 }),
    {
        Padding { left: 0, right: 0, top: 0, bottom: 0 }
    }
}

/// Everything the layout passes read from a node.
#[derive(Clone, Copy, Debug, PartialEq, Eq, Structural)]
pub struct LayoutParams {
    pub width: Size,
    pub height: Size,
    pub direction: Direction,
    pub padding: Padding,
    pub gap: u16,
    pub main_justify: Justify,
}

impl LayoutParams {
    /// The policy governing this node's size along `dir`.
    pub fn main_size(&self, dir: Direction) -> (r: Size)
        ensures
            r == spec_main_size(dir, self.width, self.height),
    {
        match dir {
            Direction::Horizontal => self.width,
            Direction::Vertical => self.height,
        }
    }

    /// The policy governing this node's size across `dir`.
    pub fn cross_size(&self, dir: Direction) -> (r: Size)
        ensures
            r == spec_cross_size(dir, self.width, self.height),
    {
        match dir {
            Direction::Horizontal => self.height,
            Direction::Vertical => self.width,
        }
    }
}

impl Default for LayoutParams {
    fn default() -> (r: Self)
        ensures
            r == spec_default_params(),
    {
        LayoutParams {
            width: Size::Fit,
            height: Size::Fit,
            direction: Direction::Vertical,
            padding: Padding { left: 0, right: 0, top: 0, bottom: 0 },
            gap: 0,
            main_justify: Justify::Start,
        }
    }
}

/// The attribute set every node starts from.
pub open spec fn spec_default_params() -> LayoutParams {
    LayoutParams {
        width: Size::Fit,
        height: Size::Fit,
        direction: Direction::Vertical,
        padding: Padding { left: 0, right: 0, top: 0, bottom: 0 },
        gap: 0,
        main_justify: Justify::Start,
    }
}

/// The length carried by a `Fixed` policy; zero for the elastic policies.
pub open spec fn spec_fixed_len(s: Size) -> u16 {
    match s {
        Size::Fixed(n) => n,
        Size::Fit => 0u16,
        Size::Grow => 0u16,
    }
}

/// Of the two per-axis policies, the one on the main axis of `dir`.
pub open spec fn spec_main_size(dir: Direction, w: Size, h: Size) -> Size {
    match dir {
        Direction::Horizontal => w,
        Direction::Vertical => h,
    }
}

/// Of the two per-axis policies, the one on the cross axis of `dir`.
pub open spec fn spec_cross_size(dir: Direction, w: Size, h: Size) -> Size {
    match dir {
        Direction::Horizontal => h,
        Direction::Vertical => w,
    }
}

/// A single attribute that can be applied onto a [`LayoutParams`] record.
///
/// The wrapper types below let a caller hand individual attributes to a
/// builder without spelling out the whole record.
pub trait ParamPatch: Sized {
    /// What the patch does to an attribute record.
    spec fn apply_spec(self, p: LayoutParams) -> LayoutParams;

    /// Applies the patch.
    fn apply(self, p: LayoutParams) -> (r: LayoutParams)
        ensures
            r == self.apply_spec(p),
    ;
}

/// Width policy attribute.
#[derive(Clone, Copy, Debug)]
pub struct Width(pub Size);

/// Height policy attribute.
#[derive(Clone, Copy, Debug)]
pub struct Height(pub Size);

/// Main-axis spacing attribute: cells inserted between consecutive children.
#[derive(Clone, Copy, Debug)]
pub struct Gap(pub u16);

/// Main-axis justification attribute.
#[derive(Clone, Copy, Debug)]
pub struct MainJustify(pub Justify);

impl ParamPatch for Width {
    open spec fn apply_spec(self, p: LayoutParams) -> LayoutParams {
        LayoutParams { width: self.0, ..p }
    }

    fn apply(self, p: LayoutParams) -> (r: LayoutParams) {
        LayoutParams { width: self.0, ..p }
    }
}

impl ParamPatch for Height {
    open spec fn apply_spec(self, p: LayoutParams) -> LayoutParams {
        LayoutParams { height: self.0, ..p }
    }

    fn apply(self, p: LayoutParams) -> (r: LayoutParams) {
        LayoutParams { height: self.0, ..p }
    }
}

impl ParamPatch for Gap {
    open spec fn apply_spec(self, p: LayoutParams) -> LayoutParams {
        LayoutParams { gap: self.0, ..p }
    }

    fn apply(self, p: LayoutParams) -> (r: LayoutParams) {
        LayoutParams { gap: self.0, ..p }
    }
}

impl ParamPatch for MainJustify {
    open spec fn apply_spec(self, p: LayoutParams) -> LayoutParams {
        LayoutParams { main_justify: self.0, ..p }
    }

    fn apply(self, p: LayoutParams) -> (r: LayoutParams) {
        LayoutParams { main_justify: self.0, ..p }
    }
}

impl ParamPatch for Padding {
    open spec fn apply_spec(self, p: LayoutParams) -> LayoutParams {
        LayoutParams { padding: self, ..p }
    }

    fn apply(self, p: LayoutParams) -> (r: LayoutParams) {
        LayoutParams { padding: self, ..p }
    }
}

impl ParamPatch for Direction {
    open spec fn apply_spec(self, p: LayoutParams) -> LayoutParams {
        LayoutParams { direction: self, ..p }
    }

    fn apply(self, p: LayoutParams) -> (r: LayoutParams) {
        LayoutParams { direction: self, ..p }
    }
}

impl Width {
    /// Width that fills leftover space.
    pub fn grow() -> (r: Width)
        ensures
            r.0 == Size::Grow,
    {
        Width(Size::Grow)
    }

    /// Width of exactly `n` cells.
    pub fn fixed(n: u16) -> (r: Width)
        ensures
            r.0 == Size::Fixed(n),
    {
        Width(Size::Fixed(n))
    }
}

impl Height {
    /// Height that fills leftover space.
    pub fn grow() -> (r: Height)
        ensures
            r.0 == Size::Grow,
    {
        Height(Size::Grow)
    }

    /// Height of exactly `n` cells.
    pub fn fixed(n: u16) -> (r: Height)
        ensures
            r.0 == Size::Fixed(n),
    {
        Height(Size::Fixed(n))
    }
}

} // verus!
