//! Scenario checks for the engine's headline properties: fixed sizes,
//! exact growth, the justification formulas, saturation, idempotence,
//! handle reuse and construction cost.

use elemental::axis::{gap_total, sat_add, sat_mul, sat_sub, AxisSizes};
use elemental::focus::{
    generate_ui_stack, Clicked, FocusContext, FocusPolicy, FocusPopup, FocusTarget, Focused,
    Hovered, Pressed,
};
use elemental::params::{
    Direction, Gap, Height, Justify, LayoutParams, MainJustify, Padding, ParamPatch, Size, Width,
};
use elemental::percent::{parse_percentage, PercentError};
use elemental::position::align_values;
use elemental::render::Rect;
use elemental::store::{ElementCtx, LayoutNode, StoreError};
use elemental::ui::NodeDesc;

fn fixed(n: u16) -> Size {
    Size::Fixed(n)
}

#[test]
fn fixed_size_invariance_scenario() {
    // a Fixed root keeps its declared size no matter what the children ask
    let mut ctx: ElementCtx<u8> = ElementCtx::new();
    let root = NodeDesc::new(0u8)
        .width(fixed(7))
        .height(fixed(5))
        .child(NodeDesc::new(1u8).width(fixed(500)).height(fixed(400)))
        .create(&mut ctx);
    ctx.calculate_layout(root).unwrap();
    let node = ctx.get(root).unwrap();
    assert_eq!((node.width, node.height), (7, 5));
}

#[test]
fn exact_growth_distribution() {
    // inner main-axis size 10, three growing children: 10 = 3*3 + 1, and
    // the extra cell goes to the first child
    let mut ctx: ElementCtx<u8> = ElementCtx::new();
    let root = NodeDesc::new(0u8)
        .width(fixed(10))
        .height(fixed(4))
        .direction(Direction::Horizontal)
        .child(NodeDesc::new(1u8).width(Size::Grow).height(Size::Grow))
        .child(NodeDesc::new(2u8).width(Size::Grow).height(Size::Grow))
        .child(NodeDesc::new(3u8).width(Size::Grow).height(Size::Grow))
        .create(&mut ctx);
    ctx.calculate_layout(root).unwrap();
    let kids = ctx.get(root).unwrap().children.clone();
    let widths: Vec<u16> = kids.iter().map(|k| ctx.get(*k).unwrap().width).collect();
    assert_eq!(widths, vec![4, 3, 3]);
    assert_eq!(widths.iter().sum::<u16>(), 10);
}

#[test]
fn justify_formulas() {
    // container inner main-axis size 24, three fixed children of 4, no
    // gap: 12 cells remain
    let expected = [
        (Justify::Start, [0u16, 4, 8]),
        (Justify::End, [12, 16, 20]),
        (Justify::Center, [6, 10, 14]),
        (Justify::SpaceBetween, [0, 10, 20]),
        // leading 12/6 = 2, extra 4 per gap
        (Justify::SpaceAround, [2, 10, 18]),
        // leading = extra = 2 * (12/8) = 2
        (Justify::SpaceEvenly, [2, 8, 14]),
    ];
    for (justify, offsets) in expected {
        let mut ctx: ElementCtx<u8> = ElementCtx::new();
        let root = NodeDesc::new(0u8)
            .width(fixed(24))
            .height(fixed(4))
            .direction(Direction::Horizontal)
            .main_justify(justify)
            .child(NodeDesc::new(1u8).width(fixed(4)).height(fixed(2)))
            .child(NodeDesc::new(2u8).width(fixed(4)).height(fixed(2)))
            .child(NodeDesc::new(3u8).width(fixed(4)).height(fixed(2)))
            .create(&mut ctx);
        ctx.calculate_layout(root).unwrap();
        let kids = ctx.get(root).unwrap().children.clone();
        let xs: Vec<u16> = kids.iter().map(|k| ctx.get(*k).unwrap().x).collect();
        assert_eq!(xs, offsets.to_vec(), "{justify:?}");
    }
}

#[test]
fn justify_formula_values() {
    assert_eq!(align_values(Justify::Start, 12, 3), (0, 0, 0));
    assert_eq!(align_values(Justify::Center, 12, 3), (6, 0, 0));
    assert_eq!(align_values(Justify::End, 12, 3), (12, 0, 0));
    assert_eq!(align_values(Justify::SpaceBetween, 12, 3), (0, 6, 0));
    assert_eq!(align_values(Justify::SpaceAround, 12, 3), (2, 4, 0));
    assert_eq!(align_values(Justify::SpaceEvenly, 12, 3), (2, 2, 0));
    // indivisible remainders become per-gap units, front first
    assert_eq!(align_values(Justify::SpaceBetween, 13, 3), (0, 6, 1));
    // with no or one child the multi-child policies fall back to Start
    assert_eq!(align_values(Justify::SpaceBetween, 12, 1), (0, 0, 0));
    assert_eq!(align_values(Justify::SpaceAround, 12, 0), (0, 0, 0));
}

#[test]
fn saturating_never_underflows() {
    // padding and gap far larger than the available space: everything
    // bottoms out at zero instead of wrapping
    let mut ctx: ElementCtx<u8> = ElementCtx::new();
    let root = NodeDesc::new(0u8)
        .width(fixed(4))
        .height(fixed(3))
        .padding(Padding::uniform(40_000))
        .gap(60_000)
        .child(NodeDesc::new(1u8).width(Size::Grow).height(Size::Grow))
        .child(NodeDesc::new(2u8).width(Size::Grow).height(Size::Grow))
        .create(&mut ctx);
    ctx.calculate_layout(root).unwrap();
    let kids = ctx.get(root).unwrap().children.clone();
    for k in kids {
        let node = ctx.get(k).unwrap();
        assert_eq!((node.width, node.height), (0, 0));
    }
    let node = ctx.get(root).unwrap();
    assert_eq!((node.width, node.height), (4, 3));
}

#[test]
fn layout_is_idempotent() {
    let mut ctx: ElementCtx<u8> = ElementCtx::new();
    let root = NodeDesc::new(0u8)
        .width(fixed(30))
        .height(fixed(12))
        .direction(Direction::Horizontal)
        .padding(Padding::uniform(1))
        .gap(1)
        .child(NodeDesc::new(1u8).width(fixed(5)).height(Size::Grow))
        .child(NodeDesc::new(2u8).width(Size::Grow).height(Size::Grow))
        .child(NodeDesc::new(3u8).width(Size::Grow).height(fixed(4)))
        .create(&mut ctx);
    ctx.calculate_layout(root).unwrap();
    let stack = generate_ui_stack(&ctx, root);
    let first: Vec<(u16, u16, u16, u16)> = stack
        .stack
        .iter()
        .map(|h| {
            let n = ctx.get(*h).unwrap();
            (n.width, n.height, n.x, n.y)
        })
        .collect();
    ctx.calculate_layout(root).unwrap();
    let second: Vec<(u16, u16, u16, u16)> = stack
        .stack
        .iter()
        .map(|h| {
            let n = ctx.get(*h).unwrap();
            (n.width, n.height, n.x, n.y)
        })
        .collect();
    assert_eq!(first, second);
}

#[test]
fn handle_reuse_is_detected() {
    let mut ctx: ElementCtx<String> = ElementCtx::new();
    let a = ctx.insert(LayoutNode::new(LayoutParams::default(), Vec::new()), String::from("a"));
    assert_eq!(ctx.remove(a), Some(String::from("a")));
    // the insertion reuses a's freed slot, yet a's handle stays dead
    let b = ctx.insert(LayoutNode::new(LayoutParams::default(), Vec::new()), String::from("b"));
    assert_ne!(a, b);
    assert!(ctx.get(a).is_err());
    assert_eq!(ctx.get(a).unwrap_err(), StoreError::InvalidHandle);
    assert_eq!(ctx.get_payload(b).unwrap(), "b");
    // removing twice is a quiet no-op
    assert_eq!(ctx.remove(a), None);
}

#[test]
fn construction_is_linear() {
    // one insertion per described node, pre-existing handles cost nothing
    let mut ctx: ElementCtx<u8> = ElementCtx::new();
    let shared = NodeDesc::new(9u8).create(&mut ctx);
    assert_eq!(ctx.insertions(), 1);
    let root = NodeDesc::new(0u8)
        .child(NodeDesc::new(1u8))
        .child(NodeDesc::new(2u8).child(NodeDesc::new(3u8)))
        .child_handle(shared)
        .create(&mut ctx);
    assert_eq!(ctx.insertions(), 5);
    assert_eq!(ctx.get(root).unwrap().children.len(), 3);
}

#[test]
fn despawn_removes_subtree() {
    let mut ctx: ElementCtx<u8> = ElementCtx::new();
    let other = NodeDesc::new(7u8).create(&mut ctx);
    let root = NodeDesc::new(0u8)
        .child(NodeDesc::new(1u8).child(NodeDesc::new(2u8)))
        .child(NodeDesc::new(3u8))
        .create(&mut ctx);
    let stack = generate_ui_stack(&ctx, root);
    assert_eq!(stack.stack.len(), 4);
    ctx.despawn(root);
    for h in stack.stack {
        assert!(ctx.get(h).is_err());
    }
    // an unrelated node survives
    assert!(ctx.get(other).is_ok());
}

#[test]
fn layout_reports_dangling_children() {
    let mut ctx: ElementCtx<u8> = ElementCtx::new();
    let child = NodeDesc::new(1u8).create(&mut ctx);
    let root = NodeDesc::new(0u8).child_handle(child).create(&mut ctx);
    ctx.calculate_layout(root).unwrap();
    // the child disappears; layout fails fast, render stays lenient
    ctx.remove(child);
    assert!(ctx.calculate_layout(root).is_err());
    let cmds = ctx.render(root, Rect::new(0, 0, 10, 10));
    assert_eq!(cmds.len(), 1);
    assert_eq!(cmds[0].target, root);
}

#[test]
fn set_children_refuses_backwards_links() {
    let mut ctx: ElementCtx<u8> = ElementCtx::new();
    let older = NodeDesc::new(0u8).create(&mut ctx);
    let newer = NodeDesc::new(1u8).create(&mut ctx);
    // linking the older node under the newer one is fine ...
    assert_eq!(ctx.set_children(newer, vec![older]), Ok(()));
    // ... but a newer node cannot be linked under an older one
    assert_eq!(
        ctx.set_children(older, vec![newer]),
        Err(StoreError::ChildNewerThanParent)
    );
}

#[test]
fn render_clips_to_ancestors() {
    let mut ctx: ElementCtx<u8> = ElementCtx::new();
    let root = NodeDesc::new(0u8)
        .width(fixed(10))
        .height(fixed(10))
        .child(NodeDesc::new(1u8).width(fixed(30)).height(fixed(30)))
        .create(&mut ctx);
    ctx.calculate_layout(root).unwrap();
    let cmds = ctx.render(root, Rect::new(0, 0, 6, 40));
    assert_eq!(cmds.len(), 2);
    // the root is cut by the caller's clip, the child by both
    assert_eq!(cmds[0].area, Rect::new(0, 0, 6, 10));
    assert_eq!(cmds[1].area, Rect::new(0, 0, 6, 10));
}

#[test]
fn focus_stack_operations() {
    let mut focus = FocusContext::new();
    assert_eq!(focus.top(), None);
    assert_eq!(focus.pop(), None);
    focus.push(3);
    focus.push(8);
    assert_eq!(focus.top(), Some(8));
    focus.focus_on(FocusTarget::new(11));
    assert_eq!(focus.top(), Some(11));
    assert_eq!(focus.pop(), Some(11));
    assert_eq!(focus.top(), Some(3));
    // replacing on an empty stack pushes
    let mut empty = FocusContext::new();
    empty.focus_on_value(4);
    assert_eq!(empty.top(), Some(4));
}

#[test]
fn ui_stack_orders_parents_first() {
    let mut ctx: ElementCtx<u8> = ElementCtx::new();
    let root = NodeDesc::new(0u8)
        .child(NodeDesc::new(1u8).child(NodeDesc::new(2u8)))
        .child(NodeDesc::new(3u8))
        .create(&mut ctx);
    let stack = generate_ui_stack(&ctx, root);
    let labels: Vec<u8> = stack
        .stack
        .iter()
        .map(|h| *ctx.get_payload(*h).unwrap())
        .collect();
    assert_eq!(labels, vec![0, 1, 2, 3]);
}

#[test]
fn percentages_parse_exactly() {
    assert_eq!(parse_percentage("60%"), Ok(60));
    assert_eq!(parse_percentage("100"), Ok(100));
    assert_eq!(parse_percentage("0%%"), Ok(0));
    assert_eq!(parse_percentage("007"), Ok(7));
    assert_eq!(parse_percentage("101"), Err(PercentError::OutOfRange));
    assert_eq!(parse_percentage("999999999999999"), Err(PercentError::OutOfRange));
    assert_eq!(parse_percentage(""), Err(PercentError::NotANumber));
    assert_eq!(parse_percentage("%"), Err(PercentError::NotANumber));
    assert_eq!(parse_percentage("6a%"), Err(PercentError::NotANumber));
    assert_eq!(parse_percentage("-5"), Err(PercentError::NotANumber));
}

#[test]
fn justify_iter_lists_all_policies() {
    let all = Justify::iter();
    assert_eq!(
        all,
        vec![
            Justify::Start,
            Justify::Center,
            Justify::SpaceBetween,
            Justify::SpaceAround,
            Justify::SpaceEvenly,
            Justify::End,
        ]
    );
}

#[test]
fn size_policy_queries() {
    assert!(Size::Fixed(3).should_clamp());
    assert!(!Size::Fit.should_clamp());
    assert!(!Size::Grow.should_clamp());
    assert!(Size::Grow.is_grow());
    assert!(!Size::Fixed(3).is_grow());
    assert_eq!(Size::default(), Size::Fit);
}

#[test]
fn param_patches_apply() {
    let p = LayoutParams::default();
    let p = Width(Size::Grow).apply(p);
    let p = Height::fixed(7).apply(p);
    let p = Gap(2).apply(p);
    let p = MainJustify(Justify::End).apply(p);
    let p = Padding::uniform(1).apply(p);
    let p = Direction::Horizontal.apply(p);
    assert_eq!(p.width, Size::Grow);
    assert_eq!(p.height, Size::Fixed(7));
    assert_eq!(p.gap, 2);
    assert_eq!(p.main_justify, Justify::End);
    assert_eq!(p.padding, Padding::uniform(1));
    assert_eq!(p.direction, Direction::Horizontal);
    assert_eq!(Width::grow().0, Size::Grow);
    assert_eq!(Width::fixed(4).0, Size::Fixed(4));
    assert_eq!(Height::grow().0, Size::Grow);

    // a builder takes patches too
    let mut ctx: ElementCtx<u8> = ElementCtx::new();
    let root = NodeDesc::new(0u8)
        .with(Width(Size::Fixed(9)))
        .with(Height(Size::Fixed(2)))
        .create(&mut ctx);
    ctx.calculate_layout(root).unwrap();
    assert_eq!(ctx.get(root).unwrap().width, 9);
}

#[test]
fn axis_helpers() {
    assert_eq!(sat_add(65_000, 60_000), u16::MAX);
    assert_eq!(sat_sub(3, 5), 0);
    assert_eq!(sat_mul(300, 300), 65_535);
    assert_eq!(gap_total(2, 5), 8);
    assert_eq!(gap_total(2, 0), 0);
    let a = AxisSizes { main_axis: 4, cross_axis: 9 };
    let b = AxisSizes { main_axis: 6, cross_axis: 1 };
    assert_eq!(a.min(b), AxisSizes { main_axis: 4, cross_axis: 1 });
    assert_eq!(a.with_main(7), AxisSizes { main_axis: 7, cross_axis: 9 });
    let d = AxisSizes::from_dims(Direction::Horizontal, 3, 8);
    assert_eq!(d, AxisSizes { main_axis: 3, cross_axis: 8 });
    assert_eq!(d.to_dims(Direction::Horizontal), (3, 8));
    assert_eq!(AxisSizes::from_dims(Direction::Vertical, 3, 8).main_axis, 8);
    let padded = a.pad(Padding::uniform(1), Direction::Horizontal);
    assert_eq!(padded, AxisSizes { main_axis: 6, cross_axis: 11 });
    assert_eq!(padded.shrink(Padding::uniform(1), Direction::Horizontal), a);
    let grown = a.increase(10, 20, Direction::Horizontal);
    assert_eq!(grown, AxisSizes { main_axis: 14, cross_axis: 20 });
}

#[test]
fn focus_markers_exist() {
    // the host attaches these to its own side tables; they carry no data
    let _ = (Focused, Hovered, Clicked, Pressed, FocusPopup);
    let policy = FocusPolicy::Popup;
    let stacks = matches!(policy, FocusPolicy::Popup);
    assert!(stacks);
    assert_ne!(FocusPolicy::Pass, FocusPolicy::Block);
}

#[test]
fn rect_intersection_clamps() {
    let a = Rect::new(2, 2, 10, 5);
    let b = Rect::new(5, 0, 20, 4);
    let i = a.intersection(b);
    assert_eq!(i, Rect::new(5, 2, 7, 2));
    assert!(!i.is_empty());
    let disjoint = Rect::new(0, 0, 2, 2).intersection(Rect::new(10, 10, 2, 2));
    assert!(disjoint.is_empty());
}
