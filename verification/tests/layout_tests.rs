//! Layout scenarios: trees of fixed, fit and growing nodes run through
//! `calculate_layout` and `render`.

use elemental::ui::NodeDesc;
use elemental::params::{Direction, Justify, LayoutParams, Padding, Size};
use elemental::render::Rect;
use elemental::store::ElementCtx;

fn params() -> LayoutParams {
    LayoutParams::default()
}

fn dump(ctx: &ElementCtx<String>, root: elemental::store::EntityHandle, area: Rect) -> String {
    let mut out = String::new();
    for cmd in ctx.render(root, area) {
        let node = ctx.get(cmd.target).unwrap();
        let label = ctx.get_payload(cmd.target).unwrap();
        out.push_str(&format!(
            "{label}: rect ({}, {}) {}x{} clipped ({}, {}) {}x{}\n",
            node.x, node.y, node.width, node.height, cmd.area.x, cmd.area.y, cmd.area.width,
            cmd.area.height,
        ));
    }
    out
}

#[test]
fn test_fixed_size() {
    let area = Rect::new(0, 0, 50, 10);
    let mut ctx: ElementCtx<String> = ElementCtx::new();
    let root = NodeDesc::new(String::from("root block"))
        .layout_params(LayoutParams {
            width: Size::Fixed(24),
            height: Size::Fixed(8),
            ..params()
        })
        .create(&mut ctx);
    ctx.calculate_layout(root).unwrap();
    let node = ctx.get(root).unwrap();
    assert_eq!((node.width, node.height), (24, 8));
    assert_eq!((node.x, node.y), (0, 0));
    println!("\ntest_fixed_size\n{}", dump(&ctx, root, area));
}

#[test]
fn test_fixed_size_with_children() {
    let area = Rect::new(0, 0, 50, 10);
    let mut ctx: ElementCtx<String> = ElementCtx::new();
    let child0 = NodeDesc::new(String::from("child #0"))
        .padding(Padding::uniform(1))
        .width(Size::Fixed(10))
        .height(Size::Fixed(3));
    let child1 = NodeDesc::new(String::from("child #1"))
        .padding(Padding::uniform(1))
        .width(Size::Fixed(14))
        .height(Size::Fixed(3));
    let root = NodeDesc::new(String::from("parent"))
        .padding(Padding::uniform(1))
        .child(child0)
        .child(child1)
        .width(Size::Fixed(24))
        .height(Size::Fixed(8))
        .create(&mut ctx);
    ctx.calculate_layout(root).unwrap();
    let node = ctx.get(root).unwrap();
    assert_eq!((node.width, node.height), (24, 8));
    let kids = node.children.clone();
    let c0 = ctx.get(kids[0]).unwrap();
    let c1 = ctx.get(kids[1]).unwrap();
    // both fixed children fit inside the parent's 22-cell inner width
    assert_eq!((c0.width, c0.height), (10, 3));
    assert_eq!((c1.width, c1.height), (14, 3));
    // vertical by default, stacked under the padded origin
    assert_eq!((c0.x, c0.y), (1, 1));
    assert_eq!((c1.x, c1.y), (1, 4));
    println!("\ntest_fixed_size_with_children\n{}", dump(&ctx, root, area));
}

#[test]
fn test_fixed_size_with_children_clamp_children() {
    let area = Rect::new(0, 0, 50, 10);
    let mut ctx: ElementCtx<String> = ElementCtx::new();
    let mut kids: Vec<elemental::store::EntityHandle> = Vec::new();
    for idx in 0..2u16 {
        let child = NodeDesc::new(format!("child #{idx}"))
            .layout_params(LayoutParams {
                width: Size::Fixed(10 + idx * 20),
                height: Size::Fixed(3),
                ..params()
            })
            .create(&mut ctx);
        kids.push(child);
    }
    let root = NodeDesc::new(String::from("parent"))
        .child_handle(kids[0])
        .child_handle(kids[1])
        .layout_params(LayoutParams {
            width: Size::Fixed(24),
            height: Size::Fixed(8),
            direction: Direction::Vertical,
            padding: Padding::uniform(1),
            ..params()
        })
        .create(&mut ctx);
    ctx.calculate_layout(root).unwrap();
    let c0 = ctx.get(kids[0]).unwrap();
    let c1 = ctx.get(kids[1]).unwrap();
    // the second child asked for 30 cells; the parent's inner width is 22
    assert_eq!(c0.width, 10);
    assert_eq!(c1.width, 22);
    println!(
        "\ntest_fixed_size_with_children_clamp_children\n{}",
        dump(&ctx, root, area)
    );
}

#[test]
fn test_fit() {
    let area = Rect::new(0, 0, 50, 10);
    let mut ctx: ElementCtx<String> = ElementCtx::new();
    let mut kids: Vec<elemental::store::EntityHandle> = Vec::new();
    for idx in 0..2u16 {
        let child = NodeDesc::new(format!("child #{idx}"))
            .layout_params(LayoutParams {
                width: Size::Fixed(10 + idx * 2),
                height: Size::Fixed(3),
                ..params()
            })
            .create(&mut ctx);
        kids.push(child);
    }
    let root = NodeDesc::new(String::from("parent"))
        .child_handle(kids[0])
        .child_handle(kids[1])
        .layout_params(LayoutParams {
            width: Size::Fit,
            height: Size::Fit,
            direction: Direction::Vertical,
            padding: Padding::uniform(1),
            ..params()
        })
        .create(&mut ctx);
    ctx.calculate_layout(root).unwrap();
    let node = ctx.get(root).unwrap();
    // widest child 12 plus padding 2; heights 3 + 3 plus padding 2
    assert_eq!((node.width, node.height), (14, 8));
    println!("\ntest_fit\n{}", dump(&ctx, root, area));
}

#[test]
fn test_horizontal() {
    let area = Rect::new(0, 0, 50, 10);
    let mut ctx: ElementCtx<String> = ElementCtx::new();
    let mut kids: Vec<elemental::store::EntityHandle> = Vec::new();
    for idx in 0..2u16 {
        let child = NodeDesc::new(format!("child #{idx}"))
            .layout_params(LayoutParams {
                width: Size::Fixed(10 + idx * 2),
                height: Size::Fixed(3),
                ..params()
            })
            .create(&mut ctx);
        kids.push(child);
    }
    let root = NodeDesc::new(String::from("parent"))
        .child_handle(kids[0])
        .child_handle(kids[1])
        .layout_params(LayoutParams {
            width: Size::Fit,
            height: Size::Fit,
            direction: Direction::Horizontal,
            padding: Padding::uniform(1),
            ..params()
        })
        .create(&mut ctx);
    ctx.calculate_layout(root).unwrap();
    let node = ctx.get(root).unwrap();
    // widths 10 + 12 plus padding 2; tallest child 3 plus padding 2
    assert_eq!((node.width, node.height), (24, 5));
    let c0 = ctx.get(kids[0]).unwrap();
    let c1 = ctx.get(kids[1]).unwrap();
    assert_eq!((c0.x, c0.y), (1, 1));
    assert_eq!((c1.x, c1.y), (11, 1));
    println!("\ntest_horizontal\n{}", dump(&ctx, root, area));
}

#[test]
fn test_gap() {
    let area = Rect::new(0, 0, 50, 10);
    let mut ctx: ElementCtx<String> = ElementCtx::new();
    let mut kids: Vec<elemental::store::EntityHandle> = Vec::new();
    for idx in 0..2u16 {
        let child = NodeDesc::new(format!("child #{idx}"))
            .layout_params(LayoutParams {
                width: Size::Fixed(10 + idx * 2),
                height: Size::Fixed(3),
                ..params()
            })
            .create(&mut ctx);
        kids.push(child);
    }
    let root = NodeDesc::new(String::from("parent"))
        .child_handle(kids[0])
        .child_handle(kids[1])
        .layout_params(LayoutParams {
            width: Size::Fit,
            height: Size::Fit,
            direction: Direction::Horizontal,
            padding: Padding::uniform(1),
            gap: 2,
            ..params()
        })
        .create(&mut ctx);
    ctx.calculate_layout(root).unwrap();
    let node = ctx.get(root).unwrap();
    // the gap adds two cells between the children
    assert_eq!((node.width, node.height), (26, 5));
    let c1 = ctx.get(kids[1]).unwrap();
    assert_eq!((c1.x, c1.y), (13, 1));
    println!("\ntest_gap\n{}", dump(&ctx, root, area));
}

#[test]
fn test_grow() {
    let area = Rect::new(0, 0, 50, 24);
    let mut ctx: ElementCtx<String> = ElementCtx::new();
    let child0 = NodeDesc::new(String::from("sidebar"))
        .child(
            NodeDesc::new(String::from(
                "this sidebar is so amazing it can have long text that wraps around",
            ))
            .width(Size::Grow)
            .height(Size::Grow),
        )
        .width(Size::Fixed(10))
        .padding(Padding::uniform(1))
        .height(Size::Grow);
    let child2 = NodeDesc::new(String::from("child #2")).width(Size::Grow).height(Size::Grow);
    let child3 = NodeDesc::new(String::from("child #3")).width(Size::Grow).height(Size::Grow);
    let child1 = NodeDesc::new(String::from("child #1"))
        .width(Size::Grow)
        .height(Size::Grow)
        .padding(Padding::uniform(1))
        .gap(1)
        .direction(Direction::Vertical)
        .child(child2)
        .child(child3);
    let root = NodeDesc::new(String::from("parent"))
        .child(child0)
        .child(child1)
        .layout_params(LayoutParams {
            width: Size::Fixed(36),
            height: Size::Fixed(18),
            direction: Direction::Horizontal,
            padding: Padding::uniform(1),
            ..params()
        })
        .create(&mut ctx);
    ctx.calculate_layout(root).unwrap();
    let node = ctx.get(root).unwrap();
    let kids = node.children.clone();
    let sidebar = ctx.get(kids[0]).unwrap();
    let right = ctx.get(kids[1]).unwrap();
    // the sidebar keeps its fixed 10 cells, the growing child takes the
    // other 24 of the 34 inner cells, and both fill the inner height
    assert_eq!(sidebar.width, 10);
    assert_eq!(right.width, 24);
    assert_eq!(sidebar.height, 16);
    assert_eq!(right.height, 16);
    println!("\ntest_grow\n{}", dump(&ctx, root, area));
}

#[test]
fn test_multiple_children() {
    let area = Rect::new(0, 0, 50, 20);
    let mut ctx: ElementCtx<String> = ElementCtx::new();
    let child = |ctx: &mut ElementCtx<String>, idx: u16, height: u16| {
        NodeDesc::new(format!("child #{idx}"))
            .layout_params(LayoutParams {
                padding: Padding::uniform(1),
                width: Size::Fixed(16),
                height: Size::Fixed(height),
                ..LayoutParams::default()
            })
            .create(ctx)
    };
    let sub0 = child(&mut ctx, 0, 6);
    let sub1 = child(&mut ctx, 1, 6);
    let big0 = child(&mut ctx, 2, 14);
    ctx.set_children(big0, vec![sub0, sub1]).unwrap();
    let big1 = child(&mut ctx, 3, 14);
    let root = NodeDesc::new(String::from("parent"))
        .child_handle(big0)
        .child_handle(big1)
        .layout_params(LayoutParams {
            width: Size::Fit,
            height: Size::Fit,
            direction: Direction::Horizontal,
            padding: Padding::uniform(1),
            ..params()
        })
        .create(&mut ctx);
    ctx.calculate_layout(root).unwrap();
    let node = ctx.get(root).unwrap();
    // two 16-wide children side by side plus padding
    assert_eq!((node.width, node.height), (34, 16));
    let s0 = ctx.get(sub0).unwrap();
    let s1 = ctx.get(sub1).unwrap();
    assert_eq!((s0.x, s0.y), (2, 2));
    assert_eq!((s1.x, s1.y), (2, 8));
    println!("\ntest_multiple_children\n{}", dump(&ctx, root, area));
}

#[test]
fn test_list_justify() {
    for justify in elemental::params::Justify::iter() {
        let area = Rect::new(0, 0, 50, 20);
        let mut ctx: ElementCtx<String> = ElementCtx::new();
        let mut root = NodeDesc::new(format!("{justify:?}"))
            .padding(Padding::uniform(1))
            .width(Size::Fixed(24))
            .height(Size::Fixed(20))
            .main_justify(justify);
        for idx in 0..3 {
            root = root.child(
                NodeDesc::new(format!("child #{idx}"))
                    .padding(Padding::uniform(1))
                    .child(
                        NodeDesc::new(format!("text #{idx}")).width(Size::Grow).height(Size::Grow),
                    )
                    .width(Size::Grow)
                    .height(Size::Fixed(3)),
            );
        }
        let root = root.create(&mut ctx);
        ctx.calculate_layout(root).unwrap();
        let node = ctx.get(root).unwrap();
        // growing children always span the inner width
        for child in node.children.clone() {
            assert_eq!(ctx.get(child).unwrap().width, 22);
        }
        println!("\ntest_list_justify\n{}", dump(&ctx, root, area));
    }
}

#[test]
fn lib_test_fixed_size_with_children() {
    // same tree as test_fixed_size_with_children, built through the
    // single-attribute setters
    let mut ctx: ElementCtx<String> = ElementCtx::new();
    let root = NodeDesc::new(String::from("parent"))
        .padding(Padding::uniform(1))
        .child(
            NodeDesc::new(String::from("child #0"))
                .padding(Padding::uniform(1))
                .width(Size::Fixed(10))
                .height(Size::Fixed(3)),
        )
        .child(
            NodeDesc::new(String::from("child #1"))
                .padding(Padding::uniform(1))
                .width(Size::Fixed(14))
                .height(Size::Fixed(3)),
        )
        .width(Size::Fixed(24))
        .height(Size::Fixed(8))
        .create(&mut ctx);
    ctx.calculate_layout(root).unwrap();
    let node = ctx.get(root).unwrap();
    assert_eq!((node.width, node.height), (24, 8));
    println!(
        "\nlib_test_fixed_size_with_children\n{}",
        dump(&ctx, root, Rect::new(0, 0, 50, 10))
    );
}

#[test]
fn lib_test_grow() {
    // same tree as test_grow, built with individual setters
    let mut ctx: ElementCtx<String> = ElementCtx::new();
    let sidebar = NodeDesc::new(String::from("sidebar"))
        .child(
            NodeDesc::new(String::from(
                "this sidebar is so amazing it can have long text that wraps around",
            ))
            .width(Size::Grow)
            .height(Size::Grow),
        )
        .width(Size::Fixed(10))
        .padding(Padding::uniform(1))
        .height(Size::Grow);
    let column = NodeDesc::new(String::from("child #1"))
        .width(Size::Grow)
        .height(Size::Grow)
        .padding(Padding::uniform(1))
        .gap(1)
        .direction(Direction::Vertical)
        .child(NodeDesc::new(String::from("child #2")).width(Size::Grow).height(Size::Grow))
        .child(NodeDesc::new(String::from("child #3")).width(Size::Grow).height(Size::Grow));
    let root = NodeDesc::new(String::from("parent"))
        .child(sidebar)
        .child(column)
        .width(Size::Fixed(36))
        .height(Size::Fixed(18))
        .direction(Direction::Horizontal)
        .padding(Padding::uniform(1))
        .create(&mut ctx);
    ctx.calculate_layout(root).unwrap();
    let node = ctx.get(root).unwrap();
    let kids = node.children.clone();
    // the two stacked growing children split the 14 inner cells minus one
    // gap cell: 13 = 7 + 6, front-loaded
    let col = ctx.get(kids[1]).unwrap();
    let col_kids = col.children.clone();
    let c2 = ctx.get(col_kids[0]).unwrap();
    let c3 = ctx.get(col_kids[1]).unwrap();
    assert_eq!(c2.height + c3.height + 1, 14);
    assert_eq!(c2.height, c3.height + 1);
    println!("\nlib_test_grow\n{}", dump(&ctx, root, Rect::new(0, 0, 50, 24)));
}

#[test]
fn lib_test_list_justify() {
    for justify in Justify::iter() {
        let mut ctx: ElementCtx<String> = ElementCtx::new();
        let mut root = NodeDesc::new(format!("{justify:?}"))
            .padding(Padding::uniform(1))
            .width(Size::Fixed(24))
            .height(Size::Fixed(20))
            .main_justify(justify);
        for idx in 0..3 {
            root = root.child(
                NodeDesc::new(format!("child #{idx}")).width(Size::Grow).height(Size::Fixed(3)),
            );
        }
        let root = root.create(&mut ctx);
        ctx.calculate_layout(root).unwrap();
        println!(
            "\nlib_test_list_justify\n{}",
            dump(&ctx, root, Rect::new(0, 0, 50, 20))
        );
    }
}
