use std::collections::HashMap;
use too::debug_tree::{render_compact_tree, split_lines, DebugNode, FlexLabel, InnerNode, ViewInfo};
use too::pretty_tree::render_pretty_tree;
use too::filter::{Depth, Filter};
use too::geom::{Pos2, Rect, Vec2};
use too::input::{Handled, ViewEvent, ViewId};
use too::input_state::{Dispatcher, InputState};
use too::interest::Interest;
use too::layout::{Layer, LayoutNodes};
use too::response::Response;
use too::view_nodes::ViewNodes;

fn rect(x0: i32, y0: i32, x1: i32, y1: i32) -> Rect {
    Rect::from_min_max(Pos2::new(x0, y0), Pos2::new(x1, y1))
}

/// Lay out `id` with a rectangle of `size` at `pos`.
fn place(l: &mut LayoutNodes, id: ViewId, pos: (i32, i32), size: (i32, i32), interactive: bool) {
    l.begin_compute(id);
    l.finish_compute(id, Vec2::new(size.0, size.1), Interest::none(), interactive);
    l.set_position(id, Pos2::new(pos.0, pos.1));
}

fn info(kind_name: &str, debug_text: &str) -> ViewInfo {
    ViewInfo {
        kind_name: kind_name.to_string(),
        debug_text: debug_text.to_string(),
        flex: FlexLabel::Rigid,
        interest: Interest::none(),
    }
}

const ALIGNED: u64 = 1;
const LABEL: u64 = 2;
const BUTTON: u64 = 3;
const FILL: u64 = 4;

#[test]
fn response_keeps_its_id() {
    let r = Response::new(ViewId(9), (1u8, "two"));
    assert_eq!(r.id(), ViewId(9));
    assert_eq!(r.inner().0, 1);
    assert_eq!(r.0, 1);
    let (left, right) = Response::new(ViewId(9), (1u8, "two")).split();
    assert_eq!(left.id(), ViewId(9));
    assert_eq!(right.id(), ViewId(9));
    assert_eq!(left.into_inner(), 1);
    assert_eq!(right.into_inner(), "two");
    assert_eq!(r.flatten_right().into_inner(), "two");
    let l = Response::new(ViewId(3), (5i32, 6i32)).flatten_left();
    assert_eq!((l.id(), l.into_inner()), (ViewId(3), 5));
    let m = Response::new(ViewId(4), 20u32).map(|x| x + 1);
    assert_eq!((m.id(), m.into_inner()), (ViewId(4), 21));
    let mut n = Response::new(ViewId(4), 1u32);
    *n.inner_mut() = 7;
    assert_eq!(*n, 7);
}

#[test]
fn lines_are_split_at_newlines() {
    assert_eq!(split_lines("a\nbc"), vec!["a".to_string(), "bc".to_string()]);
    assert_eq!(split_lines(""), vec![String::new()]);
    assert_eq!(split_lines("x\n"), vec!["x".to_string(), String::new()]);
    assert_eq!(split_lines("\n\n"), vec![String::new(), String::new(), String::new()]);
}

/// root -> [aligned -> [label], aligned -> [button], fill]
fn sample() -> (ViewNodes, LayoutNodes, HashMap<u64, ViewInfo>, Vec<ViewId>) {
    let mut t = ViewNodes::new(0);
    let root = t.root();
    let a1 = t.allocate_view(root, ALIGNED);
    let label = t.allocate_view(a1, LABEL);
    let a2 = t.allocate_view(root, ALIGNED);
    let button = t.allocate_view(a2, BUTTON);
    let fill = t.allocate_view(root, FILL);
    let mut l = LayoutNodes::new();
    place(&mut l, root, (0, 0), (80, 25), false);
    place(&mut l, a1, (0, 0), (80, 25), false);
    place(&mut l, label, (35, 12), (11, 1), false);
    place(&mut l, button, (70, 0), (10, 1), true);
    place(&mut l, fill, (0, 0), (10, 10), false);
    let mut views = HashMap::new();
    views.insert(root.0, info("too::view::views::Root", "Root"));
    views.insert(a1.0, info("too::view::views::Aligned", "Aligned {\n    x: Center,\n}"));
    views.insert(label.0, info("too::view::views::Label", "Label"));
    views.insert(a2.0, info("too::view::views::Aligned", "Aligned"));
    views.insert(button.0, info("too::view::views::Button", "Button"));
    views.insert(fill.0, info("too::view::views::Fill", "Fill"));
    (t, l, views, vec![root, a1, label, a2, button, fill])
}

#[test]
fn compact_tree_draws_the_views() {
    let (t, l, views, _) = sample();
    let node = DebugNode::new(t.root(), &t, &l, &views);
    let expected = "Root(1v1)\n\
                    ├─ Aligned(2v1)\n\
                    │  └─ Label(3v1)\n\
                    ├─ Aligned(4v1)\n\
                    │  └─ Button(5v1)\n\
                    └─ Fill(6v1)\n";
    assert_eq!(node.compact_tree(), expected);
    assert_eq!(render_compact_tree(&node), expected);
}

#[test]
fn snapshot_records_names_lines_and_layout() {
    let (t, l, views, ids) = sample();
    let node = DebugNode::new(t.root(), &t, &l, &views);
    assert_eq!(node.name, "Root");
    assert_eq!(node.children.len(), 3);
    let a1 = &node.children[0];
    assert_eq!(a1.id, ids[1]);
    assert_eq!(a1.name, "Aligned");
    assert_eq!(a1.debug, vec!["Aligned {".to_string(), "    x: Center,".to_string(), "}".to_string()]);
    match &node.children[1].children[0].inner {
        InnerNode::FoundNode { rect: r, interactive, layer, .. } => {
            assert_eq!(*r, rect(70, 0, 80, 1));
            assert!(*interactive);
            assert_eq!(*layer, Layer::Middle);
        }
        InnerNode::MissingLayout => panic!("the button was laid out"),
    }
    match &node.inner {
        InnerNode::FoundNode { interactive, .. } => assert!(!*interactive),
        InnerNode::MissingLayout => panic!("the root is always shown with its layout"),
    }
}

#[test]
fn snapshot_marks_views_without_layout() {
    let mut t = ViewNodes::new(0);
    let root = t.root();
    let child = t.allocate_view(root, LABEL);
    let mut l = LayoutNodes::new();
    place(&mut l, root, (0, 0), (10, 10), false);
    let mut views = HashMap::new();
    views.insert(root.0, info("Root", "Root"));
    views.insert(child.0, info("a::b::Label<c::D>", "Label"));
    let node = DebugNode::new(root, &t, &l, &views);
    assert_eq!(node.children[0].name, "Label<D>");
    assert!(matches!(node.children[0].inner, InnerNode::MissingLayout));
}

/// root -> [a -> [c, d], b -> [e]]
fn search_tree() -> (ViewNodes, LayoutNodes, [ViewId; 6]) {
    let mut t = ViewNodes::new(0);
    let root = t.root();
    let a = t.allocate_view(root, LABEL);
    let b = t.allocate_view(root, BUTTON);
    let c = t.allocate_view(a, BUTTON);
    let d = t.allocate_view(a, LABEL);
    let e = t.allocate_view(b, BUTTON);
    let mut l = LayoutNodes::new();
    place(&mut l, root, (0, 0), (80, 25), false);
    place(&mut l, a, (0, 0), (40, 25), true);
    place(&mut l, b, (40, 0), (40, 25), false);
    place(&mut l, c, (1, 1), (5, 5), true);
    place(&mut l, d, (50, 1), (5, 5), false);
    (t, l, [root, a, b, c, d, e])
}

#[test]
fn search_walks_breadth_first() {
    let (t, l, [root, a, b, c, d, e]) = search_tree();
    let input = InputState::new();
    let f = Filter::new(&t, &l, &input);
    assert_eq!(f.by_type(root, Depth::All, BUTTON), vec![b, c, e]);
    assert_eq!(f.by_type(root, Depth::All, LABEL), vec![a, d]);
    assert_eq!(f.by_type(root, Depth::All, 0), vec![root]);
    assert_eq!(f.by_type(a, Depth::All, BUTTON), vec![c]);
    assert_eq!(f.find_type(root, Depth::All, BUTTON), Some(b));
    assert_eq!(f.find_type(root, Depth::All, FILL), None);
    assert_eq!(f.by_type(root, Depth::Immediate, BUTTON), vec![b]);
    assert_eq!(f.by_type(root, Depth::Specific(0), 0), vec![]);
}

#[test]
fn search_depth_counts_changes_of_parent() {
    let (t, l, [root, a, b, c, d, e]) = search_tree();
    let input = InputState::new();
    let f = Filter::new(&t, &l, &input);
    let every = |_: ViewId, _: &too::layout::LayoutNode| true;
    // c and d (under a) count as depth 1, e (under b) as depth 2
    assert_eq!(f.by_type(root, Depth::Specific(1), BUTTON), vec![b]);
    assert_eq!(f.by_type(root, Depth::Specific(2), BUTTON), vec![b, c]);
    assert_eq!(f.by_type(root, Depth::Specific(3), BUTTON), vec![b, c, e]);
    // e was never laid out
    assert_eq!(f.filter_layout(root, Depth::All, every), vec![root, a, b, c, d]);
    let _ = e;
}

#[test]
fn search_by_region_and_property() {
    let (t, l, [root, a, b, c, d, _e]) = search_tree();
    let input = InputState::new();
    let f = Filter::new(&t, &l, &input);
    assert_eq!(f.by_region(root, Depth::All, rect(0, 0, 40, 25)), vec![a, c]);
    assert_eq!(f.by_region(root, Depth::All, rect(40, 0, 80, 25)), vec![b, d]);
    assert_eq!(f.by_property(root, Depth::All, |p| p.interactive), vec![a, c]);
    assert_eq!(f.by_property(root, Depth::All, |p| p.hovered || p.focused), vec![]);
    let small = |_: ViewId, n: &too::layout::LayoutNode| n.rect.max.x - n.rect.min.x < 10;
    assert_eq!(f.filter_layout(root, Depth::All, small), vec![c, d]);
}

#[test]
fn resolve_moves_children_by_their_parents() {
    let (t, _, [root, a, b, c, d, e]) = search_tree();
    let mut l = LayoutNodes::new();
    place(&mut l, root, (0, 0), (80, 25), false);
    place(&mut l, a, (2, 3), (8, 5), false);
    place(&mut l, c, (1, 1), (3, 3), false);
    place(&mut l, d, (70, 20), (20, 20), false);
    place(&mut l, b, (-2, 5), (5, 3), false);
    place(&mut l, e, (1, 1), (1, 1), false);
    l.resolve(&t, rect(0, 0, 80, 25));
    assert_eq!(l.get(root).unwrap().rect, rect(0, 0, 80, 25));
    assert_eq!(l.get(a).unwrap().rect, rect(2, 3, 10, 8));
    // c is moved by a's corner
    assert_eq!(l.get(c).unwrap().rect, rect(3, 4, 6, 7));
    // d's far corner is kept within the area before it is moved
    assert_eq!(l.get(d).unwrap().rect, rect(72, 23, 82, 28));
    // a negative corner stays, the far corner is clamped
    assert_eq!(l.get(b).unwrap().rect, rect(-2, 5, 3, 8));
    // e is moved by b's corner
    assert_eq!(l.get(e).unwrap().rect, rect(-1, 6, 0, 7));
}

#[test]
fn resolve_stops_below_empty_or_missing_views() {
    let (t, _, [root, a, b, c, _d, e]) = search_tree();
    let mut l = LayoutNodes::new();
    place(&mut l, root, (5, 5), (80, 25), false);
    place(&mut l, a, (2, 3), (0, 5), false);
    place(&mut l, c, (1, 1), (3, 3), false);
    place(&mut l, e, (1, 1), (1, 1), false);
    l.resolve(&t, rect(0, 0, 100, 100));
    // the root is moved by the area's corner
    assert_eq!(l.get(root).unwrap().rect, rect(5, 5, 85, 30));
    // a is empty: it and its children stay as they were
    assert_eq!(l.get(a).unwrap().rect, rect(2, 3, 2, 8));
    assert_eq!(l.get(c).unwrap().rect, rect(1, 1, 4, 4));
    // b was never laid out, so e stays too
    assert!(l.get(b).is_none());
    assert_eq!(l.get(e).unwrap().rect, rect(1, 1, 2, 2));
}

const TWO: &str = "          ┌───────────────────┐\n          │ 1v1          Root │\n          ╞═══════════════════╡\n          │ x: 0        w: 20 │\n          │ y: 0         h: 5 │\n          ┝╌╌╌╌╌╌╌╌╌╌╌╌╌╌╌╌╌╌╌┥\n          │ Layer      Middle │\n          ┝╌╌╌╌╌╌╌╌╌╌╌╌╌╌╌╌╌╌╌┥\n          │ Interactive false │\n          ┝╌╌╌╌╌╌╌╌╌╌╌╌╌╌╌╌╌╌╌┥\n          │ Root              │\n          ┝╌╌╌╌╌╌╌╌╌╌╌╌╌╌╌╌╌╌╌┥\n          │ Children        2 │\n          └─────────┯─────────┘\n          ╭╌╌╌╌╌╌╌╌╌┴╌╌╌╌╌╌╌╌╌╌╮\n┌─────────┷─────────┐ ┌────────┷─────────┐\n│ 2v1         Label │ │ 3v1       Button │\n╞═══════════════════╡ ╞══════════════════╡\n│ x: 1         w: 3 │ │ x: 5        w: 4 │\n│ y: 1         h: 1 │ │ y: 0        h: 1 │\n┝╌╌╌╌╌╌╌╌╌╌╌╌╌╌╌╌╌╌╌┥ ┝╌╌╌╌╌╌╌╌╌╌╌╌╌╌╌╌╌╌┥\n│ Layer      Middle │ │ Layer     Middle │\n┝╌╌╌╌╌╌╌╌╌╌╌╌╌╌╌╌╌╌╌┥ ┝╌╌╌╌╌╌╌╌╌╌╌╌╌╌╌╌╌╌┥\n│ Interactive false │ │ Interactive true │\n┝╌╌╌╌╌╌╌╌╌╌╌╌╌╌╌╌╌╌╌┥ ┝╌╌╌╌╌╌╌╌╌╌╌╌╌╌╌╌╌╌┥\n│ Flex:        1.00 │ │   MOUSE_INSIDE   │\n│ Fit:        Tight │ │      FOCUS       │\n┝╌╌╌╌╌╌╌╌╌╌╌╌╌╌╌╌╌╌╌┥ ┝╌╌╌╌╌╌╌╌╌╌╌╌╌╌╌╌╌╌┥\n│ Label {           │ │ Button           │\n│     text: \"hi\",   │ └──────────────────┘\n│ }                 │\n└───────────────────┘";
const ONE: &str = "      ┌───────────────────┐\n      │ 1v1          Root │\n      ╞═══════════════════╡\n      │ x: 0         w: 8 │\n      │ y: 0         h: 2 │\n      ┝╌╌╌╌╌╌╌╌╌╌╌╌╌╌╌╌╌╌╌┥\n      │ Layer         Top │\n      ┝╌╌╌╌╌╌╌╌╌╌╌╌╌╌╌╌╌╌╌┥\n      │ Interactive false │\n      ┝╌╌╌╌╌╌╌╌╌╌╌╌╌╌╌╌╌╌╌┥\n      │ Root              │\n      └─────────┯─────────┘\n┌───────────────┷───────────────┐\n│ 2v1                      Fill │\n╞═══════════════════════════════╡\n│ !! Node not used in layout !! │\n╞═══════════════════════════════╡\n│ Fill                          │\n└───────────────────────────────┘";

#[test]
fn pretty_tree_draws_boxes_joined_by_lines() {
    let mut t = ViewNodes::new(0);
    let root = t.root();
    let a = t.allocate_view(root, LABEL);
    let b = t.allocate_view(root, BUTTON);
    let mut l = LayoutNodes::new();
    place(&mut l, root, (0, 0), (20, 5), false);
    place(&mut l, a, (1, 1), (3, 1), false);
    place(&mut l, b, (5, 0), (4, 1), true);
    let mut views = HashMap::new();
    views.insert(root.0, info("too::Root", "Root"));
    views.insert(
        a.0,
        ViewInfo {
            kind_name: "too::Label".to_string(),
            debug_text: "Label {\n    text: \"hi\",\n}".to_string(),
            flex: FlexLabel::Tight("1.00".to_string()),
            interest: Interest::none(),
        },
    );
    views.insert(
        b.0,
        ViewInfo {
            kind_name: "too::Button".to_string(),
            debug_text: "Button".to_string(),
            flex: FlexLabel::Rigid,
            interest: Interest(1 | 8),
        },
    );
    let node = DebugNode::new(root, &t, &l, &views);
    assert_eq!(node.pretty_tree().as_deref(), Some(TWO));
    assert_eq!(render_pretty_tree(&node).as_deref(), Some(TWO));
}

#[test]
fn pretty_tree_marks_views_without_layout() {
    let mut t = ViewNodes::new(0);
    let root = t.root();
    let c = t.allocate_view(root, FILL);
    let mut l = LayoutNodes::new();
    place(&mut l, root, (0, 0), (8, 2), false);
    l.set_layer(root, Layer::Top);
    let mut views = HashMap::new();
    views.insert(root.0, info("Root", "Root"));
    views.insert(c.0, info("Fill", "Fill"));
    let node = DebugNode::new(root, &t, &l, &views);
    assert_eq!(node.pretty_tree().as_deref(), Some(ONE));
}

#[test]
fn pretty_tree_refuses_a_tree_that_does_not_fit_its_grid() {
    // root -> a -> [b, c -> d]: a's box is centred past what the grid holds
    let mut t = ViewNodes::new(0);
    let root = t.root();
    let a = t.allocate_view(root, LABEL);
    let b = t.allocate_view(a, LABEL);
    let c = t.allocate_view(a, LABEL);
    let d = t.allocate_view(c, LABEL);
    let mut l = LayoutNodes::new();
    let mut views = HashMap::new();
    for (id, w) in [(root, 1), (a, 60), (b, 40), (c, 1), (d, 1)] {
        place(&mut l, id, (0, 0), (1, 1), false);
        views.insert(id.0, info("V", &"x".repeat(w)));
    }
    let node = DebugNode::new(root, &t, &l, &views);
    assert_eq!(node.pretty_tree(), None);
}

#[test]
fn event_context_sees_focus_and_layout() {
    let (mut t, l, [root, a, _b, c, _d, _e]) = search_tree();
    let mut input = InputState::new();
    input.set_focus(Some(a));
    t.begin(a);
    t.begin(c);
    let ctx = too::event_ctx::EventCtx { current: c, nodes: &t, layout: &l, input: &input };
    assert!(!ctx.is_focused());
    assert!(ctx.is_parent_focused());
    assert!(!ctx.is_hovered());
    assert!(!ctx.is_parent_hovered());
    assert_eq!(ctx.rect(), rect(1, 1, 6, 6));
    assert_eq!(ctx.cursor_pos(), input.mouse_pos());
    let at_root = too::event_ctx::EventCtx { current: root, nodes: &t, layout: &l, input: &input };
    assert_eq!(at_root.rect(), rect(0, 0, 80, 25));
}

#[test]
fn search_to_every_depth_reaches_the_deepest_view() {
    let mut t = ViewNodes::new(0);
    let root = t.root();
    let mut parent = root;
    for _ in 0..12 {
        parent = t.allocate_view(parent, LABEL);
    }
    let deepest = t.allocate_view(parent, BUTTON);
    let l = LayoutNodes::new();
    let input = InputState::new();
    let f = Filter::new(&t, &l, &input);
    assert_eq!(f.by_type(root, Depth::All, BUTTON), vec![deepest]);
    assert_eq!(f.by_type(root, Depth::All, LABEL).len(), 12);
    assert_eq!(f.by_type(root, Depth::Specific(5), BUTTON), vec![]);
}

/// Views that sink what they get when listed in `sinks`; every delivery is
/// recorded.
struct Sinks {
    sinks: Vec<ViewId>,
    got: Vec<ViewId>,
}

impl too::input_state::ViewTree for Sinks {
    fn deliver(
        &mut self,
        _input: &InputState,
        _layout: &LayoutNodes,
        id: ViewId,
        _event: ViewEvent,
    ) -> Option<Handled> {
        self.got.push(id);
        if self.sinks.contains(&id) {
            Some(Handled::Sink)
        } else {
            Some(Handled::Bubble)
        }
    }
}

#[test]
fn default_event_goes_to_children_until_one_sinks() {
    let (t, l, [root, a, b, c, d, _e]) = search_tree();
    let input = InputState::new();
    let ctx = too::event_ctx::EventCtx { current: root, nodes: &t, layout: &l, input: &input };
    let mut all = Dispatcher::new(Sinks { sinks: vec![], got: vec![] });
    assert_eq!(ctx.default_event(&mut all, ViewEvent::FocusGained), Handled::Bubble);
    assert_eq!(all.tree().got, vec![a, b]);
    let mut first = Dispatcher::new(Sinks { sinks: vec![a], got: vec![] });
    assert_eq!(ctx.default_event(&mut first, ViewEvent::FocusGained), Handled::Sink);
    assert_eq!(first.tree().got, vec![a]);
    let at_a = too::event_ctx::EventCtx { current: a, nodes: &t, layout: &l, input: &input };
    let mut second = Dispatcher::new(Sinks { sinks: vec![d], got: vec![] });
    assert_eq!(at_a.default_event(&mut second, ViewEvent::FocusLost), Handled::Sink);
    assert_eq!(second.tree().got, vec![c, d]);
    let at_c = too::event_ctx::EventCtx { current: c, nodes: &t, layout: &l, input: &input };
    let mut none = Dispatcher::new(Sinks { sinks: vec![], got: vec![] });
    assert_eq!(at_c.default_event(&mut none, ViewEvent::FocusLost), Handled::Bubble);
    assert!(none.tree().got.is_empty());
}
