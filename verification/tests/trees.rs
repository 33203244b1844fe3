use too::geom::{Pos2, Rect, Vec2};
use too::input::ViewId;
use too::interest::Interest;
use too::layout::{Axis, EventInterest, Layer, LayoutNode, LayoutNodes};
use too::render::{DrawPlan, RenderNodes, RenderQueue};
use too::view_nodes::{ViewNodes, Visit};

fn rect(x0: i32, y0: i32, x1: i32, y1: i32) -> Rect {
    Rect::from_min_max(Pos2::new(x0, y0), Pos2::new(x1, y1))
}

#[test]
fn newest_layer_is_offered_first() {
    let mut e = EventInterest::new();
    e.push_layer(ViewId(1));
    e.insert(ViewId(2), Interest::mouse());
    e.insert(ViewId(3), Interest::focus());
    e.push_layer(ViewId(4));
    e.insert(ViewId(5), Interest::mouse_move());
    assert_eq!(e.current_layer_root(), Some(ViewId(4)));
    e.pop_layer();
    e.insert(ViewId(6), Interest::focus_input());
    assert_eq!(
        e.iter(),
        vec![
            (ViewId(5), Interest::mouse_move()),
            (ViewId(2), Interest::mouse()),
            (ViewId(3), Interest::focus()),
            (ViewId(6), Interest::focus_input()),
        ]
    );
    e.clear();
    assert!(e.iter().is_empty());
    assert_eq!(e.current_layer_root(), None);
}

#[test]
fn layout_nodes_record_clipping_and_layers() {
    let mut l = LayoutNodes::new();
    let (root, clip, child) = (ViewId(1), ViewId(2), ViewId(3));
    l.new_layer(root);
    l.begin_compute(root);
    l.begin_compute(clip);
    l.enable_clipping(clip);
    l.begin_compute(child);
    l.finish_compute(child, Vec2::new(5, 5), Interest::mouse(), true);
    l.finish_compute(clip, Vec2::new(3, 3), Interest::none(), false);
    l.finish_compute(root, Vec2::new(80, 25), Interest::none(), false);
    let c = *l.get(child).unwrap();
    assert_eq!(c.clipped_by, Some(clip));
    assert!(!c.clipping_enabled);
    assert_eq!(c.rect, rect(0, 0, 5, 5));
    let k = *l.get(clip).unwrap();
    assert!(k.clipping_enabled);
    assert_eq!(k.clipped_by, None);
    let r = *l.get(root).unwrap();
    assert!(r.new_layer);
    assert_eq!(l.interest_list(), vec![(child, Interest::mouse())]);
    assert_eq!(l.rect(clip), Some(rect(0, 0, 3, 3)));
    assert!(l.contains(root));
    l.set_layer(child, Layer::Top);
    assert_eq!(l.get(child).unwrap().layer, Layer::Top);
    l.remove(child);
    assert!(!l.contains(child));
    assert_eq!(l.rect(ViewId(42)), None);
}

#[test]
fn axis_stack() {
    let mut l = LayoutNodes::new();
    assert_eq!(l.current_axis(), None);
    l.push_axis(Axis::Vertical);
    l.push_axis(Axis::Horizontal);
    assert_eq!(l.current_axis(), Some(Axis::Vertical));
    l.pop_axis();
    assert_eq!(l.current_axis(), None);
    assert_eq!(Axis::Horizontal.main((1, 2)), 1);
    assert_eq!(Axis::Vertical.main((1, 2)), 2);
}

#[test]
fn drawing_waits_for_higher_layers() {
    let mut l = LayoutNodes::new();
    let (a, b, c) = (ViewId(1), ViewId(2), ViewId(3));
    l.begin_compute(a);
    l.finish_compute(a, Vec2::new(10, 10), Interest::none(), false);
    l.begin_compute(b);
    l.finish_compute(b, Vec2::new(4, 4), Interest::none(), false);
    l.set_layer(b, Layer::Top);
    l.begin_compute(c);
    l.finish_compute(c, Vec2::new(0, 4), Interest::none(), false);
    let mut r = RenderNodes::new();
    // the first view is on the middle layer, above the bottom one
    assert_eq!(r.plan(a, &l), DrawPlan::Defer);
    r.set_current_layer(Layer::Middle);
    assert_eq!(r.plan(a, &l), DrawPlan::Draw(rect(0, 0, 10, 10)));
    assert_eq!(r.plan(b, &l), DrawPlan::Defer);
    assert_eq!(r.plan(c, &l), DrawPlan::Skip);
    assert_eq!(r.plan(ViewId(9), &l), DrawPlan::Skip);
    r.set_current_layer(Layer::Debug);
    assert_eq!(r.plan(b, &l), DrawPlan::Draw(rect(0, 0, 4, 4)));
}

#[test]
fn view_tree_keeps_replaces_and_cleans_up() {
    const LABEL: u64 = 1;
    const BUTTON: u64 = 2;
    let mut t = ViewNodes::new(0);
    let root = t.root();
    // first frame: a label and a button under the root
    t.start();
    let l = match t.begin_view(LABEL) {
        Visit::Created(id) => id,
        Visit::Kept(_) => panic!("nothing to keep yet"),
    };
    let inner = t.begin_view(BUTTON).id();
    t.end_view(inner);
    t.end_view(l);
    let b = t.begin_view(BUTTON).id();
    t.end_view(b);
    assert_eq!(t.get(root).unwrap().children, vec![l, b]);
    assert_eq!(t.get(l).unwrap().children, vec![inner]);
    assert_eq!(t.get(inner).unwrap().parent, Some(l));
    assert!(t.finish().is_empty());

    // second frame: the label is kept, its child is not visited, and a
    // label takes the button's place
    t.start();
    assert_eq!(t.begin_view(LABEL), Visit::Kept(l));
    t.end_view(l);
    let l2 = match t.begin_view(LABEL) {
        Visit::Created(id) => id,
        Visit::Kept(_) => panic!("kinds differ"),
    };
    t.end_view(l2);
    assert_eq!(t.get(root).unwrap().children, vec![l, l2]);
    assert!(t.get(inner).is_none());
    assert!(t.get(b).is_none());
    let mut removed = t.finish();
    removed.sort_by_key(|v| v.0);
    let mut expected = vec![inner, b];
    expected.sort_by_key(|v| v.0);
    assert_eq!(removed, expected);
    assert!(t.get(l).unwrap().children.is_empty());

    // third frame: nothing is visited, so everything below the root goes
    t.start();
    t.cleanup(root);
    assert!(t.get(root).unwrap().children.is_empty());
    assert_eq!(t.finish().len(), 2);
}

#[test]
fn removing_a_view_removes_its_subtree() {
    let mut t = ViewNodes::new(0);
    let root = t.root();
    let a = t.allocate_view(root, 1);
    let b = t.allocate_view(a, 1);
    let c = t.allocate_view(b, 1);
    let d = t.allocate_view(root, 1);
    t.remove_view(a);
    assert!(t.get(a).is_none() && t.get(b).is_none() && t.get(c).is_none());
    assert_eq!(t.get(root).unwrap().children, vec![d]);
    assert_eq!(t.get(root).unwrap().next, 1);
    assert_eq!(t.finish(), vec![a, b, c]);
}

#[test]
fn stack_of_views_being_built() {
    let mut t = ViewNodes::new(0);
    let root = t.root();
    assert_eq!(t.current(), root);
    assert_eq!(t.parent(), root);
    t.begin(ViewId(7));
    t.begin(ViewId(8));
    assert_eq!(t.current(), ViewId(8));
    assert_eq!(t.parent(), ViewId(7));
    t.end(ViewId(8));
    assert_eq!(t.current(), ViewId(7));
}

#[test]
fn layout_node_defaults() {
    let n = LayoutNode::new(ViewId(5));
    assert_eq!(n.rect, rect(0, 0, 0, 0));
    assert_eq!(n.layer, Layer::Middle);
    assert_eq!(n.interest, Interest::none());
    assert_eq!(Layer::default(), Layer::Middle);
}

#[test]
fn a_drawing_pass_takes_deferred_views_layer_by_layer() {
    let mut l = LayoutNodes::new();
    let (root, a, b, c) = (ViewId(1), ViewId(2), ViewId(3), ViewId(4));
    for id in [root, a, b, c] {
        l.begin_compute(id);
        l.finish_compute(id, Vec2::new(10, 10), Interest::none(), false);
    }
    l.set_layer(root, Layer::Bottom);
    l.set_layer(b, Layer::Top);
    l.set_layer(c, Layer::Debug);
    let mut r = RenderNodes::new();
    let mut q = RenderQueue::new(root);
    let mut drawn = vec![];
    let mut turns = 0;
    while let Some(id) = q.next(&mut r) {
        turns += 1;
        match r.plan(id, &l) {
            DrawPlan::Defer => q.defer(id),
            DrawPlan::Skip => {}
            DrawPlan::Draw(_) => {
                drawn.push(id);
                // the root draws every other view as its child
                if id == root {
                    for child in [c, b, a] {
                        match r.plan(child, &l) {
                            DrawPlan::Defer => q.defer(child),
                            DrawPlan::Draw(_) => drawn.push(child),
                            DrawPlan::Skip => {}
                        }
                    }
                }
            }
        }
    }
    // c comes up first on the middle layer and is deferred again, which ends
    // that layer's turn; on the top layer b is drawn, then a (drawing a
    // brings the current layer back down, so c waits once more), and c last
    assert_eq!(drawn, vec![root, b, a, c]);
    assert_eq!(turns, 6);
    assert_eq!(q.next(&mut r), None);
}

#[test]
fn removal_lists_views_breadth_first() {
    let mut t = ViewNodes::new(0);
    let root = t.root();
    let a = t.allocate_view(root, 1);
    let b = t.allocate_view(a, 1);
    let c = t.allocate_view(a, 1);
    let e = t.allocate_view(b, 1);
    let f = t.allocate_view(c, 1);
    let g = t.allocate_view(e, 1);
    t.remove_view(a);
    assert_eq!(t.finish(), vec![a, b, c, e, f, g]);
    let x = t.allocate_view(root, 1);
    let y = t.allocate_view(root, 1);
    let x1 = t.allocate_view(x, 1);
    let y1 = t.allocate_view(y, 1);
    t.start();
    t.cleanup(root);
    assert_eq!(t.finish(), vec![x, y, x1, y1]);
}

#[test]
fn a_crop_is_moved_to_the_view_and_kept_within_it() {
    use_crop();
}

fn use_crop() {
    let view = rect(10, 5, 30, 15);
    assert_eq!(too::render::crop_rect(view, rect(2, 1, 6, 4)), rect(12, 6, 16, 9));
    assert_eq!(too::render::crop_rect(view, rect(15, 5, 40, 40)), rect(25, 10, 30, 15));
}
