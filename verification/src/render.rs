//! Drawing order: which views are drawn now, which wait for a higher layer,
//! and the rectangle each is drawn in.
use vstd::prelude::*;
use crate::geom::Rect;
use crate::input::ViewId;
use crate::layout::{Axis, Layer, LayoutNode, LayoutNodes};

verus! {

/// The height of a layer: bottom, middle, top, then debug.
pub open spec fn layer_rank(l: Layer) -> int {
    match l {
        Layer::Bottom => 0,
        Layer::Middle => 1,
        Layer::Top => 2,
        Layer::Debug => 3,
    }
}

fn rank(l: Layer) -> (r: u8)
    ensures
        r == layer_rank(l),
{
    match l {
        Layer::Bottom => 0,
        Layer::Middle => 1,
        Layer::Top => 2,
        Layer::Debug => 3,
    }
}

/// What to do with a view when its turn to be drawn comes.
#[derive(Copy, Clone, Debug, PartialEq, Eq, Structural)]
pub enum DrawPlan {
    /// Nothing to draw.
    Skip,
    /// The view is on a higher layer: draw it after the current layer.
    Defer,
    /// Draw the view clipped to this rectangle.
    Draw(Rect),
}

/// A rectangle with no width or no height.
pub open spec fn flat(r: Rect) -> bool {
    r.max.x == r.min.x || r.max.y == r.min.y
}

/// The drawing state of a frame.
pub struct RenderNodes {
    axis_stack: Vec<Axis>,
    current_layer: Layer,
}

/// The plan for a node on layer `current`, and the layer after it.
pub open spec fn plan_of(nodes: Map<u64, LayoutNode>, id: ViewId, current: Layer) -> (DrawPlan, Layer) {
    if !nodes.contains_key(id.0) {
        (DrawPlan::Skip, current)
    } else {
        let node = nodes[id.0];
        if flat(node.rect) {
            (DrawPlan::Skip, current)
        } else if layer_rank(node.layer) > layer_rank(current) {
            (DrawPlan::Defer, current)
        } else {
            match node.clipped_by {
                None => (DrawPlan::Draw(node.rect), node.layer),
                Some(parent) => if !nodes.contains_key(parent.0) {
                    (DrawPlan::Skip, node.layer)
                } else {
                    let rect = nodes[parent.0].rect.spec_intersection(node.rect);
                    if flat(rect) {
                        (DrawPlan::Skip, node.layer)
                    } else {
                        (DrawPlan::Draw(rect), node.layer)
                    }
                },
            }
        }
    }
}

impl RenderNodes {
    pub closed spec fn current_layer(&self) -> Layer {
        self.current_layer
    }

    pub closed spec fn axis_stack(&self) -> Seq<Axis> {
        self.axis_stack@
    }

    /// Drawing starts on the bottom layer.
    pub fn new() -> (r: RenderNodes)
        ensures
            r.current_layer() == Layer::Bottom,
            r.axis_stack() == Seq::<Axis>::empty(),
    {
        RenderNodes { axis_stack: Vec::new(), current_layer: Layer::Bottom }
    }

    /// Start a frame.
    pub fn start(&mut self)
        ensures
            final(self).axis_stack() == Seq::<Axis>::empty(),
            final(self).current_layer() == old(self).current_layer(),
    {
        self.axis_stack.clear();
    }

    /// The axis of the parent of the view being drawn.
    pub fn current_axis(&self) -> (r: Option<Axis>)
        ensures
            r == (if self.axis_stack().len() >= 2 {
                Some(self.axis_stack()[self.axis_stack().len() - 2])
            } else {
                None
            }),
    {
        let n = self.axis_stack.len();
        if n >= 2 {
            Some(self.axis_stack[n - 2])
        } else {
            None
        }
    }

    pub fn push_axis(&mut self, axis: Axis)
        ensures
            final(self).axis_stack() == old(self).axis_stack().push(axis),
            final(self).current_layer() == old(self).current_layer(),
    {
        self.axis_stack.push(axis);
    }

    /// Draw the views of `layer` next.
    pub fn set_current_layer(&mut self, layer: Layer)
        ensures
            final(self).current_layer() == layer,
            final(self).axis_stack() == old(self).axis_stack(),
    {
        self.current_layer = layer;
    }

    pub fn pop_axis(&mut self)
        ensures
            final(self).axis_stack() == (if old(self).axis_stack().len() == 0 {
                old(self).axis_stack()
            } else {
                old(self).axis_stack().drop_last()
            }),
            final(self).current_layer() == old(self).current_layer(),
    {
        self.axis_stack.pop();
    }

    /// Decide how to draw `id`: skip it when it was not laid out, is empty,
    /// or is clipped away; defer it when it is on a higher layer than the
    /// one being drawn; otherwise draw it, clipped by its clipping parent,
    /// and make its layer the current one.
    pub fn plan(&mut self, id: ViewId, layout: &LayoutNodes) -> (r: DrawPlan)
        ensures
            (r, final(self).current_layer()) == plan_of(layout.nodes(), id, old(self).current_layer()),
            final(self).axis_stack() == old(self).axis_stack(),
    {
        let node = match layout.get(id) {
            Some(node) => node,
            None => return DrawPlan::Skip,
        };
        if node.rect.max.x == node.rect.min.x || node.rect.max.y == node.rect.min.y {
            return DrawPlan::Skip;
        }
        if rank(node.layer) > rank(self.current_layer) {
            return DrawPlan::Defer;
        }
        self.current_layer = node.layer;
        match node.clipped_by {
            None => DrawPlan::Draw(node.rect),
            Some(parent) => {
                let parent = match layout.get(parent) {
                    Some(p) => p,
                    None => return DrawPlan::Skip,
                };
                let rect = parent.rect.intersection(node.rect);
                if rect.max.x == rect.min.x || rect.max.y == rect.min.y {
                    DrawPlan::Skip
                } else {
                    DrawPlan::Draw(rect)
                }
            },
        }
    }
}

/// A view is drawn only while the layer being drawn is at least as high as
/// its own; a view on a higher layer is deferred, and the layer being drawn
/// never rises while planning.
pub proof fn lemma_no_view_drawn_early(nodes: Map<u64, LayoutNode>, id: ViewId, current: Layer)
    ensures
        plan_of(nodes, id, current).0 is Draw ==> layer_rank(nodes[id.0].layer) <= layer_rank(current),
        plan_of(nodes, id, current).0 is Defer <==> (nodes.contains_key(id.0) && !flat(nodes[id.0].rect)
            && layer_rank(nodes[id.0].layer) > layer_rank(current)),
        layer_rank(plan_of(nodes, id, current).1) <= layer_rank(current),
{
}


/// The rectangle a view drawn in `view` is cropped to when it draws into
/// `rect`, given relative to its own top-left corner: `rect` moved to the
/// view's corner, within the view.
pub fn crop_rect(view: Rect, rect: Rect) -> (r: Rect)
    requires
        rect.can_translate(view.min.as_vec2()),
    ensures
        r == view.spec_intersection(rect.spec_translate(view.min.as_vec2())),
{
    let offset = view.left_top().to_vec2();
    view.intersection(rect.translate(offset))
}

/// The layers drawn after the bottom one, in order: middle, top, debug.
pub open spec fn upper_layer(stage: int) -> Layer {
    if stage == 0 {
        Layer::Middle
    } else if stage == 1 {
        Layer::Top
    } else {
        Layer::Debug
    }
}

fn upper_layer_at(stage: usize) -> (l: Layer)
    ensures
        l == upper_layer(stage as int),
{
    if stage == 0 {
        Layer::Middle
    } else if stage == 1 {
        Layer::Top
    } else {
        Layer::Debug
    }
}

/// Where a drawing pass stands.
#[derive(Copy, Clone, Debug, PartialEq, Eq, Structural)]
pub enum Pass {
    /// The root is still to be drawn.
    Root,
    /// Deferred views are drawn on `upper_layer(stage)`; `entered` once that
    /// layer was made the current one.
    Upper { stage: usize, entered: bool },
    /// Every layer is drawn.
    Done,
}

/// The order of a frame's drawing: the root first, then, for the middle,
/// top and debug layers in turn, the views deferred so far, first deferred
/// first drawn. A layer's turn ends when no view waits, or when the view
/// just drawn was deferred again.
pub struct RenderQueue {
    root: ViewId,
    pass: Pass,
    pending: Vec<ViewId>,
    last: Option<ViewId>,
    deferred: Ghost<Seq<ViewId>>,
    handed: Ghost<Seq<ViewId>>,
}

/// What the turn check leaves of a pass on `stage`: a view drawn last and
/// deferred again ends the layer's turn.
pub open spec fn after_turn(stage: int, entered: bool, last: Option<ViewId>, pending: Seq<ViewId>) -> (int, bool) {
    match last {
        Some(id) => if pending.len() > 0 && pending.last() == id {
            (stage + 1, false)
        } else {
            (stage, entered)
        },
        None => (stage, entered),
    }
}

impl RenderQueue {
    pub closed spec fn spec_root(&self) -> ViewId {
        self.root
    }

    pub closed spec fn pass(&self) -> Pass {
        self.pass
    }

    /// The views waiting to be drawn, first to be drawn first.
    pub closed spec fn pending(&self) -> Seq<ViewId> {
        self.pending@
    }

    /// The view handed out last, while its turn check is due.
    pub closed spec fn last(&self) -> Option<ViewId> {
        self.last
    }

    /// Every view deferred so far, in order.
    pub closed spec fn deferred(&self) -> Seq<ViewId> {
        self.deferred@
    }

    /// Every deferred view handed out to be drawn so far, in order.
    pub closed spec fn handed(&self) -> Seq<ViewId> {
        self.handed@
    }

    /// The views handed out and those still waiting make up the deferred
    /// ones, in order; a pass on a layer is on one of the three upper layers.
    pub open spec fn wf(&self) -> bool {
        &&& self.handed() + self.pending() == self.deferred()
        &&& match self.pass() {
            Pass::Upper { stage, .. } => stage < 3,
            _ => true,
        }
    }

    /// A pass that starts at `root`, with nothing deferred.
    pub fn new(root: ViewId) -> (q: RenderQueue)
        ensures
            q.wf(),
            q.spec_root() == root,
            q.pass() == Pass::Root,
            q.pending() == Seq::<ViewId>::empty(),
            q.last() == None::<ViewId>,
            q.deferred() == Seq::<ViewId>::empty(),
            q.handed() == Seq::<ViewId>::empty(),
    {
        let q = RenderQueue {
            root,
            pass: Pass::Root,
            pending: Vec::new(),
            last: None,
            deferred: Ghost(Seq::empty()),
            handed: Ghost(Seq::empty()),
        };
        assert(q.handed() + q.pending() =~= q.deferred());
        q
    }

    /// Wait with `id` until a higher layer is drawn.
    pub fn defer(&mut self, id: ViewId)
        requires
            old(self).wf(),
        ensures
            final(self).wf(),
            final(self).pending() == old(self).pending().push(id),
            final(self).deferred() == old(self).deferred().push(id),
            final(self).handed() == old(self).handed(),
            final(self).pass() == old(self).pass(),
            final(self).last() == old(self).last(),
            final(self).spec_root() == old(self).spec_root(),
    {
        self.pending.push(id);
        self.deferred = Ghost(self.deferred@.push(id));
        assert(self.handed() + self.pending() =~= self.deferred());
    }

    /// The next view to draw, or `None` when the pass is over. Moving on to
    /// a layer makes it the current layer of `render`.
    pub fn next(&mut self, render: &mut RenderNodes) -> (r: Option<ViewId>)
        requires
            old(self).wf(),
        ensures
            final(self).wf(),
            final(self).spec_root() == old(self).spec_root(),
            final(self).deferred() == old(self).deferred(),
            final(render).axis_stack() == old(render).axis_stack(),
            match old(self).pass() {
                Pass::Root => {
                    &&& r == Some(old(self).spec_root())
                    &&& final(self).pass() == (Pass::Upper { stage: 0, entered: false })
                    &&& final(self).pending() == old(self).pending()
                    &&& final(self).handed() == old(self).handed()
                    &&& final(self).last() == None::<ViewId>
                    &&& final(render).current_layer() == old(render).current_layer()
                },
                Pass::Done => {
                    &&& r == None::<ViewId>
                    &&& *final(self) == *old(self)
                    &&& final(render).current_layer() == old(render).current_layer()
                },
                Pass::Upper { stage, entered } => {
                    let (s, e) = after_turn(stage as int, entered, old(self).last(), old(self).pending());
                    let p = old(self).pending();
                    if s < 3 && p.len() > 0 {
                        &&& r == Some(p[0])
                        &&& final(self).pending() == p.drop_first()
                        &&& final(self).handed() == old(self).handed().push(p[0])
                        &&& final(self).pass() == (Pass::Upper { stage: s as usize, entered: true })
                        &&& final(self).last() == r
                        &&& final(render).current_layer() == (if e {
                            old(render).current_layer()
                        } else {
                            upper_layer(s)
                        })
                    } else {
                        &&& r == None::<ViewId>
                        &&& final(self).pass() == Pass::Done
                        &&& final(self).pending() == p
                        &&& final(self).handed() == old(self).handed()
                        &&& final(self).last() == None::<ViewId>
                        &&& final(render).current_layer() == (if s >= 3 || (s == 2 && e) {
                            old(render).current_layer()
                        } else {
                            Layer::Debug
                        })
                    }
                },
            },
    {
        match self.pass {
            Pass::Root => {
                self.pass = Pass::Upper { stage: 0, entered: false };
                self.last = None;
                Some(self.root)
            },
            Pass::Done => None,
            Pass::Upper { stage, entered } => {
                let mut stage = stage;
                let mut entered = entered;
                if let Some(id) = self.last {
                    let n = self.pending.len();
                    if n > 0 && self.pending[n - 1] == id {
                        stage = stage + 1;
                        entered = false;
                    }
                }
                self.last = None;
                if stage >= 3 {
                    self.pass = Pass::Done;
                    return None;
                }
                if !entered {
                    render.set_current_layer(upper_layer_at(stage));
                }
                if self.pending.len() > 0 {
                    let id = self.pending.remove(0);
                    proof {
                        self.handed@ = self.handed@.push(id);
                        assert(self.handed() + self.pending() =~= self.deferred());
                    }
                    self.last = Some(id);
                    self.pass = Pass::Upper { stage, entered: true };
                    return Some(id);
                }
                // nothing waits: each remaining layer takes its turn in vain
                if stage < 2 {
                    render.set_current_layer(Layer::Debug);
                }
                self.pass = Pass::Done;
                None
            },
        }
    }
}


/// Views wait their turn in the order they were deferred: the views handed
/// out so far are the first ones deferred, in order, and none is handed out
/// more often than it was deferred.
pub proof fn lemma_drawn_in_deferred_order(q: RenderQueue)
    requires
        q.wf(),
    ensures
        q.handed().len() <= q.deferred().len(),
        q.handed() == q.deferred().take(q.handed().len() as int),
        q.pending() == q.deferred().skip(q.handed().len() as int),
{
    assert(q.deferred().take(q.handed().len() as int) =~= q.handed());
    assert(q.deferred().skip(q.handed().len() as int) =~= q.pending());
}

} // verus!
