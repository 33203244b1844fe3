//! The layout tree: where each view was placed, who clips it, and which views
//! asked for which events, layer by layer.
use std::collections::HashMap;
use vstd::prelude::*;
use crate::geom::{fits_i32, Pos2, Rect, Vec2};
use crate::input::ViewId;
use crate::input_state::InputState;
use crate::interest::Interest;
use crate::view_nodes::{kids, tree_wf, ViewNode, ViewNodes};

verus! {

broadcast use vstd::std_specs::hash::group_hash_axioms;

/// The direction a container lays its children out in.
#[derive(Copy, Clone, Debug, PartialEq, Eq, Structural)]
pub enum Axis {
    Horizontal,
    Vertical,
}

impl Axis {
    /// The element of `pair` along this axis: the first for horizontal, the second for vertical.
    pub fn main<T>(self, pair: (T, T)) -> (r: T)
        ensures
            r == (match self {
                Axis::Horizontal => pair.0,
                Axis::Vertical => pair.1,
            }),
    {
        match self {
            Axis::Horizontal => pair.0,
            Axis::Vertical => pair.1,
        }
    }
}

/// The views that asked for events, grouped in layers.
///
/// A view that opens a new layer pushes it on the stack; interests are
/// registered in the layer on top of the stack; events are offered to the
/// newest layer first.
pub struct EventInterest {
    layers: Vec<Vec<(ViewId, Interest)>>,
    stack: Vec<(ViewId, usize)>,
}

/// The order in which interests are offered events: the layers from the
/// newest down to `lo`, each layer in the order its views registered.
pub open spec fn interest_order(layers: Seq<Seq<(ViewId, Interest)>>, lo: nat) -> Seq<
    (ViewId, Interest),
>
    decreases layers.len() - lo,
{
    if lo >= layers.len() {
        Seq::empty()
    } else {
        interest_order(layers, lo + 1) + layers[lo as int]
    }
}

impl EventInterest {
    /// The registered interests, one sequence per layer, oldest layer first.
    pub closed spec fn layers(&self) -> Seq<Seq<(ViewId, Interest)>> {
        self.layers@.map_values(|l: Vec<(ViewId, Interest)>| l@)
    }

    /// The open layers: the view that opened each and the layer's index.
    pub closed spec fn stack(&self) -> Seq<(ViewId, usize)> {
        self.stack@
    }

    /// Every open layer names an existing layer.
    pub open spec fn wf(&self) -> bool {
        forall|i: int| 0 <= i < self.stack().len() ==> #[trigger] self.stack()[i].1 < self.layers().len()
    }

    pub fn new() -> (r: EventInterest)
        ensures
            r.layers() == Seq::<Seq<(ViewId, Interest)>>::empty(),
            r.stack() == Seq::<(ViewId, usize)>::empty(),
            r.wf(),
    {
        let r = EventInterest { layers: Vec::new(), stack: Vec::new() };
        assert(r.layers() =~= Seq::<Seq<(ViewId, Interest)>>::empty());
        r
    }

    /// Forget every layer and every interest.
    pub fn clear(&mut self)
        ensures
            final(self).layers() == Seq::<Seq<(ViewId, Interest)>>::empty(),
            final(self).stack() == Seq::<(ViewId, usize)>::empty(),
            final(self).wf(),
    {
        self.stack.clear();
        self.layers.clear();
        assert(self.layers() =~= Seq::<Seq<(ViewId, Interest)>>::empty());
    }

    /// The view that opened the layer on top of the stack.
    pub fn current_layer_root(&self) -> (r: Option<ViewId>)
        ensures
            r == (if self.stack().len() == 0 {
                None
            } else {
                Some(self.stack().last().0)
            }),
    {
        let n = self.stack.len();
        if n == 0 {
            None
        } else {
            Some(self.stack[n - 1].0)
        }
    }

    /// Open a new, empty layer for the view `id`.
    pub fn push_layer(&mut self, id: ViewId)
        requires
            old(self).wf(),
        ensures
            final(self).layers() == old(self).layers().push(Seq::<(ViewId, Interest)>::empty()),
            final(self).stack() == old(self).stack().push((id, old(self).layers().len() as usize)),
            final(self).wf(),
    {
        let index = self.layers.len();
        self.layers.push(Vec::new());
        self.stack.push((id, index));
        assert(self.layers() =~= old(self).layers().push(Seq::<(ViewId, Interest)>::empty()));
    }

    /// Close the layer on top of the stack; its interests stay registered.
    pub fn pop_layer(&mut self)
        requires
            old(self).wf(),
            old(self).stack().len() > 0,
        ensures
            final(self).layers() == old(self).layers(),
            final(self).stack() == old(self).stack().drop_last(),
            final(self).wf(),
    {
        self.stack.pop();
    }

    /// Register `interest` for `id` in the layer on top of the stack.
    pub fn insert(&mut self, id: ViewId, interest: Interest)
        requires
            old(self).wf(),
            old(self).stack().len() > 0,
        ensures
            ({
                let k = old(self).stack().last().1 as int;
                final(self).layers() == old(self).layers().update(
                    k,
                    old(self).layers()[k].push((id, interest)),
                )
            }),
            final(self).stack() == old(self).stack(),
            final(self).wf(),
    {
        let n = self.stack.len();
        let index = self.stack[n - 1].1;
        assert(self.stack()[n - 1].1 < self.layers().len());
        self.layers[index].push((id, interest));
        assert(self.layers() =~= old(self).layers().update(
            index as int,
            old(self).layers()[index as int].push((id, interest)),
        ));
    }

    /// Every registered interest, newest layer first.
    pub fn iter(&self) -> (r: Vec<(ViewId, Interest)>)
        ensures
            r@ == interest_order(self.layers(), 0),
    {
        let mut out: Vec<(ViewId, Interest)> = Vec::new();
        let mut i: usize = self.layers.len();
        while i > 0
            invariant
                i <= self.layers@.len(),
                self.layers().len() == self.layers@.len(),
                out@ == interest_order(self.layers(), i as nat),
            decreases i,
        {
            i = i - 1;
            let layer = &self.layers[i];
            assert(self.layers()[i as int] == layer@);
            let ghost before = out@;
            let mut j: usize = 0;
            while j < layer.len()
                invariant
                    j <= layer@.len(),
                    out@ == before + layer@.take(j as int),
                decreases layer@.len() - j,
            {
                out.push(layer[j]);
                j = j + 1;
                assert(out@ =~= before + layer@.take(j as int));
            }
            assert(layer@.take(j as int) =~= layer@);
        }
        out
    }
}

/// An interest registered in a layer opened after all others is offered
/// events before every interest of the older layers.
pub proof fn lemma_newest_layer_first(
    layers: Seq<Seq<(ViewId, Interest)>>,
    top: Seq<(ViewId, Interest)>,
)
    ensures
        interest_order(layers.push(top), 0) == top + interest_order(layers, 0),
{
    lemma_order_push(layers, top, 0);
}

proof fn lemma_order_push(
    layers: Seq<Seq<(ViewId, Interest)>>,
    top: Seq<(ViewId, Interest)>,
    lo: nat,
)
    requires
        lo <= layers.len(),
    ensures
        interest_order(layers.push(top), lo) == top + interest_order(layers, lo),
    decreases layers.len() - lo,
{
    let pushed = layers.push(top);
    if lo == layers.len() {
        assert(interest_order(pushed, lo + 1) =~= Seq::<(ViewId, Interest)>::empty());
        assert(pushed[lo as int] == top);
        assert(top + interest_order(layers, lo) =~= top);
        assert(Seq::<(ViewId, Interest)>::empty() + top =~= top);
    } else {
        lemma_order_push(layers, top, lo + 1);
        assert(pushed[lo as int] == layers[lo as int]);
        assert((top + interest_order(layers, lo + 1)) + layers[lo as int] =~= top + (
        interest_order(layers, lo + 1) + layers[lo as int]));
    }
}

/// The layer a view is drawn on, relative to its siblings.
#[derive(Copy, Clone, Debug, PartialEq, Eq, Structural)]
pub enum Layer {
    Bottom,
    Middle,
    Top,
    Debug,
}

impl Default for Layer {
    fn default() -> (r: Layer)
        ensures
            r == Layer::Middle,
    {
        Layer::Middle
    }
}

/// What a view can learn about itself from the layout and input trees.
#[derive(Copy, Clone, Debug, PartialEq, Eq, Structural)]
pub struct Properties {
    pub interactive: bool,
    pub hovered: bool,
    pub focused: bool,
    pub interests: Interest,
}

/// A node in the layout tree.
#[derive(Copy, Clone, Debug, PartialEq, Eq, Structural)]
pub struct LayoutNode {
    pub id: ViewId,
    pub rect: Rect,
    pub layer: Layer,
    pub new_layer: bool,
    pub clipping_enabled: bool,
    pub clipped_by: Option<ViewId>,
    pub interest: Interest,
    pub interactive: bool,
}

pub open spec fn fresh_node(id: ViewId) -> LayoutNode {
    LayoutNode {
        id,
        rect: Rect { min: Pos2 { x: 0, y: 0 }, max: Pos2 { x: 0, y: 0 } },
        layer: Layer::Middle,
        new_layer: false,
        clipping_enabled: false,
        clipped_by: None,
        interest: Interest(0),
        interactive: false,
    }
}

/// What the view of `node` can learn about itself in `state`.
pub open spec fn properties_of(node: LayoutNode, state: InputState) -> Properties {
    Properties {
        interactive: node.interactive,
        hovered: state@.hit.contains(node.id),
        focused: state@.focus.current == Some(node.id),
        interests: node.interest,
    }
}

impl LayoutNode {
    /// What the view of this node can learn about itself: whether it is
    /// interactive, hovered and focused, and its interests.
    pub fn properties(&self, state: &InputState) -> (p: Properties)
        ensures
            p == properties_of(*self, *state),
    {
        Properties {
            interactive: self.interactive,
            focused: state.is_focused(self.id),
            hovered: state.is_hovered(self.id),
            interests: self.interest,
        }
    }

    /// A node with an empty rectangle at the origin and no interests.
    pub fn new(id: ViewId) -> (n: LayoutNode)
        ensures
            n == fresh_node(id),
    {
        LayoutNode {
            id,
            rect: Rect { min: Pos2 { x: 0, y: 0 }, max: Pos2 { x: 0, y: 0 } },
            layer: Layer::Middle,
            new_layer: false,
            clipping_enabled: false,
            clipped_by: None,
            interest: Interest(0),
            interactive: false,
        }
    }
}

/// The layout of every view, by id.
pub struct LayoutNodes {
    nodes: HashMap<u64, LayoutNode>,
    clip_stack: Vec<ViewId>,
    axis_stack: Vec<Axis>,
    interest: EventInterest,
}

impl LayoutNodes {
    /// The nodes, keyed by the number of their view id.
    pub closed spec fn nodes(&self) -> Map<u64, LayoutNode> {
        self.nodes@
    }

    /// The views that enabled clipping and are still being laid out.
    pub closed spec fn clip_stack(&self) -> Seq<ViewId> {
        self.clip_stack@
    }

    /// The axes of the views being laid out, outermost first.
    pub closed spec fn axis_stack(&self) -> Seq<Axis> {
        self.axis_stack@
    }

    /// The event interests registered during layout.
    pub closed spec fn interests(&self) -> EventInterest {
        self.interest
    }

    pub open spec fn wf(&self) -> bool {
        self.interests().wf()
    }

    pub fn new() -> (r: LayoutNodes)
        ensures
            r.nodes() == Map::<u64, LayoutNode>::empty(),
            r.clip_stack() == Seq::<ViewId>::empty(),
            r.axis_stack() == Seq::<Axis>::empty(),
            r.interests().layers() == Seq::<Seq<(ViewId, Interest)>>::empty(),
            r.interests().stack() == Seq::<(ViewId, usize)>::empty(),
            r.wf(),
    {
        LayoutNodes {
            nodes: HashMap::new(),
            clip_stack: Vec::new(),
            axis_stack: Vec::new(),
            interest: EventInterest::new(),
        }
    }

    /// The interests in the order they are offered events.
    pub fn interest_list(&self) -> (r: Vec<(ViewId, Interest)>)
        ensures
            r@ == interest_order(self.interests().layers(), 0),
    {
        self.interest.iter()
    }

    /// The axis of the parent of the view being laid out.
    pub fn current_axis(&self) -> (r: Option<Axis>)
        ensures
            r == (if self.axis_stack().len() >= 2 {
                Some(self.axis_stack()[self.axis_stack().len() - 2])
            } else {
                None
            }),
    {
        let n = self.axis_stack.len();
        if n >= 2 {
            Some(self.axis_stack[n - 2])
        } else {
            None
        }
    }

    /// The node of `id`, if it was laid out.
    pub fn get(&self, id: ViewId) -> (r: Option<&LayoutNode>)
        ensures
            r == (if self.nodes().contains_key(id.0) {
                Some(&self.nodes()[id.0])
            } else {
                None
            }),
    {
        self.nodes.get(&id.0)
    }

    pub fn contains(&self, id: ViewId) -> (r: bool)
        ensures
            r == self.nodes().contains_key(id.0),
    {
        self.nodes.contains_key(&id.0)
    }

    /// The rectangle of `id`; `None` when it was not laid out or its rectangle is empty.
    pub fn rect(&self, id: ViewId) -> (r: Option<Rect>)
        ensures
            r == (if self.nodes().contains_key(id.0) && !self.nodes()[id.0].rect.spec_is_empty() {
                Some(self.nodes()[id.0].rect)
            } else {
                None
            }),
    {
        match self.nodes.get(&id.0) {
            Some(node) => if node.rect.is_empty() {
                None
            } else {
                Some(node.rect)
            },
            None => None,
        }
    }

    /// The view `current` clips what its children draw to its own rectangle.
    pub fn enable_clipping(&mut self, current: ViewId)
        ensures
            final(self).clip_stack() == old(self).clip_stack().push(current),
            final(self).nodes() == old(self).nodes(),
            final(self).axis_stack() == old(self).axis_stack(),
            final(self).interests() == old(self).interests(),
    {
        self.clip_stack.push(current);
    }

    /// The view `current` opens a new event layer.
    pub fn new_layer(&mut self, current: ViewId)
        requires
            old(self).wf(),
        ensures
            final(self).interests().layers() == old(self).interests().layers().push(
                Seq::<(ViewId, Interest)>::empty(),
            ),
            final(self).interests().stack() == old(self).interests().stack().push(
                (current, old(self).interests().layers().len() as usize),
            ),
            final(self).nodes() == old(self).nodes(),
            final(self).clip_stack() == old(self).clip_stack(),
            final(self).axis_stack() == old(self).axis_stack(),
            final(self).wf(),
    {
        self.interest.push_layer(current);
    }

    /// Remember the axis of the view about to be laid out.
    pub fn push_axis(&mut self, axis: Axis)
        ensures
            final(self).axis_stack() == old(self).axis_stack().push(axis),
            final(self).nodes() == old(self).nodes(),
            final(self).clip_stack() == old(self).clip_stack(),
            final(self).interests() == old(self).interests(),
    {
        self.axis_stack.push(axis);
    }

    /// Forget the axis of the view that was laid out last.
    pub fn pop_axis(&mut self)
        ensures
            final(self).axis_stack() == (if old(self).axis_stack().len() == 0 {
                old(self).axis_stack()
            } else {
                old(self).axis_stack().drop_last()
            }),
            final(self).nodes() == old(self).nodes(),
            final(self).clip_stack() == old(self).clip_stack(),
            final(self).interests() == old(self).interests(),
    {
        self.axis_stack.pop();
    }

    /// Drop the node of `id`.
    pub fn remove(&mut self, id: ViewId)
        ensures
            final(self).nodes() == old(self).nodes().remove(id.0),
            final(self).clip_stack() == old(self).clip_stack(),
            final(self).axis_stack() == old(self).axis_stack(),
            final(self).interests() == old(self).interests(),
    {
        self.nodes.remove(&id.0);
    }

    /// Move the node of `id` by `pos`, relative to where it is.
    pub fn set_position(&mut self, id: ViewId, pos: Pos2)
        requires
            old(self).nodes().contains_key(id.0) ==> old(self).nodes()[id.0].rect.can_translate(
                pos.as_vec2(),
            ),
        ensures
            final(self).nodes() == (if old(self).nodes().contains_key(id.0) {
                old(self).nodes().insert(
                    id.0,
                    LayoutNode {
                        rect: old(self).nodes()[id.0].rect.spec_translate(pos.as_vec2()),
                        ..old(self).nodes()[id.0]
                    },
                )
            } else {
                old(self).nodes()
            }),
            final(self).clip_stack() == old(self).clip_stack(),
            final(self).axis_stack() == old(self).axis_stack(),
            final(self).interests() == old(self).interests(),
    {
        if let Some(node) = self.nodes.remove(&id.0) {
            let mut node = node;
            node.rect = node.rect.translate(pos.to_vec2());
            self.nodes.insert(id.0, node);
        }
    }

    /// Give the node of `id` the size `size`, keeping its top-left corner.
    pub fn set_size(&mut self, id: ViewId, size: Vec2)
        requires
            old(self).nodes().contains_key(id.0) ==> old(self).nodes()[id.0].rect.can_resize(
                size,
            ),
        ensures
            final(self).nodes() == (if old(self).nodes().contains_key(id.0) {
                old(self).nodes().insert(
                    id.0,
                    LayoutNode {
                        rect: old(self).nodes()[id.0].rect.spec_with_size(size),
                        ..old(self).nodes()[id.0]
                    },
                )
            } else {
                old(self).nodes()
            }),
            final(self).clip_stack() == old(self).clip_stack(),
            final(self).axis_stack() == old(self).axis_stack(),
            final(self).interests() == old(self).interests(),
    {
        if let Some(node) = self.nodes.remove(&id.0) {
            let mut node = node;
            node.rect.set_size(size);
            self.nodes.insert(id.0, node);
        }
    }

    /// Put the view `current` on `layer`.
    pub fn set_layer(&mut self, current: ViewId, layer: Layer)
        requires
            old(self).nodes().contains_key(current.0),
        ensures
            final(self).nodes() == old(self).nodes().insert(
                current.0,
                LayoutNode { layer, ..old(self).nodes()[current.0] },
            ),
            final(self).clip_stack() == old(self).clip_stack(),
            final(self).axis_stack() == old(self).axis_stack(),
            final(self).interests() == old(self).interests(),
    {
        if let Some(node) = self.nodes.remove(&current.0) {
            let mut node = node;
            node.layer = layer;
            self.nodes.insert(current.0, node);
        }
    }

    /// Start a layout pass: no view is being laid out.
    pub fn begin(&mut self)
        ensures
            final(self).clip_stack() == Seq::<ViewId>::empty(),
            final(self).axis_stack() == Seq::<Axis>::empty(),
            final(self).nodes() == old(self).nodes(),
            final(self).interests() == old(self).interests(),
    {
        self.clip_stack.clear();
        self.axis_stack.clear();
    }

    /// End a frame: the interests are registered anew by the next layout pass.
    pub fn end(&mut self)
        ensures
            final(self).interests().layers() == Seq::<Seq<(ViewId, Interest)>>::empty(),
            final(self).interests().stack() == Seq::<(ViewId, usize)>::empty(),
            final(self).nodes() == old(self).nodes(),
            final(self).clip_stack() == old(self).clip_stack(),
            final(self).axis_stack() == old(self).axis_stack(),
            final(self).wf(),
    {
        self.interest.clear();
    }
}

/// Whether the view `id` enabled clipping: it is on top of the clip stack.
pub open spec fn clips_itself(clip_stack: Seq<ViewId>, id: ViewId) -> bool {
    clip_stack.len() > 0 && clip_stack.last() == id
}

/// The view that clips `id`: the top of the clip stack, or, when `id` clips
/// itself, the entry two below the top.
pub open spec fn clipper_of(clip_stack: Seq<ViewId>, id: ViewId) -> Option<ViewId> {
    let n = clip_stack.len() as int;
    if clips_itself(clip_stack, id) {
        if n >= 3 {
            Some(clip_stack[n - 3])
        } else {
            None
        }
    } else if n > 0 {
        Some(clip_stack[n - 1])
    } else {
        None
    }
}

/// Whether `id` opened the event layer on top of the stack.
pub open spec fn opened_layer(e: EventInterest, id: ViewId) -> bool {
    e.stack().len() > 0 && e.stack().last().0 == id
}

impl LayoutNodes {
    /// Start laying out `id`: its node starts afresh.
    pub fn begin_compute(&mut self, id: ViewId)
        ensures
            final(self).nodes() == old(self).nodes().insert(id.0, fresh_node(id)),
            final(self).clip_stack() == old(self).clip_stack(),
            final(self).axis_stack() == old(self).axis_stack(),
            final(self).interests() == old(self).interests(),
    {
        self.nodes.insert(id.0, LayoutNode::new(id));
    }

    /// Finish laying out `id`, which came to `size` and wants `interest`:
    /// register the interest in the current layer, close the layer the view
    /// opened, record who clips the view, and drop its own clipping.
    pub fn finish_compute(&mut self, id: ViewId, size: Vec2, interest: Interest, interactive: bool)
        requires
            old(self).wf(),
            old(self).nodes().contains_key(id.0),
            old(self).nodes()[id.0].rect.can_resize(size),
            interest.0 != 0 ==> old(self).interests().stack().len() > 0,
        ensures
            final(self).wf(),
            final(self).interests().layers() == (if interest.0 != 0 {
                let k = old(self).interests().stack().last().1 as int;
                old(self).interests().layers().update(
                    k,
                    old(self).interests().layers()[k].push((id, interest)),
                )
            } else {
                old(self).interests().layers()
            }),
            final(self).interests().stack() == (if opened_layer(old(self).interests(), id) {
                old(self).interests().stack().drop_last()
            } else {
                old(self).interests().stack()
            }),
            final(self).clip_stack() == (if clips_itself(old(self).clip_stack(), id) {
                old(self).clip_stack().drop_last()
            } else {
                old(self).clip_stack()
            }),
            final(self).axis_stack() == old(self).axis_stack(),
            final(self).nodes() == old(self).nodes().insert(
                id.0,
                LayoutNode {
                    clipping_enabled: clips_itself(old(self).clip_stack(), id),
                    new_layer: opened_layer(old(self).interests(), id),
                    clipped_by: clipper_of(old(self).clip_stack(), id),
                    interest,
                    interactive,
                    rect: old(self).nodes()[id.0].rect.spec_with_size(size),
                    ..old(self).nodes()[id.0]
                },
            ),
    {
        let new_layer = match self.interest.current_layer_root() {
            Some(root) => root == id,
            None => false,
        };
        if !interest.is_none() {
            self.interest.insert(id, interest);
        }
        if new_layer {
            self.interest.pop_layer();
        }
        let n = self.clip_stack.len();
        let clipping_enabled = n > 0 && self.clip_stack[n - 1] == id;
        let clipped_by = if clipping_enabled {
            if n >= 3 {
                Some(self.clip_stack[n - 3])
            } else {
                None
            }
        } else if n > 0 {
            Some(self.clip_stack[n - 1])
        } else {
            None
        };
        if let Some(node) = self.nodes.remove(&id.0) {
            let mut node = node;
            node.clipping_enabled = clipping_enabled;
            node.new_layer = new_layer;
            node.clipped_by = clipped_by;
            node.interest = interest;
            node.interactive = interactive;
            node.rect.set_size(size);
            self.nodes.insert(id.0, node);
        }
        if clipping_enabled {
            self.clip_stack.pop();
        }
    }
}

/// `v` kept within `lo..=hi`.
pub open spec fn clamp_int(v: int, lo: int, hi: int) -> int {
    if v < lo {
        lo
    } else if v > hi {
        hi
    } else {
        v
    }
}

/// The top-left corner of `r` kept within `area`; a corner with a negative
/// coordinate is left as it is.
pub open spec fn kept_min(r: Rect, area: Rect) -> (int, int) {
    if r.min.x >= 0 && r.min.y >= 0 {
        (clamp_int(r.min.x as int, area.min.x as int, area.max.x as int), clamp_int(
            r.min.y as int,
            area.min.y as int,
            area.max.y as int,
        ))
    } else {
        (r.min.x as int, r.min.y as int)
    }
}

/// The bottom-right corner of `r` kept within `area`.
pub open spec fn kept_max(r: Rect, area: Rect) -> (int, int) {
    (clamp_int(r.max.x as int, area.min.x as int, area.max.x as int), clamp_int(
        r.max.y as int,
        area.min.y as int,
        area.max.y as int,
    ))
}

/// The view exists and was laid out with a non-empty rectangle.
pub open spec fn laid_out(nodes: Map<u64, ViewNode>, layout: Map<u64, LayoutNode>, id: ViewId) -> bool {
    nodes.contains_key(id.0) && layout.contains_key(id.0) && !layout[id.0].rect.spec_is_empty()
}

/// The `i`th view of `p` is a child of the one before it.
pub open spec fn linked(nodes: Map<u64, ViewNode>, p: Seq<ViewId>, i: int) -> bool {
    kids(nodes, p[i - 1].0).contains(p[i])
}

/// `p` leads from `root` down the tree, child after child, through views
/// laid out with non-empty rectangles.
pub open spec fn laid_path(nodes: Map<u64, ViewNode>, layout: Map<u64, LayoutNode>, root: ViewId, p: Seq<ViewId>) -> bool {
    &&& p.len() >= 1
    &&& p[0] == root
    &&& forall|i: int| 0 <= i < p.len() ==> laid_out(nodes, layout, #[trigger] p[i])
    &&& forall|i: int| 1 <= i < p.len() ==> #[trigger] linked(nodes, p, i)
}

/// How far the last view of `p` is moved: by the corner of `area` for the
/// root, otherwise by the resolved top-left corner of its parent.
pub open spec fn offset_along(layout: Map<u64, LayoutNode>, area: Rect, p: Seq<ViewId>) -> (int, int)
    decreases p.len(),
{
    if p.len() <= 1 {
        (area.min.x as int, area.min.y as int)
    } else {
        resolved_min(layout, area, p.drop_last())
    }
}

/// The resolved top-left corner of the last view of `p`.
pub open spec fn resolved_min(layout: Map<u64, LayoutNode>, area: Rect, p: Seq<ViewId>) -> (int, int)
    decreases p.len(),
{
    let o = if p.len() <= 1 {
        (area.min.x as int, area.min.y as int)
    } else {
        resolved_min(layout, area, p.drop_last())
    };
    let m = kept_min(layout[p.last().0].rect, area);
    (m.0 + o.0, m.1 + o.1)
}

/// The resolved bottom-right corner of the last view of `p`.
pub open spec fn resolved_max(layout: Map<u64, LayoutNode>, area: Rect, p: Seq<ViewId>) -> (int, int) {
    let o = offset_along(layout, area, p);
    let m = kept_max(layout[p.last().0].rect, area);
    (m.0 + o.0, m.1 + o.1)
}

/// The resolved corners of the last view of `p` fit in `i32`.
pub open spec fn resolved_fits(layout: Map<u64, LayoutNode>, area: Rect, p: Seq<ViewId>) -> bool {
    &&& fits_i32(resolved_min(layout, area, p).0)
    &&& fits_i32(resolved_min(layout, area, p).1)
    &&& fits_i32(resolved_max(layout, area, p).0)
    &&& fits_i32(resolved_max(layout, area, p).1)
}

/// The resolved rectangle of the last view of `p`.
pub open spec fn resolved_rect(layout: Map<u64, LayoutNode>, area: Rect, p: Seq<ViewId>) -> Rect {
    Rect {
        min: Pos2 { x: resolved_min(layout, area, p).0 as i32, y: resolved_min(layout, area, p).1 as i32 },
        max: Pos2 { x: resolved_max(layout, area, p).0 as i32, y: resolved_max(layout, area, p).1 as i32 },
    }
}

/// Resolving reaches `id`: a laid-out path leads to it from the root.
pub open spec fn reached(nodes: Map<u64, ViewNode>, layout: Map<u64, LayoutNode>, root: ViewId, id: ViewId) -> bool {
    exists|p: Seq<ViewId>| #[trigger] laid_path(nodes, layout, root, p) && p.last() == id
}

/// The laid-out path from the root to `id`.
pub open spec fn path_to(nodes: Map<u64, ViewNode>, layout: Map<u64, LayoutNode>, root: ViewId, id: ViewId) -> Seq<ViewId> {
    choose|p: Seq<ViewId>| #[trigger] laid_path(nodes, layout, root, p) && p.last() == id
}

/// The node of `k` after resolving: moved into place if resolving reaches
/// it, otherwise as it was.
pub open spec fn resolved_node(
    nodes: Map<u64, ViewNode>,
    layout: Map<u64, LayoutNode>,
    root: ViewId,
    area: Rect,
    k: u64,
) -> LayoutNode {
    if reached(nodes, layout, root, ViewId(k)) {
        LayoutNode { rect: resolved_rect(layout, area, path_to(nodes, layout, root, ViewId(k))), ..layout[k] }
    } else {
        layout[k]
    }
}

/// A tree has one path from the root to each view.
pub proof fn lemma_laid_path_unique(
    nodes: Map<u64, ViewNode>,
    layout: Map<u64, LayoutNode>,
    root: ViewId,
    a: Seq<ViewId>,
    b: Seq<ViewId>,
)
    requires
        tree_wf(nodes, root),
        laid_path(nodes, layout, root, a),
        laid_path(nodes, layout, root, b),
        a.last() == b.last(),
    ensures
        a == b,
    decreases a.len() + b.len(),
{
    let k = a.last();
    if a.len() == 1 && b.len() == 1 {
        assert(a =~= b);
    } else if a.len() == 1 {
        assert(linked(nodes, b, b.len() - 1));
        assert(laid_out(nodes, layout, b[b.len() - 2]));
        let t = choose|t: int| 0 <= t < kids(nodes, b[b.len() - 2].0).len() && #[trigger] kids(nodes, b[b.len() - 2].0)[t] == k;
        assert(nodes[kids(nodes, b[b.len() - 2].0)[t].0].parent == Some(b[b.len() - 2]));
    } else if b.len() == 1 {
        assert(linked(nodes, a, a.len() - 1));
        assert(laid_out(nodes, layout, a[a.len() - 2]));
        let t = choose|t: int| 0 <= t < kids(nodes, a[a.len() - 2].0).len() && #[trigger] kids(nodes, a[a.len() - 2].0)[t] == k;
        assert(nodes[kids(nodes, a[a.len() - 2].0)[t].0].parent == Some(a[a.len() - 2]));
    } else {
        let pa = a[a.len() - 2];
        let pb = b[b.len() - 2];
        assert(linked(nodes, a, a.len() - 1));
        assert(linked(nodes, b, b.len() - 1));
        assert(laid_out(nodes, layout, pa));
        assert(laid_out(nodes, layout, pb));
        let ta = choose|t: int| 0 <= t < kids(nodes, pa.0).len() && #[trigger] kids(nodes, pa.0)[t] == k;
        let tb = choose|t: int| 0 <= t < kids(nodes, pb.0).len() && #[trigger] kids(nodes, pb.0)[t] == k;
        assert(nodes[kids(nodes, pa.0)[ta].0].parent == Some(pa));
        assert(nodes[kids(nodes, pb.0)[tb].0].parent == Some(pb));
        let da = a.drop_last();
        let db = b.drop_last();
        assert forall|i: int| 0 <= i < da.len() implies laid_out(nodes, layout, #[trigger] da[i]) by {
            assert(da[i] == a[i]);
        }
        assert forall|i: int| 1 <= i < da.len() implies #[trigger] linked(nodes, da, i) by {
            assert(da[i] == a[i] && da[i - 1] == a[i - 1]);
            assert(linked(nodes, a, i));
        }
        assert forall|i: int| 0 <= i < db.len() implies laid_out(nodes, layout, #[trigger] db[i]) by {
            assert(db[i] == b[i]);
        }
        assert forall|i: int| 1 <= i < db.len() implies #[trigger] linked(nodes, db, i) by {
            assert(db[i] == b[i] && db[i - 1] == b[i - 1]);
            assert(linked(nodes, b, i));
        }
        lemma_laid_path_unique(nodes, layout, root, da, db);
        assert(a =~= da.push(k));
        assert(b =~= db.push(k));
    }
}

/// The views of a queue of views and offsets.
pub open spec fn queued_ids(q: Seq<(ViewId, Pos2)>) -> Seq<ViewId> {
    q.map_values(|e: (ViewId, Pos2)| e.0)
}

/// `p` leads from `root` down the tree, child after child, to its last
/// view, through views laid out with non-empty rectangles before that.
pub open spec fn path_prefix_ok(nodes: Map<u64, ViewNode>, layout: Map<u64, LayoutNode>, root: ViewId, p: Seq<ViewId>) -> bool {
    &&& p.len() >= 1
    &&& p[0] == root
    &&& forall|i: int| 0 <= i < p.len() - 1 ==> laid_out(nodes, layout, #[trigger] p[i])
    &&& forall|i: int| 1 <= i < p.len() ==> #[trigger] linked(nodes, p, i)
}

/// A queue entry: the view at the end of `p`, to be moved by the offset
/// `p` gives it.
pub open spec fn entry_ok(
    nodes: Map<u64, ViewNode>,
    layout: Map<u64, LayoutNode>,
    root: ViewId,
    area: Rect,
    e: (ViewId, Pos2),
    p: Seq<ViewId>,
) -> bool {
    &&& path_prefix_ok(nodes, layout, root, p)
    &&& p.last() == e.0
    &&& nodes.contains_key(e.0.0)
    &&& e.1.x == offset_along(layout, area, p).0
    &&& e.1.y == offset_along(layout, area, p).1
}

/// Appending the children of a queued view keeps the queue free of
/// duplicates, each view after the root with its parent earlier in the queue.
proof fn lemma_resolve_kids_fresh(
    n: Map<u64, ViewNode>,
    root: ViewId,
    qids: Seq<ViewId>,
    par: Seq<int>,
    h: int,
    id: ViewId,
)
    requires
        tree_wf(n, root),
        0 <= h < qids.len(),
        qids[0] == root,
        qids[h] == id,
        qids.no_duplicates(),
        par.len() == qids.len(),
        forall|j: int| 0 <= j < qids.len() ==> n.contains_key((#[trigger] qids[j]).0),
        forall|j: int|
            1 <= j < qids.len() ==> 0 <= par[j] < h && n[(#[trigger] qids[j]).0].parent == Some(qids[par[j]]),
    ensures
        ({
            let qa = qids + kids(n, id.0);
            let pa = par + Seq::new(kids(n, id.0).len(), |t: int| h);
            &&& qa.no_duplicates()
            &&& forall|j: int| 0 <= j < qa.len() ==> n.contains_key((#[trigger] qa[j]).0)
            &&& forall|j: int|
                1 <= j < qa.len() ==> 0 <= pa[j] < h + 1 && n[(#[trigger] qa[j]).0].parent == Some(qa[pa[j]])
        }),
{
    let ks = kids(n, id.0);
    let qa = qids + ks;
    let pa = par + Seq::new(ks.len(), |t: int| h);
    assert(n.contains_key(id.0));
    assert forall|a: int, b: int| 0 <= a < b < qa.len() implies qa[a] != qa[b] by {
        if b >= qids.len() {
            let tb = b - qids.len();
            assert(qa[b] == ks[tb]);
            assert(n[ks[tb].0].parent == Some(id));
            if a >= qids.len() {
                assert(qa[a] == ks[a - qids.len()]);
            } else {
                assert(qa[a] == qids[a]);
                if qa[a] == qa[b] {
                    if a == 0 {
                        assert(n[root.0].parent is None);
                    } else {
                        assert(qids[par[a]] == qids[h]);
                    }
                }
            }
        } else {
            assert(qa[a] == qids[a] && qa[b] == qids[b]);
        }
    }
    assert forall|j: int| 0 <= j < qa.len() implies n.contains_key((#[trigger] qa[j]).0) by {
        if j >= qids.len() {
            assert(qa[j] == ks[j - qids.len()]);
        } else {
            assert(qa[j] == qids[j]);
        }
    }
    assert forall|j: int| 1 <= j < qa.len() implies 0 <= pa[j] < h + 1 && n[(#[trigger] qa[j]).0].parent == Some(
        qa[pa[j]],
    ) by {
        if j >= qids.len() {
            assert(qa[j] == ks[j - qids.len()]);
            assert(pa[j] == h);
            assert(qa[h] == id);
        } else {
            assert(qa[j] == qids[j]);
            assert(pa[j] == par[j]);
            assert(qa[par[j]] == qids[par[j]]);
        }
    }
}

/// Once the queue is used up, every view on a laid-out path was resolved.
proof fn lemma_resolve_complete(
    n: Map<u64, ViewNode>,
    l0: Map<u64, LayoutNode>,
    root: ViewId,
    qids: Seq<ViewId>,
    done: Set<u64>,
    p: Seq<ViewId>,
    i: int,
)
    requires
        laid_path(n, l0, root, p),
        0 <= i < p.len(),
        qids.len() >= 1,
        qids[0] == root,
        forall|m: int| 0 <= m < qids.len() && laid_out(n, l0, #[trigger] qids[m]) ==> done.contains(qids[m].0),
        forall|k: u64, t: int|
            done.contains(k) && 0 <= t < kids(n, k).len() ==> qids.contains(#[trigger] kids(n, k)[t]),
    ensures
        done.contains(p[i].0),
    decreases i,
{
    assert(laid_out(n, l0, p[i]));
    if i == 0 {
        assert(laid_out(n, l0, qids[0]));
    } else {
        lemma_resolve_complete(n, l0, root, qids, done, p, i - 1);
        assert(linked(n, p, i));
        let t = choose|t: int| 0 <= t < kids(n, p[i - 1].0).len() && #[trigger] kids(n, p[i - 1].0)[t] == p[i];
        assert(qids.contains(kids(n, p[i - 1].0)[t]));
        let m = choose|m: int| 0 <= m < qids.len() && #[trigger] qids[m] == p[i];
        assert(laid_out(n, l0, qids[m]));
    }
}

/// `v` kept within `lo..=hi`, as `i32::clamp` gives it.
fn clamp_i32(v: i32, lo: i32, hi: i32) -> (r: i32)
    requires
        lo <= hi,
    ensures
        r == clamp_int(v as int, lo as int, hi as int),
{
    if v < lo {
        lo
    } else if v > hi {
        hi
    } else {
        v
    }
}

impl LayoutNodes {
    /// Place the laid-out views: from the root down, breadth first, keep
    /// each rectangle within `area` (a top-left corner with a negative
    /// coordinate stays where it is) and move it by the resolved top-left
    /// corner of its parent, the root by the corner of `area`. A view that
    /// is missing from either tree, or whose rectangle is empty, stays as
    /// it is, and so does everything below it.
    #[verifier::rlimit(60)]
    pub fn resolve(&mut self, nodes: &ViewNodes, area: Rect)
        requires
            nodes.wf(),
            area.min.x <= area.max.x,
            area.min.y <= area.max.y,
            forall|p: Seq<ViewId>|
                #[trigger] laid_path(nodes.nodes(), old(self).nodes(), nodes.spec_root(), p) ==> resolved_fits(
                    old(self).nodes(),
                    area,
                    p,
                ),
        ensures
            final(self).nodes().dom() == old(self).nodes().dom(),
            forall|k: u64|
                #[trigger] old(self).nodes().contains_key(k) ==> final(self).nodes()[k] == resolved_node(
                    nodes.nodes(),
                    old(self).nodes(),
                    nodes.spec_root(),
                    area,
                    k,
                ),
            final(self).clip_stack() == old(self).clip_stack(),
            final(self).axis_stack() == old(self).axis_stack(),
            final(self).interests() == old(self).interests(),
    {
        let ghost n = nodes.nodes();
        let ghost l0 = self.nodes();
        let root = nodes.root();
        let mut queue: Vec<(ViewId, Pos2)> = Vec::new();
        queue.push((root, area.min));
        let ghost mut paths: Seq<Seq<ViewId>> = seq![seq![root]];
        let ghost mut par: Seq<int> = seq![-1int];
        let ghost mut done: Set<u64> = Set::empty();
        let ghost mut at: Map<u64, int> = Map::empty();
        let mut head: usize = 0;
        proof {
            assert(queued_ids(queue@) =~= seq![root]);
            assert(path_prefix_ok(n, l0, root, seq![root]));
            assert(entry_ok(n, l0, root, area, queue@[0], paths[0]));
        }
        while head < queue.len()
            invariant
                nodes.wf(),
                n == nodes.nodes(),
                root == nodes.spec_root(),
                tree_wf(n, root),
                l0 == old(self).nodes(),
                area.min.x <= area.max.x,
                area.min.y <= area.max.y,
                forall|p: Seq<ViewId>| #[trigger] laid_path(n, l0, root, p) ==> resolved_fits(l0, area, p),
                self.nodes().dom() == l0.dom(),
                self.clip_stack() == old(self).clip_stack(),
                self.axis_stack() == old(self).axis_stack(),
                self.interests() == old(self).interests(),
                head <= queue@.len(),
                queue@.len() >= 1,
                queue@[0].0 == root,
                paths.len() == queue@.len(),
                par.len() == queue@.len(),
                forall|j: int| 0 <= j < queue@.len() ==> entry_ok(n, l0, root, area, #[trigger] queue@[j], paths[j]),
                queued_ids(queue@).no_duplicates(),
                forall|j: int| 0 <= j < queue@.len() ==> n.contains_key((#[trigger] queued_ids(queue@)[j]).0),
                forall|j: int|
                    1 <= j < queue@.len() ==> 0 <= par[j] < head && n[(#[trigger] queued_ids(queue@)[j]).0].parent
                        == Some(queued_ids(queue@)[par[j]]),
                forall|k: u64|
                    #[trigger] done.contains(k) ==> 0 <= at[k] < head && queue@[at[k]].0.0 == k && l0.contains_key(k)
                        && laid_path(n, l0, root, paths[at[k]]) && self.nodes()[k] == (LayoutNode {
                        rect: resolved_rect(l0, area, paths[at[k]]),
                        ..l0[k]
                    }),
                forall|k: u64, t: int|
                    done.contains(k) && 0 <= t < kids(n, k).len() ==> queued_ids(queue@).contains(
                        #[trigger] kids(n, k)[t],
                    ),
                forall|k: u64| #[trigger] l0.contains_key(k) && !done.contains(k) ==> self.nodes()[k] == l0[k],
                forall|m: int|
                    0 <= m < head && laid_out(n, l0, #[trigger] queued_ids(queue@)[m]) ==> done.contains(
                        queued_ids(queue@)[m].0,
                    ),
            decreases n.len() - head,
        {
            proof {
                crate::filter::lemma_distinct_ids_bounded(queued_ids(queue@), n.dom());
            }
            let (id, pos) = queue[head];
            let ghost h = head as int;
            let ghost qb = queue@;
            let ghost pth = paths[h];
            assert(queued_ids(qb)[h] == id);
            head = head + 1;
            let lnode = match self.nodes.get(&id.0) {
                Some(l) => *l,
                None => {
                    continue;
                },
            };
            let node = match nodes.get(id) {
                Some(v) => v,
                None => {
                    continue;
                },
            };
            if lnode.rect.is_empty() {
                continue;
            }
            proof {
                assert(entry_ok(n, l0, root, area, qb[h], pth));
                assert(!done.contains(id.0)) by {
                    if done.contains(id.0) {
                        assert(queued_ids(qb)[at[id.0]] == id);
                    }
                }
                assert(lnode == l0[id.0]);
                assert(laid_out(n, l0, id));
                assert forall|i: int| 0 <= i < pth.len() implies laid_out(n, l0, #[trigger] pth[i]) by {
                    if i == pth.len() - 1 {
                        assert(pth[i] == id);
                    }
                }
                assert(laid_path(n, l0, root, pth));
                assert(resolved_fits(l0, area, pth));
            }
            let r = lnode.rect;
            let min = if r.min.x >= 0 && r.min.y >= 0 {
                Pos2 { x: clamp_i32(r.min.x, area.min.x, area.max.x), y: clamp_i32(r.min.y, area.min.y, area.max.y) }
            } else {
                r.min
            };
            let max = Pos2 { x: clamp_i32(r.max.x, area.min.x, area.max.x), y: clamp_i32(r.max.y, area.min.y, area.max.y) };
            let moved = Rect {
                min: Pos2 { x: min.x + pos.x, y: min.y + pos.y },
                max: Pos2 { x: max.x + pos.x, y: max.y + pos.y },
            };
            assert(moved == resolved_rect(l0, area, pth));
            let mut updated = lnode;
            updated.rect = moved;
            self.nodes.insert(id.0, updated);
            let ghost pb = par;
            let ghost pathsb = paths;
            let mut i: usize = 0;
            while i < node.children.len()
                invariant
                    *node == n[id.0],
                    i <= node.children@.len(),
                    queue@ == qb + node.children@.take(i as int).map_values(|c: ViewId| (c, moved.min)),
                    paths == pathsb + node.children@.take(i as int).map_values(|c: ViewId| pth.push(c)),
                    par == pb + Seq::new(i as nat, |t: int| h),
                decreases node.children@.len() - i,
            {
                let c = node.children[i];
                queue.push((c, moved.min));
                proof {
                    paths = paths.push(pth.push(c));
                    par = par.push(h);
                }
                i = i + 1;
                assert(queue@ =~= qb + node.children@.take(i as int).map_values(|c: ViewId| (c, moved.min)));
                assert(paths =~= pathsb + node.children@.take(i as int).map_values(|c: ViewId| pth.push(c)));
                assert(par =~= pb + Seq::new(i as nat, |t: int| h));
            }
            proof {
                assert(node.children@.take(i as int) =~= node.children@);
                let qa = queue@;
                let ks = kids(n, id.0);
                lemma_resolve_kids_fresh(n, root, queued_ids(qb), pb, h, id);
                assert(queued_ids(qa) =~= queued_ids(qb) + ks);
                assert(par =~= pb + Seq::new(ks.len(), |t: int| h));
                done = done.insert(id.0);
                at = at.insert(id.0, h);
                assert forall|j: int| 0 <= j < qa.len() implies entry_ok(n, l0, root, area, #[trigger] qa[j], paths[j]) by {
                    if j < qb.len() {
                        assert(qa[j] == qb[j]);
                        assert(paths[j] == pathsb[j]);
                    } else {
                        let t = j - qb.len();
                        let c = ks[t];
                        assert(qa[j] == (c, moved.min));
                        assert(paths[j] == pth.push(c));
                        let np = pth.push(c);
                        assert(np.drop_last() =~= pth);
                        assert(linked(n, np, np.len() - 1)) by {
                            assert(np[np.len() - 2] == id);
                            assert(ks[t] == c);
                        }
                        assert forall|i2: int| 0 <= i2 < np.len() - 1 implies laid_out(n, l0, #[trigger] np[i2]) by {
                            assert(np[i2] == pth[i2]);
                        }
                        assert forall|i2: int| 1 <= i2 < np.len() implies #[trigger] linked(n, np, i2) by {
                            if i2 < np.len() - 1 {
                                assert(np[i2] == pth[i2] && np[i2 - 1] == pth[i2 - 1]);
                                assert(linked(n, pth, i2));
                            }
                        }
                        assert(n.contains_key(c.0));
                    }
                }
                assert forall|k: u64| #[trigger] done.contains(k) implies 0 <= at[k] < head && qa[at[k]].0.0 == k
                    && l0.contains_key(k) && laid_path(n, l0, root, paths[at[k]]) && self.nodes()[k] == (LayoutNode {
                    rect: resolved_rect(l0, area, paths[at[k]]),
                    ..l0[k]
                }) by {
                    if k != id.0 {
                        assert(qa[at[k]] == qb[at[k]]);
                        assert(paths[at[k]] == pathsb[at[k]]);
                    } else {
                        assert(qa[h] == qb[h]);
                        assert(paths[h] == pth);
                    }
                }
                assert forall|k: u64, t: int|
                    done.contains(k) && 0 <= t < kids(n, k).len() implies queued_ids(qa).contains(
                    #[trigger] kids(n, k)[t],
                ) by {
                    if k == id.0 {
                        assert(queued_ids(qa)[qb.len() + t] == ks[t]);
                    } else {
                        let m = choose|m: int| 0 <= m < queued_ids(qb).len() && #[trigger] queued_ids(qb)[m] == kids(n, k)[t];
                        assert(queued_ids(qa)[m] == queued_ids(qb)[m]);
                    }
                }
                assert forall|m: int|
                    0 <= m < head && laid_out(n, l0, #[trigger] queued_ids(qa)[m]) implies done.contains(
                    queued_ids(qa)[m].0,
                ) by {
                    assert(queued_ids(qa)[m] == queued_ids(qb)[m]);
                }
            }
        }
        proof {
            let qids = queued_ids(queue@);
            assert forall|k: u64| #[trigger] l0.contains_key(k) implies self.nodes()[k] == resolved_node(n, l0, root, area, k) by {
                if reached(n, l0, root, ViewId(k)) {
                    let p = path_to(n, l0, root, ViewId(k));
                    assert(laid_path(n, l0, root, p) && p.last() == ViewId(k));
                    lemma_resolve_complete(n, l0, root, qids, done, p, p.len() - 1);
                    assert(done.contains(k));
                    lemma_laid_path_unique(n, l0, root, p, paths[at[k]]);
                } else {
                    if done.contains(k) {
                        assert(laid_path(n, l0, root, paths[at[k]]) && paths[at[k]].last() == ViewId(k));
                    }
                }
            }
        }
    }
}

} // verus!
