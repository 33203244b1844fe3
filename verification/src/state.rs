//! The whole state of a user interface: its view, layout, render and input
//! trees, its palette and its debug overlay, and the bookkeeping of a frame.
use vstd::prelude::*;
use crate::debug::{initial_capacity, DebugMode};
use crate::geom::Vec2;
use crate::helpers::newest;
use crate::input::ViewId;
use crate::input_state::{
    begin_post, grew, initial_model, new_part, update_post, update_ready, Dispatcher, InputModel, InputState,
    ViewTree,
};
use crate::keys::Event;
use crate::input_state::{clips_resolve, Delivery};
use crate::input::Handled;
use crate::test_input::{test_events, TestInput};
use crate::layout::{fresh_node, LayoutNode, LayoutNodes};
use crate::render::RenderNodes;
use crate::style::Palette;
use crate::view_nodes::{ViewNode, ViewNodes};

verus! {

/// The state behind a user interface.
pub struct State {
    nodes: ViewNodes,
    layout: LayoutNodes,
    render: RenderNodes,
    input: InputState,
    palette: Palette,
    size_changed: Option<Vec2>,
    debug: crate::debug::Debug,
}

/// The layout `after` is `before` without the nodes of the views in `gone`.
pub open spec fn forgot(before: Map<u64, LayoutNode>, after: Map<u64, LayoutNode>, gone: Seq<ViewId>) -> bool {
    &&& forall|k: u64| after.contains_key(k) <==> before.contains_key(k) && !gone.contains(ViewId(k))
    &&& forall|k: u64| #[trigger] after.contains_key(k) ==> after[k] == before[k]
}

/// What a resize leaves of a pending size change: a change to the size
/// already pending, or to a first size, is dropped; any other leaves the
/// pending one.
pub open spec fn after_resize(pending: Option<Vec2>, size: Vec2) -> Option<Vec2> {
    match pending {
        None => None,
        Some(p) => if p == size {
            None
        } else {
            Some(p)
        },
    }
}

impl State {
    pub closed spec fn view_nodes(&self) -> ViewNodes {
        self.nodes
    }

    pub closed spec fn layout_nodes(&self) -> LayoutNodes {
        self.layout
    }

    pub closed spec fn input_model(&self) -> InputModel {
        self.input@
    }

    pub closed spec fn spec_palette(&self) -> Palette {
        self.palette
    }

    pub closed spec fn pending_resize(&self) -> Option<Vec2> {
        self.size_changed
    }

    pub closed spec fn overlay(&self) -> crate::debug::Debug {
        self.debug
    }

    pub open spec fn wf(&self) -> bool {
        self.view_nodes().wf() && self.layout_nodes().wf()
    }

    /// A state with only the root view, of kind `root_kind`, laid out with
    /// an empty rectangle, and nothing pending.
    pub fn new(palette: Palette, root_kind: u64) -> (s: State)
        ensures
            s.wf(),
            s.view_nodes().nodes().dom() == set![s.view_nodes().spec_root().0],
            s.view_nodes().nodes()[s.view_nodes().spec_root().0].children@.len() == 0,
            s.view_nodes().nodes()[s.view_nodes().spec_root().0].kind == root_kind,
            s.layout_nodes().nodes() == Map::<u64, LayoutNode>::empty().insert(
                s.view_nodes().spec_root().0,
                fresh_node(s.view_nodes().spec_root()),
            ),
            s.input_model() == initial_model(),
            s.spec_palette() == palette,
            s.pending_resize() is None,
            s.overlay().messages() == (Seq::<String>::empty(), initial_capacity()),
            s.overlay().mode() == DebugMode::Rolling,
    {
        let nodes = ViewNodes::new(root_kind);
        let mut layout = LayoutNodes::new();
        layout.begin_compute(nodes.root());
        let s = State {
            nodes,
            layout,
            render: RenderNodes::new(),
            input: InputState::new(),
            palette,
            size_changed: None,
            debug: crate::debug::Debug::new(),
        };
        proof {
            let r = s.nodes.spec_root().0;
            assert(s.nodes.nodes().dom() =~= set![r]);
        }
        s
    }

    /// The view tree.
    pub fn nodes(&self) -> (r: &ViewNodes)
        ensures
            *r == self.view_nodes(),
    {
        &self.nodes
    }

    /// The view tree, to build views in.
    pub fn nodes_mut(&mut self) -> (r: &mut ViewNodes)
        ensures
            *r == old(self).view_nodes(),
            final(self).view_nodes() == *final(r),
            final(self).layout_nodes() == old(self).layout_nodes(),
            final(self).input_model() == old(self).input_model(),
            final(self).spec_palette() == old(self).spec_palette(),
    {
        &mut self.nodes
    }

    /// The layout tree.
    pub fn layout(&self) -> (r: &LayoutNodes)
        ensures
            *r == self.layout_nodes(),
    {
        &self.layout
    }

    /// The layout tree, to lay views out in.
    pub fn layout_mut(&mut self) -> (r: &mut LayoutNodes)
        ensures
            *r == old(self).layout_nodes(),
            final(self).layout_nodes() == *final(r),
            final(self).view_nodes() == old(self).view_nodes(),
            final(self).input_model() == old(self).input_model(),
            final(self).spec_palette() == old(self).spec_palette(),
    {
        &mut self.layout
    }

    /// The input state.
    pub fn input(&self) -> (r: &InputState)
        ensures
            r@ == self.input_model(),
    {
        &self.input
    }

    /// The debug overlay's messages, oldest first, taken out of it.
    pub fn drain_debug(&mut self) -> (r: Vec<String>)
        ensures
            r@ == old(self).overlay().messages().0,
            final(self).overlay().messages() == (Seq::<String>::empty(), old(self).overlay().messages().1),
            final(self).overlay().mode() == old(self).overlay().mode(),
    {
        self.debug.drain()
    }

    /// Send a message to the debug overlay.
    pub fn debug(&mut self, msg: &str)
        ensures
            crate::debug::took(old(self).overlay(), final(self).overlay(), crate::debug::trimmed(msg@)),
    {
        self.debug.push(msg);
    }

    /// The root view.
    pub fn root(&self) -> (r: ViewId)
        ensures
            r == self.view_nodes().spec_root(),
    {
        self.nodes.root()
    }

    /// The palette.
    pub fn palette(&self) -> (r: Palette)
        ensures
            r == self.spec_palette(),
    {
        self.palette
    }

    /// Use `palette` from now on.
    pub fn set_palette(&mut self, palette: Palette)
        ensures
            final(self).spec_palette() == palette,
            final(self).view_nodes() == old(self).view_nodes(),
            final(self).layout_nodes() == old(self).layout_nodes(),
            final(self).input_model() == old(self).input_model(),
    {
        self.palette = palette;
    }

    /// Take in an event from the backend: a resize settles the pending size
    /// change and bounds the debug overlay by the new height; then the input
    /// state hands what the event means to the views.
    pub fn event<T: ViewTree>(&mut self, d: &mut Dispatcher<T>, event: &Event)
        requires
            update_ready(old(self).input_model(), &old(self).layout_nodes(), *event),
        ensures
            grew(old(d).log(), final(d).log()),
            exists|r| update_post(
                old(self).input_model(),
                final(self).input_model(),
                &old(self).layout_nodes(),
                *event,
                new_part(old(d).log(), final(d).log()),
                r,
            ),
            final(self).pending_resize() == (match *event {
                Event::Resize(size) => after_resize(old(self).pending_resize(), size),
                _ => old(self).pending_resize(),
            }),
            final(self).overlay().mode() == old(self).overlay().mode(),
            final(self).overlay().messages() == (match *event {
                Event::Resize(size) => (newest(old(self).overlay().messages().0, size.y as usize), size.y as usize),
                _ => old(self).overlay().messages(),
            }),
            final(self).view_nodes() == old(self).view_nodes(),
            final(self).layout_nodes() == old(self).layout_nodes(),
            final(self).spec_palette() == old(self).spec_palette(),
    {
        if let Event::Resize(size) = event {
            self.size_changed = match self.size_changed {
                None => None,
                Some(p) => if p == *size {
                    None
                } else {
                    Some(p)
                },
            };
            self.debug.resize(size.y as usize);
        }
        let _ = self.input.update(d, &self.layout, event);
    }

    /// Start building a frame: the view tree visits the root's children
    /// from the first, the render and layout passes start afresh, and the
    /// views hear of focus and selection changes.
    pub fn begin<T: ViewTree>(&mut self, d: &mut Dispatcher<T>)
        requires
            old(self).wf(),
        ensures
            final(self).wf(),
            final(self).view_nodes().nodes() == old(self).view_nodes().nodes().insert(
                old(self).view_nodes().spec_root().0,
                ViewNode {
                    next: 0,
                    ..old(self).view_nodes().nodes()[old(self).view_nodes().spec_root().0]
                },
            ),
            final(self).view_nodes().removed() == old(self).view_nodes().removed(),
            final(self).layout_nodes().nodes() == old(self).layout_nodes().nodes(),
            final(self).layout_nodes().clip_stack().len() == 0,
            final(self).layout_nodes().axis_stack().len() == 0,
            grew(old(d).log(), final(d).log()),
            begin_post(
                old(self).input_model(),
                final(self).input_model(),
                &old(self).layout_nodes(),
                new_part(old(d).log(), final(d).log()),
            ),
    {
        self.nodes.start();
        self.render.start();
        self.layout.begin();
        self.input.begin(d, &self.layout);
    }

    /// Finish building a frame: the layout forgets every view removed
    /// during it, the input settles its buttons and forgets the key
    /// pressed, and the layout's interests are cleared.
    pub fn end(&mut self)
        requires
            old(self).wf(),
        ensures
            final(self).wf(),
            forgot(
                old(self).layout_nodes().nodes(),
                final(self).layout_nodes().nodes(),
                old(self).view_nodes().removed(),
            ),
            final(self).view_nodes().removed().len() == 0,
            final(self).view_nodes().nodes() == old(self).view_nodes().nodes(),
            final(self).input_model() == (InputModel {
                key_press: None,
                buttons: old(self).input_model().buttons.settled(),
                ..old(self).input_model()
            }),
            final(self).layout_nodes().interests().layers().len() == 0,
    {
        let removed = self.nodes.finish();
        let ghost l0 = self.layout.nodes();
        let mut i: usize = 0;
        while i < removed.len()
            invariant
                i <= removed@.len(),
                self.layout.wf(),
                self.nodes.wf(),
                self.nodes.removed().len() == 0,
                self.nodes.nodes() == old(self).view_nodes().nodes(),
                self.input@ == old(self).input_model(),
                forgot(l0, self.layout.nodes(), removed@.take(i as int)),
            decreases removed@.len() - i,
        {
            let ghost before = self.layout.nodes();
            self.layout.remove(removed[i]);
            proof {
                let t = removed@.take(i + 1);
                assert(t =~= removed@.take(i as int).push(removed@[i as int]));
                assert forall|k: u64| self.layout.nodes().contains_key(k) <==> l0.contains_key(k) && !t.contains(
                    ViewId(k),
                ) by {
                    if t.contains(ViewId(k)) && ViewId(k) != removed@[i as int] {
                        let j = choose|j: int| 0 <= j < t.len() && t[j] == ViewId(k);
                        assert(removed@.take(i as int)[j] == ViewId(k));
                    }
                    if removed@.take(i as int).contains(ViewId(k)) {
                        let j = choose|j: int| 0 <= j < i && removed@.take(i as int)[j] == ViewId(k);
                        assert(t[j] == ViewId(k));
                    }
                    if ViewId(k) == removed@[i as int] {
                        assert(t[i as int] == ViewId(k));
                    }
                }
            }
            i += 1;
        }
        assert(removed@.take(i as int) =~= removed@);
        self.input.end();
        self.layout.end();
    }
}


/// Step `i` of a run: the input state goes from `ms[i]` to `ms[i + 1]` on
/// `events[i]`, handing the views the part of `log` between the cuts.
pub open spec fn step_taken(
    ms: Seq<InputModel>,
    cuts: Seq<int>,
    layout: &LayoutNodes,
    events: Seq<Event>,
    log: Seq<Delivery>,
    i: int,
) -> bool {
    answered(ms[i], ms[i + 1], layout, events[i], log.subrange(cuts[i], cuts[i + 1]))
}

/// Taking in `event` takes the input state from `a` to `b` and hands the
/// views `part`.
pub open spec fn answered(a: InputModel, b: InputModel, layout: &LayoutNodes, event: Event, part: Seq<Delivery>) -> bool {
    exists|r: Handled| update_post(a, b, layout, event, part, r)
}

/// The states `ms` and the cuts of `log` that take the input state from
/// `before` to `after` through `events`.
pub open spec fn ran_through(
    before: InputModel,
    after: InputModel,
    layout: &LayoutNodes,
    events: Seq<Event>,
    log: Seq<Delivery>,
    ms: Seq<InputModel>,
    cuts: Seq<int>,
) -> bool {
    &&& ms.len() == events.len() + 1
    &&& cuts.len() == events.len() + 1
    &&& ms[0] == before
    &&& ms[events.len() as int] == after
    &&& cuts[0] == 0
    &&& cuts[events.len() as int] == log.len()
    &&& forall|i: int| 0 < i <= events.len() ==> cuts[i - 1] <= #[trigger] cuts[i] <= log.len()
    &&& forall|i: int| 0 <= i < events.len() ==> #[trigger] step_taken(ms, cuts, layout, events, log, i)
}

/// `after` is what the input state `before` becomes, and `log` what the
/// views are handed, when `events` are taken in one after the other.
pub open spec fn took_in(
    before: InputModel,
    after: InputModel,
    layout: &LayoutNodes,
    events: Seq<Event>,
    log: Seq<Delivery>,
) -> bool {
    exists|ms: Seq<InputModel>, cuts: Seq<int>| #[trigger] ran_through(before, after, layout, events, log, ms, cuts)
}

/// The backend events a script of steps stands for, one step after the other.
pub open spec fn script_events(inputs: Seq<TestInput>) -> Seq<Event>
    decreases inputs.len(),
{
    if inputs.len() == 0 {
        Seq::empty()
    } else {
        script_events(inputs.drop_last()) + test_events(inputs.last())
    }
}

proof fn lemma_took_in_nothing(before: InputModel, layout: &LayoutNodes, log: Seq<Delivery>)
    requires
        log.len() == 0,
    ensures
        took_in(before, before, layout, Seq::empty(), log),
{
    assert(ran_through(before, before, layout, Seq::empty(), log, seq![before], seq![0int]));
}

proof fn lemma_took_in_step(
    before: InputModel,
    mid: InputModel,
    after: InputModel,
    layout: &LayoutNodes,
    events: Seq<Event>,
    e: Event,
    p: Seq<Delivery>,
    q: Seq<Delivery>,
    r: Handled,
)
    requires
        took_in(before, mid, layout, events, p),
        update_post(mid, after, layout, e, q, r),
    ensures
        took_in(before, after, layout, events.push(e), p + q),
{
    let (ms, cuts) = choose|ms: Seq<InputModel>, cuts: Seq<int>| #[trigger] ran_through(before, mid, layout, events, p, ms, cuts);
    let all = events.push(e);
    let log = p + q;
    let n = events.len() as int;
    let ms2 = ms.push(after);
    let cuts2 = cuts.push(log.len() as int);
    assert forall|i: int| 0 < i <= all.len() implies cuts2[i - 1] <= #[trigger] cuts2[i] <= log.len() by {
        if i <= n {
            assert(cuts[i - 1] <= cuts[i] <= p.len());
        } else {
            assert(cuts[n] == p.len());
        }
    }
    assert forall|i: int| 0 <= i < all.len() implies #[trigger] step_taken(ms2, cuts2, layout, all, log, i) by {
        if i < n {
            assert(step_taken(ms, cuts, layout, events, p, i));
            assert(cuts[i] <= cuts[i + 1] <= p.len());
            assert(0 <= cuts[i]) by {
                lemma_cuts_start(cuts, n, i);
            }
            assert(log.subrange(cuts[i], cuts[i + 1]) =~= p.subrange(cuts[i], cuts[i + 1]));
            assert(ms2[i] == ms[i] && ms2[i + 1] == ms[i + 1] && all[i] == events[i]);
        } else {
            assert(log.subrange(cuts2[i], cuts2[i + 1]) =~= q);
            assert(update_post(ms2[i], ms2[i + 1], layout, all[i], log.subrange(cuts2[i], cuts2[i + 1]), r));
            assert(answered(ms2[i], ms2[i + 1], layout, all[i], log.subrange(cuts2[i], cuts2[i + 1])));
        }
    }
    assert(ran_through(before, after, layout, all, log, ms2, cuts2));
}

proof fn lemma_cuts_start(cuts: Seq<int>, n: int, i: int)
    requires
        cuts.len() == n + 1,
        cuts[0] == 0,
        forall|j: int| 0 < j <= n ==> cuts[j - 1] <= #[trigger] cuts[j],
        0 <= i <= n,
    ensures
        0 <= cuts[i],
    decreases i,
{
    if i > 0 {
        lemma_cuts_start(cuts, n, i - 1);
        assert(cuts[i - 1] <= cuts[i]);
    }
}

proof fn lemma_grew_chain(a: Seq<Delivery>, b: Seq<Delivery>, c: Seq<Delivery>)
    requires
        grew(a, b),
        grew(b, c),
    ensures
        grew(a, c),
        new_part(a, c) == new_part(a, b) + new_part(b, c),
{
    assert(c.take(a.len() as int) =~= b.take(a.len() as int));
    assert(new_part(a, c) =~= new_part(a, b) + new_part(b, c));
}

impl State {
    /// Take in the backend events a script of mouse steps stands for, one
    /// after the other.
    pub fn replay<T: ViewTree>(&mut self, d: &mut Dispatcher<T>, inputs: &Vec<TestInput>)
        requires
            clips_resolve(old(self).layout_nodes().nodes()),
            forall|i: int| 0 <= i < inputs@.len() ==> (#[trigger] inputs@[i]).fits(),
        ensures
            grew(old(d).log(), final(d).log()),
            took_in(
                old(self).input_model(),
                final(self).input_model(),
                &old(self).layout_nodes(),
                script_events(inputs@),
                new_part(old(d).log(), final(d).log()),
            ),
            final(self).view_nodes() == old(self).view_nodes(),
            final(self).layout_nodes() == old(self).layout_nodes(),
            final(self).spec_palette() == old(self).spec_palette(),
            final(self).pending_resize() == old(self).pending_resize(),
            final(self).overlay().mode() == old(self).overlay().mode(),
            final(self).overlay().messages() == old(self).overlay().messages(),
    {
        let ghost log0 = d.log();
        let ghost m0 = self.input_model();
        let ghost layout0 = self.layout_nodes();
        proof {
            assert(log0.take(log0.len() as int) =~= log0);
            assert(new_part(log0, log0).len() == 0);
            lemma_took_in_nothing(m0, &layout0, new_part(log0, log0));
            assert(inputs@.take(0) =~= Seq::<TestInput>::empty());
        }
        let mut i: usize = 0;
        while i < inputs.len()
            invariant
                i <= inputs@.len(),
                clips_resolve(layout0.nodes()),
                forall|i: int| 0 <= i < inputs@.len() ==> (#[trigger] inputs@[i]).fits(),
                grew(log0, d.log()),
                took_in(m0, self.input_model(), &layout0, script_events(inputs@.take(i as int)), new_part(log0, d.log())),
                self.view_nodes() == old(self).view_nodes(),
                self.layout_nodes() == layout0,
                self.spec_palette() == old(self).spec_palette(),
                self.pending_resize() == old(self).pending_resize(),
                self.overlay().mode() == old(self).overlay().mode(),
                    self.overlay().messages() == old(self).overlay().messages(),
            decreases inputs@.len() - i,
        {
            let evs = inputs[i].events();
            let ghost done = script_events(inputs@.take(i as int));
            let mut j: usize = 0;
            proof {
                assert(done + evs@.take(0) =~= done);
            }
            while j < evs.len()
                invariant
                    j <= evs@.len(),
                    evs@ == test_events(inputs@[i as int]),
                    clips_resolve(layout0.nodes()),
                    grew(log0, d.log()),
                    took_in(m0, self.input_model(), &layout0, done + evs@.take(j as int), new_part(log0, d.log())),
                    self.view_nodes() == old(self).view_nodes(),
                    self.layout_nodes() == layout0,
                    self.spec_palette() == old(self).spec_palette(),
                    self.pending_resize() == old(self).pending_resize(),
                    self.overlay().mode() == old(self).overlay().mode(),
                    self.overlay().messages() == old(self).overlay().messages(),
                decreases evs@.len() - j,
            {
                let ghost m1 = self.input_model();
                let ghost l1 = d.log();
                proof {
                    assert(!(evs@[j as int] is MouseDrag) && !(evs@[j as int] is Resize));
                }
                self.event(d, &evs[j]);
                proof {
                    let r = choose|r: Handled| update_post(
                        m1,
                        self.input_model(),
                        &layout0,
                        evs@[j as int],
                        new_part(l1, d.log()),
                        r,
                    );
                    lemma_took_in_step(
                        m0,
                        m1,
                        self.input_model(),
                        &layout0,
                        done + evs@.take(j as int),
                        evs@[j as int],
                        new_part(log0, l1),
                        new_part(l1, d.log()),
                        r,
                    );
                    lemma_grew_chain(log0, l1, d.log());
                    assert((done + evs@.take(j as int)).push(evs@[j as int]) =~= done + evs@.take(j + 1));
                }
                j += 1;
            }
            proof {
                let t = inputs@.take(i + 1);
                assert(t.drop_last() =~= inputs@.take(i as int));
                assert(evs@.take(j as int) =~= evs@);
            }
            i += 1;
        }
        proof {
            assert(inputs@.take(i as int) =~= inputs@);
        }
    }
}

} // verus!
