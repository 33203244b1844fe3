//! What a view's event handler can see: its own id and the view, layout
//! and input trees.
use vstd::prelude::*;
use crate::geom::{Pos2, Rect};
use crate::input::{Handled, ViewEvent, ViewId};
use crate::input_state::{answer, grew, new_part, offered, sent, sunk_by, Delivery, Dispatcher, InputState, ViewTree};
use crate::layout::LayoutNodes;
use crate::view_nodes::{kids, valid_key, ViewNodes};

verus! {

/// The context handed to an event handler.
pub struct EventCtx<'a> {
    /// The view that received the event.
    pub current: ViewId,
    /// The view tree.
    pub nodes: &'a ViewNodes,
    /// The layout tree.
    pub layout: &'a LayoutNodes,
    /// The input state.
    pub input: &'a InputState,
}

impl<'a> EventCtx<'a> {
    /// Send `event` to the view `id`; a view that is missing lets it bubble.
    pub fn send_event<T: ViewTree>(&self, d: &mut Dispatcher<T>, id: ViewId, event: ViewEvent) -> (r: Handled)
        ensures
            final(d).log() == old(d).log().push(Delivery { id, event, reply: final(d).log().last().reply }),
            r == answer(final(d).log().last()),
    {
        self.input.dispatch(d, self.layout, id, event)
    }

    /// Where the mouse is.
    pub fn cursor_pos(&self) -> (r: Pos2)
        ensures
            r == self.input@.pos,
    {
        self.input.mouse_pos()
    }

    /// Is the current view focused?
    pub fn is_focused(&self) -> (r: bool)
        ensures
            r == (self.input@.focus.current == Some(self.current)),
    {
        self.input.is_focused(self.current)
    }

    /// Is the current view hovered?
    pub fn is_hovered(&self) -> (r: bool)
        ensures
            r == self.input@.hit.contains(self.current),
    {
        self.input.is_hovered(self.current)
    }

    /// Is the parent of the view being built focused?
    pub fn is_parent_focused(&self) -> (r: bool)
        ensures
            r == (self.input@.focus.current == Some(
                if self.nodes.stack().len() >= 2 {
                    self.nodes.stack()[self.nodes.stack().len() - 2]
                } else {
                    self.nodes.spec_root()
                },
            )),
    {
        self.input.is_focused(self.nodes.parent())
    }

    /// Is the parent of the view being built hovered?
    pub fn is_parent_hovered(&self) -> (r: bool)
        ensures
            r == self.input@.hit.contains(
                if self.nodes.stack().len() >= 2 {
                    self.nodes.stack()[self.nodes.stack().len() - 2]
                } else {
                    self.nodes.spec_root()
                },
            ),
    {
        self.input.is_hovered(self.nodes.parent())
    }

    /// The rectangle of the current view, which must have been laid out
    /// with a non-empty rectangle.
    pub fn rect(&self) -> (r: Rect)
        requires
            self.layout.nodes().contains_key(self.current.0),
            !self.layout.nodes()[self.current.0].rect.spec_is_empty(),
        ensures
            r == self.layout.nodes()[self.current.0].rect,
    {
        self.layout.rect(self.current).unwrap()
    }
}

impl<'a> EventCtx<'a> {
    /// Hand `event` to the children of the current view, in order, until one
    /// of them sinks it; the answer is that of the child that sank it, or
    /// `Bubble` when none did.
    pub fn default_event<T: ViewTree>(&self, d: &mut Dispatcher<T>, event: ViewEvent) -> (r: Handled)
        requires
            valid_key(self.current.0),
            self.nodes.nodes().contains_key(self.current.0),
        ensures
            grew(old(d).log(), final(d).log()),
            offered(new_part(old(d).log(), final(d).log()), kids(self.nodes.nodes(), self.current.0), event),
            r == (if sunk_by(new_part(old(d).log(), final(d).log())) {
                Handled::Sink
            } else {
                Handled::Bubble
            }),
    {
        let ghost l0 = d.log();
        let node = self.nodes.get(self.current).unwrap();
        let ghost ids = node.children@;
        let ghost mut a: Seq<Delivery> = Seq::empty();
        assert(l0 + a =~= l0);
        let mut i: usize = 0;
        while i < node.children.len()
            invariant
                ids == node.children@,
                ids == kids(self.nodes.nodes(), self.current.0),
                l0 == old(d).log(),
                i <= ids.len(),
                d.log() == l0 + a,
                a.len() == i,
                sent(a, ids.take(i as int), event),
                forall|k: int| 0 <= k < a.len() ==> answer(#[trigger] a[k]) == Handled::Bubble,
            decreases ids.len() - i,
        {
            let child = node.children[i];
            let ghost before = d.log();
            let h = self.send_event(d, child, event);
            proof {
                let dl = d.log().last();
                a = a.push(dl);
                assert(d.log() =~= l0 + a);
                assert(ids.take(i + 1) =~= ids.take(i as int).push(child));
                assert forall|k: int| 0 <= k < a.len() implies (#[trigger] a[k]).id == ids.take(i + 1)[k] && a[k].event
                    == event by {
                    if k < i {
                        assert(a[k] == a.drop_last()[k]);
                    }
                }
            }
            if h.is_sink() {
                proof {
                    assert(d.log().take(l0.len() as int) =~= l0);
                    assert(new_part(l0, d.log()) =~= a);
                    assert(a.take(a.len() as int) =~= a);
                    assert(answer(a.last()) == Handled::Sink);
                    assert(sent(a, ids.take(a.len() as int), event));
                }
                return Handled::Sink;
            }
            i = i + 1;
        }
        proof {
            assert(d.log().take(l0.len() as int) =~= l0);
            assert(new_part(l0, d.log()) =~= a);
            assert(ids.take(i as int) =~= ids);
        }
        Handled::Bubble
    }
}

} // verus!
