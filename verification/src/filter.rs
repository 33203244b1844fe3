//! Searching the view tree: which views below a start a search looks at,
//! and the searches by region, by property, by kind and by layout.
use vstd::prelude::*;
use crate::geom::Rect;
use crate::input::ViewId;
use crate::input_state::InputState;
use crate::layout::{properties_of, LayoutNode, LayoutNodes, Properties};
use crate::view_nodes::{depth_wf, kids, kids_of_all, tree_wf, valid_key, ViewNode, ViewNodes};

verus! {

/// How deep below its start a search of the view tree goes.
#[derive(Copy, Clone, Debug, PartialEq, Eq, Structural)]
pub enum Depth {
    /// Only the start and its immediate children.
    Immediate,
    /// Only views less than this many levels below the start.
    Specific(usize),
    /// Every view below the start.
    All,
}

impl Default for Depth {
    fn default() -> (d: Depth)
        ensures
            d == Depth::All,
    {
        Depth::All
    }
}

impl Depth {
    pub open spec fn spec_admits(self, current: int) -> bool {
        match self {
            Depth::Immediate => current == 0,
            Depth::Specific(s) => current < s,
            Depth::All => true,
        }
    }

    /// Does the search look at a view `current` levels below where it
    /// counts from? (Children of the start count as level 0.)
    pub fn admits(self, current: usize) -> (r: bool)
        ensures
            r == self.spec_admits(current as int),
    {
        match self {
            Depth::Immediate => current == 0,
            Depth::Specific(s) => s > current,
            Depth::All => true,
        }
    }
}

/// A deeper limit admits everything a shallower one does.
pub proof fn lemma_deeper_admits_more(a: usize, b: usize, current: usize)
    requires
        a <= b,
    ensures
        Depth::Specific(a).spec_admits(current as int) ==> Depth::Specific(b).spec_admits(current as int),
        Depth::Specific(a).spec_admits(current as int) ==> Depth::All.spec_admits(current as int),
{
}

/// The parent of `id`, or `start` for a view without one.
pub open spec fn parent_or(nodes: Map<u64, ViewNode>, id: ViewId, start: ViewId) -> ViewId {
    match nodes[id.0].parent {
        Some(p) => p,
        None => start,
    }
}

/// The parent of the view a walk from `start` visited last.
pub open spec fn last_parent(nodes: Map<u64, ViewNode>, start: ViewId, s: Seq<ViewId>) -> ViewId {
    if s.len() == 0 {
        start
    } else {
        parent_or(nodes, s.last(), start)
    }
}

/// The depth a walk from `start` counts after visiting `s`: one more each
/// time the parent of the visited view differs from that of the previous one.
pub open spec fn hops(nodes: Map<u64, ViewNode>, start: ViewId, s: Seq<ViewId>) -> nat
    decreases s.len(),
{
    if s.len() == 0 {
        0
    } else {
        hops(nodes, start, s.drop_last()) + if parent_or(nodes, s.last(), start) != last_parent(
            nodes,
            start,
            s.drop_last(),
        ) {
            1nat
        } else {
            0nat
        }
    }
}

/// The queue of a breadth-first walk below `start` after visiting `s`: the
/// children of `start`, then the children of each visited view.
pub open spec fn walk_queue(nodes: Map<u64, ViewNode>, start: ViewId, s: Seq<ViewId>) -> Seq<ViewId> {
    kids(nodes, start.0) + kids_of_all(nodes, s)
}

/// The `j`th view of `p` is the one the walk reaches after the views before it.
pub open spec fn walk_step(nodes: Map<u64, ViewNode>, start: ViewId, p: Seq<ViewId>, j: int) -> bool {
    j < walk_queue(nodes, start, p.take(j)).len() && p[j] == walk_queue(nodes, start, p.take(j))[j]
}

/// The `j`th view of `p` is where the walk goes next, and `depth` admits
/// the depth counted there.
pub open spec fn step_ok(nodes: Map<u64, ViewNode>, start: ViewId, depth: Depth, p: Seq<ViewId>, j: int) -> bool {
    walk_step(nodes, start, p, j) && depth.spec_admits(hops(nodes, start, p.take(j + 1)) as int)
}

/// `p` lists the views below `start` in breadth-first order, as far as
/// `depth` admits them: the walk stops when its queue runs out or at the
/// first view whose counted depth `depth` does not admit.
pub open spec fn walked(nodes: Map<u64, ViewNode>, start: ViewId, depth: Depth, p: Seq<ViewId>) -> bool {
    &&& forall|j: int|
        0 <= j < p.len() ==> #[trigger] step_ok(nodes, start, depth, p, j)
    &&& p.len() == walk_queue(nodes, start, p).len() || !depth.spec_admits(
        hops(nodes, start, p.push(walk_queue(nodes, start, p)[p.len() as int])) as int,
    )
}

/// `out` lists the views a search from `start` looks at: nothing when
/// `start` is not in the tree or `depth` does not admit it, otherwise
/// `start` and then the views `walked` lists.
pub open spec fn visit_order_ok(nodes: Map<u64, ViewNode>, start: ViewId, depth: Depth, out: Seq<ViewId>) -> bool {
    if !nodes.contains_key(start.0) || !depth.spec_admits(0) {
        out.len() == 0
    } else {
        out.len() >= 1 && out[0] == start && walked(nodes, start, depth, out.skip(1))
    }
}

/// The views a search from `start` looks at, in order.
pub open spec fn seen(nodes: Map<u64, ViewNode>, start: ViewId, depth: Depth) -> Seq<ViewId> {
    choose|out: Seq<ViewId>| #[trigger] visit_order_ok(nodes, start, depth, out)
}

/// Two walks agree on their first `j` views.
proof fn lemma_walks_agree(nodes: Map<u64, ViewNode>, start: ViewId, depth: Depth, a: Seq<ViewId>, b: Seq<ViewId>, j: int)
    requires
        walked(nodes, start, depth, a),
        walked(nodes, start, depth, b),
        0 <= j <= a.len(),
        j <= b.len(),
    ensures
        a.take(j) == b.take(j),
    decreases j,
{
    if j > 0 {
        lemma_walks_agree(nodes, start, depth, a, b, j - 1);
        assert(a.take(j - 1) == b.take(j - 1));
        assert(a.take(j) == a.take(j - 1 + 1));
        assert(b.take(j) == b.take(j - 1 + 1));
        assert(step_ok(nodes, start, depth, a, j - 1));
        assert(step_ok(nodes, start, depth, b, j - 1));
        assert(a.take(j) =~= a.take(j - 1).push(a[j - 1]));
        assert(b.take(j) =~= b.take(j - 1).push(b[j - 1]));
    }
}

/// Only one walk fits `walked`.
proof fn lemma_walk_unique(nodes: Map<u64, ViewNode>, start: ViewId, depth: Depth, a: Seq<ViewId>, b: Seq<ViewId>)
    requires
        walked(nodes, start, depth, a),
        walked(nodes, start, depth, b),
    ensures
        a == b,
{
    if a.len() < b.len() {
        lemma_walks_agree(nodes, start, depth, a, b, a.len() as int);
        let m = a.len() as int;
        assert(a.take(m) =~= a);
        assert(b.take(m + 1) == b.take(m + 1));
        assert(step_ok(nodes, start, depth, b, m));
        assert(b.take(m + 1) =~= a.push(b[m]));
    } else if b.len() < a.len() {
        lemma_walks_agree(nodes, start, depth, b, a, b.len() as int);
        let m = b.len() as int;
        assert(b.take(m) =~= b);
        assert(a.take(m + 1) == a.take(m + 1));
        assert(step_ok(nodes, start, depth, a, m));
        assert(a.take(m + 1) =~= b.push(a[m]));
    } else {
        lemma_walks_agree(nodes, start, depth, a, b, a.len() as int);
        assert(a.take(a.len() as int) =~= a);
        assert(b.take(b.len() as int) =~= b);
    }
}

/// What fits `visit_order_ok` is `seen`.
pub proof fn lemma_seen_is_the_walk(nodes: Map<u64, ViewNode>, start: ViewId, depth: Depth, out: Seq<ViewId>)
    requires
        visit_order_ok(nodes, start, depth, out),
    ensures
        seen(nodes, start, depth) == out,
{
    let s = seen(nodes, start, depth);
    assert(visit_order_ok(nodes, start, depth, s));
    if nodes.contains_key(start.0) && depth.spec_admits(0) {
        lemma_walk_unique(nodes, start, depth, s.skip(1), out.skip(1));
        assert(s =~= seq![start] + s.skip(1));
        assert(out =~= seq![start] + out.skip(1));
    } else {
        assert(s =~= out);
    }
}

/// The entries of `s` whose flag in `keep` is set, in order.
pub open spec fn picked(s: Seq<ViewId>, keep: Seq<bool>) -> Seq<ViewId>
    decreases s.len(),
{
    if s.len() == 0 {
        Seq::empty()
    } else {
        let rest = picked(s.drop_last(), keep.take(s.len() - 1));
        if keep[s.len() - 1] {
            rest.push(s.last())
        } else {
            rest
        }
    }
}

/// Distinct views of a tree are at most as many as its nodes.
pub proof fn lemma_distinct_ids_bounded(s: Seq<ViewId>, dom: Set<u64>)
    requires
        dom.finite(),
        s.no_duplicates(),
        forall|j: int| 0 <= j < s.len() ==> dom.contains((#[trigger] s[j]).0),
    ensures
        s.len() <= dom.len(),
    decreases s.len(),
{
    if s.len() > 0 {
        let x = s.last();
        let d = s.drop_last();
        assert forall|j: int| 0 <= j < d.len() implies dom.remove(x.0).contains((#[trigger] d[j]).0) by {
            assert(d[j] == s[j]);
            assert(s[j] != s[s.len() - 1]);
        }
        assert(d.no_duplicates()) by {
            assert forall|a: int, b: int| 0 <= a < b < d.len() implies d[a] != d[b] by {
                assert(d[a] == s[a] && d[b] == s[b]);
            }
        }
        assert(dom.contains(s[s.len() - 1].0));
        lemma_distinct_ids_bounded(d, dom.remove(x.0));
    }
}

/// A walk that visits one more view keeps visiting the views it visited.
proof fn lemma_walk_extends(
    n: Map<u64, ViewNode>,
    start: ViewId,
    depth: Depth,
    qb: Seq<ViewId>,
    qa: Seq<ViewId>,
    h: int,
)
    requires
        0 <= h < qb.len(),
        qb.len() <= qa.len(),
        qa.take(qb.len() as int) == qb,
        qb == walk_queue(n, start, qb.take(h)),
        forall|j: int|
            0 <= j < h ==> #[trigger] step_ok(n, start, depth, qb, j),
        depth.spec_admits(hops(n, start, qb.take(h + 1)) as int),
    ensures
        forall|j: int|
            0 <= j < h + 1 ==> #[trigger] step_ok(n, start, depth, qa, j),
{
    assert forall|j: int| 0 <= j < h + 1 implies #[trigger] step_ok(n, start, depth, qa, j) by {
        assert(qa.take(j) =~= qb.take(j));
        assert(qa.take(j + 1) =~= qb.take(j + 1));
        assert(qa[j] == qa.take(qb.len() as int)[j]);
        if j < h {
            assert(step_ok(n, start, depth, qb, j));
            assert(walk_step(n, start, qa, j));
        } else {
            assert(j == h);
            assert(walk_queue(n, start, qa.take(j)) == qb);
            assert(qa[j] == qb[j]);
            assert(walk_step(n, start, qa, j));
            assert(depth.spec_admits(hops(n, start, qa.take(j + 1)) as int));
        }
    }
}

fn append_ids(queue: &mut Vec<ViewId>, more: &Vec<ViewId>)
    ensures
        final(queue)@ == old(queue)@ + more@,
{
    let mut i: usize = 0;
    while i < more.len()
        invariant
            i <= more@.len(),
            queue@ == old(queue)@ + more@.take(i as int),
        decreases more@.len() - i,
    {
        queue.push(more[i]);
        i += 1;
        assert(more@.take(i as int) =~= more@.take(i - 1).push(more@[i - 1]));
    }
    assert(more@.take(i as int) =~= more@);
}

/// Appending the children of the walk's next view keeps the queue free of
/// duplicates, and every queued view below `start` with a known parent.
proof fn lemma_kids_fresh(
    n: Map<u64, ViewNode>,
    root: ViewId,
    dep: Map<u64, nat>,
    start: ViewId,
    qb: Seq<ViewId>,
    par0: Seq<int>,
    h: int,
    id: ViewId,
)
    requires
        tree_wf(n, root),
        depth_wf(n, dep),
        n.contains_key(start.0),
        0 <= h < qb.len(),
        qb[h] == id,
        qb.no_duplicates(),
        par0.len() == qb.len(),
        forall|j: int|
            0 <= j < qb.len() ==> n.contains_key((#[trigger] qb[j]).0) && dep[qb[j].0] > dep[start.0] && -1
                <= par0[j] < h && (par0[j] == -1 ==> n[qb[j].0].parent == Some(start)) && (par0[j] >= 0
                ==> n[qb[j].0].parent == Some(qb[par0[j]])),
    ensures
        ({
            let qa = qb + kids(n, id.0);
            let par = par0 + Seq::new(kids(n, id.0).len(), |t: int| h);
            &&& qa.no_duplicates()
            &&& forall|j: int|
                0 <= j < qa.len() ==> n.contains_key((#[trigger] qa[j]).0) && dep[qa[j].0] > dep[start.0] && -1
                    <= par[j] < h + 1 && (par[j] == -1 ==> n[qa[j].0].parent == Some(start)) && (par[j] >= 0
                    ==> n[qa[j].0].parent == Some(qa[par[j]]))
        }),
{
    let ks = kids(n, id.0);
    let qa = qb + ks;
    let par = par0 + Seq::new(ks.len(), |t: int| h);
    assert(n.contains_key(id.0));
    assert forall|a: int, b: int| 0 <= a < b < qa.len() implies qa[a] != qa[b] by {
        if b >= qb.len() {
            let tb = b - qb.len();
            assert(qa[b] == ks[tb]);
            assert(n[ks[tb].0].parent == Some(id));
            if a >= qb.len() {
                let ta = a - qb.len();
                assert(qa[a] == ks[ta]);
            } else {
                assert(qa[a] == qb[a]);
                if qa[a] == qa[b] {
                    if par0[a] == -1 {
                        assert(id == start);
                    } else {
                        assert(qb[par0[a]] == qb[h]);
                    }
                }
            }
        } else {
            assert(qa[a] == qb[a] && qa[b] == qb[b]);
        }
    }
    assert forall|j: int| 0 <= j < qa.len() implies n.contains_key((#[trigger] qa[j]).0) && dep[qa[j].0]
        > dep[start.0] && -1 <= par[j] < h + 1 && (par[j] == -1 ==> n[qa[j].0].parent == Some(start)) && (
    par[j] >= 0 ==> n[qa[j].0].parent == Some(qa[par[j]])) by {
        if j < qb.len() {
            assert(qa[j] == qb[j]);
            assert(par[j] == par0[j]);
            if par0[j] >= 0 {
                assert(qa[par0[j]] == qb[par0[j]]);
            }
        } else {
            let t = j - qb.len();
            assert(qa[j] == ks[t]);
            assert(par[j] == h);
            assert(qa[h] == id);
            assert(dep[ks[t].0] > dep[id.0]);
        }
    }
}

/// A search over the view, layout and input trees.
pub struct Filter<'a> {
    nodes: &'a ViewNodes,
    layout: &'a LayoutNodes,
    input: &'a InputState,
}

impl<'a> Filter<'a> {
    pub closed spec fn view_nodes(&self) -> ViewNodes {
        *self.nodes
    }

    pub closed spec fn layout_nodes(&self) -> LayoutNodes {
        *self.layout
    }

    pub closed spec fn input_state(&self) -> InputState {
        *self.input
    }

    pub fn new(nodes: &'a ViewNodes, layout: &'a LayoutNodes, input: &'a InputState) -> (r: Filter<'a>)
        ensures
            r.view_nodes() == *nodes,
            r.layout_nodes() == *layout,
            r.input_state() == *input,
    {
        Filter { nodes, layout, input }
    }

    /// The views a search from `start` looks at: `start`, then the views
    /// below it breadth first, up to the first one `depth` rules out.
    #[verifier::rlimit(40)]
    fn visit_order(&self, start: ViewId, depth: Depth) -> (r: Vec<ViewId>)
        requires
            self.view_nodes().wf(),
            valid_key(start.0),
        ensures
            r@ == seen(self.view_nodes().nodes(), start, depth),
            forall|j: int| 0 <= j < r@.len() ==> self.view_nodes().nodes().contains_key((#[trigger] r@[j]).0),
    {
        let ghost n = self.view_nodes().nodes();
        let ghost dep = self.view_nodes().depths();
        let mut out: Vec<ViewId> = Vec::new();
        let node = match self.nodes.get(start) {
            Some(node) => node,
            None => {
                proof {
                    lemma_seen_is_the_walk(n, start, depth, out@);
                }
                return out;
            },
        };
        if !depth.admits(0) {
            proof {
                lemma_seen_is_the_walk(n, start, depth, out@);
            }
            return out;
        }
        out.push(start);
        let mut queue: Vec<ViewId> = Vec::new();
        let mut i: usize = 0;
        while i < node.children.len()
            invariant
                *node == n[start.0],
                i <= node.children@.len(),
                queue@ == node.children@.take(i as int),
            decreases node.children@.len() - i,
        {
            queue.push(node.children[i]);
            i += 1;
            assert(queue@ =~= node.children@.take(i as int));
        }
        assert(node.children@.take(i as int) =~= node.children@);
        let ghost mut par: Seq<int> = Seq::new(queue@.len(), |j: int| -1);
        proof {
            assert(queue@.take(0) =~= Seq::<ViewId>::empty());
            assert(walk_queue(n, start, queue@.take(0)) =~= queue@);
            assert(out@ =~= seq![start] + queue@.take(0));
            assert forall|j: int| 0 <= j < queue@.len() implies n.contains_key((#[trigger] queue@[j]).0)
                && dep[queue@[j].0] > dep[start.0] && n[queue@[j].0].parent == Some(start) by {
                assert(kids(n, start.0)[j] == queue@[j]);
            }
        }
        let mut head: usize = 0;
        let mut parent_now = start;
        let mut d: usize = 0;
        while head < queue.len()
            invariant_except_break
                head <= queue@.len(),
            invariant
                self.view_nodes().wf(),
                n == self.view_nodes().nodes(),
                dep == self.view_nodes().depths(),
                tree_wf(n, self.view_nodes().spec_root()),
                depth_wf(n, dep),
                n.contains_key(start.0),
                depth.spec_admits(0),
                queue@ == walk_queue(n, start, queue@.take(head as int)),
                out@ == seq![start] + queue@.take(head as int),
                d == hops(n, start, queue@.take(head as int)),
                d <= head,
                parent_now == last_parent(n, start, queue@.take(head as int)),
                forall|j: int|
                    0 <= j < head ==> #[trigger] step_ok(n, start, depth, queue@, j),
                queue@.no_duplicates(),
                par.len() == queue@.len(),
                forall|j: int|
                    0 <= j < queue@.len() ==> n.contains_key((#[trigger] queue@[j]).0) && dep[queue@[j].0]
                        > dep[start.0] && -1 <= par[j] < head && (par[j] == -1 ==> n[queue@[j].0].parent
                        == Some(start)) && (par[j] >= 0 ==> n[queue@[j].0].parent == Some(queue@[par[j]])),
            ensures
                head <= queue@.len(),
                head == queue@.len() || !depth.spec_admits(
                    hops(n, start, queue@.take(head as int).push(queue@[head as int])) as int,
                ),
            decreases n.len() - head,
        {
            proof {
                lemma_distinct_ids_bounded(queue@, n.dom());
            }
            let id = queue[head];
            let ghost h = head as int;
            let ghost qb = queue@;
            let ghost p = qb.take(h);
            assert(n.contains_key(id.0));
            let node = self.nodes.get(id).unwrap();
            let parent = match node.parent {
                Some(pp) => pp,
                None => start,
            };
            proof {
                assert(qb.take(h + 1) =~= p.push(id));
                assert(p.push(id).drop_last() =~= p);
            }
            let (np, nd) = if parent != parent_now {
                (parent, d + 1)
            } else {
                (parent_now, d)
            };
            assert(nd == hops(n, start, qb.take(h + 1)));
            if !depth.admits(nd) {
                break;
            }
            parent_now = np;
            d = nd;
            out.push(id);
            head = head + 1;
            append_ids(&mut queue, &node.children);
            proof {
                let par0 = par;
                par = par0 + Seq::new(kids(n, id.0).len(), |t: int| h);
                lemma_kids_fresh(n, self.view_nodes().spec_root(), dep, start, qb, par0, h, id);
                let qa = queue@;
                assert(qa =~= qb + kids(n, id.0));
                assert(qa.take(qb.len() as int) =~= qb);
                assert(qa.take(h + 1) =~= qb.take(h + 1));
                assert(kids_of_all(n, qa.take(h + 1)) =~= kids_of_all(n, p) + kids(n, id.0)) by {
                    assert(qa.take(h + 1).drop_last() =~= p);
                }
                assert(qa =~= walk_queue(n, start, qa.take(h + 1)));
                assert(out@ =~= seq![start] + qa.take(h + 1));
                lemma_walk_extends(n, start, depth, qb, qa, h);
            }
        }
        proof {
            let p = queue@.take(head as int);
            assert(out@.skip(1) =~= p);
            assert(p.take(p.len() as int) =~= p);
            assert forall|j: int| 0 <= j < p.len() implies #[trigger] step_ok(n, start, depth, p, j) by {
                assert(p.take(j) =~= queue@.take(j));
                assert(p.take(j + 1) =~= queue@.take(j + 1));
                assert(step_ok(n, start, depth, queue@, j));
            }
            if head < queue@.len() {
                assert(walk_queue(n, start, p) == queue@);
            } else {
                assert(queue@.take(head as int) =~= queue@);
            }
            assert(walked(n, start, depth, p));
            lemma_seen_is_the_walk(n, start, depth, out@);
            assert forall|j: int| 0 <= j < out@.len() implies n.contains_key((#[trigger] out@[j]).0) by {
                if j > 0 {
                    assert(out@[j] == queue@[j - 1]);
                }
            }
        }
        out
    }
}

/// For each view of `s`: it was laid out, within `region`.
pub open spec fn in_region(layout: Map<u64, LayoutNode>, region: Rect, s: Seq<ViewId>) -> Seq<bool> {
    Seq::new(s.len(), |j: int| layout.contains_key(s[j].0) && region.spec_contains_rect(layout[s[j].0].rect))
}

/// For each view of `s`: it is of kind `kind`.
pub open spec fn of_kind(nodes: Map<u64, ViewNode>, kind: u64, s: Seq<ViewId>) -> Seq<bool> {
    Seq::new(s.len(), |j: int| nodes[s[j].0].kind == kind)
}

/// The first entry of `s`, if any.
pub open spec fn first_of(s: Seq<ViewId>) -> Option<ViewId> {
    if s.len() > 0 {
        Some(s[0])
    } else {
        None
    }
}

/// The candidates for which `keep` answered true, in order.
fn pick<F: Fn(ViewId) -> bool>(cands: &Vec<ViewId>, keep: F) -> (r: Vec<ViewId>)
    requires
        forall|j: int| 0 <= j < cands@.len() ==> keep.requires((#[trigger] cands@[j],)),
    ensures
        exists|flags: Seq<bool>|
            flags.len() == cands@.len() && (forall|j: int|
                0 <= j < cands@.len() ==> keep.ensures((cands@[j],), #[trigger] flags[j])) && r@ == picked(
                cands@,
                flags,
            ),
{
    let mut out: Vec<ViewId> = Vec::new();
    let ghost mut flags: Seq<bool> = Seq::empty();
    let mut i: usize = 0;
    assert(cands@.take(0) =~= Seq::<ViewId>::empty());
    while i < cands.len()
        invariant
            i <= cands@.len(),
            flags.len() == i,
            forall|j: int| 0 <= j < cands@.len() ==> keep.requires((#[trigger] cands@[j],)),
            forall|j: int| 0 <= j < i ==> keep.ensures((cands@[j],), #[trigger] flags[j]),
            out@ == picked(cands@.take(i as int), flags),
        decreases cands@.len() - i,
    {
        let id = cands[i];
        let b = keep(id);
        let ghost before = flags;
        proof {
            flags = flags.push(b);
            let s = cands@.take(i + 1);
            assert(s.drop_last() =~= cands@.take(i as int));
            assert(flags.take(s.len() - 1) =~= before);
        }
        if b {
            out.push(id);
        }
        i += 1;
    }
    assert(cands@.take(i as int) =~= cands@);
    out
}

impl<'a> Filter<'a> {
    /// The views from `start` to `depth` whose rectangle lies within `region`.
    pub fn by_region(&self, start: ViewId, depth: Depth, region: Rect) -> (r: Vec<ViewId>)
        requires
            self.view_nodes().wf(),
            valid_key(start.0),
        ensures
            ({
                let s = seen(self.view_nodes().nodes(), start, depth);
                r@ == picked(s, in_region(self.layout_nodes().nodes(), region, s))
            }),
    {
        let cands = self.visit_order(start, depth);
        let layout = self.layout;
        let keep = |id: ViewId| -> (b: bool)
            ensures
                b == (layout.nodes().contains_key(id.0) && region.spec_contains_rect(
                    layout.nodes()[id.0].rect,
                )),
            {
                match layout.get(id) {
                    Some(l) => region.contains_rect(l.rect),
                    None => false,
                }
            };
        let r = pick(&cands, keep);
        proof {
            let flags = choose|flags: Seq<bool>|
                flags.len() == cands@.len() && (forall|j: int|
                    0 <= j < cands@.len() ==> keep.ensures((cands@[j],), #[trigger] flags[j])) && r@
                    == picked(cands@, flags);
            assert(flags =~= in_region(layout.nodes(), region, cands@)) by {
                assert forall|j: int| 0 <= j < cands@.len() implies flags[j] == in_region(
                    layout.nodes(),
                    region,
                    cands@,
                )[j] by {
                    assert(keep.ensures((cands@[j],), flags[j]));
                }
            }
        }
        r
    }

    /// The views from `start` to `depth` of kind `kind`.
    pub fn by_type(&self, start: ViewId, depth: Depth, kind: u64) -> (r: Vec<ViewId>)
        requires
            self.view_nodes().wf(),
            valid_key(start.0),
        ensures
            ({
                let s = seen(self.view_nodes().nodes(), start, depth);
                r@ == picked(s, of_kind(self.view_nodes().nodes(), kind, s))
            }),
    {
        let cands = self.visit_order(start, depth);
        let ghost n = self.view_nodes().nodes();
        let nodes = self.nodes;
        let keep = |id: ViewId| -> (b: bool)
            requires
                nodes.nodes().contains_key(id.0),
                nodes.wf(),
            ensures
                b == (nodes.nodes()[id.0].kind == kind),
            {
                nodes.get(id).unwrap().kind == kind
            };
        let r = pick(&cands, keep);
        proof {
            let flags = choose|flags: Seq<bool>|
                flags.len() == cands@.len() && (forall|j: int|
                    0 <= j < cands@.len() ==> keep.ensures((cands@[j],), #[trigger] flags[j])) && r@
                    == picked(cands@, flags);
            assert(flags =~= of_kind(n, kind, cands@)) by {
                assert forall|j: int| 0 <= j < cands@.len() implies flags[j] == of_kind(n, kind, cands@)[j] by {
                    assert(keep.ensures((cands@[j],), flags[j]));
                }
            }
        }
        r
    }
}

impl<'a> Filter<'a> {
    /// The first view from `start` to `depth` of kind `kind`.
    pub fn find_type(&self, start: ViewId, depth: Depth, kind: u64) -> (r: Option<ViewId>)
        requires
            self.view_nodes().wf(),
            valid_key(start.0),
        ensures
            ({
                let s = seen(self.view_nodes().nodes(), start, depth);
                r == first_of(picked(s, of_kind(self.view_nodes().nodes(), kind, s)))
            }),
    {
        let all = self.by_type(start, depth, kind);
        if all.len() > 0 {
            Some(all[0])
        } else {
            None
        }
    }

    /// The views from `start` to `depth` that were laid out and for which
    /// `filter`, given the view and its layout node, answers true.
    pub fn filter_layout<F: Fn(ViewId, &LayoutNode) -> bool>(&self, start: ViewId, depth: Depth, filter: F) -> (r:
        Vec<ViewId>)
        requires
            self.view_nodes().wf(),
            valid_key(start.0),
            forall|id: ViewId, l: LayoutNode| filter.requires((id, &l)),
        ensures
            ({
                let s = seen(self.view_nodes().nodes(), start, depth);
                let layout = self.layout_nodes().nodes();
                exists|flags: Seq<bool>|
                    flags.len() == s.len() && (forall|j: int|
                        0 <= j < s.len() ==> if layout.contains_key(s[j].0) {
                            filter.ensures((s[j], &layout[s[j].0]), #[trigger] flags[j])
                        } else {
                            !flags[j]
                        }) && r@ == picked(s, flags)
            }),
    {
        let cands = self.visit_order(start, depth);
        let layout = self.layout;
        let f = &filter;
        let keep = |id: ViewId| -> (b: bool)
            requires
                forall|id: ViewId, l: LayoutNode| f.requires((id, &l)),
            ensures
                if layout.nodes().contains_key(id.0) {
                    f.ensures((id, &layout.nodes()[id.0]), b)
                } else {
                    !b
                },
            {
                match layout.get(id) {
                    Some(l) => f(id, l),
                    None => false,
                }
            };
        let r = pick(&cands, keep);
        proof {
            let flags = choose|flags: Seq<bool>|
                flags.len() == cands@.len() && (forall|j: int|
                    0 <= j < cands@.len() ==> keep.ensures((cands@[j],), #[trigger] flags[j])) && r@
                    == picked(cands@, flags);
            assert forall|j: int| 0 <= j < cands@.len() implies if layout.nodes().contains_key(cands@[j].0) {
                filter.ensures((cands@[j], &layout.nodes()[cands@[j].0]), #[trigger] flags[j])
            } else {
                !flags[j]
            } by {
                assert(keep.ensures((cands@[j],), flags[j]));
            }
        }
        r
    }

    /// The views from `start` to `depth` that were laid out and for whose
    /// properties `filter` answers true.
    pub fn by_property<F: Fn(Properties) -> bool>(&self, start: ViewId, depth: Depth, filter: F) -> (r: Vec<
        ViewId,
    >)
        requires
            self.view_nodes().wf(),
            valid_key(start.0),
            forall|p: Properties| filter.requires((p,)),
        ensures
            ({
                let s = seen(self.view_nodes().nodes(), start, depth);
                let layout = self.layout_nodes().nodes();
                exists|flags: Seq<bool>|
                    flags.len() == s.len() && (forall|j: int|
                        0 <= j < s.len() ==> if layout.contains_key(s[j].0) {
                            filter.ensures(
                                (properties_of(layout[s[j].0], self.input_state()),),
                                #[trigger] flags[j],
                            )
                        } else {
                            !flags[j]
                        }) && r@ == picked(s, flags)
            }),
    {
        let cands = self.visit_order(start, depth);
        let layout = self.layout;
        let input = self.input;
        let f = &filter;
        let keep = |id: ViewId| -> (b: bool)
            requires
                forall|p: Properties| f.requires((p,)),
            ensures
                if layout.nodes().contains_key(id.0) {
                    f.ensures((properties_of(layout.nodes()[id.0], *input),), b)
                } else {
                    !b
                },
            {
                match layout.get(id) {
                    Some(l) => f(l.properties(input)),
                    None => false,
                }
            };
        let r = pick(&cands, keep);
        proof {
            let flags = choose|flags: Seq<bool>|
                flags.len() == cands@.len() && (forall|j: int|
                    0 <= j < cands@.len() ==> keep.ensures((cands@[j],), #[trigger] flags[j])) && r@
                    == picked(cands@, flags);
            assert forall|j: int| 0 <= j < cands@.len() implies if layout.nodes().contains_key(cands@[j].0) {
                filter.ensures((properties_of(layout.nodes()[cands@[j].0], *input),), #[trigger] flags[j])
            } else {
                !flags[j]
            } by {
                assert(keep.ensures((cands@[j],), flags[j]));
            }
        }
        r
    }
}

/// `path` leads from `start` down the tree, child after child.
pub open spec fn path_below(nodes: Map<u64, ViewNode>, start: ViewId, path: Seq<ViewId>) -> bool {
    &&& path.len() >= 1
    &&& path[0] == start
    &&& forall|i: int| 1 <= i < path.len() ==> kids(nodes, path[i - 1].0).contains(#[trigger] path[i])
}

proof fn lemma_kids_of_all_split(nodes: Map<u64, ViewNode>, p: Seq<ViewId>, j: int)
    requires
        0 <= j <= p.len(),
    ensures
        kids_of_all(nodes, p) == kids_of_all(nodes, p.take(j)) + kids_of_all(nodes, p.skip(j)),
    decreases p.len(),
{
    if j == p.len() {
        assert(p.take(j) =~= p);
        assert(p.skip(j) =~= Seq::<ViewId>::empty());
        assert(kids_of_all(nodes, p) + Seq::<ViewId>::empty() =~= kids_of_all(nodes, p));
    } else {
        let d = p.drop_last();
        lemma_kids_of_all_split(nodes, d, j);
        assert(d.take(j) =~= p.take(j));
        assert(p.skip(j).drop_last() =~= d.skip(j));
        assert(p.skip(j).last() == p.last());
        assert(kids_of_all(nodes, p) =~= kids_of_all(nodes, p.take(j)) + kids_of_all(nodes, p.skip(j)));
    }
}

proof fn lemma_kids_in_all(nodes: Map<u64, ViewNode>, p: Seq<ViewId>, m: int, t: int)
    requires
        0 <= m < p.len(),
        0 <= t < kids(nodes, p[m].0).len(),
    ensures
        kids_of_all(nodes, p).contains(kids(nodes, p[m].0)[t]),
    decreases p.len(),
{
    let d = p.drop_last();
    let k = kids(nodes, p[m].0)[t];
    if m == p.len() - 1 {
        assert(kids_of_all(nodes, p)[kids_of_all(nodes, d).len() + t] == k);
    } else {
        assert(d[m] == p[m]);
        lemma_kids_in_all(nodes, d, m, t);
        let i = choose|i: int| 0 <= i < kids_of_all(nodes, d).len() && #[trigger] kids_of_all(nodes, d)[i] == k;
        assert(kids_of_all(nodes, p)[i] == k);
    }
}

/// A search to every depth looks at every view below its start: with
/// `Depth::All`, each view that a path of children leads to from `start`
/// is among the views looked at.
pub proof fn lemma_all_depths_reach_everything(
    nodes: Map<u64, ViewNode>,
    start: ViewId,
    out: Seq<ViewId>,
    path: Seq<ViewId>,
)
    requires
        nodes.contains_key(start.0),
        visit_order_ok(nodes, start, Depth::All, out),
        path_below(nodes, start, path),
    ensures
        out.contains(path.last()),
{
    let p = out.skip(1);
    let q = walk_queue(nodes, start, p);
    assert(p.len() == q.len());
    // the walk is its own queue
    assert forall|j: int| 0 <= j < p.len() implies p[j] == q[j] by {
        assert(step_ok(nodes, start, Depth::All, p, j));
        lemma_kids_of_all_split(nodes, p, j);
    }
    assert(p =~= q);
    lemma_path_in_walk(nodes, start, p, path, path.len() - 1);
    if path.len() == 1 {
        assert(out[0] == start);
    } else {
        let i = choose|i: int| 0 <= i < p.len() && #[trigger] p[i] == path.last();
        assert(out[i + 1] == p[i]);
    }
}

/// Each view on a path below `start`, after `start`, is in a walk that is
/// its own queue.
proof fn lemma_path_in_walk(nodes: Map<u64, ViewNode>, start: ViewId, p: Seq<ViewId>, path: Seq<ViewId>, i: int)
    requires
        p == walk_queue(nodes, start, p),
        path_below(nodes, start, path),
        0 <= i < path.len(),
    ensures
        i > 0 ==> p.contains(path[i]),
    decreases i,
{
    if i > 0 {
        assert(kids(nodes, path[i - 1].0).contains(path[i]));
        let t = choose|t: int| 0 <= t < kids(nodes, path[i - 1].0).len() && #[trigger] kids(nodes, path[i - 1].0)[t] == path[i];
        if i == 1 {
            assert(p[t] == path[1]);
        } else {
            lemma_path_in_walk(nodes, start, p, path, i - 1);
            let m = choose|m: int| 0 <= m < p.len() && #[trigger] p[m] == path[i - 1];
            lemma_kids_in_all(nodes, p, m, t);
            let at = choose|at: int| 0 <= at < kids_of_all(nodes, p).len() && #[trigger] kids_of_all(nodes, p)[at] == path[i];
            assert(p[kids(nodes, start.0).len() + at] == path[i]);
        }
    }
}

} // verus!
