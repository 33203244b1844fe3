//! The view tree: which views exist, their parents and children, and how a
//! frame's views are matched against the views of the previous frame.
//!
//! A frame visits the children of each view in order. A view of the same
//! kind at the same position is kept; a view of another kind is removed,
//! with its whole subtree, and replaced; the children a frame did not visit
//! are removed at the end of their parent. Every removed id is recorded so
//! that the layout and input trees can forget it.
use vstd::prelude::*;
use slotmap::{DefaultKey, KeyData, SlotMap};
use crate::input::ViewId;
use crate::input_state::{lemma_without_contains, without, without_id};

verus! {

/// A node of the view tree. `kind` tells views of different types apart;
/// `next` is the position of the next child a frame will visit.
pub struct ViewNode {
    pub parent: Option<ViewId>,
    pub children: Vec<ViewId>,
    pub next: usize,
    pub kind: u64,
}

/// The nodes of the tree, in a slot map that hands out their ids.
#[verifier::external_body]
pub struct Slots {
    map: SlotMap<DefaultKey, ViewNode>,
}

/// The nodes a slot map holds, by the number of their id.
pub uninterp spec fn slot_nodes(m: Slots) -> Map<u64, ViewNode>;

/// The number of a slot map key: its version (odd while the slot is
/// occupied) in the high half, its slot index (never all ones) in the low half.
pub open spec fn valid_key(id: u64) -> bool {
    (id / 0x1_0000_0000) % 2 == 1 && id % 0x1_0000_0000 != 0xFFFF_FFFF
}

/// `SlotMap::with_key` (slotmap): an empty map.
#[verifier::external_body]
fn slots_new() -> (fresh: Slots)
    ensures
        slot_nodes(fresh).dom() == Set::<u64>::empty(),
{
    Slots { map: SlotMap::with_key() }
}

/// `SlotMap::insert` (slotmap): stores `v` under a key that no stored value
/// has, and returns that key's number. The map panics when it would hold
/// `u32::MAX` values, which `requires` rules out.
#[verifier::external_body]
fn slots_insert(m: &mut Slots, v: ViewNode) -> (id: u64)
    requires
        slot_nodes(*old(m)).len() < 0xFFFF_FFFE,
    ensures
        !slot_nodes(*old(m)).contains_key(id),
        valid_key(id),
        slot_nodes(*final(m)) == slot_nodes(*old(m)).insert(id, v),
{
    slotmap::Key::data(&m.map.insert(v)).as_ffi()
}

/// `SlotMap::get` (slotmap): the value stored under the key numbered `id`.
/// For a number that no key has, which value comes back is not stated.
#[verifier::external_body]
fn slots_get(m: &Slots, id: u64) -> (r: Option<&ViewNode>)
    ensures
        valid_key(id) ==> r == (if slot_nodes(*m).contains_key(id) {
            Some(&slot_nodes(*m)[id])
        } else {
            None
        }),
{
    m.map.get(DefaultKey::from(KeyData::from_ffi(id)))
}

/// `SlotMap::get_mut` (slotmap): the value stored under the key numbered
/// `id`, to change in place.
#[verifier::external_body]
fn slots_get_mut(m: &mut Slots, id: u64) -> (r: Option<&mut ViewNode>)
    requires
        valid_key(id),
    ensures
        match r {
            Some(x) => slot_nodes(*old(m)).contains_key(id) && *x == slot_nodes(*old(m))[id]
                && slot_nodes(*final(m)) == slot_nodes(*old(m)).insert(id, *final(x)),
            None => !slot_nodes(*old(m)).contains_key(id)
                && slot_nodes(*final(m)) == slot_nodes(*old(m)),
        },
{
    m.map.get_mut(DefaultKey::from(KeyData::from_ffi(id)))
}

/// `SlotMap::remove` (slotmap): takes out the value stored under the key
/// numbered `id`.
#[verifier::external_body]
fn slots_remove(m: &mut Slots, id: u64) -> (r: Option<ViewNode>)
    requires
        valid_key(id),
    ensures
        slot_nodes(*old(m)).contains_key(id) ==> r == Some(slot_nodes(*old(m))[id])
            && slot_nodes(*final(m)) == slot_nodes(*old(m)).remove(id),
        !slot_nodes(*old(m)).contains_key(id) ==> r is None
            && slot_nodes(*final(m)) == slot_nodes(*old(m)),
{
    m.map.remove(DefaultKey::from(KeyData::from_ffi(id)))
}

/// `SlotMap::len` (slotmap): how many values are stored.
#[verifier::external_body]
fn slots_len(m: &Slots) -> (n: usize)
    ensures
        n == slot_nodes(*m).len(),
{
    m.map.len()
}

/// The children of node `k`.
pub open spec fn kids(nodes: Map<u64, ViewNode>, k: u64) -> Seq<ViewId> {
    nodes[k].children@
}

/// The children of the views of `s`, one view after the other.
pub open spec fn kids_of_all(nodes: Map<u64, ViewNode>, s: Seq<ViewId>) -> Seq<ViewId>
    decreases s.len(),
{
    if s.len() == 0 {
        Seq::empty()
    } else {
        kids_of_all(nodes, s.drop_last()) + kids(nodes, s.last().0)
    }
}

/// The children of the views of `a + b` are those of `a`, then those of `b`.
pub proof fn lemma_kids_of_all_concat(nodes: Map<u64, ViewNode>, a: Seq<ViewId>, b: Seq<ViewId>)
    ensures
        kids_of_all(nodes, a + b) == kids_of_all(nodes, a) + kids_of_all(nodes, b),
    decreases b.len(),
{
    if b.len() == 0 {
        assert(a + b =~= a);
        assert(kids_of_all(nodes, a) + Seq::<ViewId>::empty() =~= kids_of_all(nodes, a));
    } else {
        lemma_kids_of_all_concat(nodes, a, b.drop_last());
        assert((a + b).drop_last() =~= a + b.drop_last());
        assert((a + b).last() == b.last());
        assert(kids_of_all(nodes, a + b) =~= kids_of_all(nodes, a) + kids_of_all(nodes, b));
    }
}

/// Two trees that give the views of `s` the same children give `s` the same
/// children in all.
proof fn lemma_kids_of_all_same(n: Map<u64, ViewNode>, d: Map<u64, ViewNode>, s: Seq<ViewId>)
    requires
        forall|j: int| 0 <= j < s.len() ==> kids(n, (#[trigger] s[j]).0) == kids(d, s[j].0),
    ensures
        kids_of_all(n, s) == kids_of_all(d, s),
    decreases s.len(),
{
    if s.len() > 0 {
        assert(kids(n, s[s.len() - 1].0) == kids(d, s[s.len() - 1].0));
        lemma_kids_of_all_same(n, d, s.drop_last());
    }
}

/// The tree is well formed: every id is a slot map key, no view is its own
/// parent, every child exists and names its parent, no view is listed twice
/// as a child, the next child to visit is at most one past the last, and
/// the root exists without a parent.
pub open spec fn tree_wf(nodes: Map<u64, ViewNode>, root: ViewId) -> bool {
    &&& nodes.dom().finite()
    &&& nodes.contains_key(root.0)
    &&& nodes[root.0].parent is None
    &&& forall|k: u64| nodes.contains_key(k) ==> valid_key(k)
    &&& forall|k: u64|
        nodes.contains_key(k) ==> match (#[trigger] nodes[k]).parent {
            Some(p) => valid_key(p.0) && p.0 != k,
            None => true,
        }
    &&& forall|k: u64, i: int|
        nodes.contains_key(k) && 0 <= i < kids(nodes, k).len() ==> nodes.contains_key(
            (#[trigger] kids(nodes, k)[i]).0,
        ) && nodes[kids(nodes, k)[i].0].parent == Some(ViewId(k))
    &&& forall|k: u64| nodes.contains_key(k) ==> (#[trigger] kids(nodes, k)).no_duplicates()
    &&& forall|k: u64| nodes.contains_key(k) ==> (#[trigger] nodes[k]).next <= nodes[k].children@.len()
}

/// The view tree.
pub struct ViewNodes {
    nodes: Slots,
    stack: Vec<ViewId>,
    removed: Vec<ViewId>,
    root: ViewId,
    depth: Ghost<Map<u64, nat>>,
}

/// Every child lies deeper than its parent: going down the children never
/// comes back to where it started.
pub open spec fn depth_wf(nodes: Map<u64, ViewNode>, depth: Map<u64, nat>) -> bool {
    &&& forall|k: u64| #[trigger] nodes.contains_key(k) ==> depth.contains_key(k)
    &&& forall|k: u64, i: int|
        nodes.contains_key(k) && 0 <= i < kids(nodes, k).len() ==> depth[(#[trigger] kids(nodes, k)[i]).0]
            > depth[k]
}

impl ViewNodes {
    /// The nodes, by the number of their id.
    pub closed spec fn nodes(&self) -> Map<u64, ViewNode> {
        slot_nodes(self.nodes)
    }

    /// The views being built, outermost first.
    pub closed spec fn stack(&self) -> Seq<ViewId> {
        self.stack@
    }

    /// The views removed since the last `finish`.
    pub closed spec fn removed(&self) -> Seq<ViewId> {
        self.removed@
    }

    pub closed spec fn spec_root(&self) -> ViewId {
        self.root
    }

    /// How deep each node lies.
    pub closed spec fn depths(&self) -> Map<u64, nat> {
        self.depth@
    }

    pub open spec fn wf(&self) -> bool {
        &&& tree_wf(self.nodes(), self.spec_root())
        &&& depth_wf(self.nodes(), self.depths())
        &&& self.nodes().len() < 0xFFFF_FFFE
    }

    /// A tree holding only the root, a view of kind `root_kind`.
    pub fn new(root_kind: u64) -> (r: ViewNodes)
        ensures
            r.nodes() == Map::<u64, ViewNode>::empty().insert(
                r.spec_root().0,
                ViewNode { parent: None, children: r.nodes()[r.spec_root().0].children, next: 0, kind: root_kind },
            ),
            r.nodes()[r.spec_root().0].children@ == Seq::<ViewId>::empty(),
            r.stack() == Seq::<ViewId>::empty(),
            r.removed() == Seq::<ViewId>::empty(),
            r.wf(),
    {
        let mut nodes = slots_new();
        let id = slots_insert(&mut nodes, ViewNode { parent: None, children: Vec::new(), next: 0, kind: root_kind });
        let r = ViewNodes {
            nodes,
            stack: Vec::new(),
            removed: Vec::new(),
            root: ViewId(id),
            depth: Ghost(Map::<u64, nat>::empty().insert(id, 0)),
        };
        proof {
            assert(r.nodes().dom() =~= set![id]);
            assert(r.nodes().len() == 1) by {
                assert(r.nodes().dom() =~= Set::<u64>::empty().insert(id));
            }
        }
        r
    }

    /// The root view.
    pub fn root(&self) -> (r: ViewId)
        ensures
            r == self.spec_root(),
    {
        self.root
    }

    /// The node of `id`, if the view exists.
    pub fn get(&self, id: ViewId) -> (r: Option<&ViewNode>)
        requires
            valid_key(id.0),
        ensures
            r == (if self.nodes().contains_key(id.0) {
                Some(&self.nodes()[id.0])
            } else {
                None
            }),
    {
        slots_get(&self.nodes, id.0)
    }

    /// The view being built: the top of the stack, or the root.
    pub fn current(&self) -> (r: ViewId)
        ensures
            r == (if self.stack().len() > 0 {
                self.stack().last()
            } else {
                self.spec_root()
            }),
    {
        let n = self.stack.len();
        if n > 0 {
            self.stack[n - 1]
        } else {
            self.root
        }
    }

    /// The parent of the view being built: the entry below the top of the
    /// stack, or the root.
    pub fn parent(&self) -> (r: ViewId)
        ensures
            r == (if self.stack().len() >= 2 {
                self.stack()[self.stack().len() - 2]
            } else {
                self.spec_root()
            }),
    {
        let n = self.stack.len();
        if n >= 2 {
            self.stack[n - 2]
        } else {
            self.root
        }
    }

    /// Enter the view `id`.
    pub fn begin(&mut self, id: ViewId)
        ensures
            final(self).stack() == old(self).stack().push(id),
            final(self).nodes() == old(self).nodes(),
            final(self).removed() == old(self).removed(),
            final(self).depths() == old(self).depths(),
            final(self).spec_root() == old(self).spec_root(),
    {
        self.stack.push(id);
    }

    /// Leave the view `id`, which must be the one entered last.
    pub fn end(&mut self, id: ViewId)
        requires
            old(self).stack().len() > 0,
            old(self).stack().last() == id,
        ensures
            final(self).stack() == old(self).stack().drop_last(),
            final(self).nodes() == old(self).nodes(),
            final(self).removed() == old(self).removed(),
            final(self).depths() == old(self).depths(),
            final(self).spec_root() == old(self).spec_root(),
    {
        self.stack.pop();
    }

    /// Hand out the ids removed since the last call, oldest first.
    pub fn finish(&mut self) -> (r: Vec<ViewId>)
        ensures
            r@ == old(self).removed(),
            final(self).removed() == Seq::<ViewId>::empty(),
            final(self).nodes() == old(self).nodes(),
            final(self).stack() == old(self).stack(),
            final(self).depths() == old(self).depths(),
            final(self).spec_root() == old(self).spec_root(),
    {
        let mut out: Vec<ViewId> = Vec::new();
        std::mem::swap(&mut out, &mut self.removed);
        out
    }

    /// Start a frame: the root's children are visited from the first.
    pub fn start(&mut self)
        requires
            old(self).wf(),
        ensures
            final(self).nodes() == old(self).nodes().insert(
                old(self).spec_root().0,
                ViewNode { next: 0, ..old(self).nodes()[old(self).spec_root().0] },
            ),
            final(self).stack() == old(self).stack(),
            final(self).removed() == old(self).removed(),
            final(self).depths() == old(self).depths(),
            final(self).spec_root() == old(self).spec_root(),
            final(self).wf(),
    {
        let root = self.root;
        match slots_get_mut(&mut self.nodes, root.0) {
            Some(node) => {
                node.next = 0;
            },
            None => {},
        }
        proof {
            let old_nodes = old(self).nodes();
            let n = self.nodes();
            assert(n.dom() =~= old_nodes.dom());
            assert forall|k: u64| n.contains_key(k) implies #[trigger] kids(n, k) == kids(old_nodes, k) by {}
        }
    }

    /// The next child of `parent` to visit, if it has one; the visit moves on.
    pub fn append_view(&mut self, parent: ViewId) -> (r: Option<ViewId>)
        requires
            old(self).wf(),
            old(self).nodes().contains_key(parent.0),
        ensures
            ({
                let p = old(self).nodes()[parent.0];
                if p.next < p.children@.len() {
                    &&& r == Some(p.children@[p.next as int])
                    &&& final(self).nodes() == old(self).nodes().insert(
                        parent.0,
                        ViewNode { next: (p.next + 1) as usize, ..p },
                    )
                } else {
                    r is None && final(self).nodes() == old(self).nodes()
                }
            }),
            final(self).stack() == old(self).stack(),
            final(self).removed() == old(self).removed(),
            final(self).depths() == old(self).depths(),
            final(self).spec_root() == old(self).spec_root(),
            final(self).wf(),
    {
        let r = match slots_get_mut(&mut self.nodes, parent.0) {
            Some(node) => {
                if node.next < node.children.len() {
                    let id = node.children[node.next];
                    node.next = node.next + 1;
                    Some(id)
                } else {
                    None
                }
            },
            None => None,
        };
        proof {
            let old_nodes = old(self).nodes();
            let n = self.nodes();
            assert(n.dom() =~= old_nodes.dom());
            assert forall|k: u64| n.contains_key(k) implies #[trigger] kids(n, k) == kids(old_nodes, k) by {}
        }
        r
    }

    /// A new view of `kind` under `parent`, at the position visited next
    /// (taking the place of the child there, if any).
    pub fn allocate_view(&mut self, parent: ViewId, kind: u64) -> (id: ViewId)
        requires
            old(self).wf(),
            old(self).nodes().contains_key(parent.0),
            old(self).nodes().len() + 1 < 0xFFFF_FFFE,
            old(self).nodes()[parent.0].next < usize::MAX,
        ensures
            !old(self).nodes().contains_key(id.0),
            ({
                let p = old(self).nodes()[parent.0];
                let children = if p.next < p.children@.len() {
                    p.children@.update(p.next as int, id)
                } else {
                    p.children@.push(id)
                };
                &&& final(self).nodes().dom() == old(self).nodes().dom().insert(id.0)
                &&& final(self).nodes()[id.0].parent == Some(parent)
                &&& final(self).nodes()[id.0].children@ == Seq::<ViewId>::empty()
                &&& final(self).nodes()[id.0].next == 0
                &&& final(self).nodes()[id.0].kind == kind
                &&& final(self).nodes()[parent.0].children@ == children
                &&& final(self).nodes()[parent.0].next == p.next + 1
                &&& final(self).nodes()[parent.0].parent == p.parent
                &&& final(self).nodes()[parent.0].kind == p.kind
                &&& forall|k: u64|
                    k != id.0 && k != parent.0 && old(self).nodes().contains_key(k)
                        ==> #[trigger] final(self).nodes()[k] == old(self).nodes()[k]
            }),
            final(self).stack() == old(self).stack(),
            final(self).removed() == old(self).removed(),
            final(self).spec_root() == old(self).spec_root(),
            final(self).wf(),
    {
        let ghost before = self.nodes();
        let raw = slots_insert(&mut self.nodes, ViewNode { parent: Some(parent), children: Vec::new(), next: 0, kind });
        let id = ViewId(raw);
        let ghost dep = self.depth@;
        proof {
            self.depth@ = dep.insert(raw, dep[parent.0] + 1);
        }
        let ghost mid = self.nodes();
        match slots_get_mut(&mut self.nodes, parent.0) {
            Some(p) => {
                if p.next < p.children.len() {
                    let next = p.next;
                    p.children[next] = id;
                } else {
                    p.children.push(id);
                }
                p.next = p.next + 1;
            },
            None => {},
        }
        proof {
            let n = self.nodes();
            assert(n.dom() =~= before.dom().insert(raw));
            assert(before.dom().len() + 1 == n.dom().len());
            assert forall|k: u64, i: int|
                n.contains_key(k) && 0 <= i < kids(n, k).len() implies n.contains_key(
                (#[trigger] kids(n, k)[i]).0,
            ) && n[kids(n, k)[i].0].parent == Some(ViewId(k)) by {
                if k == parent.0 {
                    let c = kids(n, k)[i];
                    if c != id {
                        let p = before[parent.0];
                        let j = if p.next < p.children@.len() && i == p.next as int {
                            i
                        } else {
                            i
                        };
                        assert(kids(before, k)[j] == c);
                    }
                } else if k != raw {
                    assert(kids(n, k) == kids(before, k));
                }
            }
            let dn = self.depth@;
            assert forall|k: u64, i: int|
                n.contains_key(k) && 0 <= i < kids(n, k).len() implies dn[(#[trigger] kids(n, k)[i]).0] > dn[k] by {
                let c = kids(n, k)[i];
                if k == parent.0 {
                    if c != id {
                        assert(kids(before, k)[i] == c);
                        assert(dep[c.0] > dep[k]);
                    }
                } else if k != raw {
                    assert(kids(n, k) == kids(before, k));
                    assert(dep[c.0] > dep[k]);
                    assert(before.contains_key(c.0));
                }
            }
            assert forall|k: u64| n.contains_key(k) implies (#[trigger] kids(n, k)).no_duplicates() by {
                if k == parent.0 {
                    let p = before[parent.0];
                    assert forall|a: int, b: int| 0 <= a < b < kids(n, k).len() implies kids(n, k)[a] != kids(n, k)[b] by {
                        if kids(n, k)[a] == id {
                            assert(!before.contains_key(raw));
                        }
                        if kids(n, k)[b] == id {
                            assert(!before.contains_key(raw));
                        }
                        if kids(n, k)[a] != id && kids(n, k)[b] != id {
                            assert(kids(before, k)[a] == kids(n, k)[a]);
                            assert(kids(before, k)[b] == kids(n, k)[b]);
                        }
                    }
                } else if k != raw {
                    assert(kids(n, k) == kids(before, k));
                }
            }
        }
        id
    }
}

/// The ids removed by a call: what follows `before` in `after`.
pub open spec fn appended(before: Seq<ViewId>, after: Seq<ViewId>) -> Seq<ViewId> {
    after.skip(before.len() as int)
}

/// `s` starts with `first`, holds each id once, only ids of `nodes`, every
/// child of each of them, and each id after `first` comes after its parent:
/// `s` lists exactly the views below (and including) `first`.
pub open spec fn subtrees_listed(nodes: Map<u64, ViewNode>, first: Seq<ViewId>, s: Seq<ViewId>) -> bool {
    &&& first.len() <= s.len()
    &&& s.take(first.len() as int) == first
    &&& s.no_duplicates()
    &&& forall|j: int| 0 <= j < s.len() ==> nodes.contains_key((#[trigger] s[j]).0)
    &&& forall|i: int, t: int|
        0 <= i < s.len() && 0 <= t < kids(nodes, s[i].0).len() ==> s.contains(
            #[trigger] kids(nodes, s[i].0)[t],
        )
    &&& forall|j: int|
        first.len() <= j < s.len() ==> exists|i: int|
            0 <= i < j && nodes[(#[trigger] s[j]).0].parent == Some(s[i]) && kids(nodes, s[i].0).contains(s[j])
}

/// `after` is `before` without the nodes listed in `s`.
pub open spec fn without_nodes(before: Map<u64, ViewNode>, after: Map<u64, ViewNode>, s: Seq<ViewId>) -> bool {
    &&& forall|k: u64| after.contains_key(k) <==> before.contains_key(k) && !s.contains(ViewId(k))
    &&& forall|k: u64| #[trigger] after.contains_key(k) ==> after[k] == before[k]
}

/// Dropping an element keeps a sequence free of duplicates.
pub proof fn lemma_without_no_duplicates(s: Seq<ViewId>, id: ViewId)
    requires
        s.no_duplicates(),
    ensures
        without(s, id).no_duplicates(),
    decreases s.len(),
{
    if s.len() > 0 {
        let d = s.drop_last();
        assert(d.no_duplicates()) by {
            assert forall|a: int, b: int| 0 <= a < b < d.len() implies d[a] != d[b] by {
                assert(d[a] == s[a] && d[b] == s[b]);
            }
        }
        lemma_without_no_duplicates(d, id);
        if s.last() != id {
            let w = without(d, id);
            lemma_without_contains(d, id, s.last());
            if d.contains(s.last()) {
                let j = choose|j: int| 0 <= j < d.len() && #[trigger] d[j] == s.last();
                assert(s[j] == s[s.len() - 1]);
            }
            assert forall|a: int, b: int| 0 <= a < b < w.push(s.last()).len() implies w.push(
                s.last(),
            )[a] != w.push(s.last())[b] by {
                if b == w.len() {
                    assert(w.push(s.last())[a] == w[a]);
                    assert(w.contains(w[a]));
                }
            }
        }
    }
}

impl ViewNodes {
    /// Remove every view listed in `queue` and every view below them; their
    /// ids are recorded, the listed ones first.
    fn drain_subtrees(&mut self, queue: Vec<ViewId>)
        requires
            old(self).wf(),
            queue@.no_duplicates(),
            forall|j: int| 0 <= j < queue@.len() ==> old(self).nodes().contains_key((#[trigger] queue@[j]).0),
            forall|j: int| 0 <= j < queue@.len() ==> (#[trigger] queue@[j]) != old(self).spec_root(),
            forall|j: int, k: u64, t: int|
                0 <= j < queue@.len() && old(self).nodes().contains_key(k) && 0 <= t < kids(
                    old(self).nodes(),
                    k,
                ).len() ==> #[trigger] kids(old(self).nodes(), k)[t] != #[trigger] queue@[j],
        ensures
            final(self).wf(),
            final(self).removed().take(old(self).removed().len() as int) == old(self).removed(),
            old(self).removed().len() <= final(self).removed().len(),
            subtrees_listed(
                old(self).nodes(),
                queue@,
                appended(old(self).removed(), final(self).removed()),
            ),
            without_nodes(
                old(self).nodes(),
                final(self).nodes(),
                appended(old(self).removed(), final(self).removed()),
            ),
            appended(old(self).removed(), final(self).removed()) == queue@ + kids_of_all(
                old(self).nodes(),
                appended(old(self).removed(), final(self).removed()),
            ),
            final(self).stack() == old(self).stack(),
            final(self).depths() == old(self).depths(),
            final(self).spec_root() == old(self).spec_root(),
    {
        let ghost n0 = self.nodes();
        let ghost r0 = self.removed();
        let ghost init = queue@;
        let ghost q0 = queue@.len();
        let mut queue = queue;
        let mut head: usize = 0;
        while head < queue.len()
            invariant
                tree_wf(n0, self.spec_root()),
                depth_wf(n0, self.depths()),
                self.depths() == old(self).depths(),
                n0.len() < 0xFFFF_FFFE,
                self.nodes().dom().finite(),
                self.stack() == old(self).stack(),
                self.spec_root() == old(self).spec_root(),
                n0 == old(self).nodes(),
                r0 == old(self).removed(),
                init == queue@.take(q0 as int),
                q0 <= queue@.len(),
                head <= queue@.len(),
                self.removed() == r0 + queue@.take(head as int),
                queue@ == init + kids_of_all(n0, queue@.take(head as int)),
                queue@.no_duplicates(),
                forall|j: int| 0 <= j < queue@.len() ==> n0.contains_key((#[trigger] queue@[j]).0),
                forall|j: int| 0 <= j < queue@.len() ==> (#[trigger] queue@[j]) != self.spec_root(),
                forall|k: u64|
                    self.nodes().contains_key(k) <==> n0.contains_key(k) && !queue@.take(
                        head as int,
                    ).contains(ViewId(k)),
                forall|k: u64| #[trigger] self.nodes().contains_key(k) ==> self.nodes()[k] == n0[k],
                forall|i: int, t: int|
                    0 <= i < head && 0 <= t < kids(n0, queue@[i].0).len() ==> queue@.contains(
                        #[trigger] kids(n0, queue@[i].0)[t],
                    ),
                forall|j: int|
                    q0 <= j < queue@.len() ==> exists|i: int|
                        0 <= i < head && i < j && n0[(#[trigger] queue@[j]).0].parent == Some(queue@[i])
                            && kids(n0, queue@[i].0).contains(queue@[j]),
                forall|j: int, k: u64, t: int|
                    0 <= j < q0 && n0.contains_key(k) && 0 <= t < kids(n0, k).len()
                        ==> #[trigger] kids(n0, k)[t] != #[trigger] queue@[j],
            decreases self.nodes().len(),
        {
            let id = queue[head];
            let ghost h = head as int;
            let ghost qb = queue@;
            assert(!qb.take(h).contains(id)) by {
                if qb.take(h).contains(id) {
                    let j = choose|j: int| 0 <= j < qb.take(h).len() && #[trigger] qb.take(h)[j] == id;
                    assert(qb[j] == qb[h]);
                }
            }
            assert(self.nodes().contains_key(id.0));
            head = head + 1;
            self.removed.push(id);
            assert(qb.take(h + 1) =~= qb.take(h).push(id));
            match slots_remove(&mut self.nodes, id.0) {
                Some(node) => {
                    let mut i: usize = 0;
                    while i < node.children.len()
                        invariant
                            node == n0[id.0],
                            tree_wf(n0, self.spec_root()),
                            n0.contains_key(id.0),
                            qb[h] == id,
                            0 <= h < qb.len(),
                            q0 <= qb.len(),
                            i <= node.children@.len(),
                            queue@ == qb + node.children@.take(i as int),
                            qb.no_duplicates(),
                            forall|j: int| 0 <= j < qb.len() ==> n0.contains_key((#[trigger] qb[j]).0),
                            forall|j: int|
                                q0 <= j < qb.len() ==> exists|i2: int|
                                    0 <= i2 < h && i2 < j && n0[(#[trigger] qb[j]).0].parent == Some(qb[i2])
                                        && kids(n0, qb[i2].0).contains(qb[j]),
                            forall|j: int, k: u64, t: int|
                                0 <= j < q0 && n0.contains_key(k) && 0 <= t < kids(n0, k).len()
                                    ==> #[trigger] kids(n0, k)[t] != #[trigger] qb[j],
                            queue@.no_duplicates(),
                        decreases node.children@.len() - i,
                    {
                        let c = node.children[i];
                        assert(kids(n0, id.0)[i as int] == c);
                        assert(!queue@.contains(c)) by {
                            if queue@.contains(c) {
                                let j = choose|j: int| 0 <= j < queue@.len() && #[trigger] queue@[j] == c;
                                if j < qb.len() {
                                    assert(qb[j] == c);
                                    if j < q0 {
                                        assert(kids(n0, id.0)[i as int] != qb[j]);
                                    } else {
                                        let i2 = choose|i2: int|
                                            0 <= i2 < h && i2 < j && n0[qb[j].0].parent == Some(qb[i2]);
                                        assert(n0[c.0].parent == Some(ViewId(id.0)));
                                        assert(qb[i2] == qb[h]);
                                    }
                                } else {
                                    let t = j - qb.len();
                                    assert(node.children@.take(i as int)[t] == c);
                                    assert(kids(n0, id.0)[t] == kids(n0, id.0)[i as int]);
                                }
                            }
                        }
                        queue.push(c);
                        i = i + 1;
                        assert(queue@ =~= qb + node.children@.take(i as int));
                    }
                    assert(node.children@.take(i as int) =~= node.children@);
                },
                None => {
                    proof {
                        assert(false);
                    }
                },
            }
            proof {
                let qa = queue@;
                assert(qa.take(h + 1) =~= qb.take(h + 1));
                assert(qa.take(h + 1).drop_last() =~= qb.take(h));
                assert(qa =~= init + kids_of_all(n0, qa.take(h + 1)));
                assert(self.removed() =~= r0 + qa.take(h + 1));
                assert forall|j: int| 0 <= j < qa.len() implies n0.contains_key((#[trigger] qa[j]).0) && qa[j] != self.spec_root() by {
                    if j >= qb.len() {
                        let t = j - qb.len();
                        assert(qa[j] == kids(n0, id.0)[t]);
                    } else {
                        assert(qa[j] == qb[j]);
                    }
                }
                assert forall|k: u64| self.nodes().contains_key(k) <==> n0.contains_key(k) && !qa.take(
                    h + 1,
                ).contains(ViewId(k)) by {
                    if qa.take(h + 1).contains(ViewId(k)) && ViewId(k) != id {
                        let j = choose|j: int| 0 <= j < qa.take(h + 1).len() && #[trigger] qa.take(h + 1)[j] == ViewId(k);
                        assert(qb.take(h)[j] == ViewId(k));
                    }
                    if qb.take(h).contains(ViewId(k)) {
                        let j = choose|j: int| 0 <= j < qb.take(h).len() && #[trigger] qb.take(h)[j] == ViewId(k);
                        assert(qa.take(h + 1)[j] == ViewId(k));
                    }
                    if ViewId(k) == id {
                        assert(qa.take(h + 1)[h] == id);
                    }
                }
                assert forall|i: int, t: int|
                    0 <= i < h + 1 && 0 <= t < kids(n0, qa[i].0).len() implies qa.contains(
                    #[trigger] kids(n0, qa[i].0)[t],
                ) by {
                    if i == h {
                        assert(qa[qb.len() + t] == kids(n0, id.0)[t]);
                    } else {
                        assert(qa[i] == qb[i]);
                        let c = kids(n0, qb[i].0)[t];
                        assert(qb.contains(c));
                        let j = choose|j: int| 0 <= j < qb.len() && #[trigger] qb[j] == c;
                        assert(qa[j] == c);
                    }
                }
                assert forall|j: int| q0 <= j < qa.len() implies exists|i: int|
                    0 <= i < h + 1 && i < j && n0[(#[trigger] qa[j]).0].parent == Some(qa[i])
                        && kids(n0, qa[i].0).contains(qa[j]) by {
                    if j >= qb.len() {
                        let t = j - qb.len();
                        assert(qa[j] == kids(n0, id.0)[t]);
                        assert(n0[qa[j].0].parent == Some(ViewId(id.0)));
                        assert(qa[h] == id);
                        assert(kids(n0, qa[h].0)[t] == qa[j]);
                        assert(kids(n0, qa[h].0).contains(qa[j]));
                    } else {
                        assert(qa[j] == qb[j]);
                        let i2 = choose|i2: int| 0 <= i2 < h && i2 < j && n0[qb[j].0].parent == Some(qb[i2])
                            && kids(n0, qb[i2].0).contains(qb[j]);
                        assert(qa[i2] == qb[i2]);
                    }
                }
                assert forall|j: int, k: u64, t: int|
                    0 <= j < q0 && n0.contains_key(k) && 0 <= t < kids(n0, k).len()
                        implies #[trigger] kids(n0, k)[t] != #[trigger] qa[j] by {
                    assert(qa[j] == qb[j]);
                }
            }
        }
        proof {
            let qf = queue@;
            let s = appended(r0, self.removed());
            assert(qf.take(head as int) =~= qf);
            assert(self.removed() =~= r0 + qf);
            assert(s =~= qf);
            assert(self.removed().take(r0.len() as int) =~= r0);
            let nf = self.nodes();
            assert forall|k: u64| nf.contains_key(k) <==> n0.contains_key(k) && !qf.contains(ViewId(k)) by {}
            assert(subtrees_listed(n0, init, qf)) by {
                assert(qf.take(q0 as int) == init);
                assert forall|j: int| q0 <= j < qf.len() implies exists|i: int|
                    0 <= i < j && n0[(#[trigger] qf[j]).0].parent == Some(qf[i]) && kids(n0, qf[i].0).contains(qf[j]) by {
                    let i = choose|i: int| 0 <= i < head && i < j && n0[qf[j].0].parent == Some(qf[i]) && kids(n0, qf[i].0).contains(qf[j]);
                }
            }
            // the tree stays well formed
            assert(nf.dom().finite());
            assert(nf.len() <= n0.len()) by {
                assert(nf.dom().subset_of(n0.dom()));
                vstd::set_lib::lemma_len_subset(nf.dom(), n0.dom());
            }
            assert forall|k: u64, i: int|
                nf.contains_key(k) && 0 <= i < kids(nf, k).len() implies nf.contains_key(
                (#[trigger] kids(nf, k)[i]).0,
            ) && nf[kids(nf, k)[i].0].parent == Some(ViewId(k)) by {
                let c = kids(nf, k)[i];
                assert(kids(nf, k) == kids(n0, k));
                assert(n0.contains_key(c.0));
                if qf.contains(c) {
                    let j = choose|j: int| 0 <= j < qf.len() && #[trigger] qf[j] == c;
                    if j < q0 {
                        assert(kids(n0, k)[i] != qf[j]);
                    } else {
                        let i2 = choose|i2: int| 0 <= i2 < head && i2 < j && n0[qf[j].0].parent == Some(qf[i2]);
                        assert(qf[i2] == ViewId(k));
                        assert(qf.contains(ViewId(k)));
                    }
                }
            }
            assert forall|k: u64| nf.contains_key(k) implies (#[trigger] kids(nf, k)).no_duplicates() by {
                assert(kids(nf, k) == kids(n0, k));
            }
            assert forall|k: u64, i: int|
                nf.contains_key(k) && 0 <= i < kids(nf, k).len() implies self.depths()[(#[trigger] kids(
                nf,
                k,
            )[i]).0] > self.depths()[k] by {
                assert(kids(nf, k) == kids(n0, k));
            }
            assert(nf.contains_key(self.spec_root().0)) by {
                if qf.contains(self.spec_root()) {
                    let j = choose|j: int| 0 <= j < qf.len() && #[trigger] qf[j] == self.spec_root();
                }
            }
        }
    }

    /// Remove the view `id` and every view below it, record their ids, and
    /// take `id` out of its parent's children (the next child to visit
    /// moves back by as many places as were taken out).
    pub fn remove_view(&mut self, id: ViewId)
        requires
            old(self).wf(),
            valid_key(id.0),
            id != old(self).spec_root(),
        ensures
            final(self).wf(),
            final(self).removed().take(old(self).removed().len() as int) == old(self).removed(),
            old(self).removed().len() < final(self).removed().len(),
            removed_view(
                old(self).nodes(),
                final(self).nodes(),
                id,
                appended(old(self).removed(), final(self).removed()),
            ),
            final(self).stack() == old(self).stack(),
            final(self).depths() == old(self).depths(),
            final(self).spec_root() == old(self).spec_root(),
    {
        self.removed.push(id);
        let ghost r1 = self.removed();
        let ghost n = old(self).nodes();
        match slots_remove(&mut self.nodes, id.0) {
            None => {
                proof {
                    assert(appended(old(self).removed(), self.removed()) =~= seq![id]);
                    assert(self.removed().take(old(self).removed().len() as int) =~= old(self).removed());
                }
            },
            Some(node) => {
                proof {
                    assert(node == n[id.0]);
                    assert(n.contains_key(id.0));
                }
                let ghost mut kept_view: Seq<ViewId> = Seq::empty();
                let ghost mut new_next: usize = 0;
                if let Some(parent) = node.parent {
                    proof {
                        assert(valid_key(parent.0) && parent.0 != id.0);
                    }
                    match slots_get_mut(&mut self.nodes, parent.0) {
                        Some(p) => {
                            proof {
                                assert(n.contains_key(parent.0));
                                assert(*p == n[parent.0]);
                                assert(kids(n, parent.0).no_duplicates());
                                assert(n[parent.0].next <= kids(n, parent.0).len());
                            }
                            let len = p.children.len();
                            let kept = without_id(&p.children, id);
                            proof {
                                lemma_without_len(p.children@, id);
                            }
                            let diff = len - kept.len();
                            let next = if p.next >= diff {
                                p.next - diff
                            } else {
                                0
                            };
                            proof {
                                kept_view = kept@;
                                new_next = next;
                            }
                            p.children = kept;
                            p.next = next;
                        },
                        None => {},
                    }
                }
                let ghost d = self.nodes();
                proof {
                    assert(detached(n, d, id)) by {
                        assert(d.dom() =~= n.dom().remove(id.0));
                        assert forall|k: u64| #[trigger] d.contains_key(k) implies d[k].parent == n[k].parent
                            && d[k].kind == n[k].kind by {}
                    }
                }
                let mut queue: Vec<ViewId> = Vec::new();
                let mut i: usize = 0;
                while i < node.children.len()
                    invariant
                        i <= node.children@.len(),
                        queue@ == node.children@.take(i as int),
                    decreases node.children@.len() - i,
                {
                    queue.push(node.children[i]);
                    i = i + 1;
                    assert(queue@ =~= node.children@.take(i as int));
                }
                assert(queue@ =~= node.children@);
                proof {
                    lemma_detach_wf(n, d, id, self.spec_root(), self.depths());
                    assert(d.len() <= n.len()) by {
                        vstd::set_lib::lemma_len_subset(d.dom(), n.dom());
                    }
                }
                let ghost q = queue@;
                self.drain_subtrees(queue);
                proof {
                    let s = appended(old(self).removed(), self.removed());
                    let s1 = appended(r1, self.removed());
                    assert(self.removed().take(old(self).removed().len() as int) =~= old(self).removed()) by {
                        assert(self.removed().take(r1.len() as int) == r1);
                        assert(r1 =~= old(self).removed().push(id));
                    }
                    assert(self.removed().take(r1.len() as int)[old(self).removed().len() as int] == id);
                    assert(s =~= seq![id] + s1);
                    assert(kids(n, id.0) == q);
                    lemma_listed_with_root(n, d, id, s1, self.nodes(), self.spec_root(), self.depths());
                }
            },
        }
    }
}

/// Where the next visit of `p`'s children starts once `id` is taken out of
/// them: as many places earlier as were taken out, but not before the first.
pub open spec fn detached_next(p: ViewNode, id: ViewId) -> usize {
    let kept = without(p.children@, id);
    let diff = (p.children@.len() - kept.len()) as int;
    if p.next >= diff {
        (p.next - diff) as usize
    } else {
        0
    }
}

/// `d` is `n` with the node `id` taken out, along with its place in its
/// parent's children.
pub open spec fn detached(n: Map<u64, ViewNode>, d: Map<u64, ViewNode>, id: ViewId) -> bool {
    &&& d.dom() == n.dom().remove(id.0)
    &&& forall|k: u64| #[trigger] d.contains_key(k) ==> d[k].parent == n[k].parent && d[k].kind == n[k].kind
    &&& forall|k: u64| #[trigger] d.contains_key(k) && n[id.0].parent != Some(ViewId(k)) ==> d[k] == n[k]
    &&& forall|k: u64|
        #[trigger] d.contains_key(k) && n[id.0].parent == Some(ViewId(k)) ==> d[k].children@ == without(
            n[k].children@,
            id,
        ) && d[k].next == detached_next(n[k], id)
}

/// What removing the view `id` does: `s` lists `id` and every view below
/// it, each once, in breadth-first order (`id`, then the children of each
/// listed view in turn), and exactly those views leave the tree; `id` also
/// leaves its parent's children.
pub open spec fn removed_view(n: Map<u64, ViewNode>, f: Map<u64, ViewNode>, id: ViewId, s: Seq<ViewId>) -> bool {
    if !n.contains_key(id.0) {
        s == seq![id] && f == n
    } else {
        &&& subtrees_listed(n, seq![id], s)
        &&& s == seq![id] + kids_of_all(n, s)
        &&& forall|k: u64| f.contains_key(k) <==> n.contains_key(k) && !s.contains(ViewId(k))
        &&& forall|k: u64|
            #[trigger] f.contains_key(k) ==> f[k].parent == n[k].parent && f[k].kind == n[k].kind
        &&& forall|k: u64|
            #[trigger] f.contains_key(k) && n[id.0].parent != Some(ViewId(k)) ==> f[k] == n[k]
        &&& forall|k: u64|
            #[trigger] f.contains_key(k) && n[id.0].parent == Some(ViewId(k)) ==> f[k].children@ == without(
                n[k].children@,
                id,
            ) && f[k].next == detached_next(n[k], id)
    }
}

/// Dropping an element that does not occur changes nothing.
proof fn lemma_without_absent(s: Seq<ViewId>, id: ViewId)
    requires
        !s.contains(id),
    ensures
        without(s, id) == s,
    decreases s.len(),
{
    if s.len() > 0 {
        assert(!s.drop_last().contains(id)) by {
            if s.drop_last().contains(id) {
                let j = choose|j: int| 0 <= j < s.drop_last().len() && #[trigger] s.drop_last()[j] == id;
                assert(s[j] == id);
            }
        }
        lemma_without_absent(s.drop_last(), id);
        assert(s.drop_last().push(s.last()) =~= s);
    }
}

/// Dropping an element never makes a sequence longer.
pub proof fn lemma_without_len(s: Seq<ViewId>, id: ViewId)
    ensures
        without(s, id).len() <= s.len(),
    decreases s.len(),
{
    if s.len() > 0 {
        lemma_without_len(s.drop_last(), id);
    }
}

/// What dropping the children of `start` from the `next` one on does: `s`
/// lists those children and every view below them, each once, and exactly
/// those views leave the tree; `start` keeps its first `next` children.
pub open spec fn cleaned(n: Map<u64, ViewNode>, f: Map<u64, ViewNode>, start: ViewId, s: Seq<ViewId>) -> bool {
    let p = n[start.0];
    if p.next >= p.children@.len() {
        s.len() == 0 && f == n
    } else {
        &&& subtrees_listed(n, kids(n, start.0).skip(p.next as int), s)
        &&& s == kids(n, start.0).skip(p.next as int) + kids_of_all(n, s)
        &&& forall|k: u64| f.contains_key(k) <==> n.contains_key(k) && !s.contains(ViewId(k))
        &&& forall|k: u64| #[trigger] f.contains_key(k) && k != start.0 ==> f[k] == n[k]
        &&& f.contains_key(start.0) ==> f[start.0].children@ == kids(n, start.0).take(p.next as int)
            && f[start.0].next == p.next && f[start.0].parent == p.parent && f[start.0].kind == p.kind
    }
}

impl ViewNodes {
    /// Remove the children of `start` that this frame did not visit, and
    /// every view below them.
    #[verifier::rlimit(40)]
    pub fn cleanup(&mut self, start: ViewId)
        requires
            old(self).wf(),
            old(self).nodes().contains_key(start.0),
        ensures
            final(self).wf(),
            final(self).removed().take(old(self).removed().len() as int) == old(self).removed(),
            old(self).removed().len() <= final(self).removed().len(),
            cleaned(
                old(self).nodes(),
                final(self).nodes(),
                start,
                appended(old(self).removed(), final(self).removed()),
            ),
            final(self).stack() == old(self).stack(),
            final(self).depths() == old(self).depths(),
            final(self).spec_root() == old(self).spec_root(),
    {
        let ghost n = self.nodes();
        proof {
            assert(valid_key(start.0));
            assert(n[start.0].next <= kids(n, start.0).len());
            assert(kids(n, start.0).no_duplicates());
        }
        let (queue, done) = match slots_get_mut(&mut self.nodes, start.0) {
            Some(node) => {
                if node.next >= node.children.len() {
                    (Vec::new(), true)
                } else {
                    let next = node.next;
                    let mut queue: Vec<ViewId> = Vec::new();
                    let mut i: usize = next;
                    while i < node.children.len()
                        invariant
                            next <= i <= node.children@.len(),
                            queue@ == node.children@.subrange(next as int, i as int),
                        decreases node.children@.len() - i,
                    {
                        queue.push(node.children[i]);
                        i = i + 1;
                        assert(queue@ =~= node.children@.subrange(next as int, i as int));
                    }
                    node.children.truncate(next);
                    (queue, false)
                }
            },
            None => {
                proof {
                    assert(false);
                }
                (Vec::new(), true)
            },
        };
        if done {
            proof {
                assert(self.nodes() =~= n);
                assert(self.removed().take(old(self).removed().len() as int) =~= old(self).removed());
                assert(appended(old(self).removed(), self.removed()) =~= Seq::<ViewId>::empty());
            }
            return ;
        }
        let ghost d = self.nodes();
        proof {
            let p = n[start.0];
            let init = kids(n, start.0).skip(p.next as int);
            assert(queue@ =~= init);
            assert(d.dom() =~= n.dom());
            assert(kids(d, start.0) =~= kids(n, start.0).take(p.next as int));
            assert forall|k: u64| #[trigger] d.contains_key(k) && k != start.0 implies d[k] == n[k] by {}
            // the truncated tree is well formed
            assert forall|k: u64, i: int|
                d.contains_key(k) && 0 <= i < kids(d, k).len() implies d.contains_key(
                (#[trigger] kids(d, k)[i]).0,
            ) && d[kids(d, k)[i].0].parent == Some(ViewId(k)) by {
                if k == start.0 {
                    assert(kids(d, k)[i] == kids(n, k)[i]);
                } else {
                    assert(kids(d, k) == kids(n, k));
                }
            }
            assert forall|k: u64| d.contains_key(k) implies (#[trigger] kids(d, k)).no_duplicates() by {
                if k == start.0 {
                    assert forall|a: int, b: int| 0 <= a < b < kids(d, k).len() implies kids(d, k)[a] != kids(d, k)[b] by {
                        assert(kids(d, k)[a] == kids(n, k)[a] && kids(d, k)[b] == kids(n, k)[b]);
                    }
                } else {
                    assert(kids(d, k) == kids(n, k));
                }
            }
            assert forall|k: u64| d.contains_key(k) implies match (#[trigger] d[k]).parent {
                Some(q) => valid_key(q.0) && q.0 != k,
                None => true,
            } by {
                assert(n.contains_key(k));
                if k != start.0 {
                    assert(d[k] == n[k]);
                }
            }
            assert forall|k: u64| d.contains_key(k) implies (#[trigger] d[k]).next <= d[k].children@.len() by {
                if k != start.0 {
                    assert(d[k] == n[k]);
                }
            }
            assert(tree_wf(d, self.spec_root()));
            assert forall|k: u64, i: int|
                d.contains_key(k) && 0 <= i < kids(d, k).len() implies self.depths()[(#[trigger] kids(
                d,
                k,
            )[i]).0] > self.depths()[k] by {
                if k == start.0 {
                    assert(kids(d, k)[i] == kids(n, k)[i]);
                } else {
                    assert(kids(d, k) == kids(n, k));
                }
            }
            assert forall|j: int| 0 <= j < queue@.len() implies d.contains_key((#[trigger] queue@[j]).0)
                && queue@[j] != self.spec_root() by {
                let c = queue@[j];
                assert(kids(n, start.0)[p.next + j] == c);
                assert(n[c.0].parent == Some(ViewId(start.0)));
            }
            assert(queue@.no_duplicates()) by {
                assert forall|a: int, b: int| 0 <= a < b < queue@.len() implies queue@[a] != queue@[b] by {
                    assert(queue@[a] == kids(n, start.0)[p.next + a]);
                    assert(queue@[b] == kids(n, start.0)[p.next + b]);
                }
            }
            assert forall|j: int, k: u64, t: int|
                0 <= j < queue@.len() && d.contains_key(k) && 0 <= t < kids(d, k).len()
                    implies #[trigger] kids(d, k)[t] != #[trigger] queue@[j] by {
                let c = queue@[j];
                assert(kids(n, start.0)[p.next + j] == c);
                if kids(d, k)[t] == c {
                    if k == start.0 {
                        assert(kids(n, start.0)[t] == c);
                    } else {
                        assert(kids(n, k)[t] == c);
                        assert(n[c.0].parent == Some(ViewId(k)));
                        assert(n[c.0].parent == Some(ViewId(start.0)));
                    }
                }
            }
        }
        self.drain_subtrees(queue);
        proof {
            let p = n[start.0];
            let init = kids(n, start.0).skip(p.next as int);
            let s = appended(old(self).removed(), self.removed());
            let f = self.nodes();
            // closure and parents hold in the full tree too
            assert forall|i: int, t: int| 0 <= i < s.len() && 0 <= t < kids(n, s[i].0).len() implies s.contains(
                #[trigger] kids(n, s[i].0)[t],
            ) by {
                let x = s[i];
                let c = kids(n, x.0)[t];
                if x.0 == start.0 {
                    if t < p.next {
                        assert(kids(d, x.0)[t] == c);
                        assert(s.contains(kids(d, s[i].0)[t]));
                    } else {
                        assert(init[t - p.next] == c);
                        assert(s.take(init.len() as int)[t - p.next] == c);
                        assert(s[t - p.next] == c);
                    }
                } else {
                    assert(kids(d, x.0) == kids(n, x.0));
                    assert(s.contains(kids(d, s[i].0)[t]));
                }
            }
            assert forall|j: int| init.len() <= j < s.len() implies exists|i: int|
                0 <= i < j && n[(#[trigger] s[j]).0].parent == Some(s[i]) by {
                let i = choose|i: int| 0 <= i < j && d[(#[trigger] s[j]).0].parent == Some(s[i]);
                assert(d.contains_key(s[j].0));
                if s[j].0 != start.0 {
                    assert(d[s[j].0] == n[s[j].0]);
                }
            }
            assert(subtrees_listed(n, init, s));
            assert forall|k: u64| #[trigger] f.contains_key(k) && k != start.0 implies f[k] == n[k] by {
                assert(f[k] == d[k]);
            }
            // breadth-first over the tree before the cut
            assert forall|j: int| 0 <= j < s.len() implies kids(n, (#[trigger] s[j]).0) == kids(d, s[j].0) by {
                assert forall|i: int| 0 <= i < init.len() implies self.depths()[(#[trigger] init[i]).0]
                    > self.depths()[start.0] by {
                    assert(init[i] == kids(n, start.0)[p.next + i]);
                }
                lemma_listed_deeper(n, self.depths(), init, s, self.depths()[start.0] as int, j);
                assert(d.contains_key(s[j].0));
            }
            lemma_kids_of_all_same(n, d, s);
        }
    }

    /// Leave the view `id`, which must be the one entered last, and remove
    /// the children it did not visit this frame.
    pub fn end_view(&mut self, id: ViewId)
        requires
            old(self).wf(),
            old(self).stack().len() > 0,
            old(self).stack().last() == id,
            old(self).nodes().contains_key(id.0),
        ensures
            final(self).wf(),
            final(self).stack() == old(self).stack().drop_last(),
            final(self).removed().take(old(self).removed().len() as int) == old(self).removed(),
            old(self).removed().len() <= final(self).removed().len(),
            cleaned(
                old(self).nodes(),
                final(self).nodes(),
                id,
                appended(old(self).removed(), final(self).removed()),
            ),
            final(self).depths() == old(self).depths(),
            final(self).spec_root() == old(self).spec_root(),
    {
        self.stack.pop();
        self.cleanup(id);
    }
}

/// Every view listed below views deeper than `bound` lies deeper than `bound`.
proof fn lemma_listed_deeper(
    n: Map<u64, ViewNode>,
    depth: Map<u64, nat>,
    first: Seq<ViewId>,
    s: Seq<ViewId>,
    bound: int,
    j: int,
)
    requires
        depth_wf(n, depth),
        subtrees_listed(n, first, s),
        forall|i: int| 0 <= i < first.len() ==> depth[(#[trigger] first[i]).0] > bound,
        0 <= j < s.len(),
    ensures
        depth[s[j].0] > bound,
    decreases j,
{
    if j < first.len() {
        assert(s.take(first.len() as int)[j] == s[j]);
        assert(first[j] == s[j]);
    } else {
        let i = choose|i: int| 0 <= i < j && n[(#[trigger] s[j]).0].parent == Some(s[i]) && kids(n, s[i].0).contains(s[j]);
        lemma_listed_deeper(n, depth, first, s, bound, i);
        let t = choose|t: int| 0 <= t < kids(n, s[i].0).len() && #[trigger] kids(n, s[i].0)[t] == s[j];
        assert(n.contains_key(s[i].0));
        assert(depth[kids(n, s[i].0)[t].0] > depth[s[i].0]);
    }
}

/// Every view listed below `first` lies at least as deep as `first`.
proof fn lemma_listed_depth(n: Map<u64, ViewNode>, depth: Map<u64, nat>, first: ViewId, s: Seq<ViewId>, j: int)
    requires
        depth_wf(n, depth),
        subtrees_listed(n, seq![first], s),
        0 <= j < s.len(),
    ensures
        depth[s[j].0] >= depth[first.0],
    decreases j,
{
    if j == 0 {
        assert(s.take(1)[0] == s[0]);
    } else {
        let i = choose|i: int| 0 <= i < j && n[(#[trigger] s[j]).0].parent == Some(s[i]) && kids(n, s[i].0).contains(s[j]);
        lemma_listed_depth(n, depth, first, s, i);
        let t = choose|t: int| 0 <= t < kids(n, s[i].0).len() && #[trigger] kids(n, s[i].0)[t] == s[j];
        assert(n.contains_key(s[i].0));
        assert(depth[kids(n, s[i].0)[t].0] > depth[s[i].0]);
    }
}

/// How a view met by a frame was matched against the tree.
#[derive(Copy, Clone, Debug, PartialEq, Eq, Structural)]
pub enum Visit {
    /// The view already there, of the same kind, is kept.
    Kept(ViewId),
    /// A new view was made.
    Created(ViewId),
}

impl Visit {
    pub open spec fn spec_id(self) -> ViewId {
        match self {
            Visit::Kept(id) => id,
            Visit::Created(id) => id,
        }
    }

    /// The id of the view visited.
    pub fn id(&self) -> (r: ViewId)
        ensures
            r == self.spec_id(),
    {
        match self {
            Visit::Kept(id) => *id,
            Visit::Created(id) => *id,
        }
    }
}

/// `after` is `before` with a new node `id` of `kind` under `parent`, put
/// at the position visited next (in place of the child there, if any).
pub open spec fn allocated(before: Map<u64, ViewNode>, after: Map<u64, ViewNode>, parent: ViewId, id: ViewId, kind: u64) -> bool {
    let p = before[parent.0];
    let children = if p.next < p.children@.len() {
        p.children@.update(p.next as int, id)
    } else {
        p.children@.push(id)
    };
    &&& !before.contains_key(id.0)
    &&& after.dom() == before.dom().insert(id.0)
    &&& after[id.0].parent == Some(parent)
    &&& after[id.0].children@ == Seq::<ViewId>::empty()
    &&& after[id.0].next == 0
    &&& after[id.0].kind == kind
    &&& after[parent.0].children@ == children
    &&& after[parent.0].next == p.next + 1
    &&& after[parent.0].parent == p.parent
    &&& after[parent.0].kind == p.kind
    &&& forall|k: u64|
        k != id.0 && k != parent.0 && before.contains_key(k) ==> #[trigger] after[k] == before[k]
}

/// What visiting a view of `kind` under `parent` does to the tree.
///
/// When `parent` has a child at the position visited next and that child
/// is of `kind`, the child is kept and its own children will be visited
/// from the first. Otherwise a new view is made at that position; a child
/// of another kind that was there is removed first, with every view below it.
pub open spec fn visited(
    n: Map<u64, ViewNode>,
    f: Map<u64, ViewNode>,
    parent: ViewId,
    kind: u64,
    r: Visit,
    s: Seq<ViewId>,
) -> bool {
    let p = n[parent.0];
    let n1 = n.insert(parent.0, ViewNode { next: (p.next + 1) as usize, ..p });
    if p.next < p.children@.len() {
        let c = p.children@[p.next as int];
        if n[c.0].kind == kind {
            &&& r == Visit::Kept(c)
            &&& s.len() == 0
            &&& f == n1.insert(c.0, ViewNode { next: 0, ..n[c.0] })
        } else {
            &&& r is Created
            &&& s.len() > 0 && s[0] == c
            &&& exists|n2: Map<u64, ViewNode>|
                removed_view(n1, n2, c, s) && #[trigger] allocated(n2, f, parent, r.spec_id(), kind)
        }
    } else {
        &&& r is Created
        &&& s.len() == 0
        &&& allocated(n, f, parent, r.spec_id(), kind)
    }
}

impl ViewNodes {
    /// Visit a view of `kind` under `parent`: keep the view already at this
    /// position when it is of the same kind, or make a new one; then enter it.
    pub fn update_view(&mut self, parent: ViewId, kind: u64) -> (r: Visit)
        requires
            old(self).wf(),
            old(self).nodes().contains_key(parent.0),
            old(self).nodes().len() + 1 < 0xFFFF_FFFE,
            old(self).nodes()[parent.0].next < usize::MAX - 1,
        ensures
            final(self).wf(),
            final(self).stack() == old(self).stack().push(r.spec_id()),
            final(self).removed().take(old(self).removed().len() as int) == old(self).removed(),
            old(self).removed().len() <= final(self).removed().len(),
            visited(
                old(self).nodes(),
                final(self).nodes(),
                parent,
                kind,
                r,
                appended(old(self).removed(), final(self).removed()),
            ),
            final(self).spec_root() == old(self).spec_root(),
    {
        let ghost n = self.nodes();
        let ghost r0 = self.removed();
        match self.append_view(parent) {
            None => {
                let id = self.allocate_view(parent, kind);
                self.stack.push(id);
                proof {
                    assert(self.removed().take(r0.len() as int) =~= r0);
                    assert(appended(r0, self.removed()) =~= Seq::<ViewId>::empty());
                    assert(allocated(n, self.nodes(), parent, id, kind));
                    assert(visited(n, self.nodes(), parent, kind, Visit::Created(id), appended(r0, self.removed())));
                }
                Visit::Created(id)
            },
            Some(c) => {
                let ghost n1 = self.nodes();
                proof {
                    let p = n[parent.0];
                    assert(kids(n, parent.0)[p.next as int] == c);
                    assert(n.contains_key(c.0) && valid_key(c.0));
                    assert(n[c.0].parent == Some(parent));
                }
                let same = match self.get(c) {
                    Some(node) => node.kind == kind,
                    None => false,
                };
                if same {
                    self.stack.push(c);
                    match slots_get_mut(&mut self.nodes, c.0) {
                        Some(node) => {
                            node.next = 0;
                        },
                        None => {},
                    }
                    proof {
                        let f = self.nodes();
                        assert(f =~= n1.insert(c.0, ViewNode { next: 0, ..n[c.0] }));
                        assert(self.removed().take(r0.len() as int) =~= r0);
                        assert(appended(r0, self.removed()) =~= Seq::<ViewId>::empty());
                        assert(f.dom() =~= n.dom());
                        assert forall|k: u64| f.contains_key(k) implies #[trigger] kids(f, k) == kids(n, k) by {}
                        assert forall|k: u64, i: int|
                            f.contains_key(k) && 0 <= i < kids(f, k).len() implies f.contains_key(
                            (#[trigger] kids(f, k)[i]).0,
                        ) && f[kids(f, k)[i].0].parent == Some(ViewId(k)) by {
                            assert(kids(f, k) == kids(n, k));
                        }
                        assert forall|k: u64| f.contains_key(k) implies match (#[trigger] f[k]).parent {
                            Some(q) => valid_key(q.0) && q.0 != k,
                            None => true,
                        } by {
                            assert(n.contains_key(k));
                        }
                        assert forall|k: u64, i: int|
                            f.contains_key(k) && 0 <= i < kids(f, k).len() implies self.depths()[(#[trigger] kids(
                            f,
                            k,
                        )[i]).0] > self.depths()[k] by {
                            assert(kids(f, k) == kids(n, k));
                        }
                    }
                    Visit::Kept(c)
                } else {
                    proof {
                        assert(c != self.spec_root());
                    }
                    self.remove_view(c);
                    let ghost n2 = self.nodes();
                    let ghost r1 = self.removed();
                    proof {
                        let sr = appended(r0, r1);
                        assert(n1.contains_key(c.0));
                        assert(kids(n1, parent.0).contains(c)) by {
                            assert(kids(n1, parent.0)[n[parent.0].next as int] == c);
                        }
                        // the parent is not below `c`, so it survives
                        if sr.contains(parent) {
                            let j = choose|j: int| 0 <= j < sr.len() && #[trigger] sr[j] == parent;
                            lemma_listed_depth(n1, self.depths(), c, sr, j);
                            let t = choose|t: int| 0 <= t < kids(n1, parent.0).len() && #[trigger] kids(n1, parent.0)[t] == c;
                            assert(self.depths()[kids(n1, parent.0)[t].0] > self.depths()[parent.0]);
                        }
                        assert(n2.contains_key(parent.0));
                        assert(n2.dom().subset_of(n1.dom()));
                        vstd::set_lib::lemma_len_subset(n2.dom(), n1.dom());
                        assert(n1.dom() =~= n.dom());
                        assert(n2[parent.0].next == detached_next(n1[parent.0], c));
                        assert(n1[parent.0].next == n[parent.0].next + 1);
                        lemma_without_len(n1[parent.0].children@, c);
                        assert(detached_next(n1[parent.0], c) <= n1[parent.0].next);
                        assert(sr.take(1) == seq![c]);
                        assert(sr.take(1)[0] == sr[0]);
                    }
                    let id = self.allocate_view(parent, kind);
                    self.stack.push(id);
                    proof {
                        let s = appended(r0, self.removed());
                        assert(self.removed() == r1);
                        assert(s == appended(r0, r1));
                        assert(allocated(n2, self.nodes(), parent, id, kind));
                        assert(s[0] == c);
                        assert(removed_view(n1, n2, c, s));
                        assert(allocated(n2, self.nodes(), parent, Visit::Created(id).spec_id(), kind));
                        assert(visited(n, self.nodes(), parent, kind, Visit::Created(id), s));
                    }
                    Visit::Created(id)
                }
            },
        }
    }

    /// Visit a view of `kind` under the view being built.
    pub fn begin_view(&mut self, kind: u64) -> (r: Visit)
        requires
            old(self).wf(),
            old(self).nodes().contains_key(
                (if old(self).stack().len() > 0 {
                    old(self).stack().last()
                } else {
                    old(self).spec_root()
                }).0,
            ),
            old(self).nodes().len() + 1 < 0xFFFF_FFFE,
            old(self).nodes()[(if old(self).stack().len() > 0 {
                old(self).stack().last()
            } else {
                old(self).spec_root()
            }).0].next < usize::MAX - 1,
        ensures
            final(self).wf(),
            final(self).stack() == old(self).stack().push(r.spec_id()),
            final(self).removed().take(old(self).removed().len() as int) == old(self).removed(),
            old(self).removed().len() <= final(self).removed().len(),
            visited(
                old(self).nodes(),
                final(self).nodes(),
                if old(self).stack().len() > 0 {
                    old(self).stack().last()
                } else {
                    old(self).spec_root()
                },
                kind,
                r,
                appended(old(self).removed(), final(self).removed()),
            ),
            final(self).spec_root() == old(self).spec_root(),
    {
        let parent = self.current();
        self.update_view(parent, kind)
    }
}

/// Removing a view never removes the view it hangs from: everything removed
/// lies deeper than the removed view, and its parent lies above it.
pub proof fn lemma_parent_survives(
    n: Map<u64, ViewNode>,
    f: Map<u64, ViewNode>,
    depth: Map<u64, nat>,
    c: ViewId,
    parent: ViewId,
    s: Seq<ViewId>,
)
    requires
        depth_wf(n, depth),
        n.contains_key(parent.0),
        kids(n, parent.0).contains(c),
        removed_view(n, f, c, s),
    ensures
        f.contains_key(parent.0),
{
    let t = choose|t: int| 0 <= t < kids(n, parent.0).len() && #[trigger] kids(n, parent.0)[t] == c;
    assert(depth[kids(n, parent.0)[t].0] > depth[parent.0]);
    if n.contains_key(c.0) && s.contains(parent) {
        let j = choose|j: int| 0 <= j < s.len() && #[trigger] s[j] == parent;
        lemma_listed_depth(n, depth, c, s, j);
    }
}

/// Taking out a node that is not the root keeps the tree well formed, and
/// leaves the node's children in the tree, each once, hanging from nothing.
proof fn lemma_detach_wf(n: Map<u64, ViewNode>, d: Map<u64, ViewNode>, id: ViewId, root: ViewId, depth: Map<u64, nat>)
    requires
        tree_wf(n, root),
        depth_wf(n, depth),
        n.contains_key(id.0),
        id != root,
        detached(n, d, id),
    ensures
        tree_wf(d, root),
        depth_wf(d, depth),
        kids(n, id.0).no_duplicates(),
        forall|j: int| 0 <= j < kids(n, id.0).len() ==> d.contains_key((#[trigger] kids(n, id.0)[j]).0)
            && kids(n, id.0)[j] != root,
        forall|j: int, k: u64, t: int|
            0 <= j < kids(n, id.0).len() && d.contains_key(k) && 0 <= t < kids(d, k).len()
                ==> #[trigger] kids(d, k)[t] != #[trigger] kids(n, id.0)[j],
{
    assert(d.dom().subset_of(n.dom()));
    vstd::set_lib::lemma_len_subset(d.dom(), n.dom());
    // every child in `d` is a child in `n`
    assert forall|k: u64, t: int| #![trigger kids(d, k)[t]] d.contains_key(k) && 0 <= t < kids(d, k).len() implies exists|t2: int|
        0 <= t2 < kids(n, k).len() && #[trigger] kids(n, k)[t2] == kids(d, k)[t] && kids(d, k)[t]
            != id by {
        let c = kids(d, k)[t];
        if n[id.0].parent == Some(ViewId(k)) {
            assert(kids(d, k) == without(kids(n, k), id));
            assert(kids(d, k).contains(c));
            lemma_without_contains(kids(n, k), id, c);
            let t2 = choose|t2: int| 0 <= t2 < kids(n, k).len() && #[trigger] kids(n, k)[t2] == c;
        } else {
            assert(d[k] == n[k]);
            assert(kids(n, k)[t] == c);
            if c == id {
                assert(n[id.0].parent == Some(ViewId(k)));
            }
        }
    }
    assert forall|k: u64, i: int|
        d.contains_key(k) && 0 <= i < kids(d, k).len() implies d.contains_key(
        (#[trigger] kids(d, k)[i]).0,
    ) && d[kids(d, k)[i].0].parent == Some(ViewId(k)) by {
        let c = kids(d, k)[i];
        let t2 = choose|t2: int| 0 <= t2 < kids(n, k).len() && #[trigger] kids(n, k)[t2] == c && c != id;
        assert(n.contains_key(c.0) && n[c.0].parent == Some(ViewId(k)));
    }
    assert forall|k: u64| d.contains_key(k) implies (#[trigger] kids(d, k)).no_duplicates() by {
        if n[id.0].parent == Some(ViewId(k)) {
            lemma_without_no_duplicates(kids(n, k), id);
        } else {
            assert(d[k] == n[k]);
        }
    }
    assert forall|k: u64, i: int|
        d.contains_key(k) && 0 <= i < kids(d, k).len() implies depth[(#[trigger] kids(d, k)[i]).0] > depth[k] by {
        let t2 = choose|t2: int| 0 <= t2 < kids(n, k).len() && #[trigger] kids(n, k)[t2] == kids(d, k)[i]
            && kids(d, k)[i] != id;
    }
    assert forall|k: u64| d.contains_key(k) implies (#[trigger] d[k]).next <= d[k].children@.len() by {
        if n[id.0].parent == Some(ViewId(k)) {
            lemma_without_len(kids(n, k), id);
            assert(n[k].next <= kids(n, k).len());
        } else {
            assert(d[k] == n[k]);
        }
    }
    assert forall|k: u64| d.contains_key(k) implies match (#[trigger] d[k]).parent {
        Some(p) => valid_key(p.0) && p.0 != k,
        None => true,
    } by {
        assert(n.contains_key(k));
        assert(d[k].parent == n[k].parent);
    }
    assert forall|j: int| 0 <= j < kids(n, id.0).len() implies d.contains_key(
        (#[trigger] kids(n, id.0)[j]).0,
    ) && kids(n, id.0)[j] != root by {
        let c = kids(n, id.0)[j];
        assert(n[c.0].parent == Some(ViewId(id.0)));
    }
    assert forall|j: int, k: u64, t: int|
        0 <= j < kids(n, id.0).len() && d.contains_key(k) && 0 <= t < kids(d, k).len()
            implies #[trigger] kids(d, k)[t] != #[trigger] kids(n, id.0)[j] by {
        let c = kids(n, id.0)[j];
        if kids(d, k)[t] == c {
            let t2 = choose|t2: int| 0 <= t2 < kids(n, k).len() && #[trigger] kids(n, k)[t2] == kids(d, k)[t]
                && kids(d, k)[t] != id;
            assert(n[c.0].parent == Some(ViewId(k)));
            assert(n[c.0].parent == Some(ViewId(id.0)));
        }
    }
}

/// The views removed below the children of `id`, after `id`, are the
/// views removed below `id`.
/// The views removed below `id` come in breadth-first order over the tree
/// before `id` was taken out.
proof fn lemma_breadth_first_removal(
    n: Map<u64, ViewNode>,
    d: Map<u64, ViewNode>,
    id: ViewId,
    s1: Seq<ViewId>,
    depth: Map<u64, nat>,
)
    requires
        depth_wf(n, depth),
        n.contains_key(id.0),
        detached(n, d, id),
        subtrees_listed(n, seq![id], seq![id] + s1),
        s1 == kids(n, id.0) + kids_of_all(d, s1),
    ensures
        seq![id] + s1 == seq![id] + kids_of_all(n, seq![id] + s1),
{
    let s = seq![id] + s1;
    assert forall|j: int| 0 <= j < s1.len() implies kids(n, (#[trigger] s1[j]).0) == kids(d, s1[j].0) by {
        let x = s1[j];
        assert(s[j + 1] == x);
        assert(d.contains_key(x.0)) by {
            assert(n.contains_key(s[j + 1].0));
            if x == id {
                assert(s[0] == s[j + 1]);
            }
        }
        if n[id.0].parent == Some(x) {
            if kids(n, x.0).contains(id) {
                let t = choose|t: int| 0 <= t < kids(n, x.0).len() && #[trigger] kids(n, x.0)[t] == id;
                assert(depth[kids(n, x.0)[t].0] > depth[x.0]);
                lemma_listed_depth(n, depth, id, s, j + 1);
            } else {
                lemma_without_absent(kids(n, x.0), id);
            }
        }
    }
    lemma_kids_of_all_same(n, d, s1);
    lemma_kids_of_all_concat(n, seq![id], s1);
    assert(kids_of_all(n, seq![id]) =~= kids(n, id.0)) by {
        assert(seq![id].drop_last() =~= Seq::<ViewId>::empty());
        assert(kids_of_all(n, Seq::<ViewId>::empty()) == Seq::<ViewId>::empty());
        assert(seq![id].last() == id);
        assert(Seq::<ViewId>::empty() + kids(n, id.0) =~= kids(n, id.0));
    }
}

proof fn lemma_listed_with_root(
    n: Map<u64, ViewNode>,
    d: Map<u64, ViewNode>,
    id: ViewId,
    s1: Seq<ViewId>,
    f: Map<u64, ViewNode>,
    root: ViewId,
    depth: Map<u64, nat>,
)
    requires
        tree_wf(n, root),
        depth_wf(n, depth),
        n.contains_key(id.0),
        detached(n, d, id),
        subtrees_listed(d, kids(n, id.0), s1),
        s1 == kids(n, id.0) + kids_of_all(d, s1),
        without_nodes(d, f, s1),
    ensures
        removed_view(n, f, id, seq![id] + s1),
{
    let s = seq![id] + s1;
    let m = kids(n, id.0).len() as int;
    assert(s.take(1) =~= seq![id]);
    assert(!s1.contains(id)) by {
        if s1.contains(id) {
            let j = choose|j: int| 0 <= j < s1.len() && #[trigger] s1[j] == id;
            assert(d.contains_key(s1[j].0));
        }
    }
    assert(s.no_duplicates()) by {
        assert forall|a: int, b: int| 0 <= a < b < s.len() implies s[a] != s[b] by {
            if a == 0 {
                assert(s[b] == s1[b - 1]);
            } else {
                assert(s[a] == s1[a - 1] && s[b] == s1[b - 1]);
            }
        }
    }
    assert forall|j: int| 0 <= j < s.len() implies n.contains_key((#[trigger] s[j]).0) by {
        if j > 0 {
            assert(s[j] == s1[j - 1]);
            assert(d.contains_key(s1[j - 1].0));
        }
    }
    assert forall|i: int, t: int| 0 <= i < s.len() && 0 <= t < kids(n, s[i].0).len() implies s.contains(
        #[trigger] kids(n, s[i].0)[t],
    ) by {
        let c = kids(n, s[i].0)[t];
        if i == 0 {
            assert(s1.take(m)[t] == c);
            assert(s[t + 1] == c);
        } else {
            let x = s1[i - 1];
            assert(s[i] == x);
            assert(d.contains_key(x.0));
            if c == id {
                assert(s[0] == id);
            } else {
                if n[id.0].parent == Some(ViewId(x.0)) {
                    lemma_without_contains(kids(n, x.0), id, c);
                    assert(kids(d, x.0).contains(c));
                    let t2 = choose|t2: int| 0 <= t2 < kids(d, x.0).len() && #[trigger] kids(d, x.0)[t2] == c;
                    assert(s1.contains(kids(d, s1[i - 1].0)[t2]));
                } else {
                    assert(d[x.0] == n[x.0]);
                    assert(s1.contains(kids(d, s1[i - 1].0)[t]));
                }
                let j = choose|j: int| 0 <= j < s1.len() && #[trigger] s1[j] == c;
                assert(s[j + 1] == c);
            }
        }
    }
    assert forall|j: int| 1 <= j < s.len() implies exists|i: int|
        0 <= i < j && n[(#[trigger] s[j]).0].parent == Some(s[i]) && kids(n, s[i].0).contains(s[j]) by {
        let c = s1[j - 1];
        assert(s[j] == c);
        if j - 1 < m {
            assert(s1.take(m)[j - 1] == c);
            assert(kids(n, id.0)[j - 1] == c);
            assert(n[c.0].parent == Some(ViewId(id.0)));
            assert(s[0] == id);
            assert(kids(n, s[0].0).contains(c));
        } else {
            let i = choose|i: int| 0 <= i < j - 1 && d[(#[trigger] s1[j - 1]).0].parent == Some(s1[i])
                && kids(d, s1[i].0).contains(s1[j - 1]);
            assert(d.contains_key(c.0));
            assert(d[c.0].parent == n[c.0].parent);
            assert(s[i + 1] == s1[i]);
            let x = s1[i];
            assert(d.contains_key(x.0));
            if n[id.0].parent == Some(ViewId(x.0)) {
                lemma_without_contains(kids(n, x.0), id, c);
            } else {
                assert(d[x.0] == n[x.0]);
            }
            assert(kids(n, s[i + 1].0).contains(c));
        }
    }
    assert forall|k: u64| f.contains_key(k) <==> n.contains_key(k) && !s.contains(ViewId(k)) by {
        if s.contains(ViewId(k)) && ViewId(k) != id {
            let j = choose|j: int| 0 <= j < s.len() && #[trigger] s[j] == ViewId(k);
            assert(s1[j - 1] == ViewId(k));
        }
        if s1.contains(ViewId(k)) {
            let j = choose|j: int| 0 <= j < s1.len() && #[trigger] s1[j] == ViewId(k);
            assert(s[j + 1] == ViewId(k));
        }
        if ViewId(k) == id {
            assert(s[0] == id);
        }
    }
    assert(subtrees_listed(n, seq![id], s));
    lemma_breadth_first_removal(n, d, id, s1, depth);
}

} // verus!
