//! A snapshot of the view tree for debugging, and the ways it is printed.
use vstd::prelude::*;
use std::collections::HashMap;
use slotmap::KeyData;
use crate::geom::Rect;
use crate::helpers::{short_from, short_name, str_chars, string_from_chars};
use crate::input::ViewId;
use crate::interest::Interest;
use crate::layout::{Layer, LayoutNode, LayoutNodes};
use crate::view_nodes::{kids, ViewNode, ViewNodes};

verus! {

/// How a view flexes, as the debug tree shows it, with its factor already
/// written out.
#[derive(Debug)]
pub enum FlexLabel {
    /// A factor of zero: the view does not flex.
    Rigid,
    /// Flexes and fills the space it is given; the factor as text.
    Tight(String),
    /// Flexes but may stay smaller than the space it is given; the factor as text.
    Loose(String),
}

impl FlexLabel {
    /// An equal label.
    pub fn duplicate(&self) -> (r: FlexLabel)
        ensures
            r == *self,
    {
        match self {
            FlexLabel::Rigid => FlexLabel::Rigid,
            FlexLabel::Tight(s) => FlexLabel::Tight(s.clone()),
            FlexLabel::Loose(s) => FlexLabel::Loose(s.clone()),
        }
    }
}

/// What the debug tree shows of a view beyond its place in the tree: the
/// name of its kind, its `Debug` text, how it flexes and its interests.
#[derive(Debug)]
pub struct ViewInfo {
    pub kind_name: String,
    pub debug_text: String,
    pub flex: FlexLabel,
    pub interest: Interest,
}

/// The layout of a node in the snapshot, if the view was laid out.
#[derive(Debug)]
pub enum InnerNode {
    FoundNode { rect: Rect, flex: FlexLabel, layer: Layer, interactive: bool, interest: Interest },
    MissingLayout,
}

/// A node of the snapshot: the view's id, the short name of its type, the
/// lines of its `Debug` text, its children and its layout.
#[derive(Debug)]
pub struct DebugNode {
    pub id: ViewId,
    pub name: String,
    pub debug: Vec<String>,
    pub children: Vec<DebugNode>,
    pub inner: InnerNode,
}

/// The pieces of `s` between the occurrences of `sep`, as `str::split` gives
/// them: one more piece than there are separators.
pub open spec fn split_at_char(s: Seq<char>, sep: char) -> Seq<Seq<char>>
    decreases s.len(),
{
    if s.len() == 0 {
        seq![Seq::<char>::empty()]
    } else {
        let p = split_at_char(s.drop_last(), sep);
        if s.last() == sep {
            p.push(Seq::<char>::empty())
        } else {
            p.update(p.len() - 1, p.last().push(s.last()))
        }
    }
}

pub proof fn lemma_split_nonempty(s: Seq<char>, sep: char)
    ensures
        split_at_char(s, sep).len() >= 1,
    decreases s.len(),
{
    if s.len() > 0 {
        lemma_split_nonempty(s.drop_last(), sep);
    }
}

/// The texts of some strings.
pub open spec fn texts(v: Seq<String>) -> Seq<Seq<char>> {
    v.map_values(|t: String| t@)
}

/// The lines of `text`, split at each `'\n'`.
pub fn split_lines(text: &str) -> (r: Vec<String>)
    ensures
        texts(r@) == split_at_char(text@, '\n'),
{
    let chars = str_chars(text);
    let mut done: Vec<String> = Vec::new();
    let mut cur: Vec<char> = Vec::new();
    let mut i: usize = 0;
    assert(chars@.take(0) =~= Seq::<char>::empty());
    assert(texts(done@).push(cur@) =~= seq![Seq::<char>::empty()]);
    while i < chars.len()
        invariant
            i <= chars@.len(),
            chars@ == text@,
            texts(done@).push(cur@) == split_at_char(chars@.take(i as int), '\n'),
        decreases chars@.len() - i,
    {
        let c = chars[i];
        let ghost before = texts(done@).push(cur@);
        proof {
            assert(chars@.take(i + 1).drop_last() =~= chars@.take(i as int));
            assert(chars@.take(i + 1).last() == c);
        }
        if c == '\n' {
            let line = string_from_chars(cur.as_slice());
            done.push(line);
            cur = Vec::new();
            assert(texts(done@).push(cur@) =~= before.push(Seq::<char>::empty()));
        } else {
            let ghost old_cur = cur@;
            cur.push(c);
            assert(texts(done@).push(cur@) =~= before.update(before.len() - 1, old_cur.push(c)));
        }
        i += 1;
    }
    assert(chars@.take(i as int) =~= chars@);
    let line = string_from_chars(cur.as_slice());
    done.push(line);
    assert(texts(done@) =~= split_at_char(text@, '\n'));
    done
}

/// The layout the snapshot records for `id`.
pub open spec fn inner_of(id: ViewId, layout: Map<u64, LayoutNode>, info: ViewInfo) -> InnerNode {
    if layout.contains_key(id.0) {
        InnerNode::FoundNode {
            rect: layout[id.0].rect,
            flex: info.flex,
            layer: layout[id.0].layer,
            interactive: layout[id.0].interactive,
            interest: info.interest,
        }
    } else {
        InnerNode::MissingLayout
    }
}

/// `d` is the snapshot of the subtree of `id`: its name and lines come from
/// the view's info, its layout from `layout`, and its children, in order,
/// are the snapshots of the view's children.
pub open spec fn describes(
    d: DebugNode,
    id: ViewId,
    nodes: Map<u64, ViewNode>,
    layout: Map<u64, LayoutNode>,
    views: Map<u64, ViewInfo>,
) -> bool
    decreases d,
{
    &&& d.id == id
    &&& d.name@ == short_from(views[id.0].kind_name@, 0)
    &&& texts(d.debug@) == split_at_char(views[id.0].debug_text@, '\n')
    &&& d.inner == inner_of(id, layout, views[id.0])
    &&& d.children@.len() == kids(nodes, id.0).len()
    &&& forall|i: int|
        0 <= i < d.children@.len() ==> describes(
            #[trigger] d.children@[i],
            kids(nodes, id.0)[i],
            nodes,
            layout,
            views,
        )
}

/// Some depth is at least that of every node.
proof fn lemma_depth_bound(dom: Set<u64>, depth: Map<u64, nat>) -> (b: nat)
    requires
        dom.finite(),
    ensures
        forall|k: u64| dom.contains(k) ==> depth[k] <= b,
    decreases dom.len(),
{
    if dom.len() == 0 {
        assert(dom =~= Set::<u64>::empty());
        0
    } else {
        let k = dom.choose();
        let b = lemma_depth_bound(dom.remove(k), depth);
        if depth[k] > b {
            depth[k]
        } else {
            b
        }
    }
}

impl DebugNode {
    /// The snapshot of the subtree of `id`.
    fn build(
        id: ViewId,
        nodes: &ViewNodes,
        layout: &LayoutNodes,
        views: &HashMap<u64, ViewInfo>,
        Ghost(bound): Ghost<nat>,
    ) -> (d: DebugNode)
        requires
            nodes.wf(),
            nodes.nodes().contains_key(id.0),
            forall|k: u64| nodes.nodes().contains_key(k) ==> views@.contains_key(k),
            forall|k: u64| nodes.nodes().contains_key(k) ==> nodes.depths()[k] <= bound,
        ensures
            describes(d, id, nodes.nodes(), layout.nodes(), views@),
        decreases bound - nodes.depths()[id.0],
    {
        let ghost n = nodes.nodes();
        let node = nodes.get(id).unwrap();
        let mut children: Vec<DebugNode> = Vec::new();
        let mut i: usize = 0;
        while i < node.children.len()
            invariant
                nodes.wf(),
                n == nodes.nodes(),
                *node == n[id.0],
                n.contains_key(id.0),
                forall|k: u64| n.contains_key(k) ==> views@.contains_key(k),
                forall|k: u64| n.contains_key(k) ==> nodes.depths()[k] <= bound,
                i <= node.children@.len(),
                children@.len() == i,
                forall|j: int|
                    0 <= j < i ==> describes(#[trigger] children@[j], kids(n, id.0)[j], n, layout.nodes(), views@),
            decreases node.children@.len() - i,
        {
            let c = node.children[i];
            assert(kids(n, id.0)[i as int] == c);
            assert(n.contains_key(c.0));
            assert(nodes.depths()[c.0] > nodes.depths()[id.0]);
            let d = DebugNode::build(c, nodes, layout, views, Ghost(bound));
            children.push(d);
            i += 1;
        }
        let info = views.get(&id.0).unwrap();
        let inner = match layout.get(id) {
            Some(l) => InnerNode::FoundNode {
                rect: l.rect,
                flex: info.flex.duplicate(),
                layer: l.layer,
                interactive: l.interactive,
                interest: info.interest,
            },
            None => InnerNode::MissingLayout,
        };
        DebugNode {
            id,
            name: short_name(info.kind_name.as_str()),
            debug: split_lines(info.debug_text.as_str()),
            children,
            inner,
        }
    }

    /// The snapshot of the tree below `root`; the root itself must have been
    /// laid out, and is shown as not interactive.
    pub fn new(root: ViewId, nodes: &ViewNodes, layout: &LayoutNodes, views: &HashMap<u64, ViewInfo>) -> (r:
        DebugNode)
        requires
            nodes.wf(),
            nodes.nodes().contains_key(root.0),
            layout.nodes().contains_key(root.0),
            forall|k: u64| nodes.nodes().contains_key(k) ==> views@.contains_key(k),
        ensures
            r.id == root,
            r.name@ == short_from(views@[root.0].kind_name@, 0),
            texts(r.debug@) == split_at_char(views@[root.0].debug_text@, '\n'),
            r.inner == (InnerNode::FoundNode {
                rect: layout.nodes()[root.0].rect,
                flex: views@[root.0].flex,
                layer: layout.nodes()[root.0].layer,
                interactive: false,
                interest: views@[root.0].interest,
            }),
            r.children@.len() == kids(nodes.nodes(), root.0).len(),
            forall|i: int|
                0 <= i < r.children@.len() ==> describes(
                    #[trigger] r.children@[i],
                    kids(nodes.nodes(), root.0)[i],
                    nodes.nodes(),
                    layout.nodes(),
                    views@,
                ),
    {
        let ghost bound = lemma_depth_bound(nodes.nodes().dom(), nodes.depths());
        let d = DebugNode::build(root, nodes, layout, views, Ghost(bound));
        let DebugNode { id, name, debug, children, inner } = d;
        let inner = match inner {
            InnerNode::FoundNode { rect, flex, layer, interactive: _, interest } => InnerNode::FoundNode {
                rect,
                flex,
                layer,
                interactive: false,
                interest,
            },
            InnerNode::MissingLayout => {
                proof {
                    assert(false);
                }
                InnerNode::MissingLayout
            },
        };
        DebugNode { id, name, debug, children, inner }
    }
}

/// The decimal digit `d`.
pub open spec fn digit(d: nat) -> char {
    (48 + d) as char
}

/// `n` written in decimal, without leading zeros.
pub open spec fn decimal(n: nat) -> Seq<char>
    decreases n,
{
    if n < 10 {
        seq![digit(n)]
    } else {
        decimal(n / 10).push(digit(n % 10))
    }
}

/// How slotmap prints the key numbered `id`: `null` for the null key,
/// otherwise its slot index, `v`, and its version (made odd).
pub open spec fn key_text(id: u64) -> Seq<char> {
    let idx: int = id as int % 0x1_0000_0000;
    let version: int = id as int / 0x1_0000_0000;
    let odd = if version % 2 == 0 {
        version + 1
    } else {
        version
    };
    if idx == 0xFFFF_FFFF {
        "null"@
    } else {
        decimal(idx as nat) + "v"@ + decimal(odd as nat)
    }
}

/// `Debug` of `KeyData::from_ffi(id)` (slotmap): the key's slot index and
/// version as `{idx}v{version}`, or `null` for the null key; `from_ffi`
/// takes the index from the low half and makes the version odd.
#[verifier::external_body]
pub(crate) fn view_id_text(id: ViewId) -> (r: String)
    ensures
        r@ == key_text(id.0),
{
    format!("{:?}", KeyData::from_ffi(id.0))
}

/// A node's line in the compact tree: its name and its id.
pub open spec fn compact_label(d: DebugNode) -> Seq<char> {
    d.name@ + "("@ + key_text(d.id.0) + ")"@
}

pub open spec fn connector(last: bool) -> Seq<char> {
    if last {
        "└─ "@
    } else {
        "├─ "@
    }
}

pub open spec fn indent(last: bool) -> Seq<char> {
    if last {
        "   "@
    } else {
        "│  "@
    }
}

/// The lines of the compact tree for `children[i..]`, each after `prefix`.
pub open spec fn compact_rows(children: Seq<DebugNode>, prefix: Seq<char>, i: int) -> Seq<char>
    decreases children, children.len() - i,
{
    if i < 0 || i >= children.len() {
        Seq::empty()
    } else {
        let last = i == children.len() - 1;
        let c = children[i];
        proof {
            assert(decreases_to!(children => children[i]));
            assert(decreases_to!(children[i] => children[i].children));
            assert(decreases_to!(children[i].children => children[i].children@));
        }
        prefix + connector(last) + compact_label(c) + "\n"@ + compact_rows(
            c.children@,
            prefix + indent(last),
            0,
        ) + compact_rows(children, prefix, i + 1)
    }
}

/// The compact tree: the root's line, then one line per descendant, drawn
/// with box characters.
pub open spec fn compact_text(d: DebugNode) -> Seq<char> {
    compact_label(d) + "\n"@ + compact_rows(d.children@, Seq::empty(), 0)
}

fn push_chars(out: &mut Vec<char>, s: &Vec<char>)
    ensures
        final(out)@ == old(out)@ + s@,
{
    let mut i: usize = 0;
    while i < s.len()
        invariant
            i <= s@.len(),
            out@ == old(out)@ + s@.take(i as int),
        decreases s@.len() - i,
    {
        out.push(s[i]);
        i += 1;
        assert(s@.take(i as int) =~= s@.take(i - 1).push(s@[i - 1]));
    }
    assert(s@.take(i as int) =~= s@);
}

fn push_str(out: &mut Vec<char>, s: &str)
    ensures
        final(out)@ == old(out)@ + s@,
{
    let v = str_chars(s);
    push_chars(out, &v);
}

fn push_label(out: &mut Vec<char>, d: &DebugNode)
    ensures
        final(out)@ == old(out)@ + compact_label(*d),
{
    let ghost start = out@;
    push_str(out, d.name.as_str());
    push_str(out, "(");
    let id = view_id_text(d.id);
    push_str(out, id.as_str());
    push_str(out, ")");
    assert(out@ =~= start + compact_label(*d));
}

fn print_rows(children: &Vec<DebugNode>, prefix: &Vec<char>, i: usize, out: &mut Vec<char>)
    requires
        i <= children@.len(),
    ensures
        final(out)@ == old(out)@ + compact_rows(children@, prefix@, i as int),
    decreases children@, children@.len() - i,
{
    if i < children.len() {
        let ghost start = out@;
        let last = i == children.len() - 1;
        let c = &children[i];
        push_chars(out, prefix);
        if last {
            push_str(out, "└─ ");
        } else {
            push_str(out, "├─ ");
        }
        push_label(out, c);
        push_str(out, "\n");
        let mut inner: Vec<char> = Vec::new();
        push_chars(&mut inner, prefix);
        if last {
            push_str(&mut inner, "   ");
        } else {
            push_str(&mut inner, "│  ");
        }
        let ghost mid = out@;
        proof {
            assert(decreases_to!(children@ => children@[i as int]));
            assert(decreases_to!(children@[i as int] => children@[i as int].children));
            assert(decreases_to!(children@[i as int].children => children@[i as int].children@));
        }
        print_rows(&c.children, &inner, 0, out);
        print_rows(children, prefix, i + 1, out);
        assert(out@ =~= start + compact_rows(children@, prefix@, i as int));
    }
}

/// The compact tree of `node`.
pub fn render_compact_tree(node: &DebugNode) -> (r: String)
    ensures
        r@ == compact_text(*node),
{
    let mut out: Vec<char> = Vec::new();
    push_label(&mut out, node);
    push_str(&mut out, "\n");
    let prefix: Vec<char> = Vec::new();
    print_rows(&node.children, &prefix, 0, &mut out);
    assert(out@ =~= compact_text(*node));
    string_from_chars(out.as_slice())
}

impl DebugNode {
    /// The compact tree of this snapshot.
    pub fn compact_tree(&self) -> (r: String)
        ensures
            r@ == compact_text(*self),
    {
        render_compact_tree(self)
    }
}

} // verus!
