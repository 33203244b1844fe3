//! The pretty tree: each view of a snapshot drawn as a box of labels, with
//! its children drawn below it and joined to it by lines.
use vstd::prelude::*;
use crate::debug_tree::{
    decimal, key_text, split_at_char, split_lines, texts, view_id_text, DebugNode, FlexLabel, InnerNode,
};
use crate::helpers::{str_chars, string_from_chars};
use crate::interest::{interest_names, Interest};
use crate::geom::fits_i32;
use crate::layout::Layer;
use crate::text::{byte_offset, char_utf8_len, chars_to_byte_idx, display_width, str_width};

verus! {

/// Where a label sits within its box.
#[derive(Copy, Clone, Debug, PartialEq, Eq, Structural)]
pub enum Align {
    Min,
    Center,
    Max,
}

/// One row of a box in the pretty tree.
#[derive(Debug)]
pub enum DebugLabel {
    /// A double line under the box's title.
    Header,
    /// A dashed line.
    Separator,
    /// A text at the left and another at the right.
    Split { min: String, max: String },
    /// A text placed by `align`.
    Label { align: Align, text: String },
}

/// A row of a box, by the texts it holds.
pub enum LabelView {
    Header,
    Separator,
    Split(Seq<char>, Seq<char>),
    Label(Align, Seq<char>),
}

impl DebugLabel {
    pub open spec fn view(&self) -> LabelView {
        match self {
            DebugLabel::Header => LabelView::Header,
            DebugLabel::Separator => LabelView::Separator,
            DebugLabel::Split { min, max } => LabelView::Split(min@, max@),
            DebugLabel::Label { align, text } => LabelView::Label(*align, text@),
        }
    }
}

/// The rows of some labels.
pub open spec fn label_views(v: Seq<DebugLabel>) -> Seq<LabelView> {
    v.map_values(|l: DebugLabel| l.view())
}

/// `v` in decimal, with a `-` in front when negative.
pub open spec fn signed_decimal(v: int) -> Seq<char> {
    if v < 0 {
        "-"@ + decimal((-v) as nat)
    } else {
        decimal(v as nat)
    }
}

/// `Display` of an integer (std): its decimal digits, with a `-` in front
/// when it is negative.
#[verifier::external_body]
fn int_text(v: i128) -> (r: String)
    ensures
        r@ == signed_decimal(v as int),
{
    format!("{}", v)
}

/// Splitting at `" | "` from the left, after reading `s`: the pieces found
/// so far and the piece being read.
pub open spec fn bar_state(s: Seq<char>) -> (Seq<Seq<char>>, Seq<char>)
    decreases s.len(),
{
    if s.len() == 0 {
        (Seq::empty(), Seq::empty())
    } else {
        let (done, cur) = bar_state(s.drop_last());
        let c = s.last();
        if c == ' ' && cur.len() >= 2 && cur[cur.len() - 1] == '|' && cur[cur.len() - 2] == ' ' {
            (done.push(cur.take(cur.len() - 2)), Seq::empty())
        } else {
            (done, cur.push(c))
        }
    }
}

/// The pieces of `s` between the occurrences of `" | "`, as `str::split`
/// finds them, from the left and without overlap.
pub open spec fn split_at_bar(s: Seq<char>) -> Seq<Seq<char>> {
    bar_state(s).0.push(bar_state(s).1)
}

/// The names in the `Debug` text of some interests, one per flag.
pub open spec fn interest_labels(bits: u8) -> Seq<Seq<char>> {
    split_at_bar(interest_names(bits))
}

/// The pieces of `text` between the occurrences of `" | "`.
fn split_bars(text: &str) -> (r: Vec<String>)
    ensures
        texts(r@) == split_at_bar(text@),
{
    let chars = str_chars(text);
    let mut done: Vec<String> = Vec::new();
    let mut cur: Vec<char> = Vec::new();
    let mut i: usize = 0;
    assert(chars@.take(0) =~= Seq::<char>::empty());
    while i < chars.len()
        invariant
            i <= chars@.len(),
            chars@ == text@,
            (texts(done@), cur@) == bar_state(chars@.take(i as int)),
        decreases chars@.len() - i,
    {
        let c = chars[i];
        proof {
            let s = chars@.take(i + 1);
            assert(s.drop_last() =~= chars@.take(i as int));
            assert(s.last() == c);
        }
        let n = cur.len();
        if c == ' ' && n >= 2 && cur[n - 1] == '|' && cur[n - 2] == ' ' {
            let ghost d0 = texts(done@);
            cur.truncate(n - 2);
            let line = string_from_chars(cur.as_slice());
            done.push(line);
            cur = Vec::new();
            assert(texts(done@) =~= d0.push(line@));
        } else {
            cur.push(c);
        }
        i += 1;
    }
    assert(chars@.take(i as int) =~= chars@);
    let line = string_from_chars(cur.as_slice());
    let ghost d0 = texts(done@);
    done.push(line);
    assert(texts(done@) =~= d0.push(line@));
    done
}

/// The name of a layer.
pub open spec fn layer_name(l: Layer) -> Seq<char> {
    match l {
        Layer::Bottom => "Bottom"@,
        Layer::Middle => "Middle"@,
        Layer::Top => "Top"@,
        Layer::Debug => "Debug"@,
    }
}

/// The rows that show how a view flexes: none when it does not.
pub open spec fn flex_labels(f: FlexLabel) -> Seq<LabelView> {
    match f {
        FlexLabel::Rigid => Seq::empty(),
        FlexLabel::Tight(t) => seq![LabelView::Split("Flex:"@, t@), LabelView::Split("Fit:"@, "Tight"@), LabelView::Separator],
        FlexLabel::Loose(t) => seq![LabelView::Split("Flex:"@, t@), LabelView::Split("Fit:"@, "Loose"@), LabelView::Separator],
    }
}

/// The rows that show a layout: the rectangle's corner and size, the layer,
/// whether the view is interactive, its interests and how it flexes. `None`
/// when the rectangle's width or height does not fit in `i32`.
pub open spec fn layout_labels(inner: InnerNode) -> Option<Seq<LabelView>> {
    match inner {
        InnerNode::FoundNode { rect, flex, layer, interactive, interest } => {
            let w = rect.max.x - rect.min.x;
            let h = rect.max.y - rect.min.y;
            if !fits_i32(w) || !fits_i32(h) {
                None
            } else {
                Some(
                    seq![
                        LabelView::Split("x: "@ + signed_decimal(rect.min.x as int), "w: "@ + signed_decimal(w)),
                        LabelView::Split("y: "@ + signed_decimal(rect.min.y as int), "h: "@ + signed_decimal(h)),
                        LabelView::Separator,
                        LabelView::Split("Layer"@, layer_name(layer)),
                        LabelView::Separator,
                        LabelView::Split("Interactive"@, if interactive { "true"@ } else { "false"@ }),
                        LabelView::Separator,
                    ] + (if interest.0 != 0 {
                        interest_labels(interest.0).map_values(|t: Seq<char>| LabelView::Label(Align::Center, t)).push(
                            LabelView::Separator,
                        )
                    } else {
                        Seq::empty()
                    }) + flex_labels(flex),
                )
            }
        },
        InnerNode::MissingLayout => Some(
            seq![LabelView::Label(Align::Center, "!! Node not used in layout !!"@), LabelView::Header],
        ),
    }
}

/// The rows of the box of `d`: its id and name, its layout, the lines of
/// its `Debug` text and, with more than one child, how many it has.
pub open spec fn labels_of(d: DebugNode) -> Option<Seq<LabelView>> {
    match layout_labels(d.inner) {
        None => None,
        Some(body) => Some(
            seq![LabelView::Split(key_text(d.id.0), d.name@), LabelView::Header] + body + texts(d.debug@).map_values(
                |t: Seq<char>| LabelView::Label(Align::Min, t),
            ) + if d.children@.len() > 1 {
                seq![LabelView::Separator, LabelView::Split("Children"@, decimal(d.children@.len()))]
            } else {
                Seq::empty()
            },
        ),
    }
}

fn text_of(a: &str, b: &str) -> (r: String)
    ensures
        r@ == a@ + b@,
{
    let mut s = a.to_owned();
    s.append(b);
    s
}

fn push_label(v: &mut Vec<DebugLabel>, l: DebugLabel)
    ensures
        label_views(final(v)@) == label_views(old(v)@).push(l.view()),
{
    v.push(l);
    assert(label_views(v@) =~= label_views(old(v)@).push(l.view()));
}

fn append_labels(v: &mut Vec<DebugLabel>, more: Vec<DebugLabel>)
    ensures
        label_views(final(v)@) == label_views(old(v)@) + label_views(more@),
{
    let mut more = more;
    let ghost m = more@;
    v.append(&mut more);
    assert(label_views(v@) =~= label_views(old(v)@) + label_views(m));
}

/// The rows for the interests, one per name, then a separator; none when
/// there are no interests.
fn interest_rows(interest: Interest) -> (r: Vec<DebugLabel>)
    ensures
        label_views(r@) == (if interest.0 != 0 {
            interest_labels(interest.0).map_values(|t: Seq<char>| LabelView::Label(Align::Center, t)).push(
                LabelView::Separator,
            )
        } else {
            Seq::empty()
        }),
{
    let mut labels: Vec<DebugLabel> = Vec::new();
    if !interest.is_none() {
        let names = split_bars(interest.debug_string().as_str());
        let mut i: usize = 0;
        while i < names.len()
            invariant
                i <= names@.len(),
                texts(names@) == interest_labels(interest.0),
                label_views(labels@) == texts(names@).take(i as int).map_values(
                    |t: Seq<char>| LabelView::Label(Align::Center, t),
                ),
            decreases names@.len() - i,
        {
            push_label(&mut labels, DebugLabel::Label { align: Align::Center, text: names[i].clone() });
            i += 1;
            assert(texts(names@).take(i as int) =~= texts(names@).take(i - 1).push(names@[i - 1]@));
            assert(label_views(labels@) =~= texts(names@).take(i as int).map_values(
                |t: Seq<char>| LabelView::Label(Align::Center, t),
            ));
        }
        assert(texts(names@).take(i as int) =~= texts(names@));
        push_label(&mut labels, DebugLabel::Separator);
    } else {
        assert(label_views(labels@) =~= Seq::<LabelView>::empty());
    }
    labels
}

fn flex_rows(flex: &FlexLabel) -> (r: Vec<DebugLabel>)
    ensures
        label_views(r@) == flex_labels(*flex),
{
    let mut labels: Vec<DebugLabel> = Vec::new();
    match flex {
        FlexLabel::Rigid => {},
        FlexLabel::Tight(t) => {
            push_label(&mut labels, DebugLabel::Split { min: "Flex:".to_owned(), max: t.clone() });
            push_label(&mut labels, DebugLabel::Split { min: "Fit:".to_owned(), max: "Tight".to_owned() });
            push_label(&mut labels, DebugLabel::Separator);
        },
        FlexLabel::Loose(t) => {
            push_label(&mut labels, DebugLabel::Split { min: "Flex:".to_owned(), max: t.clone() });
            push_label(&mut labels, DebugLabel::Split { min: "Fit:".to_owned(), max: "Loose".to_owned() });
            push_label(&mut labels, DebugLabel::Separator);
        },
    }
    assert(label_views(labels@) =~= flex_labels(*flex));
    labels
}

/// The rows that show a layout; `None` when the rectangle's width or
/// height does not fit in `i32`.
fn layout_rows(inner: &InnerNode) -> (r: Option<Vec<DebugLabel>>)
    ensures
        match r {
            Some(v) => layout_labels(*inner) == Some(label_views(v@)),
            None => layout_labels(*inner) is None,
        },
{
    let mut labels: Vec<DebugLabel> = Vec::new();
    match inner {
        InnerNode::FoundNode { rect, flex, layer, interactive, interest } => {
            let w = rect.max.x as i64 - rect.min.x as i64;
            let h = rect.max.y as i64 - rect.min.y as i64;
            if w < i32::MIN as i64 || w > i32::MAX as i64 || h < i32::MIN as i64 || h > i32::MAX as i64 {
                return None;
            }
            let x = int_text(rect.min.x as i128);
            let wt = int_text(w as i128);
            push_label(&mut labels, DebugLabel::Split { min: text_of("x: ", x.as_str()), max: text_of("w: ", wt.as_str()) });
            let y = int_text(rect.min.y as i128);
            let ht = int_text(h as i128);
            push_label(&mut labels, DebugLabel::Split { min: text_of("y: ", y.as_str()), max: text_of("h: ", ht.as_str()) });
            push_label(&mut labels, DebugLabel::Separator);
            let name = match layer {
                Layer::Bottom => "Bottom",
                Layer::Middle => "Middle",
                Layer::Top => "Top",
                Layer::Debug => "Debug",
            };
            push_label(&mut labels, DebugLabel::Split { min: "Layer".to_owned(), max: name.to_owned() });
            push_label(&mut labels, DebugLabel::Separator);
            let yes = if *interactive {
                "true"
            } else {
                "false"
            };
            push_label(&mut labels, DebugLabel::Split { min: "Interactive".to_owned(), max: yes.to_owned() });
            push_label(&mut labels, DebugLabel::Separator);
            let ghost fixed = label_views(labels@);
            append_labels(&mut labels, interest_rows(*interest));
            append_labels(&mut labels, flex_rows(flex));
            assert(label_views(labels@) =~= layout_labels(*inner)->0);
        },
        InnerNode::MissingLayout => {
            push_label(&mut labels, DebugLabel::Label { align: Align::Center, text: "!! Node not used in layout !!".to_owned() });
            push_label(&mut labels, DebugLabel::Header);
            assert(label_views(labels@) =~= layout_labels(*inner)->0);
        },
    }
    Some(labels)
}

/// The rows of the box of `node`; `None` when its width or height does not
/// fit in `i32`.
fn build_labels(node: &DebugNode) -> (r: Option<Vec<DebugLabel>>)
    ensures
        match r {
            Some(v) => labels_of(*node) == Some(label_views(v@)),
            None => labels_of(*node) is None,
        },
{
    let mut labels: Vec<DebugLabel> = Vec::new();
    let id = view_id_text(node.id);
    push_label(&mut labels, DebugLabel::Split { min: id, max: node.name.clone() });
    push_label(&mut labels, DebugLabel::Header);
    let ghost head = label_views(labels@);
    let body = match layout_rows(&node.inner) {
        Some(b) => b,
        None => {
            return None;
        },
    };
    let ghost bv = label_views(body@);
    append_labels(&mut labels, body);
    assert(label_views(labels@) == head + bv);
    let ghost mid = label_views(labels@);
    let mut i: usize = 0;
    while i < node.debug.len()
        invariant
            i <= node.debug@.len(),
            label_views(labels@) == mid + texts(node.debug@).take(i as int).map_values(
                |t: Seq<char>| LabelView::Label(Align::Min, t),
            ),
        decreases node.debug@.len() - i,
    {
        push_label(&mut labels, DebugLabel::Label { align: Align::Min, text: node.debug[i].clone() });
        i += 1;
        assert(texts(node.debug@).take(i as int) =~= texts(node.debug@).take(i - 1).push(node.debug@[i - 1]@));
        assert(label_views(labels@) =~= mid + texts(node.debug@).take(i as int).map_values(
            |t: Seq<char>| LabelView::Label(Align::Min, t),
        ));
    }
    assert(texts(node.debug@).take(i as int) =~= texts(node.debug@));
    let ghost rows = label_views(labels@);
    if node.children.len() > 1 {
        push_label(&mut labels, DebugLabel::Separator);
        let count = int_text(node.children.len() as i128);
        push_label(&mut labels, DebugLabel::Split { min: "Children".to_owned(), max: count });
        assert(label_views(labels@) =~= rows + seq![
            LabelView::Separator,
            LabelView::Split("Children"@, decimal(node.children@.len())),
        ]);
    } else {
        assert(label_views(labels@) =~= rows + Seq::<LabelView>::empty());
    }
    assert(label_views(labels@) =~= labels_of(*node)->0);
    Some(labels)
}

/// A label with a text on several lines becomes one label per line.
pub open spec fn split_label(l: LabelView) -> Seq<LabelView> {
    match l {
        LabelView::Label(a, t) => split_at_char(t, '\n').map_values(|line: Seq<char>| LabelView::Label(a, line)),
        _ => seq![l],
    }
}

/// Every label split into its lines, in order.
pub open spec fn split_all(ls: Seq<LabelView>) -> Seq<LabelView>
    decreases ls.len(),
{
    if ls.len() == 0 {
        Seq::empty()
    } else {
        split_all(ls.drop_last()) + split_label(ls.last())
    }
}

/// The width a label needs.
pub open spec fn label_len(l: LabelView) -> int {
    match l {
        LabelView::Header => 0,
        LabelView::Separator => 0,
        LabelView::Split(a, b) => (display_width(a) + display_width(b) + 1) as int,
        LabelView::Label(_, t) => display_width(t) as int,
    }
}

/// The labels one after the other, each split into its lines.
fn split_labels(labels: &Vec<DebugLabel>) -> (r: Vec<DebugLabel>)
    ensures
        label_views(r@) == split_all(label_views(labels@)),
{
    let mut out: Vec<DebugLabel> = Vec::new();
    let mut i: usize = 0;
    assert(label_views(labels@).take(0) =~= Seq::<LabelView>::empty());
    while i < labels.len()
        invariant
            i <= labels@.len(),
            label_views(out@) == split_all(label_views(labels@).take(i as int)),
        decreases labels@.len() - i,
    {
        let ghost before = label_views(out@);
        proof {
            let t = label_views(labels@).take(i + 1);
            assert(t.drop_last() =~= label_views(labels@).take(i as int));
            assert(t.last() == labels@[i as int].view());
        }
        match &labels[i] {
            DebugLabel::Header => push_label(&mut out, DebugLabel::Header),
            DebugLabel::Separator => push_label(&mut out, DebugLabel::Separator),
            DebugLabel::Split { min, max } => push_label(&mut out, DebugLabel::Split { min: min.clone(), max: max.clone() }),
            DebugLabel::Label { align, text } => {
                let lines = split_lines(text.as_str());
                let mut k: usize = 0;
                while k < lines.len()
                    invariant
                        k <= lines@.len(),
                        texts(lines@) == split_at_char(text@, '\n'),
                        label_views(out@) == before + texts(lines@).take(k as int).map_values(
                            |line: Seq<char>| LabelView::Label(*align, line),
                        ),
                    decreases lines@.len() - k,
                {
                    push_label(&mut out, DebugLabel::Label { align: *align, text: lines[k].clone() });
                    k += 1;
                    assert(texts(lines@).take(k as int) =~= texts(lines@).take(k - 1).push(lines@[k - 1]@));
                    assert(label_views(out@) =~= before + texts(lines@).take(k as int).map_values(
                        |line: Seq<char>| LabelView::Label(*align, line),
                    ));
                }
                assert(texts(lines@).take(k as int) =~= texts(lines@));
            },
        }
        i += 1;
        assert(label_views(out@) =~= split_all(label_views(labels@).take(i as int)));
    }
    assert(label_views(labels@).take(i as int) =~= label_views(labels@));
    out
}

/// The width a label needs; `None` when it does not fit in `usize`.
fn label_width(l: &DebugLabel) -> (r: Option<usize>)
    ensures
        match r {
            Some(w) => w == label_len(l.view()),
            None => label_len(l.view()) > usize::MAX,
        },
{
    match l {
        DebugLabel::Header => Some(0),
        DebugLabel::Separator => Some(0),
        DebugLabel::Split { min, max } => {
            let a = str_width(min.as_str());
            let b = str_width(max.as_str());
            match a.checked_add(b) {
                Some(ab) => ab.checked_add(1),
                None => None,
            }
        },
        DebugLabel::Label { text, .. } => Some(str_width(text.as_str())),
    }
}

/// The size and placement of a box, with the boxes below it.
pub struct FrameView {
    pub center: int,
    pub width: int,
    pub height: int,
    pub total_width: int,
    pub total_height: int,
    pub labels: Seq<LabelView>,
    pub children: Seq<FrameView>,
}

pub open spec fn fits_usize(v: int) -> bool {
    0 <= v <= usize::MAX
}

/// The width of the widest label, 0 for none.
pub open spec fn widest(ls: Seq<LabelView>) -> int
    decreases ls.len(),
{
    if ls.len() == 0 {
        0
    } else {
        let w = widest(ls.drop_last());
        let l = label_len(ls.last());
        if l > w {
            l
        } else {
            w
        }
    }
}

/// The total widths of the boxes, added up.
pub open spec fn sum_widths(fs: Seq<FrameView>) -> int
    decreases fs.len(),
{
    if fs.len() == 0 {
        0
    } else {
        sum_widths(fs.drop_last()) + fs.last().total_width
    }
}

/// The greatest total height of the boxes, 0 for none.
pub open spec fn tallest(fs: Seq<FrameView>) -> int
    decreases fs.len(),
{
    if fs.len() == 0 {
        0
    } else {
        let t = tallest(fs.drop_last());
        if fs.last().total_height > t {
            fs.last().total_height
        } else {
            t
        }
    }
}

/// The width the boxes need side by side, `spacing` apart.
pub open spec fn children_width(fs: Seq<FrameView>, spacing: int) -> int {
    if fs.len() == 0 {
        0
    } else {
        sum_widths(fs) + (fs.len() - 1) * spacing
    }
}

/// The box of `d` and the boxes below it, `spacing` apart; `None` when a
/// label cannot be built or a size overflows `usize`.
pub open spec fn frame_of(d: DebugNode, spacing: nat) -> Option<FrameView>
    decreases d,
{
    match labels_of(d) {
        None => None,
        Some(raw) => {
            proof {
                assert(decreases_to!(d => d.children));
                assert(decreases_to!(d.children => d.children@));
            }
            match frames_of(d.children@, spacing) {
                None => None,
                Some(cs) => {
                    let labels = split_all(raw);
                    let w = widest(labels) + 4;
                    let h: int = labels.len() as int + 2;
                    let n: int = cs.len() as int;
                    let cw = children_width(cs, spacing as int);
                    let tw = if w >= cw {
                        w
                    } else {
                        cw
                    };
                    let th = if n == 0 {
                        h
                    } else if n == 1 {
                        h + tallest(cs)
                    } else {
                        h + tallest(cs) + 1
                    };
                    let cx = (w - 1) / 2;
                    let mid = if n > 0 {
                        cs[0].center + cw - cs[n - 1].total_width + cs[n - 1].center
                    } else {
                        0
                    };
                    let center = if n > 0 {
                        (if cx >= mid {
                            cx
                        } else {
                            mid
                        }) / 2
                    } else {
                        cx
                    };
                    let fits = (forall|j: int| 0 <= j < labels.len() ==> fits_usize(label_len(#[trigger] labels[j])))
                        && fits_usize(w) && fits_usize(h) && (n > 0 ==> fits_usize(sum_widths(cs)) && fits_usize(
                        (n - 1) * spacing,
                    ) && fits_usize(cw) && fits_usize(h + tallest(cs)) && fits_usize(th) && fits_usize(
                        cs[0].center + cw,
                    ) && fits_usize(mid));
                    if fits {
                        Some(
                            FrameView {
                                center,
                                width: w,
                                height: h,
                                total_width: tw,
                                total_height: th,
                                labels,
                                children: cs,
                            },
                        )
                    } else {
                        None
                    }
                },
            }
        },
    }
}

/// The boxes of the snapshots `ds`, in order; `None` when one of them is.
pub open spec fn frames_of(ds: Seq<DebugNode>, spacing: nat) -> Option<Seq<FrameView>>
    decreases ds,
{
    if ds.len() == 0 {
        Some(Seq::empty())
    } else {
        proof {
            assert(decreases_to!(ds => ds.drop_last()));
            assert(decreases_to!(ds => ds[ds.len() - 1]));
        }
        match (frames_of(ds.drop_last(), spacing), frame_of(ds.last(), spacing)) {
            (Some(a), Some(b)) => Some(a.push(b)),
            _ => None,
        }
    }
}

proof fn lemma_frames_fail(ds: Seq<DebugNode>, spacing: nat, i: int)
    requires
        0 <= i < ds.len(),
        frame_of(ds[i], spacing) is None,
    ensures
        frames_of(ds, spacing) is None,
    decreases ds.len(),
{
    if i < ds.len() - 1 {
        assert(ds.drop_last()[i] == ds[i]);
        lemma_frames_fail(ds.drop_last(), spacing, i);
    }
}

proof fn lemma_frame_views_index(v: Seq<PrettyNode>, j: int)
    requires
        0 <= j < v.len(),
    ensures
        frame_views(v).len() == v.len(),
        frame_views(v)[j] == frame_view(v[j]),
    decreases v.len(),
{
    lemma_frame_views_len(v);
    if j < v.len() - 1 {
        lemma_frame_views_index(v.drop_last(), j);
    }
}

proof fn lemma_frame_views_len(v: Seq<PrettyNode>)
    ensures
        frame_views(v).len() == v.len(),
    decreases v.len(),
{
    if v.len() > 0 {
        lemma_frame_views_len(v.drop_last());
    }
}

/// Widths are never negative, so a prefix adds up to no more than the whole.
proof fn lemma_sum_widths_grows(fs: Seq<FrameView>, m: int)
    requires
        0 <= m <= fs.len(),
        forall|j: int| 0 <= j < fs.len() ==> (#[trigger] fs[j]).total_width >= 0,
    ensures
        sum_widths(fs.take(m)) <= sum_widths(fs),
    decreases fs.len(),
{
    if m < fs.len() {
        assert(fs.drop_last().take(m) =~= fs.take(m));
        lemma_sum_widths_grows(fs.drop_last(), m);
    } else {
        assert(fs.take(m) =~= fs);
    }
}

/// The last box is no wider than all of them together.
proof fn lemma_sum_widths_bound(fs: Seq<FrameView>, j: int)
    requires
        j == fs.len() - 1,
        0 <= j,
        forall|i: int| 0 <= i < fs.len() ==> (#[trigger] fs[i]).total_width >= 0,
    ensures
        fs[j].total_width <= sum_widths(fs),
{
    lemma_sum_widths_grows(fs.drop_last(), fs.len() - 1);
    assert(fs.drop_last().take(fs.len() - 1) =~= fs.drop_last());
    assert forall|i: int| 0 <= i < fs.drop_last().len() implies (#[trigger] fs.drop_last()[i]).total_width >= 0 by {
        assert(fs.drop_last()[i] == fs[i]);
    }
    lemma_sum_widths_nonneg(fs.drop_last());
}

proof fn lemma_sum_widths_nonneg(fs: Seq<FrameView>)
    requires
        forall|i: int| 0 <= i < fs.len() ==> (#[trigger] fs[i]).total_width >= 0,
    ensures
        sum_widths(fs) >= 0,
    decreases fs.len(),
{
    if fs.len() > 0 {
        assert forall|i: int| 0 <= i < fs.drop_last().len() implies (#[trigger] fs.drop_last()[i]).total_width >= 0 by {
            assert(fs.drop_last()[i] == fs[i]);
        }
        lemma_sum_widths_nonneg(fs.drop_last());
    }
}

/// A box of the pretty tree, with the boxes below it.
pub struct PrettyNode {
    pub center: usize,
    pub width: usize,
    pub height: usize,
    pub total_width: usize,
    pub total_height: usize,
    pub labels: Vec<DebugLabel>,
    pub children: Vec<PrettyNode>,
}

/// The sizes and labels of a box and of the boxes below it.
pub open spec fn frame_view(n: PrettyNode) -> FrameView
    decreases n,
{
    proof {
        assert(decreases_to!(n => n.children));
        assert(decreases_to!(n.children => n.children@));
    }
    FrameView {
        center: n.center as int,
        width: n.width as int,
        height: n.height as int,
        total_width: n.total_width as int,
        total_height: n.total_height as int,
        labels: label_views(n.labels@),
        children: frame_views(n.children@),
    }
}

pub open spec fn frame_views(v: Seq<PrettyNode>) -> Seq<FrameView>
    decreases v,
{
    if v.len() == 0 {
        Seq::empty()
    } else {
        proof {
            assert(decreases_to!(v => v.drop_last()));
            assert(decreases_to!(v => v[v.len() - 1]));
        }
        frame_views(v.drop_last()).push(frame_view(v.last()))
    }
}

/// The box of `d` and the boxes below it, `spacing` apart; `None` when a
/// label cannot be built or a size overflows `usize`.
fn build_frame(d: &DebugNode, spacing: usize) -> (r: Option<PrettyNode>)
    ensures
        match r {
            Some(n) => frame_of(*d, spacing as nat) == Some(frame_view(n)),
            None => frame_of(*d, spacing as nat) is None,
        },
    decreases *d,
{
    let raw = match build_labels(d) {
        Some(l) => l,
        None => {
            return None;
        },
    };
    let mut children: Vec<PrettyNode> = Vec::new();
    let mut i: usize = 0;
    assert(d.children@.take(0) =~= Seq::<DebugNode>::empty());
    while i < d.children.len()
        invariant
            i <= d.children@.len(),
            frames_of(d.children@.take(i as int), spacing as nat) == Some(frame_views(children@)),
        decreases d.children@.len() - i,
    {
        proof {
            assert(decreases_to!(*d => d.children));
            assert(decreases_to!(d.children => d.children@));
            assert(decreases_to!(d.children@ => d.children@[i as int]));
        }
        let c = match build_frame(&d.children[i], spacing) {
            Some(c) => c,
            None => {
                proof {
                    lemma_frames_fail(d.children@, spacing as nat, i as int);
                }
                return None;
            },
        };
        let ghost before = children@;
        children.push(c);
        i += 1;
        proof {
            let t = d.children@.take(i as int);
            assert(t.drop_last() =~= d.children@.take(i - 1));
            assert(t.last() == d.children@[i - 1]);
            assert(children@.drop_last() =~= before);
        }
    }
    assert(d.children@.take(i as int) =~= d.children@);
    let labels = split_labels(&raw);
    let ghost lv = label_views(labels@);
    // the widest label
    let mut widest_len: usize = 0;
    let mut k: usize = 0;
    assert(lv.take(0) =~= Seq::<LabelView>::empty());
    while k < labels.len()
        invariant
            k <= labels@.len(),
            lv == label_views(labels@),
            labels_of(*d) == Some(label_views(raw@)),
            lv == split_all(label_views(raw@)),
            frames_of(d.children@, spacing as nat) == Some(frame_views(children@)),
            widest_len == widest(lv.take(k as int)),
            forall|j: int| 0 <= j < k ==> fits_usize(label_len(#[trigger] lv[j])),
        decreases labels@.len() - k,
    {
        let l = match label_width(&labels[k]) {
            Some(l) => l,
            None => {
                assert(!fits_usize(label_len(lv[k as int])));
                return None;
            },
        };
        if l > widest_len {
            widest_len = l;
        }
        k += 1;
        assert(lv.take(k as int).drop_last() =~= lv.take(k - 1));
    }
    assert(lv.take(k as int) =~= lv);
    let ghost cs = frame_views(children@);
    proof {
        lemma_frame_views_len(children@);
        assert forall|j: int| 0 <= j < cs.len() implies (#[trigger] cs[j]).total_width >= 0 && cs[j].total_height >= 0 by {
            lemma_frame_views_index(children@, j);
        }
    }
    let width = match widest_len.checked_add(4) {
        Some(w) => w,
        None => {
            return None;
        },
    };
    let height = match labels.len().checked_add(2) {
        Some(h) => h,
        None => {
            return None;
        },
    };
    let n = children.len();
    let mut total_width = width;
    let mut total_height = height;
    let mut center = (width - 1) / 2;
    if n > 0 {
        // the children side by side
        let mut sum: usize = 0;
        let mut tall: usize = 0;
        let mut j: usize = 0;
        while j < n
            invariant
                j <= n,
                n == children@.len(),
                cs == frame_views(children@),
                cs.len() == n,
                forall|i: int| 0 <= i < cs.len() ==> (#[trigger] cs[i]).total_width >= 0 && cs[i].total_height >= 0,
                labels_of(*d) == Some(label_views(raw@)),
                lv == split_all(label_views(raw@)),
                frames_of(d.children@, spacing as nat) == Some(cs),
                sum == sum_widths(cs.take(j as int)),
                tall == tallest(cs.take(j as int)),
            decreases n - j,
        {
            proof {
                lemma_frame_views_index(children@, j as int);
                assert(cs.take(j + 1).drop_last() =~= cs.take(j as int));
            }
            sum = match sum.checked_add(children[j].total_width) {
                Some(t) => t,
                None => {
                    proof {
                        lemma_sum_widths_grows(cs, j + 1);
                        assert(cs.take(j + 1).drop_last() =~= cs.take(j as int));
                        assert(cs.take(j + 1).last() == cs[j as int]);
                    }
                    return None;
                },
            };
            if children[j].total_height > tall {
                tall = children[j].total_height;
            }
            j += 1;
        }
        assert(cs.take(j as int) =~= cs);
        let gaps = match (n - 1).checked_mul(spacing) {
            Some(g) => g,
            None => {
                return None;
            },
        };
        let cw = match sum.checked_add(gaps) {
            Some(c) => c,
            None => {
                return None;
            },
        };
        if cw > total_width {
            total_width = cw;
        }
        let with_children = match height.checked_add(tall) {
            Some(t) => t,
            None => {
                return None;
            },
        };
        total_height = if n == 1 {
            with_children
        } else {
            match with_children.checked_add(1) {
                Some(t) => t,
                None => {
                    return None;
                },
            }
        };
        proof {
            lemma_frame_views_index(children@, 0);
            lemma_frame_views_index(children@, n - 1);
        }
        let first = &children[0];
        let last = &children[n - 1];
        let a = match first.center.checked_add(cw) {
            Some(a) => a,
            None => {
                return None;
            },
        };
        proof {
            lemma_sum_widths_bound(cs, n - 1);
        }
        let mid = match (a - last.total_width).checked_add(last.center) {
            Some(m) => m,
            None => {
                return None;
            },
        };
        let cx = (width - 1) / 2;
        center = if cx >= mid {
            cx
        } else {
            mid
        } / 2;
    }
    let node = PrettyNode { center, width, height, total_width, total_height, labels, children };
    assert(frame_view(node) == frame_of(*d, spacing as nat)->0);
    Some(node)
}

/// A char written at a row and a column.
pub type Stroke = (int, int, char);

/// `ch` at row `y` in the columns `from..to`.
pub open spec fn run(y: int, from: int, to: int, ch: char) -> Seq<Stroke>
    decreases to - from,
{
    if from >= to {
        Seq::empty()
    } else {
        seq![(y, from, ch)] + run(y, from + 1, to, ch)
    }
}

/// `ch` in the columns `from..to` of rows `y1` and `y2`, column by column.
pub open spec fn two_runs(y1: int, y2: int, from: int, to: int, ch: char) -> Seq<Stroke>
    decreases to - from,
{
    if from >= to {
        Seq::empty()
    } else {
        seq![(y1, from, ch), (y2, from, ch)] + two_runs(y1, y2, from + 1, to, ch)
    }
}

/// `ch` in the rows `from..to` of columns `x1` and `x2`, row by row.
pub open spec fn two_columns(x1: int, x2: int, from: int, to: int, ch: char) -> Seq<Stroke>
    decreases to - from,
{
    if from >= to {
        Seq::empty()
    } else {
        seq![(from, x1, ch), (from, x2, ch)] + two_columns(x1, x2, from + 1, to, ch)
    }
}

/// The chars of `t` at row `y`, each at `start` plus its byte offset.
pub open spec fn text_strokes(y: int, start: int, t: Seq<char>) -> Seq<Stroke> {
    Seq::new(t.len(), |k: int| (y, start + byte_offset(t, k), t[k]))
}

/// Where a label's text starts within a box `width` wide.
pub open spec fn align_offset(align: Align, width: int, t: Seq<char>) -> int {
    match align {
        Align::Min => 2,
        Align::Center => (width - display_width(t)) / 2,
        Align::Max => width - display_width(t) - 2,
    }
}

/// The strokes of a label at row `y` of a box from column `left`, `width` wide.
pub open spec fn label_strokes(l: LabelView, y: int, left: int, width: int) -> Seq<Stroke> {
    match l {
        LabelView::Header => seq![(y, left, '╞'), (y, left + width - 1, '╡')] + run(y, left + 1, left + width - 1, '═'),
        LabelView::Separator => seq![(y, left, '┝'), (y, left + width - 1, '┥')] + run(
            y,
            left + 1,
            left + width - 1,
            '╌',
        ),
        LabelView::Split(a, b) => text_strokes(y, left + 2, a) + text_strokes(
            y,
            left + 2 + (width - display_width(b)) - 4,
            b,
        ),
        LabelView::Label(align, t) => text_strokes(y, left + align_offset(align, width, t), t),
    }
}

/// The strokes of the labels `ls`, the first at row `y0 + 1`.
pub open spec fn labels_strokes(ls: Seq<LabelView>, y0: int, left: int, width: int) -> Seq<Stroke>
    decreases ls.len(),
{
    if ls.len() == 0 {
        Seq::empty()
    } else {
        labels_strokes(ls.drop_last(), y0, left, width) + label_strokes(ls.last(), y0 + ls.len(), left, width)
    }
}

/// The leftmost column of a box drawn from `x0`.
pub open spec fn left_of(f: FrameView, x0: int) -> int {
    x0 + if f.center >= (f.width - 1) / 2 {
        f.center - (f.width - 1) / 2
    } else {
        0
    }
}

/// The dashed line from `start` to `end` joining children, crossed by `mid`.
pub open spec fn joint_run(y: int, start: int, end: int, mid: int) -> Seq<Stroke>
    decreases end - start,
{
    if start >= end {
        Seq::empty()
    } else {
        seq![(y, start, if start != mid { '╌' } else { '┴' })] + joint_run(y, start + 1, end, mid)
    }
}

/// The border of a box from column `left` to `right` (exclusive) and from
/// row `top` to `bottom`.
pub open spec fn border_strokes(left: int, right: int, top: int, bottom: int) -> Seq<Stroke> {
    two_runs(top, bottom, left + 1, right - 1, '─') + two_columns(left, right - 1, top + 1, bottom, '│') + seq![
        (top, left, '┌'),
        (top, right - 1, '┐'),
        (bottom, left, '└'),
        (bottom, right - 1, '┘'),
    ]
}

/// The strokes of the box `f` itself drawn at `(x0, y0)`: its border, its
/// labels and, unless it is the root, the tee it hangs from.
pub open spec fn frame_strokes(f: FrameView, x0: int, y0: int) -> Seq<Stroke> {
    let left = left_of(f, x0);
    border_strokes(left, left + f.width, y0, y0 + f.height - 1) + labels_strokes(f.labels, y0, left, f.width) + if x0
        != 0 || y0 != 0 {
        seq![(y0, x0 + f.center, '┷')]
    } else {
        Seq::empty()
    }
}

/// The strokes of box `f` drawn at `(x0, y0)`: the box, then the boxes
/// below it.
pub open spec fn paint(f: FrameView, x0: int, y0: int, spacing: int) -> Seq<Stroke>
    decreases f, 2int, 0int,
{
    frame_strokes(f, x0, y0) + hang(f, x0, y0, spacing)
}

/// The strokes of the boxes below `f` drawn at `(x0, y0)`: a tee under
/// `f`, and its children side by side, joined by a line.
pub open spec fn hang(f: FrameView, x0: int, y0: int, spacing: int) -> Seq<Stroke>
    decreases f, 1int, 0int,
{
    if f.children.len() == 0 {
        Seq::empty()
    } else {
        let n = f.children.len();
        let cw = children_width(f.children, spacing);
        let cy0 = if n > 1 {
            y0 + f.height + 1
        } else {
            y0 + f.height
        };
        let cx0 = if cw > f.width {
            x0
        } else {
            x0 + (f.width / cw) / 2
        };
        seq![(y0 + f.height - 1, x0 + f.center, '┯')] + paint_children(
            f.children,
            0,
            cx0,
            cy0,
            y0 + f.height,
            x0 + f.center,
            spacing,
        )
    }
}

/// The strokes of the boxes `cs[i..]`, the `i`th drawn from column `cx`
/// and row `cy`, joined along row `y` where `mid` marks the parent.
pub open spec fn paint_children(cs: Seq<FrameView>, i: int, cx: int, cy: int, y: int, mid: int, spacing: int) -> Seq<Stroke>
    decreases cs, 0int, cs.len() - i,
{
    if i < 0 || i >= cs.len() {
        Seq::empty()
    } else {
        let c = cs[i];
        let n = cs.len();
        paint(c, cx, cy, spacing) + (if i == n - 1 {
            Seq::empty()
        } else {
            let start = cx + c.center + 1;
            let end = cx + c.total_width + spacing + cs[i + 1].center;
            let merge = if i == n - 2 {
                '╮'
            } else if end == mid {
                '┼'
            } else {
                '┬'
            };
            joint_run(y, start, end, mid) + (if i == 0 {
                seq![(y, start - 1, '╭')]
            } else {
                Seq::empty()
            }) + seq![(y, end, merge)]
        }) + paint_children(cs, i + 1, cx + c.total_width + spacing, cy, y, mid, spacing)
    }
}

/// Every stroke lies within a grid `w` wide and `h` high.
pub open spec fn inside(st: Seq<Stroke>, w: int, h: int) -> bool {
    forall|i: int| 0 <= i < st.len() ==> 0 <= (#[trigger] st[i]).0 < h && 0 <= st[i].1 < w
}

/// The grid `g` after the strokes, in order.
pub open spec fn apply(st: Seq<Stroke>, g: Seq<Seq<char>>) -> Seq<Seq<char>>
    decreases st.len(),
{
    if st.len() == 0 {
        g
    } else {
        let h = apply(st.drop_last(), g);
        let (y, x, c) = st.last();
        h.update(y, h[y].update(x, c))
    }
}

pub proof fn lemma_apply_concat(a: Seq<Stroke>, b: Seq<Stroke>, g: Seq<Seq<char>>)
    ensures
        apply(a + b, g) == apply(b, apply(a, g)),
    decreases b.len(),
{
    if b.len() == 0 {
        assert(a + b =~= a);
    } else {
        assert((a + b).drop_last() =~= a + b.drop_last());
        lemma_apply_concat(a, b.drop_last(), g);
    }
}

pub proof fn lemma_inside_concat(a: Seq<Stroke>, b: Seq<Stroke>, w: int, h: int)
    ensures
        inside(a + b, w, h) == (inside(a, w, h) && inside(b, w, h)),
{
    if inside(a + b, w, h) {
        assert forall|i: int| 0 <= i < a.len() implies 0 <= (#[trigger] a[i]).0 < h && 0 <= a[i].1 < w by {
            assert((a + b)[i] == a[i]);
        }
        assert forall|i: int| 0 <= i < b.len() implies 0 <= (#[trigger] b[i]).0 < h && 0 <= b[i].1 < w by {
            assert((a + b)[a.len() + i] == b[i]);
        }
    }
    if inside(a, w, h) && inside(b, w, h) {
        assert forall|i: int| 0 <= i < (a + b).len() implies 0 <= (#[trigger] (a + b)[i]).0 < h && 0 <= (a
            + b)[i].1 < w by {
            if i < a.len() {
                assert((a + b)[i] == a[i]);
            } else {
                assert((a + b)[i] == b[i - a.len()]);
            }
        }
    }
}

/// A grid of chars, `width` wide and `height` high.
pub struct Canvas {
    rows: Vec<Vec<char>>,
    width: usize,
    height: usize,
}

impl Canvas {
    pub closed spec fn cells(&self) -> Seq<Seq<char>> {
        self.rows@.map_values(|r: Vec<char>| r@)
    }

    pub closed spec fn w(&self) -> int {
        self.width as int
    }

    pub closed spec fn h(&self) -> int {
        self.height as int
    }

    pub closed spec fn wf(&self) -> bool {
        &&& self.rows@.len() == self.height
        &&& forall|i: int| 0 <= i < self.rows@.len() ==> (#[trigger] self.rows@[i])@.len() == self.width
    }

    /// A canvas of spaces.
    fn blank(width: usize, height: usize) -> (c: Canvas)
        ensures
            c.wf(),
            c.w() == width,
            c.h() == height,
            c.cells() == Seq::new(height as nat, |i: int| Seq::new(width as nat, |j: int| ' ')),
    {
        let mut rows: Vec<Vec<char>> = Vec::new();
        let mut i: usize = 0;
        while i < height
            invariant
                i <= height,
                rows@.len() == i,
                forall|k: int| 0 <= k < i ==> (#[trigger] rows@[k])@ == Seq::new(width as nat, |j: int| ' '),
            decreases height - i,
        {
            let mut row: Vec<char> = Vec::new();
            let mut j: usize = 0;
            while j < width
                invariant
                    j <= width,
                    row@ == Seq::new(j as nat, |t: int| ' '),
                decreases width - j,
            {
                row.push(' ');
                j += 1;
                assert(row@ =~= Seq::new(j as nat, |t: int| ' '));
            }
            rows.push(row);
            i += 1;
        }
        let c = Canvas { rows, width, height };
        assert(c.cells() =~= Seq::new(height as nat, |i: int| Seq::new(width as nat, |j: int| ' ')));
        c
    }

    /// Write `ch` at row `y` and column `x`, if the cell is on the canvas.
    fn draw(&mut self, y: u128, x: u128, ch: char) -> (ok: bool)
        requires
            old(self).wf(),
        ensures
            final(self).wf(),
            final(self).w() == old(self).w(),
            final(self).h() == old(self).h(),
            ok == inside(seq![(y as int, x as int, ch)], old(self).w(), old(self).h()),
            ok ==> final(self).cells() == apply(seq![(y as int, x as int, ch)], old(self).cells()),
    {
        proof {
            let st = seq![(y as int, x as int, ch)];
            assert(st.drop_last() =~= Seq::<Stroke>::empty());
            assert(st[0] == (y as int, x as int, ch));
        }
        if y < self.height as u128 && x < self.width as u128 {
            let yy = y as usize;
            let xx = x as usize;
            let ghost g = self.cells();
            self.rows[yy][xx] = ch;
            proof {
                let st = seq![(y as int, x as int, ch)];
                assert(apply(st.drop_last(), g) == g);
                assert(st.last() == (y as int, x as int, ch));
                assert(apply(st, g) == g.update(yy as int, g[yy as int].update(xx as int, ch)));
                assert(self.cells() =~= g.update(yy as int, g[yy as int].update(xx as int, ch)));
            }
            true
        } else {
            false
        }
    }
}

proof fn lemma_run_split(y: int, from: int, m: int, to: int, ch: char)
    requires
        from <= m <= to,
    ensures
        run(y, from, to, ch) == run(y, from, m, ch) + run(y, m, to, ch),
    decreases m - from,
{
    if from < m {
        lemma_run_split(y, from + 1, m, to, ch);
        assert(run(y, from, to, ch) =~= run(y, from, m, ch) + run(y, m, to, ch));
    } else {
        assert(run(y, from, m, ch) =~= Seq::<Stroke>::empty());
        assert(run(y, from, to, ch) =~= run(y, from, m, ch) + run(y, m, to, ch));
    }
}

proof fn lemma_two_runs_split(y1: int, y2: int, from: int, m: int, to: int, ch: char)
    requires
        from <= m <= to,
    ensures
        two_runs(y1, y2, from, to, ch) == two_runs(y1, y2, from, m, ch) + two_runs(y1, y2, m, to, ch),
    decreases m - from,
{
    if from < m {
        lemma_two_runs_split(y1, y2, from + 1, m, to, ch);
        assert(two_runs(y1, y2, from, to, ch) =~= two_runs(y1, y2, from, m, ch) + two_runs(y1, y2, m, to, ch));
    } else {
        assert(two_runs(y1, y2, from, m, ch) =~= Seq::<Stroke>::empty());
        assert(two_runs(y1, y2, from, to, ch) =~= two_runs(y1, y2, from, m, ch) + two_runs(y1, y2, m, to, ch));
    }
}

proof fn lemma_two_columns_split(x1: int, x2: int, from: int, m: int, to: int, ch: char)
    requires
        from <= m <= to,
    ensures
        two_columns(x1, x2, from, to, ch) == two_columns(x1, x2, from, m, ch) + two_columns(x1, x2, m, to, ch),
    decreases m - from,
{
    if from < m {
        lemma_two_columns_split(x1, x2, from + 1, m, to, ch);
        assert(two_columns(x1, x2, from, to, ch) =~= two_columns(x1, x2, from, m, ch) + two_columns(
            x1,
            x2,
            m,
            to,
            ch,
        ));
    } else {
        assert(two_columns(x1, x2, from, m, ch) =~= Seq::<Stroke>::empty());
        assert(two_columns(x1, x2, from, to, ch) =~= two_columns(x1, x2, from, m, ch) + two_columns(
            x1,
            x2,
            m,
            to,
            ch,
        ));
    }
}

proof fn lemma_joint_split(y: int, from: int, m: int, to: int, mid: int)
    requires
        from <= m <= to,
    ensures
        joint_run(y, from, to, mid) == joint_run(y, from, m, mid) + joint_run(y, m, to, mid),
    decreases m - from,
{
    if from < m {
        lemma_joint_split(y, from + 1, m, to, mid);
        assert(joint_run(y, from, to, mid) =~= joint_run(y, from, m, mid) + joint_run(y, m, to, mid));
    } else {
        assert(joint_run(y, from, m, mid) =~= Seq::<Stroke>::empty());
        assert(joint_run(y, from, to, mid) =~= joint_run(y, from, m, mid) + joint_run(y, m, to, mid));
    }
}

/// Draw `st` after `done`: what is drawn so far is `done`, and `st`'s first
/// stroke `(y, x, ch)` cannot be drawn, so neither can `done + st`.
proof fn lemma_stuck(done: Seq<Stroke>, st: Seq<Stroke>, w: int, h: int)
    requires
        st.len() > 0,
        !inside(seq![st[0]], w, h),
    ensures
        !inside(done + st, w, h),
{
    assert((done + st)[done.len() as int] == st[0]);
    assert(seq![st[0]][0] == st[0]);
}

/// `ch` at row `y` in the columns `from..to`.
fn draw_run(c: &mut Canvas, y: u128, from: u128, to: u128, ch: char) -> (ok: bool)
    requires
        old(c).wf(),
        from <= to,
    ensures
        final(c).wf(),
        final(c).w() == old(c).w(),
        final(c).h() == old(c).h(),
        ok == inside(run(y as int, from as int, to as int, ch), old(c).w(), old(c).h()),
        ok ==> final(c).cells() == apply(run(y as int, from as int, to as int, ch), old(c).cells()),
{
    let ghost g = c.cells();
    let mut x = from;
    assert(run(y as int, from as int, from as int, ch) =~= Seq::<Stroke>::empty());
    while x < to
        invariant
            c.wf(),
            c.w() == old(c).w(),
            c.h() == old(c).h(),
            g == old(c).cells(),
            from <= x <= to,
            inside(run(y as int, from as int, x as int, ch), c.w(), c.h()),
            c.cells() == apply(run(y as int, from as int, x as int, ch), g),
        decreases to - x,
    {
        let ghost before = c.cells();
        let ghost done = run(y as int, from as int, x as int, ch);
        proof {
            lemma_run_split(y as int, from as int, x as int, to as int, ch);
            lemma_run_split(y as int, from as int, x as int, x + 1, ch);
            assert(run(y as int, x + 1, x + 1, ch) =~= Seq::<Stroke>::empty());
            assert(run(y as int, x as int, x + 1, ch) =~= seq![(y as int, x as int, ch)]);
        }
        if !c.draw(y, x, ch) {
            proof {
                lemma_run_split(y as int, x as int, x + 1, to as int, ch);
                lemma_stuck(done, run(y as int, x as int, to as int, ch), c.w(), c.h());
            }
            return false;
        }
        proof {
            lemma_apply_concat(done, seq![(y as int, x as int, ch)], g);
            lemma_inside_concat(done, seq![(y as int, x as int, ch)], c.w(), c.h());
        }
        x = x + 1;
    }
    true
}

/// `ch` in the columns `from..to` of rows `y1` and `y2`, column by column.
fn draw_two_runs(c: &mut Canvas, y1: u128, y2: u128, from: u128, to: u128, ch: char) -> (ok: bool)
    requires
        old(c).wf(),
        from <= to,
    ensures
        final(c).wf(),
        final(c).w() == old(c).w(),
        final(c).h() == old(c).h(),
        ok == inside(two_runs(y1 as int, y2 as int, from as int, to as int, ch), old(c).w(), old(c).h()),
        ok ==> final(c).cells() == apply(two_runs(y1 as int, y2 as int, from as int, to as int, ch), old(c).cells()),
{
    let ghost g = c.cells();
    let mut x = from;
    assert(two_runs(y1 as int, y2 as int, from as int, from as int, ch) =~= Seq::<Stroke>::empty());
    while x < to
        invariant
            c.wf(),
            c.w() == old(c).w(),
            c.h() == old(c).h(),
            g == old(c).cells(),
            from <= x <= to,
            inside(two_runs(y1 as int, y2 as int, from as int, x as int, ch), c.w(), c.h()),
            c.cells() == apply(two_runs(y1 as int, y2 as int, from as int, x as int, ch), g),
        decreases to - x,
    {
        let ghost done = two_runs(y1 as int, y2 as int, from as int, x as int, ch);
        let ghost one = seq![(y1 as int, x as int, ch)];
        let ghost two = seq![(y2 as int, x as int, ch)];
        proof {
            lemma_two_runs_split(y1 as int, y2 as int, from as int, x as int, to as int, ch);
            lemma_two_runs_split(y1 as int, y2 as int, from as int, x as int, x + 1, ch);
            lemma_two_runs_split(y1 as int, y2 as int, x as int, x + 1, to as int, ch);
            assert(two_runs(y1 as int, y2 as int, x as int, x + 1, ch) =~= one + two);
        }
        if !c.draw(y1, x, ch) {
            proof {
                lemma_stuck(done, two_runs(y1 as int, y2 as int, x as int, to as int, ch), c.w(), c.h());
            }
            return false;
        }
        proof {
            lemma_apply_concat(done, one, g);
            lemma_inside_concat(done, one, c.w(), c.h());
        }
        if !c.draw(y2, x, ch) {
            proof {
                let rest = two_runs(y1 as int, y2 as int, x as int, to as int, ch);
                assert(rest[1] == (y2 as int, x as int, ch));
                assert((done + rest)[done.len() as int + 1] == rest[1]);
                assert(seq![rest[1]][0] == rest[1]);
            }
            return false;
        }
        proof {
            lemma_apply_concat(done + one, two, g);
            lemma_inside_concat(done + one, two, c.w(), c.h());
            assert(done + one + two =~= done + (one + two));
        }
        x = x + 1;
    }
    true
}

/// `ch` in the rows `from..to` of columns `x1` and `x2`, row by row.
fn draw_two_columns(c: &mut Canvas, x1: u128, x2: u128, from: u128, to: u128, ch: char) -> (ok: bool)
    requires
        old(c).wf(),
        from <= to,
    ensures
        final(c).wf(),
        final(c).w() == old(c).w(),
        final(c).h() == old(c).h(),
        ok == inside(two_columns(x1 as int, x2 as int, from as int, to as int, ch), old(c).w(), old(c).h()),
        ok ==> final(c).cells() == apply(two_columns(x1 as int, x2 as int, from as int, to as int, ch), old(c).cells()),
{
    let ghost g = c.cells();
    let mut y = from;
    assert(two_columns(x1 as int, x2 as int, from as int, from as int, ch) =~= Seq::<Stroke>::empty());
    while y < to
        invariant
            c.wf(),
            c.w() == old(c).w(),
            c.h() == old(c).h(),
            g == old(c).cells(),
            from <= y <= to,
            inside(two_columns(x1 as int, x2 as int, from as int, y as int, ch), c.w(), c.h()),
            c.cells() == apply(two_columns(x1 as int, x2 as int, from as int, y as int, ch), g),
        decreases to - y,
    {
        let ghost done = two_columns(x1 as int, x2 as int, from as int, y as int, ch);
        let ghost one = seq![(y as int, x1 as int, ch)];
        let ghost two = seq![(y as int, x2 as int, ch)];
        proof {
            lemma_two_columns_split(x1 as int, x2 as int, from as int, y as int, to as int, ch);
            lemma_two_columns_split(x1 as int, x2 as int, from as int, y as int, y + 1, ch);
            lemma_two_columns_split(x1 as int, x2 as int, y as int, y + 1, to as int, ch);
            assert(two_columns(x1 as int, x2 as int, y as int, y + 1, ch) =~= one + two);
        }
        if !c.draw(y, x1, ch) {
            proof {
                lemma_stuck(done, two_columns(x1 as int, x2 as int, y as int, to as int, ch), c.w(), c.h());
            }
            return false;
        }
        proof {
            lemma_apply_concat(done, one, g);
            lemma_inside_concat(done, one, c.w(), c.h());
        }
        if !c.draw(y, x2, ch) {
            proof {
                let rest = two_columns(x1 as int, x2 as int, y as int, to as int, ch);
                assert(rest[1] == (y as int, x2 as int, ch));
                assert((done + rest)[done.len() as int + 1] == rest[1]);
                assert(seq![rest[1]][0] == rest[1]);
            }
            return false;
        }
        proof {
            lemma_apply_concat(done + one, two, g);
            lemma_inside_concat(done + one, two, c.w(), c.h());
            assert(done + one + two =~= done + (one + two));
        }
        y = y + 1;
    }
    true
}

/// The dashed line in row `y` from column `start` to `end`, crossed at `mid`.
fn draw_joint(c: &mut Canvas, y: u128, start: u128, end: u128, mid: u128) -> (ok: bool)
    requires
        old(c).wf(),
    ensures
        final(c).wf(),
        final(c).w() == old(c).w(),
        final(c).h() == old(c).h(),
        ok == inside(joint_run(y as int, start as int, end as int, mid as int), old(c).w(), old(c).h()),
        ok ==> final(c).cells() == apply(joint_run(y as int, start as int, end as int, mid as int), old(c).cells()),
{
    let ghost g = c.cells();
    if start >= end {
        assert(joint_run(y as int, start as int, end as int, mid as int) =~= Seq::<Stroke>::empty());
        return true;
    }
    let mut x = start;
    assert(joint_run(y as int, start as int, start as int, mid as int) =~= Seq::<Stroke>::empty());
    while x < end
        invariant
            c.wf(),
            c.w() == old(c).w(),
            c.h() == old(c).h(),
            g == old(c).cells(),
            start <= x <= end,
            inside(joint_run(y as int, start as int, x as int, mid as int), c.w(), c.h()),
            c.cells() == apply(joint_run(y as int, start as int, x as int, mid as int), g),
        decreases end - x,
    {
        let ghost done = joint_run(y as int, start as int, x as int, mid as int);
        let ch = if x != mid {
            '╌'
        } else {
            '┴'
        };
        proof {
            lemma_joint_split(y as int, start as int, x as int, end as int, mid as int);
            lemma_joint_split(y as int, start as int, x as int, x + 1, mid as int);
            assert(joint_run(y as int, x + 1, x + 1, mid as int) =~= Seq::<Stroke>::empty());
            assert(joint_run(y as int, x as int, x + 1, mid as int) =~= seq![(y as int, x as int, ch)]);
        }
        if !c.draw(y, x, ch) {
            proof {
                lemma_joint_split(y as int, x as int, x + 1, end as int, mid as int);
                lemma_stuck(done, joint_run(y as int, x as int, end as int, mid as int), c.w(), c.h());
            }
            return false;
        }
        proof {
            lemma_apply_concat(done, seq![(y as int, x as int, ch)], g);
            lemma_inside_concat(done, seq![(y as int, x as int, ch)], c.w(), c.h());
        }
        x = x + 1;
    }
    true
}

/// Drawing one more stroke of `st` after its first `k`.
proof fn lemma_draw_step(st: Seq<Stroke>, k: int, g: Seq<Seq<char>>, w: int, h: int)
    requires
        0 <= k < st.len(),
    ensures
        st.take(k + 1) == st.take(k) + seq![st[k]],
        apply(st.take(k + 1), g) == apply(seq![st[k]], apply(st.take(k), g)),
        inside(st.take(k + 1), w, h) == (inside(st.take(k), w, h) && inside(seq![st[k]], w, h)),
        !inside(seq![st[k]], w, h) ==> !inside(st, w, h),
{
    assert(st.take(k + 1) =~= st.take(k) + seq![st[k]]);
    lemma_apply_concat(st.take(k), seq![st[k]], g);
    lemma_inside_concat(st.take(k), seq![st[k]], w, h);
    if !inside(seq![st[k]], w, h) {
        assert(seq![st[k]][0] == st[k]);
    }
}

/// The chars of `t` at row `y`, each at `start` plus its byte offset.
fn draw_text(c: &mut Canvas, y: u128, start: u128, t: &str) -> (ok: bool)
    requires
        old(c).wf(),
        start <= 0x1_0000_0000_0000_0000_0000_0000_0000,
    ensures
        final(c).wf(),
        final(c).w() == old(c).w(),
        final(c).h() == old(c).h(),
        ok == inside(text_strokes(y as int, start as int, t@), old(c).w(), old(c).h()),
        ok ==> final(c).cells() == apply(text_strokes(y as int, start as int, t@), old(c).cells()),
{
    let ghost g = c.cells();
    let ghost st = text_strokes(y as int, start as int, t@);
    let chars = str_chars(t);
    let mut k: usize = 0;
    assert(st.take(0) =~= Seq::<Stroke>::empty());
    while k < chars.len()
        invariant
            c.wf(),
            c.w() == old(c).w(),
            c.h() == old(c).h(),
            g == old(c).cells(),
            chars@ == t@,
            st == text_strokes(y as int, start as int, t@),
            start <= 0x1_0000_0000_0000_0000_0000_0000_0000,
            k <= chars@.len(),
            inside(st.take(k as int), c.w(), c.h()),
            c.cells() == apply(st.take(k as int), g),
        decreases chars@.len() - k,
    {
        let off = chars_to_byte_idx(t, k);
        proof {
            lemma_draw_step(st, k as int, g, c.w(), c.h());
            assert(st[k as int] == (y as int, start + off, chars@[k as int]));
        }
        if !c.draw(y, start + off as u128, chars[k]) {
            return false;
        }
        k += 1;
    }
    assert(st.take(k as int) =~= st);
    true
}

/// The widest label is at least as wide as each.
proof fn lemma_widest(ls: Seq<LabelView>, j: int)
    requires
        0 <= j < ls.len(),
    ensures
        label_len(ls[j]) <= widest(ls),
        widest(ls) >= 0,
    decreases ls.len(),
{
    lemma_widest_nonneg(ls);
    if j < ls.len() - 1 {
        lemma_widest(ls.drop_last(), j);
        assert(ls.drop_last()[j] == ls[j]);
    }
}

proof fn lemma_widest_nonneg(ls: Seq<LabelView>)
    ensures
        widest(ls) >= 0,
    decreases ls.len(),
{
    if ls.len() > 0 {
        lemma_widest_nonneg(ls.drop_last());
    }
}

/// A label at row `y` of a box from column `left`, `width` wide.
fn draw_label(c: &mut Canvas, l: &DebugLabel, y: u128, left: u128, width: u128) -> (ok: bool)
    requires
        old(c).wf(),
        left <= 0x10_0000_0000_0000_0000_0000_0000,
        label_len(l.view()) + 4 <= width <= u64::MAX,
    ensures
        final(c).wf(),
        final(c).w() == old(c).w(),
        final(c).h() == old(c).h(),
        ok == inside(label_strokes(l.view(), y as int, left as int, width as int), old(c).w(), old(c).h()),
        ok ==> final(c).cells() == apply(label_strokes(l.view(), y as int, left as int, width as int), old(c).cells()),
{
    let ghost g = c.cells();
    match l {
        DebugLabel::Header => draw_bar(c, y, left, width, '╞', '╡', '═'),
        DebugLabel::Separator => draw_bar(c, y, left, width, '┝', '┥', '╌'),
        DebugLabel::Split { min, max } => {
            let ghost a = text_strokes(y as int, left + 2, min@);
            let wb = str_width(max.as_str());
            let start2 = left + 2 + (width - wb as u128) - 4;
            let ghost b = text_strokes(y as int, start2 as int, max@);
            proof {
                lemma_apply_concat(a, b, g);
                lemma_inside_concat(a, b, c.w(), c.h());
            }
            if !draw_text(c, y, left + 2, min.as_str()) {
                return false;
            }
            draw_text(c, y, start2, max.as_str())
        },
        DebugLabel::Label { align, text } => {
            let wt = str_width(text.as_str()) as u128;
            let offset = match align {
                Align::Min => 2,
                Align::Center => (width - wt) / 2,
                Align::Max => width - wt - 2,
            };
            draw_text(c, y, left + offset, text.as_str())
        },
    }
}

/// A bar across a box: `first` and `last` at its edges, `fill` between.
fn draw_bar(c: &mut Canvas, y: u128, left: u128, width: u128, first: char, last: char, fill: char) -> (ok: bool)
    requires
        old(c).wf(),
        left <= 0x10_0000_0000_0000_0000_0000_0000,
        4 <= width <= u64::MAX,
    ensures
        final(c).wf(),
        final(c).w() == old(c).w(),
        final(c).h() == old(c).h(),
        ok == inside(
            seq![(y as int, left as int, first), (y as int, left + width - 1, last)] + run(
                y as int,
                left + 1,
                left + width - 1,
                fill,
            ),
            old(c).w(),
            old(c).h(),
        ),
        ok ==> final(c).cells() == apply(
            seq![(y as int, left as int, first), (y as int, left + width - 1, last)] + run(
                y as int,
                left + 1,
                left + width - 1,
                fill,
            ),
            old(c).cells(),
        ),
{
    let ghost g = c.cells();
    let ghost one = seq![(y as int, left as int, first)];
    let ghost two = seq![(y as int, left + width - 1, last)];
    let ghost r = run(y as int, left + 1, left + width - 1, fill);
    proof {
        assert(seq![(y as int, left as int, first), (y as int, left + width - 1, last)] =~= one + two);
        lemma_apply_concat(one, two, g);
        lemma_apply_concat(one + two, r, g);
        lemma_inside_concat(one, two, c.w(), c.h());
        lemma_inside_concat(one + two, r, c.w(), c.h());
    }
    if !c.draw(y, left, first) {
        return false;
    }
    if !c.draw(y, left + width - 1, last) {
        return false;
    }
    draw_run(c, y, left + 1, left + width - 1, fill)
}

proof fn lemma_not_inside_extends(x: Seq<Stroke>, y: Seq<Stroke>, w: int, h: int)
    requires
        !inside(x, w, h),
    ensures
        !inside(x + y, w, h),
{
    lemma_inside_concat(x, y, w, h);
}

/// The labels of a box drawn from column `left`, the first at row `y0 + 1`.
fn draw_labels(c: &mut Canvas, labels: &Vec<DebugLabel>, y0: u128, left: u128, width: u128) -> (ok: bool)
    requires
        old(c).wf(),
        left <= 0x10_0000_0000_0000_0000_0000_0000,
        y0 <= 0x10_0000_0000_0000_0000_0000_0000,
        width <= u64::MAX,
        forall|j: int| 0 <= j < labels@.len() ==> label_len(#[trigger] label_views(labels@)[j]) + 4 <= width,
    ensures
        final(c).wf(),
        final(c).w() == old(c).w(),
        final(c).h() == old(c).h(),
        ok == inside(labels_strokes(label_views(labels@), y0 as int, left as int, width as int), old(c).w(), old(c).h()),
        ok ==> final(c).cells() == apply(
            labels_strokes(label_views(labels@), y0 as int, left as int, width as int),
            old(c).cells(),
        ),
{
    let ghost g = c.cells();
    let ghost lv = label_views(labels@);
    let mut i: usize = 0;
    assert(lv.take(0) =~= Seq::<LabelView>::empty());
    while i < labels.len()
        invariant
            c.wf(),
            c.w() == old(c).w(),
            c.h() == old(c).h(),
            g == old(c).cells(),
            lv == label_views(labels@),
            i <= labels@.len(),
            left <= 0x10_0000_0000_0000_0000_0000_0000,
            y0 <= 0x10_0000_0000_0000_0000_0000_0000,
            width <= u64::MAX,
            forall|j: int| 0 <= j < labels@.len() ==> label_len(#[trigger] lv[j]) + 4 <= width,
            inside(labels_strokes(lv.take(i as int), y0 as int, left as int, width as int), c.w(), c.h()),
            c.cells() == apply(labels_strokes(lv.take(i as int), y0 as int, left as int, width as int), g),
        decreases labels@.len() - i,
    {
        let ghost done = labels_strokes(lv.take(i as int), y0 as int, left as int, width as int);
        let ghost piece = label_strokes(lv[i as int], y0 + i + 1, left as int, width as int);
        proof {
            let t = lv.take(i + 1);
            assert(t.drop_last() =~= lv.take(i as int));
            assert(t.last() == lv[i as int]);
            assert(labels_strokes(t, y0 as int, left as int, width as int) == done + piece);
            lemma_apply_concat(done, piece, g);
            lemma_inside_concat(done, piece, c.w(), c.h());
            assert(lv[i as int] == labels@[i as int].view());
        }
        if !draw_label(c, &labels[i], y0 + i as u128 + 1, left, width) {
            proof {
                lemma_labels_prefix(lv, i + 1, y0 as int, left as int, width as int, c.w(), c.h());
            }
            return false;
        }
        i += 1;
    }
    assert(lv.take(i as int) =~= lv);
    true
}

/// A prefix of the labels that cannot be drawn stops the whole from being drawn.
proof fn lemma_labels_prefix(lv: Seq<LabelView>, k: int, y0: int, left: int, width: int, w: int, h: int)
    requires
        0 <= k <= lv.len(),
        !inside(labels_strokes(lv.take(k), y0, left, width), w, h),
    ensures
        !inside(labels_strokes(lv, y0, left, width), w, h),
    decreases lv.len() - k,
{
    if k < lv.len() {
        let t = lv.take(k + 1);
        assert(t.drop_last() =~= lv.take(k));
        lemma_not_inside_extends(
            labels_strokes(lv.take(k), y0, left, width),
            label_strokes(t.last(), y0 + t.len(), left, width),
            w,
            h,
        );
        lemma_labels_prefix(lv, k + 1, y0, left, width, w, h);
    } else {
        assert(lv.take(k) =~= lv);
    }
}

/// What building the boxes guarantees of their sizes.
pub open spec fn good(f: FrameView, spacing: int) -> bool
    decreases f,
{
    &&& f.width == widest(f.labels) + 4
    &&& f.height == f.labels.len() + 2
    &&& fits_usize(f.width)
    &&& fits_usize(f.height)
    &&& fits_usize(f.center)
    &&& fits_usize(f.total_width)
    &&& fits_usize(f.total_height)
    &&& f.total_width >= f.width
    &&& f.children.len() > 0 ==> fits_usize(children_width(f.children, spacing)) && children_width(f.children, spacing) >= 1
    &&& f.children.len() > 0 ==> f.total_width >= children_width(f.children, spacing)
    &&& f.total_height == (if f.children.len() == 0 {
        f.height
    } else if f.children.len() == 1 {
        f.height + tallest(f.children)
    } else {
        f.height + tallest(f.children) + 1
    })
    &&& forall|i: int| 0 <= i < f.children.len() ==> good(#[trigger] f.children[i], spacing)
}

proof fn lemma_frame_good(d: DebugNode, spacing: nat)
    requires
        frame_of(d, spacing) is Some,
    ensures
        good(frame_of(d, spacing)->0, spacing as int),
    decreases d,
{
    assert(decreases_to!(d => d.children));
    assert(decreases_to!(d.children => d.children@));
    lemma_frames_good(d.children@, spacing);
    let f = frame_of(d, spacing)->0;
    let cs = frames_of(d.children@, spacing)->0;
    lemma_widest_nonneg(f.labels);
    if cs.len() > 0 {
        assert forall|j: int| 0 <= j < cs.len() implies (#[trigger] cs[j]).total_width >= 0 by {
            assert(good(cs[j], spacing as int));
        }
        lemma_sum_widths_grows(cs, 1);
        assert(cs.take(1).drop_last() =~= Seq::<FrameView>::empty());
        assert(cs.take(1).last() == cs[0]);
        assert(sum_widths(cs.take(1).drop_last()) == 0);
        assert(sum_widths(cs.take(1)) == sum_widths(cs.take(1).drop_last()) + cs.take(1).last().total_width);
        assert(sum_widths(cs.take(1)) == cs[0].total_width);
        assert(good(cs[0], spacing as int));
        lemma_widest_nonneg(cs[0].labels);
        assert((cs.len() - 1) * spacing >= 0) by (nonlinear_arith)
            requires
                cs.len() >= 1,
        ;
    }
}

proof fn lemma_frames_good(ds: Seq<DebugNode>, spacing: nat)
    requires
        frames_of(ds, spacing) is Some,
    ensures
        frames_of(ds, spacing)->0.len() == ds.len(),
        forall|i: int| 0 <= i < ds.len() ==> good(#[trigger] frames_of(ds, spacing)->0[i], spacing as int),
    decreases ds,
{
    if ds.len() > 0 {
        assert(decreases_to!(ds => ds.drop_last()));
        assert(decreases_to!(ds => ds[ds.len() - 1]));
        lemma_frames_good(ds.drop_last(), spacing);
        lemma_frame_good(ds.last(), spacing);
        let fs = frames_of(ds, spacing)->0;
        let a = frames_of(ds.drop_last(), spacing)->0;
        assert forall|i: int| 0 <= i < ds.len() implies good(#[trigger] fs[i], spacing as int) by {
            if i < ds.len() - 1 {
                assert(fs[i] == a[i]);
            }
        }
    }
}

/// A piece that cannot be drawn stops everything around it from being drawn.
proof fn lemma_piece_out(pre: Seq<Stroke>, piece: Seq<Stroke>, post: Seq<Stroke>, w: int, h: int)
    requires
        !inside(piece, w, h),
    ensures
        !inside(pre + piece + post, w, h),
{
    lemma_inside_concat(pre, piece, w, h);
    lemma_inside_concat(pre + piece, post, w, h);
}

/// One more piece drawn after `pre`.
proof fn lemma_piece_in(pre: Seq<Stroke>, piece: Seq<Stroke>, g: Seq<Seq<char>>, w: int, h: int)
    ensures
        apply(pre + piece, g) == apply(piece, apply(pre, g)),
        inside(pre + piece, w, h) == (inside(pre, w, h) && inside(piece, w, h)),
{
    lemma_apply_concat(pre, piece, g);
    lemma_inside_concat(pre, piece, w, h);
}

/// The border of a box from column `left` to `right` (exclusive) and from
/// row `top` to `bottom`.
#[verifier::rlimit(30)]
fn draw_border(c: &mut Canvas, left: u128, right: u128, top: u128, bottom: u128) -> (ok: bool)
    requires
        old(c).wf(),
        left + 2 <= right,
        top + 1 <= bottom,
    ensures
        final(c).wf(),
        final(c).w() == old(c).w(),
        final(c).h() == old(c).h(),
        ok == inside(border_strokes(left as int, right as int, top as int, bottom as int), old(c).w(), old(c).h()),
        ok ==> final(c).cells() == apply(border_strokes(left as int, right as int, top as int, bottom as int), old(c).cells()),
{
    let ghost g = c.cells();
    let ghost (w, h) = (c.w(), c.h());
    let ghost p1 = two_runs(top as int, bottom as int, left + 1, right - 1, '─');
    let ghost p2 = two_columns(left as int, right - 1, top + 1, bottom as int, '│');
    let ghost c1 = seq![(top as int, left as int, '┌')];
    let ghost c2 = seq![(top as int, right - 1, '┐')];
    let ghost c3 = seq![(bottom as int, left as int, '└')];
    let ghost c4 = seq![(bottom as int, right - 1, '┘')];
    let ghost all = p1 + p2 + c1 + c2 + c3 + c4;
    proof {
        assert(seq![(top as int, left as int, '┌'), (top as int, right - 1, '┐'), (bottom as int, left as int, '└'), (bottom as int, right - 1, '┘')] =~= c1 + c2 + c3 + c4);
        assert(border_strokes(left as int, right as int, top as int, bottom as int) =~= all);
    }
    if !draw_two_runs(c, top, bottom, left + 1, right - 1, '─') {
        proof {
            lemma_piece_out(Seq::empty(), p1, p2 + c1 + c2 + c3 + c4, w, h);
            assert(Seq::<Stroke>::empty() + p1 + (p2 + c1 + c2 + c3 + c4) =~= all);
        }
        return false;
    }
    if !draw_two_columns(c, left, right - 1, top + 1, bottom, '│') {
        proof {
            lemma_piece_out(p1, p2, c1 + c2 + c3 + c4, w, h);
            assert(p1 + p2 + (c1 + c2 + c3 + c4) =~= all);
        }
        return false;
    }
    proof {
        lemma_piece_in(p1, p2, g, w, h);
    }
    if !c.draw(top, left, '┌') {
        proof {
            lemma_piece_out(p1 + p2, c1, c2 + c3 + c4, w, h);
            assert(p1 + p2 + c1 + (c2 + c3 + c4) =~= all);
        }
        return false;
    }
    proof {
        lemma_piece_in(p1 + p2, c1, g, w, h);
    }
    if !c.draw(top, right - 1, '┐') {
        proof {
            lemma_piece_out(p1 + p2 + c1, c2, c3 + c4, w, h);
            assert(p1 + p2 + c1 + c2 + (c3 + c4) =~= all);
        }
        return false;
    }
    proof {
        lemma_piece_in(p1 + p2 + c1, c2, g, w, h);
    }
    if !c.draw(bottom, left, '└') {
        proof {
            lemma_piece_out(p1 + p2 + c1 + c2, c3, c4, w, h);
        }
        return false;
    }
    proof {
        lemma_piece_in(p1 + p2 + c1 + c2, c3, g, w, h);
    }
    if !c.draw(bottom, right - 1, '┘') {
        proof {
            lemma_piece_out(p1 + p2 + c1 + c2 + c3, c4, Seq::empty(), w, h);
            assert(p1 + p2 + c1 + c2 + c3 + c4 + Seq::<Stroke>::empty() =~= all);
        }
        return false;
    }
    proof {
        lemma_piece_in(p1 + p2 + c1 + c2 + c3, c4, g, w, h);
    }
    true
}

/// The box of `node` itself at `(x0, y0)`: border, labels and tee.
fn draw_frame(c: &mut Canvas, node: &PrettyNode, x0: u128, y0: u128, Ghost(spacing): Ghost<int>) -> (ok: bool)
    requires
        old(c).wf(),
        good(frame_view(*node), spacing),
        x0 <= u64::MAX,
        y0 <= u64::MAX,
    ensures
        final(c).wf(),
        final(c).w() == old(c).w(),
        final(c).h() == old(c).h(),
        ok == inside(frame_strokes(frame_view(*node), x0 as int, y0 as int), old(c).w(), old(c).h()),
        ok ==> final(c).cells() == apply(frame_strokes(frame_view(*node), x0 as int, y0 as int), old(c).cells()),
{
    let ghost f = frame_view(*node);
    let ghost g = c.cells();
    let ghost (w, h) = (c.w(), c.h());
    let width = node.width as u128;
    let height = node.height as u128;
    let center = node.center as u128;
    let half = (width - 1) / 2;
    let left = x0 + if center >= half {
        center - half
    } else {
        0
    };
    assert(left == left_of(f, x0 as int));
    let ghost p1 = border_strokes(left as int, left + width, y0 as int, y0 + height - 1);
    let ghost p2 = labels_strokes(f.labels, y0 as int, left as int, f.width);
    let ghost p3 = if x0 != 0 || y0 != 0 {
        seq![(y0 as int, x0 + f.center, '┷')]
    } else {
        Seq::<Stroke>::empty()
    };
    assert(frame_strokes(f, x0 as int, y0 as int) == p1 + p2 + p3);
    proof {
        lemma_widest_nonneg(f.labels);
    }
    if !draw_border(c, left, left + width, y0, y0 + height - 1) {
        proof {
            lemma_piece_out(Seq::empty(), p1, p2 + p3, w, h);
            assert(Seq::<Stroke>::empty() + p1 + (p2 + p3) =~= p1 + p2 + p3);
        }
        return false;
    }
    proof {
        assert forall|j: int| 0 <= j < node.labels@.len() implies label_len(#[trigger] label_views(node.labels@)[j]) + 4 <= width by {
            lemma_widest(f.labels, j);
        }
    }
    if !draw_labels(c, &node.labels, y0, left, width) {
        proof {
            lemma_piece_out(p1, p2, p3, w, h);
        }
        return false;
    }
    proof {
        lemma_piece_in(p1, p2, g, w, h);
    }
    if x0 != 0 || y0 != 0 {
        if !c.draw(y0, x0 + center, '┷') {
            proof {
                lemma_piece_out(p1 + p2, p3, Seq::empty(), w, h);
                assert(p1 + p2 + p3 + Seq::<Stroke>::empty() =~= p1 + p2 + p3);
            }
            return false;
        }
        proof {
            lemma_piece_in(p1 + p2, p3, g, w, h);
        }
    } else {
        assert(p1 + p2 + p3 =~= p1 + p2);
    }
    true
}
/// Unfolding the strokes of the `i`th child and those after it.
proof fn lemma_children_step(cs: Seq<FrameView>, i: int, cx: int, cy: int, y: int, mid: int, spacing: int)
    requires
        0 <= i < cs.len(),
    ensures
        paint_children(cs, i, cx, cy, y, mid, spacing) == paint(cs[i], cx, cy, spacing) + (if i == cs.len() - 1 {
            Seq::<Stroke>::empty()
        } else {
            let c = cs[i];
            let start = cx + c.center + 1;
            let end = cx + c.total_width + spacing + cs[i + 1].center;
            let merge = if i == cs.len() - 2 {
                '╮'
            } else if end == mid {
                '┼'
            } else {
                '┬'
            };
            joint_run(y, start, end, mid) + (if i == 0 {
                seq![(y, start - 1, '╭')]
            } else {
                Seq::<Stroke>::empty()
            }) + seq![(y, end, merge)]
        }) + paint_children(cs, i + 1, cx + cs[i].total_width + spacing, cy, y, mid, spacing),
{
}

/// The joints between the `i`th child and the next, in row `y`.
fn draw_joints(c: &mut Canvas, i: usize, n: usize, y: u128, cx: u128, child: &PrettyNode, next: &PrettyNode, spacing: usize, mid: u128) -> (ok: bool)
    requires
        old(c).wf(),
        i + 1 < n,
        cx <= 0x1_0000_0000_0000_0000_0000,
        y <= 0x1_0000_0000_0000_0000_0000,
    ensures
        final(c).wf(),
        final(c).w() == old(c).w(),
        final(c).h() == old(c).h(),
        ({
            let start = cx + child.center + 1;
            let end = cx + child.total_width + spacing + next.center;
            let merge = if i == n - 2 {
                '╮'
            } else if end == mid {
                '┼'
            } else {
                '┬'
            };
            let st = joint_run(y as int, start, end, mid as int) + (if i == 0 {
                seq![(y as int, start - 1, '╭')]
            } else {
                Seq::<Stroke>::empty()
            }) + seq![(y as int, end, merge)];
            &&& ok == inside(st, old(c).w(), old(c).h())
            &&& ok ==> final(c).cells() == apply(st, old(c).cells())
        }),
{
    let ghost g = c.cells();
    let ghost (w, h) = (c.w(), c.h());
    let start = cx + child.center as u128 + 1;
    let end = cx + child.total_width as u128 + spacing as u128 + next.center as u128;
    let merge = if i == n - 2 {
        '╮'
    } else if end == mid {
        '┼'
    } else {
        '┬'
    };
    let ghost p1 = joint_run(y as int, start as int, end as int, mid as int);
    let ghost p2 = if i == 0 {
        seq![(y as int, start - 1, '╭')]
    } else {
        Seq::<Stroke>::empty()
    };
    let ghost p3 = seq![(y as int, end as int, merge)];
    if !draw_joint(c, y, start, end, mid) {
        proof {
            lemma_piece_out(Seq::empty(), p1, p2 + p3, w, h);
            assert(Seq::<Stroke>::empty() + p1 + (p2 + p3) =~= p1 + p2 + p3);
        }
        return false;
    }
    if i == 0 {
        if !c.draw(y, start - 1, '╭') {
            proof {
                lemma_piece_out(p1, p2, p3, w, h);
            }
            return false;
        }
        proof {
            lemma_piece_in(p1, p2, g, w, h);
        }
    } else {
        assert(p1 + p2 =~= p1);
    }
    if !c.draw(y, end, merge) {
        proof {
            lemma_piece_out(p1 + p2, p3, Seq::empty(), w, h);
            assert(p1 + p2 + p3 + Seq::<Stroke>::empty() =~= p1 + p2 + p3);
        }
        return false;
    }
    proof {
        lemma_piece_in(p1 + p2, p3, g, w, h);
    }
    true
}

/// The box of `node` at `(x0, y0)` and the boxes below it.
fn paint_node(c: &mut Canvas, node: &PrettyNode, x0: u128, y0: u128, spacing: usize) -> (ok: bool)
    requires
        old(c).wf(),
        good(frame_view(*node), spacing as int),
        x0 <= 0x1_0000_0000_0000_0000_0000,
        y0 <= 0x1_0000_0000_0000_0000_0000,
    ensures
        final(c).wf(),
        final(c).w() == old(c).w(),
        final(c).h() == old(c).h(),
        ok == inside(paint(frame_view(*node), x0 as int, y0 as int, spacing as int), old(c).w(), old(c).h()),
        ok ==> final(c).cells() == apply(paint(frame_view(*node), x0 as int, y0 as int, spacing as int), old(c).cells()),
    decreases *node, 2nat,
{
    let ghost f = frame_view(*node);
    let ghost g = c.cells();
    let ghost (w, h) = (c.w(), c.h());
    let ghost whole = paint(f, x0 as int, y0 as int, spacing as int);
    let ghost fr = frame_strokes(f, x0 as int, y0 as int);
    let ghost hg = hang(f, x0 as int, y0 as int, spacing as int);
    assert(whole == fr + hg);
    if x0 >= c.width as u128 || y0 >= c.height as u128 {
        proof {
            let left = left_of(f, x0 as int);
            let b = border_strokes(left, left + f.width, y0 as int, y0 + f.height - 1);
            let corner = seq![(y0 as int, left, '┌')];
            let rest = seq![(y0 as int, left + f.width - 1, '┐'), (y0 + f.height - 1, left, '└'), (y0 + f.height - 1, left + f.width - 1, '┘')];
            let runs = two_runs(y0 as int, y0 + f.height - 1, left + 1, left + f.width - 1, '─') + two_columns(left, left + f.width - 1, y0 + 1, y0 + f.height - 1, '│');
            assert(b =~= runs + corner + rest);
            assert(corner[0] == (y0 as int, left, '┌'));
            lemma_piece_out(runs, corner, rest, w, h);
            let lt = labels_strokes(f.labels, y0 as int, left, f.width);
            let tee = if x0 != 0 || y0 != 0 {
                seq![(y0 as int, x0 + f.center, '┷')]
            } else {
                Seq::<Stroke>::empty()
            };
            assert(fr == b + lt + tee);
            lemma_piece_out(Seq::empty(), b, lt + tee + hg, w, h);
            assert(Seq::<Stroke>::empty() + b + (lt + tee + hg) =~= b + lt + tee + hg);
        }
        return false;
    }
    if !draw_frame(c, node, x0, y0, Ghost(spacing as int)) {
        proof {
            lemma_piece_out(Seq::empty(), fr, hg, w, h);
            assert(Seq::<Stroke>::empty() + fr + hg =~= fr + hg);
        }
        return false;
    }
    let ghost g2 = c.cells();
    let ok = paint_kids(c, node, x0, y0, spacing);
    proof {
        lemma_piece_in(fr, hg, g, w, h);
    }
    ok
}

/// The boxes below `node`, drawn at `(x0, y0)`, and the lines joining them.
#[verifier::rlimit(60)]
fn paint_kids(c: &mut Canvas, node: &PrettyNode, x0: u128, y0: u128, spacing: usize) -> (ok: bool)
    requires
        old(c).wf(),
        good(frame_view(*node), spacing as int),
        x0 <= u64::MAX,
        y0 <= u64::MAX,
    ensures
        final(c).wf(),
        final(c).w() == old(c).w(),
        final(c).h() == old(c).h(),
        ok == inside(hang(frame_view(*node), x0 as int, y0 as int, spacing as int), old(c).w(), old(c).h()),
        ok ==> final(c).cells() == apply(hang(frame_view(*node), x0 as int, y0 as int, spacing as int), old(c).cells()),
    decreases *node, 1nat,
{
    let ghost f = frame_view(*node);
    let ghost cs = f.children;
    let ghost g = c.cells();
    let ghost (w, h) = (c.w(), c.h());
    let n = node.children.len();
    proof {
        lemma_frame_views_len(node.children@);
    }
    if n == 0 {
        return true;
    }
    proof {
        assert forall|j: int| 0 <= j < cs.len() implies (#[trigger] cs[j]).total_width >= 0 && good(cs[j], spacing as int) by {
            lemma_frame_views_index(node.children@, j);
        }
    }
    // the width of the children side by side
    let mut sum: usize = 0;
    let mut j: usize = 0;
    while j < n
        invariant
            j <= n,
            n == cs.len(),
            n == node.children@.len(),
            cs == frame_views(node.children@),
            forall|k: int| 0 <= k < cs.len() ==> (#[trigger] cs[k]).total_width >= 0,
            fits_usize(children_width(cs, spacing as int)),
            sum == sum_widths(cs.take(j as int)),
        decreases n - j,
    {
        proof {
            lemma_frame_views_index(node.children@, j as int);
            assert(cs.take(j + 1).drop_last() =~= cs.take(j as int));
            lemma_sum_widths_grows(cs, j + 1);
            assert((n - 1) * spacing >= 0) by (nonlinear_arith)
                requires
                    n >= 1,
            ;
        }
        sum = sum + node.children[j].total_width;
        j += 1;
    }
    assert(cs.take(j as int) =~= cs);
    proof {
        assert((n - 1) * spacing >= 0) by (nonlinear_arith)
            requires
                n >= 1,
        ;
    }
    let cw = sum + (n - 1) * spacing;
    let width = node.width as u128;
    let height = node.height as u128;
    let center = node.center as u128;
    let cy0 = if n > 1 {
        y0 + height + 1
    } else {
        y0 + height
    };
    let cx0 = if cw as u128 > width {
        x0
    } else {
        x0 + (width / cw as u128) / 2
    };
    let y = y0 + height;
    let mid = x0 + center;
    let ghost tee = seq![(y0 + height - 1, mid as int, '┯')];
    let ghost full = paint_children(cs, 0, cx0 as int, cy0 as int, y as int, mid as int, spacing as int);
    assert(hang(f, x0 as int, y0 as int, spacing as int) == tee + full);
    if !c.draw(y0 + height - 1, mid, '┯') {
        proof {
            lemma_piece_out(Seq::empty(), tee, full, w, h);
            assert(Seq::<Stroke>::empty() + tee + full =~= tee + full);
        }
        return false;
    }
    let ghost g1 = c.cells();
    let ghost mut done: Seq<Stroke> = Seq::empty();
    let mut cx = cx0;
    let mut i: usize = 0;
    proof {
        assert(done + full =~= full);
        assert(cs.take(0) =~= Seq::<FrameView>::empty());
    }
    while i < n
        invariant
            c.wf(),
            c.w() == w,
            c.h() == h,
            w == old(c).w(),
            h == old(c).h(),
            g == old(c).cells(),
            f == frame_view(*node),
            cs == f.children,
            hang(f, x0 as int, y0 as int, spacing as int) == tee + full,
            inside(tee, w, h),
            g1 == apply(tee, g),
            n == cs.len(),
            n == node.children@.len(),
            cs == frame_views(node.children@),
            forall|k: int| 0 <= k < cs.len() ==> (#[trigger] cs[k]).total_width >= 0 && good(cs[k], spacing as int),
            fits_usize(children_width(cs, spacing as int)),
            cw == children_width(cs, spacing as int),
            i <= n,
            cx as int == cx0 + sum_widths(cs.take(i as int)) + i * spacing,
            cx0 <= x0 + width,
            x0 <= u64::MAX,
            y0 <= u64::MAX,
            y == y0 + height,
            cy0 <= y0 + height + 1,
            height <= u64::MAX,
            width <= u64::MAX,
            mid == x0 + center,
            center <= u64::MAX,
            done + paint_children(cs, i as int, cx as int, cy0 as int, y as int, mid as int, spacing as int) == full,
            inside(done, w, h),
            c.cells() == apply(done, g1),
        decreases n - i,
    {
        proof {
            lemma_frame_views_index(node.children@, i as int);
            lemma_sum_widths_grows(cs, i as int);
            assert(i * spacing <= (n - 1) * spacing) by (nonlinear_arith)
                requires
                    i < n,
            ;
            lemma_children_step(cs, i as int, cx as int, cy0 as int, y as int, mid as int, spacing as int);
        }
        let child = &node.children[i];
        let ghost pc = paint(cs[i as int], cx as int, cy0 as int, spacing as int);
        let ghost joints = if i == n - 1 {
            Seq::<Stroke>::empty()
        } else {
            let cc = cs[i as int];
            let start = cx + cc.center + 1;
            let end = cx + cc.total_width + spacing + cs[i + 1].center;
            let merge = if i == n - 2 {
                '╮'
            } else if end == mid {
                '┼'
            } else {
                '┬'
            };
            joint_run(y as int, start, end, mid as int) + (if i == 0 {
                seq![(y as int, start - 1, '╭')]
            } else {
                Seq::<Stroke>::empty()
            }) + seq![(y as int, end, merge)]
        };
        let ghost rest = paint_children(cs, i + 1, cx + cs[i as int].total_width + spacing, cy0 as int, y as int, mid as int, spacing as int);
        proof {
            assert(done + (pc + joints + rest) == full);
            assert(done + (pc + joints + rest) =~= done + pc + joints + rest);
        }
        if !paint_node(c, child, cx, cy0, spacing) {
            proof {
                lemma_piece_out(done, pc, joints + rest, w, h);
                assert(done + pc + (joints + rest) =~= done + pc + joints + rest);
                lemma_piece_out(tee, full, Seq::empty(), w, h);
                assert(tee + full + Seq::<Stroke>::empty() =~= tee + full);
            }
            return false;
        }
        proof {
            lemma_piece_in(done, pc, g1, w, h);
        }
        if i + 1 < n {
            proof {
                lemma_frame_views_index(node.children@, i + 1);
            }
            if !draw_joints(c, i, n, y, cx, child, &node.children[i + 1], spacing, mid) {
                proof {
                    lemma_piece_out(done + pc, joints, rest, w, h);
                    lemma_piece_out(tee, full, Seq::empty(), w, h);
                    assert(tee + full + Seq::<Stroke>::empty() =~= tee + full);
                }
                return false;
            }
            proof {
                lemma_piece_in(done + pc, joints, g1, w, h);
            }
        } else {
            assert(done + pc + joints =~= done + pc);
        }
        proof {
            done = done + pc + joints;
            assert(cs.take(i + 1).drop_last() =~= cs.take(i as int));
            assert(cs.take(i + 1).last() == cs[i as int]);
            assert(sum_widths(cs.take(i + 1)) == sum_widths(cs.take(i as int)) + cs[i as int].total_width);
            assert((i + 1) * spacing == i * spacing + spacing) by (nonlinear_arith);
            assert(cs[i as int].total_width == child.total_width);
        }
        cx = cx + child.total_width as u128 + spacing as u128;
        i += 1;
    }
    proof {
        assert(paint_children(cs, n as int, cx as int, cy0 as int, y as int, mid as int, spacing as int) =~= Seq::<Stroke>::empty());
        assert(done =~= full);
        lemma_piece_in(tee, full, g, w, h);
    }
    true
}

/// The index of the last char of `r` that is not a space, 0 when there is none.
pub open spec fn last_mark(r: Seq<char>) -> int
    decreases r.len(),
{
    if r.len() == 0 {
        0
    } else if r.last() != ' ' {
        r.len() - 1
    } else {
        last_mark(r.drop_last())
    }
}

/// A row without the spaces after its last mark (a blank row keeps one space).
pub open spec fn trim_row(r: Seq<char>) -> Seq<char> {
    if r.len() == 0 {
        r
    } else {
        r.take(last_mark(r) + 1)
    }
}

/// The trimmed rows, one per line.
pub open spec fn join_rows(rows: Seq<Seq<char>>) -> Seq<char>
    decreases rows.len(),
{
    if rows.len() == 0 {
        Seq::empty()
    } else {
        let a = join_rows(rows.drop_last());
        (if a.len() > 0 {
            a.push('\n')
        } else {
            a
        }) + trim_row(rows.last())
    }
}

/// The pretty tree of `d` as text: its boxes `spacing` apart, drawn on a
/// grid as large as the whole tree, row by row without trailing spaces.
/// `None` when a box cannot be built or a stroke falls off the grid.
pub open spec fn pretty_text(d: DebugNode, spacing: nat) -> Option<Seq<char>> {
    match frame_of(d, spacing) {
        None => None,
        Some(f) => {
            let blank = Seq::new(f.total_height as nat, |i: int| Seq::new(f.total_width as nat, |j: int| ' '));
            let st = paint(f, 0, 0, spacing as int);
            if inside(st, f.total_width, f.total_height) {
                Some(join_rows(apply(st, blank)))
            } else {
                None
            }
        },
    }
}

proof fn lemma_last_mark(r: Seq<char>)
    ensures
        0 <= last_mark(r) <= if r.len() == 0 { 0 } else { r.len() - 1 },
        forall|i: int| last_mark(r) < i < r.len() ==> r[i] == ' ',
        r.len() > 0 && last_mark(r) > 0 ==> r[last_mark(r)] != ' ',
    decreases r.len(),
{
    if r.len() > 0 && r.last() == ' ' {
        lemma_last_mark(r.drop_last());
        assert forall|i: int| last_mark(r) < i < r.len() implies r[i] == ' ' by {
            if i < r.len() - 1 {
                assert(r.drop_last()[i] == r[i]);
            }
        }
    }
}

/// The row without the spaces after its last mark.
fn trim(row: &Vec<char>) -> (r: Vec<char>)
    ensures
        r@ == trim_row(row@),
{
    let n = row.len();
    if n == 0 {
        return Vec::new();
    }
    // the last char that is not a space
    let mut k: usize = n;
    while k > 0 && row[k - 1] == ' '
        invariant
            k <= n,
            n == row@.len(),
            n > 0,
            forall|i: int| k <= i < n ==> row@[i] == ' ',
            last_mark(row@) == last_mark(row@.take(k as int)) || k == n,
            k < n ==> last_mark(row@) == last_mark(row@.take(k as int)),
        decreases k,
    {
        proof {
            let t = row@.take(k as int);
            assert(t.drop_last() =~= row@.take(k - 1));
            assert(t.last() == ' ');
            if k == n {
                assert(t =~= row@);
            }
        }
        k -= 1;
    }
    let pos: usize = if k == 0 {
        0
    } else {
        k - 1
    };
    proof {
        if k == 0 {
            assert(row@.take(0) =~= Seq::<char>::empty());
        } else {
            let t = row@.take(k as int);
            assert(t.last() != ' ');
            if k == n {
                assert(t =~= row@);
            }
        }
    }
    let mut out: Vec<char> = Vec::new();
    let mut i: usize = 0;
    while i <= pos
        invariant
            i <= pos + 1,
            pos < n,
            n == row@.len(),
            out@ == row@.take(i as int),
        decreases pos + 1 - i,
    {
        out.push(row[i]);
        i += 1;
        assert(out@ =~= row@.take(i as int));
    }
    out
}

impl Canvas {
    /// The rows, trimmed, one per line.
    fn text(&self) -> (r: Vec<char>)
        requires
            self.wf(),
        ensures
            r@ == join_rows(self.cells()),
    {
        let mut out: Vec<char> = Vec::new();
        let mut i: usize = 0;
        assert(self.cells().take(0) =~= Seq::<Seq<char>>::empty());
        while i < self.rows.len()
            invariant
                self.wf(),
                i <= self.rows@.len(),
                out@ == join_rows(self.cells().take(i as int)),
            decreases self.rows@.len() - i,
        {
            let t = trim(&self.rows[i]);
            proof {
                let s = self.cells().take(i + 1);
                assert(s.drop_last() =~= self.cells().take(i as int));
                assert(s.last() == self.rows@[i as int]@);
            }
            let ghost before = out@;
            if out.len() > 0 {
                out.push('\n');
            }
            let mut k: usize = 0;
            let ghost mid = out@;
            while k < t.len()
                invariant
                    k <= t@.len(),
                    out@ == mid + t@.take(k as int),
                decreases t@.len() - k,
            {
                out.push(t[k]);
                k += 1;
                assert(out@ =~= mid + t@.take(k as int));
            }
            assert(t@.take(k as int) =~= t@);
            i += 1;
            assert(out@ =~= join_rows(self.cells().take(i as int)));
        }
        assert(self.cells().take(i as int) =~= self.cells());
        out
    }
}

/// A text whose chars each take one byte and one column: ASCII, with a
/// display width equal to its length.
pub open spec fn narrow(t: Seq<char>) -> bool {
    &&& forall|k: int| 0 <= k < t.len() ==> (#[trigger] t[k]) as u32 <= 0x7F
    &&& display_width(t) == t.len()
}

/// Every text of a label is narrow.
pub open spec fn narrow_label(l: LabelView) -> bool {
    match l {
        LabelView::Split(a, b) => narrow(a) && narrow(b),
        LabelView::Label(_, t) => narrow(t),
        _ => true,
    }
}

proof fn lemma_ascii_offsets(t: Seq<char>, k: int)
    requires
        forall|j: int| 0 <= j < t.len() ==> (#[trigger] t[j]) as u32 <= 0x7F,
        0 <= k <= t.len(),
    ensures
        byte_offset(t, k) == k,
    decreases t.len(),
{
    if k > 0 && t.len() > 0 {
        assert(t[0] as u32 <= 0x7F);
        assert(char_utf8_len(t[0]) == 1);
        assert forall|j: int| 0 <= j < t.drop_first().len() implies (#[trigger] t.drop_first()[j]) as u32 <= 0x7F by {
            assert(t.drop_first()[j] == t[j + 1]);
        }
        lemma_ascii_offsets(t.drop_first(), k - 1);
    }
}

proof fn lemma_text_inside(y: int, start: int, t: Seq<char>, w: int, h: int)
    requires
        narrow(t),
        0 <= y < h,
        0 <= start,
        start + t.len() <= w,
    ensures
        inside(text_strokes(y, start, t), w, h),
{
    let st = text_strokes(y, start, t);
    assert forall|i: int| 0 <= i < st.len() implies 0 <= (#[trigger] st[i]).0 < h && 0 <= st[i].1 < w by {
        lemma_ascii_offsets(t, i);
    }
}

proof fn lemma_run_inside(y: int, from: int, to: int, ch: char, w: int, h: int)
    requires
        0 <= y < h,
        0 <= from,
        to <= w,
    ensures
        inside(run(y, from, to, ch), w, h),
    decreases to - from,
{
    if from < to {
        lemma_run_inside(y, from + 1, to, ch, w, h);
        lemma_inside_concat(seq![(y, from, ch)], run(y, from + 1, to, ch), w, h);
    }
}

proof fn lemma_two_runs_inside(y1: int, y2: int, from: int, to: int, ch: char, w: int, h: int)
    requires
        0 <= y1 < h,
        0 <= y2 < h,
        0 <= from,
        to <= w,
    ensures
        inside(two_runs(y1, y2, from, to, ch), w, h),
    decreases to - from,
{
    if from < to {
        lemma_two_runs_inside(y1, y2, from + 1, to, ch, w, h);
        lemma_inside_concat(seq![(y1, from, ch), (y2, from, ch)], two_runs(y1, y2, from + 1, to, ch), w, h);
    }
}

proof fn lemma_two_columns_inside(x1: int, x2: int, from: int, to: int, ch: char, w: int, h: int)
    requires
        0 <= x1 < w,
        0 <= x2 < w,
        0 <= from,
        to <= h,
    ensures
        inside(two_columns(x1, x2, from, to, ch), w, h),
    decreases to - from,
{
    if from < to {
        lemma_two_columns_inside(x1, x2, from + 1, to, ch, w, h);
        lemma_inside_concat(seq![(from, x1, ch), (from, x2, ch)], two_columns(x1, x2, from + 1, to, ch), w, h);
    }
}

proof fn lemma_label_inside(l: LabelView, y: int, left: int, width: int, w: int, h: int)
    requires
        narrow_label(l),
        label_len(l) + 4 <= width,
        0 <= left,
        left + width <= w,
        0 <= y < h,
    ensures
        inside(label_strokes(l, y, left, width), w, h),
{
    match l {
        LabelView::Header => {
            lemma_run_inside(y, left + 1, left + width - 1, '═', w, h);
            lemma_inside_concat(
                seq![(y, left, '╞'), (y, left + width - 1, '╡')],
                run(y, left + 1, left + width - 1, '═'),
                w,
                h,
            );
        },
        LabelView::Separator => {
            lemma_run_inside(y, left + 1, left + width - 1, '╌', w, h);
            lemma_inside_concat(
                seq![(y, left, '┝'), (y, left + width - 1, '┥')],
                run(y, left + 1, left + width - 1, '╌'),
                w,
                h,
            );
        },
        LabelView::Split(a, b) => {
            lemma_text_inside(y, left + 2, a, w, h);
            lemma_text_inside(y, left + 2 + (width - display_width(b)) - 4, b, w, h);
            lemma_inside_concat(
                text_strokes(y, left + 2, a),
                text_strokes(y, left + 2 + (width - display_width(b)) - 4, b),
                w,
                h,
            );
        },
        LabelView::Label(align, t) => {
            lemma_text_inside(y, left + align_offset(align, width, t), t, w, h);
        },
    }
}

proof fn lemma_labels_inside(ls: Seq<LabelView>, y0: int, left: int, width: int, w: int, h: int)
    requires
        forall|j: int| 0 <= j < ls.len() ==> narrow_label(#[trigger] ls[j]),
        forall|j: int| 0 <= j < ls.len() ==> label_len(#[trigger] ls[j]) + 4 <= width,
        0 <= left,
        left + width <= w,
        0 <= y0,
        y0 + ls.len() < h,
    ensures
        inside(labels_strokes(ls, y0, left, width), w, h),
    decreases ls.len(),
{
    if ls.len() > 0 {
        let d = ls.drop_last();
        assert forall|j: int| 0 <= j < d.len() implies narrow_label(#[trigger] d[j]) && label_len(d[j]) + 4
            <= width by {
            assert(d[j] == ls[j]);
        }
        lemma_labels_inside(d, y0, left, width, w, h);
        assert(narrow_label(ls[ls.len() - 1]) && label_len(ls[ls.len() - 1]) + 4 <= width);
        lemma_label_inside(ls.last(), y0 + ls.len(), left, width, w, h);
        lemma_inside_concat(
            labels_strokes(d, y0, left, width),
            label_strokes(ls.last(), y0 + ls.len(), left, width),
            w,
            h,
        );
    }
}

/// Each box lies within the room set aside for it and the boxes below it:
/// its center, and its own border around that center, fall within its
/// total width; and its texts are narrow. The same holds of every box below.
pub open spec fn placed(f: FrameView) -> bool
    decreases f,
{
    &&& 0 <= f.center < f.total_width
    &&& f.center >= (f.width - 1) / 2 ==> f.center - (f.width - 1) / 2 + f.width <= f.total_width
    &&& forall|j: int| 0 <= j < f.labels.len() ==> narrow_label(#[trigger] f.labels[j])
    &&& forall|i: int| 0 <= i < f.children.len() ==> placed(#[trigger] f.children[i])
}

/// The tallest box is at least as tall as each.
proof fn lemma_tallest(cs: Seq<FrameView>, j: int)
    requires
        0 <= j < cs.len(),
    ensures
        cs[j].total_height <= tallest(cs),
    decreases cs.len(),
{
    if j < cs.len() - 1 {
        lemma_tallest(cs.drop_last(), j);
        assert(cs.drop_last()[j] == cs[j]);
    }
}

/// The widths of a box and the boxes after it add up from the front too.
proof fn lemma_sum_first(a: FrameView, rest: Seq<FrameView>)
    ensures
        sum_widths(seq![a] + rest) == a.total_width + sum_widths(rest),
    decreases rest.len(),
{
    if rest.len() == 0 {
        assert(seq![a] + rest =~= seq![a]);
        assert(seq![a].drop_last() =~= Seq::<FrameView>::empty());
        assert(sum_widths(Seq::<FrameView>::empty()) == 0);
        assert(sum_widths(seq![a]) == sum_widths(seq![a].drop_last()) + seq![a].last().total_width);
        assert(sum_widths(rest) == 0);
    } else {
        lemma_sum_first(a, rest.drop_last());
        assert((seq![a] + rest).drop_last() =~= seq![a] + rest.drop_last());
        assert((seq![a] + rest).last() == rest.last());
    }
}

/// Children drawn from `(w / cw) / 2` within a box `w` wide, `cw` wide
/// themselves, end within the box.
proof fn lemma_children_start(w: int, cw: int)
    requires
        1 <= cw <= w,
    ensures
        0 <= (w / cw) / 2,
        (w / cw) / 2 + cw <= w,
{
    let q = w / cw;
    assert(q * cw <= w && q >= 1) by (nonlinear_arith)
        requires
            1 <= cw <= w,
            q == w / cw,
    ;
    assert(q / 2 + cw <= q * cw) by (nonlinear_arith)
        requires
            q >= 1,
            cw >= 1,
    ;
}

proof fn lemma_joint_inside(y: int, start: int, end: int, mid: int, w: int, h: int)
    requires
        0 <= y < h,
        0 <= start,
        end <= w,
    ensures
        inside(joint_run(y, start, end, mid), w, h),
    decreases end - start,
{
    if start < end {
        lemma_joint_inside(y, start + 1, end, mid, w, h);
        lemma_inside_concat(
            seq![(y, start, if start != mid { '╌' } else { '┴' })],
            joint_run(y, start + 1, end, mid),
            w,
            h,
        );
    }
}

/// The border and labels of a placed box, and the tee it hangs from, lie
/// within the room set aside for it.
proof fn lemma_frame_strokes_inside(f: FrameView, x0: int, y0: int, w: int, h: int)
    requires
        good(f, 1),
        placed(f),
        0 <= x0,
        x0 + f.total_width <= w,
        0 <= y0,
        y0 + f.total_height <= h,
    ensures
        inside(frame_strokes(f, x0, y0), w, h),
{
    let left = left_of(f, x0);
    let fw = f.width;
    let fh = f.height;
    lemma_widest_nonneg(f.labels);
    if f.children.len() > 0 {
        assert(tallest(f.children) >= 0) by {
            lemma_tallest(f.children, 0);
            assert(good(f.children[0], 1));
        }
    }
    assert(fh <= f.total_height);
    assert(x0 <= left && left + fw <= x0 + f.total_width);
    assert forall|j: int| 0 <= j < f.labels.len() implies label_len(#[trigger] f.labels[j]) + 4 <= fw by {
        lemma_widest(f.labels, j);
    }
    let top = y0;
    let bottom = y0 + fh - 1;
    lemma_two_runs_inside(top, bottom, left + 1, left + fw - 1, '─', w, h);
    lemma_two_columns_inside(left, left + fw - 1, top + 1, bottom, '│', w, h);
    let corners = seq![(top, left, '┌'), (top, left + fw - 1, '┐'), (bottom, left, '└'), (bottom, left + fw - 1, '┘')];
    lemma_inside_concat(two_runs(top, bottom, left + 1, left + fw - 1, '─'), two_columns(left, left + fw - 1, top + 1, bottom, '│'), w, h);
    lemma_inside_concat(
        two_runs(top, bottom, left + 1, left + fw - 1, '─') + two_columns(left, left + fw - 1, top + 1, bottom, '│'),
        corners,
        w,
        h,
    );
    let border = border_strokes(left, left + fw, top, bottom);
    lemma_labels_inside(f.labels, y0, left, fw, w, h);
    lemma_inside_concat(border, labels_strokes(f.labels, y0, left, fw), w, h);
    let tee: Seq<Stroke> = if x0 != 0 || y0 != 0 {
        seq![(y0, x0 + f.center, '┷')]
    } else {
        Seq::empty()
    };
    lemma_inside_concat(border + labels_strokes(f.labels, y0, left, fw), tee, w, h);
}

/// A placed box drawn in the room set aside for it leaves no stroke outside.
proof fn lemma_paint_inside(f: FrameView, x0: int, y0: int, w: int, h: int)
    requires
        good(f, 1),
        placed(f),
        0 <= x0,
        x0 + f.total_width <= w,
        0 <= y0,
        y0 + f.total_height <= h,
    ensures
        inside(paint(f, x0, y0, 1), w, h),
    decreases f, 2int, 0int,
{
    lemma_frame_strokes_inside(f, x0, y0, w, h);
    lemma_hang_inside(f, x0, y0, w, h);
    lemma_inside_concat(frame_strokes(f, x0, y0), hang(f, x0, y0, 1), w, h);
}

proof fn lemma_hang_inside(f: FrameView, x0: int, y0: int, w: int, h: int)
    requires
        good(f, 1),
        placed(f),
        0 <= x0,
        x0 + f.total_width <= w,
        0 <= y0,
        y0 + f.total_height <= h,
    ensures
        inside(hang(f, x0, y0, 1), w, h),
    decreases f, 1int, 0int,
{
    let cs = f.children;
    let n = cs.len();
    if n > 0 {
        let cw = children_width(cs, 1);
        assert(tallest(cs) >= 0) by {
            lemma_tallest(cs, 0);
            assert(good(cs[0], 1));
        }
        let cy0 = if n > 1 {
            y0 + f.height + 1
        } else {
            y0 + f.height
        };
        let cx0 = if cw > f.width {
            x0
        } else {
            x0 + (f.width / cw) / 2
        };
        if cw <= f.width {
            lemma_children_start(f.width, cw);
        }
        assert(x0 <= cx0 && cx0 + cw <= x0 + f.total_width);
        assert forall|j: int| 0 <= j < n implies cy0 + (#[trigger] cs[j]).total_height <= h by {
            lemma_tallest(cs, j);
        }
        assert(cs.skip(0) =~= cs);
        lemma_kids_inside(cs, 0, cx0, cy0, y0 + f.height, x0 + f.center, w, h);
        lemma_inside_concat(
            seq![(y0 + f.height - 1, x0 + f.center, '┯')],
            paint_children(cs, 0, cx0, cy0, y0 + f.height, x0 + f.center, 1),
            w,
            h,
        );
    }
}

proof fn lemma_kids_inside(cs: Seq<FrameView>, i: int, cx: int, cy: int, y: int, mid: int, w: int, h: int)
    requires
        0 <= i,
        forall|j: int| 0 <= j < cs.len() ==> good(#[trigger] cs[j], 1),
        forall|j: int| 0 <= j < cs.len() ==> placed(#[trigger] cs[j]),
        forall|j: int| i <= j < cs.len() ==> cy + (#[trigger] cs[j]).total_height <= h,
        0 <= cx,
        0 <= cy,
        i < cs.len() ==> cx + sum_widths(cs.skip(i)) + (cs.len() - i - 1) <= w,
        cs.len() - i >= 2 ==> 0 <= y < h,
    ensures
        inside(paint_children(cs, i, cx, cy, y, mid, 1), w, h),
    decreases cs, 0int, cs.len() - i,
{
    let n = cs.len();
    if i < n {
        let c = cs[i];
        assert(good(c, 1) && placed(c));
        let rest = cs.skip(i + 1);
        assert(cs.skip(i) =~= seq![c] + rest);
        lemma_sum_first(c, rest);
        assert forall|k: int| 0 <= k < rest.len() implies (#[trigger] rest[k]).total_width >= 0 by {
            assert(rest[k] == cs[i + 1 + k]);
            assert(good(cs[i + 1 + k], 1));
        }
        lemma_sum_widths_nonneg(rest);
        assert(cx + c.total_width <= w);
        assert(cy + c.total_height <= h);
        lemma_paint_inside(c, cx, cy, w, h);
        let joints: Seq<Stroke> = if i == n - 1 {
            Seq::empty()
        } else {
            let start = cx + c.center + 1;
            let next = cs[i + 1];
            let end = cx + c.total_width + 1 + next.center;
            let merge = if i == n - 2 {
                '╮'
            } else if end == mid {
                '┼'
            } else {
                '┬'
            };
            joint_run(y, start, end, mid) + (if i == 0 {
                seq![(y, start - 1, '╭')]
            } else {
                Seq::empty()
            }) + seq![(y, end, merge)]
        };
        if i < n - 1 {
            let start = cx + c.center + 1;
            let next = cs[i + 1];
            assert(good(next, 1) && placed(next));
            let end = cx + c.total_width + 1 + next.center;
            let rest2 = cs.skip(i + 2);
            assert(rest =~= seq![next] + rest2);
            lemma_sum_first(next, rest2);
            assert forall|k: int| 0 <= k < rest2.len() implies (#[trigger] rest2[k]).total_width >= 0 by {
                assert(rest2[k] == cs[i + 2 + k]);
                assert(good(cs[i + 2 + k], 1));
            }
            lemma_sum_widths_nonneg(rest2);
            assert(end < w);
            let merge = if i == n - 2 {
                '╮'
            } else if end == mid {
                '┼'
            } else {
                '┬'
            };
            lemma_joint_inside(y, start, end, mid, w, h);
            let corner: Seq<Stroke> = if i == 0 {
                seq![(y, start - 1, '╭')]
            } else {
                Seq::empty()
            };
            lemma_inside_concat(joint_run(y, start, end, mid), corner, w, h);
            lemma_inside_concat(joint_run(y, start, end, mid) + corner, seq![(y, end, merge)], w, h);
            assert(joints == joint_run(y, start, end, mid) + corner + seq![(y, end, merge)]);
        }
        lemma_kids_inside(cs, i + 1, cx + c.total_width + 1, cy, y, mid, w, h);
        lemma_inside_concat(paint(c, cx, cy, 1), joints, w, h);
        lemma_inside_concat(
            paint(c, cx, cy, 1) + joints,
            paint_children(cs, i + 1, cx + c.total_width + 1, cy, y, mid, 1),
            w,
            h,
        );
    }
}

/// A tree whose boxes are each placed within the room set aside for them,
/// with narrow texts, is drawn whole: its pretty text exists whenever its
/// boxes can be built.
pub proof fn lemma_placed_pretty_text(d: DebugNode)
    requires
        frame_of(d, 1) is Some,
        placed(frame_of(d, 1)->0),
    ensures
        pretty_text(d, 1) is Some,
{
    let f = frame_of(d, 1)->0;
    lemma_frame_good(d, 1);
    lemma_paint_inside(f, 0, 0, f.total_width, f.total_height);
}

/// A box with no box below it is placed whenever its texts are narrow: its
/// pretty text exists whenever its box can be built.
pub proof fn lemma_leaf_pretty_text(d: DebugNode)
    requires
        d.children@.len() == 0,
        frame_of(d, 1) is Some,
        forall|j: int|
            0 <= j < frame_of(d, 1)->0.labels.len() ==> narrow_label(#[trigger] frame_of(d, 1)->0.labels[j]),
    ensures
        pretty_text(d, 1) is Some,
{
    let f = frame_of(d, 1)->0;
    assert(frames_of(d.children@, 1) == Some(Seq::<FrameView>::empty()));
    lemma_frame_good(d, 1);
    lemma_widest_nonneg(f.labels);
    assert(f.children.len() == 0);
    assert(placed(f));
    lemma_placed_pretty_text(d);
}

/// The pretty tree of `node` as text, its boxes one cell apart. `None` when
/// a box's rectangle is too large to write down, a size overflows, or a
/// line falls off the grid the tree is drawn on (where the drawing would
/// index out of bounds). `lemma_placed_pretty_text` gives when no line does.
pub fn render_pretty_tree(node: &DebugNode) -> (r: Option<String>)
    ensures
        match r {
            Some(t) => pretty_text(*node, 1) == Some(t@),
            None => pretty_text(*node, 1) is None,
        },
{
    let frame = match build_frame(node, 1) {
        Some(f) => f,
        None => {
            return None;
        },
    };
    proof {
        lemma_frame_good(*node, 1);
    }
    let mut canvas = Canvas::blank(frame.total_width, frame.total_height);
    if !paint_node(&mut canvas, &frame, 0, 0, 1) {
        return None;
    }
    let text = canvas.text();
    Some(string_from_chars(text.as_slice()))
}

impl DebugNode {
    /// The pretty tree of this snapshot; see `render_pretty_tree`.
    pub fn pretty_tree(&self) -> (r: Option<String>)
        ensures
            match r {
                Some(t) => pretty_text(*self, 1) == Some(t@),
                None => pretty_text(*self, 1) is None,
            },
    {
        render_pretty_tree(self)
    }
}

} // verus!
