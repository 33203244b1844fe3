//! A single-line text input: the editing buffer, its cursor and selection,
//! and word navigation over grapheme clusters.
use vstd::prelude::*;
use vstd::string::*;
use vstd::utf8::is_ascii_chars;
use crate::geom::{fits_i32, Pos2, Rect};
use crate::input::{Handled, ViewEvent};
use crate::keys::{Key, Modifiers};
use crate::text::{
    lemma_suffix_view, lemma_byte_offset_clamp, lemma_char_at_kept_prefix, lemma_char_at_offset,
    lemma_offset_is_boundary, lemma_byte_offset_take, lemma_byte_offset_concat, string_insert_str,
    string_remove_range,
    byte_len, byte_offset, char_at_byte, chars_from_byte_idx, chars_to_byte_idx, display_width,
    grapheme_indices, grapheme_split, clusters_view, clusters_well_placed, is_boundary, lemma_byte_offset_bounds, lemma_char_at_byte_bounds, lemma_byte_offset_mono,
    lemma_encode_len, lemma_char_utf8_len, lemma_prefix_boundary, lemma_prefix_view, str_byte_len, str_width, char_string,
};

verus! {

broadcast use vstd::seq::group_seq_axioms;

/// How a grapheme separates words.
#[derive(Copy, Clone, Debug, PartialEq, Eq, Structural)]
pub enum WordSep {
    Space,
    Punctuation,
    Other,
}

/// `char::is_ascii_whitespace`.
pub open spec fn is_ascii_ws(c: char) -> bool {
    c == ' ' || c == '\t' || c == '\n' || c == '\x0C' || c == '\r'
}

/// `char::is_ascii_punctuation`.
pub open spec fn is_ascii_punct(c: char) -> bool {
    ('!' <= c && c <= '/') || (':' <= c && c <= '@') || ('[' <= c && c <= '`') || ('{' <= c
        && c <= '~')
}

/// The separator class of a grapheme: non-ASCII and empty graphemes are
/// `Other`; otherwise the first char decides.
pub open spec fn word_sep_of(g: Seq<char>) -> WordSep {
    if !is_ascii_chars(g) || g.len() == 0 {
        WordSep::Other
    } else if is_ascii_ws(g[0]) {
        WordSep::Space
    } else if is_ascii_punct(g[0]) {
        WordSep::Punctuation
    } else {
        WordSep::Other
    }
}

/// Scans forward from cluster `j` for the first space cluster that follows a
/// cluster of another class (`prev` is the class of cluster `j - 1`).
pub open spec fn scan_next(gs: Seq<(usize, Seq<char>)>, j: int, prev: WordSep) -> Option<usize>
    decreases gs.len() - j,
{
    if j < 0 || j >= gs.len() {
        None
    } else {
        let cur = word_sep_of(gs[j].1);
        if cur == WordSep::Space && prev != cur {
            Some(gs[j].0)
        } else {
            scan_next(gs, j + 1, cur)
        }
    }
}

/// The byte offset of the first space cluster after cluster number `start`
/// that ends a run of another class.
pub open spec fn next_word_start(s: Seq<char>, start: int) -> Option<usize> {
    let gs = grapheme_split(s);
    if start >= gs.len() {
        None
    } else {
        scan_next(gs, start + 1, word_sep_of(gs[start].1))
    }
}

/// Scans backwards over clusters `idx - 1, idx - 2, ..` for a non-space
/// cluster directly preceded by a space cluster.
pub open spec fn scan_prev(gs: Seq<(usize, Seq<char>)>, idx: int) -> Option<usize>
    decreases idx,
{
    if idx <= 0 || idx > gs.len() {
        None
    } else {
        let i = idx - 1;
        if i > 0 && word_sep_of(gs[i].1) != WordSep::Space && word_sep_of(gs[i - 1].1)
            == WordSep::Space {
            Some(gs[i].0)
        } else {
            scan_prev(gs, idx - 1)
        }
    }
}

/// The byte offset where the clusters before `limit` give the start of the
/// word before it: `start` is a byte offset, turned into a char index and
/// used as a cluster number.
pub open spec fn prev_word_limit(s: Seq<char>, start: int) -> int {
    let c = char_at_byte(s, start);
    let gs = grapheme_split(s);
    if c < gs.len() {
        gs[c as int].0 as int
    } else {
        byte_len(s) as int
    }
}

/// The start of the word before byte `start`, searched among the clusters of
/// the text up to `prev_word_limit`.
pub open spec fn prev_word_start(s: Seq<char>, start: int) -> Option<usize> {
    let p = prev_word_limit(s, start);
    let prefix = s.take(char_at_byte(s, p) as int);
    scan_prev(grapheme_split(prefix), grapheme_split(prefix).len() as int)
}

proof fn lemma_scan_next_found(gs: Seq<(usize, Seq<char>)>, j: int, prev: WordSep)
    ensures
        scan_next(gs, j, prev) matches Some(o) ==> exists|i: int|
            j <= i < gs.len() && 0 <= i && #[trigger] gs[i].0 == o,
    decreases gs.len() - j,
{
    if 0 <= j < gs.len() {
        lemma_scan_next_found(gs, j + 1, word_sep_of(gs[j].1));
    }
}

proof fn lemma_scan_prev_found(gs: Seq<(usize, Seq<char>)>, idx: int)
    ensures
        scan_prev(gs, idx) matches Some(o) ==> exists|i: int|
            0 <= i < idx && i < gs.len() && #[trigger] gs[i].0 == o,
    decreases idx,
{
    if 0 < idx <= gs.len() {
        lemma_scan_prev_found(gs, idx - 1);
    }
}

impl WordSep {
    /// The separator class of a grapheme.
    pub fn new(data: &str) -> (r: WordSep)
        ensures
            r == word_sep_of(data@),
    {
        if !data.is_ascii() {
            return WordSep::Other;
        }
        if data.is_empty() {
            return WordSep::Other;
        }
        let c = data.get_char(0);
        if c == ' ' || c == '\t' || c == '\n' || c == '\x0C' || c == '\r' {
            WordSep::Space
        } else if ('!' <= c && c <= '/') || (':' <= c && c <= '@') || ('[' <= c && c <= '`') || (
        '{' <= c && c <= '~') {
            WordSep::Punctuation
        } else {
            WordSep::Other
        }
    }

    /// From cluster number `start`, the byte offset of the next space cluster
    /// that ends a word.
    pub fn find_next_word_start(data: &str, start: usize) -> (r: Option<usize>)
        ensures
            r == next_word_start(data@, start as int),
            r matches Some(o) ==> is_boundary(data@, o as int) && o >= start + 1,
    {
        let gs = grapheme_indices(data);
        let ghost g = grapheme_split(data@);
        if start >= gs.len() {
            return None;
        }
        assert(g[start as int] == (gs@[start as int].0, gs@[start as int].1@));
        let mut previous = WordSep::new(gs[start].1.as_str());
        let mut j = start + 1;
        while j < gs.len()
            invariant
                start < j <= gs@.len(),
                gs@.len() == g.len(),
                previous == word_sep_of(g[j - 1].1),
                scan_next(g, start + 1, word_sep_of(g[start as int].1)) == scan_next(
                    g,
                    j as int,
                    previous,
                ),
                g == clusters_view(gs@),
                g == grapheme_split(data@),
                clusters_well_placed(data@, g),
            decreases gs.len() - j,
        {
            assert(g[j as int] == (gs@[j as int].0, gs@[j as int].1@));
            let current = WordSep::new(gs[j].1.as_str());
            if current == WordSep::Space && previous != current {
                assert(scan_next(g, j as int, previous) == Some(g[j as int].0));
                assert(next_word_start(data@, start as int) == scan_next(g, start + 1, word_sep_of(g[start as int].1)));
                assert(g[j as int].0 == gs@[j as int].0);
                proof {
                    lemma_offsets_at_least_index(data@, g, j as int);
                }
                return Some(gs[j].0);
            }
            previous = current;
            j += 1;
        }
        None
    }

    /// The byte offset of the start of the word before byte `start`.
    pub fn find_prev_word(data: &str, start: usize) -> (r: Option<usize>)
        ensures
            r == prev_word_start(data@, start as int),
            r matches Some(o) ==> is_boundary(data@, o as int) && o <= prev_word_limit(
                data@,
                start as int,
            ),
    {
        let start_c = chars_from_byte_idx(data, start);
        let w = str_byte_len(data);
        let gs = grapheme_indices(data);
        let ghost g = grapheme_split(data@);
        let p = if start_c < gs.len() {
            assert(g[start_c as int] == (gs@[start_c as int].0, gs@[start_c as int].1@));
            gs[start_c].0
        } else {
            w
        };
        proof {
            vstd::utf8::encode_utf8_valid_utf8(data@);
            lemma_encode_len(data@);
            vstd::utf8::is_char_boundary_start_end_of_seq(vstd::utf8::encode_utf8(data@));
        }
        assert(is_boundary(data@, p as int));
        assert(p == prev_word_limit(data@, start as int));
        let (prefix, _) = data.split_at(p);
        proof {
            lemma_prefix_view(data@, prefix@, p as int);
            lemma_char_at_byte_bounds(data@, p as int);
        }
        let ghost k = char_at_byte(data@, p as int) as int;
        let hs = grapheme_indices(prefix);
        let ghost h = grapheme_split(prefix@);
        let mut idx = hs.len();
        while idx > 0
            invariant
                idx <= hs@.len(),
                hs@.len() == h.len(),
                scan_prev(h, h.len() as int) == scan_prev(h, idx as int),
                h == clusters_view(hs@),
                h == grapheme_split(prefix@),
                clusters_well_placed(prefix@, h),
                k == char_at_byte(data@, p as int),
                prefix@ == data@.take(k),
                0 <= k <= data@.len(),
                p == prev_word_limit(data@, start as int),
                byte_offset(data@, k) == p,
            decreases idx,
        {
            idx -= 1;
            assert(h[idx as int] == (hs@[idx as int].0, hs@[idx as int].1@));
            let current = WordSep::new(hs[idx].1.as_str());
            if idx > 0 {
                assert(h[idx - 1] == (hs@[idx - 1].0, hs@[idx - 1].1@));
                let next = WordSep::new(hs[idx - 1].1.as_str());
                if current != WordSep::Space && next == WordSep::Space {
                    assert(scan_prev(h, idx + 1) == Some(h[idx as int].0));
                    assert(prev_word_start(data@, start as int) == scan_prev(h, h.len() as int));
                    proof {
                        assert(is_boundary(prefix@, h[idx as int].0 as int));
                        lemma_prefix_boundary(data@, k, h[idx as int].0 as int);
                    }
                    return Some(hs[idx].0);
                }
            }
        }
        None
    }
}

/// Grapheme cluster number `j` starts at byte `j` or later.
proof fn lemma_offsets_at_least_index(s: Seq<char>, gs: Seq<(usize, Seq<char>)>, j: int)
    requires
        0 <= j < gs.len(),
        clusters_well_placed(s, gs),
    ensures
        gs[j].0 >= j,
    decreases j,
{
    if j > 0 {
        lemma_offsets_at_least_index(s, gs, j - 1);
        assert(gs[j - 1].0 < gs[j].0);
    }
}

/// The smaller of two char indices.
pub open spec fn min_usize(a: usize, b: usize) -> usize {
    if a < b {
        a
    } else {
        b
    }
}

/// The larger of two char indices.
pub open spec fn max_usize(a: usize, b: usize) -> usize {
    if a < b {
        b
    } else {
        a
    }
}

/// A char index clamped to the length of `s`.
pub open spec fn clamp_index(s: Seq<char>, k: int) -> int {
    if k < s.len() {
        k
    } else {
        s.len() as int
    }
}

/// Direction of a word-wise movement.
#[derive(Copy, Clone, Debug, PartialEq, Eq, Structural)]
pub enum Direction {
    Forward,
    Backward,
}

/// `v` clamped to `lo..=hi`.
pub open spec fn clamp_int(v: int, lo: int, hi: int) -> int {
    if v < lo {
        lo
    } else if v > hi {
        hi
    } else {
        v
    }
}

/// The sign of `d`: -1, 0 or 1.
pub open spec fn signum(d: int) -> int {
    if d > 0 {
        1
    } else if d < 0 {
        -1
    } else {
        0
    }
}

/// The magnitude of an `i32` step count.
pub open spec fn steps_of(d: i32) -> nat {
    if d < 0 {
        (-d) as nat
    } else {
        d as nat
    }
}

/// `k` steps of `sign` from `s`, clamping to `0..=total` after each step.
pub open spec fn clamped_walk(s: int, sign: int, k: nat, total: int) -> int
    decreases k,
{
    if k == 0 {
        s
    } else {
        clamped_walk(clamp_int(s + sign, 0, total), sign, (k - 1) as nat, total)
    }
}

/// Steps of `sign` from byte `e`, clamped to `0..=total`, until `rem` char
/// boundaries of `s` have been reached; gives the final byte and the number of
/// steps taken.
pub open spec fn boundary_walk(s: Seq<char>, e: int, sign: int, rem: nat, total: int) -> (int, nat)
    decreases rem, if sign > 0 { total - e } else { e },
    when 0 <= e <= total && (rem == 0 || sign == 1 || sign == -1) && (total == byte_len(s) as int)
{
    if rem == 0 {
        (e, 0)
    } else {
        let e2 = clamp_int(e + sign, 0, total);
        proof {
            vstd::utf8::encode_utf8_valid_utf8(s);
            lemma_encode_len(s);
            vstd::utf8::is_char_boundary_start_end_of_seq(vstd::utf8::encode_utf8(s));
        }
        if is_boundary(s, e2) {
            let r = boundary_walk(s, e2, sign, (rem - 1) as nat, total);
            (r.0, r.1 + 1)
        } else {
            let r = boundary_walk(s, e2, sign, rem, total);
            (r.0, r.1 + 1)
        }
    }
}

/// Where the selection lands when moved to `pos`: clamped below by 0 and
/// above by the displayed width (as an `i32`).
pub open spec fn select_target(s: Seq<char>, pos: i32) -> usize {
    let w = display_width(s) as i32;
    let p = if pos > 0 {
        pos
    } else {
        0i32
    };
    (if p < w {
        p
    } else {
        w
    }) as usize
}

/// The abstract state of a text input.
pub struct InnerModel {
    pub buf: Seq<char>,
    pub placeholder: Option<Seq<char>>,
    pub cursor: usize,
    pub selection: usize,
    pub changed: bool,
    pub submitted: bool,
}

impl InnerModel {
    pub open spec fn has_selection(self) -> bool {
        self.selection != self.cursor
    }

    /// The selected chars, between the cursor and the selection end.
    pub open spec fn selected(self) -> Seq<char> {
        self.buf.subrange(
            clamp_index(self.buf, min_usize(self.cursor, self.selection) as int),
            clamp_index(self.buf, max_usize(self.cursor, self.selection) as int),
        )
    }

    pub open spec fn clear(self) -> InnerModel {
        InnerModel {
            buf: Seq::empty(),
            cursor: 0,
            selection: 0,
            submitted: false,
            changed: true,
            ..self
        }
    }

    pub open spec fn cancel_select(self) -> InnerModel {
        InnerModel { cursor: self.selection, ..self }
    }

    pub open spec fn reset_select(self) -> InnerModel {
        InnerModel { selection: self.cursor, ..self }
    }

    pub open spec fn with_cursor(self, c: usize) -> InnerModel {
        InnerModel { cursor: c, selection: c, ..self }
    }

    pub open spec fn move_to_end(self) -> InnerModel {
        self.with_cursor(display_width(self.buf) as usize)
    }

    pub open spec fn move_to_start(self) -> InnerModel {
        self.with_cursor(0)
    }

    /// Room to insert `data` without exceeding the largest string.
    pub open spec fn can_append(self, data: Seq<char>) -> bool {
        byte_len(self.buf) + byte_len(data) <= isize::MAX
    }

    pub open spec fn append(self, data: Seq<char>) -> InnerModel {
        if display_width(data) == 0 {
            self
        } else {
            let k = clamp_index(self.buf, self.cursor as int);
            InnerModel {
                buf: self.buf.take(k) + data + self.buf.skip(k),
                cursor: (k + data.len()) as usize,
                selection: (k + data.len()) as usize,
                changed: true,
                ..self
            }
        }
    }

    pub open spec fn delete_selection(self) -> InnerModel {
        if !self.has_selection() {
            self
        } else {
            let lo = min_usize(self.cursor, self.selection);
            let hi = max_usize(self.cursor, self.selection);
            InnerModel {
                buf: self.buf.take(clamp_index(self.buf, lo as int)) + self.buf.skip(
                    clamp_index(self.buf, hi as int),
                ),
                cursor: lo,
                selection: lo,
                changed: true,
                ..self
            }
        }
    }

    pub open spec fn overwrite_selection(self, data: Seq<char>) -> InnerModel {
        self.delete_selection().append(data)
    }

    pub open spec fn move_word(self, dir: Direction) -> InnerModel {
        self.with_cursor(
            match dir {
                Direction::Forward => match next_word_start(self.buf, self.cursor as int) {
                    Some(o) => o,
                    None => display_width(self.buf) as usize,
                },
                Direction::Backward => match prev_word_start(self.buf, self.cursor as int) {
                    Some(o) => o,
                    None => 0,
                },
            },
        )
    }

    /// The displayed width fits an `i32` (clamping to it needs a non-negative bound).
    pub open spec fn width_fits(self) -> bool {
        display_width(self.buf) as i32 >= 0
    }

    pub open spec fn move_cursor(self, delta: i32) -> InnerModel {
        let r = clamped_walk(
            self.selection as i32 as int,
            signum(delta as int),
            steps_of(delta),
            (display_width(self.buf) as i32) as int,
        );
        self.with_cursor(r as i32 as usize)
    }

    pub open spec fn select_range(self, pos: i32) -> InnerModel {
        InnerModel { selection: select_target(self.buf, pos), ..self }
    }

    pub open spec fn select(self, delta: i32) -> InnerModel {
        self.select_range((self.selection as i32 + delta) as i32)
    }

    pub open spec fn select_start(self) -> InnerModel {
        self.select_range(0)
    }

    pub open spec fn select_end(self) -> InnerModel {
        self.select_range(display_width(self.buf) as i32)
    }

    pub open spec fn select_word(self, dir: Direction) -> InnerModel {
        let s = self.buf;
        let b = byte_offset(s, self.selection as int) as int;
        let pos = match dir {
            Direction::Forward => match next_word_start(s, b) {
                Some(o) => o as int,
                None => byte_len(s) as int,
            },
            Direction::Backward => match prev_word_start(s, b) {
                Some(o) => o as int,
                None => 0,
            },
        };
        self.select_range(char_at_byte(s, pos) as i32)
    }

    /// The start of the previous word lies before the cursor, so that deleting
    /// back to it is a well-formed byte range.
    pub open spec fn prev_word_fits(self) -> bool {
        let b = byte_offset(self.buf, self.cursor as int) as int;
        prev_word_start(self.buf, b) matches Some(o) ==> o <= b
    }

    pub open spec fn delete_word(self, dir: Direction) -> InnerModel {
        let s = self.buf;
        let b = byte_offset(s, self.cursor as int) as int;
        match dir {
            Direction::Forward => {
                let e = match next_word_start(s, b) {
                    Some(o) => o as int,
                    None => byte_len(s) as int,
                };
                InnerModel {
                    buf: s.take(char_at_byte(s, b) as int) + s.skip(char_at_byte(s, e) as int),
                    selection: self.cursor,
                    changed: true,
                    ..self
                }
            },
            Direction::Backward => {
                let st = match prev_word_start(s, b) {
                    Some(o) => o as int,
                    None => 0,
                };
                InnerModel {
                    buf: s.take(char_at_byte(s, st) as int) + s.skip(char_at_byte(s, b) as int),
                    cursor: char_at_byte(s, st) as usize,
                    selection: char_at_byte(s, st) as usize,
                    changed: true,
                    ..self
                }
            },
        }
    }

    /// Byte offsets of the text fit an `i32`.
    pub open spec fn bytes_fit(self) -> bool {
        byte_len(self.buf) <= i32::MAX
    }

    pub open spec fn delete(self, delta: i32) -> InnerModel {
        let s = self.buf;
        let anchor = byte_offset(s, self.cursor as int) as int;
        let w = boundary_walk(s, anchor, signum(delta as int), steps_of(delta), byte_len(s) as int);
        let lo = if anchor < w.0 {
            anchor
        } else {
            w.0
        };
        let hi = if anchor < w.0 {
            w.0
        } else {
            anchor
        };
        let c = if delta < 0 {
            if self.cursor >= w.1 {
                (self.cursor - w.1) as usize
            } else {
                0
            }
        } else {
            self.cursor
        };
        InnerModel {
            buf: s.take(char_at_byte(s, lo) as int) + s.skip(char_at_byte(s, hi) as int),
            cursor: c,
            selection: c,
            changed: true,
            ..self
        }
    }
}

/// The editing state of a text input. `cursor` and `selection` are char
/// indices; the selection is the range between them.
#[derive(Debug)]
pub struct Inner {
    pub buf: String,
    pub placeholder: Option<String>,
    pub cursor: usize,
    pub selection: usize,
    pub changed: bool,
    pub submitted: bool,
}

impl View for Inner {
    type V = InnerModel;

    open spec fn view(&self) -> InnerModel {
        InnerModel {
            buf: self.buf@,
            placeholder: match self.placeholder {
                Some(p) => Some(p@),
                None => None,
            },
            cursor: self.cursor,
            selection: self.selection,
            changed: self.changed,
            submitted: self.submitted,
        }
    }
}

impl Inner {
    /// An empty input with the cursor at the start.
    pub fn new() -> (r: Inner)
        ensures
            r@ == (InnerModel {
                buf: Seq::empty(),
                placeholder: None,
                cursor: 0,
                selection: 0,
                changed: false,
                submitted: false,
            }),
    {
        Inner {
            buf: String::new(),
            placeholder: None,
            cursor: 0,
            selection: 0,
            changed: false,
            submitted: false,
        }
    }

    /// Is some text selected?
    pub fn has_selection(&self) -> (r: bool)
        ensures
            r == self@.has_selection(),
    {
        self.selection != self.cursor
    }

    /// The selected text, if any.
    pub fn selection_buffer(&self) -> (r: Option<&str>)
        ensures
            r is Some <==> self@.has_selection(),
            r matches Some(t) ==> t@ == self@.selected(),
    {
        if !self.has_selection() {
            return None;
        }
        let s = self.buf.as_str();
        let lo = if self.cursor < self.selection {
            self.cursor
        } else {
            self.selection
        };
        let hi = if self.cursor < self.selection {
            self.selection
        } else {
            self.cursor
        };
        let lo_b = chars_to_byte_idx(s, lo);
        let hi_b = chars_to_byte_idx(s, hi);
        let ghost kl = clamp_index(s@, lo as int);
        let ghost kh = clamp_index(s@, hi as int);
        proof {
            lemma_byte_offset_clamp(s@, lo as int);
            lemma_byte_offset_clamp(s@, hi as int);
            lemma_offset_is_boundary(s@, kh);
            lemma_char_at_offset(s@, kh);
        }
        let (head, _) = s.split_at(hi_b);
        proof {
            lemma_prefix_view(s@, head@, hi_b as int);
            lemma_byte_offset_take(s@, kh, kl);
            lemma_offset_is_boundary(head@, kl);
            lemma_char_at_offset(head@, kl);
            lemma_encode_len(head@);
        }
        let (_, mid) = head.split_at(lo_b);
        proof {
            lemma_suffix_view(head@, mid@, lo_b as int);
            assert(mid@ =~= s@.subrange(kl, kh));
        }
        Some(mid)
    }

    /// Empties the buffer and marks the input as changed.
    pub fn clear(&mut self)
        ensures
            final(self)@ == old(self)@.clear(),
    {
        self.buf = String::new();
        self.cursor = 0;
        self.selection = 0;
        self.submitted = false;
        self.changed = true;
    }

    /// Drops the selection, moving the cursor to the selection end.
    pub fn cancel_select(&mut self)
        ensures
            final(self)@ == old(self)@.cancel_select(),
    {
        self.cursor = self.selection;
    }

    /// Drops the selection, keeping the cursor where it is.
    pub fn reset_select(&mut self)
        ensures
            final(self)@ == old(self)@.reset_select(),
    {
        self.selection = self.cursor;
    }

    /// Moves the cursor to the displayed width of the text.
    pub fn move_to_end(&mut self)
        ensures
            final(self)@ == old(self)@.move_to_end(),
    {
        self.cursor = str_width(self.buf.as_str());
        self.reset_select();
    }

    /// Moves the cursor to the start of the text.
    pub fn move_to_start(&mut self)
        ensures
            final(self)@ == old(self)@.move_to_start(),
    {
        self.cursor = 0;
        self.reset_select();
    }

    /// Inserts `data` at the cursor and moves the cursor after it. Text with
    /// no displayed width is ignored.
    pub fn append(&mut self, data: &str)
        requires
            old(self)@.can_append(data@),
        ensures
            final(self)@ == old(self)@.append(data@),
    {
        let w = str_width(data);
        if w == 0 {
            return;
        }
        let ghost old_buf = self.buf@;
        let ghost k = clamp_index(old_buf, self.cursor as int);
        let index = chars_to_byte_idx(self.buf.as_str(), self.cursor);
        let dlen = str_byte_len(data);
        proof {
            lemma_byte_offset_clamp(old_buf, self.cursor as int);
            lemma_offset_is_boundary(old_buf, k);
            lemma_byte_offset_bounds(old_buf, k);
            lemma_char_at_offset(old_buf, k);
        }
        string_insert_str(&mut self.buf, index, data);
        proof {
            let n = old_buf.take(k) + data@;
            assert(self.buf@ =~= n + old_buf.skip(k));
            lemma_byte_offset_concat(n, old_buf.skip(k), k + data@.len());
            lemma_byte_offset_concat(old_buf.take(k), data@, k + data@.len());
            lemma_byte_offset_take(old_buf, k, k);
            lemma_byte_offset_bounds(old_buf.take(k), k);
            lemma_byte_offset_bounds(data@, data@.len() as int);
            lemma_char_at_offset(self.buf@, k + data@.len());
        }
        self.cursor = chars_from_byte_idx(self.buf.as_str(), index + dlen);
        self.reset_select();
        self.changed = true;
    }

    /// Removes the selected text, leaving the cursor at the start of where it was.
    pub fn delete_selection(&mut self)
        ensures
            final(self)@ == old(self)@.delete_selection(),
    {
        if !self.has_selection() {
            return;
        }
        let ghost old_buf = self.buf@;
        let lo = if self.selection < self.cursor {
            self.selection
        } else {
            self.cursor
        };
        let hi = if self.selection < self.cursor {
            self.cursor
        } else {
            self.selection
        };
        let start = chars_to_byte_idx(self.buf.as_str(), lo);
        let end = chars_to_byte_idx(self.buf.as_str(), hi);
        proof {
            let kl = clamp_index(old_buf, lo as int);
            let kh = clamp_index(old_buf, hi as int);
            lemma_byte_offset_clamp(old_buf, lo as int);
            lemma_byte_offset_clamp(old_buf, hi as int);
            lemma_offset_is_boundary(old_buf, kl);
            lemma_offset_is_boundary(old_buf, kh);
            lemma_char_at_offset(old_buf, kl);
            lemma_char_at_offset(old_buf, kh);
            lemma_byte_offset_mono(old_buf, kl, kh);
        }
        string_remove_range(&mut self.buf, start, end);
        if self.selection < self.cursor {
            self.cursor = self.selection;
        }
        self.reset_select();
        self.changed = true;
    }

    /// Replaces the selection (if any) by `data`.
    pub fn overwrite_selection(&mut self, data: &str)
        requires
            old(self)@.can_append(data@),
        ensures
            final(self)@ == old(self)@.overwrite_selection(data@),
    {
        proof {
            lemma_byte_len_remove(
                old(self).buf@,
                min_usize(old(self).cursor, old(self).selection) as int,
                max_usize(old(self).cursor, old(self).selection) as int,
            );
        }
        self.delete_selection();
        self.append(data);
    }

    /// Moves the cursor a word forwards or backwards and drops the selection.
    pub fn move_word(&mut self, dir: Direction)
        ensures
            final(self)@ == old(self)@.move_word(dir),
    {
        self.cursor = match dir {
            Direction::Forward => {
                match WordSep::find_next_word_start(self.buf.as_str(), self.cursor) {
                    Some(o) => o,
                    None => str_width(self.buf.as_str()),
                }
            },
            Direction::Backward => {
                match WordSep::find_prev_word(self.buf.as_str(), self.cursor) {
                    Some(o) => o,
                    None => 0,
                }
            },
        };
        self.reset_select();
    }

    /// Moves the selection end by `delta` chars, one step at a time within
    /// `0..=width`, then puts the cursor there too.
    pub fn move_cursor(&mut self, delta: i32)
        requires
            delta != i32::MIN,
            old(self)@.width_fits(),
        ensures
            final(self)@ == old(self)@.move_cursor(delta),
    {
        let total = str_width(self.buf.as_str()) as i32;
        let mut cursor: i32 = self.selection as i32;
        let sign: i32 = if delta > 0 {
            1
        } else if delta < 0 {
            -1
        } else {
            0
        };
        let mut remaining: i32 = if delta < 0 {
            -delta
        } else {
            delta
        };
        let ghost steps: nat = remaining as nat;
        let ghost start: int = cursor as int;
        while remaining > 0
            invariant
                0 <= remaining,
                sign == signum(delta as int),
                total >= 0,
                clamped_walk(start, sign as int, steps, total as int) == clamped_walk(
                    cursor as int,
                    sign as int,
                    remaining as nat,
                    total as int,
                ),
            decreases remaining,
        {
            let next: i32 = if sign > 0 && cursor == i32::MAX {
                cursor
            } else if sign < 0 && cursor == i32::MIN {
                cursor
            } else {
                cursor + sign
            };
            cursor = if next < 0 {
                0
            } else if next > total {
                total
            } else {
                next
            };
            let index = chars_to_byte_idx(self.buf.as_str(), cursor as usize);
            proof {
                lemma_offset_is_boundary(self.buf@, cursor as int);
            }
            if self.buf.as_str().is_char_boundary(index) {
                remaining -= 1;
            }
        }
        self.selection = cursor as usize;
        if self.has_selection() {
            self.cursor = self.selection;
        }
    }

    /// Moves the selection end by `delta` chars.
    pub fn select(&mut self, delta: i32)
        requires
            fits_i32(old(self).selection as i32 + delta),
        ensures
            final(self)@ == old(self)@.select(delta),
    {
        self.select_range(self.selection as i32 + delta);
    }

    /// Moves the selection end to `pos`, clamped to `0..=width`.
    pub fn select_range(&mut self, pos: i32)
        ensures
            final(self)@ == old(self)@.select_range(pos),
    {
        let w = str_width(self.buf.as_str()) as i32;
        let p = if pos > 0 {
            pos
        } else {
            0
        };
        let p = if p < w {
            p
        } else {
            w
        };
        self.selection = p as usize;
    }

    /// Extends the selection to the start of the text.
    pub fn select_start(&mut self)
        ensures
            final(self)@ == old(self)@.select_start(),
    {
        self.select_range(0);
    }

    /// Extends the selection to the end of the text.
    pub fn select_end(&mut self)
        ensures
            final(self)@ == old(self)@.select_end(),
    {
        let w = str_width(self.buf.as_str());
        self.select_range(w as i32);
    }

    /// Extends the selection a word forwards or backwards.
    pub fn select_word(&mut self, dir: Direction)
        ensures
            final(self)@ == old(self)@.select_word(dir),
    {
        let b = chars_to_byte_idx(self.buf.as_str(), self.selection);
        let pos = match dir {
            Direction::Forward => match WordSep::find_next_word_start(self.buf.as_str(), b) {
                Some(o) => o,
                None => str_byte_len(self.buf.as_str()),
            },
            Direction::Backward => match WordSep::find_prev_word(self.buf.as_str(), b) {
                Some(o) => o,
                None => 0,
            },
        };
        let pos = chars_from_byte_idx(self.buf.as_str(), pos);
        self.select_range(pos as i32);
    }

    /// Deletes from the cursor to the next word start, or back to the start of
    /// the previous word.
    pub fn delete_word(&mut self, dir: Direction)
        requires
            dir == Direction::Backward ==> old(self)@.prev_word_fits(),
        ensures
            final(self)@ == old(self)@.delete_word(dir),
    {
        let ghost s = self.buf@;
        let b = chars_to_byte_idx(self.buf.as_str(), self.cursor);
        proof {
            lemma_byte_offset_clamp(s, self.cursor as int);
            lemma_offset_is_boundary(s, self.cursor as int);
            lemma_byte_offset_bounds(s, self.cursor as int);
            vstd::utf8::encode_utf8_valid_utf8(s);
            lemma_encode_len(s);
            vstd::utf8::is_char_boundary_start_end_of_seq(vstd::utf8::encode_utf8(s));
        }
        match dir {
            Direction::Forward => {
                let end = match WordSep::find_next_word_start(self.buf.as_str(), b) {
                    Some(o) => o,
                    None => str_byte_len(self.buf.as_str()),
                };
                string_remove_range(&mut self.buf, b, end);
            },
            Direction::Backward => {
                let start = match WordSep::find_prev_word(self.buf.as_str(), b) {
                    Some(o) => o,
                    None => 0,
                };
                string_remove_range(&mut self.buf, start, b);
                proof {
                    crate::text::lemma_boundary_iff(s, start as int);
                    lemma_char_at_byte_bounds(s, start as int);
                    lemma_char_at_kept_prefix(
                        s,
                        s.skip(char_at_byte(s, b as int) as int),
                        char_at_byte(s, start as int) as int,
                    );
                }
                self.cursor = chars_from_byte_idx(self.buf.as_str(), start);
            },
        }
        self.reset_select();
        self.changed = true;
    }

    /// Deletes `delta` chars after the cursor (or `-delta` before it),
    /// stepping byte by byte to char boundaries.
    pub fn delete(&mut self, delta: i32)
        requires
            delta != i32::MIN,
            old(self)@.bytes_fit(),
        ensures
            final(self)@ == old(self)@.delete(delta),
    {
        let ghost s = self.buf@;
        let anchor = chars_to_byte_idx(self.buf.as_str(), self.cursor);
        let total_len = str_byte_len(self.buf.as_str());
        let total = total_len as i32;
        proof {
            lemma_byte_offset_clamp(s, self.cursor as int);
            lemma_offset_is_boundary(s, self.cursor as int);
            lemma_byte_offset_bounds(s, self.cursor as int);
            vstd::utf8::encode_utf8_valid_utf8(s);
            lemma_encode_len(s);
            vstd::utf8::is_char_boundary_start_end_of_seq(vstd::utf8::encode_utf8(s));
        }
        let sign: i32 = if delta > 0 {
            1
        } else if delta < 0 {
            -1
        } else {
            0
        };
        let mut end: i32 = anchor as i32;
        let mut remaining: i32 = if delta < 0 {
            -delta
        } else {
            delta
        };
        let mut len: usize = 0;
        let ghost steps: nat = remaining as nat;
        let ghost dist0: int = if sign > 0 {
            total - end
        } else {
            end as int
        };
        while remaining > 0
            invariant
                0 <= remaining <= steps,
                steps == steps_of(delta),
                sign == signum(delta as int),
                total as int == byte_len(s),
                self.buf@ == s,
                0 <= end <= total,
                0 <= dist0 <= total,
                is_boundary(s, end as int) || remaining > 0,
                remaining > 0 ==> sign == 1 || sign == -1,
                len + remaining + (if sign > 0 {
                    total - end
                } else if sign < 0 {
                    end as int
                } else {
                    0
                }) <= steps + dist0,
                boundary_walk(s, anchor as int, sign as int, steps, total as int).0 == boundary_walk(
                    s,
                    end as int,
                    sign as int,
                    remaining as nat,
                    total as int,
                ).0,
                boundary_walk(s, anchor as int, sign as int, steps, total as int).1 == boundary_walk(
                    s,
                    end as int,
                    sign as int,
                    remaining as nat,
                    total as int,
                ).1 + len,
            decreases remaining, if sign > 0 {
                total - end
            } else {
                end as int
            },
        {
            let next = if sign > 0 && end == i32::MAX {
                end
            } else {
                end + sign
            };
            end = if next < 0 {
                0
            } else if next > total {
                total
            } else {
                next
            };
            len += 1;
            if self.buf.as_str().is_char_boundary(end as usize) {
                remaining -= 1;
            }
        }
        if delta < 0 {
            self.cursor = self.cursor.saturating_sub(len);
        }
        let end = end as usize;
        let start = if anchor < end {
            anchor
        } else {
            end
        };
        let stop = if anchor < end {
            end
        } else {
            anchor
        };
        string_remove_range(&mut self.buf, start, stop);
        self.reset_select();
        self.changed = true;
    }
}

impl Inner {
    /// A copy of the editing state.
    pub fn snapshot(&self) -> (r: Inner)
        ensures
            r@ == self@,
    {
        Inner {
            buf: self.buf.clone(),
            placeholder: match &self.placeholder {
                Some(p) => Some(p.clone()),
                None => None,
            },
            cursor: self.cursor,
            selection: self.selection,
            changed: self.changed,
            submitted: self.submitted,
        }
    }
}

/// What a key press does to the editing state, or `None` when the view lets
/// the key bubble (the key is not used, or the edit would not be well-formed).
pub open spec fn key_effect(m: InnerModel, key: Key, mods: Modifiers) -> Option<InnerModel> {
    let sel = m.has_selection();
    let ctrl = mods.has(crate::keys::ctrl_bit());
    let shift = mods.has(crate::keys::shift_bit());
    let none = mods.0 == 0;
    match key {
        Key::Escape => Some(m.cancel_select()),
        Key::Char(ch) => if !ctrl {
            if !sel {
                Some(m.append(seq![ch]))
            } else {
                Some(m.overwrite_selection(seq![ch]))
            }
        } else if ch == 'w' && mods.0 == crate::keys::ctrl_bit() {
            if m.prev_word_fits() {
                Some(m.delete_word(Direction::Backward))
            } else {
                None
            }
        } else {
            None
        },
        Key::Backspace => if none && !sel {
            if m.bytes_fit() {
                Some(m.delete(-1i32))
            } else {
                None
            }
        } else if !sel {
            if m.prev_word_fits() {
                Some(m.delete_word(Direction::Backward))
            } else {
                None
            }
        } else {
            Some(m.delete_selection())
        },
        Key::Delete => if none && !sel {
            if m.bytes_fit() {
                Some(m.delete(1i32))
            } else {
                None
            }
        } else if !sel {
            Some(m.delete_word(Direction::Forward))
        } else {
            Some(m.delete_selection())
        },
        Key::Left => if none {
            if m.width_fits() {
                Some(m.move_cursor(-1i32))
            } else {
                None
            }
        } else if shift && ctrl {
            Some(m.select_word(Direction::Backward))
        } else if shift {
            if fits_i32(m.selection as i32 - 1) {
                Some(m.select(-1i32))
            } else {
                None
            }
        } else {
            Some(m.move_word(Direction::Backward))
        },
        Key::Right => if none {
            if m.width_fits() {
                Some(m.move_cursor(1i32))
            } else {
                None
            }
        } else if shift && ctrl {
            Some(m.select_word(Direction::Forward))
        } else if shift {
            if fits_i32(m.selection as i32 + 1) {
                Some(m.select(1i32))
            } else {
                None
            }
        } else {
            Some(m.move_word(Direction::Forward))
        },
        Key::Home => if shift {
            Some(m.select_start())
        } else {
            Some(m.move_to_start())
        },
        Key::End => if shift {
            Some(m.select_end())
        } else {
            Some(m.move_to_end())
        },
        Key::Enter => Some(InnerModel { submitted: true, ..m }),
        _ => None,
    }
}

/// The integer arithmetic of placing the cursor from a click at `pos` inside
/// `rect` stays within `i32`.
pub open spec fn click_fits(m: InnerModel, pos: Pos2, rect: Rect) -> bool {
    let offset = rect.min.x - 1;
    let left = pos.x - offset;
    let width = rect.max.x - rect.min.x;
    let diff = width - (min_usize(m.cursor, m.selection) as i32);
    &&& fits_i32(offset)
    &&& fits_i32(left)
    &&& fits_i32(width)
    &&& fits_i32(diff)
    &&& fits_i32(left - 1)
    &&& fits_i32(left - diff)
}

/// Where a click at `pos` inside `rect` puts the cursor.
pub open spec fn click_target(m: InnerModel, pos: Pos2, rect: Rect) -> usize {
    let left = pos.x - (rect.min.x - 1);
    let diff = (rect.max.x - rect.min.x) - (min_usize(m.cursor, m.selection) as i32);
    let w = display_width(m.buf);
    if diff > 0 {
        let a = if left - 1 > 0 {
            left - 1
        } else {
            0
        };
        let w32 = w as i32 as int;
        (if a < w32 {
            a
        } else {
            w32
        }) as i32 as usize
    } else {
        let abs = if left - diff < 0 {
            -(left - diff)
        } else {
            left - diff
        };
        let abs = abs as u32 as usize;
        if abs < w {
            abs
        } else {
            w as usize
        }
    }
}

/// The integer arithmetic of a drag from `start` to `current` inside `rect`
/// stays within `i32` and `usize`.
pub open spec fn drag_fits(m: InnerModel, start: Pos2, current: Pos2, rect: Rect) -> bool {
    let offset = rect.min.x + 1;
    let c = start.x - offset;
    let s = current.x - offset;
    let width = rect.max.x - rect.min.x;
    &&& fits_i32(offset)
    &&& fits_i32(c)
    &&& fits_i32(s)
    &&& fits_i32(width)
    &&& fit_cursor_fits(c as i32 as usize, s as i32 as usize, width as i32)
    &&& fits_i32(c + fit_cursor_shift(c as i32 as usize, s as i32 as usize, width as i32))
    &&& fits_i32(s + fit_cursor_shift(c as i32 as usize, s as i32 as usize, width as i32))
}

/// How far `fit_cursor` shifts the view: 0 when the selection end is inside
/// `width`, else the (non-positive) overshoot.
pub open spec fn fit_cursor_shift(cursor: usize, selection: usize, width: i32) -> int {
    let diff = width - (selection as i32);
    if diff > 0 {
        0
    } else {
        diff
    }
}

/// The arithmetic of `fit_cursor` stays within `i32` and `usize`.
pub open spec fn fit_cursor_fits(cursor: usize, selection: usize, width: i32) -> bool {
    let diff = width - (selection as i32);
    fits_i32(diff) && (diff <= 0 ==> max_usize(cursor, selection) + (width as usize) <= usize::MAX)
}

/// A char index clamped to the displayed width.
pub open spec fn clamp_width(m: InnerModel, k: usize) -> usize {
    let w = display_width(m.buf);
    if k < w {
        k
    } else {
        w as usize
    }
}

/// Where a drag from `start` to `current` inside `rect` puts the cursor and
/// the selection end.
pub open spec fn drag_targets(m: InnerModel, start: Pos2, current: Pos2, rect: Rect) -> (usize, usize) {
    let offset = rect.min.x + 1;
    let c = start.x - offset;
    let s = current.x - offset;
    let shift = fit_cursor_shift(c as i32 as usize, s as i32 as usize, (rect.max.x - rect.min.x) as i32);
    (
        clamp_width(m, (c + shift) as i32 as usize),
        clamp_width(m, (s + shift) as i32 as usize),
    )
}

/// The arithmetic for handling `event` stays in range.
pub open spec fn event_fits(m: InnerModel, event: ViewEvent, rect: Rect) -> bool {
    match event {
        ViewEvent::MouseClicked { pos, inside, .. } => inside ==> click_fits(m, pos, rect),
        ViewEvent::MouseDrag { start, current, inside, .. } => inside ==> drag_fits(
            m,
            start,
            current,
            rect,
        ),
        ViewEvent::KeyInput { .. } => byte_len(m.buf) + 4 <= isize::MAX,
        _ => true,
    }
}

/// How the input view answers an event, and its editing state afterwards.
pub open spec fn event_effect(m: InnerModel, event: ViewEvent, rect: Rect) -> (Handled, InnerModel) {
    let m0 = InnerModel { submitted: false, ..m };
    match event {
        ViewEvent::MouseClicked { pos, inside, .. } => if inside {
            (Handled::Sink, m0.with_cursor(click_target(m0, pos, rect)))
        } else {
            (Handled::Bubble, m0)
        },
        ViewEvent::MouseDrag { start, current, inside, .. } => if inside {
            let (c, s) = drag_targets(m0, start, current, rect);
            (Handled::Sink, InnerModel { cursor: c, selection: s, ..m0 })
        } else {
            (Handled::Bubble, m0)
        },
        ViewEvent::KeyInput { key, modifiers } => match key_effect(m0, key, modifiers) {
            Some(m1) => (Handled::Sink, m1),
            None => (Handled::Bubble, m0),
        },
        _ => (Handled::Bubble, m0),
    }
}

/// Shifts the visible window over `data` so that the selection end stays
/// inside `width` columns: gives the shift and the byte range to draw.
pub fn fit_cursor(data: &str, cursor: usize, selection: usize, width: i32) -> (r: (i32, usize, usize))
    requires
        fit_cursor_fits(cursor, selection, width),
    ensures
        r.0 == fit_cursor_shift(cursor, selection, width),
        r.1 == 0,
        width - (selection as i32) > 0 ==> r.2 == byte_offset(
            data@,
            max_usize(max_usize(cursor, selection), width as usize) as int,
        ),
        width - (selection as i32) <= 0 ==> r.2 == byte_offset(
            data@,
            max_usize(cursor, selection) + (width as usize),
        ),
{
    let diff = width - selection as i32;
    let m = if cursor < selection {
        selection
    } else {
        cursor
    };
    if diff > 0 {
        let w = width as usize;
        let end = if m < w {
            w
        } else {
            m
        };
        return (0, 0, chars_to_byte_idx(data, end));
    }
    let start = chars_to_byte_idx(data, m + width as usize);
    let len = str_byte_len(data);
    proof {
        lemma_byte_offset_bounds(data@, m + (width as usize));
    }
    let shift = if diff < 0 {
        diff
    } else {
        0
    };
    (shift, 0, if start < len {
        start
    } else {
        len
    })
}

/// The builder for a text input.
pub struct TextInput<'a> {
    pub enabled: bool,
    pub placeholder: Option<&'a str>,
    pub initial: Option<&'a str>,
}

impl<'a> TextInput<'a> {
    pub fn enabled(self, enabled: bool) -> (r: TextInput<'a>)
        ensures
            r == (TextInput { enabled, ..self }),
    {
        TextInput { enabled, ..self }
    }

    pub fn placeholder(self, text: &'a str) -> (r: TextInput<'a>)
        ensures
            r == (TextInput { placeholder: Some(text), ..self }),
    {
        TextInput { placeholder: Some(text), ..self }
    }

    pub fn initial(self, text: &'a str) -> (r: TextInput<'a>)
        ensures
            r == (TextInput { initial: Some(text), ..self }),
    {
        TextInput { initial: Some(text), ..self }
    }
}

/// A text input that is enabled, with no placeholder and no initial text.
pub fn text_input<'a>() -> (r: TextInput<'a>)
    ensures
        r.enabled,
        r.placeholder is None,
        r.initial is None,
{
    TextInput { enabled: true, placeholder: None, initial: None }
}

/// The state of a text input as its user sees it after an update.
pub struct TextInputResponse {
    pub state: Inner,
    pub submitted: Option<String>,
}

impl TextInputResponse {
    pub fn changed(&self) -> (r: bool)
        ensures
            r == self.state.changed,
    {
        self.state.changed
    }

    pub fn cursor(&self) -> (r: usize)
        ensures
            r == self.state.cursor,
    {
        self.state.cursor
    }

    pub fn data(&self) -> (r: &str)
        ensures
            r@ == self.state.buf@,
    {
        self.state.buf.as_str()
    }

    /// The submitted text, unless it is empty.
    pub fn submitted(&self) -> (r: Option<&str>)
        ensures
            r is Some <==> (self.submitted matches Some(s) && s@.len() > 0),
            r matches Some(t) ==> self.submitted matches Some(s) && t@ == s@,
    {
        match &self.submitted {
            Some(s) => if s.as_str().is_empty() {
                None
            } else {
                Some(s.as_str())
            },
            None => None,
        }
    }

    /// Takes the submitted text, unless it is empty; either way none is left.
    pub fn take_submitted(&mut self) -> (r: Option<String>)
        ensures
            final(self).submitted is None,
            final(self).state == old(self).state,
            r is Some <==> (old(self).submitted matches Some(s) && s@.len() > 0),
            r matches Some(t) ==> old(self).submitted matches Some(s) && t@ == s@,
    {
        let mut taken = None;
        std::mem::swap(&mut taken, &mut self.submitted);
        match taken {
            Some(s) => if s.as_str().is_empty() {
                None
            } else {
                Some(s)
            },
            None => None,
        }
    }

    /// The selected text, if any.
    pub fn selection(&self) -> (r: Option<&str>)
        ensures
            r is Some <==> self.state@.has_selection(),
            r matches Some(t) ==> t@ == self.state@.selected(),
    {
        self.state.selection_buffer()
    }
}

/// The view behind a text input.
pub struct InputView {
    pub state: Inner,
    pub enabled: bool,
}

impl InputView {
    /// A new view: the initial text (if any) with the cursor at its displayed width.
    pub fn create(args: TextInput) -> (r: InputView)
        ensures
            r.enabled == args.enabled,
            r.state.changed == false,
            r.state.submitted == false,
            r.state@.placeholder == match args.placeholder {
                Some(p) => Some(p@),
                None => None::<Seq<char>>,
            },
            match args.initial {
                Some(s) => r.state.buf@ == s@ && r.state.cursor == display_width(s@)
                    && r.state.selection == r.state.cursor,
                None => r.state.buf@ == Seq::<char>::empty() && r.state.cursor == 0
                    && r.state.selection == 0,
            },
    {
        let mut input = Inner::new();
        match args.initial {
            Some(initial) => {
                input.buf = initial.to_owned();
                input.cursor = str_width(input.buf.as_str());
                input.selection = input.cursor;
            },
            None => {},
        }
        input.placeholder = match args.placeholder {
            Some(p) => Some(p.to_owned()),
            None => None,
        };
        InputView { state: input, enabled: args.enabled }
    }

    /// Takes the new arguments; a submitted text is handed out and the input cleared.
    pub fn update(&mut self, args: TextInput) -> (r: TextInputResponse)
        ensures
            final(self).enabled == args.enabled,
            old(self).state.submitted ==> {
                &&& r.submitted matches Some(s) && s@ == old(self).state.buf@
                &&& final(self).state@ == old(self).state@.clear()
            },
            !old(self).state.submitted ==> r.submitted is None && final(self).state@ == old(
                self,
            ).state@,
            r.state@ == final(self).state@,
    {
        self.enabled = args.enabled;
        let mut submitted = None;
        if self.state.submitted {
            let mut taken = String::new();
            std::mem::swap(&mut taken, &mut self.state.buf);
            submitted = Some(taken);
            self.state.clear();
        }
        TextInputResponse { state: self.state.snapshot(), submitted }
    }

    /// Handles an event inside `rect`, the view's rectangle.
    pub fn event(&mut self, event: ViewEvent, rect: Rect) -> (r: Handled)
        requires
            old(self).enabled ==> event_fits(old(self).state@, event, rect),
        ensures
            !old(self).enabled ==> r == Handled::Bubble && *final(self) == *old(self),
            old(self).enabled ==> (r, final(self).state@) == event_effect(
                old(self).state@,
                event,
                rect,
            ),
            final(self).enabled == old(self).enabled,
    {
        if !self.enabled {
            return Handled::Bubble;
        }
        self.state.submitted = false;
        match event {
            ViewEvent::MouseClicked { pos, inside, .. } => {
                if !inside {
                    return Handled::Bubble;
                }
                let offset = rect.min.x - 1;
                let left = pos.x - offset;
                let lo = if self.state.cursor < self.state.selection {
                    self.state.cursor
                } else {
                    self.state.selection
                };
                let diff = (rect.max.x - rect.min.x) - lo as i32;
                let w = str_width(self.state.buf.as_str());
                if diff > 0 {
                    let a = if left - 1 > 0 {
                        left - 1
                    } else {
                        0
                    };
                    let w32 = w as i32;
                    let a = if a < w32 {
                        a
                    } else {
                        w32
                    };
                    self.state.cursor = a as usize;
                } else {
                    let v = left - diff;
                    let abs: u32 = if v < 0 {
                        (0 - (v as i64)) as u32
                    } else {
                        v as u32
                    };
                    let abs = abs as usize;
                    self.state.cursor = if abs < w {
                        abs
                    } else {
                        w
                    };
                }
                self.state.selection = self.state.cursor;
                Handled::Sink
            },
            ViewEvent::MouseDrag { start, current, inside, .. } => {
                if !inside {
                    return Handled::Bubble;
                }
                let offset = rect.min.x + 1;
                let mut cursor = start.x - offset;
                let mut selection = current.x - offset;
                let (delta, _, _) = fit_cursor(
                    self.state.buf.as_str(),
                    cursor as usize,
                    selection as usize,
                    rect.max.x - rect.min.x,
                );
                cursor = cursor + delta;
                selection = selection + delta;
                let w = str_width(self.state.buf.as_str());
                let c = cursor as usize;
                let s = selection as usize;
                self.state.cursor = if c < w {
                    c
                } else {
                    w
                };
                self.state.selection = if s < w {
                    s
                } else {
                    w
                };
                Handled::Sink
            },
            ViewEvent::KeyInput { key, modifiers } => self.key_input(key, modifiers),
            _ => Handled::Bubble,
        }
    }

    /// Handles a key press on the editing state.
    fn key_input(&mut self, key: Key, modifiers: Modifiers) -> (r: Handled)
        requires
            byte_len(old(self).state.buf@) + 4 <= isize::MAX,
        ensures
            final(self).enabled == old(self).enabled,
            key_effect(old(self).state@, key, modifiers) matches Some(m1) ==> r == Handled::Sink
                && final(self).state@ == m1,
            key_effect(old(self).state@, key, modifiers) is None ==> r == Handled::Bubble
                && final(self).state@ == old(self).state@,
    {
        let state = &mut self.state;
        let sel = state.has_selection();
        match key {
            Key::Escape => state.cancel_select(),
            Key::Char(ch) => {
                if !modifiers.is_ctrl() {
                    let s = char_string(ch);
                    proof {
                        lemma_char_utf8_len(ch);
                        assert(byte_len(s@) == crate::text::char_utf8_len(ch)) by {
                            reveal_with_fuel(byte_offset, 2);
                        }
                    }
                    if !sel {
                        state.append(s.as_str());
                    } else {
                        state.overwrite_selection(s.as_str());
                    }
                } else if ch == 'w' && modifiers.is_ctrl_only() {
                    if !Self::prev_word_fits(state) {
                        return Handled::Bubble;
                    }
                    state.delete_word(Direction::Backward);
                } else {
                    return Handled::Bubble;
                }
            },
            Key::Backspace => {
                if modifiers.is_none() && !sel {
                    if str_byte_len(state.buf.as_str()) > 2147483647 {
                        return Handled::Bubble;
                    }
                    state.delete(-1);
                } else if !sel {
                    if !Self::prev_word_fits(state) {
                        return Handled::Bubble;
                    }
                    state.delete_word(Direction::Backward);
                } else {
                    state.delete_selection();
                }
            },
            Key::Delete => {
                if modifiers.is_none() && !sel {
                    if str_byte_len(state.buf.as_str()) > 2147483647 {
                        return Handled::Bubble;
                    }
                    state.delete(1);
                } else if !sel {
                    state.delete_word(Direction::Forward);
                } else {
                    state.delete_selection();
                }
            },
            Key::Left | Key::Right => {
                let forward = match key {
                    Key::Right => true,
                    _ => false,
                };
                let dir = if forward {
                    Direction::Forward
                } else {
                    Direction::Backward
                };
                let step: i32 = if forward {
                    1
                } else {
                    -1
                };
                if modifiers.is_none() {
                    if (str_width(state.buf.as_str()) as i32) < 0 {
                        return Handled::Bubble;
                    }
                    state.move_cursor(step);
                } else if modifiers.is_shift() && modifiers.is_ctrl() {
                    state.select_word(dir);
                } else if modifiers.is_shift() {
                    let s = state.selection as i32;
                    if (forward && s == i32::MAX) || (!forward && s == i32::MIN) {
                        return Handled::Bubble;
                    }
                    state.select(step);
                } else {
                    state.move_word(dir);
                }
            },
            Key::Home => {
                if modifiers.is_shift() {
                    state.select_start();
                } else {
                    state.move_to_start();
                }
            },
            Key::End => {
                if modifiers.is_shift() {
                    state.select_end();
                } else {
                    state.move_to_end();
                }
            },
            Key::Enter => state.submitted = true,
            _ => return Handled::Bubble,
        }
        Handled::Sink
    }

    /// Does the previous word start before the cursor?
    fn prev_word_fits(state: &Inner) -> (r: bool)
        ensures
            r == state@.prev_word_fits(),
    {
        let b = chars_to_byte_idx(state.buf.as_str(), state.cursor);
        match WordSep::find_prev_word(state.buf.as_str(), b) {
            Some(o) => o <= b,
            None => true,
        }
    }
}

/// Removing chars never makes a string longer.
proof fn lemma_byte_len_remove(s: Seq<char>, lo: int, hi: int)
    requires
        0 <= lo <= hi,
    ensures
        byte_len(s.take(clamp_index(s, lo)) + s.skip(clamp_index(s, hi))) <= byte_len(s),
{
    let kl = clamp_index(s, lo);
    let kh = clamp_index(s, hi);
    let a = s.take(kl);
    let b = s.skip(kh);
    lemma_byte_len_split(s, kl);
    lemma_byte_len_split(s, kh);
    lemma_byte_offset_concat(a, b, (a + b).len() as int);
    lemma_byte_offset_mono(s, kl, kh);
}

/// The bytes of a string are those of its first `k` chars and of the rest.
proof fn lemma_byte_len_split(s: Seq<char>, k: int)
    requires
        0 <= k <= s.len(),
    ensures
        byte_len(s.take(k)) == byte_offset(s, k),
        byte_len(s.skip(k)) + byte_offset(s, k) == byte_len(s),
{
    assert(s =~= s.take(k) + s.skip(k));
    lemma_byte_offset_concat(s.take(k), s.skip(k), s.len() as int);
    lemma_byte_offset_take(s, k, k);
}

/// Home without Shift puts the cursor and the selection end at the start of
/// the text, whatever the text and wherever the cursor was, keeps the text,
/// and is sunk.
pub proof fn lemma_home_goes_to_start(m: InnerModel, modifiers: Modifiers, rect: Rect)
    requires
        !modifiers.has(crate::keys::shift_bit()),
    ensures
        event_effect(m, ViewEvent::KeyInput { key: Key::Home, modifiers }, rect).0 == Handled::Sink,
        event_effect(m, ViewEvent::KeyInput { key: Key::Home, modifiers }, rect).1.cursor == 0,
        event_effect(m, ViewEvent::KeyInput { key: Key::Home, modifiers }, rect).1.selection == 0,
        event_effect(m, ViewEvent::KeyInput { key: Key::Home, modifiers }, rect).1.buf == m.buf,
{
}

/// Shift+Home keeps the cursor and the text and selects back to the start:
/// the selection end goes to 0.
pub proof fn lemma_shift_home_selects_to_start(m: InnerModel, modifiers: Modifiers, rect: Rect)
    requires
        modifiers.has(crate::keys::shift_bit()),
        display_width(m.buf) <= i32::MAX,
    ensures
        event_effect(m, ViewEvent::KeyInput { key: Key::Home, modifiers }, rect).0 == Handled::Sink,
        event_effect(m, ViewEvent::KeyInput { key: Key::Home, modifiers }, rect).1.cursor == m.cursor,
        event_effect(m, ViewEvent::KeyInput { key: Key::Home, modifiers }, rect).1.selection == 0,
        event_effect(m, ViewEvent::KeyInput { key: Key::Home, modifiers }, rect).1.buf == m.buf,
{
}

/// End without Shift puts the cursor and the selection end after the last
/// column of the text, keeps the text, and is sunk.
pub proof fn lemma_end_goes_to_end(m: InnerModel, modifiers: Modifiers, rect: Rect)
    requires
        !modifiers.has(crate::keys::shift_bit()),
    ensures
        event_effect(m, ViewEvent::KeyInput { key: Key::End, modifiers }, rect).0 == Handled::Sink,
        event_effect(m, ViewEvent::KeyInput { key: Key::End, modifiers }, rect).1.cursor == display_width(m.buf) as usize,
        event_effect(m, ViewEvent::KeyInput { key: Key::End, modifiers }, rect).1.selection == display_width(m.buf) as usize,
        event_effect(m, ViewEvent::KeyInput { key: Key::End, modifiers }, rect).1.buf == m.buf,
{
}

/// Escape drops the selection by bringing the cursor to the selection end,
/// and keeps the text.
pub proof fn lemma_escape_drops_selection(m: InnerModel, modifiers: Modifiers, rect: Rect)
    ensures
        event_effect(m, ViewEvent::KeyInput { key: Key::Escape, modifiers }, rect).0 == Handled::Sink,
        event_effect(m, ViewEvent::KeyInput { key: Key::Escape, modifiers }, rect).1.cursor == m.selection,
        event_effect(m, ViewEvent::KeyInput { key: Key::Escape, modifiers }, rect).1.selection == m.selection,
        event_effect(m, ViewEvent::KeyInput { key: Key::Escape, modifiers }, rect).1.buf == m.buf,
{
}

/// Enter submits the text as it is, without moving the cursor.
pub proof fn lemma_enter_submits(m: InnerModel, modifiers: Modifiers, rect: Rect)
    ensures
        event_effect(m, ViewEvent::KeyInput { key: Key::Enter, modifiers }, rect).0 == Handled::Sink,
        event_effect(m, ViewEvent::KeyInput { key: Key::Enter, modifiers }, rect).1.submitted,
        event_effect(m, ViewEvent::KeyInput { key: Key::Enter, modifiers }, rect).1.buf == m.buf,
        event_effect(m, ViewEvent::KeyInput { key: Key::Enter, modifiers }, rect).1.cursor == m.cursor,
        event_effect(m, ViewEvent::KeyInput { key: Key::Enter, modifiers }, rect).1.selection == m.selection,
{
}

/// Typing a char that takes room, without Ctrl and with nothing selected,
/// puts it at the cursor (or at the end, for a cursor past it) and moves
/// the cursor and the selection end just after it.
pub proof fn lemma_typing_inserts_at_cursor(m: InnerModel, ch: char, modifiers: Modifiers, rect: Rect)
    requires
        !modifiers.has(crate::keys::ctrl_bit()),
        m.cursor == m.selection,
        display_width(seq![ch]) != 0,
        m.buf.len() < usize::MAX,
    ensures
        ({
            let k = if m.cursor < m.buf.len() {
                m.cursor as int
            } else {
                m.buf.len() as int
            };
            let (h, r) = event_effect(m, ViewEvent::KeyInput { key: Key::Char(ch), modifiers }, rect);
            &&& h == Handled::Sink
            &&& r.buf.len() == m.buf.len() + 1
            &&& r.buf[k] == ch
            &&& r.buf.take(k) == m.buf.take(k)
            &&& r.buf.skip(k + 1) == m.buf.skip(k)
            &&& r.cursor == k + 1
            &&& r.selection == k + 1
        }),
{
    let k = if m.cursor < m.buf.len() {
        m.cursor as int
    } else {
        m.buf.len() as int
    };
    let m0 = InnerModel { submitted: false, ..m };
    assert(!m0.has_selection());
    assert(key_effect(m0, Key::Char(ch), modifiers) == Some(m0.append(seq![ch])));
    assert(clamp_index(m0.buf, m0.cursor as int) == k);
    let r = event_effect(m, ViewEvent::KeyInput { key: Key::Char(ch), modifiers }, rect).1;
    assert(r == m0.append(seq![ch]));
    assert(r.buf == m.buf.take(k) + seq![ch] + m.buf.skip(k));
    assert(r.buf.len() == m.buf.len() + 1);
    assert(r.buf[k] == ch);
    assert(r.buf.take(k) =~= m.buf.take(k));
    assert(r.buf.skip(k + 1) =~= m.buf.skip(k));
}

/// Backspace or Delete with text selected removes exactly the selected
/// text (the chars between the cursor and the selection end) and leaves the
/// cursor and the selection end where the selection started.
pub proof fn lemma_deleting_a_selection(m: InnerModel, key: Key, modifiers: Modifiers, rect: Rect)
    requires
        key == Key::Backspace || key == Key::Delete,
        m.cursor != m.selection,
    ensures
        ({
            let lo = if m.cursor < m.selection {
                m.cursor
            } else {
                m.selection
            };
            let hi = if m.cursor < m.selection {
                m.selection
            } else {
                m.cursor
            };
            let a = if lo < m.buf.len() {
                lo as int
            } else {
                m.buf.len() as int
            };
            let b = if hi < m.buf.len() {
                hi as int
            } else {
                m.buf.len() as int
            };
            let (h, r) = event_effect(m, ViewEvent::KeyInput { key, modifiers }, rect);
            &&& h == Handled::Sink
            &&& r.buf == m.buf.take(a) + m.buf.skip(b)
            &&& r.cursor == lo
            &&& r.selection == lo
        }),
{
}

/// Shift+End keeps the cursor and the text and selects on to the end: the
/// selection end goes after the last column.
pub proof fn lemma_shift_end_selects_to_end(m: InnerModel, modifiers: Modifiers, rect: Rect)
    requires
        modifiers.has(crate::keys::shift_bit()),
        display_width(m.buf) <= i32::MAX,
    ensures
        event_effect(m, ViewEvent::KeyInput { key: Key::End, modifiers }, rect).0 == Handled::Sink,
        event_effect(m, ViewEvent::KeyInput { key: Key::End, modifiers }, rect).1.cursor == m.cursor,
        event_effect(m, ViewEvent::KeyInput { key: Key::End, modifiers }, rect).1.selection == display_width(m.buf),
        event_effect(m, ViewEvent::KeyInput { key: Key::End, modifiers }, rect).1.buf == m.buf,
{
}

/// Left and Right without modifiers move the cursor one column from the
/// selection end, towards the start and towards the end of the text, and
/// stop at either end; they drop the selection and keep the text. So a step
/// left from inside the text and a step right take the cursor back where it
/// was.
pub proof fn lemma_arrows_move_one_column(m: InnerModel, modifiers: Modifiers, rect: Rect)
    requires
        modifiers.0 == 0,
        display_width(m.buf) <= i32::MAX,
        m.selection <= display_width(m.buf),
    ensures
        ({
            let w = display_width(m.buf);
            let (h, r) = event_effect(m, ViewEvent::KeyInput { key: Key::Left, modifiers }, rect);
            &&& h == Handled::Sink
            &&& r.buf == m.buf
            &&& r.cursor == (if m.selection > 0 { m.selection - 1 } else { 0int })
            &&& r.selection == r.cursor
        }),
        ({
            let w = display_width(m.buf);
            let (h, r) = event_effect(m, ViewEvent::KeyInput { key: Key::Right, modifiers }, rect);
            &&& h == Handled::Sink
            &&& r.buf == m.buf
            &&& r.cursor == (if m.selection < w { m.selection + 1 } else { w as int })
            &&& r.selection == r.cursor
        }),
        m.selection > 0 ==> event_effect(
            event_effect(m, ViewEvent::KeyInput { key: Key::Left, modifiers }, rect).1,
            ViewEvent::KeyInput { key: Key::Right, modifiers },
            rect,
        ).1.cursor == m.selection,
{
    reveal_with_fuel(clamped_walk, 2);
    let w = display_width(m.buf);
    let m0 = InnerModel { submitted: false, ..m };
    assert(key_effect(m0, Key::Left, modifiers) == Some(m0.move_cursor(-1i32)));
    assert(key_effect(m0, Key::Right, modifiers) == Some(m0.move_cursor(1i32)));
    assert(clamped_walk(m.selection as int, -1, 1, w as int) == clamp_int(m.selection - 1, 0, w as int));
    assert(clamped_walk(m.selection as int, 1, 1, w as int) == clamp_int(m.selection + 1, 0, w as int));
    if m.selection > 0 {
        let l = event_effect(m, ViewEvent::KeyInput { key: Key::Left, modifiers }, rect).1;
        let l0 = InnerModel { submitted: false, ..l };
        assert(l.buf == m.buf);
        assert(l.selection == m.selection - 1);
        assert(key_effect(l0, Key::Right, modifiers) == Some(l0.move_cursor(1i32)));
        assert(clamped_walk(l.selection as int, 1, 1, w as int) == clamp_int(l.selection + 1, 0, w as int));
    }
}

} // verus!
