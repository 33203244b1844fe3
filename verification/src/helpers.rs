//! Small helpers: shortening Rust type names, and a bounded FIFO queue.
use vstd::prelude::*;
use std::collections::VecDeque;

verus! {

broadcast use vstd::std_specs::vecdeque::group_vec_dequeue_axioms;

/// Chars that end a path segment in a type name.
pub open spec fn is_special(c: char) -> bool {
    c == ' ' || c == '<' || c == '>' || c == '(' || c == ')' || c == '[' || c == ']' || c == ','
        || c == ';'
}

/// The last piece of `s` when split at `::` (matches found left to right,
/// without overlap), scanning from char `i` with the current piece starting
/// at `start`.
pub open spec fn last_segment_from(s: Seq<char>, i: int, start: int) -> Seq<char>
    decreases s.len() - i,
{
    if i >= s.len() {
        s.subrange(start, s.len() as int)
    } else if i + 1 < s.len() && s[i] == ':' && s[i + 1] == ':' {
        last_segment_from(s, i + 2, i + 2)
    } else {
        last_segment_from(s, i + 1, start)
    }
}

/// The last `::`-separated piece of `s`.
pub open spec fn last_segment(s: Seq<char>) -> Seq<char> {
    last_segment_from(s, 0, 0)
}

/// The index of the first special char of `s` at or after `i`, if any.
pub open spec fn find_special(s: Seq<char>, i: int) -> Option<int>
    decreases s.len() - i,
{
    if i < 0 || i >= s.len() {
        None
    } else if is_special(s[i]) {
        Some(i)
    } else {
        find_special(s, i + 1)
    }
}

/// `short_name` of the rest of `s` from char `index`: each path between
/// special chars is cut to its last segment; a closing bracket followed by
/// `::` keeps the `::`.
pub open spec fn short_from(s: Seq<char>, index: int) -> Seq<char>
    decreases s.len() - index,
{
    if index < 0 || index >= s.len() {
        Seq::empty()
    } else {
        proof {
            lemma_find_special(s, index);
        }
        match find_special(s, index) {
            Some(p) => {
                let ch = s[p];
                let closes = ch == '>' || ch == ')' || ch == ']';
                let colons = p + 2 < s.len() && s[p + 1] == ':' && s[p + 2] == ':';
                let head = last_segment(s.subrange(index, p)) + seq![ch];
                if closes && colons {
                    head + "::"@ + short_from(s, p + 3)
                } else {
                    head + short_from(s, p + 1)
                }
            },
            None => last_segment(s.subrange(index, s.len() as int)),
        }
    }
}

pub proof fn lemma_find_special(s: Seq<char>, i: int)
    requires
        0 <= i,
    ensures
        find_special(s, i) matches Some(p) ==> i <= p < s.len() && is_special(s[p]) && forall|
            j: int,
        |
            i <= j < p ==> !is_special(#[trigger] s[j]),
        find_special(s, i) is None ==> forall|j: int| i <= j < s.len() ==> !is_special(
            #[trigger] s[j],
        ),
    decreases s.len() - i,
{
    if 0 <= i < s.len() && !is_special(s[i]) {
        lemma_find_special(s, i + 1);
    }
}

/// The chars of a string (`str::chars`, collected).
#[verifier::external_body]
pub(crate) fn str_chars(s: &str) -> (r: Vec<char>)
    ensures
        r@ == s@,
{
    s.chars().collect()
}

/// A string of the given chars (`String: FromIterator<char>`).
#[verifier::external_body]
pub(crate) fn string_from_chars(v: &[char]) -> (r: String)
    ensures
        r@ == v@,
{
    v.iter().collect()
}

/// Appends the last `::`-separated piece of `v[from..to]` to `out`.
fn push_last_segment(v: &Vec<char>, from: usize, to: usize, out: &mut Vec<char>)
    requires
        from <= to <= v.len(),
    ensures
        final(out)@ == old(out)@ + last_segment(v@.subrange(from as int, to as int)),
{
    let ghost s = v@.subrange(from as int, to as int);
    let mut i: usize = from;
    let mut start: usize = from;
    while i < to
        invariant
            from <= start <= i <= to || (from <= start <= to && i == start),
            start <= to,
            i <= to,
            to <= v.len(),
            s == v@.subrange(from as int, to as int),
            last_segment(s) == last_segment_from(s, i - from, start - from),
        decreases to - i,
    {
        if i + 1 < to && v[i] == ':' && v[i + 1] == ':' {
            i = i + 2;
            start = i;
        } else {
            i = i + 1;
        }
    }
    let mut k: usize = start;
    let ghost base = out@;
    while k < to
        invariant
            start <= k <= to,
            to <= v.len(),
            out@ == base + v@.subrange(start as int, k as int),
        decreases to - k,
    {
        out.push(v[k]);
        k = k + 1;
    }
    assert(s.subrange(start - from, s.len() as int) =~= v@.subrange(start as int, to as int));
}

/// Shortens a Rust type name: every path is cut to its last segment, so
/// `alloc::vec::Vec<core::option::Option<u8>>` becomes `Vec<Option<u8>>`.
pub fn short_name(name: &str) -> (r: String)
    ensures
        r@ == short_from(name@, 0),
{
    let v = str_chars(name);
    let end: usize = v.len();
    let mut index: usize = 0;
    let mut out: Vec<char> = Vec::new();
    while index < end
        invariant
            index <= end,
            end == v@.len(),
            v@ == name@,
            short_from(name@, 0) == out@ + short_from(name@, index as int),
        decreases end - index,
    {
        let mut p: usize = index;
        while p < end && !(v[p] == ' ' || v[p] == '<' || v[p] == '>' || v[p] == '(' || v[p] == ')'
            || v[p] == '[' || v[p] == ']' || v[p] == ',' || v[p] == ';')
            invariant
                index <= p <= end,
                end == v@.len(),
                find_special(v@, index as int) == find_special(v@, p as int),
            decreases end - p,
        {
            p = p + 1;
        }
        if p < end {
            let ghost before = out@;
            push_last_segment(&v, index, p, &mut out);
            let ch = v[p];
            out.push(ch);
            if (ch == '>' || ch == ')' || ch == ']') && end - p > 2 && v[p + 1] == ':' && v[p + 2]
                == ':' {
                out.push(':');
                out.push(':');
                assert(out@ =~= before + last_segment(v@.subrange(index as int, p as int)) + seq![ch]
                    + "::"@) by {
                    reveal_strlit("::");
                }
                index = p + 3;
            } else {
                assert(out@ =~= before + last_segment(v@.subrange(index as int, p as int))
                    + seq![ch]);
                index = p + 1;
            }
        } else {
            push_last_segment(&v, index, end, &mut out);
            index = end;
        }
    }
    string_from_chars(out.as_slice())
}

/// `t` holds `::` starting at `j`.
pub open spec fn pair_at(t: Seq<char>, j: int) -> bool {
    0 <= j && j + 1 < t.len() && t[j] == ':' && t[j + 1] == ':'
}

/// Scanning for `::` from `i`, after a piece that started at `start` with no
/// `::` between them, ends on a piece from some `st` on that holds no `::`.
proof fn lemma_last_segment_from(x: Seq<char>, i: int, start: int) -> (st: int)
    requires
        0 <= start <= i,
        forall|j: int| start <= j < i ==> !#[trigger] pair_at(x, j),
    ensures
        start <= st,
        st <= x.len() || st == start,
        last_segment_from(x, i, start) == x.subrange(st, x.len() as int),
        forall|j: int| st <= j ==> !#[trigger] pair_at(x, j),
    decreases x.len() - i,
{
    if i >= x.len() {
        assert forall|j: int| start <= j implies !#[trigger] pair_at(x, j) by {
            if j >= i {
                assert(!(j + 1 < x.len()));
            }
        }
        start
    } else if i + 1 < x.len() && x[i] == ':' && x[i + 1] == ':' {
        lemma_last_segment_from(x, i + 2, i + 2)
    } else {
        assert(!pair_at(x, i));
        lemma_last_segment_from(x, i + 1, start)
    }
}

/// A piece with no `::` from `start` on is its own last piece.
proof fn lemma_last_segment_whole(x: Seq<char>, i: int, start: int)
    requires
        0 <= start <= i,
        start <= x.len(),
        forall|j: int| start <= j ==> !#[trigger] pair_at(x, j),
    ensures
        last_segment_from(x, i, start) == x.subrange(start, x.len() as int),
    decreases x.len() - i,
{
    if i < x.len() {
        assert(!pair_at(x, i));
        lemma_last_segment_whole(x, i + 1, start);
    }
}

/// The last `::`-separated piece of `x` is the end of `x`, and holds no `::`.
proof fn lemma_last_segment(x: Seq<char>) -> (st: int)
    ensures
        0 <= st <= x.len(),
        last_segment(x) == x.subrange(st, x.len() as int),
        forall|j: int| !#[trigger] pair_at(last_segment(x), j),
{
    let st = lemma_last_segment_from(x, 0, 0);
    let r = last_segment(x);
    assert forall|j: int| !#[trigger] pair_at(r, j) by {
        if pair_at(r, j) {
            assert(r[j] == x[st + j] && r[j + 1] == x[st + j + 1]);
            assert(pair_at(x, st + j));
        }
    }
    st
}

/// Searching for a special char from `i` of `s.skip(k)` is searching from
/// `i + k` of `s`.
proof fn lemma_find_special_shift(s: Seq<char>, k: int, i: int)
    requires
        0 <= k <= s.len(),
        0 <= i,
    ensures
        find_special(s, i + k) == (match find_special(s.skip(k), i) {
            Some(q) => Some(q + k),
            None => None,
        }),
    decreases s.len() - i - k,
{
    if i + k < s.len() {
        assert(s.skip(k)[i] == s[i + k]);
        if !is_special(s[i + k]) {
            lemma_find_special_shift(s, k, i + 1);
        }
    }
}

/// Shortening from `k` on only reads `s` from `k` on.
proof fn lemma_short_from_shift(s: Seq<char>, k: int)
    requires
        0 <= k <= s.len(),
    ensures
        short_from(s, k) == short_from(s.skip(k), 0),
    decreases s.len() - k,
{
    let t = s.skip(k);
    if k < s.len() {
        lemma_find_special_shift(s, k, 0);
        lemma_find_special(s, k);
        lemma_find_special(t, 0);
        match find_special(t, 0) {
            Some(q) => {
                let p = q + k;
                assert(find_special(s, k) == Some(p));
                assert(s.subrange(k, p) =~= t.subrange(0, q));
                assert(s[p] == t[q]);
                if p + 2 < s.len() {
                    assert(s[p + 1] == t[q + 1] && s[p + 2] == t[q + 2]);
                    lemma_short_from_shift(s, p + 3);
                    lemma_short_from_shift(t, q + 3);
                    assert(t.skip(q + 3) =~= s.skip(p + 3));
                }
                lemma_short_from_shift(s, p + 1);
                lemma_short_from_shift(t, q + 1);
                assert(t.skip(q + 1) =~= s.skip(p + 1));
            },
            None => {
                assert(find_special(s, k) is None);
                assert(s.subrange(k, s.len() as int) =~= t.subrange(0, t.len() as int));
            },
        }
    }
}

/// A closing bracket, which keeps a `::` that follows it.
pub open spec fn closes(c: char) -> bool {
    c == '>' || c == ')' || c == ']'
}

/// No char of `t` is special.
pub open spec fn plain(t: Seq<char>) -> bool {
    forall|j: int| 0 <= j < t.len() ==> !is_special(#[trigger] t[j])
}

/// Shortening a piece with no special char and no `::`, then a special
/// char `c`, then `r`: the piece and `c` stay, and `r` is shortened after
/// them (after a `::` that a closing bracket keeps).
proof fn lemma_short_chunk(l: Seq<char>, c: char, r: Seq<char>)
    requires
        plain(l),
        forall|j: int| !#[trigger] pair_at(l, j),
        is_special(c),
    ensures
        short_from(l + seq![c] + r, 0) == l + seq![c] + (if closes(c) && r.len() >= 2 && r[0] == ':' && r[1] == ':' {
            "::"@ + short_from(r.skip(2), 0)
        } else {
            short_from(r, 0)
        }),
{
    let t = l + seq![c] + r;
    let p = l.len() as int;
    lemma_find_special(t, 0);
    assert(t[p] == c);
    assert forall|j: int| 0 <= j < p implies !is_special(#[trigger] t[j]) by {
        assert(t[j] == l[j]);
    }
    assert(find_special(t, 0) == Some(p)) by {
        if find_special(t, 0) != Some(p) {
            match find_special(t, 0) {
                Some(q) => {
                    if q < p {
                        assert(t[q] == l[q]);
                    }
                },
                None => {},
            }
        }
    }
    assert(t.subrange(0, p) =~= l);
    lemma_last_segment_whole(l, 0, 0);
    assert(l.subrange(0, l.len() as int) =~= l);
    if p + 2 < t.len() {
        assert(t[p + 1] == r[0] && t[p + 2] == r[1]);
        lemma_short_from_shift(t, p + 3);
        assert(t.skip(p + 3) =~= r.skip(2));
    }
    lemma_short_from_shift(t, p + 1);
    assert(t.skip(p + 1) =~= r);
}

/// What shortening from `k` gives does not start with `::`, and shortening
/// it again changes nothing.
proof fn lemma_short_from_settled(s: Seq<char>, k: int)
    requires
        0 <= k,
    ensures
        !pair_at(short_from(s, k), 0),
        short_from(short_from(s, k), 0) == short_from(s, k),
        short_from(s, k).len() <= (if k < s.len() {
            s.len() - k
        } else {
            0
        }),
    decreases s.len() - k,
{
    let out = short_from(s, k);
    if k >= s.len() {
        assert(out =~= Seq::<char>::empty());
        assert(short_from(out, 0) =~= out);
    } else {
        lemma_find_special(s, k);
        match find_special(s, k) {
            Some(p) => {
                let run = s.subrange(k, p);
                let l = last_segment(run);
                let st = lemma_last_segment(run);
                assert(plain(l)) by {
                    assert forall|j: int| 0 <= j < l.len() implies !is_special(#[trigger] l[j]) by {
                        assert(l[j] == run[st + j]);
                        assert(run[st + j] == s[k + st + j]);
                    }
                }
                let c = s[p];
                let colons = p + 2 < s.len() && s[p + 1] == ':' && s[p + 2] == ':';
                if closes(c) && colons {
                    lemma_short_from_settled(s, p + 3);
                    let r = "::"@ + short_from(s, p + 3);
                    assert(r.len() >= 2 && r[0] == ':' && r[1] == ':') by {
                        reveal_strlit("::");
                    }
                    assert(r.skip(2) =~= short_from(s, p + 3)) by {
                        reveal_strlit("::");
                    }
                    lemma_short_chunk(l, c, r);
                    assert(out =~= l + seq![c] + r);
                    assert(short_from(r.skip(2), 0) == short_from(s, p + 3));
                    assert("::"@ + short_from(r.skip(2), 0) == r);
                    assert(short_from(out, 0) == out);
                } else {
                    lemma_short_from_settled(s, p + 1);
                    let r = short_from(s, p + 1);
                    assert(!(r.len() >= 2 && r[0] == ':' && r[1] == ':')) by {
                        if r.len() >= 2 && r[0] == ':' && r[1] == ':' {
                            assert(pair_at(r, 0));
                        }
                    }
                    lemma_short_chunk(l, c, r);
                    assert(out =~= l + seq![c] + r);
                    assert(short_from(out, 0) == out);
                }
                // the result starts with the plain piece, or with `c`
                assert(!pair_at(out, 0)) by {
                    if pair_at(out, 0) {
                        if l.len() >= 2 {
                            assert(out[0] == l[0] && out[1] == l[1]);
                            assert(pair_at(l, 0));
                        } else if l.len() == 1 {
                            assert(out[1] == c);
                        } else {
                            assert(out[0] == c);
                        }
                    }
                }
            },
            None => {
                let run = s.subrange(k, s.len() as int);
                let st = lemma_last_segment(run);
                assert(out == last_segment(run));
                assert(plain(out)) by {
                    assert forall|j: int| 0 <= j < out.len() implies !is_special(#[trigger] out[j]) by {
                        assert(out[j] == run[st + j]);
                        assert(run[st + j] == s[k + st + j]);
                    }
                }
                lemma_find_special(out, 0);
                assert(find_special(out, 0) is None) by {
                    match find_special(out, 0) {
                        Some(q) => {},
                        None => {},
                    }
                }
                lemma_last_segment_whole(out, 0, 0);
                assert(out.subrange(0, out.len() as int) =~= out);
                if out.len() > 0 {
                    assert(short_from(out, 0) == last_segment(out.subrange(0, out.len() as int)));
                    assert(short_from(out, 0) == out);
                } else {
                    assert(short_from(out, 0) =~= out);
                }
            },
        }
    }
}

/// Shortening a name twice is shortening it once, and a shortened name is
/// never longer than the name.
pub proof fn lemma_short_name_settles(name: Seq<char>)
    ensures
        short_from(short_from(name, 0), 0) == short_from(name, 0),
        short_from(name, 0).len() <= name.len(),
{
    lemma_short_from_settled(name, 0);
}

/// A FIFO queue that keeps at most `current_size()` of the most recent items
/// when pushing.
#[derive(Debug)]
pub struct Queue<T> {
    queue: VecDeque<T>,
    max: usize,
}

impl<T> View for Queue<T> {
    type V = (Seq<T>, usize);

    closed spec fn view(&self) -> (Seq<T>, usize) {
        (self.queue@, self.max)
    }
}

/// The newest `size` of `items`, oldest first: all of them when they fit.
pub open spec fn newest<T>(items: Seq<T>, size: usize) -> Seq<T> {
    if items.len() > size {
        items.skip(items.len() - size)
    } else {
        items
    }
}

/// The items after pushing `item` onto `items` with room for `max`.
pub open spec fn pushed<T>(items: Seq<T>, max: usize, item: T) -> Seq<T> {
    if max == 0 {
        items
    } else if items.len() >= max {
        items.skip(items.len() - (max - 1)).push(item)
    } else {
        items.push(item)
    }
}

impl<T> Queue<T> {
    /// An empty queue holding up to `max` items.
    pub fn new(max: usize) -> (r: Queue<T>)
        ensures
            r@ == (Seq::<T>::empty(), max),
    {
        Queue { queue: VecDeque::new(), max }
    }

    /// How many items the queue keeps when pushing.
    pub fn current_size(&self) -> (r: usize)
        ensures
            r == self@.1,
    {
        self.max
    }

    /// Changes how many items the queue keeps, dropping the oldest items
    /// until at most `size` remain (all of them when `size` is zero).
    pub fn resize(&mut self, size: usize)
        ensures
            final(self)@ == (newest(old(self)@.0, size), size),
    {
        self.max = size;
        let ghost items = self.queue@;
        while self.queue.len() > size
            invariant
                self.max == size,
                items == old(self).queue@,
                self.queue@ == items.skip(items.len() - self.queue@.len()),
                self.queue@.len() <= items.len(),
                items.len() > size ==> self.queue@.len() >= size,
                items.len() <= size ==> self.queue@ == items,
            decreases self.queue@.len(),
        {
            let ghost prev = self.queue@;
            let _ = self.queue.pop_front();
            assert(self.queue@ =~= items.skip(items.len() - self.queue@.len())) by {
                assert forall|j: int| 0 <= j < self.queue@.len() implies self.queue@[j] == items.skip(
                    items.len() - self.queue@.len(),
                )[j] by {
                    assert(self.queue@[j] == prev[j + 1]);
                    assert(prev == items.skip(items.len() - prev.len()));
                }
            }
        }
    }

    /// Appends an item, first dropping the oldest items so that at most
    /// `current_size()` remain; does nothing when the size is zero.
    pub fn push(&mut self, item: T)
        ensures
            final(self)@ == (pushed(old(self)@.0, old(self)@.1, item), old(self)@.1),
    {
        if self.max == 0 {
            return;
        }
        let ghost items = self.queue@;
        while self.queue.len() >= self.max
            invariant
                self.max == old(self).max,
                self.max > 0,
                items == old(self).queue@,
                items.len() >= self.max ==> self.queue@ == items.skip(
                    items.len() - self.queue@.len(),
                ) && self.queue@.len() >= self.max - 1,
                items.len() < self.max ==> self.queue@ == items,
                self.queue@.len() <= items.len(),
            decreases self.queue@.len(),
        {
            let ghost prev = self.queue@;
            assert(items.len() >= self.max);
            assert(prev == items.skip(items.len() - prev.len()));
            let _ = self.queue.pop_front();
            assert(self.queue@ =~= prev.subrange(1, prev.len() as int));
            assert(self.queue@.len() == prev.len() - 1);
            assert forall|j: int| 0 <= j < self.queue@.len() implies self.queue@[j] == items.skip(
                items.len() - self.queue@.len(),
            )[j] by {
                assert(self.queue@[j] == prev[j + 1]);
                assert(prev[j + 1] == items[items.len() - prev.len() + j + 1]);
            }
            assert(self.queue@ =~= items.skip(items.len() - self.queue@.len()));
        }
        self.queue.push_back(item);
    }

    pub fn len(&self) -> (r: usize)
        ensures
            r == self@.0.len(),
    {
        self.queue.len()
    }

    pub fn is_empty(&self) -> (r: bool)
        ensures
            r == (self@.0.len() == 0),
    {
        self.queue.len() == 0
    }

    pub fn clear(&mut self)
        ensures
            final(self)@ == (Seq::<T>::empty(), old(self)@.1),
    {
        self.queue.clear();
    }

    /// Removes all items, oldest first.
    pub fn drain(&mut self) -> (r: Vec<T>)
        ensures
            r@ == old(self)@.0,
            final(self)@ == (Seq::<T>::empty(), old(self)@.1),
    {
        let mut out = Vec::new();
        let ghost items = self.queue@;
        while self.queue.len() > 0
            invariant
                items == old(self).queue@,
                self.max == old(self).max,
                out@ + self.queue@ == items,
            decreases self.queue@.len(),
        {
            match self.queue.pop_front() {
                Some(x) => {
                    out.push(x);
                },
                None => {},
            }
            assert(out@ + self.queue@ =~= items);
        }
        assert(out@ =~= items);
        out
    }

    /// Iterates over the items, oldest first.
    pub fn iter(&self) -> (r: std::collections::vec_deque::Iter<'_, T>)
        ensures
            vstd::std_specs::iter::IteratorSpec::remaining(&r) == self@.0.map_values(|x: T| &x),
    {
        let r = self.queue.iter();
        assert(vstd::std_specs::iter::IteratorSpec::remaining(&r) =~= self@.0.map_values(|x: T| &x));
        r
    }

    /// Mutable access to the items, oldest first.
    pub fn iter_mut(&mut self) -> (r: &mut VecDeque<T>)
        ensures
            (*r)@ == old(self)@.0,
            final(self)@ == ((*final(r))@, old(self)@.1),
    {
        &mut self.queue
    }
}

/// After a push the queue never holds more than its size, and the newest item
/// comes last, after the newest of the items that were there.
pub proof fn lemma_push_bounded<T>(items: Seq<T>, max: usize, item: T)
    requires
        max > 0,
    ensures
        pushed(items, max, item).len() <= max,
        pushed(items, max, item).last() == item,
        pushed(items, max, item).drop_last() == items.skip(items.len() - pushed(items, max, item).drop_last().len()),
{
    let r = pushed(items, max, item);
    assert(r.drop_last() =~= items.skip(items.len() - r.drop_last().len()));
}

} // verus!
