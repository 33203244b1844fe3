//! Text measurement: UTF-8 offsets, display widths and grapheme clusters.
use vstd::prelude::*;
use vstd::utf8::*;
use unicode_segmentation::UnicodeSegmentation;
use unicode_width::UnicodeWidthStr;

verus! {

broadcast use vstd::seq::group_seq_axioms;

/// Number of bytes in the UTF-8 encoding of `c`.
pub open spec fn char_utf8_len(c: char) -> nat {
    encode_scalar(c as u32).len()
}

/// Byte offset at which the char with index `k` starts; an index at or past
/// the end gives the total byte length.
pub open spec fn byte_offset(s: Seq<char>, k: int) -> nat
    decreases s.len(),
{
    if k <= 0 || s.len() == 0 {
        0
    } else {
        char_utf8_len(s[0]) + byte_offset(s.drop_first(), k - 1)
    }
}

/// Total number of bytes in the UTF-8 encoding of `s`.
pub open spec fn byte_len(s: Seq<char>) -> nat {
    byte_offset(s, s.len() as int)
}

/// Index of the char that byte `b` belongs to; a byte at or past the end
/// gives the number of chars.
pub open spec fn char_at_byte(s: Seq<char>, b: int) -> nat
    decreases s.len(),
{
    if s.len() == 0 || b < char_utf8_len(s[0]) {
        0
    } else {
        1 + char_at_byte(s.drop_first(), b - char_utf8_len(s[0]))
    }
}

/// True when byte `b` starts a char of `s`, or is its end.
pub open spec fn is_boundary(s: Seq<char>, b: int) -> bool {
    is_char_boundary(encode_utf8(s), b)
}

/// Displayed width of a string in terminal columns, as `unicode-width` computes it.
pub uninterp spec fn display_width(s: Seq<char>) -> nat;

/// The extended grapheme clusters of a string with their byte offsets, in
/// order, as `unicode-segmentation` splits them.
pub uninterp spec fn grapheme_split(s: Seq<char>) -> Seq<(usize, Seq<char>)>;

pub proof fn lemma_char_utf8_len(c: char)
    ensures
        1 <= char_utf8_len(c) <= 4,
{
}

pub proof fn lemma_byte_offset_bounds(s: Seq<char>, k: int)
    ensures
        byte_offset(s, k) <= byte_len(s),
        k >= s.len() ==> byte_offset(s, k) == byte_len(s),
        0 <= k <= s.len() ==> byte_offset(s, k) >= k,
        byte_len(s) >= s.len(),
    decreases s.len(),
{
    if s.len() > 0 {
        lemma_char_utf8_len(s[0]);
        lemma_byte_offset_bounds(s.drop_first(), k - 1);
        lemma_byte_offset_bounds(s.drop_first(), s.len() - 1);
    }
}

pub proof fn lemma_byte_offset_mono(s: Seq<char>, j: int, k: int)
    requires
        j <= k,
    ensures
        byte_offset(s, j) <= byte_offset(s, k),
        0 <= j < k <= s.len() ==> byte_offset(s, j) < byte_offset(s, k),
    decreases s.len(),
{
    if s.len() > 0 && k > 0 {
        lemma_char_utf8_len(s[0]);
        lemma_byte_offset_mono(s.drop_first(), j - 1, k - 1);
    }
}

pub proof fn lemma_encode_len(s: Seq<char>)
    ensures
        encode_utf8(s).len() == byte_len(s),
    decreases s.len(),
{
    if s.len() > 0 {
        lemma_encode_len(s.drop_first());
    }
}

/// `char_at_byte` undoes `byte_offset` within the string.
pub proof fn lemma_char_at_offset(s: Seq<char>, k: int)
    requires
        0 <= k <= s.len(),
    ensures
        char_at_byte(s, byte_offset(s, k) as int) == k,
    decreases s.len(),
{
    if s.len() > 0 {
        lemma_char_utf8_len(s[0]);
        if k > 0 {
            lemma_char_at_offset(s.drop_first(), k - 1);
        }
    }
}

pub proof fn lemma_char_at_byte_bounds(s: Seq<char>, b: int)
    ensures
        char_at_byte(s, b) <= s.len(),
        b >= byte_len(s) ==> char_at_byte(s, b) == s.len(),
        byte_offset(s, char_at_byte(s, b) as int) <= if b < 0 { 0 } else { b },
    decreases s.len(),
{
    if s.len() > 0 {
        lemma_char_utf8_len(s[0]);
        lemma_char_at_byte_bounds(s.drop_first(), b - char_utf8_len(s[0]));
    }
}

/// A byte starts a char exactly when it is the offset of some char index.
pub proof fn lemma_boundary_iff(s: Seq<char>, b: int)
    ensures
        is_boundary(s, b) <==> (0 <= b <= byte_len(s) && byte_offset(
            s,
            char_at_byte(s, b) as int,
        ) == b),
    decreases s.len(),
{
    let bytes = encode_utf8(s);
    encode_utf8_valid_utf8(s);
    lemma_encode_len(s);
    if s.len() == 0 {
        assert(bytes.len() == 0);
    } else {
        lemma_char_utf8_len(s[0]);
        encode_utf8_first_scalar(s);
        assert(pop_first_scalar(bytes) =~= encode_utf8(s.drop_first()));
        lemma_boundary_iff(s.drop_first(), b - char_utf8_len(s[0]));
        lemma_encode_len(s.drop_first());
    }
}

/// Every char offset is a boundary.
pub proof fn lemma_offset_is_boundary(s: Seq<char>, k: int)
    ensures
        is_boundary(s, byte_offset(s, k) as int),
{
    lemma_byte_offset_bounds(s, k);
    let b = byte_offset(s, k) as int;
    if k <= 0 {
        lemma_char_at_offset(s, 0);
    } else if k >= s.len() {
        lemma_char_at_offset(s, s.len() as int);
    } else {
        lemma_char_at_offset(s, k);
    }
    lemma_boundary_iff(s, b);
}

/// Offsets into a concatenation.
pub proof fn lemma_byte_offset_concat(a: Seq<char>, b: Seq<char>, k: int)
    ensures
        k <= a.len() ==> byte_offset(a + b, k) == byte_offset(a, k),
        k >= a.len() ==> byte_offset(a + b, k) == byte_len(a) + byte_offset(b, k - a.len()),
    decreases a.len(),
{
    if a.len() == 0 {
        assert(a + b =~= b);
    } else {
        assert((a + b).drop_first() =~= a.drop_first() + b);
        lemma_byte_offset_concat(a.drop_first(), b, k - 1);
        if k <= 0 {
        }
    }
}

pub proof fn lemma_byte_offset_take(s: Seq<char>, k: int, j: int)
    requires
        0 <= k <= s.len(),
    ensures
        j <= k ==> byte_offset(s.take(k), j) == byte_offset(s, j),
    decreases s.len(),
{
    if j <= k {
        assert(s =~= s.take(k) + s.skip(k));
        lemma_byte_offset_concat(s.take(k), s.skip(k), j);
    }
}

/// The byte offset of a char index, as `str_indices` computes it; an index
/// past the end gives the byte length.
#[verifier::external_body]
pub(crate) fn chars_to_byte_idx(text: &str, char_idx: usize) -> (r: usize)
    ensures
        r == byte_offset(text@, char_idx as int),
{
    str_indices::chars::to_byte_idx(text, char_idx)
}

/// The index of the char a byte belongs to, as `str_indices` computes it; a
/// byte past the end gives the number of chars.
#[verifier::external_body]
pub(crate) fn chars_from_byte_idx(text: &str, byte_idx: usize) -> (r: usize)
    ensures
        r == char_at_byte(text@, byte_idx as int),
{
    str_indices::chars::from_byte_idx(text, byte_idx)
}

/// The displayed width of a string, as `unicode-width` computes it.
#[verifier::external_body]
pub(crate) fn str_width(text: &str) -> (r: usize)
    ensures
        r == display_width(text@),
{
    text.width()
}

/// The offsets and contents of clusters held as `String`s.
pub open spec fn clusters_view(r: Seq<(usize, String)>) -> Seq<(usize, Seq<char>)> {
    r.map_values(|p: (usize, String)| (p.0, p.1@))
}

/// True when the clusters of `s` start at char boundaries of `s`, at strictly
/// increasing offsets.
pub open spec fn clusters_well_placed(s: Seq<char>, gs: Seq<(usize, Seq<char>)>) -> bool {
    &&& forall|i: int| 0 <= i < gs.len() ==> is_boundary(s, #[trigger] gs[i].0 as int)
    &&& forall|i: int, j: int| 0 <= i < j < gs.len() ==> #[trigger] gs[i].0 < #[trigger] gs[j].0
}

/// The extended grapheme clusters of a string with their byte offsets, as
/// `unicode-segmentation` yields them. Each offset starts a char of the string,
/// and the offsets increase strictly, since clusters are consecutive and non-empty.
#[verifier::external_body]
pub(crate) fn grapheme_indices(text: &str) -> (r: Vec<(usize, String)>)
    ensures
        clusters_view(r@) == grapheme_split(text@),
        clusters_well_placed(text@, clusters_view(r@)),
{
    text.grapheme_indices(true).map(|(i, g)| (i, g.to_string())).collect()
}

/// The one-char string holding `c` (`ToString` on `char`).
#[verifier::external_body]
pub(crate) fn char_string(c: char) -> (r: String)
    ensures
        r@ == seq![c],
{
    c.to_string()
}

/// Inserts `data` at byte `idx` (`String::insert_str`).
#[verifier::external_body]
pub(crate) fn string_insert_str(s: &mut String, idx: usize, data: &str)
    requires
        is_boundary(old(s)@, idx as int),
        byte_len(old(s)@) + byte_len(data@) <= isize::MAX,
    ensures
        final(s)@ == old(s)@.take(char_at_byte(old(s)@, idx as int) as int) + data@ + old(s)@.skip(
            char_at_byte(old(s)@, idx as int) as int,
        ),
{
    s.insert_str(idx, data)
}

/// Removes the bytes `start..end` (`String::replace_range` with an empty replacement).
#[verifier::external_body]
pub(crate) fn string_remove_range(s: &mut String, start: usize, end: usize)
    requires
        start <= end,
        is_boundary(old(s)@, start as int),
        is_boundary(old(s)@, end as int),
    ensures
        final(s)@ == old(s)@.take(char_at_byte(old(s)@, start as int) as int) + old(s)@.skip(
            char_at_byte(old(s)@, end as int) as int,
        ),
{
    s.replace_range(start..end, "")
}

/// The number of bytes in a string (`str::len`). A string never holds more
/// than `isize::MAX` bytes, so the length is exact.
#[verifier::external_body]
pub(crate) fn str_byte_len(s: &str) -> (r: usize)
    ensures
        r == byte_len(s@),
        r <= isize::MAX,
{
    s.len()
}

pub proof fn lemma_encode_concat(a: Seq<char>, b: Seq<char>)
    ensures
        encode_utf8(a + b) == encode_utf8(a) + encode_utf8(b),
    decreases a.len(),
{
    if a.len() == 0 {
        assert(a + b =~= b);
        assert(encode_utf8(a) + encode_utf8(b) =~= encode_utf8(b));
    } else {
        assert((a + b).drop_first() =~= a.drop_first() + b);
        lemma_encode_concat(a.drop_first(), b);
        assert(encode_utf8(a + b) =~= encode_utf8(a) + encode_utf8(b));
    }
}

/// The bytes before the offset of char `k` encode the first `k` chars.
pub proof fn lemma_encode_prefix(s: Seq<char>, k: int)
    requires
        0 <= k <= s.len(),
    ensures
        encode_utf8(s).subrange(0, byte_offset(s, k) as int) == encode_utf8(s.take(k)),
{
    assert(s =~= s.take(k) + s.skip(k));
    lemma_encode_concat(s.take(k), s.skip(k));
    lemma_encode_len(s.take(k));
    lemma_byte_offset_take(s, k, k);
    lemma_byte_offset_bounds(s.take(k), k);
    assert(encode_utf8(s).subrange(0, byte_offset(s, k) as int) =~= encode_utf8(s.take(k)));
}

/// A string whose bytes are the first bytes of `s`, up to a boundary, holds
/// the corresponding first chars of `s`.
pub proof fn lemma_prefix_view(s: Seq<char>, p: Seq<char>, b: int)
    requires
        is_boundary(s, b),
        encode_utf8(p) == encode_utf8(s).subrange(0, b),
    ensures
        p == s.take(char_at_byte(s, b) as int),
        byte_offset(s, char_at_byte(s, b) as int) == b,
{
    lemma_boundary_iff(s, b);
    lemma_char_at_byte_bounds(s, b);
    let k = char_at_byte(s, b) as int;
    lemma_encode_prefix(s, k);
    encode_utf8_decode_utf8(p);
    encode_utf8_decode_utf8(s.take(k));
}

/// The bytes from the offset of char `k` on encode the chars from `k` on.
pub proof fn lemma_suffix_view(s: Seq<char>, p: Seq<char>, b: int)
    requires
        is_boundary(s, b),
        encode_utf8(p) == encode_utf8(s).subrange(b, encode_utf8(s).len() as int),
    ensures
        p == s.skip(char_at_byte(s, b) as int),
{
    lemma_boundary_iff(s, b);
    lemma_char_at_byte_bounds(s, b);
    let k = char_at_byte(s, b) as int;
    assert(s =~= s.take(k) + s.skip(k));
    lemma_encode_concat(s.take(k), s.skip(k));
    lemma_encode_len(s.take(k));
    lemma_byte_offset_take(s, k, k);
    lemma_byte_offset_bounds(s.take(k), k);
    assert(encode_utf8(s).subrange(b, encode_utf8(s).len() as int) =~= encode_utf8(s.skip(k)));
    encode_utf8_decode_utf8(p);
    encode_utf8_decode_utf8(s.skip(k));
}

/// Char indices past the end give the same offset as the end.
pub proof fn lemma_byte_offset_clamp(s: Seq<char>, k: int)
    ensures
        byte_offset(s, k) == byte_offset(s, if k < s.len() { k } else { s.len() as int }),
{
    lemma_byte_offset_bounds(s, k);
    lemma_byte_offset_bounds(s, s.len() as int);
}

/// The char index of a boundary in an edited string whose prefix is kept.
pub proof fn lemma_char_at_kept_prefix(s: Seq<char>, t: Seq<char>, k: int)
    requires
        0 <= k <= s.len(),
    ensures
        char_at_byte(s.take(k) + t, byte_offset(s, k) as int) == k,
{
    let n = s.take(k) + t;
    lemma_byte_offset_concat(s.take(k), t, k);
    lemma_byte_offset_take(s, k, k);
    lemma_char_at_offset(n, k);
}

/// A boundary of a prefix of `s` is a boundary of `s`.
pub proof fn lemma_prefix_boundary(s: Seq<char>, k: int, i: int)
    requires
        0 <= k <= s.len(),
        is_boundary(s.take(k), i),
    ensures
        is_boundary(s, i),
        i <= byte_offset(s, k),
{
    let t = s.take(k);
    lemma_boundary_iff(t, i);
    lemma_char_at_byte_bounds(t, i);
    let j = char_at_byte(t, i) as int;
    lemma_byte_offset_take(s, k, j);
    lemma_byte_offset_take(s, k, k);
    lemma_offset_is_boundary(s, j);
    lemma_byte_offset_mono(s, j, k);
}

} // verus!
