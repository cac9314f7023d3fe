//! Words of a text: the runs of characters between white space, as
//! `str::split_whitespace` yields them.

use vstd::prelude::*;
use vstd::string::StrSliceExecFns;
use vstd::utf8::encode_utf8;

verus! {

/// The characters with the Unicode `White_Space` property.
pub open spec fn is_white_space(c: char) -> bool {
    let v = c as u32;
    (0x9 <= v <= 0xd) || v == 0x20 || v == 0x85 || v == 0xa0 || v == 0x1680 || (0x2000 <= v
        <= 0x200a) || v == 0x2028 || v == 0x2029 || v == 0x202f || v == 0x205f || v == 0x3000
}

/// `char::is_whitespace`.
pub fn white_space(c: char) -> (r: bool)
    ensures
        r == is_white_space(c),
{
    let v = c as u32;
    (0x9 <= v && v <= 0xd) || v == 0x20 || v == 0x85 || v == 0xa0 || v == 0x1680 || (0x2000 <= v
        && v <= 0x200a) || v == 0x2028 || v == 0x2029 || v == 0x202f || v == 0x205f || v == 0x3000
}

/// The words of `s` from position `i` on, as `[start, end)` spans, when the
/// word being read began at `start` (`start == i`: none is being read).
pub open spec fn spans_from(s: Seq<char>, i: int, start: int) -> Seq<(int, int)>
    decreases s.len() - i,
{
    if i >= s.len() {
        if start < i { seq![(start, i)] } else { Seq::empty() }
    } else if is_white_space(s[i]) {
        (if start < i { seq![(start, i)] } else { Seq::empty() }) + spans_from(s, i + 1, i + 1)
    } else {
        spans_from(s, i + 1, start)
    }
}

/// Where the words of `s` stand.
pub open spec fn word_spans(s: Seq<char>) -> Seq<(int, int)> {
    spans_from(s, 0, 0)
}

/// The texts of `v`.
pub open spec fn texts(v: Seq<String>) -> Seq<Seq<char>> {
    v.map_values(|s: String| s@)
}

/// The words of `s`, in order.
pub open spec fn words(s: Seq<char>) -> Seq<Seq<char>> {
    word_spans(s).map_values(|p: (int, int)| s.subrange(p.0, p.1))
}

pub open spec fn spans_view(v: Seq<(usize, usize)>) -> Seq<(int, int)> {
    v.map_values(|p: (usize, usize)| (p.0 as int, p.1 as int))
}

proof fn lemma_spans_from_bounds(s: Seq<char>, i: int, start: int)
    requires
        0 <= start <= i <= s.len(),
    ensures
        forall|k: int|
            0 <= k < spans_from(s, i, start).len() ==> start <= #[trigger] spans_from(s, i, start)[k].0
                < spans_from(s, i, start)[k].1 <= s.len(),
    decreases s.len() - i,
{
    let all = spans_from(s, i, start);
    if i >= s.len() {
        if start < i {
            assert(all == seq![(start, i)]);
        } else {
            assert(all =~= Seq::<(int, int)>::empty());
        }
    } else if is_white_space(s[i]) {
        lemma_spans_from_bounds(s, i + 1, i + 1);
        let head: Seq<(int, int)> = if start < i { seq![(start, i)] } else { Seq::empty() };
        let rest = spans_from(s, i + 1, i + 1);
        assert(all == head + rest);
        assert forall|k: int| 0 <= k < all.len() implies start <= #[trigger] all[k].0 < all[k].1
            <= s.len() by {
            if k >= head.len() {
                assert(all[k] == rest[k - head.len()]);
            } else {
                assert(all[k] == head[k]);
            }
        }
    } else {
        lemma_spans_from_bounds(s, i + 1, start);
        assert(all == spans_from(s, i + 1, start));
    }
}

/// Every span lies inside `s` and holds at least one character.
pub proof fn lemma_word_spans_bounds(s: Seq<char>)
    ensures
        forall|k: int|
            0 <= k < word_spans(s).len() ==> 0 <= #[trigger] word_spans(s)[k].0 < word_spans(s)[k].1
                <= s.len(),
{
    lemma_spans_from_bounds(s, 0, 0);
}

/// The spans of the words of `s`.
pub fn find_word_spans(s: &str) -> (r: Vec<(usize, usize)>)
    ensures
        spans_view(r@) == word_spans(s@),
{
    let n = s.unicode_len();
    let mut out: Vec<(usize, usize)> = Vec::new();
    let mut start: usize = 0;
    let mut i: usize = 0;
    while i < n
        invariant
            n == s@.len(),
            start <= i <= n,
            spans_view(out@) + spans_from(s@, i as int, start as int) == word_spans(s@),
        decreases n - i,
    {
        let c = s.get_char(i);
        if white_space(c) {
            if start < i {
                let ghost before = out@;
                out.push((start, i));
                assert(spans_view(out@) =~= spans_view(before).push((start as int, i as int)));
            }
            assert(spans_view(out@) + spans_from(s@, i + 1, i + 1) =~= word_spans(s@));
            start = i + 1;
        }
        i = i + 1;
    }
    if start < n {
        let ghost before = out@;
        out.push((start, n));
        assert(spans_view(out@) =~= spans_view(before).push((start as int, n as int)));
    }
    assert(spans_view(out@) =~= word_spans(s@));
    out
}

/// The length of `w` in UTF-8 bytes, as `str::len` gives it.
pub open spec fn byte_len(w: Seq<char>) -> usize {
    encode_utf8(w).len() as usize
}

/// Word `j` of `ws` is the longest in bytes, and the last of the longest.
pub open spec fn is_last_longest(ws: Seq<Seq<char>>, j: int) -> bool {
    &&& 0 <= j < ws.len()
    &&& forall|k: int| 0 <= k < ws.len() ==> byte_len(#[trigger] ws[k]) <= byte_len(ws[j])
    &&& forall|k: int| j < k < ws.len() ==> byte_len(#[trigger] ws[k]) < byte_len(ws[j])
}

/// The word of `s` at `spans[k]`.
pub fn word_at<'a>(s: &'a str, spans: &Vec<(usize, usize)>, k: usize) -> (r: &'a str)
    requires
        spans_view(spans@) == word_spans(s@),
        k < spans@.len(),
    ensures
        r@ == words(s@)[k as int],
{
    proof {
        lemma_word_spans_bounds(s@);
        assert(spans_view(spans@)[k as int] == word_spans(s@)[k as int]);
    }
    let (a, b) = spans[k];
    s.substring_char(a, b)
}

/// Which word of `s` is the longest in bytes, the last one on a tie.
pub fn last_longest_word(s: &str, spans: &Vec<(usize, usize)>) -> (r: usize)
    requires
        spans_view(spans@) == word_spans(s@),
        spans@.len() > 0,
    ensures
        is_last_longest(words(s@), r as int),
{
    let ghost ws = words(s@);
    let mut best: usize = 0;
    let mut best_len: usize = word_at(s, spans, 0).len();
    let mut k: usize = 1;
    while k < spans.len()
        invariant
            spans_view(spans@) == word_spans(s@),
            ws == words(s@),
            ws.len() == spans@.len(),
            1 <= k <= spans@.len(),
            best < k,
            best_len == byte_len(ws[best as int]),
            forall|j: int| 0 <= j < k ==> byte_len(#[trigger] ws[j]) <= best_len,
            forall|j: int| best < j < k ==> byte_len(#[trigger] ws[j]) < best_len,
        decreases spans@.len() - k,
    {
        let len = word_at(s, spans, k).len();
        if len >= best_len {
            best = k;
            best_len = len;
        }
        k = k + 1;
    }
    best
}

/// `ps` joined with single spaces.
pub open spec fn joined(ps: Seq<Seq<char>>) -> Seq<char>
    decreases ps.len(),
{
    if ps.len() == 0 {
        Seq::empty()
    } else if ps.len() == 1 {
        ps[0]
    } else {
        joined(ps.drop_last()) + seq![' '] + ps.last()
    }
}

} // verus!
