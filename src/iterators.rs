//! Counting and ordering with iterators and closures.

use std::collections::HashMap;
use vstd::prelude::*;
use vstd::string::StrSliceExecFns;
use crate::text::{find_word_spans, texts, word_at, words};

verus! {

/// Whether `c` is a letter: it has the Unicode `Alphabetic` property.
pub uninterp spec fn alphabetic(c: char) -> bool;

/// Relies on `char::is_alphabetic`: whether `c` has the Unicode `Alphabetic`
/// property, which depends on `c` alone.
#[verifier::external_body]
fn is_letter(c: char) -> (r: bool)
    ensures
        r == alphabetic(c),
{
    c.is_alphabetic()
}

pub open spec fn lower_letters() -> Seq<char> {
    seq![
        'a', 'b', 'c', 'd', 'e', 'f', 'g', 'h', 'i', 'j', 'k', 'l', 'm', 'n', 'o', 'p', 'q', 'r',
        's', 't', 'u', 'v', 'w', 'x', 'y', 'z',
    ]
}

/// `char::to_ascii_lowercase`.
pub open spec fn ascii_lower(c: char) -> char {
    if 'A' <= c <= 'Z' { lower_letters()[(c as u32 - 'A' as u32) as int] } else { c }
}

/// The letters of `s`, in order, ASCII letters in lower case; every other
/// character is left out.
pub open spec fn letters_of(s: Seq<char>) -> Seq<char>
    decreases s.len(),
{
    if s.len() == 0 {
        Seq::empty()
    } else {
        let c = s.last();
        letters_of(s.drop_last()) + if alphabetic(c) {
            seq![ascii_lower(c)]
        } else {
            Seq::empty()
        }
    }
}

/// `(c, n)` comes before `(d, m)`: more frequent first, then in character order.
pub open spec fn letter_before(a: (char, usize), b: (char, usize)) -> bool {
    a.1 > b.1 || (a.1 == b.1 && a.0 < b.0)
}

pub open spec fn char_count(s: Seq<char>, c: char) -> nat {
    s.to_multiset().count(c)
}

pub open spec fn has_char(tbl: Seq<(char, usize)>, c: char) -> bool {
    exists|a: int| 0 <= a < tbl.len() && tbl[a].0 == c
}

fn letter_counts(text: &str) -> (tbl: Vec<(char, usize)>)
    ensures
        forall|a: int, b: int| 0 <= a < b < tbl@.len() ==> #[trigger] tbl@[a].0 != #[trigger] tbl@[b].0,
        forall|a: int| 0 <= a < tbl@.len() ==> #[trigger] tbl@[a].1 == char_count(letters_of(text@), tbl@[a].0),
        forall|a: int| 0 <= a < tbl@.len() ==> letters_of(text@).contains(#[trigger] tbl@[a].0),
        forall|c: char| letters_of(text@).contains(c) ==> #[trigger] has_char(tbl@, c),
{
    broadcast use vstd::seq_lib::group_to_multiset_ensures;

    let n = text.unicode_len();
    let mut tbl: Vec<(char, usize)> = Vec::new();
    let mut i: usize = 0;
    while i < n
        invariant
            n == text@.len(),
            i <= n,
            forall|a: int, b: int| 0 <= a < b < tbl@.len() ==> #[trigger] tbl@[a].0 != #[trigger] tbl@[b].0,
            forall|a: int|
                0 <= a < tbl@.len() ==> #[trigger] tbl@[a].1 == char_count(letters_of(text@.take(i as int)), tbl@[a].0),
            forall|a: int| 0 <= a < tbl@.len() ==> letters_of(text@.take(i as int)).contains(#[trigger] tbl@[a].0),
            forall|c: char| letters_of(text@.take(i as int)).contains(c) ==> #[trigger] has_char(tbl@, c),
        decreases n - i,
    {
        let c = text.get_char(i);
        let ghost before = letters_of(text@.take(i as int));
        proof {
            assert(text@.take(i + 1).drop_last() =~= text@.take(i as int));
            assert(text@.take(i + 1).last() == c);
        }
        let v = c as u32;
        let keep = is_letter(c);
        if keep {
            let alphabet = "abcdefghijklmnopqrstuvwxyz";
            proof {
                reveal_strlit("abcdefghijklmnopqrstuvwxyz");
                assert(alphabet@ =~= lower_letters());
            }
            let low: char = if 'A' <= c && c <= 'Z' {
                alphabet.get_char((v - 65) as usize)
            } else {
                c
            };
            let ghost after = letters_of(text@.take(i + 1));
            assert(after =~= before.push(low));
            proof {
                before.to_multiset_ensures();
            }
            assert(after.to_multiset() =~= before.to_multiset().insert(low));
            let mut a: usize = 0;
            let mut found = false;
            while a < tbl.len() && !found
                invariant
                    a <= tbl@.len(),
                    found ==> a < tbl@.len() && tbl@[a as int].0 == low,
                    forall|b: int| 0 <= b < a ==> #[trigger] tbl@[b].0 != low,
                decreases tbl@.len() - a + if found { 0int } else { 1int },
            {
                if tbl[a].0 == low {
                    found = true;
                } else {
                    a = a + 1;
                }
            }
            let ghost tbl_before = tbl@;
            if found {
                let cnt = tbl[a].1;
                assert(before.to_multiset().count(low) <= before.to_multiset().len());
                assert(before.len() == before.to_multiset().len());
                assert(before.len() <= i) by {
                    lemma_letters_len(text@.take(i as int));
                }
                tbl.set(a, (low, cnt + 1));
            } else {
                assert(!before.contains(low)) by {
                    if before.contains(low) {
                        assert(has_char(tbl@, low));
                        let b = choose|b: int| 0 <= b < tbl@.len() && tbl@[b].0 == low;
                    }
                }
                assert(before.to_multiset().count(low) == 0);
                tbl.push((low, 1));
            }
            proof {
                assert forall|x: char| after.contains(x) implies #[trigger] has_char(tbl@, x) by {
                    if x == low {
                        if found {
                            assert(tbl@[a as int].0 == low);
                        } else {
                            assert(tbl@[tbl@.len() - 1].0 == low);
                        }
                    } else {
                        let j = choose|j: int| 0 <= j < after.len() && after[j] == x;
                        assert(before[j] == x);
                        assert(before.contains(x));
                        assert(has_char(tbl_before, x));
                        let b = choose|b: int| 0 <= b < tbl_before.len() && tbl_before[b].0 == x;
                        assert(tbl@[b].0 == x);
                    }
                }
                assert forall|b: int| 0 <= b < tbl@.len() implies after.contains(#[trigger] tbl@[b].0) by {
                    if tbl@[b].0 != low {
                        let j = choose|j: int| 0 <= j < before.len() && before[j] == tbl@[b].0;
                        assert(after[j] == before[j]);
                    } else {
                        assert(after[after.len() - 1] == low);
                    }
                }
            }
        } else {
            assert(letters_of(text@.take(i + 1)) =~= before);
        }
        i = i + 1;
    }
    assert(text@.take(n as int) =~= text@);
    tbl
}

proof fn lemma_letters_len(s: Seq<char>)
    ensures
        letters_of(s).len() <= s.len(),
    decreases s.len(),
{
    if s.len() > 0 {
        lemma_letters_len(s.drop_last());
    }
}

/// The `k` most frequent letters of `text` with their counts (all of them
/// when there are fewer): only alphabetic characters count, ASCII letters in
/// lower case, and letters as frequent come in character order.
pub fn top_k_most_common_letters(text: &str, k: usize) -> (r: Vec<(char, usize)>)
    ensures
        r@.len() <= k,
        forall|a: int, b: int| 0 <= a < b < r@.len() ==> #[trigger] r@[a].0 != #[trigger] r@[b].0,
        forall|a: int| 0 <= a < r@.len() ==> letters_of(text@).contains(#[trigger] r@[a].0),
        forall|a: int| 0 <= a < r@.len() ==> #[trigger] r@[a].1 == char_count(letters_of(text@), r@[a].0),
        forall|a: int, b: int| 0 <= a < b < r@.len() ==> letter_before(#[trigger] r@[a], #[trigger] r@[b]),
        r@.len() < k ==> forall|c: char| letters_of(text@).contains(c) ==> #[trigger] has_char(r@, c),
        forall|c: char, a: int|
            letters_of(text@).contains(c) && !has_char(r@, c) && 0 <= a < r@.len() ==> letter_before(
                #[trigger] r@[a],
                (c, #[trigger] char_count(letters_of(text@), c) as usize),
            ),
{
    let tbl = letter_counts(text);
    let ghost ls = letters_of(text@);
    let mut taken: Vec<bool> = Vec::new();
    let mut a: usize = 0;
    while a < tbl.len()
        invariant
            a <= tbl@.len(),
            taken@.len() == a,
            forall|b: int| 0 <= b < a ==> !#[trigger] taken@[b],
        decreases tbl@.len() - a,
    {
        taken.push(false);
        a = a + 1;
    }
    let mut r: Vec<(char, usize)> = Vec::new();
    let ghost mut chosen: Seq<int> = Seq::empty();
    let mut exhausted = false;
    while r.len() < k && !exhausted
        invariant
            ls == letters_of(text@),
            taken@.len() == tbl@.len(),
            r@.len() <= k,
            r@.len() == chosen.len(),
            forall|a: int, b: int| 0 <= a < b < tbl@.len() ==> #[trigger] tbl@[a].0 != #[trigger] tbl@[b].0,
            forall|a: int| 0 <= a < tbl@.len() ==> #[trigger] tbl@[a].1 == char_count(ls, tbl@[a].0),
            forall|a: int| 0 <= a < tbl@.len() ==> ls.contains(#[trigger] tbl@[a].0),
            forall|c: char| ls.contains(c) ==> #[trigger] has_char(tbl@, c),
            forall|j: int| 0 <= j < chosen.len() ==> 0 <= #[trigger] chosen[j] < tbl@.len(),
            forall|j: int| 0 <= j < chosen.len() ==> #[trigger] r@[j] == tbl@[chosen[j]],
            forall|j: int| 0 <= j < chosen.len() ==> #[trigger] taken@[chosen[j]],
            forall|b: int| 0 <= b < tbl@.len() && #[trigger] taken@[b] ==> chosen.contains(b),
            forall|a: int, b: int| 0 <= a < b < chosen.len() ==> #[trigger] chosen[a] != #[trigger] chosen[b],
            forall|a: int, b: int|
                0 <= a < b < chosen.len() ==> letter_before(tbl@[#[trigger] chosen[a]], tbl@[#[trigger] chosen[b]]),
            forall|j: int, b: int|
                0 <= j < chosen.len() && 0 <= b < tbl@.len() && !#[trigger] taken@[b] ==> letter_before(
                    tbl@[#[trigger] chosen[j]],
                    tbl@[b],
                ),
            exhausted ==> forall|b: int| 0 <= b < tbl@.len() ==> #[trigger] taken@[b],
        decreases k - r@.len() + if exhausted { 0int } else { 1int },
    {
        let mut best: usize = tbl.len();
        let mut b: usize = 0;
        while b < tbl.len()
            invariant
                taken@.len() == tbl@.len(),
                forall|a: int, b: int| 0 <= a < b < tbl@.len() ==> #[trigger] tbl@[a].0 != #[trigger] tbl@[b].0,
                b <= tbl@.len(),
                best == tbl@.len() || (best < b && !taken@[best as int]),
                best == tbl@.len() ==> forall|c: int| 0 <= c < b ==> #[trigger] taken@[c],
                best < tbl@.len() ==> forall|c: int|
                    0 <= c < b && !#[trigger] taken@[c] && c != best ==> letter_before(tbl@[best as int], tbl@[c]),
            decreases tbl@.len() - b,
        {
            if !taken[b] && (best == tbl.len() || tbl[b].1 > tbl[best].1 || (tbl[b].1 == tbl[best].1
                && tbl[b].0 < tbl[best].0)) {
                best = b;
            }
            b = b + 1;
        }
        if best == tbl.len() {
            exhausted = true;
        } else {
            let ghost old_taken = taken@;
            taken.set(best, true);
            r.push(tbl[best]);
            proof {
                let old_chosen = chosen;
                chosen = chosen.push(best as int);
                assert forall|b: int| 0 <= b < tbl@.len() && #[trigger] taken@[b] implies chosen.contains(b) by {
                    if b != best {
                        assert(old_taken[b]);
                        assert(old_chosen.contains(b));
                        let j = choose|j: int| 0 <= j < old_chosen.len() && old_chosen[j] == b;
                        assert(chosen[j] == b);
                    } else {
                        assert(chosen[chosen.len() - 1] == b);
                    }
                }
                assert forall|a: int, b: int| 0 <= a < b < chosen.len() implies #[trigger] chosen[a]
                    != #[trigger] chosen[b] by {
                    if b == chosen.len() - 1 {
                        assert(old_taken[chosen[a]]);
                    }
                }
            }
        }
    }
    proof {
        assert forall|a: int, b: int| 0 <= a < b < r@.len() implies #[trigger] r@[a].0 != #[trigger] r@[b].0 by {
            assert(r@[a] == tbl@[chosen[a]]);
            assert(r@[b] == tbl@[chosen[b]]);
        }
        assert forall|a: int, b: int| 0 <= a < b < r@.len() implies letter_before(
            #[trigger] r@[a],
            #[trigger] r@[b],
        ) by {
            assert(r@[a] == tbl@[chosen[a]]);
            assert(r@[b] == tbl@[chosen[b]]);
        }
        assert forall|c: char, a: int|
            ls.contains(c) && !has_char(r@, c) && 0 <= a < r@.len() implies letter_before(
            #[trigger] r@[a],
            (c, #[trigger] char_count(ls, c) as usize),
        ) by {
            assert(has_char(tbl@, c));
            let b = choose|b: int| 0 <= b < tbl@.len() && tbl@[b].0 == c;
            if taken@[b] {
                let j = choose|j: int| 0 <= j < chosen.len() && chosen[j] == b;
                assert(r@[j].0 == c);
            }
            assert(r@[a] == tbl@[chosen[a]]);
            assert(tbl@[b] == (c, char_count(ls, c) as usize));
        }
        if r@.len() < k {
            assert forall|c: char| ls.contains(c) implies #[trigger] has_char(r@, c) by {
                assert(has_char(tbl@, c));
                let b = choose|b: int| 0 <= b < tbl@.len() && tbl@[b].0 == c;
                assert(taken@[b]);
                let j = choose|j: int| 0 <= j < chosen.len() && chosen[j] == b;
                assert(r@[j].0 == c);
            }
        }
    }
    r
}

/// `a` comes before `b` in character order (a proper prefix comes first).
pub open spec fn lex_lt(a: Seq<char>, b: Seq<char>) -> bool
    decreases a.len(),
{
    if a.len() == 0 {
        b.len() > 0
    } else if b.len() == 0 {
        false
    } else if a[0] != b[0] {
        a[0] < b[0]
    } else {
        lex_lt(a.drop_first(), b.drop_first())
    }
}

proof fn lemma_lex_irreflexive(a: Seq<char>)
    ensures
        !lex_lt(a, a),
    decreases a.len(),
{
    if a.len() > 0 {
        lemma_lex_irreflexive(a.drop_first());
    }
}

proof fn lemma_lex_total(a: Seq<char>, b: Seq<char>)
    requires
        a != b,
    ensures
        lex_lt(a, b) || lex_lt(b, a),
    decreases a.len(),
{
    if a.len() > 0 && b.len() > 0 && a[0] == b[0] {
        assert(a.drop_first() != b.drop_first()) by {
            if a.drop_first() == b.drop_first() {
                assert(a =~= seq![a[0]] + a.drop_first());
                assert(b =~= seq![b[0]] + b.drop_first());
            }
        }
        lemma_lex_total(a.drop_first(), b.drop_first());
    } else if a.len() == 0 && b.len() == 0 {
        assert(a =~= b);
    }
}

proof fn lemma_lex_transitive(a: Seq<char>, b: Seq<char>, c: Seq<char>)
    requires
        lex_lt(a, b),
        lex_lt(b, c),
    ensures
        lex_lt(a, c),
    decreases a.len(),
{
    if a.len() > 0 && b.len() > 0 && c.len() > 0 && a[0] == b[0] && b[0] == c[0] {
        lemma_lex_transitive(a.drop_first(), b.drop_first(), c.drop_first());
    }
}

proof fn lemma_lex_asymmetric(a: Seq<char>, b: Seq<char>)
    requires
        lex_lt(a, b),
    ensures
        !lex_lt(b, a),
    decreases a.len(),
{
    if a.len() > 0 && b.len() > 0 && a[0] == b[0] {
        lemma_lex_asymmetric(a.drop_first(), b.drop_first());
    }
}

/// Whether `a` comes before `b` in character order.
pub fn lex_less(a: &str, b: &str) -> (r: bool)
    ensures
        r == lex_lt(a@, b@),
{
    let n = a.unicode_len();
    let m = b.unicode_len();
    let mut i: usize = 0;
    assert(a@.subrange(0, n as int) =~= a@);
    assert(b@.subrange(0, m as int) =~= b@);
    while i < n && i < m
        invariant
            n == a@.len(),
            m == b@.len(),
            i <= n,
            i <= m,
            lex_lt(a@, b@) == lex_lt(a@.subrange(i as int, n as int), b@.subrange(i as int, m as int)),
        decreases n - i,
    {
        let x = a.get_char(i);
        let y = b.get_char(i);
        if x != y {
            proof {
                let sa = a@.subrange(i as int, n as int);
                let sb = b@.subrange(i as int, m as int);
                assert(sa[0] == x && sb[0] == y);
            }
            return x < y;
        }
        proof {
            let sa = a@.subrange(i as int, n as int);
            let sb = b@.subrange(i as int, m as int);
            assert(sa.drop_first() =~= a@.subrange(i + 1, n as int));
            assert(sb.drop_first() =~= b@.subrange(i + 1, m as int));
        }
        i = i + 1;
    }
    i == n && i < m
}

pub uninterp spec fn lower_str_of(s: Seq<char>) -> Seq<char>;

/// Relies on `str::to_lowercase`: the lower-case form of `s`, which depends
/// on the characters of `s` alone.
#[verifier::external_body]
fn lowercase(s: &str) -> (r: String)
    ensures
        r@ == lower_str_of(s@),
{
    s.to_lowercase()
}

/// The words of `text` in lower case.
pub open spec fn lowered_words(text: Seq<char>) -> Seq<Seq<char>> {
    words(text).map_values(|w: Seq<char>| lower_str_of(w))
}

pub open spec fn word_count(ws: Seq<Seq<char>>, w: Seq<char>) -> nat {
    ws.to_multiset().count(w)
}

/// `(w, n)` comes before `(v, m)`: more frequent first, then in character order.
pub open spec fn word_before(a: (Seq<char>, nat), b: (Seq<char>, nat)) -> bool {
    a.1 > b.1 || (a.1 == b.1 && lex_lt(a.0, b.0))
}

pub open spec fn entry(e: (String, usize)) -> (Seq<char>, nat) {
    (e.0@, e.1 as nat)
}

pub open spec fn has_word(tbl: Seq<(String, usize)>, w: Seq<char>) -> bool {
    exists|a: int| 0 <= a < tbl.len() && tbl[a].0@ == w
}

fn word_counts(ws: &Vec<String>) -> (tbl: Vec<(String, usize)>)
    ensures
        forall|a: int, b: int| 0 <= a < b < tbl@.len() ==> #[trigger] tbl@[a].0@ != #[trigger] tbl@[b].0@,
        forall|a: int| 0 <= a < tbl@.len() ==> #[trigger] tbl@[a].1 == word_count(texts(ws@), tbl@[a].0@),
        forall|a: int| 0 <= a < tbl@.len() ==> texts(ws@).contains(#[trigger] tbl@[a].0@),
        forall|w: Seq<char>| texts(ws@).contains(w) ==> #[trigger] has_word(tbl@, w),
{
    let mut tbl: Vec<(String, usize)> = Vec::new();
    let mut i: usize = 0;
    while i < ws.len()
        invariant
            i <= ws@.len(),
            forall|a: int, b: int| 0 <= a < b < tbl@.len() ==> #[trigger] tbl@[a].0@ != #[trigger] tbl@[b].0@,
            forall|a: int|
                0 <= a < tbl@.len() ==> #[trigger] tbl@[a].1 == word_count(texts(ws@).take(i as int), tbl@[a].0@),
            forall|a: int| 0 <= a < tbl@.len() ==> texts(ws@).take(i as int).contains(#[trigger] tbl@[a].0@),
            forall|w: Seq<char>| texts(ws@).take(i as int).contains(w) ==> #[trigger] has_word(tbl@, w),
        decreases ws@.len() - i,
    {
        let item = &ws[i];
        let ghost before = texts(ws@).take(i as int);
        let ghost after = texts(ws@).take(i + 1);
        assert(after =~= before.push(item@));
        proof {
            before.to_multiset_ensures();
        }
        assert(after.to_multiset() =~= before.to_multiset().insert(item@));
        let mut a: usize = 0;
        let mut found = false;
        while a < tbl.len() && !found
            invariant
                a <= tbl@.len(),
                found ==> a < tbl@.len() && tbl@[a as int].0@ == item@,
                forall|b: int| 0 <= b < a ==> #[trigger] tbl@[b].0@ != item@,
            decreases tbl@.len() - a + if found { 0int } else { 1int },
        {
            if tbl[a].0 == *item {
                found = true;
            } else {
                a = a + 1;
            }
        }
        let ghost tbl_before = tbl@;
        if found {
            let cnt = tbl[a].1;
            let key = tbl[a].0.clone();
            proof {
                before.to_multiset_ensures();
            }
            assert(before.to_multiset().count(item@) <= before.to_multiset().len());
            tbl.set(a, (key, cnt + 1));
        } else {
            assert(!before.contains(item@)) by {
                if before.contains(item@) {
                    assert(has_word(tbl@, item@));
                    let b = choose|b: int| 0 <= b < tbl@.len() && tbl@[b].0@ == item@;
                }
            }
            proof {
                before.to_multiset_ensures();
            }
            assert(before.to_multiset().count(item@) == 0);
            tbl.push((item.clone(), 1));
        }
        proof {
            assert forall|x: Seq<char>| after.contains(x) implies #[trigger] has_word(tbl@, x) by {
                if x == item@ {
                    if found {
                        assert(tbl@[a as int].0@ == item@);
                    } else {
                        assert(tbl@[tbl@.len() - 1].0@ == item@);
                    }
                } else {
                    let j = choose|j: int| 0 <= j < after.len() && after[j] == x;
                    assert(before[j] == x);
                    assert(before.contains(x));
                    assert(has_word(tbl_before, x));
                    let b = choose|b: int| 0 <= b < tbl_before.len() && tbl_before[b].0@ == x;
                    assert(tbl@[b].0@ == x);
                }
            }
            assert forall|b: int| 0 <= b < tbl@.len() implies after.contains(#[trigger] tbl@[b].0@) by {
                if tbl@[b].0@ != item@ {
                    let j = choose|j: int| 0 <= j < before.len() && before[j] == tbl@[b].0@;
                    assert(after[j] == before[j]);
                } else {
                    assert(after[after.len() - 1] == item@);
                }
            }
        }
        i = i + 1;
    }
    assert(texts(ws@).take(ws@.len() as int) =~= texts(ws@));
    tbl
}

/// Each word of `text` in lower case with how often it occurs, most frequent
/// first and in character order among words as frequent.
pub fn word_frequencies(text: &str) -> (r: Vec<(String, usize)>)
    ensures
        forall|a: int, b: int| 0 <= a < b < r@.len() ==> #[trigger] r@[a].0@ != #[trigger] r@[b].0@,
        forall|a: int| 0 <= a < r@.len() ==> lowered_words(text@).contains(#[trigger] r@[a].0@),
        forall|a: int| 0 <= a < r@.len() ==> #[trigger] r@[a].1 == word_count(lowered_words(text@), r@[a].0@),
        forall|w: Seq<char>| lowered_words(text@).contains(w) ==> #[trigger] has_word(r@, w),
        forall|a: int, b: int| 0 <= a < b < r@.len() ==> word_before(entry(#[trigger] r@[a]), entry(#[trigger] r@[b])),
{
    let spans = find_word_spans(text);
    let mut ws: Vec<String> = Vec::new();
    let mut k: usize = 0;
    while k < spans.len()
        invariant
            crate::text::spans_view(spans@) == crate::text::word_spans(text@),
            words(text@).len() == spans@.len(),
            k <= spans@.len(),
            texts(ws@) == lowered_words(text@).take(k as int),
        decreases spans@.len() - k,
    {
        let w = word_at(text, &spans, k);
        let low = lowercase(w);
        let ghost before = ws@;
        ws.push(low);
        assert(texts(ws@) =~= texts(before).push(lower_str_of(words(text@)[k as int])));
        assert(texts(ws@) =~= lowered_words(text@).take(k + 1));
        k = k + 1;
    }
    assert(lowered_words(text@).take(k as int) =~= lowered_words(text@));
    let tbl = word_counts(&ws);
    let ghost ls = texts(ws@);
    let mut taken: Vec<bool> = Vec::new();
    let mut a: usize = 0;
    while a < tbl.len()
        invariant
            a <= tbl@.len(),
            taken@.len() == a,
            forall|b: int| 0 <= b < a ==> !#[trigger] taken@[b],
        decreases tbl@.len() - a,
    {
        taken.push(false);
        a = a + 1;
    }
    let mut r: Vec<(String, usize)> = Vec::new();
    let ghost mut chosen: Seq<int> = Seq::empty();
    let n = tbl.len();
    while r.len() < n
        invariant
            n == tbl@.len(),
            ls == lowered_words(text@),
            taken@.len() == tbl@.len(),
            r@.len() == chosen.len(),
            r@.len() <= n,
            forall|a: int, b: int| 0 <= a < b < tbl@.len() ==> #[trigger] tbl@[a].0@ != #[trigger] tbl@[b].0@,
            forall|a: int| 0 <= a < tbl@.len() ==> #[trigger] tbl@[a].1 == word_count(ls, tbl@[a].0@),
            forall|a: int| 0 <= a < tbl@.len() ==> ls.contains(#[trigger] tbl@[a].0@),
            forall|w: Seq<char>| ls.contains(w) ==> #[trigger] has_word(tbl@, w),
            forall|j: int| 0 <= j < chosen.len() ==> 0 <= #[trigger] chosen[j] < tbl@.len(),
            forall|j: int| 0 <= j < chosen.len() ==> entry(#[trigger] r@[j]) == entry(tbl@[chosen[j]]),
            forall|j: int| 0 <= j < chosen.len() ==> #[trigger] taken@[chosen[j]],
            forall|b: int| 0 <= b < tbl@.len() && #[trigger] taken@[b] ==> chosen.contains(b),
            forall|a: int, b: int| 0 <= a < b < chosen.len() ==> #[trigger] chosen[a] != #[trigger] chosen[b],
            forall|a: int, b: int|
                0 <= a < b < chosen.len() ==> word_before(entry(tbl@[#[trigger] chosen[a]]), entry(tbl@[#[trigger] chosen[b]])),
            forall|j: int, b: int|
                0 <= j < chosen.len() && 0 <= b < tbl@.len() && !#[trigger] taken@[b] ==> word_before(
                    entry(tbl@[#[trigger] chosen[j]]),
                    entry(tbl@[b]),
                ),
        decreases n - r@.len(),
    {
        let mut best: usize = tbl.len();
        let mut b: usize = 0;
        while b < tbl.len()
            invariant
                n == tbl@.len(),
                taken@.len() == tbl@.len(),
                forall|a: int, b: int| 0 <= a < b < tbl@.len() ==> #[trigger] tbl@[a].0@ != #[trigger] tbl@[b].0@,
                b <= tbl@.len(),
                best == tbl@.len() || (best < b && !taken@[best as int]),
                best == tbl@.len() ==> forall|c: int| 0 <= c < b ==> #[trigger] taken@[c],
                best < tbl@.len() ==> forall|c: int|
                    0 <= c < b && !#[trigger] taken@[c] && c != best ==> word_before(
                        entry(tbl@[best as int]),
                        entry(tbl@[c]),
                    ),
            decreases tbl@.len() - b,
        {
            if !taken[b] {
                if best == tbl.len() {
                    best = b;
                } else {
                    let better = tbl[b].1 > tbl[best].1 || (tbl[b].1 == tbl[best].1 && lex_less(
                        tbl[b].0.as_str(),
                        tbl[best].0.as_str(),
                    ));
                    proof {
                        let eb = entry(tbl@[b as int]);
                        let ebest = entry(tbl@[best as int]);
                        assert(better == word_before(eb, ebest));
                        if better {
                            assert forall|c: int|
                                0 <= c < b && !#[trigger] taken@[c] && c != best implies word_before(
                                eb,
                                entry(tbl@[c]),
                            ) by {
                                let ec = entry(tbl@[c]);
                                assert(word_before(ebest, ec));
                                if eb.1 == ebest.1 && ebest.1 == ec.1 {
                                    lemma_lex_transitive(eb.0, ebest.0, ec.0);
                                }
                            }
                            assert(!word_before(ebest, eb)) by {
                                if eb.1 == ebest.1 {
                                    lemma_lex_asymmetric(eb.0, ebest.0);
                                }
                            }
                        } else {
                            lemma_lex_total(eb.0, ebest.0);
                        }
                    }
                    if better {
                        best = b;
                    }
                }
            }
            b = b + 1;
        }
        proof {
            if best == tbl@.len() {
                assert(forall|c: int| 0 <= c < tbl@.len() ==> #[trigger] taken@[c]);
                assert forall|c: int| 0 <= c < tbl@.len() implies chosen.contains(c) by {
                    assert(taken@[c]);
                }
                lemma_covering_indices_len(chosen, tbl@.len() as int);
            }
        }
        let ghost old_taken = taken@;
        taken.set(best, true);
        let key = tbl[best].0.clone();
        r.push((key, tbl[best].1));
        proof {
            let old_chosen = chosen;
            chosen = chosen.push(best as int);
            assert forall|b: int| 0 <= b < tbl@.len() && #[trigger] taken@[b] implies chosen.contains(b) by {
                if b != best {
                    assert(old_taken[b]);
                    assert(old_chosen.contains(b));
                    let j = choose|j: int| 0 <= j < old_chosen.len() && old_chosen[j] == b;
                    assert(chosen[j] == b);
                } else {
                    assert(chosen[chosen.len() - 1] == b);
                }
            }
            assert forall|a: int, b: int| 0 <= a < b < chosen.len() implies #[trigger] chosen[a]
                != #[trigger] chosen[b] by {
                if b == chosen.len() - 1 {
                    assert(old_taken[chosen[a]]);
                }
            }
        }
    }
    proof {
        lemma_distinct_indices_cover(chosen, tbl@.len() as int);
        assert forall|a: int, b: int| 0 <= a < b < r@.len() implies #[trigger] r@[a].0@ != #[trigger] r@[b].0@ by {
            assert(entry(r@[a]) == entry(tbl@[chosen[a]]));
            assert(entry(r@[b]) == entry(tbl@[chosen[b]]));
        }
        assert forall|a: int, b: int| 0 <= a < b < r@.len() implies word_before(
            entry(#[trigger] r@[a]),
            entry(#[trigger] r@[b]),
        ) by {
            assert(entry(r@[a]) == entry(tbl@[chosen[a]]));
            assert(entry(r@[b]) == entry(tbl@[chosen[b]]));
        }
        assert forall|a: int| 0 <= a < r@.len() implies ls.contains(#[trigger] r@[a].0@) && r@[a].1
            == word_count(ls, r@[a].0@) by {
            assert(entry(r@[a]) == entry(tbl@[chosen[a]]));
        }
        assert forall|w: Seq<char>| ls.contains(w) implies #[trigger] has_word(r@, w) by {
            assert(has_word(tbl@, w));
            let b = choose|b: int| 0 <= b < tbl@.len() && tbl@[b].0@ == w;
            assert(chosen.contains(b));
            let j = choose|j: int| 0 <= j < chosen.len() && chosen[j] == b;
            assert(entry(r@[j]) == entry(tbl@[b]));
        }
    }
    r
}

/// `n` distinct indices below `n` are all of them.
proof fn lemma_distinct_indices_cover(idx: Seq<int>, n: int)
    requires
        idx.len() == n,
        forall|j: int| 0 <= j < idx.len() ==> 0 <= #[trigger] idx[j] < n,
        forall|a: int, b: int| 0 <= a < b < idx.len() ==> #[trigger] idx[a] != #[trigger] idx[b],
    ensures
        forall|c: int| 0 <= c < n ==> idx.contains(c),
{
    assert forall|c: int| 0 <= c < n implies idx.contains(c) by {
        if !idx.contains(c) {
            let s = idx.to_set();
            let full = vstd::set_lib::set_int_range(0, n).remove(c);
            assert(s.subset_of(full));
            idx.unique_seq_to_set();
            vstd::set_lib::lemma_int_range(0, n);
            vstd::set_lib::lemma_len_subset(s, full);
        }
    }
}

/// Distinct indices that include every index below `n` number at least `n`.
proof fn lemma_covering_indices_len(idx: Seq<int>, n: int)
    requires
        0 <= n,
        forall|a: int, b: int| 0 <= a < b < idx.len() ==> #[trigger] idx[a] != #[trigger] idx[b],
        forall|c: int| 0 <= c < n ==> idx.contains(c),
    ensures
        idx.len() >= n,
{
    let s = idx.to_set();
    vstd::set_lib::lemma_int_range(0, n);
    assert(vstd::set_lib::set_int_range(0, n).subset_of(s));
    idx.unique_seq_to_set();
    vstd::set_lib::lemma_len_subset(vstd::set_lib::set_int_range(0, n), s);
}

/// The sort key of a name: its lower-case form.
pub open spec fn name_key(n: Seq<char>) -> Seq<char> {
    lower_str_of(n)
}

/// The names of `names` at least `minimum_length` bytes long, in order.
pub open spec fn long_names(names: Seq<String>, minimum_length: usize) -> Seq<Seq<char>>
    decreases names.len(),
{
    if names.len() == 0 {
        Seq::empty()
    } else {
        long_names(names.drop_last(), minimum_length) + if crate::text::byte_len(names.last()@)
            >= minimum_length {
            seq![names.last()@]
        } else {
            Seq::empty()
        }
    }
}

/// `perm` reorders `len` positions: each once.
pub open spec fn is_permutation(perm: Seq<int>, len: nat) -> bool {
    &&& perm.len() == len
    &&& forall|j: int| 0 <= j < perm.len() ==> 0 <= #[trigger] perm[j] < len
    &&& forall|a: int, b: int| 0 <= a < b < perm.len() ==> #[trigger] perm[a] != #[trigger] perm[b]
}

/// The names at least `minimum_length` bytes long, sorted by their lower-case
/// form; names with the same lower-case form keep their order.
pub fn filter_and_sort_names(names: Vec<String>, minimum_length: usize) -> (r: Vec<String>)
    ensures
        exists|perm: Seq<int>|
            #![trigger is_permutation(perm, long_names(names@, minimum_length).len())]
            is_permutation(perm, long_names(names@, minimum_length).len()) && (forall|j: int|
                0 <= j < r@.len() ==> #[trigger] r@[j]@ == long_names(names@, minimum_length)[perm[j]])
                && (forall|a: int, b: int|
                0 <= a < b < r@.len() ==> !lex_lt(name_key(#[trigger] r@[b]@), name_key(#[trigger] r@[a]@)))
                && (forall|a: int, b: int|
                0 <= a < b < r@.len() && name_key(r@[a]@) == name_key(r@[b]@) ==> #[trigger] perm[a]
                    < #[trigger] perm[b]),
{
    let ghost kept = long_names(names@, minimum_length);
    let mut filtered: Vec<String> = Vec::new();
    let mut keys: Vec<String> = Vec::new();
    let mut i: usize = 0;
    while i < names.len()
        invariant
            i <= names@.len(),
            texts(filtered@) == long_names(names@.take(i as int), minimum_length),
            keys@.len() == filtered@.len(),
            forall|j: int| 0 <= j < keys@.len() ==> #[trigger] keys@[j]@ == name_key(filtered@[j]@),
        decreases names@.len() - i,
    {
        proof {
            assert(names@.take(i + 1).drop_last() =~= names@.take(i as int));
            assert(names@.take(i + 1).last() == names@[i as int]);
        }
        if names[i].as_str().len() >= minimum_length {
            let ghost before = filtered@;
            filtered.push(names[i].clone());
            keys.push(lowercase(names[i].as_str()));
            assert(texts(filtered@) =~= texts(before).push(names@[i as int]@));
        }
        i = i + 1;
    }
    assert(names@.take(i as int) =~= names@);
    let n = filtered.len();
    let mut taken: Vec<bool> = Vec::new();
    let mut a: usize = 0;
    while a < n
        invariant
            a <= n,
            taken@.len() == a,
            forall|b: int| 0 <= b < a ==> !#[trigger] taken@[b],
        decreases n - a,
    {
        taken.push(false);
        a = a + 1;
    }
    let mut r: Vec<String> = Vec::new();
    let ghost mut chosen: Seq<int> = Seq::empty();
    while r.len() < n
        invariant
            n == filtered@.len(),
            kept == long_names(names@, minimum_length),
            texts(filtered@) == kept,
            keys@.len() == n,
            forall|j: int| 0 <= j < n ==> #[trigger] keys@[j]@ == name_key(filtered@[j]@),
            taken@.len() == n,
            r@.len() == chosen.len(),
            r@.len() <= n,
            forall|j: int| 0 <= j < chosen.len() ==> 0 <= #[trigger] chosen[j] < n,
            forall|j: int| 0 <= j < chosen.len() ==> #[trigger] r@[j]@ == filtered@[chosen[j]]@,
            forall|j: int| 0 <= j < chosen.len() ==> #[trigger] taken@[chosen[j]],
            forall|b: int| 0 <= b < n && #[trigger] taken@[b] ==> chosen.contains(b),
            forall|a: int, b: int| 0 <= a < b < chosen.len() ==> #[trigger] chosen[a] != #[trigger] chosen[b],
            forall|a: int, b: int|
                0 <= a < b < chosen.len() ==> !lex_lt(keys@[#[trigger] chosen[b]]@, keys@[#[trigger] chosen[a]]@),
            forall|a: int, b: int|
                0 <= a < b < chosen.len() && keys@[chosen[a]]@ == keys@[chosen[b]]@ ==> #[trigger] chosen[a]
                    < #[trigger] chosen[b],
            forall|j: int, b: int|
                0 <= j < chosen.len() && 0 <= b < n && !#[trigger] taken@[b] ==> !lex_lt(
                    keys@[b]@,
                    keys@[#[trigger] chosen[j]]@,
                ) && (keys@[b]@ == keys@[chosen[j]]@ ==> chosen[j] < b),
        decreases n - r@.len(),
    {
        let mut best: usize = n;
        let mut b: usize = 0;
        while b < n
            invariant
                n == taken@.len(),
                keys@.len() == n,
                b <= n,
                best == n || (best < b && !taken@[best as int]),
                best == n ==> forall|c: int| 0 <= c < b ==> #[trigger] taken@[c],
                best < n ==> forall|c: int|
                    0 <= c < b && !#[trigger] taken@[c] ==> !lex_lt(keys@[c]@, keys@[best as int]@) && (
                    keys@[c]@ == keys@[best as int]@ ==> best <= c),
            decreases n - b,
        {
            proof {
                lemma_lex_irreflexive(keys@[b as int]@);
            }
            if !taken[b] {
                if best == n {
                    best = b;
                } else {
                    let smaller = lex_less(keys[b].as_str(), keys[best].as_str());
                    proof {
                        let kb = keys@[b as int]@;
                        let kbest = keys@[best as int]@;
                        if smaller {
                            assert forall|c: int| 0 <= c < b && !#[trigger] taken@[c] implies !lex_lt(
                                keys@[c]@,
                                kb,
                            ) && (keys@[c]@ == kb ==> b <= c) by {
                                let kc = keys@[c]@;
                                if lex_lt(kc, kb) {
                                    lemma_lex_transitive(kc, kb, kbest);
                                }
                                if kc == kb {
                                    assert(!lex_lt(kc, kbest));
                                }
                            }
                        } else {
                            if kb != kbest {
                                lemma_lex_total(kb, kbest);
                            }
                            lemma_lex_irreflexive(kbest);
                        }
                    }
                    if smaller {
                        best = b;
                    }
                }
            }
            b = b + 1;
        }
        proof {
            if best == n {
                assert forall|c: int| 0 <= c < n implies chosen.contains(c) by {
                    assert(taken@[c]);
                }
                lemma_covering_indices_len(chosen, n as int);
            }
        }
        let ghost old_taken = taken@;
        taken.set(best, true);
        r.push(filtered[best].clone());
        proof {
            let old_chosen = chosen;
            chosen = chosen.push(best as int);
            assert forall|b: int| 0 <= b < n && #[trigger] taken@[b] implies chosen.contains(b) by {
                if b != best {
                    assert(old_taken[b]);
                    assert(old_chosen.contains(b));
                    let j = choose|j: int| 0 <= j < old_chosen.len() && old_chosen[j] == b;
                    assert(chosen[j] == b);
                } else {
                    assert(chosen[chosen.len() - 1] == b);
                }
            }
            assert forall|a: int, b: int| 0 <= a < b < chosen.len() implies #[trigger] chosen[a]
                != #[trigger] chosen[b] by {
                if b == chosen.len() - 1 {
                    assert(old_taken[chosen[a]]);
                }
            }
        }
    }
    proof {
        lemma_distinct_indices_cover(chosen, n as int);
        assert(is_permutation(chosen, kept.len()));
        assert forall|j: int| 0 <= j < r@.len() implies #[trigger] r@[j]@ == kept[chosen[j]] by {
            assert(texts(filtered@)[chosen[j]] == filtered@[chosen[j]]@);
        }
        assert forall|a: int, b: int| 0 <= a < b < r@.len() implies !lex_lt(
            name_key(#[trigger] r@[b]@),
            name_key(#[trigger] r@[a]@),
        ) by {
            assert(keys@[chosen[a]]@ == name_key(filtered@[chosen[a]]@));
            assert(keys@[chosen[b]]@ == name_key(filtered@[chosen[b]]@));
        }
        assert forall|a: int, b: int|
            0 <= a < b < r@.len() && name_key(r@[a]@) == name_key(r@[b]@) implies #[trigger] chosen[a]
                < #[trigger] chosen[b] by {
            assert(keys@[chosen[a]]@ == name_key(filtered@[chosen[a]]@));
            assert(keys@[chosen[b]]@ == name_key(filtered@[chosen[b]]@));
        }
    }
    r
}

/// The names of the students with grade `g`, in the order given.
pub open spec fn names_with_grade(students: Seq<(String, u32)>, g: u32) -> Seq<Seq<char>>
    decreases students.len(),
{
    if students.len() == 0 {
        Seq::empty()
    } else {
        names_with_grade(students.drop_last(), g) + if students.last().1 == g {
            seq![students.last().0@]
        } else {
            Seq::empty()
        }
    }
}

pub open spec fn has_grade(students: Seq<(String, u32)>, g: u32) -> bool {
    exists|j: int| 0 <= j < students.len() && students[j].1 == g
}

/// Each name is no earlier in character order than the one before it.
pub open spec fn sorted_names(s: Seq<Seq<char>>) -> bool {
    forall|a: int, b: int| 0 <= a < b < s.len() ==> !lex_lt(#[trigger] s[b], #[trigger] s[a])
}

/// Puts `name` into the sorted `names` before the first name it precedes.
fn insert_sorted(names: &mut Vec<String>, name: String)
    requires
        sorted_names(texts(old(names)@)),
    ensures
        sorted_names(texts(final(names)@)),
        texts(final(names)@).to_multiset() == texts(old(names)@).to_multiset().insert(name@),
{
    let ghost t = texts(names@);
    let mut p: usize = 0;
    let mut found = false;
    while p < names.len() && !found
        invariant
            t == texts(names@),
            p <= names@.len(),
            forall|j: int| 0 <= j < p ==> !lex_lt(name@, #[trigger] t[j]),
            found ==> p < names@.len() && lex_lt(name@, t[p as int]),
        decreases names@.len() - p + if found { 0int } else { 1int },
    {
        if lex_less(name.as_str(), names[p].as_str()) {
            found = true;
        } else {
            p = p + 1;
        }
    }
    let ghost x = name@;
    names.insert(p, name);
    proof {
        let u = texts(names@);
        assert(u =~= t.insert(p as int, x));
        vstd::seq_lib::to_multiset_insert(t, p as int, x);
        assert forall|a: int, b: int| 0 <= a < b < u.len() implies !lex_lt(#[trigger] u[b], #[trigger] u[a]) by {
            if b < p {
                assert(u[a] == t[a] && u[b] == t[b]);
            } else if a > p {
                assert(u[a] == t[a - 1] && u[b] == t[b - 1]);
            } else if a < p && b == p {
                assert(u[a] == t[a] && u[b] == x);
            } else if a < p {
                assert(u[a] == t[a] && u[b] == t[b - 1]);
            } else {
                assert(a == p && u[a] == x && u[b] == t[b - 1]);
                assert(found);
                if b - 1 == p {
                    lemma_lex_asymmetric(x, t[p as int]);
                } else if lex_lt(t[b - 1], x) {
                    lemma_lex_transitive(t[b - 1], x, t[p as int]);
                    assert(!lex_lt(t[b - 1], t[p as int]));
                }
            }
        }
    }
}

/// The students' names grouped by grade, each group sorted by name.
pub fn group_students_by_grade(students: Vec<(String, u32)>) -> (r: HashMap<u32, Vec<String>>)
    ensures
        forall|g: u32| #[trigger] r@.contains_key(g) <==> has_grade(students@, g),
        forall|g: u32|
            r@.contains_key(g) ==> texts(#[trigger] r@[g]@).to_multiset() == names_with_grade(
                students@,
                g,
            ).to_multiset() && sorted_names(texts(r@[g]@)),
{
    broadcast use vstd::std_specs::hash::group_hash_axioms;
    broadcast use vstd::seq_lib::group_to_multiset_ensures;

    let mut groups: HashMap<u32, Vec<String>> = HashMap::new();
    let mut i: usize = 0;
    while i < students.len()
        invariant
            i <= students@.len(),
            forall|g: u32| #[trigger] groups@.contains_key(g) <==> has_grade(students@.take(i as int), g),
            forall|g: u32|
                groups@.contains_key(g) ==> texts(#[trigger] groups@[g]@).to_multiset()
                    == names_with_grade(students@.take(i as int), g).to_multiset() && sorted_names(
                    texts(groups@[g]@),
                ),
        decreases students@.len() - i,
    {
        let ghost prefix = students@.take(i as int);
        let ghost next = students@.take(i + 1);
        proof {
            assert(next.drop_last() =~= prefix);
            assert(next.last() == students@[i as int]);
        }
        let name = students[i].0.clone();
        let grade = students[i].1;
        let ghost x = name@;
        let ghost old_groups = groups@;
        proof {
            let before = names_with_grade(prefix, grade);
            assert(names_with_grade(next, grade) =~= before.push(x));
        }
        match groups.remove(&grade) {
            Some(mut names) => {
                let ghost before = texts(names@);
                assert(before.to_multiset() == names_with_grade(prefix, grade).to_multiset());
                insert_sorted(&mut names, name);
                proof {
                    let b = names_with_grade(prefix, grade);
                    b.to_multiset_ensures();
                    assert(b.push(x).to_multiset() =~= b.to_multiset().insert(x));
                    assert(texts(names@).to_multiset() == names_with_grade(next, grade).to_multiset());
                }
                groups.insert(grade, names);
            },
            None => {
                let mut names: Vec<String> = Vec::new();
                proof {
                    assert(!has_grade(prefix, grade));
                    lemma_no_grade_no_names(prefix, grade);
                    assert(texts(names@) =~= Seq::<Seq<char>>::empty());
                }
                insert_sorted(&mut names, name);
                proof {
                    let b = names_with_grade(prefix, grade);
                    b.to_multiset_ensures();
                    assert(b.push(x).to_multiset() =~= b.to_multiset().insert(x));
                    assert(Seq::<Seq<char>>::empty().to_multiset() =~= vstd::multiset::Multiset::<Seq<char>>::empty());
                    assert(texts(names@).to_multiset() == names_with_grade(next, grade).to_multiset());
                }
                groups.insert(grade, names);
            },
        }
        proof {
            assert forall|g: u32| #[trigger] groups@.contains_key(g) <== has_grade(next, g) by {
                if has_grade(next, g) && g != grade {
                    let j = choose|j: int| 0 <= j < next.len() && next[j].1 == g;
                    assert(prefix[j] == next[j]);
                    assert(has_grade(prefix, g));
                }
            }
            assert forall|g: u32| #[trigger] groups@.contains_key(g) ==> has_grade(next, g) by {
                if groups@.contains_key(g) {
                    if g == grade {
                        assert(next[i as int].1 == g);
                    } else {
                        assert(old_groups.contains_key(g));
                        let j = choose|j: int| 0 <= j < prefix.len() && prefix[j].1 == g;
                        assert(next[j] == prefix[j]);
                    }
                }
            }
            assert forall|g: u32| groups@.contains_key(g) && g != grade implies names_with_grade(next, g)
                == names_with_grade(prefix, g) by {}
        }
        i = i + 1;
    }
    assert(students@.take(i as int) =~= students@);
    groups
}

proof fn lemma_no_grade_no_names(students: Seq<(String, u32)>, g: u32)
    requires
        !has_grade(students, g),
    ensures
        names_with_grade(students, g) == Seq::<Seq<char>>::empty(),
    decreases students.len(),
{
    if students.len() > 0 {
        assert(!has_grade(students.drop_last(), g)) by {
            if has_grade(students.drop_last(), g) {
                let j = choose|j: int| 0 <= j < students.len() - 1 && students.drop_last()[j].1 == g;
                assert(students[j].1 == g);
            }
        }
        lemma_no_grade_no_names(students.drop_last(), g);
        assert(students.last().1 != g);
        assert(names_with_grade(students, g) =~= Seq::<Seq<char>>::empty());
    }
}

} // verus!
