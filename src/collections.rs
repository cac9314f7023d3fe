//! Vectors, strings and counting.

use vstd::prelude::*;
use vstd::string::{StrSliceExecFns, StringExecFns};
use crate::text::{find_word_spans, joined, word_at, words};

verus! {

/// `idx` picks positions of `s` in increasing order whose values strictly
/// increase.
pub open spec fn is_increasing_pick(s: Seq<i32>, idx: Seq<int>) -> bool {
    &&& forall|k: int| 0 <= k < idx.len() ==> 0 <= #[trigger] idx[k] < s.len()
    &&& forall|a: int, b: int|
        0 <= a < b < idx.len() ==> #[trigger] idx[a] < #[trigger] idx[b] && s[idx[a]] < s[idx[b]]
}

pub open spec fn picked(s: Seq<i32>, idx: Seq<int>) -> Seq<i32> {
    idx.map_values(|k: int| s[k])
}

/// What the table of the search knows about position `j`: the length of the
/// longest increasing pick ending there, and the position before it on one
/// such pick.
pub open spec fn link_ok(s: Seq<i32>, lens: Seq<usize>, prevs: Seq<Option<usize>>, j: int) -> bool {
    &&& 1 <= lens[j] <= j + 1
    &&& prevs[j] is None ==> lens[j] == 1
    &&& prevs[j] matches Some(p) ==> p < j && s[p as int] < s[j] && lens[j] == lens[p as int] + 1
}

pub open spec fn best_ending_at(s: Seq<i32>, lens: Seq<usize>, j: int) -> bool {
    forall|idx: Seq<int>|
        is_increasing_pick(s, idx) && idx.len() > 0 && idx.last() == j ==> idx.len() <= lens[j]
}

/// A longest strictly increasing subsequence (not necessarily contiguous).
pub fn longest_increasing_subsequence(init_sequence: &[i32]) -> (r: Vec<i32>)
    ensures
        exists|idx: Seq<int>| is_increasing_pick(init_sequence@, idx) && r@ == picked(init_sequence@, idx),
        forall|idx: Seq<int>| is_increasing_pick(init_sequence@, idx) ==> idx.len() <= r@.len(),
{
    let ghost s = init_sequence@;
    let n = init_sequence.len();
    let mut lens: Vec<usize> = Vec::new();
    let mut prevs: Vec<Option<usize>> = Vec::new();
    let mut i: usize = 0;
    while i < n
        invariant
            n == s.len(),
            s == init_sequence@,
            i <= n,
            lens@.len() == i,
            prevs@.len() == i,
            forall|j: int| 0 <= j < i ==> #[trigger] link_ok(s, lens@, prevs@, j),
            forall|j: int| 0 <= j < i ==> #[trigger] best_ending_at(s, lens@, j),
        decreases n - i,
    {
        let item = init_sequence[i];
        let mut best: usize = 1;
        let mut best_prev: Option<usize> = None;
        let mut p: usize = 0;
        while p < i
            invariant
                n == s.len(),
                s == init_sequence@,
                i < n,
                p <= i,
                item == s[i as int],
                lens@.len() == i,
                forall|j: int| 0 <= j < i ==> #[trigger] link_ok(s, lens@, prevs@, j),
                1 <= best <= i + 1,
                best_prev is None ==> best == 1,
                best_prev matches Some(q) ==> q < p && s[q as int] < item && best == lens@[q as int] + 1,
                forall|q: int| 0 <= q < p && s[q] < item ==> lens@[q] + 1 <= best,
            decreases i - p,
        {
            assert(link_ok(s, lens@, prevs@, p as int));
            if init_sequence[p] < item && lens[p] + 1 > best {
                best = lens[p] + 1;
                best_prev = Some(p);
            }
            p = p + 1;
        }
        let ghost lens_before = lens@;
        let ghost prevs_before = prevs@;
        assert(forall|j: int| 0 <= j < i ==> #[trigger] link_ok(s, lens_before, prevs_before, j));
        assert(forall|j: int| 0 <= j < i ==> #[trigger] best_ending_at(s, lens_before, j));
        lens.push(best);
        prevs.push(best_prev);
        proof {
            assert(lens_before =~= lens@.drop_last());
            assert(prevs_before =~= prevs@.drop_last());
            assert forall|j: int| 0 <= j <= i implies #[trigger] link_ok(s, lens@, prevs@, j) by {
                if j < i {
                    assert(link_ok(s, lens_before, prevs_before, j));
                }
            }
            assert forall|j: int| 0 <= j <= i implies #[trigger] best_ending_at(s, lens@, j) by {
                if j < i {
                    assert(best_ending_at(s, lens_before, j));
                } else {
                    assert forall|idx: Seq<int>|
                        is_increasing_pick(s, idx) && idx.len() > 0 && idx.last() == j implies idx.len()
                        <= lens@[j] by {
                        if idx.len() > 1 {
                            let q = idx[idx.len() - 2];
                            let shorter = idx.drop_last();
                            assert(is_increasing_pick(s, shorter));
                            assert(q < i);
                            assert(best_ending_at(s, lens_before, q));
                            assert(shorter.last() == q);
                        }
                    }
                }
            }
        }
        i = i + 1;
    }
    if n == 0 {
        proof {
            assert forall|idx: Seq<int>| is_increasing_pick(s, idx) implies idx.len() <= 0 by {
                if idx.len() > 0 {
                    assert(0 <= idx[0] < s.len());
                }
            }
            assert(is_increasing_pick(s, Seq::<int>::empty()));
            assert(Seq::<i32>::empty() =~= picked(s, Seq::<int>::empty()));
        }
        return Vec::new();
    }
    // The position where the longest pick ends (the last one, on a tie).
    let mut e: usize = 0;
    let mut k: usize = 1;
    while k < n
        invariant
            n == s.len(),
            lens@.len() == n,
            1 <= k <= n,
            e < k,
            forall|j: int| 0 <= j < k ==> lens@[j] <= lens@[e as int],
        decreases n - k,
    {
        if lens[k] >= lens[e] {
            e = k;
        }
        k = k + 1;
    }
    let mut out: Vec<i32> = Vec::new();
    out.push(init_sequence[e]);
    let mut cur: usize = e;
    let ghost mut chain: Seq<int> = seq![e as int];
    proof {
        assert(out@ =~= picked(s, chain));
    }
    let mut done = false;
    while !done
        invariant
            n == s.len(),
            s == init_sequence@,
            lens@.len() == n,
            prevs@.len() == n,
            e < n,
            cur <= e,
            forall|j: int| 0 <= j < n ==> #[trigger] link_ok(s, lens@, prevs@, j),
            chain.len() == lens@[e as int] - lens@[cur as int] + 1,
            chain[0] == cur,
            chain.len() > 0,
            is_increasing_pick(s, chain),
            out@ == picked(s, chain),
            done ==> lens@[cur as int] == 1,
        decreases cur + if done { 0int } else { 1int },
    {
        assert(link_ok(s, lens@, prevs@, cur as int));
        match prevs[cur] {
            None => {
                done = true;
            },
            Some(p) => {
                proof {
                    let next = seq![p as int] + chain;
                    assert forall|a: int, b: int|
                        0 <= a < b < next.len() implies #[trigger] next[a] < #[trigger] next[b] && s[next[a]]
                        < s[next[b]] by {
                        if a == 0 {
                            assert(next[b] == chain[b - 1]);
                            if b > 1 {
                                assert(chain[0] < chain[b - 1] && s[chain[0]] < s[chain[b - 1]]);
                            }
                        } else {
                            assert(next[a] == chain[a - 1] && next[b] == chain[b - 1]);
                        }
                    }
                    chain = next;
                }
                out.insert(0, init_sequence[p]);
                cur = p;
                proof {
                    assert(out@ =~= picked(s, chain));
                }
            },
        }
    }
    proof {
        assert forall|idx: Seq<int>| is_increasing_pick(s, idx) implies idx.len() <= out@.len() by {
            if idx.len() > 0 {
                let j = idx.last();
                assert(0 <= idx[idx.len() - 1] < s.len());
                assert(best_ending_at(s, lens@, j));
            }
        }
    }
    out
}

/// How many times `x` occurs in `s`.
pub open spec fn occurrences(s: Seq<i32>, x: i32) -> nat {
    s.to_multiset().count(x)
}

pub open spec fn in_table(tbl: Seq<(i32, usize)>, x: i32) -> bool {
    exists|a: int| 0 <= a < tbl.len() && tbl[a].0 == x
}

/// Each distinct value of `nums` with its number of occurrences, in order of
/// first appearance.
fn count_values(nums: &Vec<i32>) -> (tbl: Vec<(i32, usize)>)
    ensures
        forall|a: int, b: int| 0 <= a < b < tbl@.len() ==> #[trigger] tbl@[a].0 != #[trigger] tbl@[b].0,
        forall|a: int| 0 <= a < tbl@.len() ==> #[trigger] tbl@[a].1 == occurrences(nums@, tbl@[a].0),
        forall|a: int| 0 <= a < tbl@.len() ==> nums@.contains(#[trigger] tbl@[a].0),
        forall|x: i32| nums@.contains(x) ==> #[trigger] in_table(tbl@, x),
{
    broadcast use vstd::seq_lib::group_to_multiset_ensures;

    let mut tbl: Vec<(i32, usize)> = Vec::new();
    let mut i: usize = 0;
    while i < nums.len()
        invariant
            i <= nums@.len(),
            forall|a: int, b: int| 0 <= a < b < tbl@.len() ==> #[trigger] tbl@[a].0 != #[trigger] tbl@[b].0,
            forall|a: int|
                0 <= a < tbl@.len() ==> #[trigger] tbl@[a].1 == occurrences(nums@.take(i as int), tbl@[a].0),
            forall|a: int| 0 <= a < tbl@.len() ==> nums@.take(i as int).contains(#[trigger] tbl@[a].0),
            forall|x: i32| nums@.take(i as int).contains(x) ==> #[trigger] in_table(tbl@, x),
        decreases nums@.len() - i,
    {
        let item = nums[i];
        let ghost before = nums@.take(i as int);
        let ghost after = nums@.take(i as int + 1);
        assert(after =~= before.push(item));
        proof { before.to_multiset_ensures(); }
        assert(after.to_multiset() =~= before.to_multiset().insert(item));
        let mut a: usize = 0;
        let mut found = false;
        while a < tbl.len() && !found
            invariant
                a <= tbl@.len(),
                found ==> a < tbl@.len() && tbl@[a as int].0 == item,
                forall|b: int| 0 <= b < a ==> #[trigger] tbl@[b].0 != item,
            decreases tbl@.len() - a + if found { 0int } else { 1int },
        {
            if tbl[a].0 == item {
                found = true;
            } else {
                a = a + 1;
            }
        }
        let ghost tbl_before = tbl@;
        if found {
            let c = tbl[a].1;
            assert(before.to_multiset().count(item) <= before.to_multiset().len());
            assert(before.len() == before.to_multiset().len());
            tbl.set(a, (item, c + 1));
        } else {
            assert(!before.contains(item)) by {
                if before.contains(item) {
                    assert(in_table(tbl@, item));
                    let b = choose|b: int| 0 <= b < tbl@.len() && tbl@[b].0 == item;
                }
            }
            assert(before.to_multiset().count(item) == 0);
            tbl.push((item, 1));
        }
        proof {
            assert forall|x: i32| after.contains(x) implies #[trigger] in_table(tbl@, x) by {
                if x == item {
                    if found {
                        assert(tbl@[a as int].0 == item);
                    } else {
                        assert(tbl@[tbl@.len() - 1].0 == item);
                    }
                } else {
                    let j = choose|j: int| 0 <= j < after.len() && after[j] == x;
                    assert(before[j] == x);
                    assert(before.contains(x));
                    assert(in_table(tbl_before, x));
                    let b = choose|b: int| 0 <= b < tbl_before.len() && tbl_before[b].0 == x;
                    assert(tbl@[b].0 == x);
                }
            }
            assert forall|b: int| 0 <= b < tbl@.len() implies after.contains(#[trigger] tbl@[b].0) by {
                if tbl@[b].0 != item {
                    let j = choose|j: int| 0 <= j < before.len() && before[j] == tbl@[b].0;
                    assert(after[j] == before[j]);
                } else {
                    assert(after[i as int] == item);
                }
            }
        }
        i = i + 1;
    }
    assert(nums@.take(nums@.len() as int) =~= nums@);
    tbl
}

/// The `k` values that occur most often in `nums`, most frequent first; all
/// distinct values when there are no more than `k`. Values that occur equally
/// often come in order of first appearance.
pub fn top_k_frequent(nums: Vec<i32>, k: usize) -> (r: Vec<i32>)
    ensures
        r@.len() <= k,
        r@.no_duplicates(),
        forall|i: int| 0 <= i < r@.len() ==> nums@.contains(#[trigger] r@[i]),
        r@.len() < k ==> forall|x: i32| nums@.contains(x) ==> r@.contains(x),
        forall|a: int, b: int|
            0 <= a < b < r@.len() ==> occurrences(nums@, #[trigger] r@[a]) >= occurrences(
                nums@,
                #[trigger] r@[b],
            ),
        forall|x: i32, i: int|
            nums@.contains(x) && !r@.contains(x) && 0 <= i < r@.len() ==> #[trigger] occurrences(nums@, x)
                <= occurrences(nums@, #[trigger] r@[i]),
{
    let tbl = count_values(&nums);
    let mut taken: Vec<bool> = Vec::new();
    let mut a: usize = 0;
    while a < tbl.len()
        invariant
            a <= tbl@.len(),
            taken@.len() == a,
            forall|b: int| 0 <= b < a ==> !#[trigger] taken@[b],
        decreases tbl@.len() - a,
    {
        taken.push(false);
        a = a + 1;
    }
    let mut r: Vec<i32> = Vec::new();
    let ghost mut chosen: Seq<int> = Seq::empty();
    let mut exhausted = false;
    while r.len() < k && !exhausted
        invariant
            taken@.len() == tbl@.len(),
            r@.len() <= k,
            r@.len() == chosen.len(),
            forall|a: int, b: int| 0 <= a < b < tbl@.len() ==> #[trigger] tbl@[a].0 != #[trigger] tbl@[b].0,
            forall|j: int| 0 <= j < chosen.len() ==> 0 <= #[trigger] chosen[j] < tbl@.len(),
            forall|j: int| 0 <= j < chosen.len() ==> #[trigger] r@[j] == tbl@[chosen[j]].0,
            forall|j: int| 0 <= j < chosen.len() ==> #[trigger] taken@[chosen[j]],
            forall|b: int| 0 <= b < tbl@.len() && #[trigger] taken@[b] ==> chosen.contains(b),
            forall|a: int, b: int| 0 <= a < b < chosen.len() ==> #[trigger] chosen[a] != #[trigger] chosen[b],
            forall|a: int, b: int|
                0 <= a < b < chosen.len() ==> tbl@[#[trigger] chosen[a]].1 >= tbl@[#[trigger] chosen[b]].1,
            forall|j: int, b: int|
                0 <= j < chosen.len() && 0 <= b < tbl@.len() && !#[trigger] taken@[b] ==> tbl@[b].1
                    <= tbl@[#[trigger] chosen[j]].1,
            exhausted ==> forall|b: int| 0 <= b < tbl@.len() ==> #[trigger] taken@[b],
        decreases k - r@.len() + if exhausted { 0int } else { 1int },
    {
        let mut best: usize = tbl.len();
        let mut b: usize = 0;
        while b < tbl.len()
            invariant
                taken@.len() == tbl@.len(),
                b <= tbl@.len(),
                best == tbl@.len() || (best < b && !taken@[best as int]),
                best == tbl@.len() ==> forall|c: int| 0 <= c < b ==> #[trigger] taken@[c],
                best < tbl@.len() ==> forall|c: int|
                    0 <= c < b && !#[trigger] taken@[c] ==> tbl@[c].1 <= tbl@[best as int].1,
            decreases tbl@.len() - b,
        {
            if !taken[b] && (best == tbl.len() || tbl[b].1 > tbl[best].1) {
                best = b;
            }
            b = b + 1;
        }
        if best == tbl.len() {
            exhausted = true;
        } else {
            let ghost old_taken = taken@;
            taken.set(best, true);
            r.push(tbl[best].0);
            proof {
                let old_chosen = chosen;
                chosen = chosen.push(best as int);
                assert forall|b: int| 0 <= b < tbl@.len() && #[trigger] taken@[b] implies chosen.contains(b) by {
                    if b != best {
                        assert(old_taken[b]);
                        assert(old_chosen.contains(b));
                        let j = choose|j: int| 0 <= j < old_chosen.len() && old_chosen[j] == b;
                        assert(chosen[j] == b);
                    } else {
                        assert(chosen[chosen.len() - 1] == b);
                    }
                }
                assert forall|a: int, b: int| 0 <= a < b < chosen.len() implies #[trigger] chosen[a]
                    != #[trigger] chosen[b] by {
                    if b == chosen.len() - 1 {
                        assert(old_taken[chosen[a]]);
                    }
                }
            }
        }
    }
    proof {
        broadcast use vstd::seq_lib::group_to_multiset_ensures;

        assert forall|a: int, b: int| 0 <= a < b < r@.len() implies r@[a] != r@[b] by {
            assert(r@[a] == tbl@[chosen[a]].0);
            assert(r@[b] == tbl@[chosen[b]].0);
        }
        assert forall|x: i32, i: int|
            nums@.contains(x) && !r@.contains(x) && 0 <= i < r@.len() implies #[trigger] occurrences(nums@, x)
                <= occurrences(nums@, #[trigger] r@[i]) by {
            assert(in_table(tbl@, x));
            let b = choose|b: int| 0 <= b < tbl@.len() && tbl@[b].0 == x;
            if taken@[b] {
                let j = choose|j: int| 0 <= j < chosen.len() && chosen[j] == b;
                assert(r@[j] == x);
            }
            assert(tbl@[b].1 <= tbl@[chosen[i]].1);
        }
        if r@.len() < k {
            assert forall|x: i32| nums@.contains(x) implies r@.contains(x) by {
                assert(in_table(tbl@, x));
                let b = choose|b: int| 0 <= b < tbl@.len() && tbl@[b].0 == x;
                assert(taken@[b]);
                let j = choose|j: int| 0 <= j < chosen.len() && chosen[j] == b;
                assert(r@[j] == x);
            }
        }
    }
    r
}

/// The second largest distinct value of `vec`, `None` when it holds fewer
/// than two distinct values.
pub fn second_largest(vec: &[i32]) -> (r: Option<i32>)
    ensures
        r is None <==> forall|i: int, j: int| 0 <= i < vec@.len() && 0 <= j < vec@.len() ==> vec@[i] == vec@[j],
        r matches Some(v) ==> {
            &&& vec@.contains(v)
            &&& exists|i: int| 0 <= i < vec@.len() && vec@[i] > v
            &&& forall|i: int, j: int|
                0 <= i < vec@.len() && 0 <= j < vec@.len() && vec@[i] > v && vec@[j] > v ==> vec@[i] == vec@[j]
        },
{
    let n = vec.len();
    if n == 0 {
        return None;
    }
    let mut m: i32 = vec[0];
    let mut mi: usize = 0;
    let mut i: usize = 1;
    while i < n
        invariant
            n == vec@.len(),
            1 <= i <= n,
            mi < i,
            m == vec@[mi as int],
            forall|j: int| 0 <= j < i ==> vec@[j] <= m,
        decreases n - i,
    {
        if vec[i] > m {
            m = vec[i];
            mi = i;
        }
        i = i + 1;
    }
    let mut second: Option<i32> = None;
    let mut k: usize = 0;
    while k < n
        invariant
            n == vec@.len(),
            k <= n,
            m == vec@[mi as int],
            mi < n,
            forall|j: int| 0 <= j < n ==> vec@[j] <= m,
            second is None ==> forall|j: int| 0 <= j < k ==> vec@[j] == m,
            second matches Some(v) ==> v < m && vec@.contains(v) && forall|j: int|
                0 <= j < k && vec@[j] < m ==> vec@[j] <= v,
        decreases n - k,
    {
        let x = vec[k];
        if x < m {
            match second {
                None => {
                    second = Some(x);
                },
                Some(v) => {
                    if x > v {
                        second = Some(x);
                    }
                },
            }
        }
        k = k + 1;
    }
    proof {
        if second is None {
            assert forall|i: int, j: int| 0 <= i < vec@.len() && 0 <= j < vec@.len() implies vec@[i]
                == vec@[j] by {
                assert(vec@[i] == m && vec@[j] == m);
            }
        } else {
            let v = second->Some_0;
            let w = choose|w: int| 0 <= w < n && vec@[w] == v;
            assert(vec@[mi as int] > v);
            assert(vec@[w] != vec@[mi as int]);
        }
    }
    second
}

/// No two characters of `s` are the same when case is ignored: no two
/// positions have equal lower-case forms.
pub open spec fn unique_ignoring_case(s: Seq<char>) -> bool {
    forall|a: int, b: int| 0 <= a < b < s.len() ==> lower_of(#[trigger] s[a]) != lower_of(#[trigger] s[b])
}

/// `s` holds no character twice, case ignored.
pub fn unique_chars(s: &str) -> (r: bool)
    ensures
        r == unique_ignoring_case(s@),
{
    let n = s.unicode_len();
    let mut lowered: Vec<String> = Vec::new();
    let mut k: usize = 0;
    while k < n
        invariant
            n == s@.len(),
            k <= n,
            lowered@.len() == k,
            forall|j: int| 0 <= j < k ==> #[trigger] lowered@[j]@ == lower_of(s@[j]),
        decreases n - k,
    {
        lowered.push(lower_case(s.get_char(k)));
        k = k + 1;
    }
    let mut i: usize = 0;
    while i < n
        invariant
            n == s@.len(),
            lowered@.len() == n,
            forall|j: int| 0 <= j < n ==> #[trigger] lowered@[j]@ == lower_of(s@[j]),
            i <= n,
            forall|a: int, b: int| 0 <= a < b < n && a < i ==> lower_of(s@[a]) != lower_of(s@[b]),
        decreases n - i,
    {
        let mut j: usize = i + 1;
        while j < n
            invariant
                n == s@.len(),
                lowered@.len() == n,
                forall|j: int| 0 <= j < n ==> #[trigger] lowered@[j]@ == lower_of(s@[j]),
                i < j <= n,
                forall|b: int| i < b < j ==> lower_of(s@[i as int]) != lower_of(s@[b]),
            decreases n - j,
        {
            if lowered[i] == lowered[j] {
                return false;
            }
            j = j + 1;
        }
        i = i + 1;
    }
    true
}

/// The pieces of `s` between single spaces from position `i` on, when the
/// current piece began at `start`.
pub open spec fn pieces_from(s: Seq<char>, i: int, start: int) -> Seq<Seq<char>>
    decreases s.len() - i,
{
    if i >= s.len() {
        seq![s.subrange(start, s.len() as int)]
    } else if s[i] == ' ' {
        seq![s.subrange(start, i)] + pieces_from(s, i + 1, i + 1)
    } else {
        pieces_from(s, i + 1, start)
    }
}

/// `s` split at every single space, empty pieces included, as
/// `str::split(' ')` does.
pub open spec fn space_pieces(s: Seq<char>) -> Seq<Seq<char>> {
    pieces_from(s, 0, 0)
}

/// The words of `sentence` (its pieces between single spaces) in reverse
/// order, joined by single spaces.
pub fn reverse_words(sentence: &str) -> (r: String)
    ensures
        r@ == joined(space_pieces(sentence@).reverse()),
{
    let n = sentence.unicode_len();
    let ghost s = sentence@;
    let mut pieces: Vec<&str> = Vec::new();
    let mut start: usize = 0;
    let mut i: usize = 0;
    while i < n
        invariant
            n == s.len(),
            s == sentence@,
            start <= i <= n,
            pieces@.map_values(|p: &str| p@) + pieces_from(s, i as int, start as int) == space_pieces(s),
        decreases n - i,
    {
        if sentence.get_char(i) == ' ' {
            let ghost before = pieces@;
            pieces.push(sentence.substring_char(start, i));
            assert(pieces@.map_values(|p: &str| p@) =~= before.map_values(|p: &str| p@).push(
                s.subrange(start as int, i as int),
            ));
            assert(pieces@.map_values(|p: &str| p@) + pieces_from(s, i + 1, i + 1) =~= space_pieces(s));
            start = i + 1;
        }
        i = i + 1;
    }
    let ghost before = pieces@;
    pieces.push(sentence.substring_char(start, n));
    let ghost ps = pieces@.map_values(|p: &str| p@);
    assert(ps =~= before.map_values(|p: &str| p@).push(s.subrange(start as int, n as int)));
    assert(ps =~= space_pieces(s));
    let ghost rev = ps.reverse();
    let count = pieces.len();
    let mut out = String::from_str(pieces[count - 1]);
    assert(rev.take(1) =~= seq![rev[0]]);
    let mut t: usize = 1;
    while t < count
        invariant
            count == pieces@.len(),
            count == ps.len(),
            ps == pieces@.map_values(|p: &str| p@),
            rev == ps.reverse(),
            1 <= t <= count,
            out@ == joined(rev.take(t as int)),
        decreases count - t,
    {
        proof {
            reveal_strlit(" ");
        }
        let ghost before = out@;
        out.append(" ");
        out.append(pieces[count - 1 - t]);
        proof {
            let x = rev.take(t + 1);
            assert(x.drop_last() =~= rev.take(t as int));
            assert(rev[t as int] == ps[count - 1 - t]);
            assert(x.last() == rev[t as int]);
            assert(joined(x) == joined(x.drop_last()) + seq![' '] + x.last());
            assert(out@ =~= before + seq![' '] + rev[t as int]);
        }
        t = t + 1;
    }
    assert(rev.take(count as int) =~= rev);
    out
}

pub uninterp spec fn upper_of(c: char) -> Seq<char>;

pub uninterp spec fn lower_of(c: char) -> Seq<char>;

/// Relies on `char::to_uppercase`: the upper-case mapping of `c`, which may
/// be several characters and depends on `c` alone.
#[verifier::external_body]
fn upper_case(c: char) -> (r: String)
    ensures
        r@ == upper_of(c),
{
    c.to_uppercase().collect::<String>()
}

/// Relies on `char::to_lowercase`: the lower-case mapping of `c`, which may
/// be several characters and depends on `c` alone.
#[verifier::external_body]
fn lower_case(c: char) -> (r: String)
    ensures
        r@ == lower_of(c),
{
    c.to_lowercase().collect::<String>()
}

/// Each character of `w` in lower case, one after another.
pub open spec fn lowered(w: Seq<char>) -> Seq<char>
    decreases w.len(),
{
    if w.len() == 0 {
        Seq::empty()
    } else {
        lowered(w.drop_last()) + lower_of(w.last())
    }
}

/// `w` with its first character in upper case and the others in lower case.
pub open spec fn capitalized(w: Seq<char>) -> Seq<char> {
    if w.len() == 0 {
        Seq::empty()
    } else {
        upper_of(w[0]) + lowered(w.drop_first())
    }
}

/// The words of `sentence`, each capitalized, joined by single spaces.
pub fn normalize_and_capitalize(sentence: &str) -> (r: String)
    ensures
        r@ == joined(words(sentence@).map_values(|w: Seq<char>| capitalized(w))),
{
    let ghost ws = words(sentence@);
    let ghost caps = ws.map_values(|w: Seq<char>| capitalized(w));
    let spans = find_word_spans(sentence);
    let mut out = String::new();
    let mut k: usize = 0;
    while k < spans.len()
        invariant
            ws == words(sentence@),
            caps == ws.map_values(|w: Seq<char>| capitalized(w)),
            ws.len() == spans@.len(),
            crate::text::spans_view(spans@) == crate::text::word_spans(sentence@),
            k <= spans@.len(),
            out@ == joined(caps.take(k as int)),
        decreases spans@.len() - k,
    {
        let word = word_at(sentence, &spans, k);
        proof {
            crate::text::lemma_word_spans_bounds(sentence@);
            assert(crate::text::spans_view(spans@)[k as int] == crate::text::word_spans(sentence@)[k as int]);
        }
        let len = word.unicode_len();
        let mut piece = upper_case(word.get_char(0));
        let mut c: usize = 1;
        while c < len
            invariant
                len == word@.len(),
                len >= 1,
                1 <= c <= len,
                piece@ == upper_of(word@[0]) + lowered(word@.subrange(1, c as int)),
            decreases len - c,
        {
            let low = lower_case(word.get_char(c));
            piece.append(low.as_str());
            assert(word@.subrange(1, c + 1).drop_last() =~= word@.subrange(1, c as int));
            c = c + 1;
        }
        assert(word@.subrange(1, len as int) =~= word@.drop_first());
        proof {
            reveal_strlit(" ");
            assert(piece@ == caps[k as int]);
        }
        let ghost before = out@;
        if k > 0 {
            out.append(" ");
        }
        out.append(piece.as_str());
        proof {
            let x = caps.take(k + 1);
            assert(x.drop_last() =~= caps.take(k as int));
            assert(x.last() == caps[k as int]);
            if k == 0 {
                assert(x =~= seq![caps[0]]);
                assert(before =~= Seq::<char>::empty());
                assert(out@ =~= caps[0]);
            } else {
                assert(joined(x) == joined(x.drop_last()) + seq![' '] + x.last());
                assert(out@ =~= before + seq![' '] + caps[k as int]);
            }
        }
        k = k + 1;
    }
    assert(caps.take(k as int) =~= caps);
    out
}

} // verus!
