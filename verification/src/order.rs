//! Sorting and comparing.

use vstd::prelude::*;
use vstd::relations::sorted_by;
use vstd::seq_lib::{lemma_sorted_unique, to_multiset_build, to_multiset_insert};

verus! {

/// The order of amounts.
pub open spec fn at_most() -> spec_fn(i64, i64) -> bool {
    |a: i64, b: i64| a <= b
}

/// The amounts of `s`, smallest first.
pub open spec fn ascending(s: Seq<i64>) -> Seq<i64> {
    s.sort_by(at_most())
}

/// Sorting keeps the amounts and puts them in order.
pub proof fn lemma_ascending(s: Seq<i64>)
    ensures
        ascending(s).len() == s.len(),
        ascending(s).to_multiset() == s.to_multiset(),
        forall|i: int, j: int|
            0 <= i <= j < s.len() ==> #[trigger] ascending(s)[i] <= #[trigger] ascending(s)[j],
{
    s.lemma_sort_by_ensures(at_most());
    let t = ascending(s);
    t.to_multiset_ensures();
    s.to_multiset_ensures();
    assert forall|i: int, j: int| 0 <= i <= j < s.len() implies #[trigger] t[i] <= #[trigger] t[j] by {
        if i < j {
            assert(at_most()(t[i], t[j]));
        }
    }
}

/// The first position of `sorted` whose value exceeds `x`.
fn upper_bound(sorted: &Vec<i64>, x: i64) -> (r: usize)
    requires
        forall|i: int, j: int| 0 <= i <= j < sorted.len() ==> sorted@[i] <= sorted@[j],
    ensures
        r <= sorted.len(),
        forall|i: int| 0 <= i < r ==> sorted@[i] <= x,
        forall|i: int| r <= i < sorted.len() ==> sorted@[i] > x,
{
    let mut lo: usize = 0;
    let mut hi: usize = sorted.len();
    while lo < hi
        invariant
            lo <= hi <= sorted.len(),
            forall|i: int, j: int| 0 <= i <= j < sorted.len() ==> sorted@[i] <= sorted@[j],
            forall|i: int| 0 <= i < lo ==> sorted@[i] <= x,
            forall|i: int| hi <= i < sorted.len() ==> sorted@[i] > x,
        decreases hi - lo,
    {
        let mid: usize = lo + (hi - lo) / 2;
        if sorted[mid] <= x {
            lo = mid + 1;
        } else {
            hi = mid;
        }
    }
    lo
}

/// Sorts amounts, smallest first.
pub fn sort_ascending(values: &Vec<i64>) -> (r: Vec<i64>)
    ensures
        r@ == ascending(values@),
{
    let mut out: Vec<i64> = Vec::new();
    let mut k: usize = 0;
    assert(values@.take(0) =~= out@);
    while k < values.len()
        invariant
            k <= values.len(),
            out.len() == k,
            out@.to_multiset() == values@.take(k as int).to_multiset(),
            forall|i: int, j: int| 0 <= i <= j < out.len() ==> out@[i] <= out@[j],
        decreases values.len() - k,
    {
        let at: usize = upper_bound(&out, values[k]);
        proof {
            to_multiset_insert(out@, at as int, values@[k as int]);
            to_multiset_build(values@.take(k as int), values@[k as int]);
            assert(values@.take(k as int).push(values@[k as int]) =~= values@.take(k + 1));
        }
        out.insert(at, values[k]);
        k = k + 1;
    }
    proof {
        assert(values@.take(k as int) =~= values@);
        values@.lemma_sort_by_ensures(at_most());
        assert(sorted_by(out@, at_most()));
        lemma_sorted_unique(out@, ascending(values@), at_most());
    }
    out
}

/// Whether position `a` comes before position `b` when positions are sorted by
/// key and equal keys keep their order.
pub open spec fn precedes(keys: Seq<i128>, a: int, b: int) -> bool {
    keys[a] < keys[b] || (keys[a] == keys[b] && a < b)
}

/// Whether `p` lists all positions of `keys`, sorted by key, equal keys in
/// their order.
pub open spec fn is_order(keys: Seq<i128>, p: Seq<usize>) -> bool {
    &&& p.len() == keys.len()
    &&& forall|i: int| 0 <= i < p.len() ==> (#[trigger] p[i]) < keys.len()
    &&& forall|i: int, j: int|
        0 <= i < j < p.len() ==> precedes(keys, #[trigger] p[i] as int, #[trigger] p[j] as int)
    &&& forall|a: int| 0 <= a < keys.len() ==> #[trigger] p.contains(a as usize)
}

/// The positions of `keys`, sorted by key, equal keys in their order.
pub fn stable_order(keys: &Vec<i128>) -> (r: Vec<usize>)
    ensures
        is_order(keys@, r@),
{
    let mut out: Vec<usize> = Vec::new();
    let mut k: usize = 0;
    while k < keys.len()
        invariant
            k <= keys.len(),
            out.len() == k,
            forall|i: int| 0 <= i < out.len() ==> (#[trigger] out@[i]) < k,
            forall|i: int, j: int|
                0 <= i < j < out.len() ==> precedes(
                    keys@,
                    #[trigger] out@[i] as int,
                    #[trigger] out@[j] as int,
                ),
            forall|a: int| 0 <= a < k ==> #[trigger] out@.contains(a as usize),
        decreases keys.len() - k,
    {
        let key: i128 = keys[k];
        let mut lo: usize = 0;
        let mut hi: usize = out.len();
        while lo < hi
            invariant
                lo <= hi <= out.len(),
                k < keys.len(),
                key == keys@[k as int],
                forall|i: int| 0 <= i < out.len() ==> (#[trigger] out@[i]) < k,
                forall|i: int, j: int|
                    0 <= i < j < out.len() ==> precedes(
                        keys@,
                        #[trigger] out@[i] as int,
                        #[trigger] out@[j] as int,
                    ),
                forall|i: int| 0 <= i < lo ==> keys@[#[trigger] out@[i] as int] <= key,
                forall|i: int| hi <= i < out.len() ==> keys@[#[trigger] out@[i] as int] > key,
            decreases hi - lo,
        {
            let mid: usize = lo + (hi - lo) / 2;
            if keys[out[mid]] <= key {
                lo = mid + 1;
            } else {
                hi = mid;
            }
        }
        let ghost before = out@;
        out.insert(lo, k);
        proof {
            assert forall|a: int| 0 <= a < k + 1 implies #[trigger] out@.contains(a as usize) by {
                if a == k {
                    assert(out@[lo as int] == a as usize);
                } else {
                    assert(before.contains(a as usize));
                    let i = choose|i: int| 0 <= i < before.len() && before[i] == a as usize;
                    if i < lo {
                        assert(out@[i] == a as usize);
                    } else {
                        assert(out@[i + 1] == a as usize);
                    }
                }
            }
        }
        k = k + 1;
    }
    out
}

// ---------------------------------------------------------------------------
// Text
// ---------------------------------------------------------------------------

/// Whether `a` comes before `b` in the order of their characters.
pub open spec fn text_before(a: Seq<char>, b: Seq<char>) -> bool
    decreases b.len(),
{
    if b.len() == 0 {
        false
    } else if a.len() == 0 {
        true
    } else {
        a[0] < b[0] || (a[0] == b[0] && text_before(a.skip(1), b.skip(1)))
    }
}

/// Whether one text comes before another.
pub fn comes_before(a: &Vec<char>, b: &Vec<char>) -> (r: bool)
    ensures
        r == text_before(a@, b@),
{
    let mut i: usize = 0;
    assert(a@.skip(0) =~= a@);
    assert(b@.skip(0) =~= b@);
    while i < a.len() && i < b.len()
        invariant
            i <= a.len(),
            i <= b.len(),
            text_before(a@, b@) == text_before(a@.skip(i as int), b@.skip(i as int)),
        decreases a.len() - i,
    {
        let x: char = a[i];
        let y: char = b[i];
        assert(a@.skip(i as int).skip(1) =~= a@.skip(i + 1));
        assert(b@.skip(i as int).skip(1) =~= b@.skip(i + 1));
        if x < y {
            return true;
        }
        if y < x {
            return false;
        }
        i = i + 1;
    }
    i < b.len()
}

/// The number of texts among the first `n` of `texts` that come before `x`.
pub open spec fn rank(texts: Seq<Seq<char>>, x: Seq<char>, n: int) -> int
    decreases n,
{
    if n <= 0 {
        0
    } else {
        rank(texts, x, n - 1) + if text_before(texts[n - 1], x) { 1int } else { 0int }
    }
}

/// A rank counts at most all texts.
pub proof fn lemma_rank_range(texts: Seq<Seq<char>>, x: Seq<char>, n: int)
    requires
        n >= 0,
    ensures
        0 <= rank(texts, x, n) <= n,
    decreases n,
{
    if n > 0 {
        lemma_rank_range(texts, x, n - 1);
    }
}

/// No text comes before itself.
proof fn lemma_not_before_itself(a: Seq<char>)
    ensures
        !text_before(a, a),
    decreases a.len(),
{
    if a.len() > 0 {
        lemma_not_before_itself(a.skip(1));
    }
}

/// What comes before a text comes before every later one.
proof fn lemma_before_transitive(a: Seq<char>, b: Seq<char>, c: Seq<char>)
    requires
        text_before(a, b),
        text_before(b, c),
    ensures
        text_before(a, c),
    decreases c.len(),
{
    if a.len() > 0 && b.len() > 0 && c.len() > 0 && a[0] == b[0] && b[0] == c[0] {
        lemma_before_transitive(a.skip(1), b.skip(1), c.skip(1));
    }
}

/// Ranks follow the order of texts: of two texts in a list, the one that comes
/// before the other has the lower rank.
pub proof fn law_rank_follows_order(texts: Seq<Seq<char>>, i: int, y: Seq<char>)
    requires
        0 <= i < texts.len(),
        text_before(texts[i], y),
    ensures
        rank(texts, texts[i], texts.len() as int) < rank(texts, y, texts.len() as int),
{
    lemma_rank_grows(texts, i, y, texts.len() as int);
}

proof fn lemma_rank_grows(texts: Seq<Seq<char>>, i: int, y: Seq<char>, n: int)
    requires
        0 <= i < texts.len(),
        0 <= n <= texts.len(),
        text_before(texts[i], y),
    ensures
        rank(texts, texts[i], n) <= rank(texts, y, n),
        i < n ==> rank(texts, texts[i], n) < rank(texts, y, n),
    decreases n,
{
    if n > 0 {
        lemma_rank_grows(texts, i, y, n - 1);
        let t = texts[n - 1];
        if text_before(t, texts[i]) {
            lemma_before_transitive(t, texts[i], y);
        }
        if i == n - 1 {
            lemma_not_before_itself(texts[i]);
        }
    }
}

/// The number of texts that come before each text.
pub fn text_ranks(texts: &Vec<Vec<char>>) -> (r: Vec<i128>)
    ensures
        r.len() == texts.len(),
        forall|i: int|
            0 <= i < r.len() ==> #[trigger] r@[i] == rank(
                texts@.map_values(|t: Vec<char>| t@),
                texts@[i]@,
                texts.len() as int,
            ),
{
    let ghost all = texts@.map_values(|t: Vec<char>| t@);
    let mut out: Vec<i128> = Vec::new();
    let mut i: usize = 0;
    while i < texts.len()
        invariant
            i <= texts.len(),
            out.len() == i,
            all == texts@.map_values(|t: Vec<char>| t@),
            forall|k: int|
                0 <= k < i ==> #[trigger] out@[k] == rank(all, texts@[k]@, texts.len() as int),
        decreases texts.len() - i,
    {
        let mut count: i128 = 0;
        let mut j: usize = 0;
        while j < texts.len()
            invariant
                i < texts.len(),
                j <= texts.len(),
                0 <= count <= j,
                all == texts@.map_values(|t: Vec<char>| t@),
                count == rank(all, texts@[i as int]@, j as int),
            decreases texts.len() - j,
        {
            if comes_before(&texts[j], &texts[i]) {
                count = count + 1;
            }
            j = j + 1;
        }
        out.push(count);
        i = i + 1;
    }
    out
}

/// Of two texts that start alike, the one with the smaller character behind that comes
/// first; one that the other goes on from comes before it, and no text before itself.
pub proof fn law_text_order(start: Seq<char>, x: char, a: Seq<char>, y: char, b: Seq<char>)
    requires
        x != y,
    ensures
        text_before(start + seq![x] + a, start + seq![y] + b) <==> x < y,
        text_before(start, start + seq![x] + a),
        !text_before(start + seq![x] + a, start),
        !text_before(start, start),
    decreases start.len(),
{
    lemma_not_before_itself(start);
    let left = start + seq![x] + a;
    let right = start + seq![y] + b;
    if start.len() > 0 {
        let rest = start.skip(1);
        law_text_order(rest, x, a, y, b);
        assert(left.skip(1) =~= rest + seq![x] + a);
        assert(right.skip(1) =~= rest + seq![y] + b);
        assert(left[0] == start[0] && right[0] == start[0]);
    } else {
        assert(left[0] == x && right[0] == y);
    }
}

/// Positions in order have rising keys, and equal keys keep the order of their positions.
pub proof fn law_order(keys: Seq<i128>, p: Seq<usize>, i: int, j: int)
    requires
        is_order(keys, p),
        0 <= i < j < p.len(),
    ensures
        keys[p[i] as int] <= keys[p[j] as int],
        keys[p[i] as int] == keys[p[j] as int] ==> p[i] < p[j],
        p[i] != p[j],
{
    assert(precedes(keys, p[i] as int, p[j] as int));
}

} // verus!
