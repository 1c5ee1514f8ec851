use vstd::prelude::*;

verus! {

/// The two directed pairs of `x` with each value of `t`, in the order of `t`:
/// `(x, t[0]), (t[0], x), (x, t[1]), (t[1], x), ...`.
pub open spec fn pairs_with(x: i32, t: Seq<i32>) -> Seq<(i32, i32)>
    decreases t.len(),
{
    if t.len() == 0 {
        Seq::empty()
    } else {
        pairs_with(x, t.drop_last()) + seq![(x, t.last()), (t.last(), x)]
    }
}

/// The directed pairs whose first position lies among the first `m` positions
/// of `s`, each taken with every later position.
pub open spec fn pairs_from(s: Seq<i32>, m: int) -> Seq<(i32, i32)>
    decreases m,
{
    if m <= 0 {
        Seq::empty()
    } else {
        pairs_from(s, m - 1) + pairs_with(s[m - 1], s.subrange(m, s.len() as int))
    }
}

/// Every ordered pair of values at two distinct positions of `s`: for each
/// positions `i < j`, the pair `(s[i], s[j])` followed by `(s[j], s[i])`.
pub open spec fn ordered_pairs(s: Seq<i32>) -> Seq<(i32, i32)> {
    pairs_from(s, s.len() as int)
}

proof fn lemma_pairs_with_len(x: i32, t: Seq<i32>)
    ensures
        pairs_with(x, t).len() == 2 * t.len(),
    decreases t.len(),
{
    if t.len() > 0 {
        lemma_pairs_with_len(x, t.drop_last());
    }
}

proof fn lemma_pairs_from_len(s: Seq<i32>, m: int)
    requires
        0 <= m <= s.len(),
    ensures
        pairs_from(s, m).len() == 2 * m * (s.len() - 1) - m * (m - 1),
    decreases m,
{
    if m > 0 {
        lemma_pairs_from_len(s, m - 1);
        lemma_pairs_with_len(s[m - 1], s.subrange(m, s.len() as int));
        let n = s.len() as int;
        assert(s.subrange(m, n).len() == n - m);
        assert(pairs_from(s, m) == pairs_from(s, m - 1) + pairs_with(s[m - 1], s.subrange(m, n)));
        assert(2 * (m - 1) * (n - 1) - (m - 1) * (m - 2) + 2 * (n - m) == 2 * m * (n - 1) - m * (
        m - 1)) by (nonlinear_arith);
    } else {
        assert(2 * m * (s.len() - 1) - m * (m - 1) == 0) by (nonlinear_arith)
            requires
                m == 0,
        ;
    }
}

/// A sequence of `n` values has exactly `n * (n - 1)` ordered pairs of
/// distinct positions, so none when `n <= 1`.
pub proof fn lemma_ordered_pairs_len(s: Seq<i32>)
    ensures
        ordered_pairs(s).len() == s.len() * (s.len() - 1),
        s.len() <= 1 ==> ordered_pairs(s).len() == 0,
{
    let n = s.len() as int;
    lemma_pairs_from_len(s, n);
    assert(2 * n * (n - 1) - n * (n - 1) == n * (n - 1)) by (nonlinear_arith);
    if n <= 1 {
        assert(n * (n - 1) == 0) by (nonlinear_arith)
            requires
                0 <= n <= 1,
        ;
    }
}

proof fn lemma_pairs_with_members(x: i32, t: Seq<i32>, k: int)
    requires
        0 <= k < pairs_with(x, t).len(),
    ensures
        exists|j: int|
            0 <= j < t.len() && (pairs_with(x, t)[k] == (x, t[j]) || pairs_with(x, t)[k] == (
            t[j], x)),
    decreases t.len(),
{
    if t.len() > 0 {
        let pre = pairs_with(x, t.drop_last());
        lemma_pairs_with_len(x, t.drop_last());
        if k < pre.len() {
            lemma_pairs_with_members(x, t.drop_last(), k);
            let j = choose|j: int|
                0 <= j < t.drop_last().len() && (pre[k] == (x, t.drop_last()[j]) || pre[k] == (
                t.drop_last()[j], x));
            assert(t.drop_last()[j] == t[j]);
        } else {
            assert(t.last() == t[t.len() - 1]);
        }
    }
}

proof fn lemma_pairs_from_members(s: Seq<i32>, m: int, k: int)
    requires
        0 <= m <= s.len(),
        0 <= k < pairs_from(s, m).len(),
    ensures
        exists|i: int, j: int|
            0 <= i < s.len() && 0 <= j < s.len() && i != j && pairs_from(s, m)[k] == (s[i], s[j]),
    decreases m,
{
    if m > 0 {
        let pre = pairs_from(s, m - 1);
        let t = s.subrange(m, s.len() as int);
        if k < pre.len() {
            lemma_pairs_from_members(s, m - 1, k);
        } else {
            let x = s[m - 1];
            lemma_pairs_with_members(x, t, k - pre.len());
            let j = choose|j: int|
                0 <= j < t.len() && (pairs_with(x, t)[k - pre.len()] == (x, t[j])
                    || pairs_with(x, t)[k - pre.len()] == (t[j], x));
            assert(t[j] == s[m + j]);
            if pairs_with(x, t)[k - pre.len()] == (x, t[j]) {
                assert(pairs_from(s, m)[k] == (s[m - 1], s[m + j]));
            } else {
                assert(pairs_from(s, m)[k] == (s[m + j], s[m - 1]));
            }
        }
    }
}

/// `p` is made of the values at two distinct positions of `s`.
pub open spec fn from_distinct_positions(s: Seq<i32>, p: (i32, i32)) -> bool {
    exists|i: int, j: int| 0 <= i < s.len() && 0 <= j < s.len() && i != j && p == (s[i], s[j])
}

/// Each ordered pair is made of the values at two distinct positions.
pub proof fn lemma_ordered_pairs_members(s: Seq<i32>, k: int)
    requires
        0 <= k < ordered_pairs(s).len(),
    ensures
        from_distinct_positions(s, ordered_pairs(s)[k]),
{
    lemma_pairs_from_members(s, s.len() as int, k);
}

proof fn lemma_pairs_with_index(x: i32, t: Seq<i32>, j: int)
    requires
        0 <= j < t.len(),
    ensures
        pairs_with(x, t).len() == 2 * t.len(),
        pairs_with(x, t)[2 * j] == (x, t[j]),
        pairs_with(x, t)[2 * j + 1] == (t[j], x),
    decreases t.len(),
{
    lemma_pairs_with_len(x, t);
    lemma_pairs_with_len(x, t.drop_last());
    if j < t.len() - 1 {
        lemma_pairs_with_index(x, t.drop_last(), j);
    }
}

proof fn lemma_pairs_from_prefix(s: Seq<i32>, m: int, m2: int, k: int)
    requires
        0 <= m <= m2 <= s.len(),
        0 <= k < pairs_from(s, m).len(),
    ensures
        k < pairs_from(s, m2).len(),
        pairs_from(s, m2)[k] == pairs_from(s, m)[k],
    decreases m2 - m,
{
    if m < m2 {
        lemma_pairs_from_prefix(s, m, m2 - 1, k);
    }
}

/// Each two positions `i < j` of `s` give both directed pairs, one after the
/// other; with the count of `lemma_ordered_pairs_len`, every pair of distinct
/// positions is listed exactly once in each direction.
pub proof fn lemma_ordered_pairs_complete(s: Seq<i32>, i: int, j: int)
    requires
        0 <= i < j < s.len(),
    ensures
        exists|k: int|
            0 <= k && k + 1 < ordered_pairs(s).len() && #[trigger] ordered_pairs(s)[k] == (s[i], s[j])
                && ordered_pairs(s)[k + 1] == (s[j], s[i]),
{
    let n = s.len() as int;
    let t = s.subrange(i + 1, n);
    let base = pairs_from(s, i).len() as int;
    let k = base + 2 * (j - i - 1);
    lemma_pairs_with_index(s[i], t, j - i - 1);
    assert(t[j - i - 1] == s[j]);
    assert(pairs_from(s, i + 1) == pairs_from(s, i) + pairs_with(s[i], t));
    assert(pairs_from(s, i + 1)[k] == (s[i], s[j]));
    assert(pairs_from(s, i + 1)[k + 1] == (s[j], s[i]));
    lemma_pairs_from_prefix(s, i + 1, n, k);
    lemma_pairs_from_prefix(s, i + 1, n, k + 1);
    assert(ordered_pairs(s) == pairs_from(s, n));
    assert(ordered_pairs(s)[k] == (s[i], s[j]));
    assert(ordered_pairs(s)[k + 1] == (s[j], s[i]));
}

/// Lists every ordered pair of values at two distinct positions of `numbers`.
pub fn get_all_pairs_ordered(numbers: &Vec<i32>) -> (r: Vec<(i32, i32)>)
    ensures
        r@ == ordered_pairs(numbers@),
{
    let n = numbers.len();
    let mut pairs: Vec<(i32, i32)> = Vec::new();
    let mut i: usize = 0;
    while i < n
        invariant
            n == numbers@.len(),
            i <= n,
            pairs@ == pairs_from(numbers@, i as int),
        decreases n - i,
    {
        let v0 = numbers[i];
        let ghost base = pairs@;
        let ghost rest = numbers@.subrange(i + 1, n as int);
        let mut j: usize = i + 1;
        while j < n
            invariant
                n == numbers@.len(),
                i < j <= n,
                v0 == numbers@[i as int],
                rest == numbers@.subrange(i + 1, n as int),
                pairs@ == base + pairs_with(v0, numbers@.subrange(i + 1, j as int)),
            decreases n - j,
        {
            let v1 = numbers[j];
            pairs.push((v0, v1));
            pairs.push((v1, v0));
            proof {
                let t = numbers@.subrange(i + 1, j + 1);
                assert(t.drop_last() =~= numbers@.subrange(i + 1, j as int));
                assert(t.last() == v1);
                assert(pairs@ =~= base + pairs_with(v0, t));
            }
            j = j + 1;
        }
        proof {
            assert(pairs_from(numbers@, i + 1) == pairs_from(numbers@, i as int) + pairs_with(
                numbers@[i as int],
                numbers@.subrange(i + 1, n as int),
            ));
        }
        i = i + 1;
    }
    pairs
}

} // verus!
