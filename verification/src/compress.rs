use vstd::prelude::*;

verus! {

/// The entries of `s` are in non-decreasing order.
pub open spec fn sorted(s: Seq<usize>) -> bool {
    forall|i: int, j: int| #![trigger s[i], s[j]] 0 <= i < j < s.len() ==> s[i] <= s[j]
}

/// Number of entries among the first `k` of `s` whose value lies below `v`.
pub open spec fn count_lt(s: Seq<usize>, k: int, v: int) -> int
    decreases k,
{
    if k <= 0 {
        0
    } else {
        count_lt(s, k - 1, v) + if (s[k - 1] as int) < v {
            1int
        } else {
            0int
        }
    }
}

/// Number of entries among the first `k` of `s` whose value equals `v`.
pub open spec fn count_eq(s: Seq<usize>, k: int, v: int) -> int
    decreases k,
{
    if k <= 0 {
        0
    } else {
        count_eq(s, k - 1, v) + if s[k - 1] as int == v {
            1int
        } else {
            0int
        }
    }
}

/// Both counts lie between 0 and `k`, and they never overlap.
pub proof fn lemma_count_bounds(s: Seq<usize>, k: int, v: int)
    requires
        0 <= k,
    ensures
        0 <= count_lt(s, k, v) <= k,
        0 <= count_eq(s, k, v) <= k,
        count_lt(s, k, v) + count_eq(s, k, v) <= k,
    decreases k,
{
    if k > 0 {
        lemma_count_bounds(s, k - 1, v);
    }
}

/// Counting below `v + 1` counts exactly the entries below `v` and those equal to `v`.
pub proof fn lemma_count_lt_succ(s: Seq<usize>, k: int, v: int)
    requires
        0 <= k,
    ensures
        count_lt(s, k, v + 1) == count_lt(s, k, v) + count_eq(s, k, v),
    decreases k,
{
    if k > 0 {
        lemma_count_lt_succ(s, k - 1, v);
    }
}

/// No entry of a sequence of unsigned values lies below zero.
pub proof fn lemma_count_lt_zero(s: Seq<usize>, k: int)
    requires
        0 <= k,
    ensures
        count_lt(s, k, 0) == 0,
    decreases k,
{
    if k > 0 {
        lemma_count_lt_zero(s, k - 1);
    }
}

/// The count below a bound grows with the bound.
pub proof fn lemma_count_lt_mono_v(s: Seq<usize>, k: int, v1: int, v2: int)
    requires
        0 <= k,
        v1 <= v2,
    ensures
        count_lt(s, k, v1) <= count_lt(s, k, v2),
    decreases k,
{
    if k > 0 {
        lemma_count_lt_mono_v(s, k - 1, v1, v2);
    }
}

/// The count over a prefix grows with the prefix.
pub proof fn lemma_count_lt_mono_k(s: Seq<usize>, k1: int, k2: int, v: int)
    requires
        0 <= k1 <= k2,
    ensures
        count_lt(s, k1, v) <= count_lt(s, k2, v),
    decreases k2,
{
    if k2 > k1 {
        lemma_count_lt_mono_k(s, k1, k2 - 1, v);
    }
}

/// When every entry from position `k` on is at least `v`, the entries below
/// `v` all lie in the first `k` positions.
pub proof fn lemma_count_lt_stable(s: Seq<usize>, k: int, len: int, v: int)
    requires
        0 <= k <= len,
        forall|i: int| k <= i < len ==> (#[trigger] s[i] as int) >= v,
    ensures
        count_lt(s, len, v) == count_lt(s, k, v),
    decreases len,
{
    if len > k {
        lemma_count_lt_stable(s, k, len - 1, v);
    }
}

/// When every entry before position `k` is at most `v`, each of the `k`
/// entries is counted either below `v` or at `v`.
pub proof fn lemma_count_lt_eq_complete(s: Seq<usize>, k: int, v: int)
    requires
        0 <= k,
        forall|i: int| 0 <= i < k ==> (#[trigger] s[i] as int) <= v,
    ensures
        count_lt(s, k, v) + count_eq(s, k, v) == k,
    decreases k,
{
    if k > 0 {
        lemma_count_lt_eq_complete(s, k - 1, v);
    }
}

/// When every entry before position `k` lies below `v`, all `k` are counted.
pub proof fn lemma_count_lt_all(s: Seq<usize>, k: int, v: int)
    requires
        0 <= k,
        forall|i: int| 0 <= i < k ==> (#[trigger] s[i] as int) < v,
    ensures
        count_lt(s, k, v) == k,
    decreases k,
{
    if k > 0 {
        lemma_count_lt_all(s, k - 1, v);
    }
}

/// In a sorted sequence, position `p` holds a value below `v` exactly when
/// `p` lies before the count of entries below `v`. The entries below `v`
/// thus occupy precisely the positions `0 .. count_lt(s, |s|, v)`.
pub proof fn lemma_sorted_position(s: Seq<usize>, p: int, v: int)
    requires
        sorted(s),
        0 <= p < s.len(),
    ensures
        (s[p] as int) < v <==> p < count_lt(s, s.len() as int, v),
{
    if (s[p] as int) < v {
        assert forall|i: int| 0 <= i < p + 1 implies (#[trigger] s[i] as int) < v by {
            assert(s[i] <= s[p]);
        }
        lemma_count_lt_all(s, p + 1, v);
        lemma_count_lt_mono_k(s, p + 1, s.len() as int, v);
    } else {
        assert forall|i: int| p <= i < s.len() implies (#[trigger] s[i] as int) >= v by {
            assert(s[p] <= s[i]);
        }
        lemma_count_lt_stable(s, p, s.len() as int, v);
        lemma_count_bounds(s, p, v);
    }
}

/// Build a vector of `n` zeros.
fn zeros(n: usize) -> (v: Vec<usize>)
    ensures
        v@.len() == n,
        forall|i: int| 0 <= i < n ==> v@[i] == 0,
{
    let mut v: Vec<usize> = Vec::new();
    while v.len() < n
        invariant
            v@.len() <= n,
            forall|i: int| 0 <= i < v@.len() ==> v@[i] == 0,
        decreases n - v@.len(),
    {
        v.push(0);
    }
    v
}

/// Counting-sort compression. Given parallel row and column arrays sorted
/// by row, and a dimension `n` exceeding every row value, produce the
/// row-pointer array `ia` and the column-index array `ja` of the compressed
/// sparse row form: a histogram of the row values, an exclusive prefix sum
/// over it, and a fill pass that writes each column value at its row's next
/// free slot.
///
/// `ia[r]` counts the edges whose row lies below `r`. Because the edges
/// arrive sorted by row, the fill pass writes positions 0, 1, 2, ... in
/// order, so the column array comes out unchanged: `ja@ == col@`.
pub fn compress(row: &Vec<usize>, col: &Vec<usize>, n: usize) -> (res: (Vec<usize>, Vec<usize>))
    requires
        row@.len() == col@.len(),
        sorted(row@),
        forall|i: int| 0 <= i < row@.len() ==> (#[trigger] row@[i] as int) < n as int,
    ensures
        res.0@.len() == n as int + 1,
        forall|r: int|
            0 <= r <= n as int ==> (#[trigger] res.0@[r] as int) == count_lt(
                row@,
                row@.len() as int,
                r,
            ),
        res.1@ == col@,
{
    let len = row.len();
    // Histogram pass: w[r] counts the edges with row value r.
    let mut w = zeros(n);
    let mut j: usize = 0;
    while j < len
        invariant
            j <= len,
            len == row@.len() == col@.len(),
            w@.len() == n,
            forall|r: int| 0 <= r < n as int ==> (#[trigger] w@[r] as int) == count_eq(row@, j as int, r),
            forall|i: int| 0 <= i < row@.len() ==> (#[trigger] row@[i] as int) < n as int,
        decreases len - j,
    {
        let rj = row[j];
        proof {
            lemma_count_bounds(row@, j as int, rj as int);
        }
        let cur = w[rj];
        w[rj] = cur + 1;
        proof {
            assert forall|r: int| 0 <= r < n as int implies (#[trigger] w@[r] as int) == count_eq(
                row@,
                j as int + 1,
                r,
            ) by {
                assert(count_eq(row@, j as int + 1, r) == count_eq(row@, j as int, r) + if row@[j as int] as int
                    == r {
                    1int
                } else {
                    0int
                });
            }
        }
        j += 1;
    }
    // Exclusive prefix sum: ia[r] counts the edges with row value below r.
    let mut ia: Vec<usize> = Vec::new();
    ia.push(0);
    proof {
        lemma_count_lt_zero(row@, len as int);
    }
    let mut r: usize = 0;
    while r < n
        invariant
            r <= n,
            len == row@.len(),
            w@.len() == n,
            forall|k: int| 0 <= k < n as int ==> (#[trigger] w@[k] as int) == count_eq(row@, len as int, k),
            ia@.len() == r as int + 1,
            forall|k: int|
                0 <= k <= r as int ==> (#[trigger] ia@[k] as int) == count_lt(row@, len as int, k),
        decreases n - r,
    {
        let cur = ia[r];
        let cnt = w[r];
        proof {
            lemma_count_lt_succ(row@, len as int, r as int);
            lemma_count_bounds(row@, len as int, r as int);
        }
        ia.push(cur + cnt);
        r += 1;
    }
    // Fill pass: a mutable copy of ia, its last slot reset to zero, serves
    // as each row's next-free-slot cursor.
    let mut w2: Vec<usize> = Vec::new();
    let mut k: usize = 0;
    while k < n
        invariant
            k <= n,
            w2@.len() == k,
            ia@.len() == n as int + 1,
            forall|i: int| 0 <= i < k as int ==> w2@[i] == ia@[i],
        decreases n - k,
    {
        w2.push(ia[k]);
        k += 1;
    }
    w2.push(0);
    let mut ja = zeros(len);
    let mut j: usize = 0;
    while j < len
        invariant
            j <= len,
            len == row@.len() == col@.len(),
            sorted(row@),
            forall|i: int| 0 <= i < row@.len() ==> (#[trigger] row@[i] as int) < n as int,
            w2@.len() == n as int + 1,
            forall|r: int|
                0 <= r < n as int ==> (#[trigger] w2@[r] as int) == count_lt(row@, len as int, r)
                    + count_eq(row@, j as int, r),
            ja@.len() == len,
            forall|k: int| 0 <= k < j as int ==> ja@[k] == col@[k],
        decreases len - j,
    {
        let rj = row[j];
        let p = w2[rj];
        proof {
            assert forall|i: int| j as int <= i < len as int implies (#[trigger] row@[i] as int)
                >= rj as int by {
                if i > j as int {
                    assert(row@[j as int] <= row@[i]);
                }
            }
            lemma_count_lt_stable(row@, j as int, len as int, rj as int);
            assert forall|i: int| 0 <= i < j as int implies (#[trigger] row@[i] as int)
                <= rj as int by {
                assert(row@[i] <= row@[j as int]);
            }
            lemma_count_lt_eq_complete(row@, j as int, rj as int);
            assert(p == j);
        }
        ja[p] = col[j];
        w2[rj] = p + 1;
        proof {
            assert forall|r: int| 0 <= r < n as int implies (#[trigger] w2@[r] as int) == count_lt(
                row@,
                len as int,
                r,
            ) + count_eq(row@, j as int + 1, r) by {
                assert(count_eq(row@, j as int + 1, r) == count_eq(row@, j as int, r) + if row@[j as int] as int
                    == r {
                    1int
                } else {
                    0int
                });
            }
        }
        j += 1;
    }
    proof {
        assert(ja@ =~= col@);
    }
    (ia, ja)
}

} // verus!
