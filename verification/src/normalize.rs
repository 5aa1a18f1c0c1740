use vstd::prelude::*;
use crate::order::{lex_leq, lex_lt, lemma_push_to_set, sorted_lex, strictly_sorted_lex};

verus! {

/// The largest value appearing as a row or a column in an edge list,
/// or -1 when the list is empty. One more than this value is the
/// dimension inferred for the matrix.
pub open spec fn max_entry(s: Seq<(usize, usize)>) -> int
    decreases s.len(),
{
    if s.len() == 0 {
        -1
    } else {
        let m: int = max_entry(s.drop_last());
        let e: (usize, usize) = s.last();
        let em: int = if e.0 >= e.1 {
            e.0 as int
        } else {
            e.1 as int
        };
        if m >= em {
            m
        } else {
            em
        }
    }
}

/// Every row and column value in the list is bounded by `max_entry`.
pub proof fn lemma_max_entry_bound(s: Seq<(usize, usize)>)
    ensures
        forall|i: int|
            0 <= i < s.len() ==> (#[trigger] s[i]).0 <= max_entry(s) && s[i].1 <= max_entry(s),
    decreases s.len(),
{
    if s.len() > 0 {
        lemma_max_entry_bound(s.drop_last());
        assert forall|i: int|
            0 <= i < s.len() implies (#[trigger] s[i]).0 <= max_entry(s) && s[i].1 <= max_entry(
            s,
        ) by {
            if i < s.len() - 1 {
                assert(s.drop_last()[i] == s[i]);
            } else {
                assert(s[i] == s.last());
            }
        }
    }
}

/// A non-empty list attains its `max_entry` at some row or column value.
pub proof fn lemma_max_entry_witness(s: Seq<(usize, usize)>)
    requires
        s.len() > 0,
    ensures
        exists|i: int|
            0 <= i < s.len() && ((#[trigger] s[i]).0 as int == max_entry(s) || s[i].1 as int
                == max_entry(s)),
    decreases s.len(),
{
    let e = s.last();
    let em: int = if e.0 >= e.1 {
        e.0 as int
    } else {
        e.1 as int
    };
    if max_entry(s) == em {
        assert(s[s.len() - 1].0 as int == max_entry(s) || s[s.len() - 1].1 as int == max_entry(s));
    } else {
        assert(max_entry(s) == max_entry(s.drop_last()));
        if s.drop_last().len() == 0 {
            assert(max_entry(s.drop_last()) == -1);
            assert(false);
        }
        lemma_max_entry_witness(s.drop_last());
        let i = choose|i: int|
            0 <= i < s.drop_last().len() && ((#[trigger] s.drop_last()[i]).0 as int == max_entry(
                s.drop_last(),
            ) || s.drop_last()[i].1 as int == max_entry(s.drop_last()));
        assert(s.drop_last()[i] == s[i]);
        assert(s[i].0 as int == max_entry(s) || s[i].1 as int == max_entry(s));
    }
}

/// When every pair of `x` also occurs in `y`, the inferred bound of `x`
/// cannot exceed that of `y`.
proof fn lemma_max_entry_le(x: Seq<(usize, usize)>, y: Seq<(usize, usize)>)
    requires
        forall|e: (usize, usize)| x.contains(e) ==> y.contains(e),
    ensures
        max_entry(x) <= max_entry(y),
{
    if x.len() == 0 {
        if y.len() > 0 {
            let e = y.last();
            let em: int = if e.0 >= e.1 {
                e.0 as int
            } else {
                e.1 as int
            };
            assert(max_entry(y) >= em >= 0);
        }
    } else {
        lemma_max_entry_witness(x);
        let i = choose|i: int|
            0 <= i < x.len() && ((#[trigger] x[i]).0 as int == max_entry(x) || x[i].1 as int
                == max_entry(x));
        assert(x.contains(x[i]));
        assert(y.contains(x[i]));
        let j = choose|j: int| 0 <= j < y.len() && y[j] == x[i];
        lemma_max_entry_bound(y);
        assert(y[j].0 <= max_entry(y) && y[j].1 <= max_entry(y));
    }
}

/// Edge lists with the same set of pairs infer the same dimension.
pub proof fn lemma_max_entry_set_equal(x: Seq<(usize, usize)>, y: Seq<(usize, usize)>)
    requires
        x.to_set() == y.to_set(),
    ensures
        max_entry(x) == max_entry(y),
{
    broadcast use vstd::set::group_set_axioms;

    assert forall|e: (usize, usize)| x.contains(e) implies y.contains(e) by {
        assert(x.to_set().contains(e));
        assert(y.to_set().contains(e));
    }
    assert forall|e: (usize, usize)| y.contains(e) implies x.contains(e) by {
        assert(y.to_set().contains(e));
        assert(x.to_set().contains(e));
    }
    lemma_max_entry_le(x, y);
    lemma_max_entry_le(y, x);
}

/// Sort an edge list lexicographically by (row, column), by insertion
/// into a fresh vector. The result holds exactly the pairs of the input,
/// multiplicities included.
pub fn sort_pairs(v: Vec<(usize, usize)>) -> (res: Vec<(usize, usize)>)
    ensures
        sorted_lex(res@),
        res@.to_multiset() == v@.to_multiset(),
{
    broadcast use vstd::seq_lib::group_to_multiset_ensures;

    let mut out: Vec<(usize, usize)> = Vec::new();
    let mut i: usize = 0;
    while i < v.len()
        invariant
            i <= v@.len(),
            sorted_lex(out@),
            out@.to_multiset() == v@.take(i as int).to_multiset(),
        decreases v@.len() - i,
    {
        let x = v[i];
        let mut j: usize = out.len();
        while j > 0
            invariant
                j <= out@.len(),
                forall|b: int| j as int <= b < out@.len() ==> lex_lt(x, #[trigger] out@[b]),
            ensures
                j <= out@.len(),
                forall|b: int| j as int <= b < out@.len() ==> lex_lt(x, #[trigger] out@[b]),
                j == 0 || lex_leq(out@[j as int - 1], x),
            decreases j,
        {
            let a = out[j - 1];
            if a.0 > x.0 || (a.0 == x.0 && a.1 > x.1) {
                j -= 1;
            } else {
                break ;
            }
        }
        let ghost old_out = out@;
        out.insert(j, x);
        proof {
            assert forall|a: int, b: int| #![trigger out@[a], out@[b]]
                0 <= a < b < out@.len() implies lex_leq(out@[a], out@[b]) by {
                if b < j as int {
                    assert(out@[a] == old_out[a] && out@[b] == old_out[b]);
                } else if b == j as int {
                    assert(out@[a] == old_out[a]);
                    assert(out@[b] == x);
                    assert(lex_leq(old_out[j as int - 1], x));
                    if a < j as int - 1 {
                        assert(lex_leq(old_out[a], old_out[j as int - 1]));
                    }
                } else if a < j as int {
                    assert(out@[a] == old_out[a] && out@[b] == old_out[b - 1]);
                    assert(lex_lt(x, old_out[b - 1]));
                    if a as int <= j as int - 1 && j as int - 1 < b - 1 {
                        assert(lex_leq(old_out[a], old_out[b - 1]));
                    } else if a < b - 1 {
                        assert(lex_leq(old_out[a], old_out[b - 1]));
                    }
                } else if a == j as int {
                    assert(out@[a] == x && out@[b] == old_out[b - 1]);
                    assert(lex_lt(x, old_out[b - 1]));
                } else {
                    assert(out@[a] == old_out[a - 1] && out@[b] == old_out[b - 1]);
                }
            }
            assert(out@ == old_out.insert(j as int, x));
            vstd::seq_lib::to_multiset_insert(old_out, j as int, x);
            assert(v@.take(i as int + 1) =~= v@.take(i as int).push(x));
            vstd::seq_lib::to_multiset_build(v@.take(i as int), x);
            assert(out@.to_multiset() == v@.take(i as int + 1).to_multiset());
        }
        i += 1;
    }
    proof {
        assert(v@.take(v@.len() as int) =~= v@);
    }
    out
}

/// Remove exact duplicate pairs from a sorted edge list. The result is
/// strictly sorted and holds the same set of pairs; it is empty exactly
/// when the input is.
pub fn dedup_pairs(v: &Vec<(usize, usize)>) -> (res: Vec<(usize, usize)>)
    requires
        sorted_lex(v@),
    ensures
        strictly_sorted_lex(res@),
        res@.to_set() == v@.to_set(),
        res@.len() == 0 <==> v@.len() == 0,
{
    broadcast use vstd::set::group_set_axioms;

    let mut out: Vec<(usize, usize)> = Vec::new();
    let mut i: usize = 0;
    while i < v.len()
        invariant
            i <= v@.len(),
            sorted_lex(v@),
            strictly_sorted_lex(out@),
            out@.to_set() == v@.take(i as int).to_set(),
            i > 0 ==> out@.len() > 0 && out@.last() == v@[i as int - 1],
            i == 0 ==> out@.len() == 0,
        decreases v@.len() - i,
    {
        let x = v[i];
        proof {
            assert(v@.take(i as int + 1) =~= v@.take(i as int).push(x));
            lemma_push_to_set(v@.take(i as int), x);
        }
        if out.len() == 0 {
            let ghost old_out = out@;
            out.push(x);
            proof {
                lemma_push_to_set(old_out, x);
            }
        } else {
            let l = out[out.len() - 1];
            if l.0 != x.0 || l.1 != x.1 {
                proof {
                    // the last kept pair is v[i - 1], which precedes x
                    assert(lex_leq(v@[i as int - 1], v@[i as int]));
                    assert(lex_lt(l, x));
                }
                let ghost old_out = out@;
                out.push(x);
                proof {
                    lemma_push_to_set(old_out, x);
                    assert forall|a: int, b: int| #![trigger out@[a], out@[b]]
                        0 <= a < b < out@.len() implies lex_lt(out@[a], out@[b]) by {
                        if b == out@.len() - 1 {
                            assert(out@[b] == x);
                            assert(out@[a] == old_out[a]);
                            if a < old_out.len() - 1 {
                                assert(lex_lt(old_out[a], old_out[old_out.len() - 1]));
                            }
                        } else {
                            assert(out@[a] == old_out[a] && out@[b] == old_out[b]);
                        }
                    }
                }
            } else {
                proof {
                    // x repeats the pair kept last; the set is unchanged
                    assert(l == x);
                    assert(out@.contains(x));
                    assert(out@.to_set().contains(x));
                    assert(out@.to_set() =~= v@.take(i as int).to_set().insert(x));
                }
            }
        }
        i += 1;
    }
    proof {
        assert(v@.take(v@.len() as int) =~= v@);
    }
    out
}

/// Appending a pair raises the inferred bound to that pair's values when
/// they exceed it.
proof fn lemma_max_entry_push(s: Seq<(usize, usize)>, e: (usize, usize))
    ensures
        max_entry(s.push(e)) == ({
            let em: int = if e.0 >= e.1 {
                e.0 as int
            } else {
                e.1 as int
            };
            if max_entry(s) >= em {
                max_entry(s)
            } else {
                em
            }
        }),
{
    assert(s.push(e).drop_last() =~= s);
    assert(s.push(e).last() == e);
    assert(s.push(e).len() == s.len() + 1);
}

/// The largest row or column value of a non-empty edge list.
pub fn max_value(v: &Vec<(usize, usize)>) -> (m: usize)
    requires
        v@.len() > 0,
    ensures
        m as int == max_entry(v@),
{
    let mut m: usize = 0;
    let mut i: usize = 0;
    while i < v.len()
        invariant
            i <= v@.len(),
            i == 0 ==> m == 0,
            i > 0 ==> m as int == max_entry(v@.take(i as int)),
        decreases v@.len() - i,
    {
        let x = v[i];
        proof {
            assert(v@.take(i as int + 1) =~= v@.take(i as int).push(v@[i as int]));
            lemma_max_entry_push(v@.take(i as int), v@[i as int]);
        }
        if x.0 > m {
            m = x.0;
        }
        if x.1 > m {
            m = x.1;
        }
        i += 1;
    }
    proof {
        assert(v@.take(v@.len() as int) =~= v@);
    }
    m
}

/// Split an edge list into its parallel row and column arrays.
pub fn split_pairs(v: &Vec<(usize, usize)>) -> (res: (Vec<usize>, Vec<usize>))
    ensures
        res.0@.len() == v@.len(),
        res.1@.len() == v@.len(),
        forall|i: int| 0 <= i < v@.len() ==> (#[trigger] res.0@[i]) == v@[i].0,
        forall|i: int| 0 <= i < v@.len() ==> (#[trigger] res.1@[i]) == v@[i].1,
{
    let mut rows: Vec<usize> = Vec::new();
    let mut cols: Vec<usize> = Vec::new();
    let mut i: usize = 0;
    while i < v.len()
        invariant
            i <= v@.len(),
            rows@.len() == i,
            cols@.len() == i,
            forall|k: int| 0 <= k < i as int ==> (#[trigger] rows@[k]) == v@[k].0,
            forall|k: int| 0 <= k < i as int ==> (#[trigger] cols@[k]) == v@[k].1,
        decreases v@.len() - i,
    {
        let x = v[i];
        rows.push(x.0);
        cols.push(x.1);
        i += 1;
    }
    (rows, cols)
}

} // verus!
