use vstd::prelude::*;
use vstd::relations::{sorted_by, total_ordering};
use vstd::seq_lib::lemma_sorted_unique;

verus! {

/// Non-strict lexicographic order on (row, column) pairs.
pub open spec fn lex_leq(a: (usize, usize), b: (usize, usize)) -> bool {
    a.0 < b.0 || (a.0 == b.0 && a.1 <= b.1)
}

/// Strict lexicographic order on (row, column) pairs.
pub open spec fn lex_lt(a: (usize, usize), b: (usize, usize)) -> bool {
    a.0 < b.0 || (a.0 == b.0 && a.1 < b.1)
}

/// The pairs of `s` are in non-strict ascending lexicographic order.
pub open spec fn sorted_lex(s: Seq<(usize, usize)>) -> bool {
    forall|i: int, j: int| #![trigger s[i], s[j]] 0 <= i < j < s.len() ==> lex_leq(s[i], s[j])
}

/// The pairs of `s` are in strictly ascending lexicographic order:
/// sorted and free of duplicates.
pub open spec fn strictly_sorted_lex(s: Seq<(usize, usize)>) -> bool {
    forall|i: int, j: int| #![trigger s[i], s[j]] 0 <= i < j < s.len() ==> lex_lt(s[i], s[j])
}

/// A strictly sorted sequence of pairs contains no pair twice.
pub proof fn lemma_strictly_sorted_no_duplicates(s: Seq<(usize, usize)>)
    requires
        strictly_sorted_lex(s),
    ensures
        s.no_duplicates(),
{
    assert forall|i: int, j: int|
        0 <= i < s.len() && 0 <= j < s.len() && i != j implies s[i] != s[j] by {
        if i < j {
            assert(lex_lt(s[i], s[j]));
        } else {
            assert(lex_lt(s[j], s[i]));
        }
    }
}

/// Two sequences of pairs, each free of duplicates, that contain the same
/// elements have the same length.
pub proof fn lemma_unique_same_set_same_len(x: Seq<(usize, usize)>, y: Seq<(usize, usize)>)
    requires
        x.no_duplicates(),
        y.no_duplicates(),
        x.to_set() == y.to_set(),
    ensures
        x.len() == y.len(),
{
    x.unique_seq_to_set();
    y.unique_seq_to_set();
}

/// Sequences with equal multisets hold the same set of pairs and have
/// equal length.
pub proof fn lemma_multiset_eq(x: Seq<(usize, usize)>, y: Seq<(usize, usize)>)
    requires
        x.to_multiset() == y.to_multiset(),
    ensures
        x.to_set() == y.to_set(),
        x.len() == y.len(),
{
    broadcast use vstd::seq_lib::group_to_multiset_ensures;
    broadcast use vstd::set::group_set_axioms;

    assert(x.len() == x.to_multiset().len());
    assert(y.len() == y.to_multiset().len());
    assert forall|e: (usize, usize)| x.contains(e) implies y.contains(e) by {
        assert(x.to_multiset().count(e) > 0);
    }
    assert forall|e: (usize, usize)| y.contains(e) implies x.contains(e) by {
        assert(y.to_multiset().count(e) > 0);
    }
    assert(x.to_set() =~= y.to_set());
}

/// Appending a pair adds exactly that pair to the set of elements.
pub proof fn lemma_push_to_set(s: Seq<(usize, usize)>, x: (usize, usize))
    ensures
        s.push(x).to_set() == s.to_set().insert(x),
{
    broadcast use vstd::set::group_set_axioms;

    assert forall|e: (usize, usize)| s.push(x).to_set().contains(e) implies s.to_set().insert(
        x,
    ).contains(e) by {
        let i = choose|i: int| 0 <= i < s.push(x).len() && s.push(x)[i] == e;
        if i < s.len() {
            assert(s[i] == e);
            assert(s.contains(e));
        }
    }
    assert forall|e: (usize, usize)| s.to_set().insert(x).contains(e) implies s.push(
        x,
    ).to_set().contains(e) by {
        if e == x {
            assert(s.push(x)[s.len() as int] == e);
        } else {
            assert(s.contains(e));
            let i = choose|i: int| 0 <= i < s.len() && s[i] == e;
            assert(s.push(x)[i] == e);
        }
        assert(s.push(x).contains(e));
    }
    assert(s.push(x).to_set() =~= s.to_set().insert(x));
}

/// A strictly sorted sequence of pairs is determined by the set of its
/// elements: two strictly sorted sequences with the same set are equal.
pub proof fn lemma_strictly_sorted_unique(x: Seq<(usize, usize)>, y: Seq<(usize, usize)>)
    requires
        strictly_sorted_lex(x),
        strictly_sorted_lex(y),
        x.to_set() == y.to_set(),
    ensures
        x == y,
{
    broadcast use vstd::seq_lib::group_to_multiset_ensures;
    broadcast use vstd::set::group_set_axioms;

    let leq = |a: (usize, usize), b: (usize, usize)| lex_leq(a, b);
    assert(total_ordering(leq)) by {
        assert forall|a: (usize, usize)| #[trigger] leq(a, a) by {}
        assert forall|a: (usize, usize), b: (usize, usize)|
            #[trigger] leq(a, b) && #[trigger] leq(b, a) implies a == b by {}
        assert forall|a: (usize, usize), b: (usize, usize), c: (usize, usize)|
            #[trigger] leq(a, b) && #[trigger] leq(b, c) implies leq(a, c) by {}
        assert forall|a: (usize, usize), b: (usize, usize)|
            #[trigger] leq(a, b) || #[trigger] leq(b, a) by {}
    }
    assert(sorted_by(x, leq));
    assert(sorted_by(y, leq));
    lemma_strictly_sorted_no_duplicates(x);
    lemma_strictly_sorted_no_duplicates(y);
    x.lemma_multiset_has_no_duplicates();
    y.lemma_multiset_has_no_duplicates();
    assert forall|e: (usize, usize)|
        x.to_multiset().count(e) == #[trigger] y.to_multiset().count(e) by {
        if x.contains(e) {
            assert(x.to_set().contains(e));
            assert(y.to_set().contains(e));
            assert(y.contains(e));
            assert(x.to_multiset().contains(e));
            assert(y.to_multiset().contains(e));
        } else {
            assert(!x.to_set().contains(e));
            assert(!y.to_set().contains(e));
            assert(!y.contains(e));
            assert(x.to_multiset().count(e) == 0);
            assert(y.to_multiset().count(e) == 0);
        }
    }
    assert(x.to_multiset() =~= y.to_multiset());
    lemma_sorted_unique(x, y, leq);
}

} // verus!
