use vstd::prelude::*;
use vstd::slice::slice_subrange;
use crate::GraphMatrixError;
use crate::compress::{
    compress, count_lt, lemma_count_bounds, lemma_count_lt_all, lemma_count_lt_mono_v,
    lemma_count_lt_zero, lemma_sorted_position,
};
use crate::normalize::{
    dedup_pairs, lemma_max_entry_bound, lemma_max_entry_set_equal, max_entry, max_value,
    sort_pairs, split_pairs,
};
use crate::order::{
    lemma_multiset_eq, lemma_strictly_sorted_no_duplicates, lemma_strictly_sorted_unique,
    lemma_unique_same_set_same_len, lex_lt, strictly_sorted_lex,
};

verus! {

/// The entries of `s` ascend strictly: the sortedness invariant of each
/// row's column slice, which makes binary search sound.
pub open spec fn strictly_increasing(s: Seq<usize>) -> bool {
    forall|i: int, j: int| #![trigger s[i], s[j]] 0 <= i < j < s.len() ==> s[i] < s[j]
}

/// A compressed sparse row adjacency matrix with no value array: an edge
/// (r, c) exists exactly when column c appears in row r's slice of
/// `indices`. Immutable once constructed.
#[derive(Debug)]
pub struct GraphMatrix {
    indptr: Vec<usize>,
    indices: Vec<usize>,
}

impl GraphMatrix {
    /// The row-pointer array, as a sequence.
    pub closed spec fn indptr_seq(self) -> Seq<usize> {
        self.indptr@
    }

    /// The column-index array, as a sequence.
    pub closed spec fn indices_seq(self) -> Seq<usize> {
        self.indices@
    }

    /// The dimension n: the matrix is n by n.
    pub open spec fn n(self) -> int {
        self.indptr_seq().len() - 1
    }

    /// The number of stored edges.
    pub open spec fn edge_count(self) -> int {
        self.indices_seq().len() as int
    }

    /// The columns adjacent to row r, in ascending order.
    pub open spec fn row_seq(self, r: int) -> Seq<usize> {
        self.indices_seq().subrange(
            self.indptr_seq()[r] as int,
            self.indptr_seq()[r + 1] as int,
        )
    }

    /// Structural invariant: the row pointers start at zero, never
    /// decrease, and end at the edge count; each row's columns ascend
    /// strictly; every stored column lies below the dimension.
    #[verifier::type_invariant]
    pub open spec fn wf(self) -> bool {
        &&& self.indptr_seq().len() >= 1
        &&& self.n() <= usize::MAX as int
        &&& self.edge_count() <= usize::MAX as int
        &&& self.indptr_seq()[0] == 0
        &&& forall|i: int, j: int|
            #![trigger self.indptr_seq()[i], self.indptr_seq()[j]]
            0 <= i <= j <= self.n() ==> self.indptr_seq()[i] <= self.indptr_seq()[j]
        &&& self.indptr_seq()[self.n()] as int == self.edge_count()
        &&& forall|r: int| 0 <= r < self.n() ==> strictly_increasing(#[trigger] self.row_seq(r))
        &&& forall|p: int|
            0 <= p < self.edge_count() ==> (#[trigger] self.indices_seq()[p] as int) < self.n()
    }

    /// The edges of row r: its columns, each paired with r.
    pub open spec fn row_edges(self, r: int) -> Seq<(usize, usize)> {
        self.row_seq(r).map(|_k: int, c: usize| ((r as usize), c))
    }

    /// The edges of rows 0 .. r, in row-major order.
    pub open spec fn edges_up_to(self, r: int) -> Seq<(usize, usize)>
        decreases r,
    {
        if r <= 0 {
            Seq::empty()
        } else {
            self.edges_up_to(r - 1) + self.row_edges(r - 1)
        }
    }

    /// Every stored edge as a (row, column) pair, in row-major order:
    /// ascending row, ascending column within a row.
    pub open spec fn edges(self) -> Seq<(usize, usize)> {
        self.edges_up_to(self.n())
    }

    /// Rows 0 .. r contribute exactly indptr[r] edges.
    proof fn lemma_edges_up_to_len(self, r: int)
        requires
            self.wf(),
            0 <= r <= self.n(),
        ensures
            self.edges_up_to(r).len() == self.indptr_seq()[r],
        decreases r,
    {
        if r > 0 {
            self.lemma_edges_up_to_len(r - 1);
            assert(self.indptr_seq()[r - 1] <= self.indptr_seq()[r]);
            assert(self.indptr_seq()[r] <= self.indptr_seq()[self.n()]);
            assert(self.row_seq(r - 1).len() == self.indptr_seq()[r] - self.indptr_seq()[r - 1]);
        }
    }

    /// Position k keeps its pair once row r has passed it.
    proof fn lemma_edges_up_to_prefix(self, r: int, r2: int, k: int)
        requires
            self.wf(),
            0 <= r <= r2 <= self.n(),
            0 <= k < self.indptr_seq()[r] as int,
        ensures
            self.edges_up_to(r2)[k] == self.edges_up_to(r)[k],
        decreases r2 - r,
    {
        self.lemma_edges_up_to_len(r);
        if r2 > r {
            self.lemma_edges_up_to_prefix(r, r2 - 1, k);
            self.lemma_edges_up_to_len(r2 - 1);
            assert(self.indptr_seq()[r] <= self.indptr_seq()[r2 - 1]);
            assert(self.edges_up_to(r2) == self.edges_up_to(r2 - 1) + self.row_edges(r2 - 1));
            assert(self.edges_up_to(r2)[k] == self.edges_up_to(r2 - 1)[k]);
        }
    }

    /// Locate the row whose block holds position k, searching down from hi.
    proof fn find_row(self, hi: int, k: int) -> (r: int)
        requires
            self.wf(),
            0 <= hi <= self.n(),
            0 <= k < self.indptr_seq()[hi] as int,
        ensures
            0 <= r < hi,
            self.indptr_seq()[r] <= k < self.indptr_seq()[r + 1] as int,
        decreases hi,
    {
        assert(hi >= 1);
        if self.indptr_seq()[hi - 1] as int <= k {
            hi - 1
        } else {
            self.find_row(hi - 1, k)
        }
    }

    /// The pair stored at position k, and the row block it belongs to.
    proof fn lemma_edge_at(self, k: int) -> (r: int)
        requires
            self.wf(),
            0 <= k < self.edge_count(),
        ensures
            0 <= r < self.n(),
            self.indptr_seq()[r] <= k < self.indptr_seq()[r + 1] as int,
            self.edges()[k] == ((r as usize), self.indices_seq()[k]),
            self.edges().len() == self.edge_count(),
    {
        self.lemma_edges_up_to_len(self.n());
        let r = self.find_row(self.n(), k);
        self.lemma_edges_up_to_len(r);
        self.lemma_edges_up_to_len(r + 1);
        assert(self.indptr_seq()[r + 1] <= self.indptr_seq()[self.n()]);
        assert(self.edges_up_to(r + 1) == self.edges_up_to(r) + self.row_edges(r));
        let off = k - self.indptr_seq()[r];
        assert(self.edges_up_to(r + 1)[k] == self.row_edges(r)[off]);
        assert(self.row_edges(r)[off] == ((r as usize), self.row_seq(r)[off]));
        assert(self.row_seq(r)[off] == self.indices_seq()[k]);
        self.lemma_edges_up_to_prefix(r + 1, self.n(), k);
        r
    }

    /// Position k within row r's block stores the pair (r, indices[k]).
    pub proof fn lemma_edge_in_row(self, r: int, k: int)
        requires
            self.wf(),
            0 <= r < self.n(),
            self.indptr_seq()[r] <= k < self.indptr_seq()[r + 1] as int,
        ensures
            0 <= k < self.edge_count(),
            self.edges().len() == self.edge_count(),
            self.edges()[k] == ((r as usize), self.indices_seq()[k]),
    {
        assert(self.indptr_seq()[r + 1] <= self.indptr_seq()[self.n()]);
        let rr = self.lemma_edge_at(k);
        if rr < r {
            assert(self.indptr_seq()[rr + 1] <= self.indptr_seq()[r]);
            assert(false);
        }
        if rr > r {
            assert(self.indptr_seq()[r + 1] <= self.indptr_seq()[rr]);
            assert(false);
        }
    }

    /// The stored edges ascend strictly in (row, column) order, and the
    /// edge sequence has exactly `edge_count` entries.
    pub proof fn lemma_edges_sorted(self)
        requires
            self.wf(),
        ensures
            strictly_sorted_lex(self.edges()),
            self.edges().len() == self.edge_count(),
    {
        self.lemma_edges_up_to_len(self.n());
        assert forall|k1: int, k2: int|
            #![trigger self.edges()[k1], self.edges()[k2]]
            0 <= k1 < k2 < self.edges().len() implies lex_lt(self.edges()[k1], self.edges()[k2]) by {
            let r1 = self.lemma_edge_at(k1);
            let r2 = self.lemma_edge_at(k2);
            assert(self.edges()[k1].0 as int == r1);
            assert(self.edges()[k2].0 as int == r2);
            if r1 == r2 {
                let off1 = k1 - self.indptr_seq()[r1];
                let off2 = k2 - self.indptr_seq()[r1];
                assert(strictly_increasing(self.row_seq(r1)));
                assert(self.indptr_seq()[r1 + 1] <= self.indptr_seq()[self.n()]);
                assert(self.row_seq(r1)[off1] == self.indices_seq()[k1]);
                assert(self.row_seq(r1)[off2] == self.indices_seq()[k2]);
                assert(self.row_seq(r1)[off1] < self.row_seq(r1)[off2]);
            } else if r2 < r1 {
                assert(self.indptr_seq()[r2 + 1] <= self.indptr_seq()[r1]);
                assert(false);
            }
        }
    }

    /// The pair (r, c) is a stored edge exactly when r is a valid row and
    /// column c appears in row r's slice.
    pub proof fn lemma_edge_membership(self, r: usize, c: usize)
        requires
            self.wf(),
        ensures
            self.edges().contains((r, c)) <==> ((r as int) < self.n() && self.row_seq(
                r as int,
            ).contains(c)),
    {
        self.lemma_edges_up_to_len(self.n());
        if self.edges().contains((r, c)) {
            let k = choose|k: int| 0 <= k < self.edges().len() && self.edges()[k] == (r, c);
            let rr = self.lemma_edge_at(k);
            assert((rr as usize) as int == rr);
            assert(rr == r as int);
            let off = k - self.indptr_seq()[rr];
            assert(self.indptr_seq()[rr + 1] <= self.indptr_seq()[self.n()]);
            assert(self.row_seq(rr)[off] == self.indices_seq()[k]);
            assert(self.row_seq(r as int)[off] == c);
        }
        if (r as int) < self.n() && self.row_seq(r as int).contains(c) {
            let off = choose|off: int|
                0 <= off < self.row_seq(r as int).len() && self.row_seq(r as int)[off] == c;
            assert(self.indptr_seq()[r as int] <= self.indptr_seq()[r as int + 1]);
            assert(self.indptr_seq()[r as int + 1] <= self.indptr_seq()[self.n()]);
            let k = self.indptr_seq()[r as int] + off;
            assert(self.row_seq(r as int)[off] == self.indices_seq()[k]);
            self.lemma_edge_in_row(r as int, k);
            assert(self.edges()[k] == (r, c));
        }
    }

    /// The dimensions of the square matrix: (n, n).
    pub fn dims(&self) -> (d: (usize, usize))
        ensures
            d.0 as int == self.n(),
            d.1 as int == self.n(),
    {
        proof {
            use_type_invariant(self);
        }
        let n = self.indptr.len() - 1;
        (n, n)
    }

    /// The number of stored edges.
    pub fn ne(&self) -> (c: usize)
        ensures
            c as int == self.edge_count(),
    {
        self.indices.len()
    }

    /// A borrowed view of the columns adjacent to row r, in ascending
    /// order; `BoundsError` when r is not a valid row. The view lives only
    /// as long as the matrix.
    pub fn row(&self, r: usize) -> (res: Result<&[usize], GraphMatrixError>)
        ensures
            match res {
                Ok(s) => (r as int) < self.n() && s@ == self.row_seq(r as int),
                Err(e) => e == GraphMatrixError::BoundsError && (r as int) >= self.n(),
            },
    {
        proof {
            use_type_invariant(self);
        }
        let n = self.indptr.len() - 1;
        if r >= n {
            return Err(GraphMatrixError::BoundsError);
        }
        let start = self.indptr[r];
        let end = self.indptr[r + 1];
        proof {
            assert(self.indptr_seq()[r as int] <= self.indptr_seq()[r as int + 1]);
            assert(self.indptr_seq()[r as int + 1] <= self.indptr_seq()[self.n()]);
        }
        Ok(slice_subrange(self.indices.as_slice(), start, end))
    }

    /// The number of columns adjacent to row r; `BoundsError` when r is
    /// not a valid row.
    pub fn row_len(&self, r: usize) -> (res: Result<usize, GraphMatrixError>)
        ensures
            match res {
                Ok(l) => (r as int) < self.n() && l == self.row_seq(r as int).len(),
                Err(e) => e == GraphMatrixError::BoundsError && (r as int) >= self.n(),
            },
    {
        match self.row(r) {
            Ok(s) => Ok(s.len()),
            Err(e) => Err(e),
        }
    }

    /// Whether the edge (r, c) is stored, decided by binary search over
    /// row r's strictly ascending column slice; `BoundsError` when r is
    /// not a valid row.
    pub fn has_index(&self, r: usize, c: usize) -> (res: Result<bool, GraphMatrixError>)
        ensures
            match res {
                Ok(b) => (r as int) < self.n() && (b <==> self.edges().contains((r, c))),
                Err(e) => e == GraphMatrixError::BoundsError && (r as int) >= self.n(),
            },
    {
        let s = match self.row(r) {
            Ok(s) => s,
            Err(e) => {
                return Err(e);
            },
        };
        proof {
            use_type_invariant(self);
            self.lemma_edge_membership(r, c);
            assert(strictly_increasing(self.row_seq(r as int)));
        }
        let mut lo: usize = 0;
        let mut hi: usize = s.len();
        while lo < hi
            invariant
                lo <= hi <= s@.len(),
                (r as int) < self.n(),
                s@ == self.row_seq(r as int),
                strictly_increasing(s@),
                self.edges().contains((r, c)) <==> self.row_seq(r as int).contains(c),
                forall|i: int| 0 <= i < lo as int ==> (#[trigger] s@[i]) < c,
                forall|i: int| hi as int <= i < s@.len() ==> (#[trigger] s@[i]) > c,
            decreases hi - lo,
        {
            let mid = lo + (hi - lo) / 2;
            let x = s[mid];
            if x < c {
                proof {
                    assert forall|i: int| 0 <= i < mid as int + 1 implies (#[trigger] s@[i])
                        < c by {
                        if i < mid as int {
                            assert(s@[i] < s@[mid as int]);
                        }
                    }
                }
                lo = mid + 1;
            } else if x > c {
                proof {
                    assert forall|i: int| mid as int <= i < s@.len() implies (#[trigger] s@[i])
                        > c by {
                        if i > mid as int {
                            assert(s@[mid as int] < s@[i]);
                        }
                    }
                }
                hi = mid;
            } else {
                proof {
                    assert(self.row_seq(r as int)[mid as int] == c);
                    assert(self.row_seq(r as int).contains(c));
                }
                return Ok(true);
            }
        }
        proof {
            assert forall|i: int|
                0 <= i < self.row_seq(r as int).len() implies (#[trigger] self.row_seq(r as int)[i])
                != c by {
                assert(s@[i] != c);
            }
            assert(!self.row_seq(r as int).contains(c));
        }
        Ok(false)
    }

    /// Read-only view of the row-pointer array.
    pub fn indptr(&self) -> (r: &Vec<usize>)
        ensures
            r@ == self.indptr_seq(),
    {
        &self.indptr
    }

    /// Read-only view of the column-index array.
    pub fn indices(&self) -> (r: &Vec<usize>)
        ensures
            r@ == self.indices_seq(),
    {
        &self.indices
    }

    /// Build the matrix from an arbitrary edge list: sort it
    /// lexicographically by (row, column), drop duplicate pairs, infer the
    /// dimension n as one more than the largest row or column value, and
    /// compress. Fails with `InvalidIndex` exactly when the list is empty
    /// (no dimension can be inferred) or when the dimension would overflow
    /// the platform index type.
    ///
    /// On success the stored edges are precisely the distinct pairs of the
    /// input; when the input already held no duplicates, the edge count
    /// equals the input length.
    pub fn from_edgelist(edgelist: Vec<(usize, usize)>) -> (res: Result<
        GraphMatrix,
        GraphMatrixError,
    >)
        ensures
            match res {
                Ok(g) => {
                    &&& edgelist@.len() > 0
                    &&& max_entry(edgelist@) < usize::MAX as int
                    &&& g.n() == max_entry(edgelist@) + 1
                    &&& g.n() == max_entry(g.edges()) + 1
                    &&& strictly_sorted_lex(g.edges())
                    &&& g.edges().to_set() == edgelist@.to_set()
                    &&& g.edges().len() == g.edge_count()
                    &&& edgelist@.no_duplicates() ==> g.edge_count() == edgelist@.len()
                },
                Err(e) => {
                    &&& e == GraphMatrixError::InvalidIndex
                    &&& (edgelist@.len() == 0 || max_entry(edgelist@) == usize::MAX as int)
                },
            },
    {
        let ghost input = edgelist@;
        let sorted_list = sort_pairs(edgelist);
        proof {
            lemma_multiset_eq(sorted_list@, input);
        }
        let d = dedup_pairs(&sorted_list);
        if d.len() == 0 {
            return Err(GraphMatrixError::InvalidIndex);
        }
        let m = max_value(&d);
        proof {
            lemma_max_entry_set_equal(d@, input);
        }
        if m == usize::MAX {
            return Err(GraphMatrixError::InvalidIndex);
        }
        let n = m + 1;
        let dlen = d.len();
        let (rows, cols) = split_pairs(&d);
        proof {
            lemma_max_entry_bound(d@);
            assert forall|i: int, j: int| #![trigger rows@[i], rows@[j]]
                0 <= i < j < rows@.len() implies rows@[i] <= rows@[j] by {
                assert(lex_lt(d@[i], d@[j]));
            }
            assert forall|i: int| 0 <= i < rows@.len() implies (#[trigger] rows@[i] as int)
                < n as int by {
                assert(d@[i].0 <= max_entry(d@));
            }
        }
        let (ia, ja) = compress(&rows, &cols, n);
        proof {
            let len = rows@.len() as int;
            lemma_count_lt_zero(rows@, len);
            assert forall|i: int, j: int| #![trigger ia@[i], ia@[j]]
                0 <= i <= j <= n as int implies ia@[i] <= ia@[j] by {
                lemma_count_lt_mono_v(rows@, len, i, j);
            }
            assert forall|i: int| 0 <= i < len implies (#[trigger] rows@[i] as int)
                < n as int by {
                assert(d@[i].0 <= max_entry(d@));
            }
            lemma_count_lt_all(rows@, len, n as int);
            assert(ia@[n as int] as int == len);
            // each row block carries exactly the pairs with that row value,
            // so its columns ascend strictly and stay below n
            assert forall|r: int| 0 <= r < n as int implies #[trigger] strictly_increasing(
                ja@.subrange(ia@[r] as int, ia@[r + 1] as int),
            ) by {
                lemma_count_lt_mono_v(rows@, len, r, r + 1);
                lemma_count_bounds(rows@, len, r + 1);
                let sub = ja@.subrange(ia@[r] as int, ia@[r + 1] as int);
                assert forall|p: int, q: int| #![trigger sub[p], sub[q]]
                    0 <= p < q < sub.len() implies sub[p] < sub[q] by {
                    let pp = ia@[r] as int + p;
                    let qq = ia@[r] as int + q;
                    lemma_sorted_position(rows@, pp, r);
                    lemma_sorted_position(rows@, pp, r + 1);
                    lemma_sorted_position(rows@, qq, r);
                    lemma_sorted_position(rows@, qq, r + 1);
                    assert(rows@[pp] as int == r && rows@[qq] as int == r);
                    assert(lex_lt(d@[pp], d@[qq]));
                    assert(sub[p] == ja@[pp] && sub[q] == ja@[qq]);
                }
            }
            assert forall|p: int| 0 <= p < ja@.len() implies (#[trigger] ja@[p] as int)
                < n as int by {
                assert(d@[p].1 <= max_entry(d@));
            }
        }
        let g = GraphMatrix { indptr: ia, indices: ja };
        proof {
            let len = rows@.len() as int;
            assert(g.n() == n as int);
            g.lemma_edges_sorted();
            assert forall|k: int| 0 <= k < g.edge_count() implies g.edges()[k] == d@[k] by {
                let r = rows@[k] as int;
                lemma_sorted_position(rows@, k, r);
                lemma_sorted_position(rows@, k, r + 1);
                assert(g.indptr_seq()[r] as int == count_lt(rows@, len, r));
                assert(g.indptr_seq()[r + 1] as int == count_lt(rows@, len, r + 1));
                g.lemma_edge_in_row(r, k);
                assert(g.indices_seq()[k] == cols@[k]);
                assert((r as usize) == rows@[k]);
                assert(d@[k] == (d@[k].0, d@[k].1));
            }
            assert(g.edges() =~= d@);
            lemma_strictly_sorted_no_duplicates(d@);
            if input.no_duplicates() {
                lemma_unique_same_set_same_len(d@, input);
            }
        }
        Ok(g)
    }

    /// The total length of rows 0 .. r.
    pub open spec fn sum_row_lens(self, r: int) -> int
        decreases r,
    {
        if r <= 0 {
            0
        } else {
            self.sum_row_lens(r - 1) + self.row_seq(r - 1).len()
        }
    }

    /// The row lengths, summed over all n rows, equal the edge count.
    pub proof fn lemma_row_lengths_sum(self)
        requires
            self.wf(),
        ensures
            self.sum_row_lens(self.n()) == self.edge_count(),
    {
        self.lemma_sum_row_lens_ip(self.n());
    }

    /// The lengths of rows 0 .. r telescope to indptr[r].
    proof fn lemma_sum_row_lens_ip(self, r: int)
        requires
            self.wf(),
            0 <= r <= self.n(),
        ensures
            self.sum_row_lens(r) == self.indptr_seq()[r],
        decreases r,
    {
        if r > 0 {
            self.lemma_sum_row_lens_ip(r - 1);
            assert(self.indptr_seq()[r - 1] <= self.indptr_seq()[r]);
            assert(self.indptr_seq()[r] <= self.indptr_seq()[self.n()]);
            assert(self.row_seq(r - 1).len() == self.indptr_seq()[r] - self.indptr_seq()[r - 1]);
        }
    }

    /// Positions before indptr[r] hold edges of rows below r; positions
    /// from indptr[r] on hold edges of rows at least r.
    proof fn lemma_ip_split(self, r: int, k: int)
        requires
            self.wf(),
            0 <= r <= self.n(),
            0 <= k < self.edge_count(),
        ensures
            k < self.indptr_seq()[r] as int <==> (self.edges()[k].0 as int) < r,
    {
        let rr = self.lemma_edge_at(k);
        assert((rr as usize) as int == rr);
        if rr < r {
            assert(self.indptr_seq()[rr + 1] <= self.indptr_seq()[r]);
        } else {
            assert(self.indptr_seq()[r] <= self.indptr_seq()[rr]);
        }
    }
}

/// A well-formed matrix is determined by its dimension and its edge
/// sequence: equal edges and an equal dimension force identical
/// row-pointer and column-index arrays.
pub proof fn lemma_matrix_determined(g1: GraphMatrix, g2: GraphMatrix)
    requires
        g1.wf(),
        g2.wf(),
        g1.n() == g2.n(),
        g1.edges() == g2.edges(),
    ensures
        g1.indptr_seq() == g2.indptr_seq(),
        g1.indices_seq() == g2.indices_seq(),
{
    g1.lemma_edges_sorted();
    g2.lemma_edges_sorted();
    assert forall|k: int|
        0 <= k < g1.edge_count() implies g1.indices_seq()[k] == #[trigger] g2.indices_seq()[k] by {
        let r1 = g1.lemma_edge_at(k);
        let r2 = g2.lemma_edge_at(k);
        assert(g1.edges()[k].1 == g1.indices_seq()[k]);
        assert(g2.edges()[k].1 == g2.indices_seq()[k]);
    }
    assert(g1.indices_seq() =~= g2.indices_seq());
    assert forall|r: int|
        0 <= r <= g1.n() implies g1.indptr_seq()[r] == #[trigger] g2.indptr_seq()[r] by {
        assert(g1.indptr_seq()[r] <= g1.indptr_seq()[g1.n()]);
        assert(g2.indptr_seq()[r] <= g2.indptr_seq()[g2.n()]);
        if (g1.indptr_seq()[r] as int) < g2.indptr_seq()[r] as int {
            let k = g1.indptr_seq()[r] as int;
            g1.lemma_ip_split(r, k);
            g2.lemma_ip_split(r, k);
            assert(false);
        }
        if (g2.indptr_seq()[r] as int) < g1.indptr_seq()[r] as int {
            let k = g2.indptr_seq()[r] as int;
            g1.lemma_ip_split(r, k);
            g2.lemma_ip_split(r, k);
            assert(false);
        }
    }
    assert(g1.indptr_seq() =~= g2.indptr_seq());
}

/// Round trip: feeding a matrix's own edges back through construction
/// reproduces the arrays exactly. Two matrices whose dimensions are tight
/// (one more than the largest stored row or column value) and whose edge
/// sets agree are identical.
pub proof fn lemma_round_trip(g1: GraphMatrix, g2: GraphMatrix)
    requires
        g1.wf(),
        g2.wf(),
        g1.edges().to_set() == g2.edges().to_set(),
        g1.n() == max_entry(g1.edges()) + 1,
        g2.n() == max_entry(g2.edges()) + 1,
    ensures
        g1.indptr_seq() == g2.indptr_seq(),
        g1.indices_seq() == g2.indices_seq(),
{
    g1.lemma_edges_sorted();
    g2.lemma_edges_sorted();
    lemma_strictly_sorted_unique(g1.edges(), g2.edges());
    lemma_matrix_determined(g1, g2);
}

} // verus!
