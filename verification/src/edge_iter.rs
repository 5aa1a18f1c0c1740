use vstd::prelude::*;
use crate::matrix::GraphMatrix;

verus! {

/// A cursor over a matrix's stored edges in row-major order. Any number of
/// independent iterators may walk the same matrix; a fresh iterator
/// restarts the walk from the first edge.
#[derive(Debug)]
pub struct GraphMatrixIterator<'a> {
    gm: &'a GraphMatrix,
    curr_rownum: usize,
    curr_colptr: usize,
}

impl<'a> GraphMatrixIterator<'a> {
    /// The matrix being iterated.
    pub closed spec fn matrix(self) -> GraphMatrix {
        *self.gm
    }

    /// The number of edges yielded so far: the global position of the
    /// cursor within the matrix's edge sequence.
    pub closed spec fn pos(self) -> int {
        self.matrix().indptr_seq()[self.curr_rownum as int] + self.curr_colptr
    }

    /// The cursor rests either at the start of some row (possibly the end
    /// of the matrix) or strictly inside a row's block.
    #[verifier::type_invariant]
    spec fn inv(self) -> bool {
        let g = *self.gm;
        &&& self.curr_rownum as int <= g.n()
        &&& (self.curr_colptr == 0 || ((self.curr_rownum as int) < g.n() && g.indptr_seq()[
            self.curr_rownum as int] + self.curr_colptr < g.indptr_seq()[
            self.curr_rownum as int + 1] as int))
    }

    /// A fresh iterator over g, positioned before the first edge.
    pub fn new(g: &'a GraphMatrix) -> (it: GraphMatrixIterator<'a>)
        ensures
            it.matrix() == *g,
            it.pos() == 0,
    {
        proof {
            use_type_invariant(g);
        }
        GraphMatrixIterator { gm: g, curr_rownum: 0, curr_colptr: 0 }
    }

    /// Yield the next stored edge in row-major order, stepping over rows
    /// that hold no edges; `None` once every edge has been produced, and
    /// on every call thereafter.
    pub fn next(&mut self) -> (res: Option<(usize, usize)>)
        ensures
            final(self).matrix() == old(self).matrix(),
            old(self).pos() < old(self).matrix().edge_count() ==> {
                &&& final(self).pos() == old(self).pos() + 1
                &&& res == Some(old(self).matrix().edges()[old(self).pos()])
            },
            old(self).pos() >= old(self).matrix().edge_count() ==> {
                &&& res is None
                &&& final(self).pos() == old(self).pos()
            },
    {
        proof {
            use_type_invariant(&*self);
            use_type_invariant(&*self.gm);
        }
        let ghost g = *self.gm;
        let ghost start_pos = self.pos();
        let dims = self.gm.dims();
        let n: usize = dims.0;
        let r0: usize = self.curr_rownum;
        let c: usize = self.curr_colptr;
        if c > 0 {
            // strictly inside row r0: an element remains at offset c
            proof {
                assert(g.indptr_seq()[r0 as int] <= g.indptr_seq()[r0 as int + 1]);
                assert(g.indptr_seq()[r0 as int + 1] <= g.indptr_seq()[g.n()]);
            }
            let s = self.gm.row(r0).unwrap();
            let col: usize = s[c];
            proof {
                g.lemma_edge_in_row(r0 as int, g.indptr_seq()[r0 as int] + c);
            }
            if c + 1 < s.len() {
                self.curr_colptr = c + 1;
            } else {
                self.curr_colptr = 0;
                self.curr_rownum = r0 + 1;
            }
            return Some((r0, col));
        }
        // at a row boundary: step over rows without edges
        let mut r: usize = r0;
        proof {
            assert(start_pos == g.indptr_seq()[r0 as int] as int);
        }
        while r < n
            invariant
                g == *self.gm,
                n as int == g.n(),
                r as int <= g.n(),
                g.indptr_seq()[r as int] == g.indptr_seq()[r0 as int],
                self.curr_rownum == r0,
                self.curr_colptr == 0,
            ensures
                g == *self.gm,
                n as int == g.n(),
                r as int <= g.n(),
                g.indptr_seq()[r as int] == g.indptr_seq()[r0 as int],
                self.curr_rownum == r0,
                self.curr_colptr == 0,
                r < n ==> g.row_seq(r as int).len() > 0,
            decreases n - r,
        {
            let l = self.gm.row_len(r).unwrap();
            if l > 0 {
                break ;
            }
            proof {
                use_type_invariant(&*self.gm);
                assert(g.indptr_seq()[r as int] <= g.indptr_seq()[r as int + 1]);
                assert(g.indptr_seq()[r as int + 1] <= g.indptr_seq()[g.n()]);
                assert(g.row_seq(r as int).len() == g.indptr_seq()[r as int + 1] - g.indptr_seq()[
                    r as int]);
            }
            r += 1;
        }
        if r >= n {
            // every remaining row was empty: the walk is complete
            proof {
                assert(r as int == g.n());
                assert(start_pos == g.edge_count());
            }
            self.curr_rownum = r;
            return None;
        }
        // row r holds at least one edge; yield its first
        proof {
            assert(g.indptr_seq()[r as int] <= g.indptr_seq()[r as int + 1]);
            assert(g.indptr_seq()[r as int + 1] <= g.indptr_seq()[g.n()]);
            g.lemma_edge_in_row(r as int, g.indptr_seq()[r as int] as int);
        }
        let s = self.gm.row(r).unwrap();
        let col: usize = s[0];
        if s.len() > 1 {
            self.curr_rownum = r;
            self.curr_colptr = 1;
        } else {
            self.curr_rownum = r + 1;
        }
        Some((r, col))
    }
}

} // verus!
