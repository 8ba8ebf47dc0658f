//! The board: a grid of cells, its candidate table, and the solvers that work on them.
use vstd::prelude::*;
use crate::rules::{
    block_free, cand_idx, cell, col_free, complete, consistent, extends, idx, in_grid, in_range,
    is_solution, legal, peers, row_free, same_block, solvable,
};
use crate::rules::{
    lemma_assign_consistent, lemma_block_range, lemma_cand_idx, lemma_cand_idx_unique,
    lemma_free_iff_legal, lemma_idx, lemma_idx_unique, lemma_illegal_excluded,
};
use crate::rules::{first_solution, lex_le};
use crate::rules::{block_once, lemma_solution_each_value_once, row_once, col_once};
use crate::rules::{lemma_complete_solvable, lemma_duplicate_inconsistent, lemma_solvable_consistent, row_has_duplicate};
use crate::rules::{count_true, count_zero, lemma_count_true_clear, lemma_count_zero_fill, lemma_extends_trans};

verus! {

/// The largest edge whose values still fit a byte and whose edge is a perfect square.
pub const MAX_SIZE: usize = 225;

/// Which algorithm `solve` runs.
pub enum SolvingMethod {
    /// Backtracking alone.
    Naive,
    /// Constraint propagation to a fixpoint, then backtracking.
    BaxStrat,
}

/// Why a board could not be built or filled.
#[derive(Debug, PartialEq, Eq, Structural)]
pub enum BoardError {
    /// The edge is zero, not a perfect square, or larger than `MAX_SIZE`.
    Configuration,
    /// The number of values given is not `size * size`.
    InputShape,
    /// A value given lies outside `[0, size]`.
    ValueRange,
}

/// `k` is the square of a natural number.
pub open spec fn is_square(k: int) -> bool {
    exists|j: int| 0 <= j && #[trigger] (j * j) == k
}

/// An N×N board: its cells in row-major order, 0 for an empty cell, and for each
/// cell a table of the values still possible there.
pub struct Board {
    cells: Vec<u8>,
    size: usize,
    segment_size: usize,
    memory: Vec<bool>,
    max_val: u8,
}

impl Board {
    /// The edge length N.
    pub closed spec fn n(&self) -> int {
        self.size as int
    }

    /// The block edge, the square root of N.
    pub closed spec fn seg(&self) -> int {
        self.segment_size as int
    }

    /// The cells, row-major, 0 for an empty cell.
    pub closed spec fn grid(&self) -> Seq<u8> {
        self.cells@
    }

    /// Whether `v` is still a candidate of cell `(r, c)`.
    pub closed spec fn cand(&self, r: int, c: int, v: int) -> bool {
        self.memory@[cand_idx(self.size as int, r, c, v)]
    }

    /// The shape fields agree, the cells and the candidate table have their full
    /// lengths, and every cell holds a value in `[0, N]`.
    pub closed spec fn wf(&self) -> bool {
        &&& 1 <= self.size <= MAX_SIZE
        &&& self.segment_size * self.segment_size == self.size
        &&& self.max_val == self.size + 1
        &&& self.cells@.len() == self.size * self.size
        &&& self.memory@.len() == self.size * self.size * (self.size + 1)
        &&& in_range(self.cells@, self.size as int)
    }

    /// Bounds that follow from well-formedness.
    proof fn lemma_wf(&self)
        requires
            self.wf(),
        ensures
            1 <= self.seg() <= 15,
            self.n() * self.n() <= MAX_SIZE * MAX_SIZE,
            self.n() * self.n() * (self.n() + 1) <= MAX_SIZE * MAX_SIZE * (MAX_SIZE + 1),
            self.grid().len() == self.n() * self.n(),
    {
        let s = self.segment_size as int;
        let n = self.size as int;
        assert(1 <= s <= 15) by (nonlinear_arith)
            requires s * s == n, 1 <= n <= 225, s >= 0;
        assert(n * n <= 225 * 225) by (nonlinear_arith)
            requires 1 <= n <= 225;
        assert(n * n * (n + 1) <= 225 * 225 * 226) by (nonlinear_arith)
            requires 1 <= n <= 225;
    }

    /// Builds an all-empty board of edge `size`.
    pub fn init(size: usize) -> (r: Result<Board, BoardError>)
        ensures
            r is Ok <==> (1 <= size <= MAX_SIZE && is_square(size as int)),
            r is Err ==> r == Err::<Board, BoardError>(BoardError::Configuration),
            r matches Ok(b) ==> {
                &&& b.wf()
                &&& b.n() == size
                &&& b.seg() * b.seg() == size
                &&& b.grid().len() == size * size
                &&& forall|i: int| 0 <= i < b.grid().len() ==> #[trigger] b.grid()[i] == 0
                &&& forall|r: int, c: int, v: int| in_grid(size as int, r, c) && 0 <= v <= size
                        ==> !#[trigger] b.cand(r, c, v)
            },
    {
        if size == 0 || size > MAX_SIZE {
            return Err(BoardError::Configuration);
        }
        let mut s: usize = 0;
        while s * s < size
            invariant
                1 <= size <= MAX_SIZE,
                s <= 15,
                s * s <= 225,
                forall|k: int| 0 <= k < s ==> #[trigger] (k * k) < size,
            decreases 16 - s,
        {
            assert(s < 15) by (nonlinear_arith)
                requires s * s < size, size <= 225, s >= 0;
            assert((s + 1) * (s + 1) <= 225) by (nonlinear_arith)
                requires s < 15;
            s = s + 1;
        }
        if s * s != size {
            proof {
                assert forall|j: int| 0 <= j implies #[trigger] (j * j) != size as int by {
                    if j >= s {
                        assert(j * j >= s * s) by (nonlinear_arith)
                            requires j >= s, s >= 0;
                    }
                }
            }
            return Err(BoardError::Configuration);
        }
        assert(size * size <= 225 * 225) by (nonlinear_arith)
            requires 1 <= size <= 225;
        let n2 = size * size;
        let mut cells: Vec<u8> = Vec::new();
        while cells.len() < n2
            invariant
                n2 == size * size,
                cells@.len() <= n2,
                forall|i: int| 0 <= i < cells@.len() ==> #[trigger] cells@[i] == 0,
            decreases n2 - cells@.len(),
        {
            cells.push(0);
        }
        assert(size * size * (size + 1) <= 225 * 225 * 226) by (nonlinear_arith)
            requires 1 <= size <= 225;
        let total = n2 * (size + 1);
        let mut memory: Vec<bool> = Vec::new();
        while memory.len() < total
            invariant
                memory@.len() <= total,
                forall|i: int| 0 <= i < memory@.len() ==> !#[trigger] memory@[i],
            decreases total - memory@.len(),
        {
            memory.push(false);
        }
        let b = Board { cells, size, segment_size: s, memory, max_val: (size + 1) as u8 };
        proof {
            assert forall|r: int, c: int, v: int| in_grid(size as int, r, c) && 0 <= v <= size
                implies !#[trigger] b.cand(r, c, v) by {
                lemma_cand_idx(size as int, r, c, v);
            }
        }
        Ok(b)
    }

    /// Fills the board row-major from `values`.
    pub fn loads(&mut self, values: Vec<u8>) -> (r: Result<(), BoardError>)
        requires
            old(self).wf(),
        ensures
            final(self).wf(),
            final(self).n() == old(self).n(),
            final(self).seg() == old(self).seg(),
            r is Ok <==> (values@.len() == old(self).n() * old(self).n() && in_range(values@, old(self).n())),
            r == Err::<(), BoardError>(BoardError::InputShape) <==> values@.len() != old(self).n() * old(self).n(),
            r == Err::<(), BoardError>(BoardError::ValueRange) <==> (values@.len() == old(self).n() * old(self).n()
                && !in_range(values@, old(self).n())),
            r is Ok ==> final(self).grid() == values@,
            r is Err ==> final(self).grid() == old(self).grid(),
            forall|r: int, c: int, v: int| #[trigger] final(self).cand(r, c, v) == old(self).cand(r, c, v),
    {
        proof {
            self.lemma_wf();
        }
        if values.len() != self.size * self.size {
            return Err(BoardError::InputShape);
        }
        let mut i: usize = 0;
        while i < values.len()
            invariant
                *self == *old(self),
                self.wf(),
                values@.len() == self.size * self.size,
                i <= values@.len(),
                forall|k: int| 0 <= k < i ==> #[trigger] values@[k] <= self.size,
            decreases values@.len() - i,
        {
            if values[i] as usize > self.size {
                return Err(BoardError::ValueRange);
            }
            i = i + 1;
        }
        self.cells = values;
        Ok(())
    }

    /// The value of cell `(row, col)`.
    fn at(&self, row: usize, col: usize) -> (v: u8)
        requires
            self.wf(),
            row < self.n(),
            col < self.n(),
        ensures
            v == cell(self.grid(), self.n(), row as int, col as int),
            v <= self.n(),
    {
        proof {
            lemma_idx(self.n(), row as int, col as int);
            self.lemma_wf();
        }
        self.cells[row * self.size + col]
    }

    /// Writes `v` into cell `(row, col)`.
    fn set_cell(&mut self, row: usize, col: usize, v: u8)
        requires
            old(self).wf(),
            row < old(self).n(),
            col < old(self).n(),
            v <= old(self).n(),
        ensures
            final(self).wf(),
            final(self).grid() == old(self).grid().update(idx(old(self).n(), row as int, col as int), v),
            final(self).same_shape(*old(self)),
            final(self).memory == old(self).memory,
    {
        proof {
            lemma_idx(self.n(), row as int, col as int);
            self.lemma_wf();
        }
        let i = row * self.size + col;
        self.cells.set(i, v);
    }

    /// Same edge, block edge and value bound.
    pub closed spec fn same_shape(&self, other: Board) -> bool {
        &&& self.size == other.size
        &&& self.segment_size == other.segment_size
        &&& self.max_val == other.max_val
    }

    /// Whether `val` is absent from row `pos_y`, the cell `(pos_y, pos_x)` aside.
    fn check_row(&self, val: u8, pos_y: usize, pos_x: usize) -> (b: bool)
        requires
            self.wf(),
            pos_y < self.n(),
            pos_x < self.n(),
        ensures
            b == row_free(self.grid(), self.n(), val as int, pos_y as int, pos_x as int),
    {
        let mut col: usize = 0;
        while col < self.size
            invariant
                self.wf(),
                pos_y < self.n(),
                col <= self.size,
                forall|c: int| 0 <= c < col && c != pos_x ==> #[trigger] cell(self.grid(), self.n(), pos_y as int, c) != val,
            decreases self.size - col,
        {
            if col != pos_x && self.at(pos_y, col) == val {
                return false;
            }
            col = col + 1;
        }
        true
    }

    /// Whether `val` is absent from column `pos_x`, the cell `(pos_y, pos_x)` aside.
    fn check_col(&self, val: u8, pos_y: usize, pos_x: usize) -> (b: bool)
        requires
            self.wf(),
            pos_y < self.n(),
            pos_x < self.n(),
        ensures
            b == col_free(self.grid(), self.n(), val as int, pos_y as int, pos_x as int),
    {
        let mut row: usize = 0;
        while row < self.size
            invariant
                self.wf(),
                pos_x < self.n(),
                row <= self.size,
                forall|r: int| 0 <= r < row && r != pos_y ==> #[trigger] cell(self.grid(), self.n(), r, pos_x as int) != val,
            decreases self.size - row,
        {
            if row != pos_y && self.at(row, pos_x) == val {
                return false;
            }
            row = row + 1;
        }
        true
    }

    /// The first row (or column) of the block holding line `i`, and one past its last.
    fn block_bounds(&self, i: usize) -> (r: (usize, usize))
        requires
            self.wf(),
            i < self.n(),
        ensures
            r.0 == (i as int / self.seg()) * self.seg(),
            r.1 == r.0 + self.seg(),
            r.1 <= self.n(),
            forall|k: int| r.0 <= k < r.1 <==> #[trigger] (k / self.seg()) == i as int / self.seg(),
    {
        proof {
            self.lemma_wf();
        }
        let s = self.segment_size;
        let b = i / s;
        assert(b < s) by (nonlinear_arith)
            requires b == i / s, i < s * s, s >= 1;
        assert(b * s + s <= s * s) by (nonlinear_arith)
            requires b < s, s >= 1;
        proof {
            assert forall|k: int| b * s <= k < b * s + s <==> #[trigger] (k / s as int) == b as int by {
                lemma_block_range(s as int, b as int, k);
            }
        }
        (b * s, b * s + s)
    }

    /// Whether `val` is absent from every other cell of the block of `(row, col)`.
    fn check_block(&self, val: u8, col: usize, row: usize) -> (b: bool)
        requires
            self.wf(),
            row < self.n(),
            col < self.n(),
        ensures
            b == block_free(self.grid(), self.n(), self.seg(), val as int, row as int, col as int),
    {
        proof {
            self.lemma_wf();
        }
        let (row_start, row_end) = self.block_bounds(row);
        let (col_start, col_end) = self.block_bounds(col);
        let ghost g = self.grid();
        let ghost n = self.n();
        let ghost s = self.seg();
        let mut row_prime = row_start;
        while row_prime < row_end
            invariant
                self.wf(),
                g == self.grid(), n == self.n(), s == self.seg(),
                row < n, col < n,
                row_start <= row_prime <= row_end,
                row_end == row_start + s, col_end == col_start + s, s >= 1,
                row_end <= n, col_end <= n,
                forall|k: int| row_start <= k < row_end <==> #[trigger] (k / s) == row as int / s,
                forall|k: int| col_start <= k < col_end <==> #[trigger] (k / s) == col as int / s,
                forall|r2: int, c2: int|
                    row_start <= r2 < row_prime && col_start <= c2 < col_end && !(r2 == row && c2 == col)
                        ==> #[trigger] cell(g, n, r2, c2) != val,
            decreases row_end - row_prime,
        {
            let mut col_prime = col_start;
            while col_prime < col_end
                invariant
                    self.wf(),
                    g == self.grid(), n == self.n(), s == self.seg(),
                    row < n, col < n,
                    row_start <= row_prime < row_end,
                    col_start <= col_prime <= col_end,
                    row_end == row_start + s, col_end == col_start + s,
                    row_end <= n, col_end <= n,
                    forall|k: int| row_start <= k < row_end <==> #[trigger] (k / s) == row as int / s,
                    forall|k: int| col_start <= k < col_end <==> #[trigger] (k / s) == col as int / s,
                    forall|r2: int, c2: int|
                        row_start <= r2 < row_prime && col_start <= c2 < col_end && !(r2 == row && c2 == col)
                            ==> #[trigger] cell(g, n, r2, c2) != val,
                    forall|c2: int|
                        col_start <= c2 < col_prime && !(row_prime == row && c2 == col)
                            ==> #[trigger] cell(g, n, row_prime as int, c2) != val,
                decreases col_end - col_prime,
            {
                if !(col_prime == col && row_prime == row) {
                    if self.at(row_prime, col_prime) == val {
                        assert((row_prime as int / s) == row as int / s);
                        assert((col_prime as int / s) == col as int / s);
                        return false;
                    }
                }
                col_prime = col_prime + 1;
            }
            row_prime = row_prime + 1;
        }
        proof {
            assert forall|r2: int, c2: int|
                in_grid(n, r2, c2) && same_block(s, row as int, col as int, r2, c2) && !(r2 == row && c2 == col)
                    implies #[trigger] cell(g, n, r2, c2) != val by {
                assert((r2 / s) == row as int / s);
                assert((c2 / s) == col as int / s);
            }
        }
        true
    }

    /// Whether `val` may stand at `(row, col)`: no other cell of its row, its column or
    /// its block holds it.
    fn check(&self, val: u8, col: usize, row: usize) -> (b: bool)
        requires
            self.wf(),
            row < self.n(),
            col < self.n(),
        ensures
            b == legal(self.grid(), self.n(), self.seg(), val as int, row as int, col as int),
    {
        proof {
            lemma_free_iff_legal(self.grid(), self.n(), self.seg(), val as int, row as int, col as int);
        }
        self.check_row(val, row, col) && self.check_col(val, row, col) && self.check_block(val, col, row)
    }

    /// Backtracking from cell `(row, col)` on, in row-major order, trying values in
    /// ascending order; every cell before `(row, col)` is already assigned.
    fn solve_naive(&mut self, row: usize, col: usize) -> (r: bool)
        requires
            old(self).wf(),
            (row == 0 && col == 0) || consistent(old(self).grid(), old(self).n(), old(self).seg()),
            row <= old(self).n(),
            row < old(self).n() ==> col < old(self).n(),
            row == old(self).n() ==> col == 0,
            forall|i: int| 0 <= i < idx(old(self).n(), row as int, col as int) ==> #[trigger] old(self).grid()[i] != 0,
        ensures
            final(self).wf(),
            final(self).same_shape(*old(self)),
            final(self).memory == old(self).memory,
            r ==> is_solution(final(self).grid(), final(self).n(), final(self).seg()),
            r ==> extends(old(self).grid(), final(self).grid()),
            !r ==> final(self).grid() == old(self).grid(),
            r <==> solvable(old(self).grid(), old(self).n(), old(self).seg()),
            r ==> first_solution(final(self).grid(), old(self).grid(), old(self).n(), old(self).seg()),
            !consistent(old(self).grid(), old(self).n(), old(self).seg()) ==> !r,
        decreases old(self).size - row, old(self).size - col,
    {
        let ghost g0 = self.grid();
        let ghost n = self.n();
        let ghost s = self.seg();
        proof {
            self.lemma_wf();
            if solvable(g0, n, s) {
                lemma_solvable_consistent(g0, n, s);
            }
        }
        if row == 0 && col == 0 && !self.grid_consistent() {
            return false;
        }
        if row >= self.size {
            proof {
                assert(idx(n, n, 0) == n * n);
                assert(is_solution(g0, n, s));
                assert(extends(g0, g0));
                assert forall|h2: Seq<u8>| #[trigger] is_solution(h2, n, s) && extends(g0, h2) implies lex_le(g0, h2) by {
                    assert(g0 =~= h2);
                }
            }
            return true;
        }
        proof {
            lemma_idx(n, row as int, col as int);
        }
        let p = Ghost(idx(n, row as int, col as int));
        if self.at(row, col) != 0 {
            if col + 1 >= self.size {
                return self.solve_naive(row + 1, 0);
            } else {
                return self.solve_naive(row, col + 1);
            }
        }
        let mut val: u8 = 1;
        while val < self.max_val
            invariant
                self.wf(),
                self.same_shape(*old(self)),
                self.memory == old(self).memory,
                self.grid() == g0,
                n == self.n(), s == self.seg(),
                g0 == old(self).grid(),
                row < n, col < n,
                p@ == idx(n, row as int, col as int),
                0 <= p@ < n * n,
                g0[p@] == 0,
                consistent(g0, n, s),
                forall|i: int| 0 <= i < p@ ==> #[trigger] g0[i] != 0,
                p@ + 1 == if col + 1 < n { idx(n, row as int, col as int + 1) } else { idx(n, row as int + 1, 0) },
                1 <= val <= self.max_val,
                forall|h: Seq<u8>| is_solution(h, n, s) && extends(g0, h) ==> #[trigger] h[p@] >= val,
            decreases self.max_val - val,
        {
            if self.check(val, col, row) {
                self.set_cell(row, col, val);
                let ghost g1 = self.grid();
                proof {
                    lemma_assign_consistent(g0, n, s, val, row as int, col as int);
                    assert forall|i: int| 0 <= i < p@ + 1 implies #[trigger] g1[i] != 0 by {}
                }
                let ok = if col + 1 >= self.size {
                    self.solve_naive(row + 1, 0)
                } else {
                    self.solve_naive(row, col + 1)
                };
                if ok {
                    proof {
                        let gf = self.grid();
                        assert forall|i: int| 0 <= i < g0.len() && #[trigger] g0[i] != 0 implies gf[i] == g0[i] by {
                            assert(g1[i] == g0[i]);
                        }
                        assert(is_solution(gf, n, s) && extends(g0, gf));
                        assert(g1[p@] == val);
                        assert(gf[p@] == val);
                        assert forall|h2: Seq<u8>| #[trigger] is_solution(h2, n, s) && extends(g0, h2) implies lex_le(gf, h2) by {
                            if h2[p@] == val {
                                assert forall|i: int| 0 <= i < g1.len() && #[trigger] g1[i] != 0 implies h2[i] == g1[i] by {
                                    if i != p@ {
                                        assert(g0[i] == g1[i]);
                                    }
                                }
                                assert(extends(g1, h2));
                            } else {
                                assert(h2[p@] > val);
                                assert forall|j: int| 0 <= j < p@ implies #[trigger] gf[j] == h2[j] by {
                                    assert(g0[j] != 0);
                                }
                            }
                        }
                    }
                    return true;
                }
                self.set_cell(row, col, 0);
                proof {
                    assert(self.grid() =~= g0);
                    assert forall|h: Seq<u8>| is_solution(h, n, s) && extends(g0, h) implies #[trigger] h[p@] >= val + 1 by {
                        if h[p@] == val {
                            assert forall|i: int| 0 <= i < g1.len() && #[trigger] g1[i] != 0 implies h[i] == g1[i] by {
                                if i != p@ {
                                    assert(g0[i] == g1[i]);
                                }
                            }
                            assert(extends(g1, h));
                        }
                    }
                }
            } else {
                proof {
                    assert forall|h: Seq<u8>| is_solution(h, n, s) && extends(g0, h) implies #[trigger] h[p@] >= val + 1 by {
                        lemma_illegal_excluded(g0, h, n, s, val as int, row as int, col as int);
                    }
                }
            }
            val = val + 1;
        }
        proof {
            assert forall|h: Seq<u8>| is_solution(h, n, s) implies !extends(g0, h) by {
                if extends(g0, h) {
                    assert(h[p@] >= val);
                    assert(h[p@] <= n);
                }
            }
        }
        false
    }

    /// Candidates left plus empty cells: every propagation step lowers it.
    pub closed spec fn measure(&self) -> nat {
        count_true(self.memory@) + count_zero(self.cells@)
    }

    /// Every candidate still listed for an empty cell is legal there.
    pub closed spec fn sound(&self) -> bool {
        forall|r: int, c: int, v: int|
            in_grid(self.n(), r, c) && 1 <= v <= self.n() && cell(self.grid(), self.n(), r, c) == 0
                && #[trigger] self.cand(r, c, v) ==> legal(self.grid(), self.n(), self.seg(), v, r, c)
    }

    /// The candidate table is that of `before` with the entries that `gone` picks cleared.
    pub closed spec fn removed(&self, before: Board, gone: spec_fn(int, int, int) -> bool) -> bool {
        forall|r: int, c: int, v: int|
            in_grid(self.n(), r, c) && 0 <= v <= self.n()
                ==> #[trigger] self.cand(r, c, v) == (before.cand(r, c, v) && !gone(r, c, v))
    }

    /// The block of `(row, col)` spans rows `[rs, re)` and columns `[cs, ce)`.
    pub closed spec fn block_of(&self, row: int, col: int, rs: int, re: int, cs: int, ce: int) -> bool {
        &&& rs == (row / self.seg()) * self.seg()
        &&& re == rs + self.seg()
        &&& cs == (col / self.seg()) * self.seg()
        &&& ce == cs + self.seg()
        &&& re <= self.n()
        &&& ce <= self.n()
        &&& forall|k: int| rs <= k < re <==> #[trigger] (k / self.seg()) == row / self.seg()
        &&& forall|k: int| cs <= k < ce <==> #[trigger] (k / self.seg()) == col / self.seg()
    }

    /// Whether `v` is a candidate of `(r, c)`.
    fn has(&self, r: usize, c: usize, v: u8) -> (b: bool)
        requires
            self.wf(),
            r < self.n(),
            c < self.n(),
            v <= self.n(),
        ensures
            b == self.cand(r as int, c as int, v as int),
    {
        proof {
            lemma_cand_idx(self.n(), r as int, c as int, v as int);
            lemma_idx(self.n(), r as int, c as int);
            self.lemma_wf();
        }
        self.memory[(r * self.size + c) * (self.size + 1) + v as usize]
    }

    /// Strikes `v` from the candidates of `(r, c)`.
    fn drop_cand(&mut self, r: usize, c: usize, v: u8)
        requires
            old(self).wf(),
            r < old(self).n(),
            c < old(self).n(),
            v <= old(self).n(),
        ensures
            final(self).wf(),
            final(self).same_shape(*old(self)),
            final(self).grid() == old(self).grid(),
            final(self).removed(*old(self), |r2: int, c2: int, v2: int| r2 == r && c2 == c && v2 == v),
            final(self).measure() == old(self).measure() - if old(self).cand(r as int, c as int, v as int) { 1int } else { 0int },
    {
        let ghost n = self.n();
        proof {
            lemma_cand_idx(n, r as int, c as int, v as int);
            lemma_idx(n, r as int, c as int);
            self.lemma_wf();
            lemma_count_true_clear(self.memory@, cand_idx(n, r as int, c as int, v as int));
        }
        let i = (r * self.size + c) * (self.size + 1) + v as usize;
        self.memory.set(i, false);
        proof {
            assert forall|r2: int, c2: int, v2: int|
                in_grid(n, r2, c2) && 0 <= v2 <= n implies #[trigger] self.cand(r2, c2, v2)
                    == (old(self).cand(r2, c2, v2) && !(r2 == r && c2 == c && v2 == v)) by {
                lemma_cand_idx(n, r2, c2, v2);
                if cand_idx(n, r2, c2, v2) == cand_idx(n, r as int, c as int, v as int) {
                    lemma_cand_idx_unique(n, r2, c2, v2, r as int, c as int, v as int);
                }
            }
        }
    }

    /// Strikes `val` from the candidates of every cell of row `row`.
    fn mem_row_remove(&mut self, val: u8, row: usize)
        requires
            old(self).wf(),
            row < old(self).n(),
            val <= old(self).n(),
        ensures
            final(self).wf(),
            final(self).same_shape(*old(self)),
            final(self).grid() == old(self).grid(),
            final(self).removed(*old(self), |r: int, c: int, v: int| r == row && v == val),
            final(self).measure() <= old(self).measure(),
    {
        let mut i: usize = 0;
        while i < self.size
            invariant
                self.wf(),
                self.same_shape(*old(self)),
                self.grid() == old(self).grid(),
                row < self.n(), val <= self.n(),
                i <= self.n(),
                self.removed(*old(self), |r: int, c: int, v: int| r == row && c < i && v == val),
                self.measure() <= old(self).measure(),
            decreases self.size - i,
        {
            self.drop_cand(row, i, val);
            i = i + 1;
        }
    }

    /// Strikes `val` from the candidates of every cell of column `col`.
    fn mem_col_remove(&mut self, val: u8, col: usize)
        requires
            old(self).wf(),
            col < old(self).n(),
            val <= old(self).n(),
        ensures
            final(self).wf(),
            final(self).same_shape(*old(self)),
            final(self).grid() == old(self).grid(),
            final(self).removed(*old(self), |r: int, c: int, v: int| c == col && v == val),
            final(self).measure() <= old(self).measure(),
    {
        let mut i: usize = 0;
        while i < self.size
            invariant
                self.wf(),
                self.same_shape(*old(self)),
                self.grid() == old(self).grid(),
                col < self.n(), val <= self.n(),
                i <= self.n(),
                self.removed(*old(self), |r: int, c: int, v: int| c == col && r < i && v == val),
                self.measure() <= old(self).measure(),
            decreases self.size - i,
        {
            self.drop_cand(i, col, val);
            i = i + 1;
        }
    }

    /// Strikes `val` from the candidates of every cell in rows `[block_start_row_index,
    /// block_end_row_index)` and columns `[block_start_col_index, block_end_col_index)`.
    fn mem_block_remove(
        &mut self,
        val: u8,
        block_start_row_index: usize,
        block_end_row_index: usize,
        block_start_col_index: usize,
        block_end_col_index: usize,
    )
        requires
            old(self).wf(),
            val <= old(self).n(),
            block_start_row_index <= block_end_row_index <= old(self).n(),
            block_start_col_index <= block_end_col_index <= old(self).n(),
        ensures
            final(self).wf(),
            final(self).same_shape(*old(self)),
            final(self).grid() == old(self).grid(),
            final(self).removed(*old(self), |r: int, c: int, v: int|
                block_start_row_index <= r < block_end_row_index
                    && block_start_col_index <= c < block_end_col_index && v == val),
            final(self).measure() <= old(self).measure(),
    {
        let mut row_ind = block_start_row_index;
        while row_ind < block_end_row_index
            invariant
                self.wf(),
                self.same_shape(*old(self)),
                self.grid() == old(self).grid(),
                val <= self.n(),
                block_start_row_index <= row_ind <= block_end_row_index <= self.n(),
                block_start_col_index <= block_end_col_index <= self.n(),
                self.removed(*old(self), |r: int, c: int, v: int|
                    block_start_row_index <= r < row_ind
                        && block_start_col_index <= c < block_end_col_index && v == val),
                self.measure() <= old(self).measure(),
            decreases block_end_row_index - row_ind,
        {
            let ghost mid = *self;
            let mut col_ind = block_start_col_index;
            while col_ind < block_end_col_index
                invariant
                    self.wf(),
                    self.same_shape(*old(self)),
                    self.grid() == old(self).grid(),
                    val <= self.n(),
                    block_start_row_index <= row_ind < block_end_row_index <= self.n(),
                    block_start_col_index <= col_ind <= block_end_col_index <= self.n(),
                    self.removed(*old(self), |r: int, c: int, v: int|
                        ((block_start_row_index <= r < row_ind
                            && block_start_col_index <= c < block_end_col_index)
                            || (r == row_ind && block_start_col_index <= c < col_ind)) && v == val),
                    self.measure() <= old(self).measure(),
                decreases block_end_col_index - col_ind,
            {
                self.drop_cand(row_ind, col_ind, val);
                col_ind = col_ind + 1;
            }
            row_ind = row_ind + 1;
        }
    }

    /// Strikes `val` from the row, the column and the block of a cell.
    fn mem_remove(
        &mut self,
        val: u8,
        row: usize,
        col: usize,
        block_start_row_index: usize,
        block_end_row_index: usize,
        block_start_col_index: usize,
        block_end_col_index: usize,
    )
        requires
            old(self).wf(),
            row < old(self).n(),
            col < old(self).n(),
            val <= old(self).n(),
            block_start_row_index <= block_end_row_index <= old(self).n(),
            block_start_col_index <= block_end_col_index <= old(self).n(),
        ensures
            final(self).wf(),
            final(self).same_shape(*old(self)),
            final(self).grid() == old(self).grid(),
            final(self).removed(*old(self), |r: int, c: int, v: int| v == val && (r == row || c == col
                || (block_start_row_index <= r < block_end_row_index
                    && block_start_col_index <= c < block_end_col_index))),
            final(self).measure() <= old(self).measure(),
    {
        self.mem_row_remove(val, row);
        self.mem_col_remove(val, col);
        self.mem_block_remove(
            val,
            block_start_row_index,
            block_end_row_index,
            block_start_col_index,
            block_end_col_index,
        );
    }

    /// Strikes every candidate of `(row, col)`.
    fn clear_cands(&mut self, row: usize, col: usize)
        requires
            old(self).wf(),
            row < old(self).n(),
            col < old(self).n(),
        ensures
            final(self).wf(),
            final(self).same_shape(*old(self)),
            final(self).grid() == old(self).grid(),
            final(self).removed(*old(self), |r: int, c: int, v: int| r == row && c == col),
            final(self).measure() <= old(self).measure(),
    {
        let mut v: u8 = 0;
        while v < self.max_val
            invariant
                self.wf(),
                self.same_shape(*old(self)),
                self.grid() == old(self).grid(),
                row < self.n(), col < self.n(),
                v <= self.max_val,
                self.removed(*old(self), |r: int, c: int, w: int| r == row && c == col && w < v),
                self.measure() <= old(self).measure(),
            decreases self.max_val - v,
        {
            self.drop_cand(row, col, v);
            v = v + 1;
        }
    }

    /// Placing a candidate in an empty cell, then striking it from the cell's row, column
    /// and block, keeps the candidates sound and the grid consistent.
    proof fn lemma_assign_sound(before: Board, after: Board, row: int, col: int, val: u8, rs: int, re: int, cs: int, ce: int)
        requires
            before.wf(),
            after.wf(),
            after.same_shape(before),
            before.sound(),
            consistent(before.grid(), before.n(), before.seg()),
            in_grid(before.n(), row, col),
            cell(before.grid(), before.n(), row, col) == 0,
            1 <= val <= before.n(),
            before.cand(row, col, val as int),
            before.block_of(row, col, rs, re, cs, ce),
            after.grid() == before.grid().update(idx(before.n(), row, col), val),
            forall|r: int, c: int, v: int| in_grid(before.n(), r, c) && 0 <= v <= before.n() && #[trigger] after.cand(r, c, v)
                ==> before.cand(r, c, v),
            forall|r: int, c: int| in_grid(before.n(), r, c) && (r == row || c == col || (rs <= r < re && cs <= c < ce))
                ==> !#[trigger] after.cand(r, c, val as int),
        ensures
            after.sound(),
            consistent(after.grid(), after.n(), after.seg()),
            extends(before.grid(), after.grid()),
            count_zero(after.grid()) + 1 == count_zero(before.grid()),
    {
        let n = before.n();
        let s = before.seg();
        let g = before.grid();
        let g2 = after.grid();
        before.lemma_wf();
        lemma_idx(n, row, col);
        lemma_count_zero_fill(g, idx(n, row, col), val);
        lemma_assign_consistent(g, n, s, val, row, col);
        assert forall|r: int, c: int, v: int|
            in_grid(n, r, c) && 1 <= v <= n && cell(g2, n, r, c) == 0 && #[trigger] after.cand(r, c, v)
                implies legal(g2, n, s, v, r, c) by {
            lemma_idx(n, r, c);
            if idx(n, r, c) == idx(n, row, col) {
                lemma_idx_unique(n, r, c, row, col);
            }
            assert(cell(g, n, r, c) == 0);
            assert(legal(g, n, s, v, r, c));
            assert forall|r2: int, c2: int| in_grid(n, r2, c2) && peers(s, r, c, r2, c2)
                implies #[trigger] cell(g2, n, r2, c2) != v by {
                lemma_idx(n, r2, c2);
                if idx(n, r2, c2) == idx(n, row, col) {
                    lemma_idx_unique(n, r2, c2, row, col);
                    if v == val {
                        if r != row && c != col {
                            assert(r / s == row / s);
                            assert(c / s == col / s);
                        }
                    }
                } else {
                    assert(cell(g, n, r2, c2) != v);
                }
            }
        }
        assert forall|i: int| 0 <= i < g.len() && #[trigger] g[i] != 0 implies g2[i] == g[i] by {}
    }

    /// Hidden single: when `(row, col)` is the only cell of its block that still lists
    /// `val`, assigns `val` there and strikes it from the cell's row, column and block.
    fn only_val_in_block(
        &mut self,
        val: u8,
        row: usize,
        col: usize,
        block_start_row_index: usize,
        block_end_row_index: usize,
        block_start_col_index: usize,
        block_end_col_index: usize,
    ) -> (r: bool)
        requires
            old(self).wf(),
            old(self).sound(),
            consistent(old(self).grid(), old(self).n(), old(self).seg()),
            row < old(self).n(),
            col < old(self).n(),
            1 <= val <= old(self).n(),
            old(self).block_of(row as int, col as int, block_start_row_index as int, block_end_row_index as int,
                block_start_col_index as int, block_end_col_index as int),
        ensures
            final(self).wf(),
            final(self).same_shape(*old(self)),
            final(self).sound(),
            consistent(final(self).grid(), final(self).n(), final(self).seg()),
            extends(old(self).grid(), final(self).grid()),
            r == (cell(old(self).grid(), old(self).n(), row as int, col as int) == 0 && old(self).hidden_single(val as int, row as int, col as int, block_start_row_index as int,
                block_end_row_index as int, block_start_col_index as int, block_end_col_index as int)),
            !r ==> *final(self) == *old(self),
            r ==> final(self).grid() == old(self).grid().update(idx(old(self).n(), row as int, col as int), val),
            r ==> final(self).removed(*old(self), |r2: int, c2: int, v2: int| (r2 == row && c2 == col)
                || (v2 == val && (r2 == row || c2 == col || (block_start_row_index <= r2 < block_end_row_index
                    && block_start_col_index <= c2 < block_end_col_index)))),
            r ==> final(self).measure() < old(self).measure(),
            forall|h: Seq<u8>| is_solution(h, old(self).n(), old(self).seg()) && #[trigger] old(self).accepts(h)
                ==> final(self).accepts(h),
    {
        if self.at(row, col) != 0 || !self.has(row, col, val) {
            return false;
        }
        let mut row_ind = block_start_row_index;
        while row_ind < block_end_row_index
            invariant
                *self == *old(self),
                self.wf(),
                self.sound(),
                consistent(self.grid(), self.n(), self.seg()),
                row < self.n(), col < self.n(), 1 <= val <= self.n(),
                cell(self.grid(), self.n(), row as int, col as int) == 0,
                block_start_row_index <= row_ind <= block_end_row_index <= self.n(),
                block_start_col_index <= block_end_col_index <= self.n(),
                forall|r2: int, c2: int|
                    block_start_row_index <= r2 < row_ind && block_start_col_index <= c2 < block_end_col_index
                        && !(r2 == row && c2 == col) ==> !#[trigger] self.cand(r2, c2, val as int),
            decreases block_end_row_index - row_ind,
        {
            let mut col_ind = block_start_col_index;
            while col_ind < block_end_col_index
                invariant
                    *self == *old(self),
                    self.wf(),
                    self.sound(),
                    consistent(self.grid(), self.n(), self.seg()),
                    row < self.n(), col < self.n(), 1 <= val <= self.n(),
                    cell(self.grid(), self.n(), row as int, col as int) == 0,
                    block_start_row_index <= row_ind < block_end_row_index <= self.n(),
                    block_start_col_index <= col_ind <= block_end_col_index <= self.n(),
                    forall|r2: int, c2: int|
                        ((block_start_row_index <= r2 < row_ind && block_start_col_index <= c2 < block_end_col_index)
                            || (r2 == row_ind && block_start_col_index <= c2 < col_ind))
                            && !(r2 == row && c2 == col) ==> !#[trigger] self.cand(r2, c2, val as int),
                decreases block_end_col_index - col_ind,
            {
                if !(col_ind == col && row_ind == row) && self.has(row_ind, col_ind, val) {
                    return false;
                }
                col_ind = col_ind + 1;
            }
            row_ind = row_ind + 1;
        }
        let ghost before = *self;
        proof {
            before.lemma_wf();
            lemma_idx(before.n(), row as int, col as int);
            lemma_count_zero_fill(before.grid(), idx(before.n(), row as int, col as int), val);
        }
        self.set_cell(row, col, val);
        self.clear_cands(row, col);
        self.mem_remove(
            val,
            row,
            col,
            block_start_row_index,
            block_end_row_index,
            block_start_col_index,
            block_end_col_index,
        );
        proof {
            Board::lemma_assign_sound(before, *self, row as int, col as int, val, block_start_row_index as int,
                block_end_row_index as int, block_start_col_index as int, block_end_col_index as int);
            let ghost n = before.n();
            assert forall|h: Seq<u8>| is_solution(h, n, before.seg()) && #[trigger] before.accepts(h) implies self.accepts(h) by {
                let (rb, cb) = before.lemma_block_witness(h, row as int, col as int, val as int,
                    block_start_row_index as int, block_end_row_index as int, block_start_col_index as int,
                    block_end_col_index as int);
                Board::lemma_accepts_after_assign(before, *self, h, row as int, col as int, val,
                    block_start_row_index as int, block_end_row_index as int, block_start_col_index as int,
                    block_end_col_index as int);
            }
        }
        true
    }

    /// How many values in `[1, k)` are candidates of `(r, c)`.
    pub closed spec fn count_cands(&self, r: int, c: int, k: int) -> nat
        decreases k,
    {
        if k <= 1 {
            0
        } else {
            self.count_cands(r, c, k - 1) + if self.cand(r, c, k - 1) { 1nat } else { 0nat }
        }
    }

    /// A board with the same grid and shape whose candidates are a subset keeps soundness.
    proof fn lemma_shrink_sound(before: Board, after: Board)
        requires
            before.wf(),
            after.wf(),
            after.same_shape(before),
            after.grid() == before.grid(),
            before.sound(),
            forall|r: int, c: int, v: int| in_grid(before.n(), r, c) && 0 <= v <= before.n() && #[trigger] after.cand(r, c, v)
                ==> before.cand(r, c, v),
        ensures
            after.sound(),
    {
    }

    /// Naked single: when `(row, col)` has exactly one candidate left, assigns it and
    /// strikes it from the cell's row, column and block.
    fn naked_single(
        &mut self,
        row: usize,
        col: usize,
        block_start_row_index: usize,
        block_end_row_index: usize,
        block_start_col_index: usize,
        block_end_col_index: usize,
    ) -> (r: bool)
        requires
            old(self).wf(),
            old(self).sound(),
            consistent(old(self).grid(), old(self).n(), old(self).seg()),
            row < old(self).n(),
            col < old(self).n(),
            cell(old(self).grid(), old(self).n(), row as int, col as int) == 0,
            old(self).block_of(row as int, col as int, block_start_row_index as int, block_end_row_index as int,
                block_start_col_index as int, block_end_col_index as int),
        ensures
            final(self).wf(),
            final(self).same_shape(*old(self)),
            final(self).sound(),
            consistent(final(self).grid(), final(self).n(), final(self).seg()),
            extends(old(self).grid(), final(self).grid()),
            r == (old(self).count_cands(row as int, col as int, old(self).n() + 1) == 1),
            !r ==> *final(self) == *old(self),
            r ==> exists|v: int| 1 <= v <= old(self).n() && #[trigger] old(self).cand(row as int, col as int, v)
                && final(self).grid() == old(self).grid().update(idx(old(self).n(), row as int, col as int), v as u8)
                && final(self).removed(*old(self), |r2: int, c2: int, v2: int| v2 == v && (r2 == row || c2 == col
                    || (block_start_row_index <= r2 < block_end_row_index
                        && block_start_col_index <= c2 < block_end_col_index))),
            r ==> final(self).measure() < old(self).measure(),
            forall|h: Seq<u8>| is_solution(h, old(self).n(), old(self).seg()) && #[trigger] old(self).accepts(h)
                ==> final(self).accepts(h),
    {
        let mut count: usize = 0;
        let mut last: u8 = 0;
        let mut v: u8 = 1;
        while v < self.max_val
            invariant
                self.wf(),
                row < self.n(), col < self.n(),
                1 <= v <= self.max_val,
                count == self.count_cands(row as int, col as int, v as int),
                count < v,
                count >= 1 ==> 1 <= last < v && self.cand(row as int, col as int, last as int),
                count == 0 ==> forall|w: int| 1 <= w < v ==> !#[trigger] self.cand(row as int, col as int, w),
                count == 1 ==> forall|w: int| 1 <= w < v && #[trigger] self.cand(row as int, col as int, w) ==> w == last,
            decreases self.max_val - v,
        {
            if self.has(row, col, v) {
                if count == 0 {
                    last = v;
                }
                count = count + 1;
            }
            v = v + 1;
        }
        if count != 1 {
            return false;
        }
        let ghost before = *self;
        self.drop_cand(row, col, last);
        let ghost mid1 = *self;
        self.set_cell(row, col, last);
        let ghost mid2 = *self;
        self.mem_remove(
            last,
            row,
            col,
            block_start_row_index,
            block_end_row_index,
            block_start_col_index,
            block_end_col_index,
        );
        proof {
            assert forall|r2: int, c2: int, v2: int| in_grid(before.n(), r2, c2) && 0 <= v2 <= before.n()
                implies #[trigger] self.cand(r2, c2, v2) == (mid1.cand(r2, c2, v2) && !(v2 == last && (r2 == row || c2 == col
                    || (block_start_row_index <= r2 < block_end_row_index
                        && block_start_col_index <= c2 < block_end_col_index)))) by {
                assert(mid2.cand(r2, c2, v2) == mid1.cand(r2, c2, v2));
            }
            Board::lemma_assign_sound(before, *self, row as int, col as int, last, block_start_row_index as int,
                block_end_row_index as int, block_start_col_index as int, block_end_col_index as int);
            let ghost n = before.n();
            assert forall|h: Seq<u8>| is_solution(h, n, before.seg()) && #[trigger] before.accepts(h) implies self.accepts(h) by {
                lemma_idx(n, row as int, col as int);
                assert(before.cand(row as int, col as int, cell(h, n, row as int, col as int)));
                assert(1 <= h[idx(n, row as int, col as int)] <= n);
                Board::lemma_accepts_after_assign(before, *self, h, row as int, col as int, last,
                    block_start_row_index as int, block_end_row_index as int, block_start_col_index as int,
                    block_end_col_index as int);
            }
            assert forall|r2: int, c2: int, v2: int| in_grid(before.n(), r2, c2) && 0 <= v2 <= before.n()
                implies #[trigger] self.cand(r2, c2, v2) == (before.cand(r2, c2, v2) && !(v2 == last && (r2 == row || c2 == col
                    || (block_start_row_index <= r2 < block_end_row_index
                        && block_start_col_index <= c2 < block_end_col_index)))) by {
                if r2 == row && c2 == col && v2 != last && 1 <= v2 {
                    assert(!before.cand(r2, c2, v2));
                }
            }
        }
        true
    }

    /// Some other cell of row `row` inside the block lists `val`.
    pub closed spec fn lists_along_row(&self, val: int, row: int, col: int, cs: int, ce: int) -> bool {
        exists|c2: int| cs <= c2 < ce && c2 != col && #[trigger] self.cand(row, c2, val)
    }

    /// Some other cell of column `col` inside the block lists `val`.
    pub closed spec fn lists_along_col(&self, val: int, row: int, col: int, rs: int, re: int) -> bool {
        exists|r2: int| rs <= r2 < re && r2 != row && #[trigger] self.cand(r2, col, val)
    }

    /// Some cell of the block off both row `row` and column `col` lists `val`.
    pub closed spec fn lists_elsewhere(&self, val: int, row: int, col: int, rs: int, re: int, cs: int, ce: int) -> bool {
        exists|r2: int, c2: int| rs <= r2 < re && cs <= c2 < ce && r2 != row && c2 != col && #[trigger] self.cand(r2, c2, val)
    }

    /// Locked candidates: when, within the block, `val` is listed at `(row, col)` and
    /// elsewhere only along column `col`, strikes it from that column outside the block
    /// (and likewise for row `row`). Returns whether anything was struck.
    fn check_mem(
        &mut self,
        val: u8,
        row: usize,
        col: usize,
        block_start_row_index: usize,
        block_end_row_index: usize,
        block_start_col_index: usize,
        block_end_col_index: usize,
    ) -> (r: bool)
        requires
            old(self).wf(),
            row < old(self).n(),
            col < old(self).n(),
            1 <= val <= old(self).n(),
            old(self).block_of(row as int, col as int, block_start_row_index as int, block_end_row_index as int,
                block_start_col_index as int, block_end_col_index as int),
        ensures
            final(self).wf(),
            final(self).same_shape(*old(self)),
            final(self).grid() == old(self).grid(),
            ({
                let o = *old(self);
                let (v, rw, cl) = (val as int, row as int, col as int);
                let (rs, re) = (block_start_row_index as int, block_end_row_index as int);
                let (cs, ce) = (block_start_col_index as int, block_end_col_index as int);
                let settled = o.cand(rw, cl, v) && !o.lists_elsewhere(v, rw, cl, rs, re, cs, ce);
                let in_col = settled && o.lists_along_col(v, rw, cl, rs, re);
                let in_row = settled && !in_col && o.lists_along_row(v, rw, cl, cs, ce);
                &&& in_col && !o.lists_along_row(v, rw, cl, cs, ce) ==> final(self).removed(o,
                        |r2: int, c2: int, v2: int| v2 == v && c2 == cl && !(rs <= r2 < re))
                &&& in_row ==> final(self).removed(o,
                        |r2: int, c2: int, v2: int| v2 == v && r2 == rw && !(cs <= c2 < ce))
                &&& !(in_col && !o.lists_along_row(v, rw, cl, cs, ce)) && !in_row ==> *final(self) == o
                &&& r == o.locked_strikes(v, rw, cl, rs, re, cs, ce)
            }),
            !r ==> final(self).same_state(*old(self)),
            final(self).measure() <= old(self).measure(),
            r ==> final(self).measure() < old(self).measure(),
    {
        let ghost o = *self;
        if !self.has(row, col, val) {
            return false;
        }
        let mut found_in_row = false;
        let mut found_in_col = false;
        let mut found_else = false;
        let mut row_ind = block_start_row_index;
        while row_ind < block_end_row_index
            invariant
                *self == o,
                self.wf(),
                row < self.n(), col < self.n(), 1 <= val <= self.n(),
                block_start_row_index <= row_ind <= block_end_row_index <= self.n(),
                block_start_col_index <= block_end_col_index <= self.n(),
                block_start_row_index <= row < block_end_row_index,
                block_start_col_index <= col < block_end_col_index,
                found_in_col == exists|c2: int| block_start_col_index <= c2 < block_end_col_index && c2 != col
                    && row < row_ind && #[trigger] self.cand(row as int, c2, val as int),
                found_in_row == exists|r2: int| block_start_row_index <= r2 < row_ind && r2 != row
                    && #[trigger] self.cand(r2, col as int, val as int),
                found_else == exists|r2: int, c2: int| block_start_row_index <= r2 < row_ind
                    && block_start_col_index <= c2 < block_end_col_index && r2 != row && c2 != col
                    && #[trigger] self.cand(r2, c2, val as int),
            decreases block_end_row_index - row_ind,
        {
            let mut col_ind = block_start_col_index;
            while col_ind < block_end_col_index
                invariant
                    *self == o,
                    self.wf(),
                    row < self.n(), col < self.n(), 1 <= val <= self.n(),
                    block_start_row_index <= row_ind < block_end_row_index <= self.n(),
                    block_start_col_index <= col_ind <= block_end_col_index <= self.n(),
                    block_start_row_index <= row < block_end_row_index,
                    block_start_col_index <= col < block_end_col_index,
                    found_in_col == exists|c2: int| block_start_col_index <= c2 < block_end_col_index && c2 != col
                        && (row < row_ind || (row == row_ind && c2 < col_ind))
                        && #[trigger] self.cand(row as int, c2, val as int),
                    found_in_row == exists|r2: int| r2 != row && ((block_start_row_index <= r2 < row_ind)
                        || (r2 == row_ind && col < col_ind)) && #[trigger] self.cand(r2, col as int, val as int),
                    found_else == exists|r2: int, c2: int| r2 != row && c2 != col
                        && ((block_start_row_index <= r2 < row_ind && block_start_col_index <= c2 < block_end_col_index)
                            || (r2 == row_ind && block_start_col_index <= c2 < col_ind))
                        && #[trigger] self.cand(r2, c2, val as int),
                decreases block_end_col_index - col_ind,
            {
                if !(row_ind == row && col_ind == col) {
                    if self.has(row_ind, col_ind, val) {
                        if row_ind == row {
                            found_in_col = true;
                        } else if col_ind == col {
                            found_in_row = true;
                        } else {
                            found_else = true;
                        }
                    }
                }
                col_ind = col_ind + 1;
            }
            row_ind = row_ind + 1;
        }
        if found_else {
            return false;
        }
        if found_in_row && found_in_col {
            return false;
        }
        let mut changed = false;
        if found_in_row {
            let mut row_ind: usize = 0;
            while row_ind < self.size
                invariant
                    self.wf(),
                    self.same_shape(o),
                    self.grid() == o.grid(),
                    o.wf(),
                    row < self.n(), col < self.n(), 1 <= val <= self.n(),
                    row_ind <= self.n(),
                    block_end_row_index == block_start_row_index + self.seg(),
                    self.removed(o, |r2: int, c2: int, v2: int| v2 == val && c2 == col && r2 < row_ind
                        && !(block_start_row_index <= r2 < block_end_row_index)),
                    changed == exists|r2: int| 0 <= r2 < row_ind && !(block_start_row_index <= r2 < block_end_row_index)
                        && #[trigger] o.cand(r2, col as int, val as int),
                    self.measure() <= o.measure(),
                    changed ==> self.measure() < o.measure(),
                decreases self.size - row_ind,
            {
                if row_ind >= block_start_row_index && row_ind < block_start_row_index + self.segment_size {
                    row_ind = row_ind + 1;
                    continue;
                }
                if self.has(row_ind, col, val) {
                    self.drop_cand(row_ind, col, val);
                    changed = true;
                }
                row_ind = row_ind + 1;
            }
        } else if found_in_col {
            let mut col_ind: usize = 0;
            while col_ind < self.size
                invariant
                    self.wf(),
                    self.same_shape(o),
                    self.grid() == o.grid(),
                    o.wf(),
                    row < self.n(), col < self.n(), 1 <= val <= self.n(),
                    col_ind <= self.n(),
                    block_end_col_index == block_start_col_index + self.seg(),
                    self.removed(o, |r2: int, c2: int, v2: int| v2 == val && r2 == row && c2 < col_ind
                        && !(block_start_col_index <= c2 < block_end_col_index)),
                    changed == exists|c2: int| 0 <= c2 < col_ind && !(block_start_col_index <= c2 < block_end_col_index)
                        && #[trigger] o.cand(row as int, c2, val as int),
                    self.measure() <= o.measure(),
                    changed ==> self.measure() < o.measure(),
                decreases self.size - col_ind,
            {
                if col_ind >= block_start_col_index && col_ind < block_start_col_index + self.segment_size {
                    col_ind = col_ind + 1;
                    continue;
                }
                if self.has(row, col_ind, val) {
                    self.drop_cand(row, col_ind, val);
                    changed = true;
                }
                col_ind = col_ind + 1;
            }
        }
        changed
    }

    /// Lists `v` among the candidates of `(r, c)`.
    fn add_cand(&mut self, r: usize, c: usize, v: u8)
        requires
            old(self).wf(),
            r < old(self).n(),
            c < old(self).n(),
            v <= old(self).n(),
        ensures
            final(self).wf(),
            final(self).same_shape(*old(self)),
            final(self).grid() == old(self).grid(),
            forall|r2: int, c2: int, v2: int| in_grid(old(self).n(), r2, c2) && 0 <= v2 <= old(self).n()
                ==> #[trigger] final(self).cand(r2, c2, v2) == (old(self).cand(r2, c2, v2) || (r2 == r && c2 == c && v2 == v)),
    {
        let ghost n = self.n();
        proof {
            lemma_cand_idx(n, r as int, c as int, v as int);
            lemma_idx(n, r as int, c as int);
            self.lemma_wf();
        }
        let i = (r * self.size + c) * (self.size + 1) + v as usize;
        self.memory.set(i, true);
        proof {
            assert forall|r2: int, c2: int, v2: int|
                in_grid(n, r2, c2) && 0 <= v2 <= n implies #[trigger] self.cand(r2, c2, v2)
                    == (old(self).cand(r2, c2, v2) || (r2 == r && c2 == c && v2 == v)) by {
                lemma_cand_idx(n, r2, c2, v2);
                if cand_idx(n, r2, c2, v2) == cand_idx(n, r as int, c as int, v as int) {
                    lemma_cand_idx_unique(n, r2, c2, v2, r as int, c as int, v as int);
                }
            }
        }
    }

    /// Gives every empty cell, as candidates, exactly the values legal there.
    fn init_memory(&mut self)
        requires
            old(self).wf(),
        ensures
            final(self).wf(),
            final(self).same_shape(*old(self)),
            final(self).grid() == old(self).grid(),
            forall|r: int, c: int, v: int| in_grid(final(self).n(), r, c) && 1 <= v <= final(self).n()
                && cell(final(self).grid(), final(self).n(), r, c) == 0
                ==> (#[trigger] final(self).cand(r, c, v) <==> legal(final(self).grid(), final(self).n(), final(self).seg(), v, r, c)),
            forall|h: Seq<u8>| #[trigger] is_solution(h, final(self).n(), final(self).seg()) && extends(final(self).grid(), h)
                ==> final(self).accepts(h),
    {
        let ghost g = self.grid();
        let ghost n = self.n();
        let ghost s = self.seg();
        let mut row: usize = 0;
        while row < self.size
            invariant
                self.wf(),
                self.same_shape(*old(self)),
                self.grid() == g,
                g == old(self).grid(), n == self.n(), s == self.seg(),
                row <= n,
                forall|r: int, c: int, v: int| 0 <= r < row && 0 <= c < n && 1 <= v <= n && cell(g, n, r, c) == 0
                    ==> (#[trigger] self.cand(r, c, v) <==> legal(g, n, s, v, r, c)),
            decreases self.size - row,
        {
            let mut col: usize = 0;
            while col < self.size
                invariant
                    self.wf(),
                    self.same_shape(*old(self)),
                    self.grid() == g,
                    g == old(self).grid(), n == self.n(), s == self.seg(),
                    row < n,
                    col <= n,
                    forall|r: int, c: int, v: int| (0 <= r < row || (r == row && 0 <= c < col)) && 0 <= c < n
                        && 1 <= v <= n && cell(g, n, r, c) == 0
                        ==> (#[trigger] self.cand(r, c, v) <==> legal(g, n, s, v, r, c)),
                decreases self.size - col,
            {
                if self.at(row, col) == 0 {
                    self.clear_cands(row, col);
                    let mut val: u8 = 1;
                    while val < self.max_val
                        invariant
                            self.wf(),
                            self.same_shape(*old(self)),
                            self.grid() == g,
                            g == old(self).grid(), n == self.n(), s == self.seg(),
                            row < n, col < n,
                            cell(g, n, row as int, col as int) == 0,
                            1 <= val <= self.max_val,
                            forall|r: int, c: int, v: int| (0 <= r < row || (r == row && 0 <= c < col)) && 0 <= c < n
                                && 1 <= v <= n && cell(g, n, r, c) == 0
                                ==> (#[trigger] self.cand(r, c, v) <==> legal(g, n, s, v, r, c)),
                            forall|v: int| 1 <= v <= n ==> (#[trigger] self.cand(row as int, col as int, v)
                                <==> (v < val && legal(g, n, s, v, row as int, col as int))),
                        decreases self.max_val - val,
                    {
                        if self.check(val, col, row) {
                            self.add_cand(row, col, val);
                        }
                        val = val + 1;
                    }
                }
                col = col + 1;
            }
            row = row + 1;
        }
        proof {
            assert forall|h: Seq<u8>| #[trigger] is_solution(h, n, s) && extends(g, h) implies self.accepts(h) by {
                assert forall|r: int, c: int| in_grid(n, r, c) && cell(g, n, r, c) == 0
                    implies #[trigger] self.cand(r, c, cell(h, n, r, c)) by {
                    lemma_idx(n, r, c);
                    assert(1 <= h[idx(n, r, c)] <= n);
                    if !legal(g, n, s, cell(h, n, r, c), r, c) {
                        lemma_illegal_excluded(g, h, n, s, cell(h, n, r, c), r, c);
                    }
                }
            }
        }
    }

    /// Propagation to a fixpoint, then backtracking over what is left.
    fn solve_baxstrat(&mut self) -> (r: bool)
        requires
            old(self).wf(),
        ensures
            final(self).wf(),
            final(self).same_shape(*old(self)),
            r ==> is_solution(final(self).grid(), final(self).n(), final(self).seg()),
            r ==> extends(old(self).grid(), final(self).grid()),
            r <==> solvable(old(self).grid(), old(self).n(), old(self).seg()),
            r ==> first_solution(final(self).grid(), old(self).grid(), old(self).n(), old(self).seg()),
            !consistent(old(self).grid(), old(self).n(), old(self).seg()) ==> !r && final(self).grid() == old(self).grid(),
            consistent(old(self).grid(), old(self).n(), old(self).seg()) ==> exists|gp: Seq<u8>| {
                &&& extends(old(self).grid(), gp)
                &&& r ==> extends(gp, final(self).grid())
                &&& !r ==> final(self).grid() == gp
                &&& forall|h: Seq<u8>| #[trigger] is_solution(h, old(self).n(), old(self).seg()) && extends(old(self).grid(), h)
                    ==> extends(gp, h) && forall|rr: int, cc: int| in_grid(old(self).n(), rr, cc) && cell(gp, old(self).n(), rr, cc) == 0
                        ==> #[trigger] final(self).cand(rr, cc, cell(h, old(self).n(), rr, cc))
            },
    {
        let ghost g0 = self.grid();
        proof {
            self.lemma_wf();
            if solvable(g0, self.n(), self.seg()) {
                lemma_solvable_consistent(g0, self.n(), self.seg());
            }
        }
        if !self.grid_consistent() {
            return false;
        }
        self.init_memory();
        let ghost mid = *self;
        self.propagate();
        proof {
            assert forall|h: Seq<u8>| #[trigger] is_solution(h, self.n(), self.seg()) && extends(g0, h)
                implies self.accepts(h) by {
                assert(mid.n() == self.n() && mid.seg() == self.seg());
                assert(is_solution(h, mid.n(), mid.seg()));
                assert(extends(mid.grid(), h));
                assert(mid.accepts(h));
            }
        }
        let ghost g1 = self.grid();
        let ghost pb = *self;
        proof {
            if solvable(g0, self.n(), self.seg()) {
                let h = choose|h: Seq<u8>| is_solution(h, self.n(), self.seg()) && extends(g0, h);
                assert(self.accepts(h));
                assert(is_solution(h, self.n(), self.seg()) && extends(g1, h));
            }
        }
        let r = self.solve_naive(0, 0);
        proof {
            if r {
                lemma_extends_trans(g0, g1, self.grid());
                assert(is_solution(self.grid(), self.n(), self.seg()) && extends(g0, self.grid()));
                assert forall|h2: Seq<u8>| #[trigger] is_solution(h2, self.n(), self.seg()) && extends(g0, h2)
                    implies lex_le(self.grid(), h2) by {
                    assert(pb.accepts(h2));
                    assert(extends(g1, h2));
                }
            }
            assert forall|h: Seq<u8>| #[trigger] is_solution(h, self.n(), self.seg()) && extends(g0, h)
                implies extends(g1, h) && forall|rr: int, cc: int| in_grid(self.n(), rr, cc) && cell(g1, self.n(), rr, cc) == 0
                    ==> #[trigger] self.cand(rr, cc, cell(h, self.n(), rr, cc)) by {
                assert(pb.accepts(h));
                assert forall|rr: int, cc: int| in_grid(self.n(), rr, cc) && cell(g1, self.n(), rr, cc) == 0
                    implies #[trigger] self.cand(rr, cc, cell(h, self.n(), rr, cc)) by {
                    assert(pb.cand(rr, cc, cell(h, self.n(), rr, cc)));
                }
            }
            assert(extends(g0, g1));
        }
        r
    }

    /// Whether no assigned cell shares its value with a peer.
    fn grid_consistent(&self) -> (b: bool)
        requires
            self.wf(),
        ensures
            b == consistent(self.grid(), self.n(), self.seg()),
    {
        let ghost g = self.grid();
        let ghost n = self.n();
        let ghost s = self.seg();
        let mut row: usize = 0;
        while row < self.size
            invariant
                self.wf(),
                g == self.grid(), n == self.n(), s == self.seg(),
                row <= n,
                forall|r: int, c: int| 0 <= r < row && 0 <= c < n && #[trigger] cell(g, n, r, c) != 0
                    ==> legal(g, n, s, cell(g, n, r, c), r, c),
            decreases self.size - row,
        {
            let mut col: usize = 0;
            while col < self.size
                invariant
                    self.wf(),
                    g == self.grid(), n == self.n(), s == self.seg(),
                    row < n,
                    col <= n,
                    forall|r: int, c: int| (0 <= r < row || (r == row && c < col)) && 0 <= c < n
                        && #[trigger] cell(g, n, r, c) != 0 ==> legal(g, n, s, cell(g, n, r, c), r, c),
                decreases self.size - col,
            {
                let w = self.at(row, col);
                if w != 0 {
                    let ok = self.check(w, col, row);
                    if !ok {
                        return false;
                    }
                }
                col = col + 1;
            }
            row = row + 1;
        }
        true
    }

    /// Solves the board in place with the chosen method; returns whether a complete
    /// legal assignment was reached. A board whose given cells already clash is left
    /// as it is and reported unsolvable.
    pub fn solve(&mut self, method: SolvingMethod) -> (r: bool)
        requires
            old(self).wf(),
        ensures
            final(self).wf(),
            final(self).n() == old(self).n(),
            final(self).seg() == old(self).seg(),
            r ==> is_solution(final(self).grid(), final(self).n(), final(self).seg()),
            r ==> extends(old(self).grid(), final(self).grid()),
            !consistent(old(self).grid(), old(self).n(), old(self).seg()) ==> !r && final(self).grid() == old(self).grid(),
            r <==> solvable(old(self).grid(), old(self).n(), old(self).seg()),
            r ==> first_solution(final(self).grid(), old(self).grid(), old(self).n(), old(self).seg()),
            method is Naive && !r ==> final(self).grid() == old(self).grid(),
            solvable(old(self).grid(), old(self).n(), old(self).seg()) && complete(old(self).grid())
                ==> r && final(self).grid() == old(self).grid(),
            is_solution(old(self).grid(), old(self).n(), old(self).seg()) ==> r && final(self).grid() == old(self).grid(),
            forall|row: int| #[trigger] row_has_duplicate(old(self).grid(), old(self).n(), row) ==> !r,
    {
        let ghost g0 = self.grid();
        proof {
            self.lemma_wf();
            if is_solution(g0, self.n(), self.seg()) {
                lemma_complete_solvable(g0, self.n(), self.seg());
            }
            assert forall|row: int| #[trigger] row_has_duplicate(g0, self.n(), row) implies !consistent(g0, self.n(), self.seg()) by {
                lemma_duplicate_inconsistent(g0, self.n(), self.seg(), row);
            }
            if solvable(g0, self.n(), self.seg()) {
                lemma_solvable_consistent(g0, self.n(), self.seg());
            }
        }
        let r = match method {
            SolvingMethod::Naive => self.solve_naive(0, 0),
            SolvingMethod::BaxStrat => self.solve_baxstrat(),
        };
        proof {
            if r && complete(g0) {
                assert(self.grid() =~= g0);
            }
        }
        r
    }

    /// The edge length N.
    pub fn size(&self) -> (r: usize)
        requires
            self.wf(),
        ensures
            r == self.n(),
    {
        self.size
    }

    /// The block edge, the square root of N.
    pub fn segment_size(&self) -> (r: usize)
        requires
            self.wf(),
        ensures
            r == self.seg(),
    {
        self.segment_size
    }

    /// The value of cell `(row, col)`, 0 when empty.
    pub fn value(&self, row: usize, col: usize) -> (v: u8)
        requires
            self.wf(),
            row < self.n(),
            col < self.n(),
        ensures
            v == cell(self.grid(), self.n(), row as int, col as int),
    {
        self.at(row, col)
    }

    /// A copy of the cells, row-major.
    pub fn cells(&self) -> (r: Vec<u8>)
        requires
            self.wf(),
        ensures
            r@ == self.grid(),
    {
        self.cells.clone()
    }

    /// Solution `h` keeps the assigned cells and, at each empty cell, uses a listed candidate.
    pub closed spec fn accepts(&self, h: Seq<u8>) -> bool {
        &&& extends(self.grid(), h)
        &&& forall|r: int, c: int| in_grid(self.n(), r, c) && cell(self.grid(), self.n(), r, c) == 0
                ==> #[trigger] self.cand(r, c, cell(h, self.n(), r, c))
    }

    /// In a solution, every row, column and block of a board holds each value exactly once.
    pub proof fn lemma_solved_each_value_once(&self, h: Seq<u8>)
        requires
            self.wf(),
            is_solution(h, self.n(), self.seg()),
        ensures
            forall|r: int, v: int| 0 <= r < self.n() && 1 <= v <= self.n() ==> #[trigger] row_once(h, self.n(), r, v),
            forall|c: int, v: int| 0 <= c < self.n() && 1 <= v <= self.n() ==> #[trigger] col_once(h, self.n(), c, v),
            forall|br: int, bc: int, v: int| 0 <= br < self.seg() && 0 <= bc < self.seg() && 1 <= v <= self.n()
                ==> #[trigger] block_once(h, self.n(), self.seg(), br, bc, v),
    {
        self.lemma_wf();
        lemma_solution_each_value_once(h, self.n(), self.seg());
    }

    /// Where `(row, col)` lists `val` soundly, the cell of its block that holds `val` in an
    /// accepted solution also lists `val`.
    proof fn lemma_block_witness(&self, h: Seq<u8>, row: int, col: int, val: int, rs: int, re: int, cs: int, ce: int)
        -> (rc: (int, int))
        requires
            self.wf(),
            self.sound(),
            self.accepts(h),
            is_solution(h, self.n(), self.seg()),
            in_grid(self.n(), row, col),
            cell(self.grid(), self.n(), row, col) == 0,
            1 <= val <= self.n(),
            self.cand(row, col, val),
            self.block_of(row, col, rs, re, cs, ce),
        ensures
            rs <= rc.0 < re && cs <= rc.1 < ce,
            cell(h, self.n(), rc.0, rc.1) == val,
            self.cand(rc.0, rc.1, val),
            forall|r2: int, c2: int| rs <= r2 < re && cs <= c2 < ce && !(r2 == rc.0 && c2 == rc.1)
                ==> #[trigger] cell(h, self.n(), r2, c2) != val,
    {
        let n = self.n();
        let s = self.seg();
        self.lemma_wf();
        lemma_solution_each_value_once(h, n, s);
        let br = row / s;
        let bc = col / s;
        assert(0 <= br < s && 0 <= bc < s) by (nonlinear_arith)
            requires 0 <= row < s * s, 0 <= col < s * s, s >= 1, br == row / s, bc == col / s;
        assert(block_once(h, n, s, br, bc, val));
        let (rb, cb) = choose|r: int, c: int| br * s <= r < br * s + s && bc * s <= c < bc * s + s
            && #[trigger] cell(h, n, r, c) == val
            && forall|r2: int, c2: int| br * s <= r2 < br * s + s && bc * s <= c2 < bc * s + s && !(r2 == r && c2 == c)
                ==> #[trigger] cell(h, n, r2, c2) != val;
        assert(in_grid(n, rb, cb));
        lemma_idx(n, rb, cb);
        if cell(self.grid(), n, rb, cb) != 0 {
            assert(self.grid()[idx(n, rb, cb)] == h[idx(n, rb, cb)]);
            assert(legal(self.grid(), n, s, val, row, col));
            assert((rb / s) == row / s);
            assert((cb / s) == col / s);
            assert(peers(s, row, col, rb, cb));
        }
        (rb, cb)
    }

    /// After placing `val` at `(row, col)` as `h` does, and striking only the cell's own
    /// candidates or `val` around it, `h` is still accepted.
    proof fn lemma_accepts_after_assign(before: Board, after: Board, h: Seq<u8>, row: int, col: int, val: u8,
        rs: int, re: int, cs: int, ce: int)
        requires
            before.wf(),
            after.wf(),
            after.same_shape(before),
            before.accepts(h),
            is_solution(h, before.n(), before.seg()),
            in_grid(before.n(), row, col),
            cell(h, before.n(), row, col) == val,
            before.block_of(row, col, rs, re, cs, ce),
            after.grid() == before.grid().update(idx(before.n(), row, col), val),
            forall|r: int, c: int, v: int| in_grid(before.n(), r, c) && 0 <= v <= before.n()
                && before.cand(r, c, v) && !#[trigger] after.cand(r, c, v)
                ==> (r == row && c == col) || (v == val && (r == row || c == col || (rs <= r < re && cs <= c < ce))),
        ensures
            after.accepts(h),
    {
        let n = before.n();
        let s = before.seg();
        let g = before.grid();
        let g2 = after.grid();
        before.lemma_wf();
        lemma_idx(n, row, col);
        assert forall|i: int| 0 <= i < g2.len() && #[trigger] g2[i] != 0 implies h[i] == g2[i] by {}
        assert forall|r: int, c: int| in_grid(n, r, c) && cell(g2, n, r, c) == 0
            implies #[trigger] after.cand(r, c, cell(h, n, r, c)) by {
            lemma_idx(n, r, c);
            if idx(n, r, c) == idx(n, row, col) {
                lemma_idx_unique(n, r, c, row, col);
            }
            assert(cell(g, n, r, c) == 0);
            assert(before.cand(r, c, cell(h, n, r, c)));
            assert(1 <= h[idx(n, r, c)] <= n);
            if !after.cand(r, c, cell(h, n, r, c)) {
                if rs <= r < re && cs <= c < ce {
                    assert((r / s) == row / s);
                    assert((c / s) == col / s);
                }
                assert(peers(s, row, col, r, c));
                assert(legal(h, n, s, cell(h, n, row, col), row, col));
            }
        }
    }

    /// Striking `val` along a line outside the block, as `check_mem` does, keeps every
    /// accepted solution accepted.
    proof fn lemma_locked_keeps(o: Board, after: Board, h: Seq<u8>, val: int, row: int, col: int,
        rs: int, re: int, cs: int, ce: int)
        requires
            o.wf(),
            after.wf(),
            after.same_shape(o),
            after.grid() == o.grid(),
            o.sound(),
            o.accepts(h),
            is_solution(h, o.n(), o.seg()),
            in_grid(o.n(), row, col),
            cell(o.grid(), o.n(), row, col) == 0,
            1 <= val <= o.n(),
            o.block_of(row, col, rs, re, cs, ce),
            forall|r: int, c: int, v: int| in_grid(o.n(), r, c) && 0 <= v <= o.n() && o.cand(r, c, v)
                && !#[trigger] after.cand(r, c, v) ==> v == val && o.cand(row, col, val)
                    && !o.lists_elsewhere(val, row, col, rs, re, cs, ce)
                    && ((c == col && !(rs <= r < re) && !o.lists_along_row(val, row, col, cs, ce))
                        || (r == row && !(cs <= c < ce) && !o.lists_along_col(val, row, col, rs, re))),
        ensures
            after.accepts(h),
    {
        let n = o.n();
        let s = o.seg();
        o.lemma_wf();
        assert forall|r: int, c: int| in_grid(n, r, c) && cell(after.grid(), n, r, c) == 0
            implies #[trigger] after.cand(r, c, cell(h, n, r, c)) by {
            lemma_idx(n, r, c);
            let hv = cell(h, n, r, c);
            assert(1 <= h[idx(n, r, c)] <= n);
            assert(o.cand(r, c, hv));
            if !after.cand(r, c, hv) {
                let (rb, cb) = o.lemma_block_witness(h, row, col, val, rs, re, cs, ce);
                if c == col && !(rs <= r < re) && !o.lists_along_row(val, row, col, cs, ce) {
                    if cb != col {
                        if rb == row {
                            assert(o.lists_along_row(val, row, col, cs, ce));
                        } else {
                            assert(o.lists_elsewhere(val, row, col, rs, re, cs, ce));
                        }
                    }
                    assert(peers(s, rb, col, r, col));
                    assert(legal(h, n, s, cell(h, n, rb, col), rb, col));
                } else {
                    if rb != row {
                        if cb == col {
                            assert(o.lists_along_col(val, row, col, rs, re));
                        } else {
                            assert(o.lists_elsewhere(val, row, col, rs, re, cs, ce));
                        }
                    }
                    assert(peers(s, row, cb, row, c));
                    assert(legal(h, n, s, cell(h, n, row, cb), row, cb));
                }
            }
        }
    }

    /// The two boards have the same shape, the same cells and the same candidates.
    pub closed spec fn same_state(&self, other: Board) -> bool {
        &&& self.same_shape(other)
        &&& self.grid() == other.grid()
        &&& forall|r: int, c: int, v: int| in_grid(self.n(), r, c) && 0 <= v <= self.n()
                ==> #[trigger] self.cand(r, c, v) == other.cand(r, c, v)
    }

    /// The first line of the block that holds line `i`.
    pub closed spec fn block_start(&self, i: int) -> int {
        (i / self.seg()) * self.seg()
    }

    /// The hidden-single rule applies to value `v` at `(r, c)` in the block `[rs, re) × [cs, ce)`.
    pub closed spec fn hidden_single(&self, v: int, r: int, c: int, rs: int, re: int, cs: int, ce: int) -> bool {
        self.cand(r, c, v) && forall|r2: int, c2: int| rs <= r2 < re && cs <= c2 < ce && !(r2 == r && c2 == c)
            ==> !#[trigger] self.cand(r2, c2, v)
    }

    /// The locked-candidate rule for value `v` at `(r, c)` strikes at least one candidate.
    pub closed spec fn locked_strikes(&self, v: int, r: int, c: int, rs: int, re: int, cs: int, ce: int) -> bool {
        let settled = self.cand(r, c, v) && !self.lists_elsewhere(v, r, c, rs, re, cs, ce);
        let in_col = settled && self.lists_along_col(v, r, c, rs, re);
        let in_row = settled && !in_col && self.lists_along_row(v, r, c, cs, ce);
        (in_col && !self.lists_along_row(v, r, c, cs, ce)
            && exists|r2: int| 0 <= r2 < self.n() && !(rs <= r2 < re) && #[trigger] self.cand(r2, c, v))
        || (in_row && exists|c2: int| 0 <= c2 < self.n() && !(cs <= c2 < ce) && #[trigger] self.cand(r, c2, v))
    }

    /// None of the three rules would change anything for value `v` at the empty cell `(r, c)`.
    pub closed spec fn no_rule_fires(&self, v: int, r: int, c: int) -> bool {
        let (rs, cs, s) = (self.block_start(r), self.block_start(c), self.seg());
        &&& self.count_cands(r, c, self.n() + 1) != 1
        &&& !self.hidden_single(v, r, c, rs, rs + s, cs, cs + s)
        &&& !self.locked_strikes(v, r, c, rs, rs + s, cs, cs + s)
    }

    /// No rule fires anywhere: a further sweep would change nothing.
    pub closed spec fn at_fixpoint(&self) -> bool {
        forall|v: int, r: int, c: int| 1 <= v <= self.n() && in_grid(self.n(), r, c)
            && cell(self.grid(), self.n(), r, c) == 0 ==> #[trigger] self.no_rule_fires(v, r, c)
    }

    /// Boards in the same state count the same candidates.
    proof fn lemma_same_state_count(a: Board, b: Board, r: int, c: int, k: int)
        requires
            a.same_state(b),
            in_grid(a.n(), r, c),
            k <= a.n() + 1,
        ensures
            a.count_cands(r, c, k) == b.count_cands(r, c, k),
        decreases k,
    {
        if k > 1 {
            Board::lemma_same_state_count(a, b, r, c, k - 1);
            assert(a.cand(r, c, k - 1) == b.cand(r, c, k - 1));
        }
    }

    /// Whether a rule fires at a cell depends only on the cells and candidates.
    proof fn lemma_same_state_rules(a: Board, b: Board, v: int, r: int, c: int)
        requires
            a.wf(),
            a.same_state(b),
            in_grid(a.n(), r, c),
            1 <= v <= a.n(),
        ensures
            a.count_cands(r, c, a.n() + 1) == b.count_cands(r, c, b.n() + 1),
            forall|rs: int, cs: int| 0 <= rs && rs + a.seg() <= a.n() && 0 <= cs && cs + a.seg() <= a.n()
                ==> (#[trigger] a.hidden_single(v, r, c, rs, rs + a.seg(), cs, cs + a.seg())
                    == b.hidden_single(v, r, c, rs, rs + a.seg(), cs, cs + a.seg())
                && a.locked_strikes(v, r, c, rs, rs + a.seg(), cs, cs + a.seg())
                    == b.locked_strikes(v, r, c, rs, rs + a.seg(), cs, cs + a.seg())),
            a.no_rule_fires(v, r, c) == b.no_rule_fires(v, r, c),
    {
        Board::lemma_same_state_count(a, b, r, c, a.n() + 1);
        let s = a.seg();
        a.lemma_wf();
        assert forall|rs: int, cs: int| 0 <= rs && rs + a.seg() <= a.n() && 0 <= cs && cs + a.seg() <= a.n()
            implies (#[trigger] a.hidden_single(v, r, c, rs, rs + a.seg(), cs, cs + a.seg())
                == b.hidden_single(v, r, c, rs, rs + a.seg(), cs, cs + a.seg())
            && a.locked_strikes(v, r, c, rs, rs + a.seg(), cs, cs + a.seg())
                == b.locked_strikes(v, r, c, rs, rs + a.seg(), cs, cs + a.seg())) by {
            let (re, ce) = (rs + s, cs + s);
            if a.lists_elsewhere(v, r, c, rs, re, cs, ce) {
                let (r2, c2) = choose|r2: int, c2: int| rs <= r2 < re && cs <= c2 < ce && r2 != r && c2 != c
                    && #[trigger] a.cand(r2, c2, v);
                assert(b.cand(r2, c2, v));
            }
            if b.lists_elsewhere(v, r, c, rs, re, cs, ce) {
                let (r2, c2) = choose|r2: int, c2: int| rs <= r2 < re && cs <= c2 < ce && r2 != r && c2 != c
                    && #[trigger] b.cand(r2, c2, v);
                assert(a.cand(r2, c2, v));
            }
            if a.lists_along_col(v, r, c, rs, re) {
                let r2 = choose|r2: int| rs <= r2 < re && r2 != r && #[trigger] a.cand(r2, c, v);
                assert(b.cand(r2, c, v));
            }
            if b.lists_along_col(v, r, c, rs, re) {
                let r2 = choose|r2: int| rs <= r2 < re && r2 != r && #[trigger] b.cand(r2, c, v);
                assert(a.cand(r2, c, v));
            }
            if a.lists_along_row(v, r, c, cs, ce) {
                let c2 = choose|c2: int| cs <= c2 < ce && c2 != c && #[trigger] a.cand(r, c2, v);
                assert(b.cand(r, c2, v));
            }
            if b.lists_along_row(v, r, c, cs, ce) {
                let c2 = choose|c2: int| cs <= c2 < ce && c2 != c && #[trigger] b.cand(r, c2, v);
                assert(a.cand(r, c2, v));
            }
            if exists|r2: int| 0 <= r2 < a.n() && !(rs <= r2 < re) && #[trigger] a.cand(r2, c, v) {
                let r2 = choose|r2: int| 0 <= r2 < a.n() && !(rs <= r2 < re) && #[trigger] a.cand(r2, c, v);
                assert(b.cand(r2, c, v));
            }
            if exists|r2: int| 0 <= r2 < a.n() && !(rs <= r2 < re) && #[trigger] b.cand(r2, c, v) {
                let r2 = choose|r2: int| 0 <= r2 < a.n() && !(rs <= r2 < re) && #[trigger] b.cand(r2, c, v);
                assert(a.cand(r2, c, v));
            }
            if exists|c2: int| 0 <= c2 < a.n() && !(cs <= c2 < ce) && #[trigger] a.cand(r, c2, v) {
                let c2 = choose|c2: int| 0 <= c2 < a.n() && !(cs <= c2 < ce) && #[trigger] a.cand(r, c2, v);
                assert(b.cand(r, c2, v));
            }
            if exists|c2: int| 0 <= c2 < a.n() && !(cs <= c2 < ce) && #[trigger] b.cand(r, c2, v) {
                let c2 = choose|c2: int| 0 <= c2 < a.n() && !(cs <= c2 < ce) && #[trigger] b.cand(r, c2, v);
                assert(a.cand(r, c2, v));
            }
            assert(a.lists_elsewhere(v, r, c, rs, re, cs, ce) == b.lists_elsewhere(v, r, c, rs, re, cs, ce));
            assert(a.lists_along_col(v, r, c, rs, re) == b.lists_along_col(v, r, c, rs, re));
            assert(a.lists_along_row(v, r, c, cs, ce) == b.lists_along_row(v, r, c, cs, ce));
            assert((exists|r2: int| 0 <= r2 < a.n() && !(rs <= r2 < re) && #[trigger] a.cand(r2, c, v))
                == (exists|r2: int| 0 <= r2 < a.n() && !(rs <= r2 < re) && #[trigger] b.cand(r2, c, v)));
            assert((exists|c2: int| 0 <= c2 < a.n() && !(cs <= c2 < ce) && #[trigger] a.cand(r, c2, v))
                == (exists|c2: int| 0 <= c2 < a.n() && !(cs <= c2 < ce) && #[trigger] b.cand(r, c2, v)));
        }
        let (rs, cs) = (a.block_start(r), a.block_start(c));
        assert(0 <= rs && rs + s <= a.n() && 0 <= cs && cs + s <= a.n()) by {
            assert(0 <= (r / s) * s && (r / s) * s + s <= s * s) by (nonlinear_arith)
                requires 0 <= r < s * s, s >= 1;
            assert(0 <= (c / s) * s && (c / s) * s + s <= s * s) by (nonlinear_arith)
                requires 0 <= c < s * s, s >= 1;
        }
        assert(a.hidden_single(v, r, c, rs, rs + a.seg(), cs, cs + a.seg())
            == b.hidden_single(v, r, c, rs, rs + a.seg(), cs, cs + a.seg()));
    }

    /// A board in the same state as one at a fixpoint is at a fixpoint too.
    proof fn lemma_same_state_fixpoint(a: Board, b: Board)
        requires
            a.wf(),
            a.same_state(b),
            b.at_fixpoint(),
        ensures
            a.at_fixpoint(),
    {
        assert forall|v: int, r: int, c: int| 1 <= v <= a.n() && in_grid(a.n(), r, c)
            && cell(a.grid(), a.n(), r, c) == 0 implies #[trigger] a.no_rule_fires(v, r, c) by {
            Board::lemma_same_state_rules(a, b, v, r, c);
            assert(b.no_rule_fires(v, r, c));
        }
    }

    /// One pass of the three rules over every value and every empty cell, in that order.
    /// Returns whether anything changed; nothing changes exactly when the board was at a
    /// fixpoint.
    fn sweep(&mut self) -> (updated: bool)
        requires
            old(self).wf(),
            old(self).sound(),
            consistent(old(self).grid(), old(self).n(), old(self).seg()),
        ensures
            final(self).wf(),
            final(self).same_shape(*old(self)),
            final(self).sound(),
            consistent(final(self).grid(), final(self).n(), final(self).seg()),
            extends(old(self).grid(), final(self).grid()),
            forall|h: Seq<u8>| is_solution(h, old(self).n(), old(self).seg()) && #[trigger] old(self).accepts(h)
                ==> final(self).accepts(h),
            final(self).measure() <= old(self).measure(),
            updated ==> final(self).measure() < old(self).measure(),
            !updated <==> old(self).at_fixpoint(),
            !updated ==> final(self).same_state(*old(self)),
    {
        let ghost g0 = self.grid();
        let mut updated = false;
        proof {
            assert(extends(g0, g0));
        }
        let mut i: u8 = 1;
        while i < self.max_val
            invariant
                self.wf(),
                self.same_shape(*old(self)),
                self.sound(),
                consistent(self.grid(), self.n(), self.seg()),
                extends(old(self).grid(), self.grid()),
                forall|h: Seq<u8>| is_solution(h, self.n(), self.seg()) && #[trigger] old(self).accepts(h) ==> self.accepts(h),
                self.measure() <= old(self).measure(),
                updated ==> self.measure() < old(self).measure(),
                !updated ==> self.same_state(*old(self)),
                old(self).at_fixpoint() ==> !updated,
                1 <= i <= self.max_val,
                !updated ==> forall|v: int, r: int, c: int| 1 <= v < i && in_grid(self.n(), r, c)
                    && cell(old(self).grid(), self.n(), r, c) == 0 ==> #[trigger] old(self).no_rule_fires(v, r, c),
            decreases self.max_val - i,
        {
            let mut row: usize = 0;
            while row < self.size
                invariant
                    self.wf(),
                    self.same_shape(*old(self)),
                    self.sound(),
                    consistent(self.grid(), self.n(), self.seg()),
                    extends(old(self).grid(), self.grid()),
                    forall|h: Seq<u8>| is_solution(h, self.n(), self.seg()) && #[trigger] old(self).accepts(h) ==> self.accepts(h),
                    self.measure() <= old(self).measure(),
                    updated ==> self.measure() < old(self).measure(),
                    !updated ==> self.same_state(*old(self)),
                    old(self).at_fixpoint() ==> !updated,
                    1 <= i < self.max_val,
                    row <= self.n(),
                    !updated ==> forall|v: int, r: int, c: int| (1 <= v < i || (v == i && r < row)) && in_grid(self.n(), r, c)
                        && cell(old(self).grid(), self.n(), r, c) == 0 ==> #[trigger] old(self).no_rule_fires(v, r, c),
                decreases self.size - row,
            {
                let (block_start_row_index, block_end_row_index) = self.block_bounds(row);
                let mut col: usize = 0;
                while col < self.size
                    invariant
                        self.wf(),
                        self.same_shape(*old(self)),
                        self.sound(),
                        consistent(self.grid(), self.n(), self.seg()),
                        extends(old(self).grid(), self.grid()),
                        forall|h: Seq<u8>| is_solution(h, self.n(), self.seg()) && #[trigger] old(self).accepts(h) ==> self.accepts(h),
                        self.measure() <= old(self).measure(),
                        updated ==> self.measure() < old(self).measure(),
                        !updated ==> self.same_state(*old(self)),
                        old(self).at_fixpoint() ==> !updated,
                        1 <= i < self.max_val,
                        row < self.n(),
                        col <= self.n(),
                        block_start_row_index == (row as int / self.seg()) * self.seg(),
                        block_end_row_index == block_start_row_index + self.seg(),
                        block_end_row_index <= self.n(),
                        forall|k: int| block_start_row_index <= k < block_end_row_index
                            <==> #[trigger] (k / self.seg()) == row as int / self.seg(),
                        !updated ==> forall|v: int, r: int, c: int|
                            (1 <= v < i || (v == i && (r < row || (r == row && c < col)))) && in_grid(self.n(), r, c)
                            && cell(old(self).grid(), self.n(), r, c) == 0 ==> #[trigger] old(self).no_rule_fires(v, r, c),
                    decreases self.size - col,
                {
                    if self.at(row, col) != 0 {
                        col = col + 1;
                        continue;
                    }
                    let (block_start_col_index, block_end_col_index) = self.block_bounds(col);
                    let ghost before = *self;
                    proof {
                        if !updated {
                            Board::lemma_same_state_rules(before, *old(self), i as int, row as int, col as int);
                        }
                    }
                    if self.naked_single(
                        row,
                        col,
                        block_start_row_index,
                        block_end_row_index,
                        block_start_col_index,
                        block_end_col_index,
                    ) {
                        proof {
                            lemma_extends_trans(old(self).grid(), before.grid(), self.grid());
                            if old(self).at_fixpoint() {
                                assert(old(self).no_rule_fires(i as int, row as int, col as int));
                            }
                        }
                        updated = true;
                        col = col + 1;
                        continue;
                    }
                    if self.only_val_in_block(
                        i,
                        row,
                        col,
                        block_start_row_index,
                        block_end_row_index,
                        block_start_col_index,
                        block_end_col_index,
                    ) {
                        proof {
                            lemma_extends_trans(old(self).grid(), before.grid(), self.grid());
                            if old(self).at_fixpoint() {
                                assert(old(self).no_rule_fires(i as int, row as int, col as int));
                                assert(before.hidden_single(i as int, row as int, col as int, block_start_row_index as int,
                                    block_end_row_index as int, block_start_col_index as int, block_end_col_index as int));
                            }
                        }
                        updated = true;
                        col = col + 1;
                        continue;
                    }
                    let ghost mid = *self;
                    let struck = self.check_mem(
                        i,
                        row,
                        col,
                        block_start_row_index,
                        block_end_row_index,
                        block_start_col_index,
                        block_end_col_index,
                    );
                    if struck {
                        updated = true;
                    }
                    proof {
                        Board::lemma_shrink_sound(before, *self);
                        assert forall|h: Seq<u8>| is_solution(h, self.n(), self.seg()) && #[trigger] old(self).accepts(h)
                            implies self.accepts(h) by {
                            assert(before.accepts(h));
                            Board::lemma_locked_keeps(before, *self, h, i as int, row as int, col as int,
                                block_start_row_index as int, block_end_row_index as int,
                                block_start_col_index as int, block_end_col_index as int);
                        }
                        assert(!before.hidden_single(i as int, row as int, col as int, block_start_row_index as int,
                            block_end_row_index as int, block_start_col_index as int, block_end_col_index as int));
                        if old(self).at_fixpoint() {
                            assert(old(self).no_rule_fires(i as int, row as int, col as int));
                        }
                        if !updated {
                            assert(!before.locked_strikes(i as int, row as int, col as int, block_start_row_index as int,
                                block_end_row_index as int, block_start_col_index as int, block_end_col_index as int));
                            assert(old(self).no_rule_fires(i as int, row as int, col as int));
                        }
                    }
                    col = col + 1;
                }
                row = row + 1;
            }
            i = i + 1;
        }
        updated
    }

    /// Sweeps until a sweep changes nothing. Running it on a board already at a fixpoint
    /// changes nothing.
    fn propagate(&mut self)
        requires
            old(self).wf(),
            old(self).sound(),
            consistent(old(self).grid(), old(self).n(), old(self).seg()),
        ensures
            final(self).wf(),
            final(self).same_shape(*old(self)),
            final(self).sound(),
            consistent(final(self).grid(), final(self).n(), final(self).seg()),
            extends(old(self).grid(), final(self).grid()),
            forall|h: Seq<u8>| is_solution(h, old(self).n(), old(self).seg()) && #[trigger] old(self).accepts(h)
                ==> final(self).accepts(h),
            final(self).at_fixpoint(),
            old(self).at_fixpoint() ==> final(self).same_state(*old(self)),
    {
        let mut updated = true;
        proof {
            assert(extends(old(self).grid(), old(self).grid()));
        }
        while updated
            invariant
                self.wf(),
                self.same_shape(*old(self)),
                self.sound(),
                consistent(self.grid(), self.n(), self.seg()),
                extends(old(self).grid(), self.grid()),
                forall|h: Seq<u8>| is_solution(h, self.n(), self.seg()) && #[trigger] old(self).accepts(h) ==> self.accepts(h),
                !updated ==> self.at_fixpoint(),
                old(self).at_fixpoint() ==> self.same_state(*old(self)),
            decreases self.measure() + if updated { 1int } else { 0int },
        {
            let ghost before = *self;
            proof {
                if old(self).at_fixpoint() {
                    Board::lemma_same_state_fixpoint(before, *old(self));
                }
            }
            updated = self.sweep();
            proof {
                lemma_extends_trans(old(self).grid(), before.grid(), self.grid());
                if !updated {
                    Board::lemma_same_state_fixpoint(*self, before);
                }
                if old(self).at_fixpoint() {
                    assert forall|r: int, c: int, v: int| in_grid(self.n(), r, c) && 0 <= v <= self.n()
                        implies #[trigger] self.cand(r, c, v) == old(self).cand(r, c, v) by {
                        assert(before.cand(r, c, v) == old(self).cand(r, c, v));
                    }
                }
                assert forall|h: Seq<u8>| is_solution(h, self.n(), self.seg()) && #[trigger] old(self).accepts(h)
                    implies self.accepts(h) by {
                    assert(before.accepts(h));
                }
            }
        }
    }

    /// Runs only the propagation engine: fills what the three rules force and leaves
    /// the rest empty. Returns whether every cell ended up assigned. A board whose given
    /// cells already clash is left as it is and reported incomplete.
    pub fn propagate_constraints(&mut self) -> (r: bool)
        requires
            old(self).wf(),
        ensures
            final(self).wf(),
            final(self).n() == old(self).n(),
            final(self).seg() == old(self).seg(),
            !consistent(old(self).grid(), old(self).n(), old(self).seg()) ==> !r && final(self).grid() == old(self).grid(),
            consistent(old(self).grid(), old(self).n(), old(self).seg()) ==> {
                &&& consistent(final(self).grid(), final(self).n(), final(self).seg())
                &&& extends(old(self).grid(), final(self).grid())
                &&& forall|h: Seq<u8>| #[trigger] is_solution(h, old(self).n(), old(self).seg())
                        ==> (extends(old(self).grid(), h) <==> extends(final(self).grid(), h))
                &&& r == complete(final(self).grid())
                &&& final(self).at_fixpoint()
                &&& final(self).sound()
                &&& forall|h: Seq<u8>| #[trigger] is_solution(h, old(self).n(), old(self).seg()) && extends(old(self).grid(), h)
                        ==> forall|rr: int, cc: int| in_grid(old(self).n(), rr, cc) && cell(final(self).grid(), old(self).n(), rr, cc) == 0
                            ==> #[trigger] final(self).cand(rr, cc, cell(h, old(self).n(), rr, cc))
            },
            r ==> is_solution(final(self).grid(), final(self).n(), final(self).seg()),
    {
        let ghost g0 = self.grid();
        if !self.grid_consistent() {
            return false;
        }
        self.init_memory();
        let ghost mid = *self;
        self.propagate();
        proof {
            assert forall|h: Seq<u8>| #[trigger] is_solution(h, self.n(), self.seg())
                implies (extends(g0, h) <==> extends(self.grid(), h)) by {
                if extends(g0, h) {
                    assert(mid.n() == self.n() && mid.seg() == self.seg());
                    assert(is_solution(h, mid.n(), mid.seg()));
                    assert(mid.accepts(h));
                }
                if extends(self.grid(), h) {
                    lemma_extends_trans(g0, self.grid(), h);
                }
            }
        }
        let ghost g1 = self.grid();
        let mut i: usize = 0;
        let n2 = self.cells.len();
        while i < n2
            invariant
                self.wf(),
                self.same_shape(*old(self)),
                self.grid() == g1,
                g0 == old(self).grid(),
                consistent(g0, self.n(), self.seg()),
                consistent(g1, self.n(), self.seg()),
                extends(g0, g1),
                self.at_fixpoint(),
                self.sound(),
                forall|h: Seq<u8>| #[trigger] is_solution(h, self.n(), self.seg()) && extends(g0, h) ==> self.accepts(h),
                forall|h: Seq<u8>| #[trigger] is_solution(h, self.n(), self.seg()) ==> (extends(g0, h) <==> extends(g1, h)),
                n2 == g1.len(),
                i <= n2,
                forall|k: int| 0 <= k < i ==> #[trigger] g1[k] != 0,
            decreases n2 - i,
        {
            if self.cells[i] == 0 {
                return false;
            }
            i = i + 1;
        }
        true
    }
}

} // verus!
