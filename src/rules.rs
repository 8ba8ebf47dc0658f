//! The rules of the puzzle, stated over a flat row-major grid of bytes.
use vstd::prelude::*;
use vstd::arithmetic::div_mod::lemma_fundamental_div_mod_converse;
use vstd::set_lib::{lemma_int_range, lemma_map_size, lemma_subset_equality, set_int_range};

verus! {

/// Position of cell `(r, c)` in a row-major grid of edge `n`.
pub open spec fn idx(n: int, r: int, c: int) -> int {
    r * n + c
}

/// The value held by cell `(r, c)`.
pub open spec fn cell(g: Seq<u8>, n: int, r: int, c: int) -> int {
    g[idx(n, r, c)] as int
}

/// `(r, c)` is a cell of a grid of edge `n`.
pub open spec fn in_grid(n: int, r: int, c: int) -> bool {
    0 <= r < n && 0 <= c < n
}

/// Two cells lie in the same `s × s` block.
pub open spec fn same_block(s: int, r1: int, c1: int, r2: int, c2: int) -> bool {
    r1 / s == r2 / s && c1 / s == c2 / s
}

/// Two distinct cells that share a row, a column or a block.
pub open spec fn peers(s: int, r1: int, c1: int, r2: int, c2: int) -> bool {
    !(r1 == r2 && c1 == c2) && (r1 == r2 || c1 == c2 || same_block(s, r1, c1, r2, c2))
}

/// `v` appears in no peer of `(r, c)`.
pub open spec fn legal(g: Seq<u8>, n: int, s: int, v: int, r: int, c: int) -> bool {
    forall|r2: int, c2: int|
        in_grid(n, r2, c2) && peers(s, r, c, r2, c2) ==> #[trigger] cell(g, n, r2, c2) != v
}

/// Every assigned cell holds a value that no peer holds.
pub open spec fn consistent(g: Seq<u8>, n: int, s: int) -> bool {
    forall|r: int, c: int|
        in_grid(n, r, c) && #[trigger] cell(g, n, r, c) != 0 ==> legal(g, n, s, cell(g, n, r, c), r, c)
}

/// Every cell holds a value in `[0, n]`.
pub open spec fn in_range(g: Seq<u8>, n: int) -> bool {
    forall|i: int| 0 <= i < g.len() ==> #[trigger] g[i] <= n
}

/// No cell is unassigned.
pub open spec fn complete(g: Seq<u8>) -> bool {
    forall|i: int| 0 <= i < g.len() ==> #[trigger] g[i] != 0
}

/// A fully assigned grid of edge `n` that breaks no rule.
pub open spec fn is_solution(g: Seq<u8>, n: int, s: int) -> bool {
    &&& g.len() == n * n
    &&& in_range(g, n)
    &&& complete(g)
    &&& consistent(g, n, s)
}

/// `h` keeps every assigned cell of `g`.
pub open spec fn extends(g: Seq<u8>, h: Seq<u8>) -> bool {
    &&& g.len() == h.len()
    &&& forall|i: int| 0 <= i < g.len() && #[trigger] g[i] != 0 ==> h[i] == g[i]
}

/// Some solution keeps every assigned cell of `g`.
pub open spec fn solvable(g: Seq<u8>, n: int, s: int) -> bool {
    exists|h: Seq<u8>| is_solution(h, n, s) && extends(g, h)
}

/// Two cells of row `r` hold the same nonzero value.
pub open spec fn row_has_duplicate(g: Seq<u8>, n: int, r: int) -> bool {
    exists|c1: int, c2: int|
        0 <= r < n && 0 <= c1 < n && 0 <= c2 < n && c1 != c2
            && #[trigger] cell(g, n, r, c1) != 0 && cell(g, n, r, c1) == #[trigger] cell(g, n, r, c2)
}

/// Positions of cells lie in the grid, follow row-major order, and give back their cell.
pub proof fn lemma_idx(n: int, r: int, c: int)
    requires
        in_grid(n, r, c),
    ensures
        0 <= idx(n, r, c) < n * n,
        idx(n, r, c) + 1 == if c + 1 < n { idx(n, r, c + 1) } else { idx(n, r + 1, 0) },
        idx(n, r, c) / n == r,
        idx(n, r, c) % n == c,
{
    assert(0 <= r * n + c < n * n) by (nonlinear_arith)
        requires 0 <= r < n, 0 <= c < n;
    assert((r + 1) * n == r * n + n) by (nonlinear_arith);
    lemma_fundamental_div_mod_converse(r * n + c, n, r, c);
}

/// Distinct cells have distinct positions.
pub proof fn lemma_idx_unique(n: int, r1: int, c1: int, r2: int, c2: int)
    requires
        in_grid(n, r1, c1),
        in_grid(n, r2, c2),
        idx(n, r1, c1) == idx(n, r2, c2),
    ensures
        r1 == r2 && c1 == c2,
{
    lemma_idx(n, r1, c1);
    lemma_idx(n, r2, c2);
}

/// Rows `[b*s, b*s + s)` are those whose block index is `b`.
pub proof fn lemma_block_range(s: int, b: int, r: int)
    requires
        s > 0,
        b >= 0,
    ensures
        (b * s <= r < b * s + s) <==> r / s == b,
{
    if b * s <= r < b * s + s {
        lemma_fundamental_div_mod_converse(r, s, b, r - b * s);
    }
    if r / s == b {
        assert(r == s * (r / s) + r % s) by (nonlinear_arith)
            requires s > 0;
        assert(0 <= r % s < s) by (nonlinear_arith)
            requires s > 0;
        assert(s * b == b * s) by (nonlinear_arith);
    }
}

/// An injective map from `n` slots into `[1, n]` reaches every value.
pub proof fn lemma_pigeonhole(f: spec_fn(int) -> int, n: int, v: int)
    requires
        n >= 0,
        1 <= v <= n,
        forall|k: int| 0 <= k < n ==> 1 <= #[trigger] f(k) <= n,
        forall|k1: int, k2: int| 0 <= k1 < n && 0 <= k2 < n && k1 != k2 ==> #[trigger] f(k1) != #[trigger] f(k2),
    ensures
        exists|k: int| 0 <= k < n && #[trigger] f(k) == v,
{
    let x = set_int_range(0, n);
    let y = set_int_range(1, n + 1);
    lemma_int_range(0, n);
    lemma_int_range(1, n + 1);
    let img = x.map(f);
    assert(vstd::relations::injective_on(f, x));
    lemma_map_size(x, img, f);
    assert(img.subset_of(y)) by {
        assert forall|w: int| img.contains(w) implies y.contains(w) by {
            let k = choose|k: int| x.contains(k) && f(k) == w;
        }
    }
    lemma_subset_equality(img, y);
    assert(y.contains(v));
    assert(img.contains(v));
    let k = choose|k: int| x.contains(k) && f(k) == v;
}

/// Position of candidate `v` of cell `(r, c)` in a flat table with `n + 1` slots per cell.
pub open spec fn cand_idx(n: int, r: int, c: int, v: int) -> int {
    idx(n, r, c) * (n + 1) + v
}

/// Positions in the candidate table lie within it.
pub proof fn lemma_cand_idx(n: int, r: int, c: int, v: int)
    requires
        in_grid(n, r, c),
        0 <= v <= n,
    ensures
        0 <= cand_idx(n, r, c, v) < n * n * (n + 1),
{
    lemma_idx(n, r, c);
    let i = idx(n, r, c);
    assert(0 <= i * (n + 1) + v < n * n * (n + 1)) by (nonlinear_arith)
        requires 0 <= i < n * n, 0 <= v <= n;
}

/// Distinct (cell, value) pairs have distinct positions in the candidate table.
pub proof fn lemma_cand_idx_unique(n: int, r1: int, c1: int, v1: int, r2: int, c2: int, v2: int)
    requires
        in_grid(n, r1, c1),
        in_grid(n, r2, c2),
        0 <= v1 <= n,
        0 <= v2 <= n,
        cand_idx(n, r1, c1, v1) == cand_idx(n, r2, c2, v2),
    ensures
        r1 == r2 && c1 == c2 && v1 == v2,
{
    lemma_idx(n, r1, c1);
    lemma_idx(n, r2, c2);
    let i1 = idx(n, r1, c1);
    let i2 = idx(n, r2, c2);
    lemma_fundamental_div_mod_converse(i1 * (n + 1) + v1, n + 1, i1, v1);
    lemma_fundamental_div_mod_converse(i2 * (n + 1) + v2, n + 1, i2, v2);
    lemma_idx_unique(n, r1, c1, r2, c2);
}

/// `v` appears in no cell of row `r` but `(r, c)`.
pub open spec fn row_free(g: Seq<u8>, n: int, v: int, r: int, c: int) -> bool {
    forall|c2: int| 0 <= c2 < n && c2 != c ==> #[trigger] cell(g, n, r, c2) != v
}

/// `v` appears in no cell of column `c` but `(r, c)`.
pub open spec fn col_free(g: Seq<u8>, n: int, v: int, r: int, c: int) -> bool {
    forall|r2: int| 0 <= r2 < n && r2 != r ==> #[trigger] cell(g, n, r2, c) != v
}

/// `v` appears in no other cell of the block of `(r, c)`.
pub open spec fn block_free(g: Seq<u8>, n: int, s: int, v: int, r: int, c: int) -> bool {
    forall|r2: int, c2: int|
        in_grid(n, r2, c2) && same_block(s, r, c, r2, c2) && !(r2 == r && c2 == c)
            ==> #[trigger] cell(g, n, r2, c2) != v
}

/// The row, column and block checks together decide legality.
pub proof fn lemma_free_iff_legal(g: Seq<u8>, n: int, s: int, v: int, r: int, c: int)
    requires
        in_grid(n, r, c),
    ensures
        legal(g, n, s, v, r, c) <==> (row_free(g, n, v, r, c) && col_free(g, n, v, r, c) && block_free(g, n, s, v, r, c)),
{
    if legal(g, n, s, v, r, c) {
        assert forall|c2: int| 0 <= c2 < n && c2 != c implies #[trigger] cell(g, n, r, c2) != v by {
            assert(peers(s, r, c, r, c2));
        }
        assert forall|r2: int| 0 <= r2 < n && r2 != r implies #[trigger] cell(g, n, r2, c) != v by {
            assert(peers(s, r, c, r2, c));
        }
    }
}

/// A solution that keeps the assigned cells of `g` cannot put at `(r, c)` a value that `g` rules out there.
pub proof fn lemma_illegal_excluded(g: Seq<u8>, h: Seq<u8>, n: int, s: int, v: int, r: int, c: int)
    requires
        g.len() == n * n,
        in_grid(n, r, c),
        v != 0,
        !legal(g, n, s, v, r, c),
        is_solution(h, n, s),
        extends(g, h),
    ensures
        cell(h, n, r, c) != v,
{
    let (r2, c2) = choose|r2: int, c2: int|
        in_grid(n, r2, c2) && peers(s, r, c, r2, c2) && #[trigger] cell(g, n, r2, c2) == v;
    lemma_idx(n, r2, c2);
    lemma_idx(n, r, c);
    assert(h[idx(n, r2, c2)] == g[idx(n, r2, c2)]);
    if cell(h, n, r, c) == v {
        assert(legal(h, n, s, v, r, c));
        assert(cell(h, n, r2, c2) != v);
    }
}

/// Placing a legal value in an empty cell keeps a consistent grid consistent.
pub proof fn lemma_assign_consistent(g: Seq<u8>, n: int, s: int, v: u8, r: int, c: int)
    requires
        g.len() == n * n,
        consistent(g, n, s),
        in_grid(n, r, c),
        cell(g, n, r, c) == 0,
        legal(g, n, s, v as int, r, c),
        v != 0,
    ensures
        consistent(g.update(idx(n, r, c), v), n, s),
{
    lemma_idx(n, r, c);
    let g2 = g.update(idx(n, r, c), v);
    assert forall|r1: int, c1: int|
        in_grid(n, r1, c1) && #[trigger] cell(g2, n, r1, c1) != 0 implies legal(g2, n, s, cell(g2, n, r1, c1), r1, c1) by {
        lemma_idx(n, r1, c1);
        assert forall|r2: int, c2: int|
            in_grid(n, r2, c2) && peers(s, r1, c1, r2, c2) implies #[trigger] cell(g2, n, r2, c2) != cell(g2, n, r1, c1) by {
            lemma_idx(n, r2, c2);
            if idx(n, r1, c1) == idx(n, r, c) {
                lemma_idx_unique(n, r1, c1, r, c);
                if idx(n, r2, c2) == idx(n, r, c) {
                    lemma_idx_unique(n, r2, c2, r, c);
                } else {
                    assert(cell(g, n, r2, c2) != v);
                    assert(cell(g2, n, r2, c2) == cell(g, n, r2, c2));
                }
            } else {
                if idx(n, r2, c2) == idx(n, r, c) {
                    lemma_idx_unique(n, r2, c2, r, c);
                    assert(peers(s, r, c, r1, c1));
                    assert(cell(g, n, r1, c1) != v);
                } else {
                    assert(legal(g, n, s, cell(g, n, r1, c1), r1, c1));
                    assert(cell(g, n, r2, c2) != cell(g, n, r1, c1));
                }
            }
        }
    }
}

/// How many entries of `m` are set.
pub open spec fn count_true(m: Seq<bool>) -> nat
    decreases m.len(),
{
    if m.len() == 0 {
        0
    } else {
        count_true(m.drop_last()) + if m.last() { 1nat } else { 0nat }
    }
}

/// How many cells of `g` are empty.
pub open spec fn count_zero(g: Seq<u8>) -> nat
    decreases g.len(),
{
    if g.len() == 0 {
        0
    } else {
        count_zero(g.drop_last()) + if g.last() == 0 { 1nat } else { 0nat }
    }
}

/// Clearing one entry lowers the count by one if it was set, else keeps it.
pub proof fn lemma_count_true_clear(m: Seq<bool>, i: int)
    requires
        0 <= i < m.len(),
    ensures
        count_true(m.update(i, false)) == count_true(m) - if m[i] { 1int } else { 0int },
    decreases m.len(),
{
    let m2 = m.update(i, false);
    if i == m.len() - 1 {
        assert(m2.drop_last() =~= m.drop_last());
    } else {
        assert(m2.drop_last() =~= m.drop_last().update(i, false));
        lemma_count_true_clear(m.drop_last(), i);
    }
}

/// Filling an empty cell lowers the count of empty cells by one; rewriting one keeps it.
pub proof fn lemma_count_zero_fill(g: Seq<u8>, i: int, v: u8)
    requires
        0 <= i < g.len(),
        v != 0,
    ensures
        count_zero(g.update(i, v)) == count_zero(g) - if g[i] == 0 { 1int } else { 0int },
    decreases g.len(),
{
    let g2 = g.update(i, v);
    if i == g.len() - 1 {
        assert(g2.drop_last() =~= g.drop_last());
    } else {
        assert(g2.drop_last() =~= g.drop_last().update(i, v));
        lemma_count_zero_fill(g.drop_last(), i, v);
    }
}

/// `extends` is transitive.
pub proof fn lemma_extends_trans(a: Seq<u8>, b: Seq<u8>, c: Seq<u8>)
    requires
        extends(a, b),
        extends(b, c),
    ensures
        extends(a, c),
{
    assert forall|i: int| 0 <= i < a.len() && #[trigger] a[i] != 0 implies c[i] == a[i] by {
        assert(b[i] == a[i]);
    }
}

/// A grid that some solution extends is consistent.
pub proof fn lemma_solvable_consistent(g: Seq<u8>, n: int, s: int)
    requires
        g.len() == n * n,
        solvable(g, n, s),
    ensures
        consistent(g, n, s),
{
    let h = choose|h: Seq<u8>| is_solution(h, n, s) && extends(g, h);
    assert forall|r: int, c: int| in_grid(n, r, c) && #[trigger] cell(g, n, r, c) != 0
        implies legal(g, n, s, cell(g, n, r, c), r, c) by {
        lemma_idx(n, r, c);
        assert(h[idx(n, r, c)] == g[idx(n, r, c)]);
        assert forall|r2: int, c2: int| in_grid(n, r2, c2) && peers(s, r, c, r2, c2)
            implies #[trigger] cell(g, n, r2, c2) != cell(g, n, r, c) by {
            lemma_idx(n, r2, c2);
            if cell(g, n, r2, c2) == cell(g, n, r, c) {
                assert(h[idx(n, r2, c2)] == g[idx(n, r2, c2)]);
                assert(cell(h, n, r, c) == cell(g, n, r, c));
                assert(cell(h, n, r, c) != 0);
                assert(legal(h, n, s, cell(h, n, r, c), r, c));
                assert(cell(h, n, r2, c2) != cell(h, n, r, c));
            }
        }
    }
}

/// A complete, consistent grid with values in range is its own solution.
pub proof fn lemma_complete_solvable(g: Seq<u8>, n: int, s: int)
    requires
        g.len() == n * n,
        in_range(g, n),
        complete(g),
        consistent(g, n, s),
    ensures
        solvable(g, n, s),
{
    assert(is_solution(g, n, s) && extends(g, g));
}

/// A duplicated value in a row makes the grid inconsistent.
pub proof fn lemma_duplicate_inconsistent(g: Seq<u8>, n: int, s: int, r: int)
    requires
        row_has_duplicate(g, n, r),
    ensures
        !consistent(g, n, s),
{
    let (c1, c2) = choose|c1: int, c2: int|
        0 <= r < n && 0 <= c1 < n && 0 <= c2 < n && c1 != c2
            && #[trigger] cell(g, n, r, c1) != 0 && cell(g, n, r, c1) == #[trigger] cell(g, n, r, c2);
    assert(peers(s, r, c1, r, c2));
    if consistent(g, n, s) {
        assert(legal(g, n, s, cell(g, n, r, c1), r, c1));
        assert(cell(g, n, r, c2) != cell(g, n, r, c1));
    }
}

/// Value `v` sits in exactly one cell of row `r`.
pub open spec fn row_once(g: Seq<u8>, n: int, r: int, v: int) -> bool {
    exists|c: int| 0 <= c < n && #[trigger] cell(g, n, r, c) == v
        && forall|c2: int| 0 <= c2 < n && c2 != c ==> #[trigger] cell(g, n, r, c2) != v
}

/// Value `v` sits in exactly one cell of column `c`.
pub open spec fn col_once(g: Seq<u8>, n: int, c: int, v: int) -> bool {
    exists|r: int| 0 <= r < n && #[trigger] cell(g, n, r, c) == v
        && forall|r2: int| 0 <= r2 < n && r2 != r ==> #[trigger] cell(g, n, r2, c) != v
}

/// Value `v` sits in exactly one cell of the block in block-row `br` and block-column `bc`.
pub open spec fn block_once(g: Seq<u8>, n: int, s: int, br: int, bc: int, v: int) -> bool {
    exists|r: int, c: int| br * s <= r < br * s + s && bc * s <= c < bc * s + s && #[trigger] cell(g, n, r, c) == v
        && forall|r2: int, c2: int| br * s <= r2 < br * s + s && bc * s <= c2 < bc * s + s && !(r2 == r && c2 == c)
            ==> #[trigger] cell(g, n, r2, c2) != v
}

/// In a solution, every row, every column and every block holds each value of
/// `[1, n]` exactly once.
pub proof fn lemma_solution_each_value_once(g: Seq<u8>, n: int, s: int)
    requires
        is_solution(g, n, s),
        s >= 1,
        s * s == n,
    ensures
        forall|r: int, v: int| 0 <= r < n && 1 <= v <= n ==> #[trigger] row_once(g, n, r, v),
        forall|c: int, v: int| 0 <= c < n && 1 <= v <= n ==> #[trigger] col_once(g, n, c, v),
        forall|br: int, bc: int, v: int| 0 <= br < s && 0 <= bc < s && 1 <= v <= n ==> #[trigger] block_once(g, n, s, br, bc, v),
{
    assert forall|r: int, c: int| in_grid(n, r, c) implies 1 <= #[trigger] cell(g, n, r, c) <= n by {
        lemma_idx(n, r, c);
    }
    assert forall|r: int, v: int| 0 <= r < n && 1 <= v <= n implies #[trigger] row_once(g, n, r, v) by {
        let f = |k: int| cell(g, n, r, k);
        assert forall|k1: int, k2: int| 0 <= k1 < n && 0 <= k2 < n && k1 != k2 implies #[trigger] f(k1) != #[trigger] f(k2) by {
            assert(peers(s, r, k1, r, k2));
            assert(legal(g, n, s, cell(g, n, r, k1), r, k1));
        }
        lemma_pigeonhole(f, n, v);
        let c = choose|k: int| 0 <= k < n && #[trigger] f(k) == v;
        assert forall|c2: int| 0 <= c2 < n && c2 != c implies #[trigger] cell(g, n, r, c2) != v by {
            assert(f(c2) != f(c));
        }
    }
    assert forall|c: int, v: int| 0 <= c < n && 1 <= v <= n implies #[trigger] col_once(g, n, c, v) by {
        let f = |k: int| cell(g, n, k, c);
        assert forall|k1: int, k2: int| 0 <= k1 < n && 0 <= k2 < n && k1 != k2 implies #[trigger] f(k1) != #[trigger] f(k2) by {
            assert(peers(s, k1, c, k2, c));
            assert(legal(g, n, s, cell(g, n, k1, c), k1, c));
        }
        lemma_pigeonhole(f, n, v);
        let r = choose|k: int| 0 <= k < n && #[trigger] f(k) == v;
        assert forall|r2: int| 0 <= r2 < n && r2 != r implies #[trigger] cell(g, n, r2, c) != v by {
            assert(f(r2) != f(r));
        }
    }
    assert forall|br: int, bc: int, v: int| 0 <= br < s && 0 <= bc < s && 1 <= v <= n
        implies #[trigger] block_once(g, n, s, br, bc, v) by {
        lemma_block_once(g, n, s, br, bc, v);
    }
}

/// The block case of `lemma_solution_each_value_once`: the block's cells, numbered
/// row by row, map one-to-one onto `[1, n]`.
proof fn lemma_block_once(g: Seq<u8>, n: int, s: int, br: int, bc: int, v: int)
    requires
        is_solution(g, n, s),
        s >= 1,
        s * s == n,
        0 <= br < s,
        0 <= bc < s,
        1 <= v <= n,
        forall|r: int, c: int| in_grid(n, r, c) ==> 1 <= #[trigger] cell(g, n, r, c) <= n,
    ensures
        block_once(g, n, s, br, bc, v),
{
    assert(br * s + s <= n && bc * s + s <= n) by (nonlinear_arith)
        requires 0 <= br < s, 0 <= bc < s, s * s == n;
    assert(br * s >= 0 && bc * s >= 0) by (nonlinear_arith)
        requires 0 <= br, 0 <= bc, s >= 1;
    let f = |k: int| cell(g, n, br * s + k / s, bc * s + k % s);
    assert forall|k: int| 0 <= k < n implies 0 <= #[trigger] (k / s) < s && 0 <= k % s < s by {
        assert(0 <= k / s < s) by (nonlinear_arith)
            requires 0 <= k < s * s, s >= 1;
        assert(0 <= k % s < s) by (nonlinear_arith)
            requires 0 <= k, s >= 1;
    }
    assert forall|k: int| 0 <= k < n implies 1 <= #[trigger] f(k) <= n by {
        assert(0 <= k / s < s);
    }
    assert forall|k1: int, k2: int| 0 <= k1 < n && 0 <= k2 < n && k1 != k2 implies #[trigger] f(k1) != #[trigger] f(k2) by {
        let (r1, c1) = (br * s + k1 / s, bc * s + k1 % s);
        let (r2, c2) = (br * s + k2 / s, bc * s + k2 % s);
        assert(0 <= k1 / s < s && 0 <= k1 % s < s);
        assert(0 <= k2 / s < s && 0 <= k2 % s < s);
        lemma_block_range(s, br, r1);
        lemma_block_range(s, br, r2);
        lemma_block_range(s, bc, c1);
        lemma_block_range(s, bc, c2);
        assert(k1 == s * (k1 / s) + k1 % s) by (nonlinear_arith)
            requires s >= 1;
        assert(k2 == s * (k2 / s) + k2 % s) by (nonlinear_arith)
            requires s >= 1;
        assert(!(r1 == r2 && c1 == c2));
        assert(peers(s, r1, c1, r2, c2));
        assert(legal(g, n, s, cell(g, n, r1, c1), r1, c1));
    }
    lemma_pigeonhole(f, n, v);
    let k = choose|k: int| 0 <= k < n && #[trigger] f(k) == v;
    let (r, c) = (br * s + k / s, bc * s + k % s);
    assert(0 <= k / s < s && 0 <= k % s < s);
    lemma_block_range(s, br, r);
    lemma_block_range(s, bc, c);
    assert forall|r2: int, c2: int| br * s <= r2 < br * s + s && bc * s <= c2 < bc * s + s && !(r2 == r && c2 == c)
        implies #[trigger] cell(g, n, r2, c2) != v by {
        lemma_block_range(s, br, r2);
        lemma_block_range(s, bc, c2);
        assert(peers(s, r, c, r2, c2));
        assert(legal(g, n, s, cell(g, n, r, c), r, c));
    }
}

/// `a` comes no later than `b` in row-major lexicographic order.
pub open spec fn lex_le(a: Seq<u8>, b: Seq<u8>) -> bool {
    a =~= b || exists|k: int| 0 <= k < a.len() && k < b.len() && #[trigger] a[k] < b[k]
        && forall|j: int| 0 <= j < k ==> #[trigger] a[j] == b[j]
}

/// `h` is the lexicographically least solution that keeps the cells of `g`.
pub open spec fn first_solution(h: Seq<u8>, g: Seq<u8>, n: int, s: int) -> bool {
    &&& is_solution(h, n, s)
    &&& extends(g, h)
    &&& forall|h2: Seq<u8>| #[trigger] is_solution(h2, n, s) && extends(g, h2) ==> lex_le(h, h2)
}

/// At most one grid is the least solution of a puzzle: two solvers that each return the
/// least solution return the same grid.
pub proof fn lemma_first_solution_unique(g: Seq<u8>, h1: Seq<u8>, h2: Seq<u8>, n: int, s: int)
    requires
        first_solution(h1, g, n, s),
        first_solution(h2, g, n, s),
    ensures
        h1 == h2,
{
    assert(lex_le(h1, h2));
    assert(lex_le(h2, h1));
    if !(h1 =~= h2) {
        let k1 = choose|k: int| 0 <= k < h1.len() && k < h2.len() && #[trigger] h1[k] < h2[k]
            && forall|j: int| 0 <= j < k ==> #[trigger] h1[j] == h2[j];
        let k2 = choose|k: int| 0 <= k < h2.len() && k < h1.len() && #[trigger] h2[k] < h1[k]
            && forall|j: int| 0 <= j < k ==> #[trigger] h2[j] == h1[j];
        if k1 < k2 {
            assert(h2[k1] == h1[k1]);
        } else if k2 < k1 {
            assert(h1[k2] == h2[k2]);
        }
    }
}

/// Two runs that each succeed exactly on solvable grids and, on success, leave the least
/// solution (as both methods of `Board::solve` do) agree on the outcome and on the grid.
pub proof fn lemma_methods_agree(g: Seq<u8>, n: int, s: int, r1: bool, f1: Seq<u8>, r2: bool, f2: Seq<u8>)
    requires
        r1 <==> solvable(g, n, s),
        r1 ==> first_solution(f1, g, n, s),
        r2 <==> solvable(g, n, s),
        r2 ==> first_solution(f2, g, n, s),
    ensures
        r1 == r2,
        r1 ==> f1 == f2,
{
    if r1 {
        lemma_first_solution_unique(g, f1, f2, n, s);
    }
}

} // verus!
