//! Synthesis of complete, valid 9x9 Sudoku grids by randomized backtracking.

use vstd::prelude::*;

use crate::solver::has_val;

verus! {

/// A 9x9 grid in row-major order; 81 cells, each holding a value in 1..=9
/// once complete, or 0 while a cell is still empty.
pub type Grid = Vec<u8>;

/// Two cell indices share a row, a column, or a 3x3 block.
pub open spec fn same_unit(i: int, j: int) -> bool {
    ||| crate::futoshiki::spec_row(i) == crate::futoshiki::spec_row(j)
    ||| crate::futoshiki::spec_col(i) == crate::futoshiki::spec_col(j)
    ||| crate::futoshiki::spec_block(i) == crate::futoshiki::spec_block(j)
}

/// Whether two cell indices share a row, a column, or a 3x3 block.
pub fn same_unit_cells(i: usize, j: usize) -> (r: bool)
    requires
        i < 81,
        j < 81,
    ensures
        r == same_unit(i as int, j as int),
{
    let row_i = i / 9;
    let col_i = i % 9;
    let row_j = j / 9;
    let col_j = j % 9;
    let blk_i = (row_i / 3) * 3 + col_i / 3;
    let blk_j = (row_j / 3) * 3 + col_j / 3;
    row_i == row_j || col_i == col_j || blk_i == blk_j
}

/// A fully solved grid: 81 values in 1..=9 with no repetition inside any
/// row, column, or 3x3 block.
pub open spec fn valid_complete_grid(g: Seq<u8>) -> bool {
    &&& g.len() == 81
    &&& forall|i: int| #![trigger g[i]] 0 <= i < 81 ==> 1 <= g[i] <= 9
    &&& forall|i: int, j: int| #![trigger g[i], g[j]]
        0 <= i < 81 && 0 <= j < 81 && i != j && same_unit(i, j) ==> g[i] != g[j]
}

/// Cell `c` (0..9) of row `u` (0..9).
pub open spec fn row_cell(u: int, c: int) -> int {
    u * 9 + c
}

/// Cell `r` (0..9) of column `u` (0..9).
pub open spec fn col_cell(u: int, r: int) -> int {
    r * 9 + u
}

/// Cell `t` (0..9) of the 3x3 block `b` (0..9), in row-major order within
/// the block.
pub open spec fn block_cell(b: int, t: int) -> int {
    ((b / 3) * 3 + t / 3) * 9 + (b % 3) * 3 + t % 3
}

/// Nine pairwise-distinct cells of one unit hold nine pairwise-distinct
/// values in 1..=9, so they hold every value.
proof fn lemma_unit_covers(g: Seq<u8>, cells: Seq<int>, v: u8)
    requires
        valid_complete_grid(g),
        cells.len() == 9,
        forall|i: int| 0 <= i < 9 ==> 0 <= #[trigger] cells[i] < 81,
        forall|i: int, j: int|
            #![trigger cells[i], cells[j]]
            0 <= i < 9 && 0 <= j < 9 && i != j ==> cells[i] != cells[j] && same_unit(
                cells[i],
                cells[j],
            ),
        1 <= v <= 9,
    ensures
        exists|i: int| 0 <= i < 9 && g[#[trigger] cells[i]] == v,
{
    broadcast use vstd::set::group_set_axioms;

    let vals = Seq::new(9, |i: int| g[cells[i]] as int);
    assert(vals.no_duplicates());
    vals.unique_seq_to_set();
    let value_range = vstd::set_lib::set_int_range(1, 10);
    vstd::set_lib::lemma_int_range(1, 10);
    assert forall|x: int| vals.to_set().contains(x) implies value_range.contains(x) by {
        let i = choose|i: int| 0 <= i < vals.len() && vals[i] == x;
        assert(1 <= g[cells[i]] <= 9);
    }
    vstd::set_lib::lemma_len_subset(vals.to_set(), value_range);
    vstd::set_lib::lemma_subset_equality(vals.to_set(), value_range);
    assert(value_range.contains(v as int));
    assert(vals.contains(v as int));
    let i = choose|i: int| 0 <= i < vals.len() && vals[i] == v as int;
    assert(g[cells[i]] == v);
}

/// Every row of a valid complete grid holds every value 1..=9 exactly once:
/// some cell of the row holds it, and no two cells of the row agree.
#[verifier::rlimit(60)]
pub proof fn lemma_row_covers(g: Seq<u8>, u: int, v: u8)
    requires
        valid_complete_grid(g),
        0 <= u < 9,
        1 <= v <= 9,
    ensures
        exists|c: int| 0 <= c < 9 && g[#[trigger] row_cell(u, c)] == v,
        forall|c1: int, c2: int|
            0 <= c1 < 9 && 0 <= c2 < 9 && c1 != c2 ==> g[#[trigger] row_cell(u, c1)] != g[
                #[trigger] row_cell(u, c2)
            ],
{
    let cells = Seq::new(9, |c: int| row_cell(u, c));
    assert forall|i: int, j: int| #![trigger cells[i], cells[j]]
        0 <= i < 9 && 0 <= j < 9 && i != j implies cells[i] != cells[j] && same_unit(
        cells[i],
        cells[j],
    ) by {
        vstd::arithmetic::div_mod::lemma_fundamental_div_mod_converse(u * 9 + i, 9, u, i);
        vstd::arithmetic::div_mod::lemma_fundamental_div_mod_converse(u * 9 + j, 9, u, j);
    }
    lemma_unit_covers(g, cells, v);
    let w = choose|i: int| 0 <= i < 9 && g[#[trigger] cells[i]] == v;
    assert(g[row_cell(u, w)] == v);
}

/// Every column of a valid complete grid holds every value 1..=9 exactly
/// once.
#[verifier::rlimit(60)]
pub proof fn lemma_col_covers(g: Seq<u8>, u: int, v: u8)
    requires
        valid_complete_grid(g),
        0 <= u < 9,
        1 <= v <= 9,
    ensures
        exists|r: int| 0 <= r < 9 && g[#[trigger] col_cell(u, r)] == v,
        forall|r1: int, r2: int|
            0 <= r1 < 9 && 0 <= r2 < 9 && r1 != r2 ==> g[#[trigger] col_cell(u, r1)] != g[
                #[trigger] col_cell(u, r2)
            ],
{
    let cells = Seq::new(9, |r: int| col_cell(u, r));
    assert forall|i: int, j: int| #![trigger cells[i], cells[j]]
        0 <= i < 9 && 0 <= j < 9 && i != j implies cells[i] != cells[j] && same_unit(
        cells[i],
        cells[j],
    ) by {
        vstd::arithmetic::div_mod::lemma_fundamental_div_mod_converse(i * 9 + u, 9, i, u);
        vstd::arithmetic::div_mod::lemma_fundamental_div_mod_converse(j * 9 + u, 9, j, u);
    }
    lemma_unit_covers(g, cells, v);
    let w = choose|i: int| 0 <= i < 9 && g[#[trigger] cells[i]] == v;
    assert(g[col_cell(u, w)] == v);
}

/// Every 3x3 block of a valid complete grid holds every value 1..=9 exactly
/// once.
#[verifier::rlimit(100)]
pub proof fn lemma_block_covers(g: Seq<u8>, b: int, v: u8)
    requires
        valid_complete_grid(g),
        0 <= b < 9,
        1 <= v <= 9,
    ensures
        exists|t: int| 0 <= t < 9 && g[#[trigger] block_cell(b, t)] == v,
        forall|t1: int, t2: int|
            0 <= t1 < 9 && 0 <= t2 < 9 && t1 != t2 ==> g[#[trigger] block_cell(b, t1)] != g[
                #[trigger] block_cell(b, t2)
            ],
{
    let cells = Seq::new(9, |t: int| block_cell(b, t));
    assert forall|i: int, j: int| #![trigger cells[i], cells[j]]
        0 <= i < 9 && 0 <= j < 9 && i != j implies cells[i] != cells[j] && same_unit(
        cells[i],
        cells[j],
    ) by {
        lemma_block_cells_distinct(b, i, j);
    }
    lemma_unit_covers(g, cells, v);
    let w = choose|i: int| 0 <= i < 9 && g[#[trigger] cells[i]] == v;
    assert(g[block_cell(b, w)] == v);
    assert forall|t1: int, t2: int|
        0 <= t1 < 9 && 0 <= t2 < 9 && t1 != t2 implies g[#[trigger] block_cell(b, t1)] != g[
        #[trigger] block_cell(b, t2)
    ] by {
        lemma_block_cells_distinct(b, t1, t2);
    }
}

/// Two different positions of one block name two different cells, and those
/// cells share the block.
proof fn lemma_block_cells_distinct(b: int, i: int, j: int)
    requires
        0 <= b < 9,
        0 <= i < 9,
        0 <= j < 9,
        i != j,
    ensures
        0 <= block_cell(b, i) < 81,
        0 <= block_cell(b, j) < 81,
        block_cell(b, i) != block_cell(b, j),
        same_unit(block_cell(b, i), block_cell(b, j)),
{
    lemma_block_cell_parts(b, i);
    lemma_block_cell_parts(b, j);
    vstd::arithmetic::div_mod::lemma_fundamental_div_mod(i, 3);
    vstd::arithmetic::div_mod::lemma_fundamental_div_mod(j, 3);
    if block_cell(b, i) == block_cell(b, j) {
        assert(i / 3 == j / 3 && i % 3 == j % 3);
        assert(false);
    }
}

/// Row, column, and block of the cells of block `b`: cell `t` lies in row
/// `(b/3)*3 + t/3` and column `(b%3)*3 + t%3`, and its block is `b`.
proof fn lemma_block_cell_parts(b: int, t: int)
    requires
        0 <= b < 9,
        0 <= t < 9,
    ensures
        0 <= block_cell(b, t) < 81,
        crate::futoshiki::spec_row(block_cell(b, t)) == (b / 3) * 3 + t / 3,
        crate::futoshiki::spec_col(block_cell(b, t)) == (b % 3) * 3 + t % 3,
        crate::futoshiki::spec_block(block_cell(b, t)) == b,
{
    vstd::arithmetic::div_mod::lemma_fundamental_div_mod(b, 3);
    vstd::arithmetic::div_mod::lemma_mod_bound(b, 3);
    vstd::arithmetic::div_mod::lemma_fundamental_div_mod(t, 3);
    vstd::arithmetic::div_mod::lemma_mod_bound(t, 3);
    let row = (b / 3) * 3 + t / 3;
    let col = (b % 3) * 3 + t % 3;
    vstd::arithmetic::div_mod::lemma_fundamental_div_mod_converse(row * 9 + col, 9, row, col);
    vstd::arithmetic::div_mod::lemma_fundamental_div_mod_converse(row, 3, b / 3, t / 3);
    vstd::arithmetic::div_mod::lemma_fundamental_div_mod_converse(col, 3, b % 3, t % 3);
}

/// Cells before `n` are filled consistently; cells from `n` on are empty.
pub open spec fn partial_grid_ok(g: Seq<u8>, n: int) -> bool {
    &&& g.len() == 81
    &&& forall|i: int| #![trigger g[i]] 0 <= i < n && i < 81 ==> 1 <= g[i] <= 9
    &&& forall|i: int| #![trigger g[i]] n <= i < 81 ==> g[i] == 0
    &&& forall|i: int, j: int| #![trigger g[i], g[j]]
        0 <= i < n && 0 <= j < n && i < 81 && j < 81 && i != j && same_unit(i, j) ==> g[i] != g[j]
}

/// The complete grid `c` agrees with the first `n` cells of `g`.
pub open spec fn extends_prefix(c: Seq<u8>, g: Seq<u8>, n: int) -> bool {
    forall|t: int| #![trigger c[t]] 0 <= t < n ==> c[t] == g[t]
}

/// The first `n` cells of the grid extend to some valid complete grid.
pub open spec fn extendable(g: Seq<u8>, n: int) -> bool {
    exists|c: Seq<u8>| #![trigger extends_prefix(c, g, n)] valid_complete_grid(c) && extends_prefix(c, g, n)
}

/// Candidate values for cell `idx`: those in 1..=9 that appear nowhere in
/// its row, column, or 3x3 block.
fn collect_candidates(grid: &Grid, idx: usize) -> (c: u16)
    requires
        grid@.len() == 81,
        idx < 81,
        forall|i: int| #![trigger grid@[i]] 0 <= i < 81 ==> grid@[i] <= 9,
    ensures
        c <= 0x1FF,
        forall|v: u16|
            has_val(c, v) <==> (1 <= v <= 9 && (forall|t: int|
                #![trigger grid@[t]]
                0 <= t < 81 && same_unit(t, idx as int) ==> grid@[t] != v)),
{
    let mut cand: u16 = 0x1FF;
    proof {
        assert forall|v: u16| has_val(0x1FFu16, v) <==> 1 <= v <= 9 by {
            if 1 <= v <= 9 {
                assert(0x1FFu16 & (1u16 << ((v - 1) as u16)) != 0) by (bit_vector)
                    requires
                        1 <= v <= 9,
                ;
            }
        }
    }
    for j in 0..81usize
        invariant
            grid@.len() == 81,
            idx < 81,
            forall|i: int| #![trigger grid@[i]] 0 <= i < 81 ==> grid@[i] <= 9,
            cand <= 0x1FF,
            forall|v: u16|
                has_val(cand, v) <==> (1 <= v <= 9 && (forall|t: int|
                    #![trigger grid@[t]]
                    0 <= t < j && same_unit(t, idx as int) ==> grid@[t] != v)),
    {
        if same_unit_cells(j, idx) {
            let gv = grid[j];
            if gv != 0 {
                let prev = cand;
                cand = cand & !(1u16 << ((gv - 1) as u16));
                proof {
                    assert(cand <= prev) by (bit_vector)
                        requires
                            cand == prev & !(1u16 << ((gv - 1) as u16)),
                    ;
                    assert forall|v: u16|
                        has_val(cand, v) <==> (has_val(prev, v) && v != gv) by {
                        if 1 <= v <= 9 {
                            assert((prev & !(1u16 << ((gv - 1) as u16))) & (1u16 << ((v
                                - 1) as u16)) != 0 <==> ((prev & (1u16 << ((v - 1) as u16))) != 0
                                && v != gv as u16)) by (bit_vector)
                                requires
                                    1 <= v <= 9,
                                    1 <= gv <= 9,
                            ;
                        }
                    }
                }
            }
        }
    }
    cand
}

/// Fill cells `idx..81` by randomized backtracking: compute the candidates
/// of the next cell, try them in shuffled order, and recurse; on failure
/// restore the grid exactly as it was.
fn fill_grid(grid: &mut Grid, idx: usize, rng: &mut rand::rngs::ThreadRng) -> (r: bool)
    requires
        partial_grid_ok(old(grid)@, idx as int),
        idx <= 81,
    ensures
        r ==> valid_complete_grid(final(grid)@),
        r ==> forall|i: int| #![trigger final(grid)@[i]] 0 <= i < idx ==> final(grid)@[i] == old(
            grid,
        )@[i],
        !r ==> final(grid)@ == old(grid)@,
        extendable(old(grid)@, idx as int) ==> r,
    decreases 81 - idx,
{
    if idx >= 81 {
        return true;
    }

    let cand = collect_candidates(grid, idx);
    let ghost ext = extendable(old(grid)@, idx as int);
    let ghost cw = if ext {
        choose|c: Seq<u8>|
            valid_complete_grid(c) && extends_prefix(c, old(grid)@, idx as int)
    } else {
        Seq::<u8>::empty()
    };
    proof {
        if ext {
            assert forall|t: int|
                0 <= t < 81 && same_unit(t, idx as int) implies grid@[t] != cw[
                idx as int
            ] by {
                if t < idx {
                    assert(cw[t] == grid@[t]);
                    if t != idx {
                        assert(cw[t] != cw[idx as int]);
                    }
                } else {
                    assert(grid@[t] == 0);
                }
            }
            assert(has_val(cand, cw[idx as int] as u16));
        }
    }

    let mut valid_nums: Vec<u8> = Vec::new();
    for v in 1..10u16
        invariant
            cand <= 0x1FF,
            forall|t: int|
                #![trigger valid_nums@[t]]
                0 <= t < valid_nums@.len() ==> (1 <= valid_nums@[t] <= 9 && has_val(
                    cand,
                    valid_nums@[t] as u16,
                )),
            forall|u: u16|
                1 <= u < v && has_val(cand, u) ==> valid_nums@.contains(u as u8),
    {
        let ghost pre_nums = valid_nums@;
        if cand & (1u16 << ((v - 1) as u16)) != 0 {
            valid_nums.push(v as u8);
        }
        proof {
            assert forall|u: u16|
                1 <= u < v + 1 && has_val(cand, u) implies valid_nums@.contains(u as u8) by {
                if u < v {
                    let w = choose|w: int| 0 <= w < pre_nums.len() && pre_nums[w] == u as u8;
                    assert(valid_nums@[w] == u as u8);
                } else {
                    assert(valid_nums@[valid_nums@.len() - 1] == u as u8);
                }
            }
        }
    }
    if valid_nums.len() == 0 {
        proof {
            if ext {
                assert(valid_nums@.contains(cw[idx as int]));
            }
        }
        return false;
    }

    let ghost pre = valid_nums@;
    crate::rng::shuffle_vec(&mut valid_nums, rng);
    proof {
        broadcast use vstd::seq_lib::group_to_multiset_ensures;

        assert forall|t: int|
            0 <= t < valid_nums@.len() implies (1 <= valid_nums@[t] <= 9 && has_val(
            cand,
            valid_nums@[t] as u16,
        )) by {
            let x = valid_nums@[t];
            assert(valid_nums@.contains(x));
            assert(pre.to_multiset().count(x) > 0);
            assert(pre.contains(x));
        }
        if ext {
            assert(pre.contains(cw[idx as int]));
            assert(valid_nums@.to_multiset().count(cw[idx as int]) > 0);
            assert(valid_nums@.contains(cw[idx as int]));
        }
    }

    let n = valid_nums.len();
    proof {
        if ext {
            let w = choose|w: int| 0 <= w < valid_nums@.len() && valid_nums@[w] == cw[idx as int];
            assert(0 <= w < n as int && valid_nums@[w] == cw[idx as int]);
        }
    }
    for t in 0..n
        invariant
            n == valid_nums@.len(),
            idx < 81,
            partial_grid_ok(grid@, idx as int),
            grid@ == old(grid)@,
            cand <= 0x1FF,
            ext == extendable(old(grid)@, idx as int),
            ext ==> valid_complete_grid(cw) && extends_prefix(cw, old(grid)@, idx as int),
            ext ==> exists|t2: int|
                #![trigger valid_nums@[t2]]
                t <= t2 < n && valid_nums@[t2] == cw[idx as int],
            forall|t2: int|
                #![trigger valid_nums@[t2]]
                0 <= t2 < valid_nums@.len() ==> (1 <= valid_nums@[t2] <= 9 && has_val(
                    cand,
                    valid_nums@[t2] as u16,
                )),
            forall|v: u16|
                has_val(cand, v) <==> (1 <= v <= 9 && (forall|t2: int|
                    #![trigger grid@[t2]]
                    0 <= t2 < 81 && same_unit(t2, idx as int) ==> grid@[t2] != v)),
    {
        let num = valid_nums[t];
        grid[idx] = num;
        proof {
            assert(has_val(cand, num as u16));
            assert forall|j: int|
                0 <= j < idx + 1 && j < 81 && j != idx && same_unit(j, idx as int) implies grid@[j]
                != num by {
                assert(old(grid)@[j] != num as u16);
            }
            assert(partial_grid_ok(grid@, idx + 1));
            if ext && num == cw[idx as int] {
                assert(extends_prefix(cw, grid@, idx + 1));
                assert(extendable(grid@, idx + 1));
            }
        }
        if fill_grid(grid, idx + 1, rng) {
            return true;
        }
        grid[idx] = 0;
        proof {
            assert(grid@ =~= old(grid)@);
            if ext {
                let t2 = choose|t2: int| t <= t2 < n && valid_nums@[t2] == cw[idx as int];
                assert(t2 != t);
                assert(t + 1 <= t2 < n as int && valid_nums@[t2] == cw[idx as int]);
            }
        }
    }
    false
}

/// Synthesize one fully valid, randomly shuffled complete grid. The
/// backtracking search is exhaustive and a completion of the empty grid
/// always exists, so synthesis always succeeds.
pub fn generate_complete_grid() -> (g: Option<Grid>)
    ensures
        g is Some,
        g matches Some(grid) ==> valid_complete_grid(grid@),
{
    let mut grid: Grid = Vec::new();
    for i in 0..81usize
        invariant
            grid@.len() == i,
            forall|j: int| #![trigger grid@[j]] 0 <= j < i ==> grid@[j] == 0,
    {
        grid.push(0);
    }
    let mut rng = crate::rng::fresh_rng();
    proof {
        crate::pattern::lemma_pattern_grid_valid();
        assert(extends_prefix(crate::pattern::pattern_grid(), grid@, 0));
        assert(extendable(grid@, 0));
    }
    if fill_grid(&mut grid, 0, &mut rng) {
        Some(grid)
    } else {
        None
    }
}

} // verus!
