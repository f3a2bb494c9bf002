//! Ordering relations between grid-adjacent cells, and the exported puzzle
//! record.

use vstd::prelude::*;

verus! {

/// A directed ordering constraint between two cells of a 9x9 grid held in
/// row-major order: the value at cell `a` is strictly less than the value at
/// cell `b`.
#[derive(Debug, Clone, Copy, PartialEq, Eq, Structural)]
pub struct Inequality {
    pub a: usize,
    pub b: usize,
}

/// Row of a cell index in a 9x9 row-major grid.
pub open spec fn spec_row(idx: int) -> int {
    idx / 9
}

/// Column of a cell index in a 9x9 row-major grid.
pub open spec fn spec_col(idx: int) -> int {
    idx % 9
}

/// 3x3 block of a cell index in a 9x9 row-major grid.
pub open spec fn spec_block(idx: int) -> int {
    (spec_row(idx) / 3) * 3 + spec_col(idx) / 3
}

impl Inequality {
    /// Both endpoints lie in the same 3x3 block.
    pub open spec fn spec_intra_block(self) -> bool {
        spec_block(self.a as int) == spec_block(self.b as int)
    }

    /// Whether the two related cells share a 3x3 block.
    pub fn is_intra_block(&self) -> (r: bool)
        ensures
            r == self.spec_intra_block(),
    {
        let r_a = self.a / 9;
        let c_a = self.a % 9;
        let r_b = self.b / 9;
        let c_b = self.b % 9;

        let blk_a = (r_a / 3) * 3 + (c_a / 3);
        let blk_b = (r_b / 3) * 3 + (c_b / 3);

        blk_a == blk_b
    }
}

/// First cell of the k-th adjacent pair: the 72 horizontal pairs come
/// first, row by row, then the 72 vertical pairs.
pub open spec fn pair_first(k: int) -> int {
    if k < 72 {
        (k / 8) * 9 + (k % 8)
    } else {
        ((k - 72) / 9) * 9 + ((k - 72) % 9)
    }
}

/// Second cell of the k-th adjacent pair: the right neighbor for the
/// horizontal pairs, the lower neighbor for the vertical ones.
pub open spec fn pair_second(k: int) -> int {
    if k < 72 {
        pair_first(k) + 1
    } else {
        pair_first(k) + 9
    }
}

/// The relation read from the grid for the adjacent cells `x` and `y`,
/// oriented so that it is true under the grid.
pub open spec fn oriented(g: Seq<u8>, x: int, y: int) -> Inequality {
    if g[x] < g[y] {
        Inequality { a: x as usize, b: y as usize }
    } else {
        Inequality { a: y as usize, b: x as usize }
    }
}

/// All 144 ordering relations a complete grid induces on its horizontally
/// and vertically adjacent cell pairs.
pub open spec fn spec_relations(g: Seq<u8>) -> Seq<Inequality> {
    Seq::new(144, |k: int| oriented(g, pair_first(k), pair_second(k)))
}

/// The k-th adjacent pair lies in the grid, is adjacent in a row or a
/// column, and so shares a unit.
pub proof fn lemma_pair_cells(k: int)
    requires
        0 <= k < 144,
    ensures
        0 <= pair_first(k),
        pair_second(k) < 81,
        pair_first(k) < pair_second(k),
        crate::sudoku::same_unit(pair_first(k), pair_second(k)),
{
    if k < 72 {
        let q = k / 8;
        let r = k % 8;
        vstd::arithmetic::div_mod::lemma_fundamental_div_mod(k, 8);
        vstd::arithmetic::div_mod::lemma_mod_bound(k, 8);
        let x = pair_first(k);
        vstd::arithmetic::div_mod::lemma_fundamental_div_mod_converse(x, 9, q, r);
        vstd::arithmetic::div_mod::lemma_fundamental_div_mod_converse(x + 1, 9, q, r + 1);
        assert(spec_row(x) == q && spec_row(x + 1) == q);
    } else {
        let j = k - 72;
        let q = j / 9;
        let r = j % 9;
        vstd::arithmetic::div_mod::lemma_fundamental_div_mod(j, 9);
        vstd::arithmetic::div_mod::lemma_mod_bound(j, 9);
        let x = pair_first(k);
        vstd::arithmetic::div_mod::lemma_fundamental_div_mod_converse(x, 9, q, r);
        vstd::arithmetic::div_mod::lemma_fundamental_div_mod_converse(x + 9, 9, q + 1, r);
        assert(spec_col(x) == r && spec_col(x + 9) == r);
    }
}

/// Every derived relation of a valid complete grid is strict: the grid
/// value at its first cell is strictly below the value at its second cell,
/// and both cells lie in the grid.
pub proof fn lemma_relations_strict(g: Seq<u8>, k: int)
    requires
        crate::sudoku::valid_complete_grid(g),
        0 <= k < 144,
    ensures
        spec_relations(g)[k].a < 81,
        spec_relations(g)[k].b < 81,
        spec_relations(g)[k].a != spec_relations(g)[k].b,
        g[spec_relations(g)[k].a as int] < g[spec_relations(g)[k].b as int],
{
    lemma_pair_cells(k);
    let x = pair_first(k);
    let y = pair_second(k);
    assert(g[x] != g[y]);
}

/// The externally visible puzzle: 81 cells in row-major order, where `-1`
/// marks an unrevealed cell and all other values lie in 1..=9, together with
/// the selected ordering relations.
pub struct Puzzle {
    pub grid: Vec<i8>,
    pub constraints: Vec<Inequality>,
}

/// Derive the full set of ordering relations of a complete grid: one per
/// horizontally adjacent pair and one per vertically adjacent pair, each
/// oriented so it is true under the grid; 144 relations in all.
pub fn generate_from_grid(grid: &crate::sudoku::Grid) -> (r: Vec<Inequality>)
    requires
        grid@.len() == 81,
    ensures
        r@ == spec_relations(grid@),
        r@.len() == 144,
{
    let mut constraints: Vec<Inequality> = Vec::new();

    for row in 0..9usize
        invariant
            grid@.len() == 81,
            constraints@.len() == row * 8,
            forall|k: int|
                #![trigger constraints@[k]]
                0 <= k < row * 8 ==> constraints@[k] == spec_relations(grid@)[k],
    {
        for col in 0..8usize
            invariant
                grid@.len() == 81,
                row < 9,
                constraints@.len() == row * 8 + col,
                forall|k: int|
                    #![trigger constraints@[k]]
                    0 <= k < row * 8 + col ==> constraints@[k] == spec_relations(grid@)[k],
        {
            let idx_a = row * 9 + col;
            let idx_b = row * 9 + col + 1;
            let val_a = grid[idx_a];
            let val_b = grid[idx_b];

            let c = if val_a < val_b {
                Inequality { a: idx_a, b: idx_b }
            } else {
                Inequality { a: idx_b, b: idx_a }
            };
            proof {
                let k = (row * 8 + col) as int;
                vstd::arithmetic::div_mod::lemma_fundamental_div_mod_converse(
                    k,
                    8,
                    row as int,
                    col as int,
                );
                assert(pair_first(k) == idx_a && pair_second(k) == idx_b);
                assert(c == spec_relations(grid@)[k]);
            }
            constraints.push(c);
        }
    }

    for row in 0..8usize
        invariant
            grid@.len() == 81,
            constraints@.len() == 72 + row * 9,
            forall|k: int|
                #![trigger constraints@[k]]
                0 <= k < 72 + row * 9 ==> constraints@[k] == spec_relations(grid@)[k],
    {
        for col in 0..9usize
            invariant
                grid@.len() == 81,
                row < 8,
                constraints@.len() == 72 + row * 9 + col,
                forall|k: int|
                    #![trigger constraints@[k]]
                    0 <= k < 72 + row * 9 + col ==> constraints@[k] == spec_relations(grid@)[k],
        {
            let idx_a = row * 9 + col;
            let idx_b = (row + 1) * 9 + col;
            let val_a = grid[idx_a];
            let val_b = grid[idx_b];

            let c = if val_a < val_b {
                Inequality { a: idx_a, b: idx_b }
            } else {
                Inequality { a: idx_b, b: idx_a }
            };
            proof {
                let k = (72 + row * 9 + col) as int;
                vstd::arithmetic::div_mod::lemma_fundamental_div_mod_converse(
                    k - 72,
                    9,
                    row as int,
                    col as int,
                );
                assert(pair_first(k) == idx_a && pair_second(k) == idx_b);
                assert(c == spec_relations(grid@)[k]);
            }
            constraints.push(c);
        }
    }

    proof {
        assert(constraints@ =~= spec_relations(grid@));
    }
    constraints
}

} // verus!
