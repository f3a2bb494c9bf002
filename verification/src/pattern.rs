//! A concrete valid complete grid: the witness that synthesis can never
//! run out of completions.

use vstd::prelude::*;

use crate::sudoku::{same_unit, valid_complete_grid};

verus! {

/// Value of the cyclic witness grid at cell `i`: rows shift by three, with
/// the three row-bands offset by one.
#[verifier::opaque]
pub open spec fn pattern_cell(i: int) -> u8 {
    (((3 * ((i / 9) % 3) + (i / 9) / 3 + (i % 9)) % 9) + 1) as u8
}

/// A concrete fully valid grid: witness that complete grids exist.
#[verifier::opaque]
pub open spec fn pattern_grid() -> Seq<u8> {
    Seq::new(81, |i: int| pattern_cell(i))
}

/// Two distinct cells of one unit hold different values in the cyclic
/// witness grid.
#[verifier::rlimit(100)]
proof fn lemma_pattern_distinct(i: int, j: int)
    requires
        0 <= i < 81,
        0 <= j < 81,
        i != j,
        same_unit(i, j),
    ensures
        pattern_cell(i) != pattern_cell(j),
{
    reveal(pattern_cell);
    let ri = i / 9;
    let ci = i % 9;
    let rj = j / 9;
    let cj = j % 9;
    vstd::arithmetic::div_mod::lemma_fundamental_div_mod(i, 9);
    vstd::arithmetic::div_mod::lemma_mod_bound(i, 9);
    vstd::arithmetic::div_mod::lemma_fundamental_div_mod(j, 9);
    vstd::arithmetic::div_mod::lemma_mod_bound(j, 9);
    let ai = ri % 3;
    let bi = ri / 3;
    let aj = rj % 3;
    let bj = rj / 3;
    vstd::arithmetic::div_mod::lemma_fundamental_div_mod(ri, 3);
    vstd::arithmetic::div_mod::lemma_mod_bound(ri, 3);
    vstd::arithmetic::div_mod::lemma_fundamental_div_mod(rj, 3);
    vstd::arithmetic::div_mod::lemma_mod_bound(rj, 3);
    let ki = ci / 3;
    let di = ci % 3;
    let kj = cj / 3;
    let dj = cj % 3;
    vstd::arithmetic::div_mod::lemma_fundamental_div_mod(ci, 3);
    vstd::arithmetic::div_mod::lemma_mod_bound(ci, 3);
    vstd::arithmetic::div_mod::lemma_fundamental_div_mod(cj, 3);
    vstd::arithmetic::div_mod::lemma_mod_bound(cj, 3);
    let keyi = 3 * ai + bi + ci;
    let keyj = 3 * aj + bj + cj;
    vstd::arithmetic::div_mod::lemma_fundamental_div_mod(keyi, 9);
    vstd::arithmetic::div_mod::lemma_mod_bound(keyi, 9);
    vstd::arithmetic::div_mod::lemma_fundamental_div_mod(keyj, 9);
    vstd::arithmetic::div_mod::lemma_mod_bound(keyj, 9);
    if pattern_cell(i) == pattern_cell(j) {
        assert(keyi % 9 == keyj % 9);
        assert(keyi - keyj == 9 * (keyi / 9 - keyj / 9));
        assert(0 <= keyi <= 16 && 0 <= keyj <= 16);
        if crate::futoshiki::spec_row(i) == crate::futoshiki::spec_row(j) {
            assert(keyi - keyj == ci - cj);
            assert(i == j);
        } else if crate::futoshiki::spec_col(i) == crate::futoshiki::spec_col(j) {
            assert(keyi - keyj == 3 * (ai - aj) + (bi - bj));
            assert(ai == aj && bi == bj);
            assert(i == j);
        } else {
            assert(crate::futoshiki::spec_block(i) == crate::futoshiki::spec_block(j));
            assert(3 * bi + ki == 3 * bj + kj);
            assert(bi == bj && ki == kj);
            assert(keyi - keyj == 3 * (ai - aj) + (di - dj));
            assert(ai == aj && di == dj);
            assert(i == j);
        }
    }
}

/// The cyclic witness grid is a valid complete grid, so a complete grid
/// always exists.
pub proof fn lemma_pattern_grid_valid()
    ensures
        valid_complete_grid(pattern_grid()),
{
    reveal(pattern_grid);
    reveal(pattern_cell);
    assert forall|i: int| 0 <= i < 81 implies 1 <= #[trigger] pattern_grid()[i] <= 9 by {
        vstd::arithmetic::div_mod::lemma_mod_bound(3 * ((i / 9) % 3) + (i / 9) / 3 + (i % 9), 9);
    }
    assert forall|i: int, j: int| #![trigger pattern_grid()[i], pattern_grid()[j]]
        0 <= i < 81 && 0 <= j < 81 && i != j && same_unit(i, j) implies pattern_grid()[i]
        != pattern_grid()[j] by {
        lemma_pattern_distinct(i, j);
    }
}

} // verus!
