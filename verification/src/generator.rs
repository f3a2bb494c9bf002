//! Difficulty levels and the puzzle assembly protocol.

use vstd::prelude::*;

use crate::futoshiki::{spec_relations, Inequality, Puzzle};
use crate::solver::cons_in_bounds;
use crate::sudoku::{valid_complete_grid, Grid};

verus! {

/// Ordinary difficulties retry this many attempts before the widened
/// fallback.
pub const MAX_ATTEMPTS: usize = 50;

/// The hints-free variant is intrinsically harder to satisfy and gets a
/// much larger attempt bound, with no fallback.
pub const CLASSIC_MAX_ATTEMPTS: usize = 1000;

/// A named difficulty level. Each level maps to a fraction of inter-block
/// relations to keep, an accepted final hint-count range, and a number of
/// cells revealed unconditionally before the verify loop starts. `Classic`
/// is the hints-free variant: all relations, no numeric reveals.
#[derive(Debug, Clone, Copy, PartialEq, Eq, Structural)]
pub enum Difficulty {
    Easy,
    Normal,
    Hard,
    Expert,
    Classic,
}

/// The level a difficulty name selects; unrecognized names fall back to
/// `Normal`.
pub open spec fn spec_from_str(s: Seq<char>) -> Difficulty {
    if s == "Easy"@ {
        Difficulty::Easy
    } else if s == "Normal"@ {
        Difficulty::Normal
    } else if s == "Hard"@ {
        Difficulty::Hard
    } else if s == "Expert"@ {
        Difficulty::Expert
    } else if s == "Classic"@ {
        Difficulty::Classic
    } else {
        Difficulty::Normal
    }
}

/// Percentage of inter-block relations each level keeps.
pub open spec fn spec_keep_percent(d: Difficulty) -> usize {
    match d {
        Difficulty::Easy => 70,
        Difficulty::Normal => 50,
        Difficulty::Hard => 35,
        Difficulty::Expert => 20,
        Difficulty::Classic => 100,
    }
}

/// Accepted final hint-count range of each level.
pub open spec fn spec_hint_range(d: Difficulty) -> (usize, usize) {
    match d {
        Difficulty::Easy => (30usize, 40usize),
        Difficulty::Normal => (23usize, 29usize),
        Difficulty::Hard => (16usize, 22usize),
        Difficulty::Expert => (8usize, 15usize),
        Difficulty::Classic => (0usize, 0usize),
    }
}

/// Number of cells each level reveals unconditionally.
pub open spec fn spec_initial_reveals(d: Difficulty) -> usize {
    match d {
        Difficulty::Easy => 20,
        Difficulty::Normal => 12,
        Difficulty::Hard => 6,
        Difficulty::Expert => 0,
        Difficulty::Classic => 0,
    }
}

/// Whether two strings hold the same characters.
fn str_eq(a: &str, b: &str) -> (r: bool)
    ensures
        r == (a@ == b@),
{
    let x = a.to_owned();
    let y = b.to_owned();
    x.eq(&y)
}

impl Difficulty {
    /// Parse a difficulty name; unrecognized names fall back to `Normal`.
    pub fn from_str(s: &str) -> (r: Difficulty)
        ensures
            r == spec_from_str(s@),
    {
        if str_eq(s, "Easy") {
            Difficulty::Easy
        } else if str_eq(s, "Normal") {
            Difficulty::Normal
        } else if str_eq(s, "Hard") {
            Difficulty::Hard
        } else if str_eq(s, "Expert") {
            Difficulty::Expert
        } else if str_eq(s, "Classic") {
            Difficulty::Classic
        } else {
            Difficulty::Normal
        }
    }

    /// Share of inter-block relations this level keeps, as a percentage.
    pub fn inter_block_keep_percent(&self) -> (r: usize)
        ensures
            r == spec_keep_percent(*self),
            r <= 100,
    {
        match self {
            Difficulty::Easy => 70,
            Difficulty::Normal => 50,
            Difficulty::Hard => 35,
            Difficulty::Expert => 20,
            Difficulty::Classic => 100,
        }
    }

    /// Accepted range (min, max) of final hint counts for this level.
    pub fn hint_range(&self) -> (r: (usize, usize))
        ensures
            r == spec_hint_range(*self),
    {
        match self {
            Difficulty::Easy => (30, 40),
            Difficulty::Normal => (23, 29),
            Difficulty::Hard => (16, 22),
            Difficulty::Expert => (8, 15),
            Difficulty::Classic => (0, 0),
        }
    }

    /// Number of cells to reveal unconditionally before the verify loop.
    pub fn initial_reveals(&self) -> (r: usize)
        ensures
            r == spec_initial_reveals(*self),
            r <= 81,
    {
        match self {
            Difficulty::Easy => 20,
            Difficulty::Normal => 12,
            Difficulty::Hard => 6,
            Difficulty::Expert => 0,
            Difficulty::Classic => 0,
        }
    }
}

/// Number of revealed cells among the first `n` of an exported grid:
/// those not holding the empty sentinel `-1`.
pub open spec fn spec_hint_count(g: Seq<i8>, n: int) -> int
    decreases n,
{
    if n <= 0 {
        0
    } else {
        spec_hint_count(g, n - 1) + if g[n - 1] != -1 {
            1int
        } else {
            0int
        }
    }
}

/// Number of filled cells among the first `n` of a working grid: those
/// not holding 0.
pub open spec fn spec_filled_count(g: Seq<u8>, n: int) -> int
    decreases n,
{
    if n <= 0 {
        0
    } else {
        spec_filled_count(g, n - 1) + if g[n - 1] != 0 {
            1int
        } else {
            0int
        }
    }
}

proof fn lemma_filled_count_bounds(g: Seq<u8>, n: int)
    ensures
        0 <= spec_filled_count(g, n) <= if n >= 0 {
            n
        } else {
            0
        },
    decreases n,
{
    if n > 0 {
        lemma_filled_count_bounds(g, n - 1);
    }
}

/// Filling one empty cell raises the filled count by one.
proof fn lemma_filled_count_update(g: Seq<u8>, i: int, v: u8, n: int)
    requires
        0 <= i < g.len(),
        n <= g.len(),
        g[i] == 0,
        v != 0,
    ensures
        spec_filled_count(g.update(i, v), n) == spec_filled_count(g, n) + if i < n {
            1int
        } else {
            0int
        },
    decreases n,
{
    if n > 0 {
        lemma_filled_count_update(g, i, v, n - 1);
    }
}

/// Exported and working grids that mark the same cells empty have the same
/// revealed-cell count.
proof fn lemma_export_count(u: Seq<u8>, e: Seq<i8>, n: int)
    requires
        forall|i: int| #![trigger e[i]] 0 <= i < n ==> (e[i] == -1 <==> u[i] == 0),
    ensures
        spec_hint_count(e, n) == spec_filled_count(u, n),
    decreases n,
{
    if n > 0 {
        lemma_export_count(u, e, n - 1);
    }
}

/// Count the filled (nonzero) cells of a working grid.
fn count_filled(grid: &Grid) -> (r: usize)
    requires
        grid@.len() == 81,
    ensures
        r == spec_filled_count(grid@, 81),
        r <= 81,
{
    let mut c: usize = 0;
    for i in 0..81usize
        invariant
            grid@.len() == 81,
            c == spec_filled_count(grid@, i as int),
            c <= i,
    {
        if grid[i] != 0 {
            c = c + 1;
        }
    }
    c
}

/// The puzzle faithfully reflects a hidden complete grid: every revealed
/// cell copies that grid, every selected relation is one the grid induces,
/// and every intra-block relation the grid induces is selected.
pub open spec fn puzzle_from_grid(p: Puzzle, g: Seq<u8>) -> bool {
    &&& valid_complete_grid(g)
    &&& p.grid@.len() == 81
    &&& forall|i: int|
        #![trigger p.grid@[i]]
        0 <= i < 81 ==> (p.grid@[i] == -1 || p.grid@[i] == g[i] as i8)
    &&& p.constraints@.len() <= 144
    &&& cons_in_bounds(p.constraints@)
    &&& forall|k: int|
        #![trigger p.constraints@[k]]
        0 <= k < p.constraints@.len() ==> spec_relations(g).contains(p.constraints@[k])
    &&& forall|k: int|
        #![trigger spec_relations(g)[k]]
        0 <= k < 144 && spec_relations(g)[k].spec_intra_block() ==> p.constraints@.contains(
            spec_relations(g)[k],
        )
}

/// The grid `g` solves the exported puzzle: a valid complete grid that
/// agrees with every revealed cell and satisfies every selected relation.
pub open spec fn puzzle_solution(p: Puzzle, g: Seq<u8>) -> bool {
    &&& valid_complete_grid(g)
    &&& forall|i: int|
        #![trigger p.grid@[i]]
        0 <= i < 81 && p.grid@[i] != -1 ==> g[i] == p.grid@[i] as u8
    &&& crate::solver::constraints_satisfied(g, p.constraints@)
}

/// Hint ranges of adjacent named difficulties are strictly ordered and do
/// not overlap: a harder level's maximum lies below an easier level's
/// minimum, so difficulty is monotonic in the hint count.
pub proof fn lemma_hint_ranges_ordered()
    ensures
        spec_hint_range(Difficulty::Classic).1 < spec_hint_range(Difficulty::Expert).0,
        spec_hint_range(Difficulty::Expert).1 < spec_hint_range(Difficulty::Hard).0,
        spec_hint_range(Difficulty::Hard).1 < spec_hint_range(Difficulty::Normal).0,
        spec_hint_range(Difficulty::Normal).1 < spec_hint_range(Difficulty::Easy).0,
{
}

/// One generation attempt: synthesize a grid, derive and select relations,
/// reveal the initial cells, then reveal further cells until the puzzle is
/// uniquely solvable, and accept only inside the hint range.
#[verifier::loop_isolation(false)]
#[verifier::rlimit(100)]
fn try_generate(
    difficulty: &Difficulty,
    min_hints: usize,
    max_hints: usize,
    initial_reveals: usize,
    rng: &mut rand::rngs::ThreadRng,
) -> (r: Option<Puzzle>)
    requires
        initial_reveals <= 81,
        max_hints <= 81,
    ensures
        r matches Some(p) ==> min_hints <= spec_hint_count(p.grid@, 81) <= max_hints,
        r matches Some(p) ==> (exists|g: Seq<u8>|
            #![trigger puzzle_from_grid(p, g)]
            #![trigger spec_relations(g)]
            puzzle_from_grid(p, g) && (spec_keep_percent(*difficulty) == 100
                ==> p.constraints@.to_multiset() == spec_relations(g).to_multiset())),
        min_hints == 0 && max_hints == 81 ==> r is Some,
        r matches Some(p) ==> forall|g1: Seq<u8>, g2: Seq<u8>|
            puzzle_solution(p, g1) && puzzle_solution(p, g2) ==> g1 == g2,
{
    let full = match crate::sudoku::generate_complete_grid() {
        Some(g) => g,
        None => { return None; },
    };

    let all = crate::futoshiki::generate_from_grid(&full);
    proof {
        assert forall|k: int| 0 <= k < 144 implies (#[trigger] all@[k]).a < 81 && all@[k].b < 81
            && all@.contains(all@[k]) by {
            crate::futoshiki::lemma_relations_strict(full@, k);
        }
    }

    let mut fixed: Vec<Inequality> = Vec::new();
    let mut variable: Vec<Inequality> = Vec::new();
    proof {
        broadcast use vstd::seq_lib::group_to_multiset_ensures;
        broadcast use vstd::multiset::group_multiset_axioms;

        assert(fixed@.to_multiset().add(variable@.to_multiset()) =~= all@.take(0).to_multiset());
    }
    for k in 0..144usize
        invariant
            fixed@.len() + variable@.len() == k,
            fixed@.to_multiset().add(variable@.to_multiset()) == all@.take(
                k as int,
            ).to_multiset(),
            forall|t: int|
                #![trigger fixed@[t]]
                0 <= t < fixed@.len() ==> fixed@[t].spec_intra_block() && all@.contains(
                    fixed@[t],
                ),
            forall|t: int|
                #![trigger variable@[t]]
                0 <= t < variable@.len() ==> all@.contains(variable@[t]),
            forall|k2: int|
                #![trigger all@[k2]]
                0 <= k2 < k && all@[k2].spec_intra_block() ==> fixed@.contains(all@[k2]),
    {
        let c = all[k];
        let ghost fixed0 = fixed@;
        if c.is_intra_block() {
            fixed.push(c);
        } else {
            variable.push(c);
        }
        proof {
            broadcast use vstd::seq_lib::group_to_multiset_ensures;
            broadcast use vstd::multiset::group_multiset_axioms;

            assert(all@.take(k + 1).drop_last() =~= all@.take(k as int));
            assert(all@.take(k + 1) =~= all@.take(k as int).push(all@[k as int]));
            assert(fixed@.to_multiset().add(variable@.to_multiset()) =~= all@.take(
                k + 1,
            ).to_multiset());
            assert forall|k2: int|
                0 <= k2 < k + 1 && (#[trigger] all@[k2]).spec_intra_block() implies fixed@.contains(
                all@[k2],
            ) by {
                if k2 < k {
                    let w = choose|w: int| 0 <= w < fixed0.len() && fixed0[w] == all@[k2];
                    assert(fixed@[w] == all@[k2]);
                } else {
                    assert(fixed@[fixed@.len() - 1] == all@[k2]);
                }
            }
        }
    }
    proof {
        broadcast use vstd::seq_lib::to_multiset_len;

        assert(all@.take(144) =~= all@);
        assert(variable@.len() <= 144);
    }

    let ghost vpre = variable@;
    crate::rng::shuffle_vec(&mut variable, rng);
    proof {
        broadcast use vstd::seq_lib::group_to_multiset_ensures;

        assert forall|t: int| 0 <= t < variable@.len() implies all@.contains(
            #[trigger] variable@[t],
        ) by {
            let x = variable@[t];
            assert(variable@.contains(x));
            assert(vpre.to_multiset().count(x) > 0);
            assert(vpre.contains(x));
            let w = choose|w: int| 0 <= w < vpre.len() && vpre[w] == x;
            assert(all@.contains(vpre[w]));
        }
    }

    let keep_pct = difficulty.inter_block_keep_percent();
    let keep_count = (variable.len() * keep_pct) / 100;
    proof {
        assert(variable@.len() * keep_pct <= variable@.len() * 100) by (nonlinear_arith)
            requires
                keep_pct <= 100,
        ;
        vstd::arithmetic::div_mod::lemma_div_is_ordered(
            (variable@.len() * keep_pct) as int,
            (variable@.len() * 100) as int,
            100,
        );
        vstd::arithmetic::div_mod::lemma_div_multiples_vanish(variable@.len() as int, 100);
        assert(keep_count <= variable@.len());
    }

    let ghost gfixed = fixed@;
    let mut constraints = fixed;
    for t in 0..keep_count
        invariant
            constraints@ == gfixed + variable@.take(t as int),
    {
        constraints.push(variable[t]);
        proof {
            assert(gfixed + variable@.take(t + 1) =~= (gfixed + variable@.take(t as int)).push(
                variable@[t as int],
            ));
        }
    }
    proof {
        assert(constraints@.len() <= 144);
        assert forall|k: int| 0 <= k < constraints@.len() implies spec_relations(full@).contains(
            #[trigger] constraints@[k],
        ) && constraints@[k].a < 81 && constraints@[k].b < 81 by {
            if k < gfixed.len() {
                assert(constraints@[k] == gfixed[k]);
            } else {
                assert(constraints@[k] == variable@[k - gfixed.len()]);
            }
            let w = choose|w: int| 0 <= w < all@.len() && all@[w] == constraints@[k];
            crate::futoshiki::lemma_relations_strict(full@, w);
        }
        assert forall|k: int|
            0 <= k < 144 && (#[trigger] spec_relations(full@)[k]).spec_intra_block() implies
            constraints@.contains(spec_relations(full@)[k]) by {
            let w = choose|w: int| 0 <= w < gfixed.len() && gfixed[w] == spec_relations(full@)[k];
            assert(constraints@[w] == spec_relations(full@)[k]);
        }
        assert forall|k: int| #![trigger constraints@[k]]
            0 <= k < constraints@.len() implies full@[constraints@[k].a as int] < full@[
            constraints@[k].b as int
        ] by {
            let w = choose|w: int|
                0 <= w < spec_relations(full@).len() && spec_relations(full@)[w]
                    == constraints@[k];
            crate::futoshiki::lemma_relations_strict(full@, w);
        }
        assert(crate::solver::constraints_satisfied(full@, constraints@));
    }

    let mut puzzle_grid: Grid = Vec::new();
    for i in 0..81usize
        invariant
            puzzle_grid@.len() == i,
            forall|j: int| #![trigger puzzle_grid@[j]] 0 <= j < i ==> puzzle_grid@[j] == 0,
    {
        puzzle_grid.push(0);
    }

    let mut indices: Vec<usize> = Vec::new();
    for i in 0..81usize
        invariant
            indices@.len() == i,
            forall|j: int| #![trigger indices@[j]] 0 <= j < i ==> indices@[j] < 81,
    {
        indices.push(i);
    }
    let ghost ipre = indices@;
    crate::rng::shuffle_vec(&mut indices, rng);
    proof {
        broadcast use vstd::seq_lib::group_to_multiset_ensures;

        assert forall|t: int| 0 <= t < indices@.len() implies #[trigger] indices@[t] < 81 by {
            let x = indices@[t];
            assert(indices@.contains(x));
            assert(ipre.to_multiset().count(x) > 0);
            assert(ipre.contains(x));
            let w = choose|w: int| 0 <= w < ipre.len() && ipre[w] == x;
            assert(ipre[w] < 81);
        }
    }

    for t in 0..initial_reveals
        invariant
            puzzle_grid@.len() == 81,
            forall|i: int|
                #![trigger puzzle_grid@[i]]
                0 <= i < 81 ==> (puzzle_grid@[i] == 0 || puzzle_grid@[i] == full@[i]),
    {
        let idx = indices[t];
        puzzle_grid[idx] = full[idx];
    }

    let ghost mut unique_ok: bool = false;
    loop
        invariant
            puzzle_grid@.len() == 81,
            forall|i: int|
                #![trigger puzzle_grid@[i]]
                0 <= i < 81 ==> (puzzle_grid@[i] == 0 || puzzle_grid@[i] == full@[i]),
            unique_ok ==> !crate::solver::two_solutions(puzzle_grid@, constraints@),
        decreases 81 - spec_filled_count(puzzle_grid@, 81),
    {
        proof {
            unique_ok = false;
            lemma_filled_count_bounds(puzzle_grid@, 81);
        }
        let hint_count = count_filled(&puzzle_grid);
        if hint_count > max_hints {
            return None;
        }

        let count = crate::solver::count_solutions(&puzzle_grid, constraints.as_slice(), 2);

        if count == 1 {
            proof {
                unique_ok = true;
            }
            break;
        }
        if count == 0 {
            // the hidden complete grid always solves the current instance,
            // so the engine's completeness rules this out
            proof {
                assert(crate::solver::solution_for(puzzle_grid@, constraints@, full@));
            }
            return None;
        }

        let mut unrevealed: Vec<usize> = Vec::new();
        for i in 0..81usize
            invariant
                forall|t: int|
                    #![trigger unrevealed@[t]]
                    0 <= t < unrevealed@.len() ==> (unrevealed@[t] < 81 && puzzle_grid@[
                        unrevealed@[t] as int
                    ] == 0),
                unrevealed@.len() == 0 ==> forall|i2: int|
                    #![trigger puzzle_grid@[i2]]
                    0 <= i2 < i ==> puzzle_grid@[i2] != 0,
        {
            if puzzle_grid[i] == 0 {
                unrevealed.push(i);
            }
        }
        if unrevealed.len() == 0 {
            // every cell is revealed: the fixed cells determine any
            // solution completely, so two distinct ones cannot exist
            proof {
                if crate::solver::two_solutions(puzzle_grid@, constraints@) {
                    let (g1, g2) = choose|g1: Seq<u8>, g2: Seq<u8>|
                        crate::solver::solution_for(puzzle_grid@, constraints@, g1)
                            && crate::solver::solution_for(puzzle_grid@, constraints@, g2) && g1
                            != g2;
                    assert forall|i2: int| 0 <= i2 < 81 implies g1[i2] == g2[i2] by {
                        assert(puzzle_grid@[i2] != 0);
                    }
                    assert(g1 =~= g2);
                }
                unique_ok = true;
            }
            break;
        }

        let pick_i = crate::rng::rand_below(rng, unrevealed.len());
        let pick = unrevealed[pick_i];
        proof {
            lemma_filled_count_update(puzzle_grid@, pick as int, full@[pick as int], 81);
        }
        puzzle_grid[pick] = full[pick];
        proof {
            lemma_filled_count_bounds(puzzle_grid@, 81);
        }
    }

    let final_hint_count = count_filled(&puzzle_grid);
    if final_hint_count < min_hints || final_hint_count > max_hints {
        return None;
    }

    let mut export_grid: Vec<i8> = Vec::new();
    for i in 0..81usize
        invariant
            export_grid@.len() == i,
            forall|t: int|
                #![trigger export_grid@[t]]
                0 <= t < i ==> ((export_grid@[t] == -1 <==> puzzle_grid@[t] == 0) && (
                puzzle_grid@[t] != 0 ==> export_grid@[t] == puzzle_grid@[t] as i8)),
    {
        let gv = puzzle_grid[i];
        if gv != 0 {
            export_grid.push(gv as i8);
        } else {
            export_grid.push(-1);
        }
    }

    let p = Puzzle { grid: export_grid, constraints };
    proof {
        lemma_export_count(puzzle_grid@, p.grid@, 81);
        assert(puzzle_from_grid(p, full@));
        if spec_keep_percent(*difficulty) == 100 {
            broadcast use vstd::seq_lib::group_to_multiset_ensures;

            assert(variable@.take(keep_count as int) =~= variable@);
            vstd::seq_lib::lemma_multiset_commutative(gfixed, variable@);
            assert(p.constraints@.to_multiset() =~= spec_relations(full@).to_multiset());
        }
        assert forall|g1: Seq<u8>, g2: Seq<u8>|
            puzzle_solution(p, g1) && puzzle_solution(p, g2) implies g1 == g2 by {
            assert forall|i: int|
                0 <= i < 81 && puzzle_grid@[i] != 0 implies g1[i] == puzzle_grid@[i] && g2[i]
                == puzzle_grid@[i] by {
                assert(p.grid@[i] != -1 && p.grid@[i] == puzzle_grid@[i] as i8);
            }
            assert(crate::solver::solution_for(puzzle_grid@, constraints@, g1));
            assert(crate::solver::solution_for(puzzle_grid@, constraints@, g2));
            if g1 != g2 {
                assert(crate::solver::two_solutions(puzzle_grid@, constraints@));
            }
        }
    }
    Some(p)
}

/// Generate a puzzle of the named difficulty: repeat attempts up to the
/// difficulty's bound; ordinary difficulties then make one fallback attempt
/// with the hint range widened to 0..=81, while the hints-free variant
/// reports exhaustion as `None` rather than relax its contract.
#[verifier::loop_isolation(false)]
pub fn generate(difficulty_str: &str) -> (r: Option<Puzzle>)
    ensures
        r matches Some(p) ==> (exists|g: Seq<u8>|
            #[trigger] puzzle_from_grid(p, g) && (spec_from_str(difficulty_str@) is Classic
                ==> p.constraints@.to_multiset() == spec_relations(g).to_multiset())),
        r matches Some(p) ==> (spec_from_str(difficulty_str@) is Classic ==> spec_hint_count(
            p.grid@,
            81,
        ) == 0 && p.constraints@.len() == 144),
        !(spec_from_str(difficulty_str@) is Classic) ==> r is Some,
        r matches Some(p) ==> forall|g1: Seq<u8>, g2: Seq<u8>|
            puzzle_solution(p, g1) && puzzle_solution(p, g2) ==> g1 == g2,
{
    let difficulty = Difficulty::from_str(difficulty_str);
    let (min_hints, max_hints) = difficulty.hint_range();
    let initial_reveals = difficulty.initial_reveals();
    let mut rng = crate::rng::fresh_rng();

    let max_tries: usize = match difficulty {
        Difficulty::Classic => CLASSIC_MAX_ATTEMPTS,
        _ => MAX_ATTEMPTS,
    };

    let mut attempt: usize = 0;
    while attempt < max_tries
        decreases max_tries - attempt,
    {
        let result = try_generate(&difficulty, min_hints, max_hints, initial_reveals, &mut rng);
        if let Some(p) = result {
            proof {
                lemma_accepted_puzzle(p, difficulty, difficulty_str@);
            }
            return Some(p);
        }
        attempt = attempt + 1;
    }

    match difficulty {
        Difficulty::Classic => None,
        _ => {
            let result = try_generate(&difficulty, 0, 81, initial_reveals, &mut rng);
            if let Some(p) = result {
                proof {
                    lemma_accepted_puzzle(p, difficulty, difficulty_str@);
                }
                Some(p)
            } else {
                None
            }
        },
    }
}

/// An accepted puzzle of the hints-free variant carries the full relation
/// multiset of its hidden grid, hence exactly 144 relations.
proof fn lemma_accepted_puzzle(p: Puzzle, difficulty: Difficulty, s: Seq<char>)
    requires
        difficulty == spec_from_str(s),
        exists|g: Seq<u8>|
            #[trigger] puzzle_from_grid(p, g) && (spec_keep_percent(difficulty) == 100
                ==> p.constraints@.to_multiset() == spec_relations(g).to_multiset()),
    ensures
        exists|g: Seq<u8>|
            #[trigger] puzzle_from_grid(p, g) && (spec_from_str(s) is Classic
                ==> p.constraints@.to_multiset() == spec_relations(g).to_multiset()),
        spec_from_str(s) is Classic ==> p.constraints@.len() == 144,
{
    broadcast use vstd::seq_lib::to_multiset_len;

    let g = choose|g: Seq<u8>|
        #[trigger] puzzle_from_grid(p, g) && (spec_keep_percent(difficulty) == 100
            ==> p.constraints@.to_multiset() == spec_relations(g).to_multiset());
    assert(puzzle_from_grid(p, g));
    if spec_from_str(s) is Classic {
        assert(spec_keep_percent(difficulty) == 100);
        assert(p.constraints@.to_multiset().len() == p.constraints@.len());
        assert(spec_relations(g).to_multiset().len() == spec_relations(g).len());
        assert(p.constraints@.len() == spec_relations(g).len());
    }
}

} // verus!
