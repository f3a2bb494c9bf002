//! Propagation and search over bitset candidate domains.
//!
//! Each cell of the 9x9 grid carries a 9-bit domain: bit `v - 1` set means
//! the value `v` in 1..=9 is still possible for that cell. The solver counts
//! full assignments consistent with a partial grid and a set of ordering
//! relations, up to a caller-supplied cap.

use vstd::prelude::*;

use crate::futoshiki::Inequality;
use crate::sudoku::Grid;

verus! {

/// Domain with every value 1..=9 still allowed.
pub const ALL_ALLOWED: u16 = 0x1FF;

/// Value `v` (in 1..=9) is still a candidate in domain `m`.
pub open spec fn has_val(m: u16, v: u16) -> bool {
    1 <= v <= 9 && (m & (1u16 << ((v - 1) as u16))) != 0
}

/// The domain holding exactly the value `v`.
pub open spec fn val_mask(v: u16) -> u16 {
    1u16 << ((v - 1) as u16)
}

/// The domain has exactly one bit set: the cell is effectively assigned.
pub open spec fn singleton_mask(m: u16) -> bool {
    m != 0 && (m & ((m - 1) as u16)) == 0
}

/// A live domain: nonempty, and only bits of values 1..=9.
pub open spec fn wf_mask(m: u16) -> bool {
    0 < m <= 0x1FF
}

/// The search state: one candidate domain per cell. The state is the only
/// structure mutated during search, and it is copied, never shared, when the
/// search branches.
#[derive(Clone, Copy)]
pub struct State {
    pub domains: [u16; 81],
}

impl State {
    /// Every cell has a live domain.
    pub open spec fn wf(self) -> bool {
        &&& self.domains@.len() == 81
        &&& forall|i: int| #![trigger self.domains@[i]] 0 <= i < 81 ==> wf_mask(self.domains@[i])
    }

    /// Domain of cell `i`.
    pub open spec fn dom(self, i: int) -> u16 {
        self.domains@[i]
    }

    /// The fresh state: all 81 domains fully open.
    pub fn new() -> (s: State)
        ensures
            s.wf(),
            forall|i: int| 0 <= i < 81 ==> s.dom(i) == ALL_ALLOWED,
    {
        State { domains: [ALL_ALLOWED; 81] }
    }

    /// Intersect the domain of `idx` with `mask`. The intersection is kept
    /// only if it is nonempty; an empty intersection reports failure and
    /// leaves the state unchanged.
    pub fn restrict(&mut self, idx: usize, mask: u16) -> (r: bool)
        requires
            old(self).wf(),
            idx < 81,
        ensures
            final(self).wf(),
            r == ((old(self).dom(idx as int) & mask) != 0),
            r ==> final(self).domains@ == old(self).domains@.update(
                idx as int,
                (old(self).dom(idx as int) & mask) as u16,
            ),
            !r ==> final(self).domains@ == old(self).domains@,
    {
        let current = self.domains[idx];
        let new_domain = current & mask;
        if new_domain == current {
            proof {
                assert(self.domains@.update(idx as int, new_domain) =~= self.domains@);
            }
            return true;
        }
        if new_domain == 0 {
            return false;
        }
        proof {
            assert(new_domain <= 0x1FF) by (bit_vector)
                requires
                    new_domain == current & mask,
                    current <= 0x1FF,
            ;
        }
        self.domains[idx] = new_domain;
        true
    }
}

/// Sum of all domain masks: the measure that shrinks as the search narrows.
pub closed spec fn dsum(s: Seq<u16>) -> int
    decreases s.len(),
{
    if s.len() == 0 {
        0
    } else {
        s.last() + dsum(s.drop_last())
    }
}

pub proof fn lemma_dsum_nonneg(s: Seq<u16>)
    ensures
        dsum(s) >= 0,
    decreases s.len(),
{
    if s.len() > 0 {
        lemma_dsum_nonneg(s.drop_last());
    }
}

pub proof fn lemma_dsum_update(s: Seq<u16>, i: int, v: u16)
    requires
        0 <= i < s.len(),
    ensures
        dsum(s.update(i, v)) == dsum(s) - s[i] + v,
    decreases s.len(),
{
    let t = s.update(i, v);
    if i == s.len() - 1 {
        assert(t.drop_last() =~= s.drop_last());
    } else {
        assert(t.drop_last() =~= s.drop_last().update(i, v));
        lemma_dsum_update(s.drop_last(), i, v);
    }
}

pub proof fn lemma_dsum_pointwise_le(s: Seq<u16>, t: Seq<u16>)
    requires
        s.len() == t.len(),
        forall|i: int| 0 <= i < s.len() ==> s[i] <= t[i],
    ensures
        dsum(s) <= dsum(t),
    decreases s.len(),
{
    if s.len() > 0 {
        lemma_dsum_pointwise_le(s.drop_last(), t.drop_last());
    }
}

/// Intersection never grows a mask.
proof fn lemma_and_le(x: u16, y: u16)
    ensures
        (x & y) <= x,
{
    assert((x & y) <= x) by (bit_vector);
}

/// A value present in a one-candidate domain determines the whole domain.
proof fn lemma_singleton_has(m: u16, v: u16)
    requires
        singleton_mask(m),
        has_val(m, v),
    ensures
        m == val_mask(v),
{
    assert(m == 1u16 << ((v - 1) as u16)) by (bit_vector)
        requires
            m != 0,
            m & ((m - 1) as u16) == 0,
            1 <= v <= 9,
            m & (1u16 << ((v - 1) as u16)) != 0,
    ;
}

/// The one-value domain of `v` is live, holds `v`, and holds nothing else.
proof fn lemma_val_mask_props(v: u16)
    requires
        1 <= v <= 9,
    ensures
        wf_mask(val_mask(v)),
        singleton_mask(val_mask(v)),
        has_val(val_mask(v), v),
        (0x1FFu16 & val_mask(v)) == val_mask(v),
{
    assert(0 < (1u16 << ((v - 1) as u16)) <= 0x1FF && ((1u16 << ((v - 1) as u16)) & (((1u16 << ((v
        - 1) as u16)) - 1) as u16)) == 0 && ((1u16 << ((v - 1) as u16)) & (1u16 << ((v
        - 1) as u16))) != 0 && (0x1FFu16 & (1u16 << ((v - 1) as u16))) == (1u16 << ((v
        - 1) as u16))) by (bit_vector)
        requires
            1 <= v <= 9,
    ;
}

/// Removing one value's bit from a one-value domain empties it exactly
/// when the two values agree.
proof fn lemma_mask_self_remove(x: u16, y: u16)
    requires
        1 <= x <= 9,
        1 <= y <= 9,
    ensures
        ((val_mask(x) & !val_mask(y)) == 0) == (x == y),
{
    assert((((1u16 << ((x - 1) as u16)) & !(1u16 << ((y - 1) as u16))) == 0) == (x == y))
        by (bit_vector)
        requires
            1 <= x <= 9,
            1 <= y <= 9,
    ;
}

/// One-value domains compare exactly as the values they hold.
proof fn lemma_val_mask_order(x: u16, y: u16)
    requires
        1 <= x <= 9,
        1 <= y <= 9,
    ensures
        (val_mask(x) < val_mask(y)) == (x < y),
{
    assert(((1u16 << ((x - 1) as u16)) < (1u16 << ((y - 1) as u16))) == (x < y)) by (bit_vector)
        requires
            1 <= x <= 9,
            1 <= y <= 9,
    ;
}

/// Number of candidate values in a domain.
pub open spec fn dom_count(m: u16) -> int {
    (if has_val(m, 1) { 1int } else { 0int }) + (if has_val(m, 2) { 1int } else { 0int }) + (
    if has_val(m, 3) { 1int } else { 0int }) + (if has_val(m, 4) { 1int } else { 0int }) + (
    if has_val(m, 5) { 1int } else { 0int }) + (if has_val(m, 6) { 1int } else { 0int }) + (
    if has_val(m, 7) { 1int } else { 0int }) + (if has_val(m, 8) { 1int } else { 0int }) + (
    if has_val(m, 9) { 1int } else { 0int })
}

/// Number of candidates in a 9-bit domain, with the facts the search needs:
/// zero means empty, one means assigned.
pub fn popcount9(m: u16) -> (r: u16)
    requires
        m <= 0x1FF,
    ensures
        r == dom_count(m),
        r <= 9,
        (r == 0) == (m == 0),
        (r == 1) == singleton_mask(m),
{
    proof {
        assert((m & 1) <= 1 && ((m >> 1) & 1) <= 1 && ((m >> 2) & 1) <= 1 && ((m >> 3) & 1) <= 1
            && ((m >> 4) & 1) <= 1 && ((m >> 5) & 1) <= 1 && ((m >> 6) & 1) <= 1 && ((m >> 7) & 1)
            <= 1 && ((m >> 8) & 1) <= 1) by (bit_vector);
    }
    let r = (m & 1) + ((m >> 1) & 1) + ((m >> 2) & 1) + ((m >> 3) & 1) + ((m >> 4) & 1) + ((m >> 5)
        & 1) + ((m >> 6) & 1) + ((m >> 7) & 1) + ((m >> 8) & 1);
    proof {
        assert(r <= 9 && ((r == 0) == (m == 0)) && ((r == 1) == (m != 0 && (m & ((m - 1) as u16))
            == 0))) by (bit_vector)
            requires
                m <= 0x1FF,
                r == (m & 1) + ((m >> 1) & 1) + ((m >> 2) & 1) + ((m >> 3) & 1) + ((m >> 4) & 1) + (
                (m >> 5) & 1) + ((m >> 6) & 1) + ((m >> 7) & 1) + ((m >> 8) & 1),
        ;
        assert((m & 1) == (if (m & (1u16 << ((1u16 - 1) as u16))) != 0 { 1u16 } else { 0u16 })
            && ((m >> 1) & 1) == (if (m & (1u16 << ((2u16 - 1) as u16))) != 0 { 1u16 } else { 0u16 })
            && ((m >> 2) & 1) == (if (m & (1u16 << ((3u16 - 1) as u16))) != 0 { 1u16 } else { 0u16 })
            && ((m >> 3) & 1) == (if (m & (1u16 << ((4u16 - 1) as u16))) != 0 { 1u16 } else { 0u16 })
            && ((m >> 4) & 1) == (if (m & (1u16 << ((5u16 - 1) as u16))) != 0 { 1u16 } else { 0u16 })
            && ((m >> 5) & 1) == (if (m & (1u16 << ((6u16 - 1) as u16))) != 0 { 1u16 } else { 0u16 })
            && ((m >> 6) & 1) == (if (m & (1u16 << ((7u16 - 1) as u16))) != 0 { 1u16 } else { 0u16 })
            && ((m >> 7) & 1) == (if (m & (1u16 << ((8u16 - 1) as u16))) != 0 { 1u16 } else { 0u16 })
            && ((m >> 8) & 1) == (if (m & (1u16 << ((9u16 - 1) as u16))) != 0 { 1u16 } else { 0u16 }))
            by (bit_vector);
    }
    r
}

/// Smallest candidate still possible in a nonempty domain.
pub fn get_min(mask: u16) -> (r: u8)
    requires
        wf_mask(mask),
    ensures
        1 <= r <= 9,
        has_val(mask, r as u16),
        forall|u: u16| 1 <= u < r ==> !has_val(mask, u),
{
    let tz = mask.trailing_zeros();
    proof {
        vstd::std_specs::bits::axiom_u16_trailing_zeros(mask);
        let t = tz as u16;
        assert(t <= 8 && (mask & (1u16 << t)) != 0) by (bit_vector)
            requires
                mask <= 0x1FF,
                t < 16,
                (mask >> t) & 1u16 == 1u16,
        ;
        assert forall|u: u16| 1 <= u < tz + 1 implies !has_val(mask, u) by {
            assert((mask >> ((u - 1) as u16)) & 1u16 == 0u16);
            assert((mask >> ((u - 1) as u16)) & 1u16 == 0u16 ==> mask & (1u16 << ((u
                - 1) as u16)) == 0) by (bit_vector);
        }
    }
    (tz as u8) + 1
}

/// Largest candidate still possible in a nonempty domain.
pub fn get_max(mask: u16) -> (r: u8)
    requires
        wf_mask(mask),
    ensures
        1 <= r <= 9,
        has_val(mask, r as u16),
        forall|u: u16| r < u <= 9 ==> !has_val(mask, u),
{
    let lz = mask.leading_zeros();
    proof {
        vstd::std_specs::bits::axiom_u16_leading_zeros(mask);
        let t = lz as u16;
        assert(t >= 7 && (mask & (1u16 << ((15 - t) as u16))) != 0) by (bit_vector)
            requires
                mask <= 0x1FF,
                mask != 0,
                t < 16,
                (mask >> ((15 - t) as u16)) & 1u16 != 0u16,
        ;
        assert forall|u: u16| 16 - lz < u <= 9 implies !has_val(mask, u) by {
            assert((mask >> ((u - 1) as u16)) & 1u16 == 0u16);
            assert((mask >> ((u - 1) as u16)) & 1u16 == 0u16 ==> mask & (1u16 << ((u
                - 1) as u16)) == 0) by (bit_vector);
        }
    }
    16 - (lz as u8)
}

/// Keep only the candidates strictly below `val`.
pub fn filter_lt(mask: u16, val: u8) -> (r: u16)
    requires
        mask <= 0x1FF,
        val <= 9,
    ensures
        r <= mask,
        forall|v: u16| has_val(r, v) <==> (has_val(mask, v) && v < val),
{
    if val <= 1 {
        proof {
            assert forall|v: u16| !has_val(0u16, v) by {
                assert(0u16 & (1u16 << ((v - 1) as u16)) == 0) by (bit_vector);
            }
        }
        return 0;
    }
    let limit_bit = 1u16 << ((val - 1) as u16);
    proof {
        assert(1u16 << (((val - 1) as u16) as u16) >= 2) by (bit_vector)
            requires
                2 <= val <= 9,
        ;
    }
    let keep_mask = limit_bit - 1;
    let r = mask & keep_mask;
    proof {
        assert(r <= mask) by (bit_vector)
            requires
                r == mask & keep_mask,
        ;
        assert forall|v: u16| has_val(r, v) <==> (has_val(mask, v) && v < val) by {
            if 1 <= v <= 9 {
                assert((mask & (((1u16 << ((val - 1) as u16)) - 1) as u16)) & (1u16 << ((v
                    - 1) as u16)) != 0 <==> ((mask & (1u16 << ((v - 1) as u16))) != 0 && v
                    < val)) by (bit_vector)
                    requires
                        2 <= val <= 9,
                        1 <= v <= 9,
                ;
            }
        }
    }
    r
}

/// Keep only the candidates strictly above `val`.
pub fn filter_gt(mask: u16, val: u8) -> (r: u16)
    requires
        mask <= 0x1FF,
        val <= 9,
    ensures
        r <= mask,
        forall|v: u16| has_val(r, v) <==> (has_val(mask, v) && v > val),
{
    proof {
        assert(1u16 << ((val as u16) as u16) >= 1) by (bit_vector)
            requires
                val <= 9,
        ;
    }
    let remove_mask = (1u16 << (val as u16)) - 1;
    let r = mask & !remove_mask;
    proof {
        assert(r <= mask) by (bit_vector)
            requires
                r == mask & !remove_mask,
        ;
        assert forall|v: u16| has_val(r, v) <==> (has_val(mask, v) && v > val) by {
            if 1 <= v <= 9 {
                assert((mask & !(((1u16 << (val as u16)) - 1) as u16)) & (1u16 << ((v
                    - 1) as u16)) != 0 <==> ((mask & (1u16 << ((v - 1) as u16))) != 0 && v
                    > val)) by (bit_vector)
                    requires
                        val <= 9,
                        1 <= v <= 9,
                ;
            }
        }
    }
    r
}

/// Every cell of the state is effectively assigned.
pub open spec fn all_singleton(s: State) -> bool {
    forall|i: int| 0 <= i < 81 ==> singleton_mask(s.dom(i))
}

/// Every relation names two cells of the grid.
pub open spec fn cons_in_bounds(cs: Seq<Inequality>) -> bool {
    forall|k: int| #![trigger cs[k]] 0 <= k < cs.len() ==> cs[k].a < 81 && cs[k].b < 81
}

/// For an all-assigned state: every relation's left domain lies strictly
/// below its right domain, which for one-value domains is exactly "left
/// value below right value".
pub open spec fn masks_ordered(s: State, cs: Seq<Inequality>) -> bool {
    forall|k: int| #![trigger cs[k]] 0 <= k < cs.len() ==> s.dom(cs[k].a as int) < s.dom(
        cs[k].b as int,
    )
}

/// Every cell of the partial grid holds a value in 1..=9.
pub open spec fn grid_fully_assigned(g: Seq<u8>) -> bool {
    forall|i: int| #![trigger g[i]] 0 <= i < 81 ==> 1 <= g[i] <= 9
}

/// Every relation holds of the grid: the value at its first cell is
/// strictly below the value at its second cell.
pub open spec fn constraints_satisfied(g: Seq<u8>, cs: Seq<Inequality>) -> bool {
    forall|k: int| #![trigger cs[k]] 0 <= k < cs.len() ==> g[cs[k].a as int] < g[cs[k].b as int]
}

/// A full assignment is compatible with the domains: every cell's value is
/// still a candidate there.
pub open spec fn compat(doms: Seq<u16>, g: Seq<u8>) -> bool {
    &&& doms.len() == 81
    &&& g.len() == 81
    &&& forall|i: int| #![trigger g[i]] 0 <= i < 81 ==> has_val(doms[i], g[i] as u16)
}

/// The fixed cells of a partial grid are mutually consistent: no two fixed
/// cells of one row, column, or 3x3 block agree, and no relation with both
/// endpoints fixed is violated.
pub open spec fn fixed_cells_consistent(g: Seq<u8>, cs: Seq<Inequality>) -> bool {
    &&& forall|i: int, j: int| #![trigger g[i], g[j]]
        0 <= i < 81 && 0 <= j < 81 && i != j && crate::sudoku::same_unit(i, j) && g[i] != 0
            ==> g[i] != g[j]
    &&& forall|k: int| #![trigger cs[k]]
        0 <= k < cs.len() && g[cs[k].a as int] != 0 && g[cs[k].b as int] != 0 ==> g[cs[k].a as int]
            < g[cs[k].b as int]
}

/// A full solution of the puzzle instance: a valid complete grid that
/// extends the fixed cells and satisfies every ordering relation.
pub open spec fn solution_for(init: Seq<u8>, cs: Seq<Inequality>, g: Seq<u8>) -> bool {
    &&& crate::sudoku::valid_complete_grid(g)
    &&& constraints_satisfied(g, cs)
    &&& forall|i: int| #![trigger init[i]] 0 <= i < 81 && init[i] != 0 ==> g[i] == init[i]
}

/// Two distinct valid full assignments, both drawn from the domains and
/// both satisfying the relations.
pub open spec fn two_sols_state(s: State, cs: Seq<Inequality>, g1: Seq<u8>, g2: Seq<u8>) -> bool {
    &&& compat(s.domains@, g1)
    &&& crate::sudoku::valid_complete_grid(g1)
    &&& constraints_satisfied(g1, cs)
    &&& compat(s.domains@, g2)
    &&& crate::sudoku::valid_complete_grid(g2)
    &&& constraints_satisfied(g2, cs)
    &&& g1 != g2
}

/// Some full solution of the puzzle instance exists.
pub open spec fn has_solution(init: Seq<u8>, cs: Seq<Inequality>) -> bool {
    exists|g: Seq<u8>| #![trigger solution_for(init, cs, g)] solution_for(init, cs, g)
}

/// Two distinct full solutions of the puzzle instance exist.
pub open spec fn two_solutions(init: Seq<u8>, cs: Seq<Inequality>) -> bool {
    exists|g1: Seq<u8>, g2: Seq<u8>|
        #![trigger solution_for(init, cs, g1), solution_for(init, cs, g2)]
        solution_for(init, cs, g1) && solution_for(init, cs, g2) && g1 != g2
}

/// Clearing the bit of one value keeps every other value.
proof fn lemma_mask_remove_other(m: u16, x: u16, y: u16)
    requires
        has_val(m, x),
        1 <= y <= 9,
        x != y,
    ensures
        has_val((m & !val_mask(y)) as u16, x),
{
    assert((m & !(1u16 << ((y - 1) as u16))) & (1u16 << ((x - 1) as u16)) != 0) by (bit_vector)
        requires
            m & (1u16 << ((x - 1) as u16)) != 0,
            1 <= x <= 9,
            1 <= y <= 9,
            x != y,
    ;
}

/// A nonempty 9-bit domain holds at least one candidate value.
proof fn lemma_nonzero_has_val(m: u16)
    requires
        0 < m <= 0x1FF,
    ensures
        exists|v: u16| has_val(m, v),
{
    if forall|v: u16| !has_val(m, v) {
        lemma_no_vals_empty(m, m);
    }
}

/// A solution value on the lower side of a relation survives the sweep's
/// lower filter: it lies strictly below the upper side's largest candidate.
proof fn lemma_sweep_keeps_lower(da: u16, db: u16, max_b: u16, new_da: u16, va: u16, vb: u16)
    requires
        1 <= max_b <= 9,
        forall|u: u16| max_b < u <= 9 ==> !has_val(db, u),
        forall|v: u16| has_val(new_da, v) <==> (has_val(da, v) && v < max_b),
        has_val(da, va),
        has_val(db, vb),
        va < vb,
    ensures
        has_val(new_da, va),
{
    assert(vb <= max_b);
}

/// A solution value on the upper side of a relation survives the sweep's
/// upper filter: it lies strictly above the lower side's smallest
/// candidate.
proof fn lemma_sweep_keeps_upper(da: u16, db: u16, min_a: u16, new_db: u16, va: u16, vb: u16)
    requires
        1 <= min_a <= 9,
        forall|u: u16| 1 <= u < min_a ==> !has_val(da, u),
        forall|v: u16| has_val(new_db, v) <==> (has_val(db, v) && v > min_a),
        has_val(da, va),
        has_val(db, vb),
        va < vb,
    ensures
        has_val(new_db, vb),
{
    assert(va >= min_a);
}

/// Sudoku exclusion from an assigned cell preserves every valid complete
/// assignment that was compatible with the domains.
proof fn lemma_sudoku_exclusion_preserves(pre: Seq<u16>, post: Seq<u16>, idx: int, g: Seq<u8>)
    requires
        pre.len() == 81,
        post.len() == 81,
        0 <= idx < 81,
        singleton_mask(pre[idx]),
        forall|j: int| #![trigger post[j]]
            0 <= j < 81 ==> post[j] == (if j != idx && crate::sudoku::same_unit(j, idx) {
                (pre[j] & !pre[idx]) as u16
            } else {
                pre[j]
            }),
        compat(pre, g),
        crate::sudoku::valid_complete_grid(g),
    ensures
        compat(post, g),
{
    lemma_singleton_has(pre[idx], g[idx] as u16);
    assert forall|i: int| 0 <= i < 81 implies has_val(post[i], #[trigger] g[i] as u16) by {
        if i != idx && crate::sudoku::same_unit(i, idx) {
            assert(g[i] != g[idx]);
            lemma_mask_remove_other(pre[i], g[i] as u16, g[idx] as u16);
        }
    }
}

/// If Sudoku exclusion from an assigned cell empties some unit peer, no
/// valid complete assignment is compatible with the domains.
proof fn lemma_sudoku_exclusion_fails(pre: Seq<u16>, idx: int, j: int, g: Seq<u8>)
    requires
        pre.len() == 81,
        0 <= idx < 81,
        0 <= j < 81,
        j != idx,
        crate::sudoku::same_unit(j, idx),
        singleton_mask(pre[idx]),
        (pre[j] & !pre[idx]) == 0,
    ensures
        !(compat(pre, g) && crate::sudoku::valid_complete_grid(g)),
{
    if compat(pre, g) && crate::sudoku::valid_complete_grid(g) {
        lemma_singleton_has(pre[idx], g[idx] as u16);
        assert(g[j] != g[idx]);
        lemma_mask_remove_other(pre[j], g[j] as u16, g[idx] as u16);
        assert(has_val(0u16, g[j] as u16));
        assert(0u16 & (1u16 << (((g[j] as u16) - 1) as u16)) == 0) by (bit_vector);
    }
}

impl State {
    /// Collapse the domain of every already-given cell of the partial grid
    /// to that single value; report failure if any such intersection is
    /// empty.
    pub fn apply_initial(&mut self, grid: &Grid) -> (r: bool)
        requires
            old(self).wf(),
            grid@.len() == 81,
            forall|i: int| #![trigger grid@[i]] 0 <= i < 81 ==> grid@[i] <= 9,
        ensures
            final(self).wf(),
            forall|i: int| 0 <= i < 81 ==> final(self).dom(i) <= old(self).dom(i),
            r ==> forall|i: int|
                0 <= i < 81 ==> final(self).dom(i) == (if grid@[i] == 0 {
                    old(self).dom(i)
                } else {
                    (old(self).dom(i) & val_mask(grid@[i] as u16)) as u16
                }),
            r == (forall|i: int|
                0 <= i < 81 ==> (grid@[i] == 0 || (old(self).dom(i) & val_mask(
                    grid@[i] as u16,
                )) != 0)),
    {
        let ghost s0 = *self;
        for i in 0..81usize
            invariant
                self.wf(),
                s0.wf(),
                grid@.len() == 81,
                forall|t: int| #![trigger grid@[t]] 0 <= t < 81 ==> grid@[t] <= 9,
                s0 == *old(self),
                forall|t: int| 0 <= t < 81 ==> self.dom(t) <= s0.dom(t),
                forall|t: int| i <= t < 81 ==> self.dom(t) == s0.dom(t),
                forall|t: int|
                    0 <= t < i ==> self.dom(t) == (if grid@[t] == 0 {
                        s0.dom(t)
                    } else {
                        (s0.dom(t) & val_mask(grid@[t] as u16)) as u16
                    }),
                forall|t: int|
                    0 <= t < i ==> (grid@[t] == 0 || (s0.dom(t) & val_mask(grid@[t] as u16))
                        != 0),
        {
            let gv = grid[i];
            if gv > 0 {
                let mask = 1u16 << ((gv - 1) as u16);
                proof {
                    assert(mask == val_mask(gv as u16));
                    lemma_and_le(s0.dom(i as int), mask);
                }
                if !self.restrict(i, mask) {
                    proof {
                        assert(!(grid@[i as int] == 0 || (s0.dom(i as int) & val_mask(
                            grid@[i as int] as u16,
                        )) != 0));
                    }
                    return false;
                }
            }
        }
        true
    }
}

/// Remove the single assigned value of cell `idx` from the domain of every
/// other cell in its row, column, and 3x3 block; report failure if one of
/// those domains empties. A cell that is not yet assigned propagates
/// nothing.
pub fn propagate_sudoku(state: &mut State, idx: usize) -> (r: bool)
    requires
        old(state).wf(),
        idx < 81,
    ensures
        final(state).wf(),
        forall|i: int| 0 <= i < 81 ==> final(state).dom(i) <= old(state).dom(i),
        !singleton_mask(old(state).dom(idx as int)) ==> r && final(state).domains@ == old(state).domains@,
        singleton_mask(old(state).dom(idx as int)) ==> r == (forall|j: int|
            0 <= j < 81 && j != idx && crate::sudoku::same_unit(j, idx as int) ==> (old(state).dom(j) & !old(state).dom(idx as int)) != 0),
        singleton_mask(old(state).dom(idx as int)) && r ==> forall|j: int|
            #![trigger old(state).domains@[j]]
            0 <= j < 81 ==> final(state).dom(j) == (if j != idx && crate::sudoku::same_unit(
                j,
                idx as int,
            ) {
                (old(state).dom(j) & !old(state).dom(idx as int)) as u16
            } else {
                old(state).dom(j)
            }),
{
    let assigned_val = state.domains[idx];
    let ones = popcount9(assigned_val);
    if ones != 1 {
        return true;
    }
    let keep = !assigned_val;
    let ghost s0 = *state;
    for j in 0..81usize
        invariant
            state.wf(),
            s0.wf(),
            idx < 81,
            s0 == *old(state),
            s0.dom(idx as int) == assigned_val,
            singleton_mask(assigned_val),
            keep == !assigned_val,
            forall|t: int| #![trigger state.domains@[t]] 0 <= t < 81 ==> state.dom(t) <= s0.dom(t),
            forall|t: int| #![trigger state.domains@[t]] j <= t < 81 ==> state.dom(t) == s0.dom(t),
            forall|t: int| #![trigger state.domains@[t]]
                0 <= t < j ==> state.dom(t) == (if t != idx && crate::sudoku::same_unit(
                    t,
                    idx as int,
                ) {
                    (s0.dom(t) & keep) as u16
                } else {
                    s0.dom(t)
                }),
            forall|t: int| #![trigger s0.domains@[t]]
                0 <= t < j && t != idx && crate::sudoku::same_unit(t, idx as int) ==> (s0.dom(t)
                    & keep) != 0,
    {
        if j != idx && crate::sudoku::same_unit_cells(j, idx) {
            proof {
                lemma_and_le(s0.dom(j as int), keep);
            }
            if !state.restrict(j, keep) {
                return false;
            }
        }
    }
    true
}

/// Run the ordering-relation sweep to a fixed point: for each relation
/// (a, b), remove from a's domain every value at or above b's largest
/// candidate, and from b's domain every value at or below a's smallest
/// candidate. Report failure as soon as a domain empties. Domains only ever
/// shrink; on an all-assigned state the sweep succeeds without any change
/// exactly when every relation holds.
pub fn propagate_all(state: &mut State, constraints: &[Inequality]) -> (r: bool)
    requires
        old(state).wf(),
        cons_in_bounds(constraints@),
    ensures
        final(state).wf(),
        forall|i: int| 0 <= i < 81 ==> final(state).dom(i) <= old(state).dom(i),
        r ==> forall|c: int|
            0 <= c < 81 && singleton_mask(old(state).dom(c)) ==> final(state).dom(c) == old(
                state,
            ).dom(c),
        (exists|k: int|
            #![trigger constraints@[k]]
            0 <= k < constraints@.len() && singleton_mask(
                old(state).dom(constraints@[k].a as int),
            ) && singleton_mask(old(state).dom(constraints@[k].b as int)) && old(state).dom(
                constraints@[k].a as int,
            ) >= old(state).dom(constraints@[k].b as int)) ==> !r,
        forall|g: Seq<u8>| #![trigger compat(old(state).domains@, g)]
            compat(old(state).domains@, g) && constraints_satisfied(g, constraints@) ==> compat(
                final(state).domains@,
                g,
            ),
        !r ==> forall|g: Seq<u8>| #![trigger compat(old(state).domains@, g)]
            !(compat(old(state).domains@, g) && constraints_satisfied(g, constraints@)),
        all_singleton(*old(state)) && masks_ordered(*old(state), constraints@) ==> r && final(state).domains@ == old(state).domains@,
        all_singleton(*old(state)) && !masks_ordered(*old(state), constraints@) ==> !r,
{
    let ghost s0 = *state;
    let mut changed = true;
    while changed
        invariant
            state.wf(),
            s0.wf(),
            cons_in_bounds(constraints@),
            s0 == *old(state),
            forall|i: int| 0 <= i < 81 ==> state.dom(i) <= s0.dom(i),
            forall|c: int| 0 <= c < 81 && singleton_mask(s0.dom(c)) ==> state.dom(c) == s0.dom(c),
            forall|g: Seq<u8>| #![trigger compat(s0.domains@, g)]
                compat(s0.domains@, g) && constraints_satisfied(g, constraints@) ==> compat(
                    state.domains@,
                    g,
                ),
            all_singleton(s0) ==> state.domains@ == s0.domains@,
            all_singleton(s0) && !changed ==> masks_ordered(s0, constraints@),
            !changed ==> forall|k2: int|
                #![trigger constraints@[k2]]
                0 <= k2 < constraints@.len() ==> !(singleton_mask(s0.dom(constraints@[k2].a as int))
                    && singleton_mask(s0.dom(constraints@[k2].b as int)) && s0.dom(
                    constraints@[k2].a as int,
                ) >= s0.dom(constraints@[k2].b as int)),
        decreases dsum(state.domains@), (if changed {
            1int
        } else {
            0int
        }),
    {
        changed = false;
        let n = constraints.len();
        let ghost dpass = dsum(state.domains@);
        for k in 0..n
            invariant
                state.wf(),
                s0.wf(),
                cons_in_bounds(constraints@),
                s0 == *old(state),
                n == constraints@.len(),
                forall|i: int| 0 <= i < 81 ==> state.dom(i) <= s0.dom(i),
                forall|c: int|
                    0 <= c < 81 && singleton_mask(s0.dom(c)) ==> state.dom(c) == s0.dom(c),
                forall|g: Seq<u8>| #![trigger compat(s0.domains@, g)]
                    compat(s0.domains@, g) && constraints_satisfied(g, constraints@) ==> compat(
                        state.domains@,
                        g,
                    ),
                changed ==> dsum(state.domains@) < dpass,
                !changed ==> dsum(state.domains@) == dpass,
                forall|k2: int|
                    #![trigger constraints@[k2]]
                    0 <= k2 < k ==> !(singleton_mask(s0.dom(constraints@[k2].a as int))
                        && singleton_mask(s0.dom(constraints@[k2].b as int)) && s0.dom(
                        constraints@[k2].a as int,
                    ) >= s0.dom(constraints@[k2].b as int)),
                all_singleton(s0) ==> state.domains@ == s0.domains@ && !changed && (forall|k2: int|
                    #![trigger constraints@[k2]]
                    0 <= k2 < k ==> s0.dom(constraints@[k2].a as int) < s0.dom(
                        constraints@[k2].b as int,
                    )),
        {
            let ghost sit = *state;
            let ineq = constraints[k];
            let da = state.domains[ineq.a];
            let db = state.domains[ineq.b];

            let min_a = get_min(da);
            let max_b = get_max(db);

            let new_da = filter_lt(da, max_b);
            proof {
                if singleton_mask(s0.dom(ineq.a as int)) && singleton_mask(s0.dom(ineq.b as int)) {
                    assert(da == s0.dom(ineq.a as int) && db == s0.dom(ineq.b as int));
                    lemma_singleton_has(da, min_a as u16);
                    lemma_singleton_has(db, max_b as u16);
                    lemma_val_mask_order(min_a as u16, max_b as u16);
                    if da < db {
                        // the relation holds between the two assigned
                        // values: a's single value survives the filter
                        assert(has_val(new_da, min_a as u16));
                        lemma_singleton_has_unique(da, min_a as u16, new_da);
                    } else {
                        // the relation fails between the two assigned
                        // values: a's domain empties
                        assert(forall|v: u16| !has_val(new_da, v));
                        lemma_no_vals_empty(new_da, da);
                    }
                }
            }
            if new_da != da {
                if new_da == 0 {
                    proof {
                        assert forall|g: Seq<u8>|
                            !(compat(s0.domains@, g) && constraints_satisfied(
                                g,
                                constraints@,
                            )) by {
                            if compat(s0.domains@, g) && constraints_satisfied(g, constraints@) {
                                assert(compat(sit.domains@, g));
                                assert(constraints@[k as int] == ineq);
                                assert(g[ineq.a as int] < g[ineq.b as int]);
                                if ineq.a != ineq.b {
                                    lemma_sweep_keeps_lower(
                                        da,
                                        db,
                                        max_b as u16,
                                        new_da,
                                        g[ineq.a as int] as u16,
                                        g[ineq.b as int] as u16,
                                    );
                                    assert(0u16 & (1u16 << (((g[ineq.a as int] as u16)
                                        - 1) as u16)) == 0) by (bit_vector);
                                }
                            }
                        }
                    }
                    return false;
                }
                proof {
                    lemma_dsum_update(state.domains@, ineq.a as int, new_da);
                    if singleton_mask(s0.dom(ineq.a as int)) {
                        lemma_nonzero_has_val(new_da);
                        let v = choose|v: u16| has_val(new_da, v);
                        lemma_singleton_has_unique(da, v, new_da);
                    }
                }
                state.domains[ineq.a] = new_da;
                changed = true;
            }
            let new_db = filter_gt(db, min_a);
            proof {
                if singleton_mask(s0.dom(ineq.a as int)) && singleton_mask(s0.dom(ineq.b as int))
                    && da < db {
                    assert(has_val(new_db, max_b as u16));
                    lemma_singleton_has_unique(db, max_b as u16, new_db);
                }
            }
            if new_db != db {
                if new_db == 0 {
                    proof {
                        assert forall|g: Seq<u8>|
                            !(compat(s0.domains@, g) && constraints_satisfied(
                                g,
                                constraints@,
                            )) by {
                            if compat(s0.domains@, g) && constraints_satisfied(g, constraints@) {
                                assert(compat(sit.domains@, g));
                                assert(constraints@[k as int] == ineq);
                                assert(g[ineq.a as int] < g[ineq.b as int]);
                                if ineq.a != ineq.b {
                                    lemma_sweep_keeps_upper(
                                        da,
                                        db,
                                        min_a as u16,
                                        new_db,
                                        g[ineq.a as int] as u16,
                                        g[ineq.b as int] as u16,
                                    );
                                    assert(0u16 & (1u16 << (((g[ineq.b as int] as u16)
                                        - 1) as u16)) == 0) by (bit_vector);
                                }
                            }
                        }
                    }
                    return false;
                }
                proof {
                    lemma_dsum_update(state.domains@, ineq.b as int, new_db);
                    if singleton_mask(s0.dom(ineq.b as int)) {
                        lemma_nonzero_has_val(new_db);
                        let w = choose|w: u16| has_val(new_db, w);
                        lemma_singleton_has_unique(db, w, new_db);
                    }
                }
                state.domains[ineq.b] = new_db;
                changed = true;
            }
            proof {
                assert forall|g: Seq<u8>|
                    compat(s0.domains@, g) && constraints_satisfied(g, constraints@) implies compat(
                    state.domains@,
                    g,
                ) by {
                    assert(compat(sit.domains@, g));
                    assert(constraints@[k as int] == ineq);
                    assert(g[ineq.a as int] < g[ineq.b as int]);
                    if ineq.a != ineq.b {
                        lemma_sweep_keeps_lower(
                            da,
                            db,
                            max_b as u16,
                            new_da,
                            g[ineq.a as int] as u16,
                            g[ineq.b as int] as u16,
                        );
                        lemma_sweep_keeps_upper(
                            da,
                            db,
                            min_a as u16,
                            new_db,
                            g[ineq.a as int] as u16,
                            g[ineq.b as int] as u16,
                        );
                        assert forall|i2: int|
                            0 <= i2 < 81 implies has_val(
                            state.domains@[i2],
                            #[trigger] g[i2] as u16,
                        ) by {
                            if i2 != ineq.a && i2 != ineq.b {
                                assert(state.domains@[i2] == sit.domains@[i2]);
                            }
                        }
                    }
                }
            }
        }
        proof {
            lemma_dsum_nonneg(state.domains@);
        }
    }
    true
}

/// A one-value domain that keeps its value under a filter is unchanged by
/// it: a filtered mask with the same single value is the same mask.
proof fn lemma_singleton_has_unique(m: u16, v: u16, m2: u16)
    requires
        singleton_mask(m),
        has_val(m, v),
        m2 <= m,
        has_val(m2, v),
    ensures
        m2 == m,
{
    lemma_singleton_has(m, v);
    assert(m2 == m) by (bit_vector)
        requires
            m == 1u16 << ((v - 1) as u16),
            1 <= v <= 9,
            m2 <= m,
            m2 & (1u16 << ((v - 1) as u16)) != 0,
    ;
}

/// A subset of a 9-bit mask with no candidate values left is zero.
proof fn lemma_no_vals_empty(m2: u16, m: u16)
    requires
        m <= 0x1FF,
        m2 <= m,
        forall|v: u16| !has_val(m2, v),
    ensures
        m2 == 0,
{
    assert(!has_val(m2, 1u16));
    assert(!has_val(m2, 2u16));
    assert(!has_val(m2, 3u16));
    assert(!has_val(m2, 4u16));
    assert(!has_val(m2, 5u16));
    assert(!has_val(m2, 6u16));
    assert(!has_val(m2, 7u16));
    assert(!has_val(m2, 8u16));
    assert(!has_val(m2, 9u16));
    assert(m2 == 0) by (bit_vector)
        requires
            m2 <= 0x1FF,
            m2 & (1u16 << ((1u16 - 1) as u16)) == 0,
            m2 & (1u16 << ((2u16 - 1) as u16)) == 0,
            m2 & (1u16 << ((3u16 - 1) as u16)) == 0,
            m2 & (1u16 << ((4u16 - 1) as u16)) == 0,
            m2 & (1u16 << ((5u16 - 1) as u16)) == 0,
            m2 & (1u16 << ((6u16 - 1) as u16)) == 0,
            m2 & (1u16 << ((7u16 - 1) as u16)) == 0,
            m2 & (1u16 << ((8u16 - 1) as u16)) == 0,
            m2 & (1u16 << ((9u16 - 1) as u16)) == 0,
    ;
}

/// One step of propagation after cell `idx` was narrowed: Sudoku exclusion
/// from that cell, then the ordering sweep to a fixed point. Every valid
/// solution drawn from the old domains that satisfies the relations is
/// still drawn from the new ones, and failure means no such solution
/// exists.
pub fn propagate_from(state: &mut State, changed_idx: usize, constraints: &[Inequality]) -> (r:
    bool)
    requires
        old(state).wf(),
        changed_idx < 81,
        cons_in_bounds(constraints@),
    ensures
        final(state).wf(),
        forall|i: int| 0 <= i < 81 ==> final(state).dom(i) <= old(state).dom(i),
        forall|g: Seq<u8>| #![trigger compat(old(state).domains@, g)]
            compat(old(state).domains@, g) && crate::sudoku::valid_complete_grid(g)
                && constraints_satisfied(g, constraints@) ==> compat(final(state).domains@, g),
        !r ==> forall|g: Seq<u8>| #![trigger compat(old(state).domains@, g)]
            !(compat(old(state).domains@, g) && crate::sudoku::valid_complete_grid(g)
                && constraints_satisfied(g, constraints@)),
{
    let ghost pre = *state;
    let ok = propagate_sudoku(state, changed_idx);
    if !ok {
        proof {
            assert forall|g: Seq<u8>|
                !(compat(pre.domains@, g) && crate::sudoku::valid_complete_grid(g)
                    && constraints_satisfied(g, constraints@)) by {
                if singleton_mask(pre.dom(changed_idx as int)) {
                    let j = choose|j: int|
                        0 <= j < 81 && j != changed_idx && crate::sudoku::same_unit(
                            j,
                            changed_idx as int,
                        ) && (pre.dom(j) & !pre.dom(changed_idx as int)) == 0;
                    lemma_sudoku_exclusion_fails(pre.domains@, changed_idx as int, j, g);
                }
            }
        }
        return false;
    }
    let ghost mid = *state;
    proof {
        assert forall|g: Seq<u8>|
            compat(pre.domains@, g) && crate::sudoku::valid_complete_grid(g)
                && constraints_satisfied(g, constraints@) implies compat(mid.domains@, g) by {
            if singleton_mask(pre.dom(changed_idx as int)) {
                assert forall|j: int|
                    0 <= j < 81 implies #[trigger] mid.domains@[j] == (if j != changed_idx
                    && crate::sudoku::same_unit(j, changed_idx as int) {
                    (pre.domains@[j] & !pre.domains@[changed_idx as int]) as u16
                } else {
                    pre.domains@[j]
                }) by {
                    assert(mid.dom(j) == (if j != changed_idx && crate::sudoku::same_unit(
                        j,
                        changed_idx as int,
                    ) {
                        (pre.dom(j) & !pre.dom(changed_idx as int)) as u16
                    } else {
                        pre.dom(j)
                    }));
                }
                lemma_sudoku_exclusion_preserves(
                    pre.domains@,
                    mid.domains@,
                    changed_idx as int,
                    g,
                );
            }
        }
    }
    propagate_all(state, constraints)
}

/// Backtracking search with the minimum-remaining-values heuristic: pick
/// the unassigned cell with the fewest candidates, try each of its values
/// on an independent copy of the state, and count every completed
/// assignment, stopping as soon as the counter reaches `limit`. On an
/// all-assigned state one solution is confirmed.
pub fn solve_recursive(state: &State, constraints: &[Inequality], count: &mut usize, limit: usize)
    requires
        state.wf(),
        cons_in_bounds(constraints@),
        *old(count) <= limit,
    ensures
        *old(count) <= *final(count) <= limit,
        all_singleton(*state) && *old(count) < limit ==> *final(count) == *old(count) + 1,
        (exists|g: Seq<u8>| #![trigger compat(state.domains@, g)]
            compat(state.domains@, g) && crate::sudoku::valid_complete_grid(g)
                && constraints_satisfied(g, constraints@)) && *old(count) < limit ==> *final(count)
            > *old(count),
        (exists|g1: Seq<u8>, g2: Seq<u8>| #![trigger two_sols_state(*state, constraints@, g1, g2)]
            two_sols_state(*state, constraints@, g1, g2)) && *old(count) + 1 < limit
            ==> *final(count) >= *old(count) + 2,
    decreases dsum(state.domains@),
{
    if *count >= limit {
        return ;
    }
    let mut min_len: u16 = 10;
    let mut best_idx: Option<usize> = None;

    let mut i: usize = 0;
    while i < 81 && min_len > 2
        invariant
            state.wf(),
            i <= 81,
            best_idx is None ==> min_len == 10 && (forall|j: int|
                0 <= j < i ==> singleton_mask(state.dom(j))),
            best_idx matches Some(bi) ==> bi < 81 && 2 <= min_len <= 9 && !singleton_mask(
                state.dom(bi as int),
            ) && state.dom(bi as int) != 0,
        decreases 81 - i,
    {
        let d = state.domains[i];
        let ones = popcount9(d);
        if ones == 0 {
            return ;
        }
        if ones != 1 {
            if ones < min_len {
                min_len = ones;
                best_idx = Some(i);
            }
        }
        i = i + 1;
    }

    match best_idx {
        Some(idx) => {
            let domain = state.domains[idx];
            let ghost c0 = *count;
            let ghost exists_sol = exists|g: Seq<u8>|
                compat(state.domains@, g) && crate::sudoku::valid_complete_grid(g)
                    && constraints_satisfied(g, constraints@);
            let ghost gw = if exists_sol {
                choose|g: Seq<u8>|
                    compat(state.domains@, g) && crate::sudoku::valid_complete_grid(g)
                        && constraints_satisfied(g, constraints@)
            } else {
                Seq::<u8>::empty()
            };
            let ghost has2 = exists|g1: Seq<u8>, g2: Seq<u8>|
                two_sols_state(*state, constraints@, g1, g2);
            let ghost pair = if has2 {
                choose|g1: Seq<u8>, g2: Seq<u8>| two_sols_state(*state, constraints@, g1, g2)
            } else {
                (Seq::<u8>::empty(), Seq::<u8>::empty())
            };
            let ghost glo = if pair.0[idx as int] <= pair.1[idx as int] {
                pair.0
            } else {
                pair.1
            };
            let ghost ghi = if pair.0[idx as int] <= pair.1[idx as int] {
                pair.1
            } else {
                pair.0
            };
            for val in 1..10u16
                invariant
                    state.wf(),
                    cons_in_bounds(constraints@),
                    idx < 81,
                    domain == state.dom(idx as int),
                    !singleton_mask(domain),
                    domain != 0,
                    c0 <= *count <= limit,
                    exists_sol && c0 < limit ==> compat(state.domains@, gw)
                        && crate::sudoku::valid_complete_grid(gw) && constraints_satisfied(
                        gw,
                        constraints@,
                    ),
                    exists_sol && c0 < limit ==> (*count > c0 || (gw[idx as int] as u16) >= val),
                    has2 == (exists|g1: Seq<u8>, g2: Seq<u8>|
                        two_sols_state(*state, constraints@, g1, g2)),
                    has2 ==> two_sols_state(*state, constraints@, glo, ghi) && glo[idx as int]
                        <= ghi[idx as int],
                    has2 && c0 + 1 < limit ==> (*count >= c0 + 2 || (*count >= c0 + 1 && (ghi[
                        idx as int
                    ] as u16) >= val) || ((glo[idx as int] as u16) >= val)),
            {
                let mask = 1u16 << ((val - 1) as u16);
                proof {
                    if exists_sol && c0 < limit {
                        assert(has_val(state.domains@[idx as int], gw[idx as int] as u16));
                    }
                    if has2 && c0 + 1 < limit {
                        assert(has_val(state.domains@[idx as int], glo[idx as int] as u16));
                        assert(has_val(state.domains@[idx as int], ghi[idx as int] as u16));
                    }
                }
                if domain & mask != 0 {
                    let mut next_state = *state;
                    if next_state.restrict(idx, mask) {
                        let ghost nd1 = next_state.domains@;
                        proof {
                            assert((domain & mask) & mask == (domain & mask)) by (bit_vector);
                            if exists_sol && c0 < limit && (gw[idx as int] as u16) == val {
                                assert forall|i2: int|
                                    0 <= i2 < 81 implies has_val(
                                    next_state.domains@[i2],
                                    #[trigger] gw[i2] as u16,
                                ) by {
                                    if i2 != idx {
                                        assert(next_state.domains@[i2] == state.domains@[i2]);
                                        assert(has_val(state.domains@[i2], gw[i2] as u16));
                                    }
                                }
                                assert(compat(next_state.domains@, gw));
                            }
                            if has2 && c0 + 1 < limit && (glo[idx as int] as u16) == val {
                                assert forall|i2: int|
                                    0 <= i2 < 81 implies has_val(
                                    next_state.domains@[i2],
                                    #[trigger] glo[i2] as u16,
                                ) by {
                                    if i2 != idx {
                                        assert(next_state.domains@[i2] == state.domains@[i2]);
                                        assert(has_val(state.domains@[i2], glo[i2] as u16));
                                    }
                                }
                                assert(compat(next_state.domains@, glo));
                            }
                            if has2 && c0 + 1 < limit && (ghi[idx as int] as u16) == val {
                                assert forall|i2: int|
                                    0 <= i2 < 81 implies has_val(
                                    next_state.domains@[i2],
                                    #[trigger] ghi[i2] as u16,
                                ) by {
                                    if i2 != idx {
                                        assert(next_state.domains@[i2] == state.domains@[i2]);
                                        assert(has_val(state.domains@[i2], ghi[i2] as u16));
                                    }
                                }
                                assert(compat(next_state.domains@, ghi));
                            }
                        }
                        proof {
                            assert(singleton_mask(mask) && (domain & mask) == mask) by (bit_vector)
                                requires
                                    mask == 1u16 << ((val - 1) as u16),
                                    1 <= val <= 9,
                                    domain & mask != 0,
                            ;
                            assert(mask < domain) by (bit_vector)
                                requires
                                    (domain & mask) == mask,
                                    mask != 0,
                                    mask & ((mask - 1) as u16) == 0,
                                    !(domain != 0 && (domain & ((domain - 1) as u16)) == 0),
                            ;
                            lemma_dsum_update(state.domains@, idx as int, mask);
                        }
                        if propagate_from(&mut next_state, idx, constraints) {
                            proof {
                                assert forall|i2: int| 0 <= i2 < 81 implies next_state.domains@[i2]
                                    <= nd1[i2] by {
                                    assert(next_state.dom(i2) <= nd1[i2]);
                                }
                                lemma_dsum_pointwise_le(next_state.domains@, nd1);
                                lemma_dsum_nonneg(next_state.domains@);
                                if has2 && c0 + 1 < limit && (glo[idx as int] as u16) == val && (
                                ghi[idx as int] as u16) == val {
                                    assert(two_sols_state(next_state, constraints@, glo, ghi));
                                }
                            }
                            solve_recursive(&next_state, constraints, count, limit);
                        }
                    }
                }
            }
        },
        None => {
            proof {
                if exists|g1: Seq<u8>, g2: Seq<u8>| two_sols_state(*state, constraints@, g1, g2) {
                    let (g1, g2) = choose|g1: Seq<u8>, g2: Seq<u8>|
                        two_sols_state(*state, constraints@, g1, g2);
                    assert forall|i2: int| 0 <= i2 < 81 implies g1[i2] == g2[i2] by {
                        assert(singleton_mask(state.dom(i2)));
                        assert(has_val(state.domains@[i2], g1[i2] as u16));
                        assert(has_val(state.domains@[i2], g2[i2] as u16));
                        assert(singleton_mask(state.domains@[i2]));
                        lemma_singleton_has(state.domains@[i2], g1[i2] as u16);
                        lemma_singleton_has(state.domains@[i2], g2[i2] as u16);
                        lemma_val_mask_order(g1[i2] as u16, g2[i2] as u16);
                        lemma_val_mask_order(g2[i2] as u16, g1[i2] as u16);
                    }
                    assert(g1 =~= g2);
                }
            }
            *count += 1;
        },
    }
}

/// Number of full assignments consistent with the partial grid and all
/// ordering relations, counted after Sudoku exclusion over the initial
/// fixed cells, then propagation plus backtracking search, capped at
/// `limit`. Mutually inconsistent fixed cells - a repeated value inside a
/// row, column, or 3x3 block, or a relation violated by two fixed cells -
/// surface as a count of 0, never as an error; a fully-assigned consistent
/// grid has exactly one completion.
#[verifier::rlimit(100)]
#[verifier::spinoff_prover]
pub fn count_solutions(initial_grid: &Grid, constraints: &[Inequality], limit: usize) -> (r: usize)
    requires
        initial_grid@.len() == 81,
        forall|i: int| #![trigger initial_grid@[i]] 0 <= i < 81 ==> initial_grid@[i] <= 9,
        cons_in_bounds(constraints@),
    ensures
        r <= limit,
        limit == 0 ==> r == 0,
        !fixed_cells_consistent(initial_grid@, constraints@) ==> r == 0,
        grid_fully_assigned(initial_grid@) && fixed_cells_consistent(initial_grid@, constraints@)
            ==> r == (if limit == 0 {
            0int
        } else {
            1int
        }),
        limit >= 1 && has_solution(initial_grid@, constraints@) ==> r >= 1,
        limit >= 2 && two_solutions(initial_grid@, constraints@) ==> r >= 2,
{
    let mut state = State::new();
    let ghost fresh = state;
    if !state.apply_initial(initial_grid) {
        proof {
            assert forall|i: int|
                0 <= i < 81 implies (initial_grid@[i] == 0 || (fresh.dom(i) & val_mask(
                initial_grid@[i] as u16,
            )) != 0) by {
                if initial_grid@[i] != 0 {
                    lemma_val_mask_props(initial_grid@[i] as u16);
                }
            }
        }
        return 0;
    }
    let ghost applied = state;
    let ghost sol_exists = has_solution(initial_grid@, constraints@);
    let ghost gw = if sol_exists {
        choose|g: Seq<u8>| solution_for(initial_grid@, constraints@, g)
    } else {
        Seq::<u8>::empty()
    };
    let ghost two_ex = two_solutions(initial_grid@, constraints@);
    let ghost gpair = if two_ex {
        choose|g1: Seq<u8>, g2: Seq<u8>|
            solution_for(initial_grid@, constraints@, g1) && solution_for(
                initial_grid@,
                constraints@,
                g2,
            ) && g1 != g2
    } else {
        (Seq::<u8>::empty(), Seq::<u8>::empty())
    };
    proof {
        assert forall|c: int| 0 <= c < 81 && initial_grid@[c] != 0 implies applied.dom(c)
            == val_mask(initial_grid@[c] as u16) && singleton_mask(applied.dom(c)) by {
            lemma_val_mask_props(initial_grid@[c] as u16);
        }
        if sol_exists {
            assert forall|i: int| 0 <= i < 81 implies has_val(
                applied.domains@[i],
                #[trigger] gw[i] as u16,
            ) by {
                lemma_val_mask_props(gw[i] as u16);
                if initial_grid@[i] != 0 {
                    assert(gw[i] == initial_grid@[i]);
                } else {
                    assert(applied.dom(i) == fresh.dom(i));
                }
            }
            assert(compat(applied.domains@, gw));
        }
        if two_ex {
            assert forall|i: int| 0 <= i < 81 implies has_val(
                applied.domains@[i],
                #[trigger] gpair.0[i] as u16,
            ) by {
                lemma_val_mask_props(gpair.0[i] as u16);
                if initial_grid@[i] != 0 {
                    assert(gpair.0[i] == initial_grid@[i]);
                } else {
                    assert(applied.dom(i) == fresh.dom(i));
                }
            }
            assert forall|i: int| 0 <= i < 81 implies has_val(
                applied.domains@[i],
                #[trigger] gpair.1[i] as u16,
            ) by {
                lemma_val_mask_props(gpair.1[i] as u16);
                if initial_grid@[i] != 0 {
                    assert(gpair.1[i] == initial_grid@[i]);
                } else {
                    assert(applied.dom(i) == fresh.dom(i));
                }
            }
            assert(compat(applied.domains@, gpair.0) && compat(applied.domains@, gpair.1));
        }
    }

    for i in 0..81usize
        invariant
            state.wf(),
            initial_grid@.len() == 81,
            forall|t: int| #![trigger initial_grid@[t]] 0 <= t < 81 ==> initial_grid@[t] <= 9,
            forall|c: int|
                0 <= c < 81 && initial_grid@[c] != 0 ==> state.dom(c) == val_mask(
                    initial_grid@[c] as u16,
                ) && singleton_mask(state.dom(c)),
            forall|i2: int, j: int|
                #![trigger initial_grid@[i2], initial_grid@[j]]
                0 <= i2 < i && 0 <= j < 81 && j != i2 && crate::sudoku::same_unit(i2, j)
                    && initial_grid@[i2] != 0 && initial_grid@[j] != 0 ==> initial_grid@[i2]
                    != initial_grid@[j],
            sol_exists == has_solution(initial_grid@, constraints@),
            sol_exists ==> solution_for(initial_grid@, constraints@, gw) && compat(
                state.domains@,
                gw,
            ),
            two_ex == two_solutions(initial_grid@, constraints@),
            two_ex ==> solution_for(initial_grid@, constraints@, gpair.0) && solution_for(
                initial_grid@,
                constraints@,
                gpair.1,
            ) && gpair.0 != gpair.1 && compat(state.domains@, gpair.0) && compat(
                state.domains@,
                gpair.1,
            ),
    {
        if initial_grid[i] > 0 {
            let ghost pre = state;
            let ok = propagate_sudoku(&mut state, i);
            if !ok {
                proof {
                    assert(pre.dom(i as int) == val_mask(initial_grid@[i as int] as u16)
                        && singleton_mask(pre.dom(i as int)));
                    let j = choose|j: int|
                        0 <= j < 81 && j != i && crate::sudoku::same_unit(j, i as int) && (pre.dom(j)
                            & !pre.dom(i as int)) == 0;
                    if grid_fully_assigned(initial_grid@) {
                        lemma_mask_self_remove(
                            initial_grid@[j] as u16,
                            initial_grid@[i as int] as u16,
                        );
                    }
                    if sol_exists {
                        assert(compat(pre.domains@, gw));
                        assert(crate::sudoku::valid_complete_grid(gw));
                        lemma_sudoku_exclusion_fails(pre.domains@, i as int, j, gw);
                        assert(false);
                    }
                    assert(!sol_exists);
                    if two_ex {
                        assert(compat(pre.domains@, gpair.0));
                        assert(crate::sudoku::valid_complete_grid(gpair.0));
                        lemma_sudoku_exclusion_fails(pre.domains@, i as int, j, gpair.0);
                        assert(false);
                    }
                    assert(!two_ex);
                }
                return 0;
            }
            proof {
                let ghost gi = initial_grid@[i as int] as u16;
                assert(pre.dom(i as int) == val_mask(gi) && singleton_mask(pre.dom(i as int)));
                assert forall|c: int|
                    0 <= c < 81 && initial_grid@[c] != 0 implies state.dom(c) == val_mask(
                    initial_grid@[c] as u16,
                ) && singleton_mask(state.dom(c)) by {
                    let gc = initial_grid@[c] as u16;
                    assert(pre.dom(c) == val_mask(gc) && singleton_mask(pre.dom(c)));
                    lemma_val_mask_props(gc);
                    if c != i && crate::sudoku::same_unit(c, i as int) {
                        assert((pre.dom(c) & !pre.dom(i as int)) != 0);
                        lemma_mask_self_remove(gc, gi);
                        assert(gc != gi);
                        lemma_mask_remove_other(pre.dom(c), gc, gi);
                        lemma_and_le(pre.dom(c), !pre.dom(i as int));
                        lemma_singleton_has_unique(
                            pre.dom(c),
                            gc,
                            (pre.dom(c) & !pre.dom(i as int)) as u16,
                        );
                    }
                }
                assert forall|j: int|
                    0 <= j < 81 && j != i && crate::sudoku::same_unit(i as int, j)
                        && initial_grid@[j] != 0 implies initial_grid@[i as int]
                    != initial_grid@[j] by {
                    assert(crate::sudoku::same_unit(j, i as int));
                    assert((pre.dom(j) & !pre.dom(i as int)) != 0);
                    assert(pre.dom(j) == val_mask(initial_grid@[j] as u16));
                    lemma_mask_self_remove(initial_grid@[j] as u16, initial_grid@[i as int] as u16);
                }
                if sol_exists {
                    lemma_sudoku_exclusion_preserves(pre.domains@, state.domains@, i as int, gw);
                }
                if two_ex {
                    lemma_sudoku_exclusion_preserves(
                        pre.domains@,
                        state.domains@,
                        i as int,
                        gpair.0,
                    );
                    lemma_sudoku_exclusion_preserves(
                        pre.domains@,
                        state.domains@,
                        i as int,
                        gpair.1,
                    );
                }
            }
        }
    }

    proof {
        if grid_fully_assigned(initial_grid@) {
            assert forall|c: int| 0 <= c < 81 implies state.domains@[c] == applied.domains@[c] by {
                assert(state.dom(c) == val_mask(initial_grid@[c] as u16));
                assert(applied.dom(c) == val_mask(initial_grid@[c] as u16));
            }
            assert(state.domains@ =~= applied.domains@);
            if fixed_cells_consistent(initial_grid@, constraints@) {
                assert forall|k: int| #![trigger constraints@[k]]
                    0 <= k < constraints@.len() implies (state.dom(constraints@[k].a as int)
                    < state.dom(constraints@[k].b as int)) by {
                    lemma_val_mask_order(
                        initial_grid@[constraints@[k].a as int] as u16,
                        initial_grid@[constraints@[k].b as int] as u16,
                    );
                }
            }
        }
    }

    let ghost swept = state;
    if !propagate_all(&mut state, constraints) {
        return 0;
    }
    proof {
        if !fixed_cells_consistent(initial_grid@, constraints@) {
            // the unit half holds by the loop above, so some relation with
            // both endpoints fixed must be violated; its two one-value
            // domains are mis-ordered, and the sweep would have failed
            let k = choose|k: int|
                #![trigger constraints@[k]]
                0 <= k < constraints@.len() && initial_grid@[constraints@[k].a as int] != 0
                    && initial_grid@[constraints@[k].b as int] != 0 && !(
                initial_grid@[constraints@[k].a as int] < initial_grid@[constraints@[k].b as int]);
            lemma_val_mask_order(
                initial_grid@[constraints@[k].a as int] as u16,
                initial_grid@[constraints@[k].b as int] as u16,
            );
            assert(swept.dom(constraints@[k].a as int) >= swept.dom(constraints@[k].b as int));
        }
    }

    proof {
        if sol_exists {
            assert(compat(state.domains@, gw) && crate::sudoku::valid_complete_grid(gw)
                && constraints_satisfied(gw, constraints@));
        }
        if two_ex {
            assert(compat(state.domains@, gpair.0) && compat(state.domains@, gpair.1));
            assert(two_sols_state(state, constraints@, gpair.0, gpair.1));
        }
    }
    let mut count: usize = 0;
    solve_recursive(&state, constraints, &mut count, limit);
    count
}

} // verus!
