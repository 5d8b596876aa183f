//! Board-level specification: the 81 candidate masks, the two deduction
//! passes, and what it means for a board to be solved or consistent.
use vstd::prelude::*;

verus! {

use crate::SUDOKU_ALL_CANDIDATES;
use crate::cell::digit_mask;
use crate::cell::fill_mask;
use crate::cell::filter_mask;
use crate::cell::has_digit;
use crate::cell::mask_ok;
use crate::cell::merge_unique_conflict;
use crate::cell::merge_unique_mask;
use crate::cell::popcount9;
use crate::cell::single_mask;
use crate::groups::cell_owner;
use crate::groups::group_member;
use crate::groups::lemma_group_member_bounds;

/// A board is 81 well-formed masks in row-major order.
pub open spec fn board_ok(s: Seq<u32>) -> bool {
    &&& s.len() == 81
    &&& forall|i: int| 0 <= i < 81 ==> mask_ok(#[trigger] s[i])
}

/// What the `k`-th member of group `j` of cell `c` contributes to a peer
/// scan: the cell itself contributes the empty mask.
pub open spec fn peer_mask(s: Seq<u32>, c: int, j: int, k: int) -> u32 {
    if group_member(cell_owner(c, j), k) == c {
        0u32
    } else {
        s[group_member(cell_owner(c, j), k)]
    }
}

/// Union of the fixed-or-empty masks among the first `n` group-`j` peers of
/// cell `c`, folded in member order.
pub open spec fn peer_fixed_union(s: Seq<u32>, c: int, j: int, n: int) -> u32
    decreases n,
{
    if n <= 0 {
        0u32
    } else {
        merge_unique_mask(peer_fixed_union(s, c, j, n - 1), peer_mask(s, c, j, n - 1))
    }
}

/// The peer sum accumulated over the first `j` groups of cell `c`.
pub open spec fn filter_sum_groups(s: Seq<u32>, c: int, j: int) -> u32
    decreases j,
{
    if j <= 0 {
        0u32
    } else {
        filter_sum_groups(s, c, j - 1) | peer_fixed_union(s, c, j - 1, 9)
    }
}

/// The peer sum the naked-single pass accumulates for cell `c`: its three
/// groups scanned in order, the cell itself skipped.
pub open spec fn filter_sum(s: Seq<u32>, c: int) -> u32 {
    filter_sum_groups(s, c, 3)
}

/// One cell of the naked-single pass: a not-yet-fixed cell drops the
/// candidates its fixed peers claim.
pub open spec fn filter_cell_step(s: Seq<u32>, c: int) -> Seq<u32> {
    if popcount9(s[c]) <= 1 {
        s
    } else {
        s.update(c, filter_mask(s[c], filter_sum(s, c)))
    }
}

/// The naked-single pass over the first `n` cells, in cell order; each step
/// sees the deductions of the steps before it.
pub open spec fn filter_pass_upto(s: Seq<u32>, n: int) -> Seq<u32>
    decreases n,
{
    if n <= 0 {
        s
    } else {
        filter_cell_step(filter_pass_upto(s, n - 1), n - 1)
    }
}

/// The full naked-single pass.
pub open spec fn filter_pass(s: Seq<u32>) -> Seq<u32> {
    filter_pass_upto(s, 81)
}

/// Union of all masks among the first `n` group-`j` peers of cell `c`.
pub open spec fn peer_all_union(s: Seq<u32>, c: int, j: int, n: int) -> u32
    decreases n,
{
    if n <= 0 {
        0u32
    } else {
        peer_all_union(s, c, j, n - 1) | peer_mask(s, c, j, n - 1)
    }
}

/// One group of the hidden-single pass for cell `c`: if exactly one digit is
/// missing among the group-`j` peers, the cell is assigned it.
pub open spec fn fill_group_step(s: Seq<u32>, c: int, j: int) -> Seq<u32> {
    s.update(c, fill_mask(s[c], peer_all_union(s, c, j, 9)))
}

/// The first `j` group scans of the hidden-single pass for cell `c`.
pub open spec fn fill_cell_groups(s: Seq<u32>, c: int, j: int) -> Seq<u32>
    decreases j,
{
    if j <= 0 {
        s
    } else {
        fill_group_step(fill_cell_groups(s, c, j - 1), c, j - 1)
    }
}

/// One cell of the hidden-single pass: its three groups, scanned in order;
/// an already-fixed cell is left alone.
pub open spec fn fill_cell_step(s: Seq<u32>, c: int) -> Seq<u32> {
    if popcount9(s[c]) <= 1 {
        s
    } else {
        fill_cell_groups(s, c, 3)
    }
}

/// The hidden-single pass over the first `n` cells, in cell order.
pub open spec fn fill_pass_upto(s: Seq<u32>, n: int) -> Seq<u32>
    decreases n,
{
    if n <= 0 {
        s
    } else {
        fill_cell_step(fill_pass_upto(s, n - 1), n - 1)
    }
}

/// The full hidden-single pass.
pub open spec fn fill_pass(s: Seq<u32>) -> Seq<u32> {
    fill_pass_upto(s, 81)
}

/// Union of the fixed-or-empty masks among the first `n` members of group
/// `g`, folded in member order.
pub open spec fn group_fixed_union(s: Seq<u32>, g: int, n: int) -> u32
    decreases n,
{
    if n <= 0 {
        0u32
    } else {
        merge_unique_mask(group_fixed_union(s, g, n - 1), s[group_member(g, n - 1)])
    }
}

/// The conflict flag of that fold: some member arrived fixed to a digit the
/// union already held.
pub open spec fn group_conflict_upto(s: Seq<u32>, g: int, n: int) -> bool
    decreases n,
{
    if n <= 0 {
        false
    } else {
        group_conflict_upto(s, g, n - 1) || merge_unique_conflict(
            group_fixed_union(s, g, n - 1),
            s[group_member(g, n - 1)],
        )
    }
}

/// Union of all masks of the first `n` members of group `g`.
pub open spec fn group_all_union(s: Seq<u32>, g: int, n: int) -> u32
    decreases n,
{
    if n <= 0 {
        0u32
    } else {
        group_all_union(s, g, n - 1) | s[group_member(g, n - 1)]
    }
}

/// Two distinct members of group `g` are fixed to the same digit.
pub open spec fn dup_fixed(s: Seq<u32>, g: int) -> bool {
    exists|k1: int, k2: int|
        0 <= k1 < 9 && 0 <= k2 < 9 && k1 != k2 && single_mask(#[trigger] s[group_member(g, k1)])
            && s[group_member(g, k1)] == #[trigger] s[group_member(g, k2)]
}

/// A solved group: every member fixed and no digit repeated; the nine
/// digits are then exactly 1 through 9.
pub open spec fn group_solved(s: Seq<u32>, g: int) -> bool {
    &&& forall|k: int| 0 <= k < 9 ==> single_mask(#[trigger] s[group_member(g, k)])
    &&& !dup_fixed(s, g)
}

/// A solved board: all 27 groups solved.
pub open spec fn board_solved(s: Seq<u32>) -> bool {
    forall|g: int| 0 <= g < 27 ==> group_solved(s, g)
}

/// Digit `d + 1` still has a home somewhere in group `g`.
pub open spec fn digit_covered(s: Seq<u32>, g: int, d: int) -> bool {
    exists|k: int| 0 <= k < 9 && has_digit(#[trigger] s[group_member(g, k)], d)
}

/// Every digit still has a home somewhere in group `g`.
pub open spec fn group_covers_all(s: Seq<u32>, g: int) -> bool {
    forall|d: int| 0 <= d < 9 ==> #[trigger] digit_covered(s, g, d)
}

/// No member of group `g` has run out of candidates.
pub open spec fn group_no_empty(s: Seq<u32>, g: int) -> bool {
    forall|k: int| 0 <= k < 9 ==> #[trigger] s[group_member(g, k)] != 0
}

/// A consistent group: no duplicated fixed digit, no cell with zero
/// candidates, and no digit ruled out everywhere.
pub open spec fn group_consistent(s: Seq<u32>, g: int) -> bool {
    group_covers_all(s, g) && !dup_fixed(s, g) && group_no_empty(s, g)
}

/// A consistent board: all 27 groups consistent.
pub open spec fn board_consistent(s: Seq<u32>) -> bool {
    forall|g: int| 0 <= g < 27 ==> group_consistent(s, g)
}

/// Some group holds two identical preset or deduced digits.
pub open spec fn board_conflict(s: Seq<u32>) -> bool {
    exists|g: int| 0 <= g < 27 && dup_fixed(s, g)
}

/// Sum of the candidate counts of the first `n` cells.
pub open spec fn total_count_upto(s: Seq<u32>, n: int) -> int
    decreases n,
{
    if n <= 0 {
        0
    } else {
        total_count_upto(s, n - 1) + popcount9(s[n - 1])
    }
}

/// Sum of the candidate counts of the whole board.
pub open spec fn total_count(s: Seq<u32>) -> int {
    total_count_upto(s, 81)
}

// ---------------------------------------------------------------------------
// Bitwise facts used throughout the board proofs.
// ---------------------------------------------------------------------------

/// The empty mask is the identity of union and annihilates intersection.
pub proof fn lemma_or_zero(a: u32)
    ensures
        a | 0u32 == a,
        0u32 | a == a,
        a & 0u32 == 0,
        0u32 & a == 0,
        popcount9(0u32) == 0,
{
    assert(a | 0u32 == a && 0u32 | a == a && a & 0u32 == 0 && 0u32 & a == 0 && popcount9(0u32)
        == 0) by (bit_vector);
}

/// Union keeps masks well-formed.
pub proof fn lemma_or_mask_ok(a: u32, b: u32)
    requires
        mask_ok(a),
        mask_ok(b),
    ensures
        mask_ok(a | b),
{
    assert(a <= 0x1ffu32 && b <= 0x1ffu32 ==> (a | b) <= 0x1ffu32) by (bit_vector);
}

/// Union is associative.
pub proof fn lemma_or_assoc(a: u32, b: u32, c: u32)
    ensures
        (a | b) | c == a | (b | c),
{
    assert((a | b) | c == a | (b | c)) by (bit_vector);
}

/// A bit is in a union exactly when it is in one of the operands.
pub proof fn lemma_or_bit(a: u32, b: u32, m: u32)
    ensures
        ((a | b) & m != 0) == ((a & m != 0) || (b & m != 0)),
{
    assert(((a | b) & m != 0) == ((a & m != 0) || (b & m != 0))) by (bit_vector);
}

/// An at-most-single mask meets a single mask exactly when the two are the
/// same single mask.
pub proof fn lemma_single_intersect(a: u32, b: u32)
    requires
        mask_ok(a),
        mask_ok(b),
        popcount9(a) <= 1,
        single_mask(b),
    ensures
        (a & b != 0) == (a == b && single_mask(a)),
{
    assert((a <= 0x1ffu32 && b <= 0x1ffu32 && popcount9(a) <= 1 && popcount9(b) == 1) ==> ((a & b
        != 0) == (a == b))) by (bit_vector);
}

/// Union counts at most, and for disjoint masks exactly, the sum of counts.
pub proof fn lemma_popcount_or(a: u32, b: u32)
    ensures
        popcount9(a | b) <= popcount9(a) + popcount9(b),
        (a & b) == 0 ==> popcount9(a | b) == popcount9(a) + popcount9(b),
{
    assert(popcount9(a | b) <= popcount9(a) + popcount9(b) && ((a & b) == 0 ==> popcount9(a | b)
        == popcount9(a) + popcount9(b))) by (bit_vector);
}

/// The full mask is the only well-formed mask with nine candidates.
pub proof fn lemma_full_mask(m: u32)
    requires
        mask_ok(m),
        popcount9(m) >= 9,
    ensures
        m == SUDOKU_ALL_CANDIDATES,
{
    assert((m <= 0x1ffu32 && popcount9(m) >= 9) ==> m == 0x1ffu32) by (bit_vector);
}

/// The empty mask is the only well-formed mask with no candidate; a single
/// mask is never empty.
pub proof fn lemma_popcount_zero(m: u32)
    requires
        mask_ok(m),
    ensures
        (popcount9(m) == 0) == (m == 0),
        popcount9(m) <= 9,
{
    assert(m <= 0x1ffu32 ==> ((popcount9(m) == 0) == (m == 0)) && popcount9(m) <= 9)
        by (bit_vector);
}

// ---------------------------------------------------------------------------
// The group folds against their order-free meaning.
// ---------------------------------------------------------------------------

/// The fixed-member union of a group stays well-formed.
pub proof fn lemma_group_fixed_union_ok(s: Seq<u32>, g: int, n: int)
    requires
        board_ok(s),
        0 <= g < 27,
        0 <= n <= 9,
    ensures
        mask_ok(group_fixed_union(s, g, n)),
    decreases n,
{
    if n > 0 {
        lemma_group_fixed_union_ok(s, g, n - 1);
        lemma_group_member_bounds(g, n - 1);
        let u = group_fixed_union(s, g, n - 1);
        let b = s[group_member(g, n - 1)];
        if popcount9(b) <= 1 {
            lemma_or_mask_ok(u, b);
        }
    }
}

/// A bit is in the fixed-member union exactly when some fixed-or-empty
/// member among the first `n` holds it.
pub proof fn lemma_group_fixed_union_bit(s: Seq<u32>, g: int, n: int, m: u32)
    requires
        board_ok(s),
        0 <= g < 27,
        0 <= n <= 9,
    ensures
        (group_fixed_union(s, g, n) & m != 0) == (exists|i: int|
            0 <= i < n && popcount9(#[trigger] s[group_member(g, i)]) <= 1 && (s[group_member(
                g,
                i,
            )] & m) != 0),
    decreases n,
{
    if n == 0 {
        lemma_or_zero(m);
    } else {
        lemma_group_fixed_union_bit(s, g, n - 1, m);
        lemma_group_member_bounds(g, n - 1);
        let u = group_fixed_union(s, g, n - 1);
        let b = s[group_member(g, n - 1)];
        let whole = group_fixed_union(s, g, n);
        if popcount9(b) <= 1 {
            assert(whole == (u | b));
            lemma_or_bit(u, b, m);
            if whole & m != 0 {
                if u & m != 0 {
                    let i = choose|i: int|
                        0 <= i < n - 1 && popcount9(#[trigger] s[group_member(g, i)]) <= 1 && (
                        s[group_member(g, i)] & m) != 0;
                    assert(0 <= i < n && popcount9(s[group_member(g, i)]) <= 1 && (s[group_member(
                        g,
                        i,
                    )] & m) != 0);
                } else {
                    assert(0 <= n - 1 < n && popcount9(s[group_member(g, n - 1)]) <= 1 && (
                    s[group_member(g, n - 1)] & m) != 0);
                }
            } else {
                if exists|i: int|
                    0 <= i < n && popcount9(#[trigger] s[group_member(g, i)]) <= 1 && (
                    s[group_member(g, i)] & m) != 0 {
                    let i = choose|i: int|
                        0 <= i < n && popcount9(#[trigger] s[group_member(g, i)]) <= 1 && (
                        s[group_member(g, i)] & m) != 0;
                    if i < n - 1 {
                        assert(u & m != 0);
                    } else {
                        assert(b & m != 0);
                    }
                    assert(false);
                }
            }
        } else {
            assert(whole == u);
            if exists|i: int|
                0 <= i < n && popcount9(#[trigger] s[group_member(g, i)]) <= 1 && (s[group_member(
                    g,
                    i,
                )] & m) != 0 {
                let i = choose|i: int|
                    0 <= i < n && popcount9(#[trigger] s[group_member(g, i)]) <= 1 && (
                    s[group_member(g, i)] & m) != 0;
                assert(i < n - 1);
                assert(u & m != 0);
            }
            if u & m != 0 {
                let i = choose|i: int|
                    0 <= i < n - 1 && popcount9(#[trigger] s[group_member(g, i)]) <= 1 && (
                    s[group_member(g, i)] & m) != 0;
                assert(0 <= i < n && popcount9(s[group_member(g, i)]) <= 1 && (s[group_member(g, i)]
                    & m) != 0);
            }
        }
    }
}

/// The conflict flag of the fold over the first `n` members is exactly the
/// presence of two members fixed to the same digit.
pub proof fn lemma_conflict_iff_dup_upto(s: Seq<u32>, g: int, n: int)
    requires
        board_ok(s),
        0 <= g < 27,
        0 <= n <= 9,
    ensures
        group_conflict_upto(s, g, n) == (exists|i: int, j: int|
            0 <= i < j < n && single_mask(#[trigger] s[group_member(g, i)]) && s[group_member(g, i)]
                == #[trigger] s[group_member(g, j)]),
    decreases n,
{
    if n > 0 {
        lemma_conflict_iff_dup_upto(s, g, n - 1);
        lemma_group_member_bounds(g, n - 1);
        lemma_group_fixed_union_ok(s, g, n - 1);
        let u = group_fixed_union(s, g, n - 1);
        let b = s[group_member(g, n - 1)];
        lemma_group_fixed_union_bit(s, g, n - 1, b);
        if merge_unique_conflict(u, b) {
            // the sole candidate of member n-1 was contributed by an earlier member
            lemma_or_zero(u);
            lemma_popcount_zero(b);
            let i = choose|i: int|
                0 <= i < n - 1 && popcount9(#[trigger] s[group_member(g, i)]) <= 1 && (
                s[group_member(g, i)] & b) != 0;
            lemma_group_member_bounds(g, i);
            lemma_popcount_zero(s[group_member(g, i)]);
            lemma_single_intersect(s[group_member(g, i)], b);
            assert(0 <= i < n - 1 && single_mask(s[group_member(g, i)]) && s[group_member(g, i)]
                == s[group_member(g, n - 1)]);
        }
        if exists|i: int, j: int|
            0 <= i < j < n && single_mask(#[trigger] s[group_member(g, i)]) && s[group_member(g, i)]
                == #[trigger] s[group_member(g, j)] {
            let (i, j) = choose|i: int, j: int|
                0 <= i < j < n && single_mask(#[trigger] s[group_member(g, i)]) && s[group_member(
                    g,
                    i,
                )] == #[trigger] s[group_member(g, j)];
            if j < n - 1 {
                assert(group_conflict_upto(s, g, n - 1));
            } else {
                // member n-1 repeats the digit of member i
                lemma_group_member_bounds(g, i);
                lemma_popcount_zero(s[group_member(g, i)]);
                assert(popcount9(s[group_member(g, i)]) <= 1 && (s[group_member(g, i)] & b) != 0)
                    by {
                    lemma_single_intersect(s[group_member(g, i)], b);
                };
                assert(u & b != 0);
            }
        }
    }
}

/// The conflict flag over a whole group is exactly a duplicated fixed digit.
pub proof fn lemma_conflict_iff_dup(s: Seq<u32>, g: int)
    requires
        board_ok(s),
        0 <= g < 27,
    ensures
        group_conflict_upto(s, g, 9) == dup_fixed(s, g),
{
    lemma_conflict_iff_dup_upto(s, g, 9);
    if dup_fixed(s, g) {
        let (k1, k2) = choose|k1: int, k2: int|
            0 <= k1 < 9 && 0 <= k2 < 9 && k1 != k2 && single_mask(#[trigger] s[group_member(
                g,
                k1,
            )]) && s[group_member(g, k1)] == #[trigger] s[group_member(g, k2)];
        if k1 < k2 {
            assert(0 <= k1 < k2 < 9 && single_mask(s[group_member(g, k1)]) && s[group_member(g, k1)]
                == s[group_member(g, k2)]);
        } else {
            assert(0 <= k2 < k1 < 9 && single_mask(s[group_member(g, k2)]) && s[group_member(g, k2)]
                == s[group_member(g, k1)]);
        }
    }
    if group_conflict_upto(s, g, 9) {
        let (i, j) = choose|i: int, j: int|
            0 <= i < j < 9 && single_mask(#[trigger] s[group_member(g, i)]) && s[group_member(g, i)]
                == #[trigger] s[group_member(g, j)];
        assert(dup_fixed(s, g));
    }
}

/// With every member fixed and no digit repeated, the union gains one new
/// candidate per member.
pub proof fn lemma_union_count_exact(s: Seq<u32>, g: int, n: int)
    requires
        board_ok(s),
        0 <= g < 27,
        0 <= n <= 9,
        forall|k: int| 0 <= k < 9 ==> single_mask(#[trigger] s[group_member(g, k)]),
        !dup_fixed(s, g),
    ensures
        popcount9(group_fixed_union(s, g, n)) == n,
    decreases n,
{
    if n == 0 {
        lemma_or_zero(0);
    } else {
        lemma_union_count_exact(s, g, n - 1);
        lemma_group_member_bounds(g, n - 1);
        lemma_group_fixed_union_ok(s, g, n - 1);
        let u = group_fixed_union(s, g, n - 1);
        let b = s[group_member(g, n - 1)];
        lemma_group_fixed_union_bit(s, g, n - 1, b);
        if u & b != 0 {
            // an earlier member would carry the same digit
            let i = choose|i: int|
                0 <= i < n - 1 && popcount9(#[trigger] s[group_member(g, i)]) <= 1 && (
                s[group_member(g, i)] & b) != 0;
            lemma_group_member_bounds(g, i);
            lemma_single_intersect(s[group_member(g, i)], b);
            assert(dup_fixed(s, g));
        }
        lemma_popcount_or(u, b);
    }
}

/// The union over `n` members never exceeds `n` candidates.
pub proof fn lemma_union_count_le(s: Seq<u32>, g: int, n: int)
    requires
        board_ok(s),
        0 <= g < 27,
        0 <= n <= 9,
    ensures
        popcount9(group_fixed_union(s, g, n)) <= n,
    decreases n,
{
    if n == 0 {
        lemma_or_zero(0);
    } else {
        lemma_union_count_le(s, g, n - 1);
        let u = group_fixed_union(s, g, n - 1);
        let b = s[group_member(g, n - 1)];
        if popcount9(b) <= 1 {
            lemma_popcount_or(u, b);
        }
    }
}

/// A member that is not fixed contributes nothing, so the union then misses
/// at least one candidate.
pub proof fn lemma_union_count_bound(s: Seq<u32>, g: int, n: int, k0: int)
    requires
        board_ok(s),
        0 <= g < 27,
        0 <= n <= 9,
        0 <= k0 < n,
        !single_mask(s[group_member(g, k0)]),
    ensures
        popcount9(group_fixed_union(s, g, n)) <= n - 1,
    decreases n,
{
    lemma_group_member_bounds(g, k0);
    let u = group_fixed_union(s, g, n - 1);
    let b = s[group_member(g, n - 1)];
    if k0 == n - 1 {
        lemma_union_count_le(s, g, n - 1);
        if popcount9(b) <= 1 {
            lemma_popcount_zero(b);
            lemma_or_zero(u);
        }
    } else {
        lemma_union_count_bound(s, g, n - 1, k0);
        if popcount9(b) <= 1 {
            lemma_popcount_or(u, b);
        }
    }
}

/// The fold result of a group scan is exactly the solved state of the
/// group.
pub proof fn lemma_group_solved_iff(s: Seq<u32>, g: int)
    requires
        board_ok(s),
        0 <= g < 27,
    ensures
        (group_fixed_union(s, g, 9) == SUDOKU_ALL_CANDIDATES && !group_conflict_upto(s, g, 9))
            == group_solved(s, g),
{
    lemma_conflict_iff_dup(s, g);
    if group_solved(s, g) {
        lemma_union_count_exact(s, g, 9);
        lemma_group_fixed_union_ok(s, g, 9);
        lemma_full_mask(group_fixed_union(s, g, 9));
    } else {
        if !dup_fixed(s, g) {
            let k0 = choose|k: int| 0 <= k < 9 && !single_mask(#[trigger] s[group_member(g, k)]);
            lemma_union_count_bound(s, g, 9, k0);
            assert(popcount9(0x1ffu32) == 9) by (bit_vector);
        }
    }
}

/// The all-member union of a group stays well-formed.
pub proof fn lemma_group_all_union_ok(s: Seq<u32>, g: int, n: int)
    requires
        board_ok(s),
        0 <= g < 27,
        0 <= n <= 9,
    ensures
        mask_ok(group_all_union(s, g, n)),
    decreases n,
{
    if n == 0 {
    } else {
        lemma_group_all_union_ok(s, g, n - 1);
        lemma_group_member_bounds(g, n - 1);
        lemma_or_mask_ok(group_all_union(s, g, n - 1), s[group_member(g, n - 1)]);
    }
}

/// A bit is in the all-member union exactly when some member holds it.
pub proof fn lemma_group_all_union_bit(s: Seq<u32>, g: int, n: int, m: u32)
    requires
        board_ok(s),
        0 <= g < 27,
        0 <= n <= 9,
    ensures
        (group_all_union(s, g, n) & m != 0) == (exists|i: int|
            0 <= i < n && (#[trigger] s[group_member(g, i)] & m) != 0),
    decreases n,
{
    if n == 0 {
        lemma_or_zero(m);
    } else {
        lemma_group_all_union_bit(s, g, n - 1, m);
        lemma_group_member_bounds(g, n - 1);
        let u = group_all_union(s, g, n - 1);
        let b = s[group_member(g, n - 1)];
        lemma_or_bit(u, b, m);
        if (u | b) & m != 0 {
            if u & m != 0 {
                let i = choose|i: int| 0 <= i < n - 1 && (#[trigger] s[group_member(g, i)] & m)
                    != 0;
                assert(0 <= i < n && (s[group_member(g, i)] & m) != 0);
            } else {
                assert(0 <= n - 1 < n && (s[group_member(g, n - 1)] & m) != 0);
            }
        } else {
            if exists|i: int| 0 <= i < n && (#[trigger] s[group_member(g, i)] & m) != 0 {
                let i = choose|i: int| 0 <= i < n && (#[trigger] s[group_member(g, i)] & m) != 0;
                if i < n - 1 {
                    assert(u & m != 0);
                } else {
                    assert(b & m != 0);
                }
                assert(false);
            }
        }
    }
}

/// A digit kept alive by some member sets its bit in the all-member union.
pub proof fn lemma_cover_bit(s: Seq<u32>, g: int, d: int)
    requires
        board_ok(s),
        0 <= g < 27,
        0 <= d < 9,
        group_covers_all(s, g),
    ensures
        (group_all_union(s, g, 9) >> (d as u32)) & 1 == 1,
{
    let du = d as u32;
    assert(digit_covered(s, g, d));
    let k = choose|k: int| 0 <= k < 9 && has_digit(#[trigger] s[group_member(g, k)], d);
    lemma_group_member_bounds(g, k);
    crate::cell::lemma_digit_test(s[group_member(g, k)], du);
    lemma_group_all_union_bit(s, g, 9, 1u32 << du);
    assert((s[group_member(g, k)] & (1u32 << du)) != 0);
    crate::cell::lemma_digit_test(group_all_union(s, g, 9), du);
}

/// The all-member union is full exactly when every digit still has a home.
pub proof fn lemma_covers_iff(s: Seq<u32>, g: int)
    requires
        board_ok(s),
        0 <= g < 27,
    ensures
        (group_all_union(s, g, 9) == SUDOKU_ALL_CANDIDATES) == group_covers_all(s, g),
{
    let u = group_all_union(s, g, 9);
    lemma_group_all_union_ok(s, g, 9);
    if u == SUDOKU_ALL_CANDIDATES {
        assert forall|d: int| 0 <= d < 9 implies #[trigger] digit_covered(s, g, d) by {
            let du = d as u32;
            assert((0x1ffu32 >> du) & 1 == 1) by (bit_vector)
                requires
                    du < 9,
            ;
            crate::cell::lemma_digit_test(u, du);
            lemma_group_all_union_bit(s, g, 9, 1u32 << du);
            let i = choose|i: int| 0 <= i < 9 && (#[trigger] s[group_member(g, i)] & (1u32 << du))
                != 0;
            lemma_group_member_bounds(g, i);
            crate::cell::lemma_digit_test(s[group_member(g, i)], du);
            assert(has_digit(s[group_member(g, i)], d));
        }
    } else {
        if group_covers_all(s, g) {
            lemma_cover_bit(s, g, 0);
            lemma_cover_bit(s, g, 1);
            lemma_cover_bit(s, g, 2);
            lemma_cover_bit(s, g, 3);
            lemma_cover_bit(s, g, 4);
            lemma_cover_bit(s, g, 5);
            lemma_cover_bit(s, g, 6);
            lemma_cover_bit(s, g, 7);
            lemma_cover_bit(s, g, 8);
            assert(u <= 0x1ffu32 && ((u >> 0u32) & 1 == 1) && ((u >> 1u32) & 1 == 1) && ((u >> 2u32)
                & 1 == 1) && ((u >> 3u32) & 1 == 1) && ((u >> 4u32) & 1 == 1) && ((u >> 5u32) & 1
                == 1) && ((u >> 6u32) & 1 == 1) && ((u >> 7u32) & 1 == 1) && ((u >> 8u32) & 1 == 1)
                ==> u == 0x1ffu32) by (bit_vector);
        }
    }
}

// ---------------------------------------------------------------------------
// The two passes: frame conditions and counts.
// ---------------------------------------------------------------------------

/// What one naked-single filtering does to a mask: a submask, never larger,
/// and a fixed or empty cell is left alone.
pub proof fn lemma_filter_mask_props(a: u32, x: u32)
    requires
        mask_ok(a),
    ensures
        mask_ok(filter_mask(a, x)),
        (filter_mask(a, x) & !a) == 0,
        popcount9(filter_mask(a, x)) <= popcount9(a),
        popcount9(a) <= 1 ==> filter_mask(a, x) == a,
{
    assert(a <= 0x1ffu32 ==> ((a & !x) <= 0x1ffu32 && ((a & !x) & !a) == 0 && popcount9(a & !x)
        <= popcount9(a))) by (bit_vector);
    assert((a & !a) == 0) by (bit_vector);
}

/// What one hidden-single filling does to a mask: the same mask, or a newly
/// fixed cell that had at least two candidates.
pub proof fn lemma_fill_mask_props(a: u32, x: u32)
    requires
        mask_ok(a),
    ensures
        mask_ok(fill_mask(a, x)),
        fill_mask(a, x) == a || (popcount9(fill_mask(a, x)) == 1 && popcount9(a) >= 2),
        popcount9(fill_mask(a, x)) <= popcount9(a),
        popcount9(a) <= 1 ==> fill_mask(a, x) == a,
{
    assert((0x1ffu32 & !x) <= 0x1ffu32) by (bit_vector);
}

/// A submask with the same candidate count is the same mask.
pub proof fn lemma_submask_same_count(a: u32, b: u32)
    requires
        mask_ok(a),
        mask_ok(b),
        (a & !b) == 0,
        popcount9(a) == popcount9(b),
    ensures
        a == b,
{
    assert((a <= 0x1ffu32 && b <= 0x1ffu32 && (a & !b) == 0 && popcount9(a) == popcount9(b)) ==> a
        == b) by (bit_vector);
}

/// The naked-single pass changes each cell once, to a submask, and leaves
/// fixed or empty cells alone.
pub proof fn lemma_filter_upto_frame(s: Seq<u32>, n: int)
    requires
        board_ok(s),
        0 <= n <= 81,
    ensures
        filter_pass_upto(s, n).len() == 81,
        board_ok(filter_pass_upto(s, n)),
        forall|i: int| n <= i < 81 ==> #[trigger] filter_pass_upto(s, n)[i] == s[i],
        forall|i: int|
            0 <= i < n ==> ((#[trigger] filter_pass_upto(s, n)[i] & !s[i]) == 0 && popcount9(
                filter_pass_upto(s, n)[i],
            ) <= popcount9(s[i])),
        forall|i: int|
            0 <= i < n && popcount9(s[i]) <= 1 ==> #[trigger] filter_pass_upto(s, n)[i] == s[i],
    decreases n,
{
    if n == 0 {
        assert forall|i: int| 0 <= i < 81 implies (#[trigger] s[i] & !s[i]) == 0 by {
            let a = s[i];
            assert((a & !a) == 0) by (bit_vector);
        }
    } else {
        lemma_filter_upto_frame(s, n - 1);
        let t = filter_pass_upto(s, n - 1);
        let c = n - 1;
        assert(t[c] == s[c]);
        if popcount9(t[c]) <= 1 {
            assert(filter_pass_upto(s, n) == t);
            lemma_filter_mask_props(s[c], 0);
        } else {
            let v = filter_mask(t[c], filter_sum(t, c));
            assert(filter_pass_upto(s, n) == t.update(c, v));
            lemma_filter_mask_props(t[c], filter_sum(t, c));
        }
    }
}

/// One hidden-single step for one cell: unchanged, or newly fixed.
pub proof fn lemma_fill_cell_step_props(s: Seq<u32>, c: int)
    requires
        board_ok(s),
        0 <= c < 81,
    ensures
        fill_cell_step(s, c).len() == 81,
        forall|i: int| 0 <= i < 81 && i != c ==> #[trigger] fill_cell_step(s, c)[i] == s[i],
        fill_cell_step(s, c)[c] == s[c] || (popcount9(fill_cell_step(s, c)[c]) == 1 && popcount9(
            s[c],
        ) >= 2),
        popcount9(fill_cell_step(s, c)[c]) <= popcount9(s[c]),
        popcount9(s[c]) <= 1 ==> fill_cell_step(s, c) == s,
        board_ok(fill_cell_step(s, c)),
{
    if popcount9(s[c]) <= 1 {
    } else {
        let t1 = fill_group_step(s, c, 0);
        let t2 = fill_group_step(t1, c, 1);
        let t3 = fill_group_step(t2, c, 2);
        lemma_fill_mask_props(s[c], peer_all_union(s, c, 0, 9));
        lemma_fill_mask_props(t1[c], peer_all_union(t1, c, 1, 9));
        lemma_fill_mask_props(t2[c], peer_all_union(t2, c, 2, 9));
        assert(fill_cell_groups(s, c, 0) == s);
        assert(fill_cell_groups(s, c, 1) == t1);
        assert(fill_cell_groups(s, c, 2) == t2);
        assert(fill_cell_step(s, c) == t3);
    }
}

/// The hidden-single pass leaves fixed cells alone and never grows a mask.
pub proof fn lemma_fill_upto_frame(s: Seq<u32>, n: int)
    requires
        board_ok(s),
        0 <= n <= 81,
    ensures
        fill_pass_upto(s, n).len() == 81,
        board_ok(fill_pass_upto(s, n)),
        forall|i: int| n <= i < 81 ==> #[trigger] fill_pass_upto(s, n)[i] == s[i],
        forall|i: int|
            0 <= i < n ==> (#[trigger] fill_pass_upto(s, n)[i] == s[i] || (popcount9(
                fill_pass_upto(s, n)[i],
            ) == 1 && popcount9(s[i]) >= 2)),
        forall|i: int|
            0 <= i < n ==> popcount9(#[trigger] fill_pass_upto(s, n)[i]) <= popcount9(s[i]),
        forall|i: int|
            0 <= i < n && popcount9(s[i]) <= 1 ==> #[trigger] fill_pass_upto(s, n)[i] == s[i],
    decreases n,
{
    if n == 0 {
    } else {
        lemma_fill_upto_frame(s, n - 1);
        let t = fill_pass_upto(s, n - 1);
        let c = n - 1;
        assert(t[c] == s[c]);
        lemma_fill_cell_step_props(t, c);
        assert(fill_pass_upto(s, n) == fill_cell_step(t, c));
    }
}

/// A fixed well-formed mask is the mask of one of the nine digits.
pub proof fn lemma_single_is_digit(m: u32)
    requires
        mask_ok(m),
        single_mask(m),
    ensures
        exists|d: int| 0 <= d < 9 && m == digit_mask(d),
{
    assert((m <= 0x1ffu32 && popcount9(m) == 1) ==> (m == 1u32 || m == 2u32 || m == 4u32 || m
        == 8u32 || m == 16u32 || m == 32u32 || m == 64u32 || m == 128u32 || m == 256u32))
        by (bit_vector);
    assert(1u32 << 0u32 == 1u32 && 1u32 << 1u32 == 2u32 && 1u32 << 2u32 == 4u32 && 1u32 << 3u32
        == 8u32 && 1u32 << 4u32 == 16u32 && 1u32 << 5u32 == 32u32 && 1u32 << 6u32 == 64u32 && 1u32
        << 7u32 == 128u32 && 1u32 << 8u32 == 256u32) by (bit_vector);
    if m == 1u32 {
        assert(m == digit_mask(0));
    } else if m == 2u32 {
        assert(m == digit_mask(1));
    } else if m == 4u32 {
        assert(m == digit_mask(2));
    } else if m == 8u32 {
        assert(m == digit_mask(3));
    } else if m == 16u32 {
        assert(m == digit_mask(4));
    } else if m == 32u32 {
        assert(m == digit_mask(5));
    } else if m == 64u32 {
        assert(m == digit_mask(6));
    } else if m == 128u32 {
        assert(m == digit_mask(7));
    } else {
        assert(m == digit_mask(8));
    }
}

/// In every solved group the nine cells carry the nine digits exactly:
/// each cell is fixed to one digit, no digit repeats, each digit 1 through
/// 9 stands in exactly one of its cells.
pub proof fn lemma_solved_group_digits(s: Seq<u32>, g: int)
    requires
        board_ok(s),
        0 <= g < 27,
        group_solved(s, g),
    ensures
        forall|k: int|
            0 <= k < 9 ==> exists|d: int| 0 <= d < 9 && #[trigger] s[group_member(g, k)]
                == digit_mask(d),
        forall|d: int|
            0 <= d < 9 ==> exists|k: int| 0 <= k < 9 && #[trigger] s[group_member(g, k)]
                == #[trigger] digit_mask(d),
        forall|k1: int, k2: int|
            0 <= k1 < 9 && 0 <= k2 < 9 && k1 != k2 ==> #[trigger] s[group_member(g, k1)]
                != #[trigger] s[group_member(g, k2)],
{
    assert forall|k: int| 0 <= k < 9 implies exists|d: int|
        0 <= d < 9 && #[trigger] s[group_member(g, k)] == digit_mask(d) by {
        lemma_group_member_bounds(g, k);
        lemma_single_is_digit(s[group_member(g, k)]);
    }
    assert forall|k1: int, k2: int|
        0 <= k1 < 9 && 0 <= k2 < 9 && k1 != k2 implies #[trigger] s[group_member(g, k1)]
        != #[trigger] s[group_member(g, k2)] by {
        if s[group_member(g, k1)] == s[group_member(g, k2)] {
            assert(single_mask(s[group_member(g, k1)]));
            assert(dup_fixed(s, g));
        }
    }
    lemma_group_solved_iff(s, g);
    assert forall|d: int| 0 <= d < 9 implies exists|k: int|
        0 <= k < 9 && #[trigger] s[group_member(g, k)] == #[trigger] digit_mask(d) by {
        let du = d as u32;
        assert((0x1ffu32 & (1u32 << du)) != 0) by (bit_vector)
            requires
                du < 9,
        ;
        lemma_group_fixed_union_bit(s, g, 9, 1u32 << du);
        let i = choose|i: int|
            0 <= i < 9 && popcount9(#[trigger] s[group_member(g, i)]) <= 1 && (s[group_member(
                g,
                i,
            )] & (1u32 << du)) != 0;
        lemma_group_member_bounds(g, i);
        let a = s[group_member(g, i)];
        assert((a <= 0x1ffu32 && popcount9(a) <= 1 && (a & (1u32 << du)) != 0 && du < 9) ==> a
            == (1u32 << du)) by (bit_vector);
        assert(s[group_member(g, i)] == digit_mask(d));
    }
}

/// The fixed-member union never leaves the all-member union.
pub proof fn lemma_fixed_sub_all(s: Seq<u32>, g: int, n: int)
    requires
        0 <= n <= 9,
    ensures
        (group_fixed_union(s, g, n) & !group_all_union(s, g, n)) == 0,
    decreases n,
{
    if n == 0 {
        assert(0u32 & !0u32 == 0) by (bit_vector);
    } else {
        lemma_fixed_sub_all(s, g, n - 1);
        let a = group_fixed_union(s, g, n - 1);
        let b = group_all_union(s, g, n - 1);
        let c = s[group_member(g, n - 1)];
        assert((a & !b) == 0 ==> (((a | c) & !(b | c)) == 0 && (a & !(b | c)) == 0))
            by (bit_vector);
    }
}

/// A solved group is in particular consistent.
pub proof fn lemma_solved_group_consistent(s: Seq<u32>, g: int)
    requires
        board_ok(s),
        0 <= g < 27,
        group_solved(s, g),
    ensures
        group_consistent(s, g),
{
    lemma_group_solved_iff(s, g);
    lemma_fixed_sub_all(s, g, 9);
    lemma_group_all_union_ok(s, g, 9);
    let x = group_all_union(s, g, 9);
    assert((0x1ffu32 & !x) == 0 && x <= 0x1ffu32 ==> x == 0x1ffu32) by (bit_vector);
    lemma_covers_iff(s, g);
    lemma_conflict_iff_dup(s, g);
    assert forall|k: int| 0 <= k < 9 implies #[trigger] s[group_member(g, k)] != 0 by {
        lemma_group_member_bounds(g, k);
        lemma_popcount_zero(s[group_member(g, k)]);
    }
}

/// On a solved board every cell is fixed.
pub proof fn lemma_solved_all_single(s: Seq<u32>)
    requires
        s.len() == 81,
        board_solved(s),
    ensures
        forall|i: int| 0 <= i < 81 ==> popcount9(#[trigger] s[i]) == 1,
{
    assert forall|i: int| 0 <= i < 81 implies popcount9(#[trigger] s[i]) == 1 by {
        crate::groups::lemma_div9(i);
        assert(group_solved(s, i / 9));
        assert(single_mask(s[group_member(i / 9, i % 9)]));
        assert(group_member(i / 9, i % 9) == i);
    }
}

/// Both passes together leave fixed cells alone and never grow a mask.
pub proof fn lemma_round_frame(s: Seq<u32>)
    requires
        board_ok(s),
    ensures
        board_ok(fill_pass(filter_pass(s))),
        fill_pass(filter_pass(s)).len() == 81,
        forall|i: int|
            0 <= i < 81 ==> popcount9(#[trigger] fill_pass(filter_pass(s))[i]) <= popcount9(s[i]),
        forall|i: int|
            0 <= i < 81 && popcount9(s[i]) <= 1 ==> #[trigger] fill_pass(filter_pass(s))[i]
                == s[i],
{
    lemma_filter_upto_frame(s, 81);
    let t = filter_pass(s);
    lemma_fill_upto_frame(t, 81);
    assert forall|i: int| 0 <= i < 81 implies popcount9(#[trigger] fill_pass(filter_pass(s))[i])
        <= popcount9(s[i]) by {
        assert(popcount9(fill_pass(t)[i]) <= popcount9(t[i]));
        assert(popcount9(t[i]) <= popcount9(s[i]));
    }
    assert forall|i: int| 0 <= i < 81 && popcount9(s[i]) <= 1 implies #[trigger] fill_pass(
        filter_pass(s),
    )[i] == s[i] by {
        assert(t[i] == s[i]);
        assert(fill_pass(t)[i] == t[i]);
    }
}

/// A solved board is a fixed point of both passes.
pub proof fn lemma_solved_fixpoint(s: Seq<u32>)
    requires
        board_ok(s),
        board_solved(s),
    ensures
        filter_pass(s) == s,
        fill_pass(filter_pass(s)) == s,
{
    lemma_solved_all_single(s);
    lemma_filter_upto_frame(s, 81);
    assert(filter_pass(s) =~= s);
    lemma_fill_upto_frame(s, 81);
    assert(fill_pass(s) =~= s);
}

/// A duplicated fixed digit survives any change that leaves fixed cells
/// alone, and keeps the board unsolvable.
pub proof fn lemma_conflict_preserved(s1: Seq<u32>, s2: Seq<u32>)
    requires
        s1.len() == 81,
        s2.len() == 81,
        board_conflict(s1),
        forall|i: int| 0 <= i < 81 && popcount9(#[trigger] s1[i]) <= 1 ==> s2[i] == s1[i],
    ensures
        board_conflict(s2),
        !board_solved(s2),
{
    let g = choose|g: int| 0 <= g < 27 && dup_fixed(s1, g);
    let (k1, k2) = choose|k1: int, k2: int|
        0 <= k1 < 9 && 0 <= k2 < 9 && k1 != k2 && single_mask(#[trigger] s1[group_member(g, k1)])
            && s1[group_member(g, k1)] == #[trigger] s1[group_member(g, k2)];
    lemma_group_member_bounds(g, k1);
    lemma_group_member_bounds(g, k2);
    assert(s2[group_member(g, k1)] == s1[group_member(g, k1)]);
    assert(s2[group_member(g, k2)] == s1[group_member(g, k2)]);
    assert(dup_fixed(s2, g));
    assert(!group_solved(s2, g));
}

// ---------------------------------------------------------------------------
// Choosing the branch cell for the backtracking search.
// ---------------------------------------------------------------------------

/// The count a cell enters the branch-cell choice with: its candidate
/// count, or a large sentinel for cells that cannot be branched on.
pub open spec fn adjusted_count(s: Seq<u32>, i: int) -> int {
    if popcount9(s[i]) > 1 {
        popcount9(s[i])
    } else {
        81
    }
}

/// The least adjusted count among the first `n` cells, starting from the
/// sentinel.
pub open spec fn min_adjusted_upto(s: Seq<u32>, n: int) -> int
    decreases n,
{
    if n <= 0 {
        81
    } else {
        vstd::math::min(min_adjusted_upto(s, n - 1), adjusted_count(s, n - 1))
    }
}

/// How many of the first `n` cells of row `r` carry adjusted count `m`.
pub open spec fn row_match_count(s: Seq<u32>, r: int, m: int, n: int) -> int
    decreases n,
{
    if n <= 0 {
        0
    } else {
        row_match_count(s, r, m, n - 1) + (if adjusted_count(s, r * 9 + (n - 1)) == m {
            1int
        } else {
            0int
        })
    }
}

/// The largest row match count among the first `n` rows.
pub open spec fn max_row_match_upto(s: Seq<u32>, m: int, n: int) -> int
    decreases n,
{
    if n <= 0 {
        0
    } else {
        vstd::math::max(max_row_match_upto(s, m, n - 1), row_match_count(s, n - 1, m, 9))
    }
}

/// The first row at or after `r` whose match count is `target` (9 if none).
pub open spec fn first_row_with(s: Seq<u32>, m: int, target: int, r: int) -> int
    decreases 9 - r,
{
    if r < 0 || r >= 9 {
        9
    } else if row_match_count(s, r, m, 9) == target {
        r
    } else {
        first_row_with(s, m, target, r + 1)
    }
}

/// The first column at or after `k` of row `r` whose adjusted count is `m`
/// (9 if none).
pub open spec fn first_col_with(s: Seq<u32>, r: int, m: int, k: int) -> int
    decreases 9 - k,
{
    if k < 0 || k >= 9 {
        9
    } else if adjusted_count(s, r * 9 + k) == m {
        k
    } else {
        first_col_with(s, r, m, k + 1)
    }
}

/// The branch cell: the cell with the fewest remaining candidates above
/// one, preferring the first row with the most such minimal cells, and the
/// leftmost of them within that row.
pub open spec fn backtrack_target(s: Seq<u32>) -> int {
    let m = min_adjusted_upto(s, 81);
    let mc = max_row_match_upto(s, m, 9);
    let r = first_row_with(s, m, mc, 0);
    let c = first_col_with(s, r, m, 0);
    r * 9 + c
}

/// Some cell among the first `n` attains the least adjusted count, as soon
/// as one cell was scanned.
pub proof fn lemma_min_achieved(s: Seq<u32>, n: int)
    requires
        1 <= n,
    ensures
        exists|i: int| 0 <= i < n && #[trigger] adjusted_count(s, i) == min_adjusted_upto(s, n)
            || min_adjusted_upto(s, n) == 81,
    decreases n,
{
    if n == 1 {
        assert(min_adjusted_upto(s, 0) == 81);
        if adjusted_count(s, 0) < 81 {
            assert(adjusted_count(s, 0) == min_adjusted_upto(s, 1));
        }
    } else {
        lemma_min_achieved(s, n - 1);
        if adjusted_count(s, n - 1) <= min_adjusted_upto(s, n - 1) {
            if adjusted_count(s, n - 1) < 81 {
                assert(adjusted_count(s, n - 1) == min_adjusted_upto(s, n));
            }
        } else {
            if exists|i: int|
                0 <= i < n - 1 && #[trigger] adjusted_count(s, i) == min_adjusted_upto(s, n - 1) {
                let i = choose|i: int|
                    0 <= i < n - 1 && #[trigger] adjusted_count(s, i) == min_adjusted_upto(
                        s,
                        n - 1,
                    );
                assert(adjusted_count(s, i) == min_adjusted_upto(s, n));
            }
        }
    }
}

/// The least adjusted count bounds every scanned cell's adjusted count.
pub proof fn lemma_min_le_cell(s: Seq<u32>, i: int, n: int)
    requires
        0 <= i < n,
    ensures
        min_adjusted_upto(s, n) <= adjusted_count(s, i),
    decreases n,
{
    if i < n - 1 {
        lemma_min_le_cell(s, i, n - 1);
    }
}

/// Row match counts lie between 0 and `n`, and are positive exactly when
/// some scanned cell matches.
pub proof fn lemma_row_match_bounds(s: Seq<u32>, r: int, m: int, n: int)
    requires
        0 <= n <= 9,
    ensures
        0 <= row_match_count(s, r, m, n) <= n,
        (row_match_count(s, r, m, n) > 0) == (exists|c: int|
            0 <= c < n && #[trigger] adjusted_count(s, r * 9 + c) == m),
    decreases n,
{
    if n > 0 {
        lemma_row_match_bounds(s, r, m, n - 1);
        if adjusted_count(s, r * 9 + (n - 1)) == m {
            assert(0 <= n - 1 < n && adjusted_count(s, r * 9 + (n - 1)) == m);
        } else {
            if row_match_count(s, r, m, n) > 0 {
                let c = choose|c: int| 0 <= c < n - 1 && #[trigger] adjusted_count(s, r * 9 + c)
                    == m;
                assert(0 <= c < n && adjusted_count(s, r * 9 + c) == m);
            }
            if exists|c: int| 0 <= c < n && #[trigger] adjusted_count(s, r * 9 + c) == m {
                let c = choose|c: int| 0 <= c < n && #[trigger] adjusted_count(s, r * 9 + c) == m;
                assert(c < n - 1);
            }
        }
    }
}

/// The maximum over the first `n` rows bounds each of them.
pub proof fn lemma_max_ge(s: Seq<u32>, m: int, n: int, r: int)
    requires
        0 <= r < n,
    ensures
        max_row_match_upto(s, m, n) >= row_match_count(s, r, m, 9),
    decreases n,
{
    if r < n - 1 {
        lemma_max_ge(s, m, n - 1, r);
    }
}

/// Some row attains the maximum match count.
pub proof fn lemma_max_achieved(s: Seq<u32>, m: int, n: int)
    requires
        1 <= n,
    ensures
        exists|r: int|
            0 <= r < n && #[trigger] row_match_count(s, r, m, 9) == max_row_match_upto(s, m, n),
    decreases n,
{
    lemma_row_match_bounds(s, 0, m, 9);
    if n == 1 {
        assert(max_row_match_upto(s, m, 0) == 0);
        assert(row_match_count(s, 0, m, 9) == max_row_match_upto(s, m, 1));
    } else {
        lemma_max_achieved(s, m, n - 1);
        if row_match_count(s, n - 1, m, 9) >= max_row_match_upto(s, m, n - 1) {
            assert(row_match_count(s, n - 1, m, 9) == max_row_match_upto(s, m, n));
        } else {
            let r = choose|r: int|
                0 <= r < n - 1 && #[trigger] row_match_count(s, r, m, 9) == max_row_match_upto(
                    s,
                    m,
                    n - 1,
                );
            assert(row_match_count(s, r, m, 9) == max_row_match_upto(s, m, n));
        }
    }
}

/// A scan that rejected every row before `r` and accepts `r` finds the
/// first matching row.
pub proof fn lemma_first_row_from(s: Seq<u32>, m: int, target: int, a: int, r: int)
    requires
        0 <= a <= r <= 9,
        forall|j: int| a <= j < r ==> #[trigger] row_match_count(s, j, m, 9) != target,
        r == 9 || row_match_count(s, r, m, 9) == target,
    ensures
        first_row_with(s, m, target, a) == r,
    decreases r - a,
{
    if a < r {
        lemma_first_row_from(s, m, target, a + 1, r);
    }
}

/// The same, for the column scan within a row.
pub proof fn lemma_first_col_from(s: Seq<u32>, r: int, m: int, a: int, k: int)
    requires
        0 <= a <= k <= 9,
        forall|j: int| a <= j < k ==> #[trigger] adjusted_count(s, r * 9 + j) != m,
        k == 9 || adjusted_count(s, r * 9 + k) == m,
    ensures
        first_col_with(s, r, m, a) == k,
    decreases k - a,
{
    if a < k {
        lemma_first_col_from(s, r, m, a + 1, k);
    }
}

/// A scan that starts before a matching row lands on a matching row.
pub proof fn lemma_first_row_finds(s: Seq<u32>, m: int, target: int, a: int)
    requires
        0 <= a <= 9,
        exists|r: int| a <= r < 9 && #[trigger] row_match_count(s, r, m, 9) == target,
    ensures
        a <= first_row_with(s, m, target, a) < 9,
        row_match_count(s, first_row_with(s, m, target, a), m, 9) == target,
    decreases 9 - a,
{
    if row_match_count(s, a, m, 9) == target {
    } else {
        let r = choose|r: int| a <= r < 9 && #[trigger] row_match_count(s, r, m, 9) == target;
        assert(a + 1 <= r < 9 && row_match_count(s, r, m, 9) == target);
        lemma_first_row_finds(s, m, target, a + 1);
    }
}

/// The same, for the column scan within a row.
pub proof fn lemma_first_col_finds(s: Seq<u32>, r: int, m: int, a: int)
    requires
        0 <= a <= 9,
        exists|k: int| a <= k < 9 && #[trigger] adjusted_count(s, r * 9 + k) == m,
    ensures
        a <= first_col_with(s, r, m, a) < 9,
        adjusted_count(s, r * 9 + first_col_with(s, r, m, a)) == m,
    decreases 9 - a,
{
    if adjusted_count(s, r * 9 + a) == m {
    } else {
        let k = choose|k: int| a <= k < 9 && #[trigger] adjusted_count(s, r * 9 + k) == m;
        assert(a + 1 <= k < 9 && adjusted_count(s, r * 9 + k) == m);
        lemma_first_col_finds(s, r, m, a + 1);
    }
}

/// Whenever some cell can still be branched on, the chosen branch cell is
/// one with the least candidate count above one.
pub proof fn lemma_target_hits_min(s: Seq<u32>)
    requires
        board_ok(s),
        min_adjusted_upto(s, 81) < 81,
    ensures
        0 <= backtrack_target(s) < 81,
        adjusted_count(s, backtrack_target(s)) == min_adjusted_upto(s, 81),
        popcount9(s[backtrack_target(s)]) == min_adjusted_upto(s, 81),
        2 <= min_adjusted_upto(s, 81),
{
    let m = min_adjusted_upto(s, 81);
    lemma_min_achieved(s, 81);
    let i0 = choose|i: int| 0 <= i < 81 && #[trigger] adjusted_count(s, i) == m;
    crate::groups::lemma_div9(i0);
    let r0 = i0 / 9;
    assert(adjusted_count(s, r0 * 9 + (i0 % 9)) == m);
    lemma_row_match_bounds(s, r0, m, 9);
    assert(row_match_count(s, r0, m, 9) > 0);
    lemma_max_ge(s, m, 9, r0);
    let mc = max_row_match_upto(s, m, 9);
    lemma_max_achieved(s, m, 9);
    lemma_first_row_finds(s, m, mc, 0);
    let tr = first_row_with(s, m, mc, 0);
    lemma_row_match_bounds(s, tr, m, 9);
    lemma_first_col_finds(s, tr, m, 0);
    let tc = first_col_with(s, tr, m, 0);
    assert(backtrack_target(s) == tr * 9 + tc);
    lemma_min_le_cell(s, tr * 9 + tc, 81);
}

/// The branch-cell choice always lands on the board.
pub proof fn lemma_target_bounds(s: Seq<u32>)
    requires
        board_ok(s),
    ensures
        0 <= backtrack_target(s) < 81,
{
    let m = min_adjusted_upto(s, 81);
    if m < 81 {
        lemma_target_hits_min(s);
    } else {
        lemma_min_sentinel_all_fixed(s);
        lemma_min_le_cell(s, 0, 81);
        lemma_popcount_zero(s[0]);
        assert(m == 81);
        let mc = max_row_match_upto(s, m, 9);
        lemma_max_achieved(s, m, 9);
        lemma_first_row_finds(s, m, mc, 0);
        let tr = first_row_with(s, m, mc, 0);
        lemma_popcount_zero(s[tr * 9]);
        assert(adjusted_count(s, tr * 9 + 0) == 81);
        lemma_first_col_finds(s, tr, m, 0);
    }
}

/// When even the least adjusted count is the sentinel, every cell is fixed
/// or empty.
pub proof fn lemma_min_sentinel_all_fixed(s: Seq<u32>)
    requires
        board_ok(s),
        min_adjusted_upto(s, 81) >= 81,
    ensures
        forall|i: int| 0 <= i < 81 ==> popcount9(#[trigger] s[i]) <= 1,
{
    assert forall|i: int| 0 <= i < 81 implies popcount9(#[trigger] s[i]) <= 1 by {
        lemma_min_le_cell(s, i, 81);
        lemma_popcount_zero(s[i]);
    }
}

// ---------------------------------------------------------------------------
// The whole solving procedure as a function of the board: deduction to a
// fixed point, then depth-first branching on the chosen cell.
// ---------------------------------------------------------------------------

/// One run of the solver from board `s`, where `prev` is the candidate
/// total of the pass before (or the ceiling 729 at the start): both passes,
/// then stop on a solved or inconsistent board, branch once the total stops
/// falling, and otherwise pass again.
pub open spec fn solve_from(s: Seq<u32>, prev: int) -> (bool, Seq<u32>)
    decreases 2 * total_count(s) + (if prev == total_count(s) {
        0int
    } else {
        1int
    }), 2int, 0int,
        when board_ok(s) && total_count(s) <= prev
        via solve_from_decreases
{
    let s1 = fill_pass(filter_pass(s));
    if board_solved(s1) {
        (true, s1)
    } else if !board_consistent(s1) {
        (false, s1)
    } else if total_count(s1) == prev {
        stalled_result(s1)
    } else {
        solve_from(s1, total_count(s1))
    }
}

/// What the solver returns from a stalled board: give up if no cell can be
/// branched on, else try the branch cell's candidates in ascending order.
pub open spec fn stalled_result(s: Seq<u32>) -> (bool, Seq<u32>)
    decreases 2 * total_count(s), 1int, 0int,
{
    let t = backtrack_target(s);
    if popcount9(s[t]) <= 1 {
        (false, s)
    } else {
        branch_try(s, t, 0)
    }
}

/// Tries candidates `d..9` of the branch cell `t` in order: clone the
/// board, force the candidate, re-run the whole solver, and keep the first
/// branch that succeeds; when none does the board is unsatisfiable.
pub open spec fn branch_try(s: Seq<u32>, t: int, d: int) -> (bool, Seq<u32>)
    decreases 2 * total_count(s), 0int, 9 - d,
        when board_ok(s) && 0 <= t < 81 && popcount9(s[t]) >= 2 && 0 <= d
        via branch_try_decreases
{
    if d >= 9 {
        (false, s)
    } else if has_digit(s[t], d) {
        let res = solve_from(s.update(t, digit_mask(d)), 729);
        if res.0 {
            res
        } else {
            branch_try(s, t, d + 1)
        }
    } else {
        branch_try(s, t, d + 1)
    }
}

#[via_fn]
proof fn solve_from_decreases(s: Seq<u32>, prev: int) {
    if board_ok(s) && total_count(s) <= prev {
        lemma_round_frame(s);
        let s1 = fill_pass(filter_pass(s));
        lemma_total_le(s, s1, 81);
        lemma_total_bound(s1, 81);
    }
}

#[via_fn]
proof fn branch_try_decreases(s: Seq<u32>, t: int, d: int) {
    if board_ok(s) && 0 <= t < 81 && popcount9(s[t]) >= 2 && 0 <= d < 9 && has_digit(s[t], d) {
        lemma_branch_board(s, t, d);
    }
}

/// Forcing one candidate into a branchable cell keeps the board
/// well-formed and strictly lowers the candidate total.
pub proof fn lemma_branch_board(s: Seq<u32>, t: int, d: int)
    requires
        board_ok(s),
        0 <= t < 81,
        popcount9(s[t]) >= 2,
        0 <= d < 9,
    ensures
        board_ok(s.update(t, digit_mask(d))),
        total_count(s.update(t, digit_mask(d))) == total_count(s) + 1 - popcount9(s[t]),
        total_count(s.update(t, digit_mask(d))) < total_count(s) <= 729,
        0 <= total_count(s.update(t, digit_mask(d))),
{
    let du = d as u32;
    assert(du < 9 ==> (popcount9(1u32 << du) == 1 && 1u32 << du <= 0x1ffu32)) by (bit_vector);
    lemma_total_update(s, t, digit_mask(d), 81);
    lemma_total_bound(s, 81);
    let s2 = s.update(t, digit_mask(d));
    assert forall|i: int| 0 <= i < 81 implies mask_ok(#[trigger] s2[i]) by {
        if i != t {
            assert(s2[i] == s[i]);
        }
    }
    lemma_total_bound(s2, 81);
}

// ---------------------------------------------------------------------------
// Folds over an explicit member list, as the group scans compute them.
// ---------------------------------------------------------------------------

/// Union of the fixed-or-empty masks of the first `n` listed cells.
pub open spec fn list_fixed_union(s: Seq<u32>, idx: Seq<usize>, n: int) -> u32
    decreases n,
{
    if n <= 0 {
        0u32
    } else {
        merge_unique_mask(list_fixed_union(s, idx, n - 1), s[idx[n - 1] as int])
    }
}

/// The conflict flag of that fold.
pub open spec fn list_conflict_upto(s: Seq<u32>, idx: Seq<usize>, n: int) -> bool
    decreases n,
{
    if n <= 0 {
        false
    } else {
        list_conflict_upto(s, idx, n - 1) || merge_unique_conflict(
            list_fixed_union(s, idx, n - 1),
            s[idx[n - 1] as int],
        )
    }
}

/// Union of all masks of the first `n` listed cells.
pub open spec fn list_all_union(s: Seq<u32>, idx: Seq<usize>, n: int) -> u32
    decreases n,
{
    if n <= 0 {
        0u32
    } else {
        list_all_union(s, idx, n - 1) | s[idx[n - 1] as int]
    }
}

/// Some cell among the first `n` listed has run out of candidates.
pub open spec fn list_has_empty(s: Seq<u32>, idx: Seq<usize>, n: int) -> bool
    decreases n,
{
    if n <= 0 {
        false
    } else {
        list_has_empty(s, idx, n - 1) || s[idx[n - 1] as int] == 0
    }
}

/// Once an empty cell was seen it stays seen.
pub proof fn lemma_list_empty_mono(s: Seq<u32>, idx: Seq<usize>, n1: int, n2: int)
    requires
        0 <= n1 <= n2,
        list_has_empty(s, idx, n1),
    ensures
        list_has_empty(s, idx, n2),
    decreases n2,
{
    if n2 > n1 {
        lemma_list_empty_mono(s, idx, n1, n2 - 1);
    }
}

/// Over a list that spells out group `g`, the empty-cell flag is exactly
/// the presence of a member without candidates.
pub proof fn lemma_list_empty_iff_group(s: Seq<u32>, idx: Seq<usize>, g: int, n: int)
    requires
        0 <= n <= 9,
        forall|k: int| 0 <= k < 9 ==> (#[trigger] idx[k]) as int == group_member(g, k),
    ensures
        list_has_empty(s, idx, n) == (exists|k: int|
            0 <= k < n && #[trigger] s[group_member(g, k)] == 0),
    decreases n,
{
    if n > 0 {
        lemma_list_empty_iff_group(s, idx, g, n - 1);
        if s[group_member(g, n - 1)] == 0 {
            assert(0 <= n - 1 < n && s[group_member(g, n - 1)] == 0);
        } else {
            if list_has_empty(s, idx, n) {
                let k = choose|k: int| 0 <= k < n - 1 && #[trigger] s[group_member(g, k)] == 0;
                assert(0 <= k < n && s[group_member(g, k)] == 0);
            }
            if exists|k: int| 0 <= k < n && #[trigger] s[group_member(g, k)] == 0 {
                let k = choose|k: int| 0 <= k < n && #[trigger] s[group_member(g, k)] == 0;
                assert(k < n - 1);
            }
        }
    }
}

/// A member list that spells out group `g` folds as the group does.
pub proof fn lemma_list_matches_group(s: Seq<u32>, idx: Seq<usize>, g: int, n: int)
    requires
        0 <= n <= 9,
        forall|k: int| 0 <= k < 9 ==> (#[trigger] idx[k]) as int == group_member(g, k),
    ensures
        list_fixed_union(s, idx, n) == group_fixed_union(s, g, n),
        list_conflict_upto(s, idx, n) == group_conflict_upto(s, g, n),
        list_all_union(s, idx, n) == group_all_union(s, g, n),
    decreases n,
{
    if n > 0 {
        lemma_list_matches_group(s, idx, g, n - 1);
    }
}

/// Once the conflict flag rises it stays up.
pub proof fn lemma_list_conflict_mono(s: Seq<u32>, idx: Seq<usize>, n1: int, n2: int)
    requires
        0 <= n1 <= n2,
        list_conflict_upto(s, idx, n1),
    ensures
        list_conflict_upto(s, idx, n2),
    decreases n2,
{
    if n2 > n1 {
        lemma_list_conflict_mono(s, idx, n1, n2 - 1);
    }
}

// ---------------------------------------------------------------------------
// Candidate totals.
// ---------------------------------------------------------------------------

/// Pointwise bounds on counts carry over to the running total.
pub proof fn lemma_total_le(s1: Seq<u32>, s2: Seq<u32>, n: int)
    requires
        0 <= n,
        forall|i: int| 0 <= i < n ==> popcount9(#[trigger] s2[i]) <= popcount9(s1[i]),
    ensures
        total_count_upto(s2, n) <= total_count_upto(s1, n),
    decreases n,
{
    if n > 0 {
        lemma_total_le(s1, s2, n - 1);
    }
}

/// Equal totals under pointwise bounds force pointwise equal counts.
pub proof fn lemma_total_equal_forces(s1: Seq<u32>, s2: Seq<u32>, n: int)
    requires
        0 <= n,
        forall|i: int| 0 <= i < n ==> popcount9(#[trigger] s2[i]) <= popcount9(s1[i]),
        total_count_upto(s2, n) == total_count_upto(s1, n),
    ensures
        forall|i: int| 0 <= i < n ==> popcount9(#[trigger] s2[i]) == popcount9(s1[i]),
    decreases n,
{
    if n > 0 {
        lemma_total_le(s1, s2, n - 1);
        lemma_total_equal_forces(s1, s2, n - 1);
    }
}

/// The total of a well-formed board lies between 0 and 729.
pub proof fn lemma_total_bound(s: Seq<u32>, n: int)
    requires
        board_ok(s),
        0 <= n <= 81,
    ensures
        0 <= total_count_upto(s, n) <= 9 * n,
    decreases n,
{
    if n > 0 {
        lemma_total_bound(s, n - 1);
        lemma_popcount_zero(s[n - 1]);
    }
}

/// Updating one cell moves the total by the difference of the two counts.
pub proof fn lemma_total_update(s: Seq<u32>, c: int, v: u32, n: int)
    requires
        0 <= c < s.len(),
        0 <= n <= s.len(),
    ensures
        total_count_upto(s.update(c, v), n) == total_count_upto(s, n) + (if c < n {
            popcount9(v) - popcount9(s[c])
        } else {
            0
        }),
    decreases n,
{
    if n > 0 {
        lemma_total_update(s, c, v, n - 1);
    }
}

} // verus!
