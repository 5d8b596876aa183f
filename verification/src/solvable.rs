//! Completeness of the search: a board that admits a solution is always
//! reported solved. Neither deduction pass ever discards a digit of a
//! solution, and the branch scan always reaches the solution's digit.
use vstd::prelude::*;

verus! {

use crate::board::backtrack_target;
use crate::board::board_consistent;
use crate::board::board_ok;
use crate::board::board_solved;
use crate::board::branch_try;
use crate::board::digit_covered;
use crate::board::dup_fixed;
use crate::board::fill_cell_groups;
use crate::board::fill_cell_step;
use crate::board::fill_group_step;
use crate::board::fill_pass;
use crate::board::fill_pass_upto;
use crate::board::filter_pass;
use crate::board::filter_pass_upto;
use crate::board::filter_sum;
use crate::board::filter_sum_groups;
use crate::board::group_consistent;
use crate::board::group_solved;
use crate::board::lemma_branch_board;
use crate::board::lemma_fill_mask_props;
use crate::board::lemma_fill_upto_frame;
use crate::board::lemma_filter_upto_frame;
use crate::board::lemma_min_sentinel_all_fixed;
use crate::board::lemma_or_zero;
use crate::board::lemma_popcount_zero;
use crate::board::lemma_round_frame;
use crate::board::lemma_single_is_digit;
use crate::board::lemma_solved_all_single;
use crate::board::lemma_solved_group_digits;
use crate::board::lemma_target_hits_min;
use crate::board::lemma_total_bound;
use crate::board::lemma_total_le;
use crate::board::min_adjusted_upto;
use crate::board::peer_all_union;
use crate::board::peer_fixed_union;
use crate::board::peer_mask;
use crate::board::solve_from;
use crate::board::stalled_result;
use crate::board::total_count;
use crate::cell::digit_mask;
use crate::cell::fill_mask;
use crate::cell::filter_mask;
use crate::cell::has_digit;
use crate::cell::lemma_preset_mask_ok;
use crate::cell::mask_ok;
use crate::cell::popcount9;
use crate::cell::single_mask;
use crate::cell::submask;
use crate::groups::cell_owner;
use crate::groups::group_member;
use crate::groups::lemma_cell_in_own_group;
use crate::groups::lemma_cell_owner_bounds;
use crate::groups::lemma_group_member_bounds;
use crate::cell::kept_mask;
use crate::cell::preset_mask;
use crate::map::clue_kept;
use crate::map::line_masks;

/// `sol` is a full solution still admitted by the board `s`: a solved,
/// well-formed board whose digit in every cell is among the cell's
/// remaining candidates.
pub open spec fn is_solution(sol: Seq<u32>, s: Seq<u32>) -> bool {
    &&& board_ok(sol)
    &&& board_solved(sol)
    &&& s.len() == 81
    &&& forall|i: int| 0 <= i < 81 ==> submask(#[trigger] sol[i], s[i])
}

/// A fixed submask of an at-most-fixed mask is that mask.
proof fn lemma_submask_singles(a: u32, b: u32)
    requires
        mask_ok(a),
        mask_ok(b),
        submask(a, b),
        popcount9(a) == 1,
        popcount9(b) <= 1,
    ensures
        a == b,
{
    assert((a <= 0x1ffu32 && b <= 0x1ffu32 && (a & !b) == 0 && popcount9(a) == 1 && popcount9(b)
        <= 1) ==> a == b) by (bit_vector);
}

/// Two distinct fixed masks share no candidate.
proof fn lemma_distinct_singles(a: u32, b: u32)
    requires
        mask_ok(a),
        mask_ok(b),
        popcount9(a) == 1,
        popcount9(b) == 1,
        a != b,
    ensures
        a & b == 0,
{
    assert((a <= 0x1ffu32 && b <= 0x1ffu32 && popcount9(a) == 1 && popcount9(b) == 1 && a != b)
        ==> (a & b) == 0) by (bit_vector);
}

/// Two distinct cells of one group carry disjoint solution digits.
proof fn lemma_sol_peers_differ(sol: Seq<u32>, g: int, k1: int, k2: int)
    requires
        board_ok(sol),
        board_solved(sol),
        0 <= g < 27,
        0 <= k1 < 9,
        0 <= k2 < 9,
        group_member(g, k1) != group_member(g, k2),
    ensures
        sol[group_member(g, k1)] & sol[group_member(g, k2)] == 0,
{
    lemma_group_member_bounds(g, k1);
    lemma_group_member_bounds(g, k2);
    lemma_solved_all_single(sol);
    assert(group_solved(sol, g));
    if sol[group_member(g, k1)] == sol[group_member(g, k2)] {
        assert(dup_fixed(sol, g));
    }
    lemma_distinct_singles(sol[group_member(g, k1)], sol[group_member(g, k2)]);
}

/// The fixed-peer union of a cell never contains the cell's own solution
/// digit.
proof fn lemma_sol_avoids_fixed_union(sol: Seq<u32>, s: Seq<u32>, c: int, j: int, n: int)
    requires
        is_solution(sol, s),
        board_ok(s),
        0 <= c < 81,
        0 <= j < 3,
        0 <= n <= 9,
    ensures
        sol[c] & peer_fixed_union(s, c, j, n) == 0,
    decreases n,
{
    lemma_or_zero(sol[c]);
    if n > 0 {
        lemma_sol_avoids_fixed_union(sol, s, c, j, n - 1);
        let u = peer_fixed_union(s, c, j, n - 1);
        let pm = peer_mask(s, c, j, n - 1);
        lemma_cell_owner_bounds(c, j);
        let g = cell_owner(c, j);
        lemma_group_member_bounds(g, n - 1);
        let p = group_member(g, n - 1);
        if popcount9(pm) <= 1 {
            if p == c {
                assert(pm == 0);
            } else {
                assert(pm == s[p]);
                lemma_popcount_zero(s[p]);
                if s[p] != 0 {
                    lemma_solved_all_single(sol);
                    lemma_submask_singles(sol[p], s[p]);
                    lemma_cell_in_own_group(c, j);
                    let kc = choose|k: int|
                        0 <= k < 9 && #[trigger] group_member(cell_owner(c, j), k) == c;
                    lemma_sol_peers_differ(sol, g, kc, n - 1);
                }
            }
            assert(sol[c] & pm == 0) by {
                if p == c {
                    lemma_or_zero(sol[c]);
                } else if s[p] == 0 {
                    lemma_or_zero(sol[c]);
                }
            };
            assert(sol[c] & (u | pm) == 0) by {
                let a = sol[c];
                assert(((a & u) == 0 && (a & pm) == 0) ==> ((a & (u | pm)) == 0)) by (bit_vector);
            };
        }
    }
}

/// The whole filter sum of a cell never contains its solution digit.
proof fn lemma_sol_avoids_filter_sum(sol: Seq<u32>, s: Seq<u32>, c: int)
    requires
        is_solution(sol, s),
        board_ok(s),
        0 <= c < 81,
    ensures
        sol[c] & filter_sum(s, c) == 0,
{
    lemma_sol_avoids_fixed_union(sol, s, c, 0, 9);
    lemma_sol_avoids_fixed_union(sol, s, c, 1, 9);
    lemma_sol_avoids_fixed_union(sol, s, c, 2, 9);
    let u0 = peer_fixed_union(s, c, 0, 9);
    let u1 = peer_fixed_union(s, c, 1, 9);
    let u2 = peer_fixed_union(s, c, 2, 9);
    let a = sol[c];
    assert(filter_sum_groups(s, c, 0) == 0u32);
    assert(filter_sum_groups(s, c, 1) == 0u32 | u0);
    assert(filter_sum_groups(s, c, 2) == (0u32 | u0) | u1);
    assert(filter_sum(s, c) == ((0u32 | u0) | u1) | u2);
    assert((a & u0 == 0 && a & u1 == 0 && a & u2 == 0) ==> a & (((0u32 | u0) | u1) | u2) == 0)
        by (bit_vector);
}

/// Every peer's candidates lie inside the peer union of its group scan.
proof fn lemma_peer_in_all_union(s: Seq<u32>, c: int, j: int, n: int, k: int)
    requires
        0 <= c < 81,
        0 <= j < 3,
        0 <= k < n <= 9,
        group_member(cell_owner(c, j), k) != c,
    ensures
        submask(s[group_member(cell_owner(c, j), k)], peer_all_union(s, c, j, n)),
    decreases n,
{
    let u = peer_all_union(s, c, j, n - 1);
    let pm = peer_mask(s, c, j, n - 1);
    let x = s[group_member(cell_owner(c, j), k)];
    if k == n - 1 {
        assert(pm == x);
        assert((x & !(u | x)) == 0) by (bit_vector);
    } else {
        lemma_peer_in_all_union(s, c, j, n - 1, k);
        assert(((x & !u) == 0) ==> ((x & !(u | pm)) == 0)) by (bit_vector);
    }
}

/// The hidden-single deduction assigns exactly the solution's digit.
proof fn lemma_sol_fill_group(sol: Seq<u32>, s: Seq<u32>, c: int, j: int)
    requires
        is_solution(sol, s),
        board_ok(s),
        0 <= c < 81,
        0 <= j < 3,
    ensures
        submask(sol[c], fill_mask(s[c], peer_all_union(s, c, j, 9))),
{
    let union = peer_all_union(s, c, j, 9);
    let v = fill_mask(s[c], union);
    if v == s[c] {
    } else {
        let comp = crate::SUDOKU_ALL_CANDIDATES & !union;
        assert(v == comp && popcount9(comp) == 1 && popcount9(s[c]) > 1);
        assert(comp & union == 0 && comp <= 0x1ffu32) by {
            let un = union;
            assert(((0x1ffu32 & !un) & un) == 0 && (0x1ffu32 & !un) <= 0x1ffu32) by (bit_vector);
        };
        lemma_single_is_digit(comp);
        let d = choose|d: int| 0 <= d < 9 && comp == digit_mask(d);
        lemma_cell_owner_bounds(c, j);
        let g = cell_owner(c, j);
        lemma_solved_group_digits(sol, g);
        assert(digit_mask(d) == digit_mask(d));
        let kstar = choose|k: int|
            0 <= k < 9 && #[trigger] sol[group_member(g, k)] == digit_mask(d);
        lemma_group_member_bounds(g, kstar);
        let p = group_member(g, kstar);
        if p == c {
            assert(sol[c] == comp);
            assert((comp & !comp) == 0) by (bit_vector);
        } else {
            lemma_peer_in_all_union(s, c, j, 9, kstar);
            let a = sol[p];
            let b = s[p];
            let un = union;
            assert(((a & !b) == 0 && (b & !un) == 0 && (a & un) == 0) ==> a == 0)
                by (bit_vector);
            lemma_solved_all_single(sol);
            lemma_popcount_zero(sol[p]);
            assert(false);
        }
    }
}

/// The naked-single pass never discards a solution.
proof fn lemma_sol_filter_pass(sol: Seq<u32>, s: Seq<u32>, n: int)
    requires
        is_solution(sol, s),
        board_ok(s),
        0 <= n <= 81,
    ensures
        is_solution(sol, filter_pass_upto(s, n)),
    decreases n,
{
    if n > 0 {
        lemma_sol_filter_pass(sol, s, n - 1);
        let t = filter_pass_upto(s, n - 1);
        lemma_filter_upto_frame(s, n - 1);
        let c = n - 1;
        if popcount9(t[c]) <= 1 {
        } else {
            lemma_sol_avoids_filter_sum(sol, t, c);
            let newv = filter_mask(t[c], filter_sum(t, c));
            assert(submask(sol[c], newv)) by {
                let a = sol[c];
                let b = t[c];
                let f = filter_sum(t, c);
                assert(((a & !b) == 0 && (a & f) == 0) ==> ((a & !(b & !f)) == 0))
                    by (bit_vector);
            };
            assert forall|i: int| 0 <= i < 81 implies submask(
                #[trigger] sol[i],
                filter_pass_upto(s, n)[i],
            ) by {
                if i != c {
                    assert(filter_pass_upto(s, n)[i] == t[i]);
                }
            }
        }
    }
}

/// The hidden-single pass never discards a solution.
proof fn lemma_sol_fill_pass(sol: Seq<u32>, s: Seq<u32>, n: int)
    requires
        is_solution(sol, s),
        board_ok(s),
        0 <= n <= 81,
    ensures
        is_solution(sol, fill_pass_upto(s, n)),
    decreases n,
{
    if n > 0 {
        lemma_sol_fill_pass(sol, s, n - 1);
        let t = fill_pass_upto(s, n - 1);
        lemma_fill_upto_frame(s, n - 1);
        let c = n - 1;
        if popcount9(t[c]) <= 1 {
        } else {
            let t1 = fill_group_step(t, c, 0);
            let t2 = fill_group_step(t1, c, 1);
            let t3 = fill_group_step(t2, c, 2);
            lemma_sol_one_group_step(sol, t, c, 0);
            lemma_sol_one_group_step(sol, t1, c, 1);
            lemma_sol_one_group_step(sol, t2, c, 2);
            assert(fill_cell_groups(t, c, 0) == t);
            assert(fill_cell_groups(t, c, 1) == t1);
            assert(fill_cell_groups(t, c, 2) == t2);
            assert(fill_cell_step(t, c) == t3);
            assert(fill_pass_upto(s, n) == t3);
        }
    }
}

/// One group scan of the hidden-single pass keeps the solution and the
/// board well-formed.
proof fn lemma_sol_one_group_step(sol: Seq<u32>, t: Seq<u32>, c: int, j: int)
    requires
        is_solution(sol, t),
        board_ok(t),
        0 <= c < 81,
        0 <= j < 3,
    ensures
        is_solution(sol, fill_group_step(t, c, j)),
        board_ok(fill_group_step(t, c, j)),
{
    let t1 = fill_group_step(t, c, j);
    lemma_sol_fill_group(sol, t, c, j);
    lemma_fill_mask_props(t[c], peer_all_union(t, c, j, 9));
    assert forall|i: int| 0 <= i < 81 implies submask(#[trigger] sol[i], t1[i]) && mask_ok(
        t1[i],
    ) by {
        if i != c {
            assert(t1[i] == t[i]);
        }
    }
}

/// A board that admits a solution is consistent.
proof fn lemma_sol_consistent(sol: Seq<u32>, s: Seq<u32>)
    requires
        is_solution(sol, s),
        board_ok(s),
    ensures
        board_consistent(s),
{
    assert forall|g: int| 0 <= g < 27 implies #[trigger] group_consistent(s, g) by {
        lemma_solved_group_digits(sol, g);
        lemma_solved_all_single(sol);
        assert forall|d: int| 0 <= d < 9 implies #[trigger] digit_covered(s, g, d) by {
            assert(digit_mask(d) == digit_mask(d));
            let kstar = choose|k: int|
                0 <= k < 9 && #[trigger] sol[group_member(g, k)] == digit_mask(d);
            lemma_group_member_bounds(g, kstar);
            let b = s[group_member(g, kstar)];
            let du = d as u32;
            assert((((1u32 << du) & !b) == 0 && du < 9) ==> ((b >> du) & 1 == 1))
                by (bit_vector);
            assert(has_digit(s[group_member(g, kstar)], d));
        }
        if dup_fixed(s, g) {
            let (k1, k2) = choose|k1: int, k2: int|
                0 <= k1 < 9 && 0 <= k2 < 9 && k1 != k2 && single_mask(
                    #[trigger] s[group_member(g, k1)],
                ) && s[group_member(g, k1)] == #[trigger] s[group_member(g, k2)];
            lemma_group_member_bounds(g, k1);
            lemma_group_member_bounds(g, k2);
            lemma_submask_singles(sol[group_member(g, k1)], s[group_member(g, k1)]);
            lemma_submask_singles(sol[group_member(g, k2)], s[group_member(g, k2)]);
            assert(dup_fixed(sol, g));
            assert(group_solved(sol, g));
            assert(false);
        }
        assert forall|k: int| 0 <= k < 9 implies #[trigger] s[group_member(g, k)] != 0 by {
            lemma_group_member_bounds(g, k);
            if s[group_member(g, k)] == 0 {
                // the solution digit of that cell would have nowhere to live
                lemma_popcount_zero(0u32);
                lemma_submask_singles(sol[group_member(g, k)], s[group_member(g, k)]);
            }
        }
    }
}

/// On a fully fixed board that admits a solution, the board is that
/// solution.
proof fn lemma_sol_all_fixed(sol: Seq<u32>, s: Seq<u32>)
    requires
        is_solution(sol, s),
        board_ok(s),
        forall|i: int| 0 <= i < 81 ==> popcount9(#[trigger] s[i]) <= 1,
    ensures
        s == sol,
        board_solved(s),
{
    lemma_solved_all_single(sol);
    assert forall|i: int| 0 <= i < 81 implies sol[i] == #[trigger] s[i] by {
        lemma_submask_singles(sol[i], s[i]);
    }
    assert(s =~= sol);
}

/// The branch scan returns success no later than the solution's digit.
proof fn lemma_branch_finds(s: Seq<u32>, t: int, d: int, dstar: int)
    requires
        board_ok(s),
        0 <= t < 81,
        popcount9(s[t]) >= 2,
        0 <= d <= dstar < 9,
        has_digit(s[t], dstar),
        solve_from(s.update(t, digit_mask(dstar)), 729).0,
    ensures
        branch_try(s, t, d).0,
    decreases dstar - d,
{
    if has_digit(s[t], d) {
        lemma_branch_board(s, t, d);
        lemma_total_bound(s.update(t, digit_mask(d)), 81);
        let res = solve_from(s.update(t, digit_mask(d)), 729);
        if res.0 {
            assert(branch_try(s, t, d) == res);
        } else {
            assert(d != dstar);
            lemma_branch_finds(s, t, d + 1, dstar);
            assert(branch_try(s, t, d) == branch_try(s, t, d + 1));
        }
    } else {
        assert(d != dstar);
        lemma_branch_finds(s, t, d + 1, dstar);
        assert(branch_try(s, t, d) == branch_try(s, t, d + 1));
    }
}

/// Completeness of the whole procedure: starting from any well-formed
/// board that still admits a solution, the solver reports success.
pub proof fn lemma_solution_found(s: Seq<u32>, sol: Seq<u32>, prev: int)
    requires
        board_ok(s),
        total_count(s) <= prev,
        is_solution(sol, s),
    ensures
        solve_from(s, prev).0,
    decreases 2 * total_count(s) + (if prev == total_count(s) {
        0int
    } else {
        1int
    }),
{
    lemma_round_frame(s);
    let s1 = fill_pass(filter_pass(s));
    lemma_sol_filter_pass(sol, s, 81);
    lemma_filter_upto_frame(s, 81);
    lemma_sol_fill_pass(sol, filter_pass(s), 81);
    lemma_total_le(s, s1, 81);
    lemma_total_bound(s, 81);
    if board_solved(s1) {
    } else {
        lemma_sol_consistent(sol, s1);
        lemma_total_bound(s1, 81);
        if total_count(s1) == prev {
            let tgt = backtrack_target(s1);
            if min_adjusted_upto(s1, 81) >= 81 {
                lemma_min_sentinel_all_fixed(s1);
                lemma_sol_all_fixed(sol, s1);
                assert(false);
            }
            lemma_target_hits_min(s1);
            assert(popcount9(s1[tgt]) >= 2);
            lemma_solved_all_single(sol);
            lemma_single_is_digit(sol[tgt]);
            let dstar = choose|d: int| 0 <= d < 9 && sol[tgt] == digit_mask(d);
            assert(has_digit(s1[tgt], dstar)) by {
                let a = sol[tgt];
                let b = s1[tgt];
                let du = dstar as u32;
                assert(((a & !b) == 0 && a == (1u32 << du) && du < 9) ==> ((b >> du) & 1 == 1))
                    by (bit_vector);
            };
            let sb = s1.update(tgt, digit_mask(dstar));
            lemma_branch_board(s1, tgt, dstar);
            lemma_total_bound(sb, 81);
            assert(is_solution(sol, sb)) by {
                assert forall|i: int| 0 <= i < 81 implies submask(#[trigger] sol[i], sb[i]) by {
                    if i == tgt {
                        let a = sol[tgt];
                        assert((a & !a) == 0) by (bit_vector);
                    } else {
                        assert(sb[i] == s1[i]);
                    }
                }
            };
            lemma_solution_found(sb, sol, 729);
            lemma_branch_finds(s1, tgt, 0, dstar);
            assert(stalled_result(s1).0);
        } else {
            lemma_solution_found(s1, sol, total_count(s1));
        }
    }
}

/// Any puzzle line that admits a solution is reported solved, with every
/// cell of the final board fixed to one digit.
pub proof fn lemma_solvable_line_succeeds(cs: Seq<char>, sol: Seq<u32>)
    requires
        is_solution(sol, line_masks(cs)),
    ensures
        crate::batch::line_solved(cs),
        board_solved(crate::batch::line_final_board(cs)),
{
    let s0 = line_masks(cs);
    assert forall|i: int| 0 <= i < 81 implies mask_ok(#[trigger] s0[i]) by {
        lemma_preset_mask_ok(crate::SUDOKU_ALL_CANDIDATES, if i < cs.len() {
            cs[i]
        } else {
            ' '
        });
    }
    lemma_total_bound(s0, 81);
    lemma_solution_found(s0, sol, 729);
    lemma_solve_from_sound(s0, 729);
}

/// A run of the solver never alters a fixed or empty cell, and always
/// leaves a well-formed board.
pub proof fn lemma_solve_from_frame(s: Seq<u32>, prev: int)
    requires
        board_ok(s),
        total_count(s) <= prev,
    ensures
        board_ok(solve_from(s, prev).1),
        forall|i: int|
            0 <= i < 81 && popcount9(#[trigger] s[i]) <= 1 ==> solve_from(s, prev).1[i] == s[i],
    decreases 2 * total_count(s) + (if prev == total_count(s) {
        0int
    } else {
        1int
    }), 1int, 0int,
{
    lemma_round_frame(s);
    let s1 = fill_pass(filter_pass(s));
    lemma_total_le(s, s1, 81);
    lemma_total_bound(s, 81);
    lemma_total_bound(s1, 81);
    let r = solve_from(s, prev);
    if board_solved(s1) {
        assert(r == (true, s1));
    } else if !board_consistent(s1) {
        assert(r == (false, s1));
    } else if total_count(s1) == prev {
        assert(r == stalled_result(s1));
        let tgt = backtrack_target(s1);
        crate::board::lemma_target_bounds(s1);
        if popcount9(s1[tgt]) <= 1 {
            assert(r == (false, s1));
        } else {
            lemma_branch_frame(s1, tgt, 0);
            assert(r == branch_try(s1, tgt, 0));
            assert forall|i: int| 0 <= i < 81 && popcount9(#[trigger] s[i]) <= 1 implies r.1[i]
                == s[i] by {
                assert(s1[i] == s[i]);
            }
        }
    } else {
        assert(r == solve_from(s1, total_count(s1)));
        lemma_solve_from_frame(s1, total_count(s1));
        assert forall|i: int| 0 <= i < 81 && popcount9(#[trigger] s[i]) <= 1 implies r.1[i]
            == s[i] by {
            assert(s1[i] == s[i]);
        }
    }
}

/// The branch scan also never alters a fixed or empty cell.
proof fn lemma_branch_frame(s: Seq<u32>, t: int, d: int)
    requires
        board_ok(s),
        0 <= t < 81,
        popcount9(s[t]) >= 2,
        0 <= d,
    ensures
        board_ok(branch_try(s, t, d).1),
        forall|i: int|
            0 <= i < 81 && popcount9(#[trigger] s[i]) <= 1 ==> branch_try(s, t, d).1[i] == s[i],
    decreases 2 * total_count(s), 0int, 9 - d,
{
    if d >= 9 {
    } else if has_digit(s[t], d) {
        lemma_branch_board(s, t, d);
        let sb = s.update(t, digit_mask(d));
        lemma_total_bound(sb, 81);
        lemma_solve_from_frame(sb, 729);
        let res = solve_from(sb, 729);
        if res.0 {
            assert(branch_try(s, t, d) == res);
            assert forall|i: int| 0 <= i < 81 && popcount9(#[trigger] s[i]) <= 1 implies res.1[i]
                == s[i] by {
                assert(i != t);
                assert(sb[i] == s[i]);
            }
        } else {
            lemma_branch_frame(s, t, d + 1);
            assert(branch_try(s, t, d) == branch_try(s, t, d + 1));
        }
    } else {
        lemma_branch_frame(s, t, d + 1);
        assert(branch_try(s, t, d) == branch_try(s, t, d + 1));
    }
}

/// Verification of a correct answer never raises: the board a successful
/// run leaves behind always passes the clue check of its own line, because
/// the solver never alters a preset cell and success means solved.
pub proof fn lemma_solved_line_checks_ok(cs: Seq<char>)
    requires
        crate::batch::line_solved(cs),
    ensures
        crate::batch::line_check_ok(cs),
{
    let s0 = line_masks(cs);
    assert forall|i: int| 0 <= i < 81 implies mask_ok(#[trigger] s0[i]) by {
        lemma_preset_mask_ok(crate::SUDOKU_ALL_CANDIDATES, if i < cs.len() {
            cs[i]
        } else {
            ' '
        });
    }
    lemma_total_bound(s0, 81);
    lemma_solve_from_sound(s0, 729);
    lemma_solve_from_frame(s0, 729);
    let fin = solve_from(s0, 729).1;
    assert(board_solved(fin));
    lemma_solved_all_single(fin);
    assert forall|i: int| 0 <= i < 81 && i < cs.len() implies kept_mask(
        #[trigger] fin[i],
        preset_mask(0u32, cs[i]),
    ) by {
        let ch = cs[i];
        lemma_preset_mask_ok(0u32, ch);
        if 0x31 <= (ch as u32) && (ch as u32) <= 0x39 {
            // a preset clue: the line fixed this cell and the solver kept it
            assert(s0[i] == preset_mask(0u32, ch));
            assert(fin[i] == s0[i]);
        } else {
            // no clue here: the answer cell is fixed, which is all that is asked
            lemma_popcount_zero(0u32);
            assert(preset_mask(0u32, ch) == 0u32);
        }
    }
    assert(clue_kept(fin, cs));
}

/// Soundness restated at the spec level: a successful run leaves a solved
/// board.
pub proof fn lemma_solve_from_sound(s: Seq<u32>, prev: int)
    requires
        board_ok(s),
        total_count(s) <= prev,
    ensures
        solve_from(s, prev).0 ==> board_solved(solve_from(s, prev).1),
    decreases 2 * total_count(s) + (if prev == total_count(s) {
        0int
    } else {
        1int
    }), 1int, 0int,
{
    lemma_round_frame(s);
    let s1 = fill_pass(filter_pass(s));
    lemma_total_le(s, s1, 81);
    lemma_total_bound(s, 81);
    lemma_total_bound(s1, 81);
    let r = solve_from(s, prev);
    if board_solved(s1) {
        assert(r == (true, s1));
    } else if !board_consistent(s1) {
        assert(r == (false, s1));
    } else if total_count(s1) == prev {
        assert(r == stalled_result(s1));
        let tgt = backtrack_target(s1);
        crate::board::lemma_target_bounds(s1);
        if popcount9(s1[tgt]) <= 1 {
            assert(r == (false, s1));
        } else {
            lemma_branch_sound(s1, tgt, 0);
            assert(r == branch_try(s1, tgt, 0));
        }
    } else {
        assert(r == solve_from(s1, total_count(s1)));
        lemma_solve_from_sound(s1, total_count(s1));
    }
}

/// Soundness of the branch scan: a successful branch hands back a solved
/// board.
proof fn lemma_branch_sound(s: Seq<u32>, t: int, d: int)
    requires
        board_ok(s),
        0 <= t < 81,
        popcount9(s[t]) >= 2,
        0 <= d,
    ensures
        branch_try(s, t, d).0 ==> board_solved(branch_try(s, t, d).1),
    decreases 2 * total_count(s), 0int, 9 - d,
{
    if d >= 9 {
    } else {
        if has_digit(s[t], d) {
            lemma_branch_board(s, t, d);
            lemma_total_bound(s.update(t, digit_mask(d)), 81);
            lemma_solve_from_sound(s.update(t, digit_mask(d)), 729);
        }
        lemma_branch_sound(s, t, d + 1);
    }
}

} // verus!
