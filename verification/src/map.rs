//! The board itself: 81 cells, construction from a puzzle line, the
//! deduction passes, the solver, and the answer checks.
use vstd::prelude::*;

verus! {

use crate::SUDOKU_ALL_CANDIDATES;
use crate::SUDOKU_CELL_SIZE;
use crate::SUDOKU_GROUP_SIZE;
use crate::board::board_consistent;
use crate::board::fill_cell_groups;
use crate::board::fill_cell_step;
use crate::board::fill_group_step;
use crate::board::fill_pass;
use crate::board::fill_pass_upto;
use crate::board::filter_cell_step;
use crate::board::filter_pass;
use crate::board::filter_pass_upto;
use crate::board::filter_sum;
use crate::board::filter_sum_groups;
use crate::board::lemma_fill_upto_frame;
use crate::board::lemma_filter_upto_frame;
use crate::board::lemma_or_assoc;
use crate::board::peer_all_union;
use crate::board::peer_fixed_union;
use crate::board::peer_mask;
use crate::board::board_ok;
use crate::board::board_solved;
use crate::board::group_consistent;
use crate::board::group_solved;
use crate::board::lemma_conflict_iff_dup;
use crate::board::lemma_covers_iff;
use crate::board::lemma_group_solved_iff;
use crate::board::lemma_list_conflict_mono;
use crate::board::lemma_list_empty_iff_group;
use crate::board::lemma_list_empty_mono;
use crate::board::list_has_empty;
use crate::board::lemma_list_matches_group;
use crate::board::board_conflict;
use crate::board::lemma_conflict_preserved;
use crate::board::solve_from;
use crate::board::stalled_result;
use crate::board::branch_try;
use crate::board::lemma_popcount_zero;
use crate::board::lemma_round_frame;
use crate::board::lemma_solved_fixpoint;
use crate::board::lemma_total_bound;
use crate::board::lemma_total_le;
use crate::board::lemma_total_update;
use crate::board::total_count;
use crate::board::total_count_upto;
use crate::cell::digit_mask;
use crate::SUDOKU_CANDIDATE_SIZE;
use crate::board::adjusted_count;
use crate::board::backtrack_target;
use crate::board::min_adjusted_upto;
use crate::board::row_match_count;
use crate::board::max_row_match_upto;
use crate::board::lemma_min_achieved;
use crate::board::lemma_min_le_cell;
use crate::board::lemma_row_match_bounds;
use crate::board::lemma_max_ge;
use crate::board::lemma_max_achieved;
use crate::board::lemma_first_row_from;
use crate::board::lemma_first_col_from;
use crate::board::list_all_union;
use crate::board::list_conflict_upto;
use crate::board::list_fixed_union;
use crate::cell::SudokuCell;
use crate::cell::fill_mask;
use crate::cell::filter_mask;
use crate::cell::kept_mask;
use crate::cell::lemma_preset_mask_ok;
use crate::cell::mask_ok;
use crate::cell::popcount9;
use crate::cell::preset_mask;
use crate::cell::cell_string;
use crate::cell::single_mask;
use vstd::string::StringExecFns;
use crate::groups::SudokuCellGroups;
use crate::groups::SudokuGroupGenBuilder;
use crate::groups::cell_groups_ok;
use crate::groups::cell_owner;
use crate::groups::lemma_cell_owner_bounds;
use crate::groups::group_member;
use crate::groups::lemma_div9;
use crate::groups::lemma_group_member_bounds;
use vstd::std_specs::iter::IteratorSpec;

/// Collects the characters of a line, in order.
fn line_chars(s: &str) -> (r: Vec<char>)
    ensures
        r@ == s@,
{
    let mut it = s.chars();
    let mut r: Vec<char> = Vec::new();
    proof {
        assert(r@ + it.remaining() =~= s@);
    }
    loop
        invariant
            it.obeys_prophetic_iter_laws(),
            it.decrease() is Some,
            r@ + it.remaining() =~= s@,
        ensures
            r@ == s@,
        decreases it.decrease()->0,
    {
        match it.next() {
            Some(c) => {
                r.push(c);
                proof {
                    assert(r@ + it.remaining() =~= s@);
                }
            },
            None => {
                proof {
                    assert(r@ =~= s@);
                }
                break ;
            },
        }
    }
    r
}

/// The starting masks of a puzzle line: each of the 81 cells begins with
/// every digit possible; a digit character among the first 81 narrows its
/// cell to that digit; other characters, and a short line, leave cells full.
pub open spec fn line_masks(cs: Seq<char>) -> Seq<u32> {
    Seq::new(
        81,
        |i: int|
            if i < cs.len() {
                preset_mask(SUDOKU_ALL_CANDIDATES, cs[i])
            } else {
                SUDOKU_ALL_CANDIDATES
            },
    )
}

/// The text of one row: the digits of its nine cells in order, each cell
/// followed by a colon unless the compact form was asked for.
pub open spec fn row_chars(s: Seq<u32>, r: int, one_line: bool, n: int) -> Seq<char>
    decreases n,
{
    if n <= 0 {
        Seq::empty()
    } else {
        let base = row_chars(s, r, one_line, n - 1) + cell_string(s[r * 9 + (n - 1)]);
        if one_line {
            base
        } else {
            base + seq![':']
        }
    }
}

/// The text of the first `n` rows, each row newline-terminated unless the
/// compact form was asked for.
pub open spec fn board_chars_upto(s: Seq<u32>, one_line: bool, n: int) -> Seq<char>
    decreases n,
{
    if n <= 0 {
        Seq::empty()
    } else {
        let base = board_chars_upto(s, one_line, n - 1) + row_chars(s, n - 1, one_line, 9);
        if one_line {
            base
        } else {
            base + seq!['\n']
        }
    }
}

/// The text of a board: compact (81 digits of a solved board, nothing
/// else) or diagnostic (nine colon-separated rows).
pub open spec fn board_chars(s: Seq<u32>, one_line: bool) -> Seq<char> {
    board_chars_upto(s, one_line, 9)
}

/// Every preset clue of the line survives in the answer: a clue cell keeps
/// exactly its digit, every other covered cell is fixed.
pub open spec fn clue_kept(s: Seq<u32>, cs: Seq<char>) -> bool {
    forall|i: int| 0 <= i < 81 && i < cs.len() ==> kept_mask(#[trigger] s[i], preset_mask(0u32, cs[i]))
}

/// Sudoku cell map: the 81 cells of one puzzle, plus the shared group
/// tables.
pub struct SudokuMap<'a> {
    pub cells: Vec<SudokuCell>,
    pub cell_groups: &'a SudokuCellGroups,
    pub group_builder: &'a SudokuGroupGenBuilder,
}

impl<'a> SudokuMap<'a> {
    /// The candidate masks of the 81 cells, in row-major order.
    pub open spec fn masks(&self) -> Seq<u32> {
        self.cells@.map_values(|cl: SudokuCell| cl.candidates)
    }

    /// A map is well-formed when its board is, and its group tables are the
    /// precomputed ones.
    pub open spec fn wf(&self) -> bool {
        &&& self.cells@.len() == 81
        &&& board_ok(self.masks())
        &&& cell_groups_ok(*self.cell_groups)
        &&& self.group_builder.wf()
    }

    /// Builds the board of a puzzle line: full cells, then one preset per
    /// character, characters beyond the 81st ignored.
    pub fn new(
        line: &str,
        cell_groups: &'a SudokuCellGroups,
        group_builder: &'a SudokuGroupGenBuilder,
    ) -> (r: SudokuMap<'a>)
        requires
            cell_groups_ok(*cell_groups),
            group_builder.wf(),
        ensures
            r.wf(),
            r.masks() == line_masks(line@),
            r.cell_groups == cell_groups,
            r.group_builder == group_builder,
    {
        let mut cells: Vec<SudokuCell> = Vec::new();
        let mut i: usize = 0;
        while i < SUDOKU_CELL_SIZE
            invariant
                i <= 81,
                cells@.len() == i,
                forall|j: int| 0 <= j < i ==> (#[trigger] cells@[j]).candidates == SUDOKU_ALL_CANDIDATES,
            decreases 81 - i,
        {
            let mut cl = SudokuCell::new();
            cl.preset_full_candidate();
            cells.push(cl);
            i = i + 1;
        }

        // Leave tail cells alone if the line is shorter than the board.
        let chars = line_chars(line);
        let mut index: usize = 0;
        while index < SUDOKU_CELL_SIZE && index < chars.len()
            invariant
                index <= 81,
                index as int <= line@.len(),
                cells@.len() == 81,
                chars@ == line@,
                forall|j: int|
                    0 <= j < index ==> (#[trigger] cells@[j]).candidates == preset_mask(
                        SUDOKU_ALL_CANDIDATES,
                        line@[j],
                    ),
                forall|j: int|
                    index <= j < 81 ==> (#[trigger] cells@[j]).candidates
                        == SUDOKU_ALL_CANDIDATES,
            decreases 81 - index,
        {
            let ch = chars[index];
            let mut cl = cells[index];
            cl.preset_candidate(ch);
            cells.set(index, cl);
            index = index + 1;
        }

        let r = SudokuMap { cells, cell_groups, group_builder };
        proof {
            assert forall|j: int| 0 <= j < 81 implies mask_ok(#[trigger] r.masks()[j]) by {
                lemma_preset_mask_ok(SUDOKU_ALL_CANDIDATES, if j < line@.len() {
                    line@[j]
                } else {
                    ' '
                });
            }
            assert forall|j: int| 0 <= j < 81 implies r.masks()[j] == line_masks(line@)[j] by {
                assert(r.masks()[j] == r.cells@[j].candidates);
            }
            assert(r.masks() =~= line_masks(line@));
        }
        r
    }

    /// Prints the board: one row per line with colon-separated cells, or
    /// the compact single-line form.
    pub fn to_string(&self, one_line: bool) -> (r: String)
        requires
            self.wf(),
        ensures
            r@ == board_chars(self.masks(), one_line),
    {
        let mut full_text = String::new();
        let mut row: usize = 0;
        while row < SUDOKU_GROUP_SIZE
            invariant
                self.wf(),
                row <= 9,
                full_text@ == board_chars_upto(self.masks(), one_line, row as int),
            decreases 9 - row,
        {
            let mut line = String::new();
            let mut column: usize = 0;
            while column < SUDOKU_GROUP_SIZE
                invariant
                    self.wf(),
                    row < 9,
                    column <= 9,
                    line@ == row_chars(self.masks(), row as int, one_line, column as int),
                decreases 9 - column,
            {
                let index = row * SUDOKU_GROUP_SIZE + column;
                proof {
                    assert(self.cells@[index as int].candidates == self.masks()[index as int]);
                }
                let cell_str = self.cells[index].to_string();
                line.append(cell_str.as_str());
                if !one_line {
                    proof {
                        reveal_strlit(":");
                    }
                    line.append(":");
                    proof {
                        assert(":"@ =~= seq![':']);
                    }
                }
                proof {
                    assert(line@ =~= row_chars(
                        self.masks(),
                        row as int,
                        one_line,
                        column as int + 1,
                    ));
                }
                column = column + 1;
            }
            if !one_line {
                proof {
                    reveal_strlit("\n");
                }
                line.append("\n");
                proof {
                    assert("\n"@ =~= seq!['\n']);
                }
            }
            full_text.append(line.as_str());
            proof {
                assert(full_text@ =~= board_chars_upto(self.masks(), one_line, row as int + 1));
            }
            row = row + 1;
        }
        full_text
    }

    /// Solved correctly: the board is solved and every clue of the line is
    /// kept.
    pub fn check(&self, line: &str) -> (r: bool)
        requires
            self.wf(),
        ensures
            r == (board_solved(self.masks()) && clue_kept(self.masks(), line@)),
    {
        let solved = self.is_solved();
        let chars = line_chars(line);
        let mut result = solved;
        let mut index: usize = 0;
        while index < SUDOKU_CELL_SIZE && index < chars.len()
            invariant
                self.wf(),
                index <= 81,
                index as int <= line@.len(),
                chars@ == line@,
                result == (solved && (forall|j: int|
                    0 <= j < index ==> kept_mask(
                        #[trigger] self.masks()[j],
                        preset_mask(0u32, line@[j]),
                    ))),
            decreases 81 - index,
        {
            let answer = self.cells[index];
            let mut original = SudokuCell::new();
            original.preset_candidate(chars[index]);
            proof {
                lemma_preset_mask_ok(0u32, line@[index as int]);
                assert(answer.candidates == self.masks()[index as int]);
                assert(mask_ok(self.masks()[index as int]));
            }
            result = result && answer.check_candidate_kept(&original);
            index = index + 1;
        }
        result
    }

    /// The fold over one member list, as the solved check runs it: the
    /// union of the fixed cells must cover every digit without a repeat.
    pub fn is_group_solved(&self, cell_indexes: &Vec<usize>) -> (r: bool)
        requires
            self.wf(),
            cell_indexes@.len() == 9,
            forall|k: int| 0 <= k < 9 ==> (#[trigger] cell_indexes@[k]) < 81,
        ensures
            r == (list_fixed_union(self.masks(), cell_indexes@, 9) == SUDOKU_ALL_CANDIDATES
                && !list_conflict_upto(self.masks(), cell_indexes@, 9)),
    {
        let mut sum = SudokuCell::new();
        let mut conflict = false;
        let mut k: usize = 0;
        while k < cell_indexes.len()
            invariant
                self.wf(),
                cell_indexes@.len() == 9,
                forall|k2: int| 0 <= k2 < 9 ==> (#[trigger] cell_indexes@[k2]) < 81,
                k <= 9,
                sum.candidates == list_fixed_union(self.masks(), cell_indexes@, k as int),
                conflict == list_conflict_upto(self.masks(), cell_indexes@, k as int),
            decreases 9 - k,
        {
            let cell = self.cells[cell_indexes[k]];
            proof {
                let ci = cell_indexes@[k as int] as int;
                assert(cell.candidates == self.masks()[ci]);
                assert(mask_ok(self.masks()[ci]));
            }
            let c = sum.merge_unique_candidate(&cell);
            conflict = conflict || c;
            k = k + 1;
        }
        sum.has_all_candidates() && !conflict
    }

    /// The board is solved: every cell fixed and every group exactly the
    /// nine digits.
    pub fn is_solved(&self) -> (r: bool)
        requires
            self.wf(),
        ensures
            r == board_solved(self.masks()),
    {
        let mut cell_index: usize = 0;
        while cell_index < SUDOKU_CELL_SIZE
            invariant
                self.wf(),
                cell_index <= 81,
                forall|i: int| 0 <= i < cell_index ==> single_mask(#[trigger] self.masks()[i]),
            decreases 81 - cell_index,
        {
            if !self.cells[cell_index].has_unique_candidate() {
                proof {
                    let c = cell_index as int;
                    if board_solved(self.masks()) {
                        lemma_div9(c);
                        assert(group_solved(self.masks(), c / 9));
                        assert(single_mask(self.masks()[group_member(c / 9, c % 9)]));
                    }
                }
                return false;
            }
            cell_index = cell_index + 1;
        }

        let mut group_gen = self.group_builder.create();
        loop
            invariant
                self.wf(),
                group_gen.groups@ == self.group_builder.groups@,
                0 <= group_gen.index <= 27,
                forall|g: int|
                    0 <= g < group_gen.index ==> group_solved(#[trigger] self.masks(), g),
                forall|i: int| 0 <= i < 81 ==> single_mask(#[trigger] self.masks()[i]),
            ensures
                board_solved(self.masks()),
            decreases 27 - group_gen.index,
        {
            let ghost g = group_gen.index as int;
            match group_gen.next() {
                Some(indexes) => {
                    proof {
                        assert forall|k: int| 0 <= k < 9 implies (#[trigger] indexes@[k]) < 81 by {
                            lemma_group_member_bounds(g, k);
                        }
                    }
                    let ok = self.is_group_solved(indexes);
                    proof {
                        lemma_list_matches_group(self.masks(), indexes@, g, 9);
                        lemma_group_solved_iff(self.masks(), g);
                    }
                    if !ok {
                        return false;
                    }
                },
                None => { break ; },
            }
        }
        true
    }

    /// The fold over one member list, as the consistency check runs it:
    /// every digit must keep a home, no cell may have run out of
    /// candidates, and no two fixed cells may share a digit.
    pub fn is_group_consistent(&self, cell_indexes: &Vec<usize>) -> (r: bool)
        requires
            self.wf(),
            cell_indexes@.len() == 9,
            forall|k: int| 0 <= k < 9 ==> (#[trigger] cell_indexes@[k]) < 81,
        ensures
            r == (list_all_union(self.masks(), cell_indexes@, 9) == SUDOKU_ALL_CANDIDATES
                && !list_conflict_upto(self.masks(), cell_indexes@, 9) && !list_has_empty(
                self.masks(),
                cell_indexes@,
                9,
            )),
    {
        let mut all_candidates = SudokuCell::new();
        let mut unique_candidates = SudokuCell::new();
        let mut conflict = false;
        let mut k: usize = 0;
        while k < cell_indexes.len()
            invariant
                self.wf(),
                cell_indexes@.len() == 9,
                forall|k2: int| 0 <= k2 < 9 ==> (#[trigger] cell_indexes@[k2]) < 81,
                k <= 9,
                all_candidates.candidates == list_all_union(self.masks(), cell_indexes@, k as int),
                unique_candidates.candidates == list_fixed_union(
                    self.masks(),
                    cell_indexes@,
                    k as int,
                ),
                !conflict,
                !list_conflict_upto(self.masks(), cell_indexes@, k as int),
                !list_has_empty(self.masks(), cell_indexes@, k as int),
            decreases 9 - k,
        {
            let cell = self.cells[cell_indexes[k]];
            proof {
                let ci = cell_indexes@[k as int] as int;
                assert(cell.candidates == self.masks()[ci]);
                assert(mask_ok(self.masks()[ci]));
                lemma_popcount_zero(self.masks()[ci]);
            }
            if cell.count_candidates() == 0 {
                proof {
                    lemma_list_empty_mono(self.masks(), cell_indexes@, k as int + 1, 9);
                }
                return false;
            }
            all_candidates.merge_candidate(&cell);
            let c = unique_candidates.merge_unique_candidate(&cell);
            conflict = conflict || c;
            if conflict {
                proof {
                    lemma_list_conflict_mono(self.masks(), cell_indexes@, k as int + 1, 9);
                }
                return false;
            }
            k = k + 1;
        }
        all_candidates.has_all_candidates() && !conflict
    }

    /// Runs deduction to a fixed point, then heuristic backtracking: a
    /// `true` answer leaves a solved board; preset cells are never altered,
    /// so a line with two identical clues in one group always fails.
    pub fn solve(&mut self) -> (r: bool)
        requires
            old(self).wf(),
        ensures
            final(self).wf(),
            final(self).cell_groups == old(self).cell_groups,
            final(self).group_builder == old(self).group_builder,
            r == board_solved(final(self).masks()),
            forall|i: int|
                0 <= i < 81 && popcount9(#[trigger] old(self).masks()[i]) <= 1
                    ==> final(self).masks()[i] == old(self).masks()[i],
            forall|i: int|
                0 <= i < 81 ==> popcount9(#[trigger] final(self).masks()[i]) <= popcount9(
                    old(self).masks()[i],
                ),
            board_solved(old(self).masks()) ==> final(self).masks() == old(self).masks(),
            board_conflict(old(self).masks()) ==> !r,
            r == solve_from(old(self).masks(), 729).0,
            final(self).masks() == solve_from(old(self).masks(), 729).1,
        decreases total_count(old(self).masks()),
    {
        let ghost s_entry = old(self).masks();
        let mut prev_count: usize = SUDOKU_CELL_SIZE * SUDOKU_CANDIDATE_SIZE;
        proof {
            lemma_total_bound(s_entry, 81);
        }
        loop
            invariant_except_break
                solve_from(s_entry, 729) == solve_from(self.masks(), prev_count as int),
            invariant
                self.wf(),
                self.cell_groups == old(self).cell_groups,
                self.group_builder == old(self).group_builder,
                s_entry == old(self).masks(),
                board_ok(s_entry),
                forall|i: int|
                    0 <= i < 81 && popcount9(#[trigger] s_entry[i]) <= 1 ==> self.masks()[i]
                        == s_entry[i],
                forall|i: int|
                    0 <= i < 81 ==> popcount9(#[trigger] self.masks()[i]) <= popcount9(s_entry[i]),
                board_solved(s_entry) ==> self.masks() == s_entry,
                total_count(self.masks()) <= prev_count as int,
                prev_count <= 729,
            ensures
                self.wf(),
                self.cell_groups == old(self).cell_groups,
                self.group_builder == old(self).group_builder,
                forall|i: int|
                    0 <= i < 81 && popcount9(#[trigger] s_entry[i]) <= 1 ==> self.masks()[i]
                        == s_entry[i],
                forall|i: int|
                    0 <= i < 81 ==> popcount9(#[trigger] self.masks()[i]) <= popcount9(s_entry[i]),
                !board_solved(self.masks()),
                !board_solved(s_entry),
                total_count(self.masks()) <= total_count(s_entry),
                solve_from(s_entry, 729) == stalled_result(self.masks()),
            decreases prev_count,
        {
            let ghost m1 = self.masks();
            self.filter_unique_candidates();
            self.find_unused_candidates();
            proof {
                lemma_round_frame(m1);
                assert(self.masks() == crate::board::fill_pass(crate::board::filter_pass(m1)));
                lemma_total_le(m1, self.masks(), 81);
            }

            if self.is_solved() {
                proof {
                    if board_solved(s_entry) {
                        lemma_solved_fixpoint(s_entry);
                        assert(self.masks() == s_entry);
                    }
                    if board_conflict(s_entry) {
                        lemma_conflict_preserved(s_entry, self.masks());
                    }
                    assert forall|i: int| 0 <= i < 81 implies popcount9(
                        #[trigger] self.masks()[i],
                    ) <= popcount9(s_entry[i]) by {
                        assert(popcount9(self.masks()[i]) <= popcount9(m1[i]));
                    }
                    crate::board::lemma_solved_all_single(self.masks());
                    lemma_total_le(s_entry, self.masks(), 81);
                    assert(solve_from(m1, prev_count as int) == (true, self.masks()));
                }
                return true;
            }
            if !self.is_consistent() {
                proof {
                    if board_solved(s_entry) {
                        lemma_solved_fixpoint(s_entry);
                        assert(self.masks() == s_entry);
                    }
                    assert(!board_solved(self.masks())) by {
                        if board_solved(self.masks()) {
                            let g = choose|g: int|
                                0 <= g < 27 && !crate::board::group_consistent(self.masks(), g);
                            crate::board::lemma_solved_group_consistent(self.masks(), g);
                        }
                    };
                    lemma_total_le(s_entry, self.masks(), 81);
                    if board_conflict(s_entry) {
                        lemma_conflict_preserved(s_entry, self.masks());
                    }
                    assert(solve_from(m1, prev_count as int) == (false, self.masks()));
                }
                return false;
            }
            proof {
                if board_solved(s_entry) {
                    lemma_solved_fixpoint(s_entry);
                }
            }

            let mut count: usize = 0;
            let mut ci: usize = 0;
            while ci < SUDOKU_CELL_SIZE
                invariant
                    self.wf(),
                    ci <= 81,
                    count <= 9 * ci,
                    count as int == total_count_upto(self.masks(), ci as int),
                decreases 81 - ci,
            {
                proof {
                    assert(self.cells@[ci as int].candidates == self.masks()[ci as int]);
                    lemma_popcount_zero(self.masks()[ci as int]);
                }
                count = count + self.cells[ci].count_candidates();
                ci = ci + 1;
            }
            proof {
                lemma_total_le(s_entry, self.masks(), 81);
                lemma_total_le(m1, self.masks(), 81);
                lemma_total_bound(self.masks(), 81);
            }
            if prev_count == count {
                proof {
                    if board_solved(s_entry) {
                        assert(self.masks() == s_entry);
                        assert(false);
                    }
                    assert(solve_from(m1, prev_count as int) == stalled_result(self.masks()));
                }
                break ;
            }
            proof {
                assert(solve_from(m1, prev_count as int) == solve_from(
                    self.masks(),
                    count as int,
                ));
            }
            prev_count = count;
        }

        let index_min_count = self.find_backtracking_target();
        proof {
            assert(self.cells@[index_min_count as int].candidates
                == self.masks()[index_min_count as int]);
        }
        if self.cells[index_min_count].count_candidates() <= 1 {
            proof {
                if board_conflict(s_entry) {
                    lemma_conflict_preserved(s_entry, self.masks());
                }
                assert(stalled_result(self.masks()) == (false, self.masks()));
            }
            return false;
        }

        let ghost s_stall = self.masks();
        proof {
            assert(stalled_result(s_stall) == branch_try(
                s_stall,
                index_min_count as int,
                0,
            ));
        }
        let mut candidate: u32 = 0;
        while candidate < 9
            invariant
                candidate <= 9,
                self.wf(),
                self.cell_groups == old(self).cell_groups,
                self.group_builder == old(self).group_builder,
                s_entry == old(self).masks(),
                board_ok(s_entry),
                s_stall == self.masks(),
                index_min_count < 81,
                popcount9(s_stall[index_min_count as int]) > 1,
                forall|i: int|
                    0 <= i < 81 && popcount9(#[trigger] s_entry[i]) <= 1 ==> s_stall[i]
                        == s_entry[i],
                forall|i: int|
                    0 <= i < 81 ==> popcount9(#[trigger] s_stall[i]) <= popcount9(s_entry[i]),
                !board_solved(s_stall),
                !board_solved(s_entry),
                total_count(s_stall) <= total_count(s_entry),
                index_min_count as int == backtrack_target(s_stall),
                solve_from(s_entry, 729) == stalled_result(s_stall),
                stalled_result(s_stall) == branch_try(
                    s_stall,
                    index_min_count as int,
                    candidate as int,
                ),
            decreases 9 - candidate,
        {
            let mut probe = self.cells[index_min_count];
            proof {
                assert(probe.candidates == s_stall[index_min_count as int]);
            }
            let can = probe.can_mask(candidate);
            if can {
                let mut new_map = SudokuMap::new("", self.cell_groups, self.group_builder);
                let mut new_cells: Vec<SudokuCell> = Vec::new();
                let mut cc: usize = 0;
                while cc < SUDOKU_CELL_SIZE
                    invariant
                        cc <= 81,
                        new_cells@.len() == cc,
                        self.cells@.len() == 81,
                        forall|i: int| 0 <= i < cc ==> #[trigger] new_cells@[i] == self.cells@[i],
                    decreases 81 - cc,
                {
                    new_cells.push(self.cells[cc]);
                    cc = cc + 1;
                }
                new_map.cells = new_cells;
                proof {
                    assert(new_map.masks() =~= s_stall);
                }
                let mut target_cell = new_map.cells[index_min_count];
                target_cell.overwrite_candidate(candidate);
                new_map.cells.set(index_min_count, target_cell);
                let ghost s_branch = new_map.masks();
                proof {
                    let ti = index_min_count as int;
                    assert forall|i: int| 0 <= i < 81 implies s_branch[i] == s_stall.update(
                        ti,
                        digit_mask(candidate as int),
                    )[i] by {
                        assert(s_branch[i] == new_map.cells@[i].candidates);
                    }
                    assert(s_branch =~= s_stall.update(ti, digit_mask(candidate as int)));
                    let cu = candidate;
                    assert(popcount9(1u32 << cu) == 1 && 1u32 << cu <= 0x1ffu32) by (bit_vector)
                        requires
                            cu < 9,
                    ;
                    assert forall|i: int| 0 <= i < 81 implies mask_ok(
                        #[trigger] s_branch[i],
                    ) by {
                        if i != ti {
                            assert(s_branch[i] == s_stall[i]);
                        }
                    }
                    lemma_total_update(s_stall, ti, digit_mask(candidate as int), 81);
                    assert(total_count(s_branch) < total_count(s_stall));
                }
                proof {
                    lemma_total_bound(new_map.masks(), 81);
                    assert(total_count(new_map.masks()) < total_count(old(self).masks()));
                }
                if new_map.solve() {
                    self.cells = new_map.cells;
                    proof {
                        assert forall|i: int|
                            0 <= i < 81 && popcount9(#[trigger] s_entry[i]) <= 1 implies self.masks()[i]
                            == s_entry[i] by {
                            assert(s_branch[i] == s_stall[i]);
                        }
                        assert forall|i: int| 0 <= i < 81 implies popcount9(
                            #[trigger] self.masks()[i],
                        ) <= popcount9(s_entry[i]) by {
                            assert(popcount9(self.masks()[i]) <= popcount9(s_branch[i]));
                            if i != index_min_count as int {
                                assert(s_branch[i] == s_stall[i]);
                            } else {
                                lemma_popcount_zero(s_entry[i]);
                            }
                        }
                        lemma_total_le(s_entry, self.masks(), 81);
                        if board_conflict(s_entry) {
                            lemma_conflict_preserved(s_entry, self.masks());
                        }
                    }
                    proof {
                        assert(branch_try(s_stall, index_min_count as int, candidate as int)
                            == solve_from(s_branch, 729));
                        assert(self.masks() == solve_from(s_entry, 729).1);
                        assert(board_solved(self.masks()) == solve_from(s_entry, 729).0);
                    }
                    return self.is_solved();
                }
                proof {
                    // this branch failed: the scan moves to the next candidate
                    assert(branch_try(s_stall, index_min_count as int, candidate as int)
                        == branch_try(s_stall, index_min_count as int, candidate as int + 1));
                }
            } else {
                proof {
                    assert(branch_try(s_stall, index_min_count as int, candidate as int)
                        == branch_try(s_stall, index_min_count as int, candidate as int + 1));
                }
            }
            candidate = candidate + 1;
        }

        proof {
            if board_conflict(s_entry) {
                lemma_conflict_preserved(s_entry, self.masks());
            }
            assert(branch_try(s_stall, index_min_count as int, 9) == (false, s_stall));
        }
        false
    }

    /// The naked-single pass: every not-yet-fixed cell, in cell order,
    /// drops the digits its fixed peers already claim.
    pub fn filter_unique_candidates(&mut self)
        requires
            old(self).wf(),
        ensures
            final(self).wf(),
            final(self).cell_groups == old(self).cell_groups,
            final(self).group_builder == old(self).group_builder,
            final(self).masks() == filter_pass(old(self).masks()),
    {
        let ghost s0 = old(self).masks();
        let empty_cell = SudokuCell::new();
        let mut target_index: usize = 0;
        while target_index < SUDOKU_CELL_SIZE
            invariant
                target_index <= 81,
                self.cell_groups == old(self).cell_groups,
                self.group_builder == old(self).group_builder,
                cell_groups_ok(*self.cell_groups),
                self.group_builder.wf(),
                empty_cell.candidates == 0,
                s0 == old(self).masks(),
                s0.len() == 81,
                board_ok(s0),
                self.cells@.len() == 81,
                self.masks() == filter_pass_upto(s0, target_index as int),
                board_ok(self.masks()),
            decreases 81 - target_index,
        {
            let ghost t = self.masks();
            proof {
                lemma_filter_upto_frame(s0, target_index as int);
            }
            let c = target_index;
            proof {
                assert(self.cells@[c as int].candidates == t[c as int]);
            }
            if self.cells[c].has_unique_or_no_candidates() {
                proof {
                    assert(filter_pass_upto(s0, c as int + 1) == filter_cell_step(t, c as int));
                    assert(filter_cell_step(t, c as int) == t);
                }
                target_index = target_index + 1;
                continue ;
            }
            let cg: &SudokuCellGroups = self.cell_groups;
            let mut sum = SudokuCell::new();
            let mut j: usize = 0;
            while j < 3
                invariant
                    j <= 3,
                    target_index < 81,
                    c == target_index,
                    cell_groups_ok(*cg),
                    cg == self.cell_groups,
                    empty_cell.candidates == 0,
                    self.cells@.len() == 81,
                    t == self.masks(),
                    board_ok(t),
                    sum.candidates == filter_sum_groups(t, c as int, j as int),
                decreases 3 - j,
            {
                let group = &cg[c][j];
                let ghost gsum = sum.candidates;
                proof {
                    crate::board::lemma_or_zero(gsum);
                }
                let mut k: usize = 0;
                while k < group.len()
                    invariant
                        k <= 9,
                        j < 3,
                        target_index < 81,
                        c == target_index,
                        cell_groups_ok(*cg),
                        cg == self.cell_groups,
                        group@ == cg@[c as int]@[j as int]@,
                        group@.len() == 9,
                        empty_cell.candidates == 0,
                        self.cells@.len() == 81,
                        t == self.masks(),
                        board_ok(t),
                        gsum == filter_sum_groups(t, c as int, j as int),
                        sum.candidates == (gsum | peer_fixed_union(t, c as int, j as int, k as int)),
                    decreases 9 - k,
                {
                    let cell_index = group[k];
                    proof {
                        lemma_cell_owner_bounds(c as int, j as int);
                        lemma_group_member_bounds(cell_owner(c as int, j as int), k as int);
                        assert(cell_index as int == group_member(
                            cell_owner(c as int, j as int),
                            k as int,
                        ));
                    }
                    let other_cell = if cell_index != c {
                        self.cells[cell_index]
                    } else {
                        empty_cell
                    };
                    proof {
                        if cell_index != c {
                            assert(other_cell.candidates == t[cell_index as int]);
                        }
                        assert(other_cell.candidates == peer_mask(t, c as int, j as int, k as int));
                        assert(mask_ok(other_cell.candidates));
                    }
                    let ghost acc = sum.candidates;
                    let ghost u = peer_fixed_union(t, c as int, j as int, k as int);
                    let ghost b = other_cell.candidates;
                    sum.merge_unique_candidate(&other_cell);
                    proof {
                        if popcount9(b) <= 1 {
                            lemma_or_assoc(gsum, u, b);
                        }
                    }
                    k = k + 1;
                }
                j = j + 1;
            }
            proof {
                assert(sum.candidates == filter_sum_groups(t, c as int, 3));
            }
            let mut target = self.cells[c];
            target.filter_by_candidates(&sum);
            self.cells.set(c, target);
            proof {
                let ci = c as int;
                assert(popcount9(t[ci]) > 1);
                assert forall|i: int| 0 <= i < 81 implies self.masks()[i] == t.update(
                    ci,
                    filter_mask(t[ci], filter_sum(t, ci)),
                )[i] by {
                    assert(self.masks()[i] == self.cells@[i].candidates);
                }
                assert(self.masks() =~= t.update(ci, filter_mask(t[ci], filter_sum(t, ci))));
                assert(filter_pass_upto(s0, ci + 1) == filter_cell_step(t, ci));
                lemma_filter_upto_frame(s0, ci + 1);
            }
            target_index = target_index + 1;
        }
    }

    /// The hidden-single pass: for every not-yet-fixed cell and each of its
    /// three groups in turn, the cell takes the one digit its peers leave
    /// unused, if there is exactly one.
    pub fn find_unused_candidates(&mut self)
        requires
            old(self).wf(),
        ensures
            final(self).wf(),
            final(self).cell_groups == old(self).cell_groups,
            final(self).group_builder == old(self).group_builder,
            final(self).masks() == fill_pass(old(self).masks()),
    {
        let ghost s0 = old(self).masks();
        let empty_cell = SudokuCell::new();
        let mut target_index: usize = 0;
        while target_index < SUDOKU_CELL_SIZE
            invariant
                target_index <= 81,
                self.cell_groups == old(self).cell_groups,
                self.group_builder == old(self).group_builder,
                cell_groups_ok(*self.cell_groups),
                self.group_builder.wf(),
                empty_cell.candidates == 0,
                s0 == old(self).masks(),
                s0.len() == 81,
                board_ok(s0),
                self.cells@.len() == 81,
                self.masks() == fill_pass_upto(s0, target_index as int),
                board_ok(self.masks()),
            decreases 81 - target_index,
        {
            let ghost t = self.masks();
            proof {
                lemma_fill_upto_frame(s0, target_index as int);
            }
            let c = target_index;
            proof {
                assert(self.cells@[c as int].candidates == t[c as int]);
            }
            if self.cells[c].has_unique_or_no_candidates() {
                proof {
                    assert(fill_pass_upto(s0, c as int + 1) == fill_cell_step(t, c as int));
                    assert(fill_cell_step(t, c as int) == t);
                }
                target_index = target_index + 1;
                continue ;
            }
            let cg: &SudokuCellGroups = self.cell_groups;
            let mut j: usize = 0;
            while j < 3
                invariant
                    j <= 3,
                    target_index < 81,
                    c == target_index,
                    cell_groups_ok(*cg),
                    cg == self.cell_groups,
                    self.cell_groups == old(self).cell_groups,
                    self.group_builder == old(self).group_builder,
                    self.group_builder.wf(),
                    empty_cell.candidates == 0,
                    self.cells@.len() == 81,
                    popcount9(t[c as int]) > 1,
                    t.len() == 81,
                    board_ok(t),
                    self.masks() == fill_cell_groups(t, c as int, j as int),
                    board_ok(self.masks()),
                decreases 3 - j,
            {
                let ghost tj = self.masks();
                let group = &cg[c][j];
                let mut sum = SudokuCell::new();
                let mut k: usize = 0;
                while k < group.len()
                    invariant
                        k <= 9,
                        j < 3,
                        target_index < 81,
                        c == target_index,
                        cell_groups_ok(*cg),
                        cg == self.cell_groups,
                        group@ == cg@[c as int]@[j as int]@,
                        group@.len() == 9,
                        empty_cell.candidates == 0,
                        self.cells@.len() == 81,
                        tj == self.masks(),
                        board_ok(tj),
                        sum.candidates == peer_all_union(tj, c as int, j as int, k as int),
                    decreases 9 - k,
                {
                    let cell_index = group[k];
                    proof {
                        lemma_cell_owner_bounds(c as int, j as int);
                        lemma_group_member_bounds(cell_owner(c as int, j as int), k as int);
                        assert(cell_index as int == group_member(
                            cell_owner(c as int, j as int),
                            k as int,
                        ));
                    }
                    let other_cell = if cell_index != c {
                        self.cells[cell_index]
                    } else {
                        empty_cell
                    };
                    proof {
                        if cell_index != c {
                            assert(other_cell.candidates == tj[cell_index as int]);
                        }
                        assert(other_cell.candidates == peer_mask(
                            tj,
                            c as int,
                            j as int,
                            k as int,
                        ));
                    }
                    sum.merge_candidate(&other_cell);
                    k = k + 1;
                }
                let mut target = self.cells[c];
                proof {
                    assert(target.candidates == tj[c as int]);
                    assert(mask_ok(tj[c as int]));
                }
                target.fill_unused_candidate(&sum);
                self.cells.set(c, target);
                proof {
                    let ci = c as int;
                    assert forall|i: int| 0 <= i < 81 implies self.masks()[i] == tj.update(
                        ci,
                        fill_mask(tj[ci], peer_all_union(tj, ci, j as int, 9)),
                    )[i] by {
                        assert(self.masks()[i] == self.cells@[i].candidates);
                    }
                    assert(self.masks() =~= tj.update(
                        ci,
                        fill_mask(tj[ci], peer_all_union(tj, ci, j as int, 9)),
                    ));
                    assert(self.masks() == fill_group_step(tj, ci, j as int));
                    assert(self.masks() == fill_cell_groups(t, ci, j as int + 1));
                    crate::board::lemma_fill_mask_props(tj[ci], peer_all_union(tj, ci, j as int, 9));
                    assert forall|i: int| 0 <= i < 81 implies mask_ok(
                        #[trigger] self.masks()[i],
                    ) by {
                        if i != ci {
                            assert(self.masks()[i] == tj[i]);
                        }
                    }
                }
                j = j + 1;
            }
            proof {
                assert(self.masks() == fill_cell_groups(t, c as int, 3));
                assert(fill_cell_step(t, c as int) == fill_cell_groups(t, c as int, 3));
                assert(fill_pass_upto(s0, c as int + 1) == fill_cell_step(t, c as int));
                lemma_fill_upto_frame(s0, c as int + 1);
            }
            target_index = target_index + 1;
        }
    }

    /// Picks the branch cell: the fewest candidates above one, preferring
    /// the first row holding the most such minimal cells, then the leftmost
    /// of them.
    pub fn find_backtracking_target(&self) -> (r: usize)
        requires
            self.wf(),
        ensures
            r < 81,
            r as int == backtrack_target(self.masks()),
    {
        let ghost s = self.masks();
        // SUDOKU_CELL_SIZE = a large enough sentinel
        let mut min_count: usize = SUDOKU_CELL_SIZE;
        let mut cell_counts: Vec<Vec<usize>> = Vec::new();

        let mut row_index: usize = 0;
        while row_index < SUDOKU_GROUP_SIZE
            invariant
                self.wf(),
                s == self.masks(),
                row_index <= 9,
                cell_counts@.len() == row_index,
                forall|r2: int| 0 <= r2 < row_index ==> (#[trigger] cell_counts@[r2])@.len() == 9,
                forall|r2: int, c2: int|
                    0 <= r2 < row_index && 0 <= c2 < 9 ==> (#[trigger] cell_counts@[r2]@[c2]) as int
                        == adjusted_count(s, r2 * 9 + c2),
                min_count as int == min_adjusted_upto(s, row_index as int * 9),
            decreases 9 - row_index,
        {
            let mut row_counts: Vec<usize> = Vec::new();
            let mut column_index: usize = 0;
            while column_index < SUDOKU_GROUP_SIZE
                invariant
                    self.wf(),
                    s == self.masks(),
                    row_index < 9,
                    column_index <= 9,
                    row_counts@.len() == column_index,
                    forall|c2: int|
                        0 <= c2 < column_index ==> (#[trigger] row_counts@[c2]) as int
                            == adjusted_count(s, row_index as int * 9 + c2),
                    min_count as int == min_adjusted_upto(
                        s,
                        row_index as int * 9 + column_index as int,
                    ),
                decreases 9 - column_index,
            {
                let idx = row_index * SUDOKU_GROUP_SIZE + column_index;
                proof {
                    assert(self.cells@[idx as int].candidates == s[idx as int]);
                }
                let cell_count = self.cells[idx].count_candidates();
                // Remove branches
                let adjusted = if cell_count > 1 {
                    cell_count
                } else {
                    SUDOKU_CELL_SIZE
                };
                row_counts.push(adjusted);
                min_count = if adjusted < min_count {
                    adjusted
                } else {
                    min_count
                };
                column_index = column_index + 1;
            }
            cell_counts.push(row_counts);
            row_index = row_index + 1;
        }
        let ghost m = min_count as int;
        proof {
            assert(m == min_adjusted_upto(s, 81));
        }

        let mut row_counts: Vec<usize> = Vec::new();
        let mut mr: usize = 0;
        while mr < SUDOKU_GROUP_SIZE
            invariant
                mr <= 9,
                cell_counts@.len() == 9,
                forall|r2: int| 0 <= r2 < 9 ==> (#[trigger] cell_counts@[r2])@.len() == 9,
                forall|r2: int, c2: int|
                    0 <= r2 < 9 && 0 <= c2 < 9 ==> (#[trigger] cell_counts@[r2]@[c2]) as int
                        == adjusted_count(s, r2 * 9 + c2),
                m == min_count as int,
                row_counts@.len() == mr,
                forall|r2: int|
                    0 <= r2 < mr ==> (#[trigger] row_counts@[r2]) as int == row_match_count(
                        s,
                        r2,
                        m,
                        9,
                    ),
            decreases 9 - mr,
        {
            let mut cnt: usize = 0;
            let mut mc: usize = 0;
            while mc < SUDOKU_GROUP_SIZE
                invariant
                    mr < 9,
                    mc <= 9,
                    cnt <= mc,
                    cell_counts@.len() == 9,
                    forall|r2: int| 0 <= r2 < 9 ==> (#[trigger] cell_counts@[r2])@.len() == 9,
                    forall|r2: int, c2: int|
                        0 <= r2 < 9 && 0 <= c2 < 9 ==> (#[trigger] cell_counts@[r2]@[c2]) as int
                            == adjusted_count(s, r2 * 9 + c2),
                    m == min_count as int,
                    cnt as int == row_match_count(s, mr as int, m, mc as int),
                decreases 9 - mc,
            {
                if cell_counts[mr][mc] == min_count {
                    cnt = cnt + 1;
                }
                mc = mc + 1;
            }
            row_counts.push(cnt);
            mr = mr + 1;
        }

        let mut max_row_count: usize = 0;
        let mut xr: usize = 0;
        while xr < SUDOKU_GROUP_SIZE
            invariant
                xr <= 9,
                row_counts@.len() == 9,
                forall|r2: int|
                    0 <= r2 < 9 ==> (#[trigger] row_counts@[r2]) as int == row_match_count(
                        s,
                        r2,
                        m,
                        9,
                    ),
                max_row_count as int == max_row_match_upto(s, m, xr as int),
            decreases 9 - xr,
        {
            if row_counts[xr] > max_row_count {
                max_row_count = row_counts[xr];
            }
            xr = xr + 1;
        }

        let mut target_row: usize = 0;
        while target_row < SUDOKU_GROUP_SIZE && row_counts[target_row] != max_row_count
            invariant
                target_row <= 9,
                row_counts@.len() == 9,
                forall|r2: int|
                    0 <= r2 < 9 ==> (#[trigger] row_counts@[r2]) as int == row_match_count(
                        s,
                        r2,
                        m,
                        9,
                    ),
                max_row_count as int == max_row_match_upto(s, m, 9),
                forall|j: int| 0 <= j < target_row ==> #[trigger] row_match_count(s, j, m, 9)
                    != max_row_count as int,
            decreases 9 - target_row,
        {
            target_row = target_row + 1;
        }
        proof {
            lemma_max_achieved(s, m, 9);
            if target_row == 9 {
                let r0 = choose|r0: int|
                    0 <= r0 < 9 && #[trigger] row_match_count(s, r0, m, 9) == max_row_match_upto(
                        s,
                        m,
                        9,
                    );
                assert(false);
            }
            lemma_first_row_from(s, m, max_row_count as int, 0, target_row as int);
        }

        let mut target_column: usize = 0;
        while target_column < SUDOKU_GROUP_SIZE && cell_counts[target_row][target_column]
            != min_count
            invariant
                target_row < 9,
                target_column <= 9,
                cell_counts@.len() == 9,
                forall|r2: int| 0 <= r2 < 9 ==> (#[trigger] cell_counts@[r2])@.len() == 9,
                forall|r2: int, c2: int|
                    0 <= r2 < 9 && 0 <= c2 < 9 ==> (#[trigger] cell_counts@[r2]@[c2]) as int
                        == adjusted_count(s, r2 * 9 + c2),
                m == min_count as int,
                forall|j: int|
                    0 <= j < target_column ==> #[trigger] adjusted_count(s, target_row as int * 9 + j)
                        != m,
            decreases 9 - target_column,
        {
            target_column = target_column + 1;
        }
        proof {
            let tr = target_row as int;
            assert(row_match_count(s, tr, m, 9) == max_row_match_upto(s, m, 9));
            lemma_row_match_bounds(s, tr, m, 9);
            if target_column == 9 {
                // the chosen row holds at least one cell at the minimum
                lemma_min_achieved(s, 81);
                if m < 81 {
                    let i0 = choose|i0: int|
                        0 <= i0 < 81 && #[trigger] adjusted_count(s, i0) == min_adjusted_upto(
                            s,
                            81,
                        );
                    let r0 = i0 / 9;
                    lemma_div9(i0);
                    assert(adjusted_count(s, r0 * 9 + (i0 % 9)) == m);
                    lemma_row_match_bounds(s, r0, m, 9);
                    lemma_max_ge(s, m, 9, r0);
                    assert(row_match_count(s, tr, m, 9) > 0);
                } else {
                    lemma_min_le_cell(s, tr * 9, 81);
                    assert(mask_ok(s[tr * 9]));
                    crate::board::lemma_popcount_zero(s[tr * 9]);
                    assert(adjusted_count(s, tr * 9 + 0) == 81);
                    assert(false);
                }
                let c0 = choose|c0: int| 0 <= c0 < 9 && #[trigger] adjusted_count(s, tr * 9 + c0)
                    == m;
                assert(false);
            }
            lemma_first_col_from(s, tr, m, 0, target_column as int);
        }
        target_row * SUDOKU_GROUP_SIZE + target_column
    }

    /// No group of the board rules a digit out, repeats a fixed digit, or
    /// holds a cell with zero candidates.
    pub fn is_consistent(&self) -> (r: bool)
        requires
            self.wf(),
        ensures
            r == board_consistent(self.masks()),
    {
        let mut group_gen = self.group_builder.create();
        loop
            invariant
                self.wf(),
                group_gen.groups@ == self.group_builder.groups@,
                0 <= group_gen.index <= 27,
                forall|g: int|
                    0 <= g < group_gen.index ==> group_consistent(#[trigger] self.masks(), g),
            ensures
                board_consistent(self.masks()),
            decreases 27 - group_gen.index,
        {
            let ghost g = group_gen.index as int;
            match group_gen.next() {
                Some(indexes) => {
                    proof {
                        assert forall|k: int| 0 <= k < 9 implies (#[trigger] indexes@[k]) < 81 by {
                            lemma_group_member_bounds(g, k);
                        }
                    }
                    let ok = self.is_group_consistent(indexes);
                    proof {
                        lemma_list_matches_group(self.masks(), indexes@, g, 9);
                        lemma_covers_iff(self.masks(), g);
                        lemma_conflict_iff_dup(self.masks(), g);
                        lemma_list_empty_iff_group(self.masks(), indexes@, g, 9);
                        assert(crate::board::group_no_empty(self.masks(), g) == !(exists|k: int|
                            0 <= k < 9 && #[trigger] self.masks()[group_member(g, k)] == 0));
                        assert(ok == group_consistent(self.masks(), g));
                    }
                    if !ok {
                        return false;
                    }
                },
                None => { break ; },
            }
        }
        true
    }
}

} // verus!
