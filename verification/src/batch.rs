//! Batch solving: a chunk of puzzle lines solved in order, the serial
//! driver, and the partition of a batch over a bounded set of workers.
use vstd::prelude::*;

verus! {

use crate::board::board_solved;
use crate::board::solve_from;
use crate::groups::SudokuCellGroups;
use crate::groups::SudokuGroupGenBuilder;
use crate::groups::cell_groups_ok;
use crate::groups::create_group_index_set;
use crate::map::SudokuMap;
use crate::map::board_chars;
use crate::map::clue_kept;
use crate::map::line_masks;
use vstd::string::StringExecFns;

/// The lines of a batch, as character sequences.
pub open spec fn line_views(lines: Seq<String>) -> Seq<Seq<char>> {
    lines.map_values(|l: String| l@)
}

/// Whether the solver reports success on one puzzle line.
pub open spec fn line_solved(cs: Seq<char>) -> bool {
    solve_from(line_masks(cs), 729).0
}

/// The board the solver leaves behind for one puzzle line.
pub open spec fn line_final_board(cs: Seq<char>) -> Seq<u32> {
    solve_from(line_masks(cs), 729).1
}

/// The verify-mode acceptance of one line: its final board is solved and
/// keeps every clue of the line.
pub open spec fn line_check_ok(cs: Seq<char>) -> bool {
    board_solved(line_final_board(cs)) && clue_kept(line_final_board(cs), cs)
}

/// The text reported for `n` lines starting at `start`: each line's final
/// board in compact form, newline-terminated, in input order.
pub open spec fn chunk_answer(lines: Seq<Seq<char>>, start: int, n: int) -> Seq<char>
    decreases n,
{
    if n <= 0 {
        Seq::empty()
    } else {
        chunk_answer(lines, start, n - 1) + board_chars(
            line_final_board(lines[start + n - 1]),
            true,
        ) + seq!['\n']
    }
}

/// The flag reported for `n` lines starting at `start`: every one of them
/// got solved.
pub open spec fn chunk_solved(lines: Seq<Seq<char>>, start: int, n: int) -> bool {
    forall|i: int| 0 <= i < n ==> line_solved(#[trigger] lines[start + i])
}

/// Splitting a batch into two contiguous chunks changes nothing: the two
/// chunk answers concatenate to the serial answer, and the AND of the two
/// chunk flags is the serial flag. By induction over the cut points, the
/// same holds of any partition into contiguous chunks, so the multi-worker
/// path reports exactly what the single-chunk path reports.
pub proof fn lemma_serial_equals_chunked(lines: Seq<Seq<char>>, start: int, mid: int, end: int)
    requires
        start <= mid <= end,
    ensures
        chunk_answer(lines, start, end - start) == chunk_answer(lines, start, mid - start)
            + chunk_answer(lines, mid, end - mid),
        chunk_solved(lines, start, end - start) == (chunk_solved(lines, start, mid - start)
            && chunk_solved(lines, mid, end - mid)),
    decreases end - mid,
{
    if mid == end {
        assert(chunk_answer(lines, start, mid - start) + Seq::<char>::empty() =~= chunk_answer(
            lines,
            start,
            mid - start,
        ));
    } else {
        lemma_serial_equals_chunked(lines, start, mid, end - 1);
        assert(lines[mid + (end - mid - 1)] == lines[start + (end - 1 - start)]);
        assert(chunk_answer(lines, start, end - start) =~= chunk_answer(lines, start, mid - start)
            + chunk_answer(lines, mid, end - mid));
    }
    if chunk_solved(lines, start, mid - start) && chunk_solved(lines, mid, end - mid) {
        assert forall|i: int| 0 <= i < end - start implies line_solved(
            #[trigger] lines[start + i],
        ) by {
            if i >= mid - start {
                assert(line_solved(lines[mid + (i - (mid - start))]));
            }
        }
    }
    if chunk_solved(lines, start, end - start) {
        assert forall|i: int| 0 <= i < end - mid implies line_solved(
            #[trigger] lines[mid + i],
        ) by {
            assert(line_solved(lines[start + (mid - start + i)]));
        }
    }
}

/// Solves the lines of one contiguous chunk in order: one compact answer
/// line per puzzle and the AND of the per-line results; a line that does
/// not solve only turns the flag false. In verify mode each solved line's
/// answer is re-checked against its clues, and the index of the first line
/// whose answer fails would come back as the fatal error -- which, as
/// `lemma_solved_line_checks_ok` proves, can never happen.
pub fn solve_chunk(
    lines: &Vec<String>,
    start: usize,
    end: usize,
    verify_mode: bool,
    cell_groups: &SudokuCellGroups,
    group_builder: &SudokuGroupGenBuilder,
) -> (r: Result<(bool, String), usize>)
    requires
        start <= end <= lines@.len(),
        cell_groups_ok(*cell_groups),
        group_builder.wf(),
    ensures
        r matches Err(i) ==> {
            &&& verify_mode
            &&& start <= i < end
            &&& line_solved(line_views(lines@)[i as int])
            &&& !line_check_ok(line_views(lines@)[i as int])
        },
        r is Ok,
        r matches Ok((ok, answers)) ==> {
            &&& ok == chunk_solved(line_views(lines@), start as int, end - start)
            &&& answers@ == chunk_answer(line_views(lines@), start as int, end - start)
        },
{
    let ghost views = line_views(lines@);
    let mut result = true;
    let mut answers = String::new();
    let mut line_index: usize = start;
    while line_index < end
        invariant
            start <= line_index <= end,
            end <= lines@.len(),
            cell_groups_ok(*cell_groups),
            group_builder.wf(),
            views == line_views(lines@),
            result == chunk_solved(views, start as int, line_index - start),
            answers@ == chunk_answer(views, start as int, line_index - start),
        decreases end - line_index,
    {
        let line = &lines[line_index];
        proof {
            assert(views[line_index as int] == lines@[line_index as int]@);
        }
        let mut sudoku_map = SudokuMap::new(line.as_str(), cell_groups, group_builder);
        let solved = sudoku_map.solve();
        proof {
            assert(solved == line_solved(views[line_index as int]));
            assert(sudoku_map.masks() == line_final_board(views[line_index as int]));
        }
        if verify_mode && solved {
            // a solved line always keeps its clues, so this path is dead
            proof {
                crate::solvable::lemma_solved_line_checks_ok(views[line_index as int]);
            }
            if !sudoku_map.check(line.as_str()) {
                return Err(line_index);
            }
        }
        let s = sudoku_map.to_string(true);
        answers.append(s.as_str());
        proof {
            reveal_strlit("\n");
        }
        answers.append("\n");
        let ghost done = line_index - start + 1;
        proof {
            assert("\n"@ =~= seq!['\n']);
            assert(answers@ =~= chunk_answer(views, start as int, done));
            if result && solved {
                assert forall|i: int| 0 <= i < done implies line_solved(
                    #[trigger] views[start + i],
                ) by {
                    if i < done - 1 {
                        assert(chunk_solved(views, start as int, done - 1));
                    }
                }
            }
        }
        result = result && solved;
        line_index = line_index + 1;
    }
    Ok((result, answers))
}

/// Solves the whole batch serially, in input order, building the shared
/// group tables once.
pub fn exec_single_threads(lines: &Vec<String>, verify_mode: bool) -> (r: Result<
    (bool, String),
    usize,
>)
    ensures
        r is Ok,
        r matches Ok((ok, answers)) ==> {
            &&& ok == chunk_solved(line_views(lines@), 0, lines@.len() as int)
            &&& answers@ == chunk_answer(line_views(lines@), 0, lines@.len() as int)
        },
{
    let cell_groups = create_group_index_set();
    let group_builder = SudokuGroupGenBuilder::new();
    solve_chunk(lines, 0, lines.len(), verify_mode, &cell_groups, &group_builder)
}

/// Partitions `count` lines over `n_cores` workers: contiguous chunks of
/// `count / n_cores` lines each, the last worker absorbing the remainder.
pub fn chunk_bounds(count: usize, n_cores: usize) -> (r: Vec<(usize, usize)>)
    requires
        1 <= n_cores <= count,
    ensures
        r@.len() == n_cores,
        (#[trigger] r@[0]).0 == 0,
        r@[n_cores as int - 1].1 == count,
        forall|i: int| 0 <= i < n_cores ==> (#[trigger] r@[i]).0 <= r@[i].1 <= count,
        forall|i: int| 0 < i < n_cores ==> (#[trigger] r@[i]).0 == r@[i - 1].1,
        forall|i: int|
            0 <= i < n_cores - 1 ==> (#[trigger] r@[i]).1 - r@[i].0 == count as int / n_cores as int,
{
    let lines_per_core = count / n_cores;
    proof {
        lemma_chunk_arith(count as int, n_cores as int);
    }
    let mut r: Vec<(usize, usize)> = Vec::new();
    let mut core_index: usize = 0;
    while core_index < n_cores
        invariant
            1 <= n_cores <= count,
            lines_per_core == count as int / n_cores as int,
            (n_cores as int) * (lines_per_core as int) <= count as int,
            core_index <= n_cores,
            r@.len() == core_index,
            forall|i: int|
                0 <= i < core_index ==> (#[trigger] r@[i]).0 == i * lines_per_core as int,
            forall|i: int|
                0 <= i < core_index ==> (#[trigger] r@[i]).1 == (if i == n_cores - 1 {
                    count as int
                } else {
                    (i + 1) * lines_per_core as int
                }),
        decreases n_cores - core_index,
    {
        proof {
            lemma_chunk_step(count as int, n_cores as int, core_index as int);
        }
        let start_pos = core_index * lines_per_core;
        let end_pos = if core_index + 1 == n_cores {
            count
        } else {
            start_pos + lines_per_core
        };
        r.push((start_pos, end_pos));
        core_index = core_index + 1;
    }
    proof {
        assert forall|i: int| 0 <= i < n_cores implies (#[trigger] r@[i]).0 <= r@[i].1
            <= count by {
            lemma_chunk_step(count as int, n_cores as int, i);
        }
        assert forall|i: int| 0 < i < n_cores implies (#[trigger] r@[i]).0 == r@[i - 1].1 by {
            lemma_chunk_step(count as int, n_cores as int, i);
            lemma_chunk_step(count as int, n_cores as int, i - 1);
        }
        assert forall|i: int| 0 <= i < n_cores - 1 implies (#[trigger] r@[i]).1 - r@[i].0
            == count as int / n_cores as int by {
            lemma_chunk_step(count as int, n_cores as int, i);
        }
    }
    r
}

/// The chunk size times the worker count never exceeds the line count.
proof fn lemma_chunk_arith(count: int, n_cores: int)
    by (nonlinear_arith)
    requires
        1 <= n_cores <= count,
    ensures
        n_cores * (count / n_cores) <= count,
        count / n_cores >= 1,
{
}

/// Bounds for one worker's chunk.
proof fn lemma_chunk_step(count: int, n_cores: int, i: int)
    by (nonlinear_arith)
    requires
        1 <= n_cores <= count,
        0 <= i < n_cores,
        n_cores * (count / n_cores) <= count,
    ensures
        i * (count / n_cores) <= (i + 1) * (count / n_cores),
        (i + 1) * (count / n_cores) <= count,
        (i + 1) * (count / n_cores) == i * (count / n_cores) + count / n_cores,
        0 <= i * (count / n_cores),
{
}

} // verus!
