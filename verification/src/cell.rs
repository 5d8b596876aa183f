//! A single Sudoku cell: the digits it can still hold, as a 9-bit mask.
//!
//! Bit `d` of the mask stands for the digit `d + 1`. A cell is fixed when
//! exactly one bit is set, contradictory when no bit is set.
use vstd::prelude::*;

verus! {

use crate::SUDOKU_ALL_CANDIDATES;
use crate::SUDOKU_NO_CANDIDATES;
use vstd::string::StringExecFns;

/// Candidate masks are kept in the low nine bits of a machine word.
pub type SudokuCandidate = u32;

/// A well-formed mask uses only the nine candidate bits.
pub open spec fn mask_ok(m: u32) -> bool {
    m <= SUDOKU_ALL_CANDIDATES
}

/// Number of candidate bits set in the low nine bits of `m`.
pub open spec fn popcount9(m: u32) -> int {
    (m & 1) + ((m >> 1u32) & 1) + ((m >> 2u32) & 1) + ((m >> 3u32) & 1) + ((m >> 4u32) & 1)
        + ((m >> 5u32) & 1) + ((m >> 6u32) & 1) + ((m >> 7u32) & 1) + ((m >> 8u32) & 1)
}

/// The mask holds digit `d + 1` (bit `d` is set).
pub open spec fn has_digit(m: u32, d: int) -> bool {
    (m >> (d as u32)) & 1 == 1
}

/// The single-bit mask for candidate `d` (digit `d + 1`).
pub open spec fn digit_mask(d: int) -> u32 {
    1u32 << (d as u32)
}

/// Exactly one candidate remains.
pub open spec fn single_mask(m: u32) -> bool {
    popcount9(m) == 1
}

/// Every candidate of `a` is also a candidate of `b`.
pub open spec fn submask(a: u32, b: u32) -> bool {
    (a & !b) == 0
}

/// What a preset character does to a mask: a digit `'1'..='9'` narrows the
/// mask to that digit alone; any other character leaves the mask unchanged.
pub open spec fn preset_mask(m: u32, ch: char) -> u32 {
    if 0x31 <= (ch as u32) && (ch as u32) <= 0x39 {
        1u32 << (((ch as u32) - 0x31) as u32)
    } else {
        m
    }
}

/// Merging a peer into a running union of fixed peers: only a mask with at
/// most one candidate is merged in.
pub open spec fn merge_unique_mask(a: u32, b: u32) -> u32 {
    if popcount9(b) <= 1 {
        a | b
    } else {
        a
    }
}

/// The merge reports a conflict when the peer's sole candidate was already
/// present in the union.
pub open spec fn merge_unique_conflict(a: u32, b: u32) -> bool {
    popcount9(b) <= 1 && (a & b) != 0
}

/// Naked-single elimination: a cell that is not yet fixed drops every
/// candidate that a fixed peer already claims.
pub open spec fn filter_mask(a: u32, b: u32) -> u32 {
    if popcount9(a) <= 1 {
        a
    } else {
        a & !b
    }
}

/// Hidden-single deduction: if exactly one digit is missing from the union
/// of the peers, a not-yet-fixed cell must hold it.
pub open spec fn fill_mask(a: u32, b: u32) -> u32 {
    let unused = SUDOKU_ALL_CANDIDATES & !b;
    if popcount9(a) > 1 && popcount9(unused) == 1 {
        unused
    } else {
        a
    }
}

/// A solved cell keeps its preset: where the preset was a single digit the
/// answer must equal it, elsewhere the answer must merely be fixed.
pub open spec fn kept_mask(answer: u32, preset: u32) -> bool {
    if single_mask(preset) {
        answer == preset
    } else {
        single_mask(answer)
    }
}

/// The character printed for candidate `d` (digit `d + 1`).
pub open spec fn digit_char(d: int) -> char {
    if d == 0 {
        '1'
    } else if d == 1 {
        '2'
    } else if d == 2 {
        '3'
    } else if d == 3 {
        '4'
    } else if d == 4 {
        '5'
    } else if d == 5 {
        '6'
    } else if d == 6 {
        '7'
    } else if d == 7 {
        '8'
    } else {
        '9'
    }
}

/// The digits among the first `n` candidates of `m`, in ascending order.
pub open spec fn cell_chars_upto(m: u32, n: int) -> Seq<char>
    decreases n,
{
    if n <= 0 {
        Seq::empty()
    } else {
        cell_chars_upto(m, n - 1) + (if has_digit(m, n - 1) {
            seq![digit_char(n - 1)]
        } else {
            Seq::<char>::empty()
        })
    }
}

/// The string shown for a cell: its remaining digits in ascending order.
pub open spec fn cell_string(m: u32) -> Seq<char> {
    cell_chars_upto(m, 9)
}

/// Sudoku cell that contains candidates as a bitboard.
#[derive(Clone, Copy, PartialEq, Eq, Structural, Debug)]
pub struct SudokuCell {
    pub candidates: SudokuCandidate,
}

impl SudokuCell {
    /// A cell with no candidates at all.
    pub fn new() -> (r: SudokuCell)
        ensures
            r.candidates == SUDOKU_NO_CANDIDATES,
    {
        SudokuCell { candidates: SUDOKU_NO_CANDIDATES }
    }

    /// Prints the remaining digits in ascending order.
    pub fn to_string(&self) -> (r: String)
        ensures
            r@ == cell_string(self.candidates),
    {
        let mut line = String::new();
        let mut d: u32 = 0;
        assert(line@ == cell_chars_upto(self.candidates, 0));
        while d < 9
            invariant
                d <= 9,
                line@ == cell_chars_upto(self.candidates, d as int),
            decreases 9 - d,
        {
            if self.has_candidate(&d) {
                line.append(digit_str(d));
            }
            d = d + 1;
        }
        line
    }

    /// Every digit becomes possible.
    pub fn preset_full_candidate(&mut self)
        ensures
            final(self).candidates == SUDOKU_ALL_CANDIDATES,
    {
        self.candidates = SUDOKU_ALL_CANDIDATES;
    }

    /// Presets from one input character: `'1'..='9'` fixes that digit, any
    /// other character is tolerated and changes nothing.
    pub fn preset_candidate(&mut self, ch: char)
        ensures
            final(self).candidates == preset_mask(old(self).candidates, ch),
    {
        let code: u32 = ch as u32;
        if 0x31 <= code && code <= 0x39 {
            self.candidates = 1u32 << (code - 0x31);
        }
    }

    /// Forcibly narrows the cell to candidate `candidate`, but never
    /// overwrites a cell that is already fixed or empty.
    pub fn overwrite_candidate(&mut self, candidate: SudokuCandidate)
        requires
            candidate < 9,
        ensures
            final(self).candidates == (if popcount9(old(self).candidates) > 1 {
                digit_mask(candidate as int)
            } else {
                old(self).candidates
            }),
    {
        if self.count_candidates() > 1 {
            self.candidates = SudokuCell::digit_to_candidate(&candidate);
        }
    }

    /// Population count of the mask.
    pub fn count_candidates(&self) -> (r: usize)
        ensures
            r == popcount9(self.candidates),
    {
        let m = self.candidates & SUDOKU_ALL_CANDIDATES;
        proof {
            lemma_popcount9_mask(self.candidates);
            assert((m & 1) + ((m >> 1u32) & 1) + ((m >> 2u32) & 1) + ((m >> 3u32) & 1) + ((m
                >> 4u32) & 1) + ((m >> 5u32) & 1) + ((m >> 6u32) & 1) + ((m >> 7u32) & 1) + ((m
                >> 8u32) & 1) <= 9) by (bit_vector);
        }
        let c: u32 = (m & 1) + ((m >> 1) & 1) + ((m >> 2) & 1) + ((m >> 3) & 1) + ((m >> 4) & 1) + (
        (m >> 5) & 1) + ((m >> 6) & 1) + ((m >> 7) & 1) + ((m >> 8) & 1);
        c as usize
    }

    /// Exactly one candidate remains in this cell.
    pub fn has_unique_candidate(&self) -> (r: bool)
        ensures
            mask_ok(self.candidates) ==> r == single_mask(self.candidates),
    {
        SudokuCell::is_unique_candidate(self.candidates)
    }

    /// Zero or one candidate remains in this cell.
    pub fn has_unique_or_no_candidates(&self) -> (r: bool)
        ensures
            mask_ok(self.candidates) ==> r == (popcount9(self.candidates) <= 1),
    {
        SudokuCell::is_unique_or_no_candidates(self.candidates)
    }

    /// Exactly one bit of a well-formed mask is set.
    pub fn is_unique_candidate(candidates: SudokuCandidate) -> (r: bool)
        ensures
            mask_ok(candidates) ==> r == single_mask(candidates),
    {
        proof {
            lemma_unique_bit_trick(candidates);
        }
        candidates > 0 && (candidates & (candidates - 1)) == 0
    }

    /// At most one bit of a well-formed mask is set.
    pub fn is_unique_or_no_candidates(candidates: SudokuCandidate) -> (r: bool)
        ensures
            mask_ok(candidates) ==> r == (popcount9(candidates) <= 1),
    {
        proof {
            lemma_unique_or_none_bit_trick(candidates);
        }
        (candidates & candidates.wrapping_sub(1)) == 0
    }

    /// The mask covers the whole digit universe.
    pub fn has_all_candidates(&self) -> (r: bool)
        ensures
            r == (self.candidates == SUDOKU_ALL_CANDIDATES),
    {
        self.candidates == SUDOKU_ALL_CANDIDATES
    }

    /// The cell can still hold candidate `candidates`.
    pub fn can_mask(&mut self, candidates: SudokuCandidate) -> (r: bool)
        requires
            candidates < 9,
        ensures
            final(self).candidates == old(self).candidates,
            r == has_digit(old(self).candidates, candidates as int),
    {
        proof {
            lemma_digit_test(self.candidates, candidates);
        }
        (self.candidates & SudokuCell::digit_to_candidate(&candidates)) != 0
    }

    /// Checks that a preset candidate in `rhs` is kept by this answer cell.
    pub fn check_candidate_kept(&self, rhs: &SudokuCell) -> (r: bool)
        ensures
            mask_ok(self.candidates) && mask_ok(rhs.candidates) ==> r == kept_mask(
                self.candidates,
                rhs.candidates,
            ),
    {
        if rhs.has_unique_candidate() {
            self.candidates == rhs.candidates
        } else {
            self.has_unique_candidate()
        }
    }

    /// Accumulates every candidate of `rhs` into this cell.
    pub fn merge_candidate(&mut self, rhs: &SudokuCell)
        ensures
            final(self).candidates == old(self).candidates | rhs.candidates,
    {
        self.candidates = self.candidates | rhs.candidates;
    }

    /// Accumulates `rhs` only if it is fixed or empty; reports a conflict
    /// when the sole candidate of `rhs` was already accumulated.
    pub fn merge_unique_candidate(&mut self, rhs: &SudokuCell) -> (r: bool)
        requires
            mask_ok(rhs.candidates),
        ensures
            final(self).candidates == merge_unique_mask(old(self).candidates, rhs.candidates),
            r == merge_unique_conflict(old(self).candidates, rhs.candidates),
    {
        let has_unique = rhs.has_unique_or_no_candidates();
        let candidates: u32 = if has_unique {
            rhs.candidates
        } else {
            SUDOKU_NO_CANDIDATES
        };
        let not_merged = has_unique && ((self.candidates & rhs.candidates) != 0);
        self.candidates = self.candidates | candidates;
        proof {
            let a = old(self).candidates;
            assert(a | 0u32 == a) by (bit_vector);
        }
        not_merged
    }

    /// Drops from this cell every candidate fixed in the peer union `rhs`,
    /// unless this cell is already fixed or empty.
    pub fn filter_by_candidates(&mut self, rhs: &SudokuCell)
        requires
            mask_ok(old(self).candidates),
        ensures
            final(self).candidates == filter_mask(old(self).candidates, rhs.candidates),
    {
        let candidates: u32 = if self.has_unique_or_no_candidates() {
            SUDOKU_ALL_CANDIDATES
        } else {
            !rhs.candidates
        };
        self.candidates = self.candidates & candidates;
        proof {
            if popcount9(old(self).candidates) <= 1 {
                lemma_and_all_identity(old(self).candidates);
            }
        }
    }

    /// If exactly one digit is unused by the peer union `rhs`, and this cell
    /// is not yet fixed, the cell is assigned that digit.
    pub fn fill_unused_candidate(&mut self, rhs: &SudokuCell)
        requires
            mask_ok(old(self).candidates),
        ensures
            final(self).candidates == fill_mask(old(self).candidates, rhs.candidates),
    {
        let candidates: u32 = SUDOKU_ALL_CANDIDATES & !rhs.candidates;
        proof {
            let b = rhs.candidates;
            assert(0x1ffu32 & !b <= 0x1ffu32) by (bit_vector);
        }
        self.candidates = if !self.has_unique_or_no_candidates() && SudokuCell::is_unique_candidate(
            candidates,
        ) {
            candidates
        } else {
            self.candidates
        };
    }

    /// The single-bit mask of candidate `candidate`.
    pub fn digit_to_candidate(candidate: &SudokuCandidate) -> (r: SudokuCandidate)
        requires
            *candidate < 9,
        ensures
            r == digit_mask(*candidate as int),
            mask_ok(r),
    {
        proof {
            let c = *candidate;
            assert(c < 9 ==> 1u32 << c <= 0x1ffu32) by (bit_vector);
        }
        1u32 << *candidate
    }

    /// The cell still holds candidate `candidate`.
    pub fn has_candidate(&self, candidate: &SudokuCandidate) -> (r: bool)
        requires
            *candidate < 9,
        ensures
            r == has_digit(self.candidates, *candidate as int),
    {
        proof {
            lemma_digit_test(self.candidates, *candidate);
        }
        (self.candidates & SudokuCell::digit_to_candidate(candidate)) != 0
    }
}

/// The one-character string for candidate `d`.
fn digit_str(d: u32) -> (r: &'static str)
    requires
        d < 9,
    ensures
        r@ == seq![digit_char(d as int)],
{
    if d == 0 {
        proof {
            reveal_strlit("1");
        }
        "1"
    } else if d == 1 {
        proof {
            reveal_strlit("2");
        }
        "2"
    } else if d == 2 {
        proof {
            reveal_strlit("3");
        }
        "3"
    } else if d == 3 {
        proof {
            reveal_strlit("4");
        }
        "4"
    } else if d == 4 {
        proof {
            reveal_strlit("5");
        }
        "5"
    } else if d == 5 {
        proof {
            reveal_strlit("6");
        }
        "6"
    } else if d == 6 {
        proof {
            reveal_strlit("7");
        }
        "7"
    } else if d == 7 {
        proof {
            reveal_strlit("8");
        }
        "8"
    } else {
        proof {
            reveal_strlit("9");
        }
        "9"
    }
}

/// Presetting keeps a mask well-formed, and a digit character fixes the
/// cell.
pub proof fn lemma_preset_mask_ok(m: u32, ch: char)
    requires
        mask_ok(m),
    ensures
        mask_ok(preset_mask(m, ch)),
        0x31 <= (ch as u32) && (ch as u32) <= 0x39 ==> single_mask(preset_mask(m, ch)),
{
    let code = ch as u32;
    assert((0x31 <= code && code <= 0x39) ==> (1u32 << ((code - 0x31) as u32) <= 0x1ffu32
        && popcount9(1u32 << ((code - 0x31) as u32)) == 1)) by (bit_vector);
}

/// Masking a well-formed mask with the full universe changes nothing.
pub proof fn lemma_and_all_identity(m: u32)
    ensures
        mask_ok(m) ==> (m & SUDOKU_ALL_CANDIDATES) == m,
{
    assert(m <= 0x1ffu32 ==> (m & 0x1ffu32) == m) by (bit_vector);
}

/// The low nine bits alone decide the population count.
pub proof fn lemma_popcount9_mask(m: u32)
    ensures
        popcount9(m & SUDOKU_ALL_CANDIDATES) == popcount9(m),
{
    assert(popcount9(m & 0x1ffu32) == popcount9(m)) by (bit_vector);
}

/// The `m & (m - 1)` trick detects a power of two within a well-formed mask.
pub proof fn lemma_unique_bit_trick(m: u32)
    ensures
        mask_ok(m) && m > 0 ==> (((m & ((m - 1) as u32)) == 0) == single_mask(m)),
        popcount9(0) == 0,
{
    assert(1u32 <= m && m <= 0x1ffu32 ==> (((m & ((m - 1) as u32)) == 0) == (popcount9(m) == 1)))
        by (bit_vector);
    assert(popcount9(0) == 0) by (bit_vector);
}

/// The wrapping variant of the trick also accepts the empty mask.
pub proof fn lemma_unique_or_none_bit_trick(m: u32)
    ensures
        mask_ok(m) ==> (((m & vstd::wrapping::u32_specs::wrapping_sub(m, 1)) == 0) == (popcount9(m)
            <= 1)),
{
    assert(m <= 0x1ffu32 ==> (((m & vstd::wrapping::u32_specs::wrapping_sub(m, 1)) == 0) == (
    popcount9(m) <= 1))) by (bit_vector);
}

/// Testing a single digit bit agrees with the shifted-bit reading.
pub proof fn lemma_digit_test(m: u32, d: u32)
    ensures
        d < 9 ==> (((m & (1u32 << d)) != 0) == ((m >> d) & 1 == 1)),
{
    assert(d < 9 ==> (((m & (1u32 << d)) != 0) == ((m >> d) & 1 == 1))) by (bit_vector);
}

} // verus!
