use vstd::prelude::*;

verus! {

/// Score for clearing one line.
pub const LINE_CLEAR_SCORE_1: u32 = 1;
/// Score for clearing two lines at once.
pub const LINE_CLEAR_SCORE_2: u32 = 10;
/// Score for clearing three lines at once.
pub const LINE_CLEAR_SCORE_3: u32 = 30;
/// Score for clearing four lines at once (a Tetris).
pub const LINE_CLEAR_SCORE_4: u32 = 2000;

/// Base score of a deep well in an edge column (index 0 or 9).
pub const WELL_BASE_SCORE_EDGE: u32 = 10;
/// Base score of a deep well in an inner column (index 1 to 8, except 6).
pub const WELL_BASE_SCORE_MIDDLE: u32 = 320;
/// Base score of a deep well in the target column (index 6).
pub const WELL_BASE_SCORE_TARGET: u32 = 500;

/// Score of a T-Spin that clears no line.
pub const TSPIN_0_SCORE: u32 = 400;
/// Score of a T-Spin Single.
pub const TSPIN_1_SCORE: u32 = 800;
/// Score of a T-Spin Double.
pub const TSPIN_2_SCORE: u32 = 1200;
/// Score of a T-Spin Triple.
pub const TSPIN_3_SCORE: u32 = 1600;

/// The score for clearing `cleared` lines without a T-Spin: the table
/// 0, 1, 10, 30, 2000 for zero to four lines, and nothing beyond it.
pub open spec fn spec_line_clear_score(cleared: int) -> int {
    if cleared == 1 {
        LINE_CLEAR_SCORE_1 as int
    } else if cleared == 2 {
        LINE_CLEAR_SCORE_2 as int
    } else if cleared == 3 {
        LINE_CLEAR_SCORE_3 as int
    } else if cleared == 4 {
        LINE_CLEAR_SCORE_4 as int
    } else {
        0
    }
}

/// Looks up the line clear score table.
pub fn line_clear_score(cleared: usize) -> (s: u32)
    ensures
        s == spec_line_clear_score(cleared as int),
{
    if cleared == 1 {
        LINE_CLEAR_SCORE_1
    } else if cleared == 2 {
        LINE_CLEAR_SCORE_2
    } else if cleared == 3 {
        LINE_CLEAR_SCORE_3
    } else if cleared == 4 {
        LINE_CLEAR_SCORE_4
    } else {
        0
    }
}

} // verus!
