use vstd::prelude::*;
use crate::tetris::{BlockType, Board, BOARD_WIDTH, INTERNAL_HEIGHT, grid_of, lemma_grid_of_shaped};
use crate::config::game::{WELL_BASE_SCORE_EDGE, WELL_BASE_SCORE_MIDDLE, WELL_BASE_SCORE_TARGET};

verus! {

// ----------------------------------------------------------------------------
// Cells and corners
// ----------------------------------------------------------------------------

/// `(x, y)` is off the board or holds a block: the walls and the floor count as filled.
pub open spec fn filled(g: Seq<Seq<Option<BlockType>>>, x: int, y: int) -> bool {
    !(0 <= x < BOARD_WIDTH && 0 <= y < INTERNAL_HEIGHT) || g[y][x] is Some
}

/// `(x, y)` is on the board and empty.
pub open spec fn open_cell(g: Seq<Seq<Option<BlockType>>>, x: int, y: int) -> bool {
    0 <= x < BOARD_WIDTH && 0 <= y < INTERNAL_HEIGHT && g[y][x] is None
}

/// How many of the four diagonal neighbours of `(cx, cy)` are filled.
pub open spec fn corner_count(g: Seq<Seq<Option<BlockType>>>, cx: int, cy: int) -> int {
    (if filled(g, cx - 1, cy - 1) { 1int } else { 0int }) + (if filled(g, cx + 1, cy - 1) {
        1int
    } else {
        0int
    }) + (if filled(g, cx - 1, cy + 1) { 1int } else { 0int }) + (if filled(g, cx + 1, cy + 1) {
        1int
    } else {
        0int
    })
}

/// Tells whether `(x, y)` is off the board or holds a block.
pub fn is_filled(board: &Board, x: i32, y: i32) -> (r: bool)
    ensures
        r == filled(grid_of(*board), x as int, y as int),
{
    proof {
        lemma_grid_of_shaped(*board);
    }
    if x < 0 || x >= BOARD_WIDTH as i32 || y < 0 || y >= INTERNAL_HEIGHT as i32 {
        true
    } else {
        board[y as usize][x as usize].is_some()
    }
}

/// Counts the filled diagonal neighbours of `(cx, cy)`.
pub fn count_corners(board: &Board, cx: i32, cy: i32) -> (n: u32)
    requires
        i32::MIN < cx < i32::MAX,
        i32::MIN < cy < i32::MAX,
    ensures
        n as int == corner_count(grid_of(*board), cx as int, cy as int),
        n <= 4,
{
    let mut n: u32 = 0;
    if is_filled(board, cx - 1, cy - 1) {
        n += 1;
    }
    if is_filled(board, cx + 1, cy - 1) {
        n += 1;
    }
    if is_filled(board, cx - 1, cy + 1) {
        n += 1;
    }
    if is_filled(board, cx + 1, cy + 1) {
        n += 1;
    }
    n
}

// ----------------------------------------------------------------------------
// Column heights and the deep-well bonus
// ----------------------------------------------------------------------------

/// The height of column `x` counted from row `y` down: 24 minus the row of
/// the topmost block at or below `y`, or 0 when there is none.
pub open spec fn top_from(g: Seq<Seq<Option<BlockType>>>, x: int, y: int) -> int
    decreases INTERNAL_HEIGHT - y,
{
    if y >= INTERNAL_HEIGHT || y < 0 {
        0
    } else if g[y][x] is Some {
        INTERNAL_HEIGHT - y
    } else {
        top_from(g, x, y + 1)
    }
}

/// The height of column `x`: 24 minus the row of its topmost block, 0 when empty.
pub open spec fn column_height(g: Seq<Seq<Option<BlockType>>>, x: int) -> int {
    top_from(g, x, 0)
}

proof fn lemma_top_from_range(g: Seq<Seq<Option<BlockType>>>, x: int, y: int)
    requires
        0 <= y,
    ensures
        0 <= top_from(g, x, y) <= INTERNAL_HEIGHT - y || top_from(g, x, y) == 0,
        0 <= top_from(g, x, y) <= INTERNAL_HEIGHT,
    decreases INTERNAL_HEIGHT - y,
{
    if y < INTERNAL_HEIGHT && !(g[y][x] is Some) {
        lemma_top_from_range(g, x, y + 1);
    }
}

/// The height beside column `x`: the walls count as full height.
pub open spec fn side_height(g: Seq<Seq<Option<BlockType>>>, x: int) -> int {
    if x < 0 || x >= BOARD_WIDTH {
        INTERNAL_HEIGHT as int
    } else {
        column_height(g, x)
    }
}

/// How far column `x` lies below the lower of its two neighbours.
pub open spec fn well_depth(g: Seq<Seq<Option<BlockType>>>, x: int) -> int {
    let left = side_height(g, x - 1);
    let right = side_height(g, x + 1);
    (if left < right { left } else { right }) - column_height(g, x)
}

/// Column `x` is a well: three or more cells below both neighbours.
pub open spec fn is_well(g: Seq<Seq<Option<BlockType>>>, x: int) -> bool {
    well_depth(g, x) >= 3
}

/// The well columns among `0..n`, in increasing order.
pub open spec fn wells_below(g: Seq<Seq<Option<BlockType>>>, n: int) -> Seq<int>
    decreases n,
{
    if n <= 0 {
        Seq::empty()
    } else if is_well(g, n - 1) {
        wells_below(g, n - 1).push(n - 1)
    } else {
        wells_below(g, n - 1)
    }
}

/// Column `x` has a hole: an empty cell below some block.
pub open spec fn has_hole(g: Seq<Seq<Option<BlockType>>>, x: int) -> bool {
    exists|y1: int, y2: int|
        0 <= y1 < y2 < INTERNAL_HEIGHT && #[trigger] g[y1][x] is Some && #[trigger] g[y2][x] is None
}

/// The base score of a well in column `x`.
pub open spec fn well_base_score(x: int) -> int {
    if x == 6 {
        WELL_BASE_SCORE_TARGET as int
    } else if 1 <= x <= 8 {
        WELL_BASE_SCORE_MIDDLE as int
    } else {
        WELL_BASE_SCORE_EDGE as int
    }
}

/// The deep-well bonus: when exactly one column is a well and no other column
/// has a hole, the well's base score, tripled when it is four or more deep.
pub open spec fn well_bonus(g: Seq<Seq<Option<BlockType>>>) -> int {
    let wells = wells_below(g, BOARD_WIDTH as int);
    if wells.len() != 1 {
        0
    } else {
        let w = wells[0];
        if exists|x: int| 0 <= x < BOARD_WIDTH && x != w && #[trigger] has_hole(g, x) {
            0
        } else if well_depth(g, w) == 3 {
            well_base_score(w)
        } else if well_depth(g, w) >= 4 {
            3 * well_base_score(w)
        } else {
            0
        }
    }
}

proof fn lemma_wells_below(g: Seq<Seq<Option<BlockType>>>, n: int)
    requires
        0 <= n,
    ensures
        wells_below(g, n).len() <= n,
        forall|i: int|
            0 <= i < wells_below(g, n).len() ==> 0 <= #[trigger] wells_below(g, n)[i] < n && is_well(
                g,
                wells_below(g, n)[i],
            ),
    decreases n,
{
    if n > 0 {
        lemma_wells_below(g, n - 1);
    }
}

/// The column height, computed by scanning from the top.
pub(crate) fn compute_column_height(board: &Board, x: usize) -> (h: i32)
    requires
        x < BOARD_WIDTH,
    ensures
        h as int == column_height(grid_of(*board), x as int),
        0 <= h <= INTERNAL_HEIGHT,
{
    proof {
        lemma_grid_of_shaped(*board);
    }
    let ghost g = grid_of(*board);
    let mut y: usize = 0;
    while y < INTERNAL_HEIGHT
        invariant
            y <= INTERNAL_HEIGHT,
            x < BOARD_WIDTH,
            g == grid_of(*board),
            forall|yy: int, xx: int|
                0 <= yy < INTERNAL_HEIGHT && 0 <= xx < BOARD_WIDTH ==> #[trigger] g[yy][xx] == board[yy][xx],
            column_height(g, x as int) == top_from(g, x as int, y as int),
        decreases INTERNAL_HEIGHT - y,
    {
        if board[y][x].is_some() {
            return (INTERNAL_HEIGHT - y) as i32;
        }
        y += 1;
    }
    0
}

/// Tells whether column `x` has an empty cell below a block.
pub(crate) fn column_has_hole(board: &Board, x: usize) -> (r: bool)
    requires
        x < BOARD_WIDTH,
    ensures
        r == has_hole(grid_of(*board), x as int),
{
    proof {
        lemma_grid_of_shaped(*board);
    }
    let ghost g = grid_of(*board);
    let mut block_found = false;
    let mut y: usize = 0;
    while y < INTERNAL_HEIGHT
        invariant
            y <= INTERNAL_HEIGHT,
            x < BOARD_WIDTH,
            g == grid_of(*board),
            forall|yy: int, xx: int|
                0 <= yy < INTERNAL_HEIGHT && 0 <= xx < BOARD_WIDTH ==> #[trigger] g[yy][xx] == board[yy][xx],
            block_found == exists|y1: int| 0 <= y1 < y && #[trigger] g[y1][x as int] is Some,
            !exists|y1: int, y2: int|
                0 <= y1 < y2 < y && #[trigger] g[y1][x as int] is Some && #[trigger] g[y2][x as int] is None,
        decreases INTERNAL_HEIGHT - y,
    {
        if board[y][x].is_some() {
            block_found = true;
        } else if block_found {
            let ghost y1 = choose|y1: int| 0 <= y1 < y && #[trigger] g[y1][x as int] is Some;
            assert(g[y as int][x as int] is None);
            return true;
        }
        y += 1;
    }
    false
}

/// The deep-well bonus of `board`: see `well_bonus`.
pub fn get_well_bonus(board: &Board) -> (bonus: u32)
    ensures
        bonus as int == well_bonus(grid_of(*board)),
        bonus <= 3 * WELL_BASE_SCORE_TARGET,
{
    let ghost g = grid_of(*board);
    let mut heights: [i32; BOARD_WIDTH] = [0; BOARD_WIDTH];
    let mut x: usize = 0;
    while x < BOARD_WIDTH
        invariant
            x <= BOARD_WIDTH,
            g == grid_of(*board),
            forall|k: int| 0 <= k < x ==> #[trigger] heights[k] as int == column_height(g, k),
            forall|k: int| 0 <= k < x ==> 0 <= #[trigger] heights[k] <= INTERNAL_HEIGHT,
        decreases BOARD_WIDTH - x,
    {
        heights[x] = compute_column_height(board, x);
        x += 1;
    }
    let mut well_columns: Vec<(usize, i32)> = Vec::new();
    let mut x: usize = 0;
    while x < BOARD_WIDTH
        invariant
            x <= BOARD_WIDTH,
            g == grid_of(*board),
            forall|k: int| 0 <= k < BOARD_WIDTH ==> #[trigger] heights[k] as int == column_height(g, k),
            forall|k: int| 0 <= k < BOARD_WIDTH ==> 0 <= #[trigger] heights[k] <= INTERNAL_HEIGHT,
            well_columns@.len() == wells_below(g, x as int).len(),
            forall|i: int|
                0 <= i < well_columns@.len() ==> #[trigger] well_columns@[i].0 as int == wells_below(
                    g,
                    x as int,
                )[i] && well_columns@[i].1 as int == well_depth(g, well_columns@[i].0 as int),
        decreases BOARD_WIDTH - x,
    {
        let left = if x == 0 { INTERNAL_HEIGHT as i32 } else { heights[x - 1] };
        let right = if x == BOARD_WIDTH - 1 { INTERNAL_HEIGHT as i32 } else { heights[x + 1] };
        let h = heights[x];
        let diff = if left < right { left } else { right } - h;
        assert(diff as int == well_depth(g, x as int));
        if diff >= 3 {
            well_columns.push((x, diff));
        }
        x += 1;
    }
    proof {
        lemma_wells_below(g, BOARD_WIDTH as int);
    }
    if well_columns.len() == 1 {
        let well_x = well_columns[0].0;
        let mut x: usize = 0;
        while x < BOARD_WIDTH
            invariant
                x <= BOARD_WIDTH,
                g == grid_of(*board),
                well_x < BOARD_WIDTH,
                wells_below(g, BOARD_WIDTH as int).len() == 1,
                well_x as int == wells_below(g, BOARD_WIDTH as int)[0],
                forall|k: int| 0 <= k < x && k != well_x ==> !#[trigger] has_hole(g, k),
            decreases BOARD_WIDTH - x,
        {
            if x != well_x {
                if column_has_hole(board, x) {
                    return 0;
                }
            }
            x += 1;
        }
        let depth = well_columns[0].1;
        let base_score = if well_x == 6 {
            WELL_BASE_SCORE_TARGET
        } else if well_x >= 1 && well_x <= 8 {
            WELL_BASE_SCORE_MIDDLE
        } else {
            WELL_BASE_SCORE_EDGE
        };
        if depth == 3 {
            base_score
        } else if depth >= 4 {
            base_score * 3
        } else {
            0
        }
    } else {
        0
    }
}

// ----------------------------------------------------------------------------
// T-slots
// ----------------------------------------------------------------------------

/// For T orientation `o` (0: up, 1: right, 2: down, 3: left) around `(cx, cy)`:
/// the three cells the T would fill besides its centre are open and the cell
/// behind its flat side is filled.
pub open spec fn t_orientation_fits(g: Seq<Seq<Option<BlockType>>>, cx: int, cy: int, o: int) -> bool {
    if o == 0 {
        open_cell(g, cx - 1, cy) && open_cell(g, cx + 1, cy) && open_cell(g, cx, cy - 1) && filled(g, cx, cy + 1)
    } else if o == 1 {
        open_cell(g, cx, cy - 1) && open_cell(g, cx, cy + 1) && open_cell(g, cx + 1, cy) && filled(g, cx - 1, cy)
    } else if o == 2 {
        open_cell(g, cx - 1, cy) && open_cell(g, cx + 1, cy) && open_cell(g, cx, cy + 1) && filled(g, cx, cy - 1)
    } else {
        open_cell(g, cx, cy - 1) && open_cell(g, cx, cy + 1) && open_cell(g, cx - 1, cy) && filled(g, cx + 1, cy)
    }
}

/// `(cx, cy)` is a T-slot: its centre is empty, at least three corners are
/// filled and some orientation of a T fits there.
pub open spec fn is_t_slot(g: Seq<Seq<Option<BlockType>>>, cx: int, cy: int) -> bool {
    &&& g[cy][cx] is None
    &&& corner_count(g, cx, cy) >= 3
    &&& (t_orientation_fits(g, cx, cy, 0) || t_orientation_fits(g, cx, cy, 1) || t_orientation_fits(
        g,
        cx,
        cy,
        2,
    ) || t_orientation_fits(g, cx, cy, 3))
}

/// T-slots in row `cy` among the inner columns `1..n`.
pub open spec fn t_slots_in_row(g: Seq<Seq<Option<BlockType>>>, cy: int, n: int) -> int
    decreases n,
{
    if n <= 1 {
        0
    } else {
        t_slots_in_row(g, cy, n - 1) + if is_t_slot(g, n - 1, cy) { 1int } else { 0int }
    }
}

/// T-slots in the inner rows `1..m` and inner columns `1..9`.
pub open spec fn t_slots_in_rows(g: Seq<Seq<Option<BlockType>>>, m: int) -> int
    decreases m,
{
    if m <= 1 {
        0
    } else {
        t_slots_in_rows(g, m - 1) + t_slots_in_row(g, m - 1, BOARD_WIDTH - 1)
    }
}

/// The number of T-slots of the board: cells off the outer ring that are T-slots.
pub open spec fn t_slot_count(g: Seq<Seq<Option<BlockType>>>) -> int {
    t_slots_in_rows(g, INTERNAL_HEIGHT - 1)
}

proof fn lemma_t_slots_in_row_bound(g: Seq<Seq<Option<BlockType>>>, cy: int, n: int)
    ensures
        0 <= t_slots_in_row(g, cy, n) <= if n <= 1 { 0 } else { n - 1 },
    decreases n,
{
    if n > 1 {
        lemma_t_slots_in_row_bound(g, cy, n - 1);
    }
}

proof fn lemma_t_slots_in_rows_bound(g: Seq<Seq<Option<BlockType>>>, m: int)
    ensures
        0 <= t_slots_in_rows(g, m) <= if m <= 1 { 0 } else { (m - 1) * (BOARD_WIDTH - 2) },
    decreases m,
{
    if m > 1 {
        lemma_t_slots_in_rows_bound(g, m - 1);
        lemma_t_slots_in_row_bound(g, m - 1, BOARD_WIDTH - 1);
    }
}

fn is_open(board: &Board, x: i32, y: i32) -> (r: bool)
    ensures
        r == open_cell(grid_of(*board), x as int, y as int),
{
    proof {
        lemma_grid_of_shaped(*board);
    }
    if x < 0 || x >= BOARD_WIDTH as i32 || y < 0 || y >= INTERNAL_HEIGHT as i32 {
        false
    } else {
        board[y as usize][x as usize].is_none()
    }
}

fn orientation_fits(board: &Board, cx: i32, cy: i32, o: usize) -> (r: bool)
    requires
        1 <= cx <= 8,
        1 <= cy <= 22,
    ensures
        r == t_orientation_fits(grid_of(*board), cx as int, cy as int, o as int),
{
    if o == 0 {
        is_open(board, cx - 1, cy) && is_open(board, cx + 1, cy) && is_open(board, cx, cy - 1)
            && is_filled(board, cx, cy + 1)
    } else if o == 1 {
        is_open(board, cx, cy - 1) && is_open(board, cx, cy + 1) && is_open(board, cx + 1, cy)
            && is_filled(board, cx - 1, cy)
    } else if o == 2 {
        is_open(board, cx - 1, cy) && is_open(board, cx + 1, cy) && is_open(board, cx, cy + 1)
            && is_filled(board, cx, cy - 1)
    } else {
        is_open(board, cx, cy - 1) && is_open(board, cx, cy + 1) && is_open(board, cx - 1, cy)
            && is_filled(board, cx + 1, cy)
    }
}

/// `m` is the left-right mirror image of `g`: every row read backwards.
pub open spec fn mirrored_grid(m: Seq<Seq<Option<BlockType>>>, g: Seq<Seq<Option<BlockType>>>) -> bool {
    forall|y: int, x: int|
        0 <= y < INTERNAL_HEIGHT && 0 <= x < BOARD_WIDTH ==> #[trigger] m[y][x] == g[y][BOARD_WIDTH - 1 - x]
}

proof fn lemma_mirror_cell(m: Seq<Seq<Option<BlockType>>>, g: Seq<Seq<Option<BlockType>>>, x: int, y: int)
    requires
        mirrored_grid(m, g),
    ensures
        filled(m, x, y) == filled(g, BOARD_WIDTH - 1 - x, y),
        open_cell(m, x, y) == open_cell(g, BOARD_WIDTH - 1 - x, y),
{
    if 0 <= x < BOARD_WIDTH && 0 <= y < INTERNAL_HEIGHT {
        assert(m[y][x] == g[y][BOARD_WIDTH - 1 - x]);
    }
}

proof fn lemma_mirror_t_slot(m: Seq<Seq<Option<BlockType>>>, g: Seq<Seq<Option<BlockType>>>, cx: int, cy: int)
    requires
        mirrored_grid(m, g),
        1 <= cx < BOARD_WIDTH - 1,
        1 <= cy < INTERNAL_HEIGHT - 1,
    ensures
        is_t_slot(m, cx, cy) == is_t_slot(g, BOARD_WIDTH - 1 - cx, cy),
{
    let w = BOARD_WIDTH - 1;
    assert(m[cy][cx] == g[cy][w - cx]);
    lemma_mirror_cell(m, g, cx - 1, cy - 1);
    lemma_mirror_cell(m, g, cx, cy - 1);
    lemma_mirror_cell(m, g, cx + 1, cy - 1);
    lemma_mirror_cell(m, g, cx - 1, cy);
    lemma_mirror_cell(m, g, cx + 1, cy);
    lemma_mirror_cell(m, g, cx - 1, cy + 1);
    lemma_mirror_cell(m, g, cx, cy + 1);
    lemma_mirror_cell(m, g, cx + 1, cy + 1);
    assert(t_orientation_fits(m, cx, cy, 0) == t_orientation_fits(g, w - cx, cy, 0));
    assert(t_orientation_fits(m, cx, cy, 2) == t_orientation_fits(g, w - cx, cy, 2));
    assert(t_orientation_fits(m, cx, cy, 1) == t_orientation_fits(g, w - cx, cy, 3));
    assert(t_orientation_fits(m, cx, cy, 3) == t_orientation_fits(g, w - cx, cy, 1));
}

proof fn lemma_mirror_rows(m: Seq<Seq<Option<BlockType>>>, g: Seq<Seq<Option<BlockType>>>, k: int)
    requires
        mirrored_grid(m, g),
        k <= INTERNAL_HEIGHT - 1,
    ensures
        t_slots_in_rows(m, k) == t_slots_in_rows(g, k),
    decreases k,
{
    if k > 1 {
        lemma_mirror_rows(m, g, k - 1);
        let cy = k - 1;
        assert forall|c: int| 1 <= c < BOARD_WIDTH - 1 implies #[trigger] is_t_slot(m, c, cy) == is_t_slot(
            g,
            BOARD_WIDTH - 1 - c,
            cy,
        ) by {
            lemma_mirror_t_slot(m, g, c, cy);
        }
        assert(is_t_slot(m, 1, cy) == is_t_slot(g, 8, cy));
        assert(is_t_slot(m, 2, cy) == is_t_slot(g, 7, cy));
        assert(is_t_slot(m, 3, cy) == is_t_slot(g, 6, cy));
        assert(is_t_slot(m, 4, cy) == is_t_slot(g, 5, cy));
        assert(is_t_slot(m, 5, cy) == is_t_slot(g, 4, cy));
        assert(is_t_slot(m, 6, cy) == is_t_slot(g, 3, cy));
        assert(is_t_slot(m, 7, cy) == is_t_slot(g, 2, cy));
        assert(is_t_slot(m, 8, cy) == is_t_slot(g, 1, cy));
        reveal_with_fuel(t_slots_in_row, 10);
    }
}

/// Law: a board and its left-right mirror image have the same number of
/// T-slots (a slot at column `x` mirrors to a slot at column `9 - x`, its
/// corners swapping sides and its left- and right-facing T's trading places).
pub proof fn law_t_slots_mirror(b: Board, mb: Board)
    requires
        forall|y: int, x: int|
            0 <= y < INTERNAL_HEIGHT && 0 <= x < BOARD_WIDTH ==> #[trigger] mb[y][x] == b[y][BOARD_WIDTH - 1 - x],
    ensures
        t_slot_count(grid_of(mb)) == t_slot_count(grid_of(b)),
{
    lemma_grid_of_shaped(b);
    lemma_grid_of_shaped(mb);
    assert(mirrored_grid(grid_of(mb), grid_of(b))) by {
        assert forall|y: int, x: int| 0 <= y < INTERNAL_HEIGHT && 0 <= x < BOARD_WIDTH implies #[trigger] grid_of(
            mb,
        )[y][x] == grid_of(b)[y][BOARD_WIDTH - 1 - x] by {
            assert(mb[y][x] == b[y][BOARD_WIDTH - 1 - x]);
        }
    }
    lemma_mirror_rows(grid_of(mb), grid_of(b), INTERNAL_HEIGHT - 1);
}

proof fn lemma_single_well(g: Seq<Seq<Option<BlockType>>>, w: int, n: int)
    requires
        0 <= w < BOARD_WIDTH,
        is_well(g, w),
        forall|x: int| 0 <= x < BOARD_WIDTH && x != w ==> !is_well(g, x),
        0 <= n <= BOARD_WIDTH,
    ensures
        wells_below(g, n) == if w < n { seq![w] } else { Seq::<int>::empty() },
    decreases n,
{
    if n > 0 {
        lemma_single_well(g, w, n - 1);
        if w < n - 1 {
        } else if w == n - 1 {
            assert(Seq::<int>::empty().push(w) =~= seq![w]);
        }
    }
}

/// Law (deep-well bonus): when column `w` is the only well of the board and
/// no other column has a hole, a well three deep scores the column's base
/// score (500 in column 6, 320 in columns 1 to 8, 10 at the walls), and a
/// well four or more deep scores three times that, however deep it is.
pub proof fn law_deep_well_bonus(g: Seq<Seq<Option<BlockType>>>, w: int)
    requires
        0 <= w < BOARD_WIDTH,
        well_depth(g, w) >= 3,
        forall|x: int| 0 <= x < BOARD_WIDTH && x != w ==> !is_well(g, x) && !has_hole(g, x),
    ensures
        ({
            let base = if w == 6 {
                WELL_BASE_SCORE_TARGET as int
            } else if 1 <= w <= 8 {
                WELL_BASE_SCORE_MIDDLE as int
            } else {
                WELL_BASE_SCORE_EDGE as int
            };
            &&& well_depth(g, w) == 3 ==> well_bonus(g) == base
            &&& well_depth(g, w) >= 4 ==> well_bonus(g) == 3 * base
        }),
        WELL_BASE_SCORE_TARGET == 500 && WELL_BASE_SCORE_MIDDLE == 320 && WELL_BASE_SCORE_EDGE == 10,
{
    lemma_single_well(g, w, BOARD_WIDTH as int);
    assert(wells_below(g, BOARD_WIDTH as int)[0] == w);
}

proof fn lemma_two_wells(g: Seq<Seq<Option<BlockType>>>, w1: int, w2: int, n: int)
    requires
        0 <= w1 < w2 < n <= BOARD_WIDTH,
        is_well(g, w1),
        is_well(g, w2),
    ensures
        wells_below(g, n).len() >= 2,
    decreases n,
{
    lemma_wells_below(g, n - 1);
    if w2 < n - 1 {
        lemma_two_wells(g, w1, w2, n - 1);
    } else {
        lemma_well_counted(g, w1, n - 1);
    }
}

proof fn lemma_well_counted(g: Seq<Seq<Option<BlockType>>>, w: int, n: int)
    requires
        0 <= w < n <= BOARD_WIDTH,
        is_well(g, w),
    ensures
        wells_below(g, n).len() >= 1,
    decreases n,
{
    lemma_wells_below(g, n - 1);
    if w < n - 1 {
        lemma_well_counted(g, w, n - 1);
    }
}

/// Law (no bonus without a single clean well): a board with no well, with
/// two or more wells, or whose one well comes with a hole in another column
/// gets no deep-well bonus.
pub proof fn law_no_well_bonus(g: Seq<Seq<Option<BlockType>>>)
    ensures
        (forall|x: int| 0 <= x < BOARD_WIDTH ==> !is_well(g, x)) ==> well_bonus(g) == 0,
        (exists|w1: int, w2: int| 0 <= w1 < w2 < BOARD_WIDTH && is_well(g, w1) && is_well(g, w2)) ==> well_bonus(g)
            == 0,
        (exists|w: int, x: int|
            0 <= w < BOARD_WIDTH && 0 <= x < BOARD_WIDTH && x != w && is_well(g, w) && has_hole(g, x))
            ==> well_bonus(g) == 0,
{
    lemma_wells_below(g, BOARD_WIDTH as int);
    let ws = wells_below(g, BOARD_WIDTH as int);
    if forall|x: int| 0 <= x < BOARD_WIDTH ==> !is_well(g, x) {
        if ws.len() > 0 {
            assert(is_well(g, ws[0]));
        }
    }
    if exists|w1: int, w2: int| 0 <= w1 < w2 < BOARD_WIDTH && is_well(g, w1) && is_well(g, w2) {
        let (w1, w2) = choose|w1: int, w2: int| 0 <= w1 < w2 < BOARD_WIDTH && is_well(g, w1) && is_well(g, w2);
        lemma_two_wells(g, w1, w2, BOARD_WIDTH as int);
    }
    if exists|w: int, x: int| 0 <= w < BOARD_WIDTH && 0 <= x < BOARD_WIDTH && x != w && is_well(g, w) && has_hole(g, x) {
        let (w, x) = choose|w: int, x: int|
            0 <= w < BOARD_WIDTH && 0 <= x < BOARD_WIDTH && x != w && is_well(g, w) && has_hole(g, x);
        if ws.len() == 1 {
            lemma_single_index(g, w);
            assert(ws[0] == w);
        }
    }
}

proof fn lemma_single_index(g: Seq<Seq<Option<BlockType>>>, w: int)
    requires
        0 <= w < BOARD_WIDTH,
        is_well(g, w),
        wells_below(g, BOARD_WIDTH as int).len() == 1,
    ensures
        wells_below(g, BOARD_WIDTH as int)[0] == w,
{
    lemma_well_in_list(g, w, BOARD_WIDTH as int);
}

proof fn lemma_well_in_list(g: Seq<Seq<Option<BlockType>>>, w: int, n: int)
    requires
        0 <= w < n <= BOARD_WIDTH,
        is_well(g, w),
    ensures
        wells_below(g, n).contains(w),
    decreases n,
{
    if w < n - 1 {
        lemma_well_in_list(g, w, n - 1);
        if is_well(g, n - 1) {
            let i = choose|i: int| 0 <= i < wells_below(g, n - 1).len() && #[trigger] wells_below(g, n - 1)[i] == w;
            assert(wells_below(g, n)[i] == w);
        }
    } else {
        assert(wells_below(g, n)[wells_below(g, n).len() - 1] == w);
    }
}

/// Law (T-slot corners): a T-slot has at least three of the four cells
/// diagonal to its centre filled, walls and floor counting as filled.
pub proof fn law_t_slot_needs_three_corners(g: Seq<Seq<Option<BlockType>>>, cx: int, cy: int)
    requires
        is_t_slot(g, cx, cy),
    ensures
        ({
            let a = filled(g, cx - 1, cy - 1);
            let b = filled(g, cx + 1, cy - 1);
            let c = filled(g, cx - 1, cy + 1);
            let d = filled(g, cx + 1, cy + 1);
            (a && b && c) || (a && b && d) || (a && c && d) || (b && c && d)
        }),
{
}

proof fn lemma_one_row_rows(g: Seq<Seq<Option<BlockType>>>, r: int, m: int)
    requires
        forall|y: int, x: int| 0 <= y < INTERNAL_HEIGHT && 0 <= x < BOARD_WIDTH && #[trigger] g[y][x] is Some ==> y == r,
        m <= INTERNAL_HEIGHT - 1,
    ensures
        t_slots_in_rows(g, m) == 0,
    decreases m,
{
    if m > 1 {
        lemma_one_row_rows(g, r, m - 1);
        lemma_one_row_row(g, r, m - 1, BOARD_WIDTH - 1);
    }
}

proof fn lemma_one_row_row(g: Seq<Seq<Option<BlockType>>>, r: int, cy: int, n: int)
    requires
        forall|y: int, x: int| 0 <= y < INTERNAL_HEIGHT && 0 <= x < BOARD_WIDTH && #[trigger] g[y][x] is Some ==> y == r,
        1 <= cy < INTERNAL_HEIGHT - 1,
        n <= BOARD_WIDTH - 1,
    ensures
        t_slots_in_row(g, cy, n) == 0,
    decreases n,
{
    if n > 1 {
        lemma_one_row_row(g, r, cy, n - 1);
        let cx = n - 1;
        if is_t_slot(g, cx, cy) {
            law_t_slot_needs_three_corners(g, cx, cy);
            assert(filled(g, cx - 1, cy - 1) ==> cy - 1 == r);
            assert(filled(g, cx + 1, cy - 1) ==> cy - 1 == r);
            assert(filled(g, cx - 1, cy + 1) ==> cy + 1 == r);
            assert(filled(g, cx + 1, cy + 1) ==> cy + 1 == r);
        }
    }
}

/// Law (no T-slot without a roof and a floor): a board whose blocks all lie
/// in one row has no T-slot, since no cell then has three filled diagonal
/// neighbours.
pub proof fn law_one_row_has_no_t_slot(b: Board, r: int)
    requires
        forall|y: int, x: int| 0 <= y < INTERNAL_HEIGHT && 0 <= x < BOARD_WIDTH && #[trigger] b[y][x] is Some ==> y == r,
    ensures
        t_slot_count(grid_of(b)) == 0,
{
    lemma_grid_of_shaped(b);
    let g = grid_of(b);
    assert forall|y: int, x: int| 0 <= y < INTERNAL_HEIGHT && 0 <= x < BOARD_WIDTH && #[trigger] g[y][x] is Some implies y == r by {
        assert(g[y][x] == b[y][x]);
    }
    lemma_one_row_rows(g, r, INTERNAL_HEIGHT - 1);
}

/// Counts the T-slots of the board: see `t_slot_count`.
pub fn count_t_slots(board: &Board) -> (count: usize)
    ensures
        count as int == t_slot_count(grid_of(*board)),
{
    proof {
        lemma_grid_of_shaped(*board);
    }
    let ghost g = grid_of(*board);
    let mut count: usize = 0;
    let mut cy: usize = 1;
    while cy < INTERNAL_HEIGHT - 1
        invariant
            1 <= cy <= INTERNAL_HEIGHT - 1,
            g == grid_of(*board),
            count as int == t_slots_in_rows(g, cy as int),
            count <= (cy - 1) * 8,
        decreases INTERNAL_HEIGHT - cy,
    {
        let mut cx: usize = 1;
        let ghost base = count;
        while cx < BOARD_WIDTH - 1
            invariant
                1 <= cx <= BOARD_WIDTH - 1,
                1 <= cy < INTERNAL_HEIGHT - 1,
                g == grid_of(*board),
                base == t_slots_in_rows(g, cy as int),
                base <= (cy - 1) * 8,
                count as int == base + t_slots_in_row(g, cy as int, cx as int),
                count <= base + cx - 1,
            decreases BOARD_WIDTH - cx,
        {
            proof {
                lemma_t_slots_in_row_bound(g, cy as int, cx as int);
            }
            let cxi = cx as i32;
            let cyi = cy as i32;
            if board[cy][cx].is_none() {
                let corners = count_corners(board, cxi, cyi);
                if corners >= 3 {
                    let mut found = false;
                    let mut o: usize = 0;
                    while o < 4
                        invariant
                            o <= 4,
                            1 <= cxi <= 8,
                            1 <= cyi <= 22,
                            found == (exists|k: int|
                                0 <= k < o && #[trigger] t_orientation_fits(g, cxi as int, cyi as int, k)),
                            g == grid_of(*board),
                        decreases 4 - o,
                    {
                        if orientation_fits(board, cxi, cyi, o) {
                            found = true;
                        }
                        o += 1;
                    }
                    if found {
                        proof {
                            let k = choose|k: int|
                                0 <= k < 4 && #[trigger] t_orientation_fits(g, cxi as int, cyi as int, k);
                            assert(k == 0 || k == 1 || k == 2 || k == 3);
                        }
                        count += 1;
                    } else {
                        assert(!t_orientation_fits(g, cx as int, cy as int, 0));
                        assert(!t_orientation_fits(g, cx as int, cy as int, 1));
                        assert(!t_orientation_fits(g, cx as int, cy as int, 2));
                        assert(!t_orientation_fits(g, cx as int, cy as int, 3));
                    }
                }
            }
            cx += 1;
        }
        cy += 1;
    }
    count
}

// ----------------------------------------------------------------------------
// Shape checks for a candidate board
// ----------------------------------------------------------------------------

/// One of the columns 3 to 6 (the fourth to seventh) has a hole.
pub open spec fn has_target_hole(g: Seq<Seq<Option<BlockType>>>) -> bool {
    exists|x: int| 3 <= x <= 6 && #[trigger] has_hole(g, x)
}

/// Tells whether one of the columns 3 to 6 has a hole: see `has_target_hole`.
pub fn find_target_hole(board: &Board) -> (r: bool)
    ensures
        r == has_target_hole(grid_of(*board)),
{
    let mut x: usize = 3;
    while x <= 6
        invariant
            3 <= x <= 7,
            forall|k: int| 3 <= k < x ==> !#[trigger] has_hole(grid_of(*board), k),
        decreases 7 - x,
    {
        if column_has_hole(board, x) {
            return true;
        }
        x += 1;
    }
    false
}

/// The number of well columns: three or more cells below both neighbours,
/// the walls counting as full height.
pub open spec fn deep_well_count(g: Seq<Seq<Option<BlockType>>>) -> int {
    wells_below(g, BOARD_WIDTH as int).len() as int
}

/// Counts the well columns: see `deep_well_count`.
pub fn count_deep_wells(board: &Board) -> (n: usize)
    ensures
        n as int == deep_well_count(grid_of(*board)),
        n <= BOARD_WIDTH,
{
    let ghost g = grid_of(*board);
    let mut heights: [i32; BOARD_WIDTH] = [0; BOARD_WIDTH];
    let mut x: usize = 0;
    while x < BOARD_WIDTH
        invariant
            x <= BOARD_WIDTH,
            g == grid_of(*board),
            forall|k: int| 0 <= k < x ==> #[trigger] heights[k] as int == column_height(g, k),
            forall|k: int| 0 <= k < x ==> 0 <= #[trigger] heights[k] <= INTERNAL_HEIGHT,
        decreases BOARD_WIDTH - x,
    {
        heights[x] = compute_column_height(board, x);
        x += 1;
    }
    let mut count: usize = 0;
    let mut col: usize = 0;
    while col < BOARD_WIDTH
        invariant
            col <= BOARD_WIDTH,
            g == grid_of(*board),
            forall|k: int| 0 <= k < BOARD_WIDTH ==> #[trigger] heights[k] as int == column_height(g, k),
            forall|k: int| 0 <= k < BOARD_WIDTH ==> 0 <= #[trigger] heights[k] <= INTERNAL_HEIGHT,
            count as int == wells_below(g, col as int).len(),
            count <= col,
        decreases BOARD_WIDTH - col,
    {
        let left = if col == 0 {
            INTERNAL_HEIGHT as i32
        } else {
            heights[col - 1]
        };
        let right = if col == BOARD_WIDTH - 1 {
            INTERNAL_HEIGHT as i32
        } else {
            heights[col + 1]
        };
        let h = heights[col];
        let low = if left < right {
            left
        } else {
            right
        };
        assert(low - h == well_depth(g, col as int));
        if low - h >= 3 {
            count += 1;
        }
        col += 1;
    }
    count
}

/// Row `y` of column `x` is an isolated hole: empty, with a block above it
/// and a block (or the floor) below it.
pub open spec fn isolated_hole_at(g: Seq<Seq<Option<BlockType>>>, x: int, y: int) -> bool {
    &&& g[y][x] is None
    &&& g[y - 1][x] is Some
    &&& (y == INTERNAL_HEIGHT - 1 || g[y + 1][x] is Some)
}

/// The isolated holes of column `x` among the rows `1..n`.
pub open spec fn isolated_in_column(g: Seq<Seq<Option<BlockType>>>, x: int, n: int) -> int
    decreases n,
{
    if n <= 1 {
        0
    } else {
        isolated_in_column(g, x, n - 1) + if isolated_hole_at(g, x, n - 1) {
            1int
        } else {
            0int
        }
    }
}

/// The isolated holes of the columns `0..m`.
pub open spec fn isolated_in_columns(g: Seq<Seq<Option<BlockType>>>, m: int) -> int
    decreases m,
{
    if m <= 0 {
        0
    } else {
        isolated_in_columns(g, m - 1) + isolated_in_column(g, m - 1, INTERNAL_HEIGHT as int)
    }
}

/// The number of isolated holes on the board.
pub open spec fn isolated_hole_count(g: Seq<Seq<Option<BlockType>>>) -> int {
    isolated_in_columns(g, BOARD_WIDTH as int)
}

proof fn lemma_isolated_in_column_bound(g: Seq<Seq<Option<BlockType>>>, x: int, n: int)
    ensures
        0 <= isolated_in_column(g, x, n) <= if n < 0 { 0 } else { n },
    decreases n,
{
    if n > 1 {
        lemma_isolated_in_column_bound(g, x, n - 1);
    }
}

proof fn lemma_isolated_in_columns_bound(g: Seq<Seq<Option<BlockType>>>, m: int)
    ensures
        0 <= isolated_in_columns(g, m) <= if m < 0 { 0 } else { m * INTERNAL_HEIGHT },
    decreases m,
{
    if m > 0 {
        lemma_isolated_in_columns_bound(g, m - 1);
        lemma_isolated_in_column_bound(g, m - 1, INTERNAL_HEIGHT as int);
    }
}

/// Counts the isolated holes: see `isolated_hole_count`.
pub fn count_isolated_holes(board: &Board) -> (n: usize)
    ensures
        n as int == isolated_hole_count(grid_of(*board)),
        n <= BOARD_WIDTH * INTERNAL_HEIGHT,
{
    proof {
        lemma_grid_of_shaped(*board);
    }
    let ghost g = grid_of(*board);
    let mut count: usize = 0;
    let mut x: usize = 0;
    while x < BOARD_WIDTH
        invariant
            x <= BOARD_WIDTH,
            g == grid_of(*board),
            forall|yy: int, xx: int|
                0 <= yy < INTERNAL_HEIGHT && 0 <= xx < BOARD_WIDTH ==> #[trigger] g[yy][xx] == board[yy][xx],
            count as int == isolated_in_columns(g, x as int),
        decreases BOARD_WIDTH - x,
    {
        proof {
            lemma_isolated_in_columns_bound(g, x as int);
        }
        let mut y: usize = 1;
        let ghost base = count as int;
        while y < INTERNAL_HEIGHT
            invariant
                1 <= y <= INTERNAL_HEIGHT,
                x < BOARD_WIDTH,
                g == grid_of(*board),
                forall|yy: int, xx: int|
                    0 <= yy < INTERNAL_HEIGHT && 0 <= xx < BOARD_WIDTH ==> #[trigger] g[yy][xx] == board[yy][xx],
                base == isolated_in_columns(g, x as int),
                0 <= base <= x * INTERNAL_HEIGHT,
                count as int == base + isolated_in_column(g, x as int, y as int),
            decreases INTERNAL_HEIGHT - y,
        {
            proof {
                lemma_isolated_in_column_bound(g, x as int, y as int);
            }
            let is_empty = board[y][x].is_none();
            let has_top = board[y - 1][x].is_some();
            let has_bottom = y == INTERNAL_HEIGHT - 1 || board[y + 1][x].is_some();
            if is_empty && has_top && has_bottom {
                count += 1;
            }
            y += 1;
        }
        x += 1;
    }
    proof {
        lemma_isolated_in_columns_bound(g, BOARD_WIDTH as int);
    }
    count
}

/// The height of every column: see `column_height`.
pub fn column_heights(board: &Board) -> (h: [i32; BOARD_WIDTH])
    ensures
        forall|x: int| 0 <= x < BOARD_WIDTH ==> #[trigger] h[x] as int == column_height(grid_of(*board), x),
{
    let mut heights: [i32; BOARD_WIDTH] = [0; BOARD_WIDTH];
    let mut x: usize = 0;
    while x < BOARD_WIDTH
        invariant
            x <= BOARD_WIDTH,
            forall|k: int| 0 <= k < x ==> #[trigger] heights[k] as int == column_height(grid_of(*board), k),
        decreases BOARD_WIDTH - x,
    {
        heights[x] = compute_column_height(board, x);
        x += 1;
    }
    heights
}

} // verus!
