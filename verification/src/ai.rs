use vstd::prelude::*;
use std::collections::VecDeque;
use crate::tetris::{
    BlockType, Board, Game, Piece, BOARD_WIDTH, INTERNAL_HEIGHT, clear_full_rows, cleared_grid,
    first_fitting_kick, grid_of, kick_table, lemma_kicks_small, lemma_valid_bounds,
    lines_cleared_by, spawned, valid_position, place_piece, placed_first, put_block, lemma_grid_of_shaped,
    RotationDirection, rotate_result, is_drop_distance, law_drop_distance_unique, lemma_offsets_small,
    block_free, spawn_x,
};

verus! {

/// Which evaluator scores candidate moves.
#[derive(Debug, Clone, Copy, PartialEq, Eq, Structural)]
pub enum GpuBackendSelection {
    Auto,
    Rocm,
    Vulkan,
    Cpu,
}

/// One input of the game controller.
#[derive(Debug, Clone, Copy, PartialEq, Eq, Structural)]
pub enum MoveAction {
    MoveLeft,
    MoveRight,
    SoftDrop,
    HardDrop,
    RotateCW,
    RotateCCW,
}

/// A position where a piece can come to rest, with the inputs that bring it there.
#[derive(Debug, Clone)]
pub struct LandingInfo {
    pub piece: Piece,
    pub was_rotate: bool,
    pub path: Vec<MoveAction>,
}

/// The board after its full rows are removed, and how many there were.
pub fn simulate_line_clears(board: &Board) -> (r: (Board, usize))
    ensures
        grid_of(r.0) == cleared_grid(grid_of(*board)),
        r.1 as int == lines_cleared_by(grid_of(*board)),
{
    clear_full_rows(board)
}

/// All four cells of the piece lie on the board.
pub open spec fn cells_on_board(p: Piece) -> bool {
    forall|i: int| 0 <= i < 4 ==> 0 <= #[trigger] p.cell(i).0 < BOARD_WIDTH && 0 <= p.cell(i).1 < INTERNAL_HEIGHT
}

/// The board with a landed piece written in, when all four of its cells lie
/// on the board; `None` when one does not.
pub fn place_landing(board: &Board, piece: &Piece) -> (r: Option<Board>)
    requires
        piece.fits(0),
    ensures
        r is Some <==> cells_on_board(*piece),
        r is Some ==> grid_of(r->0) == place_piece(grid_of(*board), *piece),
{
    let bt = piece.block_type;
    let cells = piece.get_cells();
    proof {
        lemma_grid_of_shaped(*board);
    }
    let mut temp = *board;
    let mut locked: usize = 0;
    let mut i: usize = 0;
    while i < 4
        invariant
            i <= 4,
            bt == piece.block_type,
            forall|k: int| 0 <= k < 4 ==> (#[trigger] cells[k].0 as int, cells[k].1 as int) == piece.cell(k),
            grid_of(temp) == placed_first(grid_of(*board), *piece, i as int),
            locked == i <==> forall|k: int|
                0 <= k < i ==> 0 <= #[trigger] piece.cell(k).0 < BOARD_WIDTH && 0 <= piece.cell(k).1 < INTERNAL_HEIGHT,
            locked <= i,
        decreases 4 - i,
    {
        let (cx, cy) = cells[i];
        assert((cells[i as int].0 as int, cells[i as int].1 as int) == piece.cell(i as int));
        let ghost prev = grid_of(temp);
        proof {
            lemma_grid_of_shaped(temp);
        }
        if cx >= 0 && cx < BOARD_WIDTH as i32 && cy >= 0 && cy < INTERNAL_HEIGHT as i32 {
            let ghost old_board = temp;
            temp[cy as usize][cx as usize] = Some(bt);
            locked += 1;
            proof {
                lemma_grid_of_shaped(temp);
                let expected = put_block(prev, cx as int, cy as int, Some(bt));
                assert forall|r: int| 0 <= r < INTERNAL_HEIGHT implies #[trigger] grid_of(temp)[r] =~= expected[r] by {
                    if r != cy {
                        assert(temp[r] == old_board[r]);
                    }
                }
                assert(grid_of(temp) =~= expected);
            }
        }
        i += 1;
    }
    if locked == 4 {
        Some(temp)
    } else {
        None
    }
}

// ----------------------------------------------------------------------------
// Playing a chosen move
// ----------------------------------------------------------------------------

/// The move an AI chose: whether it holds first, where its piece comes to
/// rest, and whether a rotation brought it there.
#[derive(Debug, Clone, Copy)]
pub struct ChosenMove {
    pub use_hold: bool,
    pub final_piece: Piece,
    pub was_rotate: bool,
}

/// The game with its falling piece moved to the chosen position (its type
/// kept) and the chosen rotation flag.
pub open spec fn posed(g: Game, m: ChosenMove) -> Game {
    g.with_piece(
        Piece {
            block_type: g.current_piece.block_type,
            x: m.final_piece.x,
            y: m.final_piece.y,
            rotation: m.final_piece.rotation,
        },
        m.was_rotate,
    )
}

/// What the hold step of a move does: nothing without hold, else what `hold` does.
pub open spec fn hold_step(pre: Game, use_hold: bool, post: Game) -> bool {
    if !use_hold || pre.hold_locked {
        post == pre
    } else {
        Game::hold_outcome(pre, post)
    }
}

/// Playing the chosen move: hold if asked, put the piece in place, lock it.
pub open spec fn played(pre: Game, m: ChosenMove, post: Game) -> bool {
    exists|held: Game| #[trigger] hold_step(pre, m.use_hold, held) && Game::lock_outcome(posed(held, m), post)
}

/// The game's counters leave room for playing `m`, whatever piece a hold
/// brings: the piece posed as `m` says can be locked.
pub open spec fn can_play(g: Game, m: ChosenMove) -> bool {
    forall|held: Game| #[trigger] hold_step(g, m.use_hold, held) ==> posed(held, m).lock_fits()
}

/// The most lines one lock can send: a T-Spin Triple with back-to-back.
pub const MAX_SENT_LINES: u32 = 7;

/// Plays a chosen move on a game: see `played`.
pub fn play_chosen_move(me: &mut Game, m: ChosenMove)
    requires
        can_play(*old(me), m),
    ensures
        played(*old(me), m, *final(me)),
        final(me).last_firepower <= MAX_SENT_LINES,
{
    let ghost pre = *me;
    if m.use_hold {
        me.hold();
    }
    let ghost held = *me;
    assert(hold_step(pre, m.use_hold, held));
    me.current_piece.x = m.final_piece.x;
    me.current_piece.y = m.final_piece.y;
    me.current_piece.rotation = m.final_piece.rotation;
    me.last_action_was_rotate = m.was_rotate;
    assert(*me == posed(held, m));
    me.lock_piece();
}

// ----------------------------------------------------------------------------
// Execution paths
// ----------------------------------------------------------------------------

/// The piece `spawn` turned to `target`'s rotation and moved to `target`'s
/// column, at row `y`.
pub open spec fn aligned_at(spawn: Piece, target: Piece, y: int) -> Piece {
    Piece { block_type: spawn.block_type, x: target.x, y: y as i32, rotation: target.rotation }
}

/// The target can be reached from above: turned and shifted at the spawn
/// row, the piece fits there and in every row down to the target row.
pub open spec fn direct_drop_ok(b: Board, spawn: Piece, target: Piece) -> bool {
    &&& valid_position(b, aligned_at(spawn, target, spawn.y as int))
    &&& forall|y: int| spawn.y <= y <= target.y ==> #[trigger] valid_position(b, aligned_at(spawn, target, y))
}

/// The turns that bring a spawned piece to rotation state `r`.
pub open spec fn rotation_actions(r: usize) -> Seq<MoveAction> {
    if r == 1 {
        seq![MoveAction::RotateCW]
    } else if r == 2 {
        seq![MoveAction::RotateCW, MoveAction::RotateCW]
    } else if r == 3 {
        seq![MoveAction::RotateCCW]
    } else {
        Seq::empty()
    }
}

/// The sideways steps that move a piece by `dx` columns.
pub open spec fn shift_actions(dx: int) -> Seq<MoveAction> {
    if dx < 0 {
        Seq::new((-dx) as nat, |i: int| MoveAction::MoveLeft)
    } else {
        Seq::new(dx as nat, |i: int| MoveAction::MoveRight)
    }
}

/// The shortest direct path: turn, shift, hard drop.
pub open spec fn direct_path(spawn: Piece, target: Piece) -> Seq<MoveAction> {
    rotation_actions(target.rotation) + shift_actions(target.x - spawn.x) + seq![MoveAction::HardDrop]
}

/// A searched path, ended with a hard drop unless it already ends with one.
pub open spec fn finished_path(p: Seq<MoveAction>) -> Seq<MoveAction> {
    if p.len() > 0 && p[p.len() - 1] == MoveAction::HardDrop {
        p
    } else {
        p.push(MoveAction::HardDrop)
    }
}

/// The inputs to play for a landing: the direct path when the target can be
/// reached from above, otherwise the searched path ended by a hard drop.
pub open spec fn execution_path(b: Board, spawn: Piece, target: Piece, bfs_path: Seq<MoveAction>) -> Seq<
    MoveAction,
> {
    if direct_drop_ok(b, spawn, target) {
        direct_path(spawn, target)
    } else {
        finished_path(bfs_path)
    }
}

/// Law: every execution path ends with a hard drop, and a direct path has no soft drop.
pub proof fn law_execution_path_ends_in_hard_drop(
    b: Board,
    spawn: Piece,
    target: Piece,
    bfs_path: Seq<MoveAction>,
)
    ensures
        execution_path(b, spawn, target, bfs_path).len() > 0,
        execution_path(b, spawn, target, bfs_path).last() == MoveAction::HardDrop,
        direct_drop_ok(b, spawn, target) ==> !execution_path(b, spawn, target, bfs_path).contains(
            MoveAction::SoftDrop,
        ),
{
    let p = execution_path(b, spawn, target, bfs_path);
    if direct_drop_ok(b, spawn, target) {
        assert forall|i: int| 0 <= i < p.len() implies p[i] != MoveAction::SoftDrop by {
            let r = rotation_actions(target.rotation);
            let s = shift_actions(target.x - spawn.x);
            if i < r.len() {
                assert(p[i] == r[i]);
            } else if i < r.len() + s.len() {
                assert(p[i] == s[i - r.len()]);
            }
        }
    }
}

/// Plays hard drops where possible: a target that the piece can reach
/// straight from above gets the path turn, shift, hard drop; any other gets
/// the searched path with a hard drop at its end.
pub fn optimize_execution_path(
    game: &Game,
    spawn_piece: &Piece,
    target_piece: &Piece,
    bfs_path: &[MoveAction],
) -> (path: Vec<MoveAction>)
    requires
        spawn_piece.fits(0),
        target_piece.fits(0),
        i32::MIN < target_piece.x - spawn_piece.x <= i32::MAX,
    ensures
        path@ == execution_path(game.board, *spawn_piece, *target_piece, bfs_path@),
{
    let mut direct_valid = true;
    let target_rot = target_piece.rotation;
    let target_x = target_piece.x;
    let target_y = target_piece.y;
    let mut align_piece = Piece {
        block_type: spawn_piece.block_type,
        x: target_x,
        y: spawn_piece.y,
        rotation: target_rot,
    };
    if !game.is_valid_position(&align_piece) {
        direct_valid = false;
    } else {
        let mut y: i32 = spawn_piece.y;
        while direct_valid && y <= target_y
            invariant
                spawn_piece.y <= y,
                y <= target_y + 1 || target_y < spawn_piece.y,
                target_y == target_piece.y,
                target_piece.fits(0),
                spawn_piece.fits(0),
                align_piece.block_type == spawn_piece.block_type,
                align_piece.x == target_piece.x,
                align_piece.rotation == target_piece.rotation,
                valid_position(game.board, aligned_at(*spawn_piece, *target_piece, spawn_piece.y as int)),
                direct_valid ==> forall|yy: int|
                    spawn_piece.y <= yy < y ==> #[trigger] valid_position(
                        game.board,
                        aligned_at(*spawn_piece, *target_piece, yy),
                    ),
                !direct_valid ==> spawn_piece.y <= y <= target_y && !valid_position(
                    game.board,
                    aligned_at(*spawn_piece, *target_piece, y as int),
                ),
            decreases 2 * (target_y + 1 - y) + if direct_valid { 1int } else { 0int },
        {
            align_piece.y = y;
            assert(align_piece == aligned_at(*spawn_piece, *target_piece, y as int));
            if !game.is_valid_position(&align_piece) {
                direct_valid = false;
            } else {
                y += 1;
            }
        }
    }
    assert(direct_valid == direct_drop_ok(game.board, *spawn_piece, *target_piece));
    if direct_valid {
        let mut path: Vec<MoveAction> = Vec::new();
        if target_rot == 1 {
            path.push(MoveAction::RotateCW);
        } else if target_rot == 2 {
            path.push(MoveAction::RotateCW);
            path.push(MoveAction::RotateCW);
        } else if target_rot == 3 {
            path.push(MoveAction::RotateCCW);
        }
        let ghost rot = path@;
        assert(rot =~= rotation_actions(target_rot));
        let dx = target_x - spawn_piece.x;
        if dx < 0 {
            let n = -dx;
            let mut i: i32 = 0;
            while i < n
                invariant
                    0 <= i <= n,
                    n == -dx,
                    path@ == rot + Seq::new(i as nat, |k: int| MoveAction::MoveLeft),
                decreases n - i,
            {
                path.push(MoveAction::MoveLeft);
                assert(rot + Seq::new((i + 1) as nat, |k: int| MoveAction::MoveLeft) =~= (rot + Seq::new(
                    i as nat,
                    |k: int| MoveAction::MoveLeft,
                )).push(MoveAction::MoveLeft));
                i += 1;
            }
        } else if dx > 0 {
            let mut i: i32 = 0;
            while i < dx
                invariant
                    0 <= i <= dx,
                    path@ == rot + Seq::new(i as nat, |k: int| MoveAction::MoveRight),
                decreases dx - i,
            {
                path.push(MoveAction::MoveRight);
                assert(rot + Seq::new((i + 1) as nat, |k: int| MoveAction::MoveRight) =~= (rot + Seq::new(
                    i as nat,
                    |k: int| MoveAction::MoveRight,
                )).push(MoveAction::MoveRight));
                i += 1;
            }
        } else {
            assert(path@ =~= rot + Seq::new(0, |k: int| MoveAction::MoveRight));
        }
        assert(path@ =~= rot + shift_actions(dx as int));
        path.push(MoveAction::HardDrop);
        assert(path@ =~= direct_path(*spawn_piece, *target_piece));
        path
    } else {
        let mut path: Vec<MoveAction> = Vec::new();
        let mut i: usize = 0;
        while i < bfs_path.len()
            invariant
                i <= bfs_path@.len(),
                path@ == bfs_path@.take(i as int),
            decreases bfs_path@.len() - i,
        {
            path.push(bfs_path[i]);
            assert(bfs_path@.take(i as int + 1) =~= bfs_path@.take(i as int).push(bfs_path@[i as int]));
            i += 1;
        }
        assert(bfs_path@.take(bfs_path@.len() as int) =~= bfs_path@);
        let n = path.len();
        if n == 0 || path[n - 1] != MoveAction::HardDrop {
            path.push(MoveAction::HardDrop);
        }
        path
    }
}


// ----------------------------------------------------------------------------
// Reachability search
// ----------------------------------------------------------------------------

/// Visited flags of the search, indexed by row, column + 3 and rotation.
pub type SearchMarks = [[[bool; 4]; 16]; INTERNAL_HEIGHT];

/// The search tracks pieces whose row is on the board, whose column lies in
/// `-3..13` and whose rotation state is one of the four.
pub open spec fn in_search_box(p: Piece) -> bool {
    0 <= p.y < INTERNAL_HEIGHT && -3 <= p.x < 13 && p.rotation < 4
}

/// The piece of type `bt` that the mark at `(yi, xi, ri)` stands for.
pub open spec fn key_piece(bt: BlockType, xi: int, yi: int, ri: int) -> Piece {
    Piece { block_type: bt, x: (xi - 3) as i32, y: yi as i32, rotation: ri as usize }
}

/// The mark of `p` is set.
pub open spec fn marked(v: SearchMarks, p: Piece) -> bool {
    in_search_box(p) && v[p.y as int][p.x + 3][p.rotation as int]
}

/// Every mark set in `v1` is set in `v2`.
pub open spec fn marks_grow(v1: SearchMarks, v2: SearchMarks) -> bool {
    forall|yi: int, xi: int, ri: int|
        0 <= yi < INTERNAL_HEIGHT && 0 <= xi < 16 && 0 <= ri < 4 && #[trigger] v1[yi][xi][ri] ==> v2[yi][xi][ri]
}

/// The marks of `v2` are those of `v1` and the one of `p`.
pub open spec fn marks_add(v1: SearchMarks, v2: SearchMarks, p: Piece) -> bool {
    forall|yi: int, xi: int, ri: int|
        0 <= yi < INTERNAL_HEIGHT && 0 <= xi < 16 && 0 <= ri < 4 ==> #[trigger] v2[yi][xi][ri] == (v1[yi][xi][ri]
            || (yi == p.y && xi == p.x + 3 && ri == p.rotation))
}

pub open spec fn count_row(a: [bool; 4], n: int) -> int
    decreases n,
{
    if n <= 0 {
        0
    } else {
        count_row(a, n - 1) + if a[n - 1] { 1int } else { 0int }
    }
}

pub open spec fn count_plane(p: [[bool; 4]; 16], n: int) -> int
    decreases n,
{
    if n <= 0 {
        0
    } else {
        count_plane(p, n - 1) + count_row(p[n - 1], 4)
    }
}

pub open spec fn count_cube(c: SearchMarks, n: int) -> int
    decreases n,
{
    if n <= 0 {
        0
    } else {
        count_cube(c, n - 1) + count_plane(c[n - 1], 16)
    }
}

/// How many marks are set.
pub open spec fn marks_count(c: SearchMarks) -> int {
    count_cube(c, INTERNAL_HEIGHT as int)
}

proof fn lemma_count_row_bound(a: [bool; 4], n: int)
    requires
        0 <= n,
    ensures
        0 <= count_row(a, n) <= n,
    decreases n,
{
    if n > 0 {
        lemma_count_row_bound(a, n - 1);
    }
}

proof fn lemma_count_plane_bound(p: [[bool; 4]; 16], n: int)
    requires
        0 <= n,
    ensures
        0 <= count_plane(p, n) <= 4 * n,
    decreases n,
{
    if n > 0 {
        lemma_count_plane_bound(p, n - 1);
        lemma_count_row_bound(p[n - 1], 4);
    }
}

proof fn lemma_count_cube_bound(c: SearchMarks, n: int)
    requires
        0 <= n,
    ensures
        0 <= count_cube(c, n) <= 64 * n,
    decreases n,
{
    if n > 0 {
        lemma_count_cube_bound(c, n - 1);
        lemma_count_plane_bound(c[n - 1], 16);
    }
}

proof fn lemma_count_row_add(a: [bool; 4], a2: [bool; 4], r0: int, n: int)
    requires
        0 <= r0 < 4,
        0 <= n <= 4,
        !a[r0],
        a2[r0],
        forall|r: int| 0 <= r < 4 && r != r0 ==> a2[r] == a[r],
    ensures
        count_row(a2, n) == count_row(a, n) + if r0 < n { 1int } else { 0int },
    decreases n,
{
    if n > 0 {
        lemma_count_row_add(a, a2, r0, n - 1);
    }
}

proof fn lemma_count_plane_add(p: [[bool; 4]; 16], p2: [[bool; 4]; 16], x0: int, r0: int, n: int)
    requires
        0 <= x0 < 16,
        0 <= r0 < 4,
        0 <= n <= 16,
        !p[x0][r0],
        p2[x0][r0],
        forall|r: int| 0 <= r < 4 && r != r0 ==> p2[x0][r] == p[x0][r],
        forall|x: int| 0 <= x < 16 && x != x0 ==> p2[x] == p[x],
    ensures
        count_plane(p2, n) == count_plane(p, n) + if x0 < n { 1int } else { 0int },
    decreases n,
{
    if n > 0 {
        lemma_count_plane_add(p, p2, x0, r0, n - 1);
        if n - 1 == x0 {
            lemma_count_row_add(p[x0], p2[x0], r0, 4);
        }
    }
}

proof fn lemma_count_cube_add(c: SearchMarks, c2: SearchMarks, y0: int, x0: int, r0: int, n: int)
    requires
        0 <= y0 < INTERNAL_HEIGHT,
        0 <= x0 < 16,
        0 <= r0 < 4,
        0 <= n <= INTERNAL_HEIGHT,
        !c[y0][x0][r0],
        c2[y0][x0][r0],
        forall|r: int| 0 <= r < 4 && r != r0 ==> c2[y0][x0][r] == c[y0][x0][r],
        forall|x: int| 0 <= x < 16 && x != x0 ==> c2[y0][x] == c[y0][x],
        forall|y: int| 0 <= y < INTERNAL_HEIGHT && y != y0 ==> c2[y] == c[y],
    ensures
        count_cube(c2, n) == count_cube(c, n) + if y0 < n { 1int } else { 0int },
    decreases n,
{
    if n > 0 {
        lemma_count_cube_add(c, c2, y0, x0, r0, n - 1);
        if n - 1 == y0 {
            lemma_count_plane_add(c[y0], c2[y0], x0, r0, 16);
        }
    }
}

proof fn lemma_count_row_zero(a: [bool; 4], n: int)
    requires
        0 <= n <= 4,
        forall|r: int| 0 <= r < 4 ==> !a[r],
    ensures
        count_row(a, n) == 0,
    decreases n,
{
    if n > 0 {
        lemma_count_row_zero(a, n - 1);
    }
}

proof fn lemma_count_plane_zero(p: [[bool; 4]; 16], n: int)
    requires
        0 <= n <= 16,
        forall|x: int, r: int| 0 <= x < 16 && 0 <= r < 4 ==> !p[x][r],
    ensures
        count_plane(p, n) == 0,
    decreases n,
{
    if n > 0 {
        lemma_count_plane_zero(p, n - 1);
        lemma_count_row_zero(p[n - 1], 4);
    }
}

proof fn lemma_count_cube_zero(c: SearchMarks, n: int)
    requires
        0 <= n <= INTERNAL_HEIGHT,
        forall|y: int, x: int, r: int| 0 <= y < INTERNAL_HEIGHT && 0 <= x < 16 && 0 <= r < 4 ==> !c[y][x][r],
    ensures
        count_cube(c, n) == 0,
    decreases n,
{
    if n > 0 {
        lemma_count_cube_zero(c, n - 1);
        lemma_count_plane_zero(c[n - 1], 16);
    }
}

/// Sets the mark of `p`, which lies in the search box and was not marked.
fn set_mark(visited: &mut SearchMarks, p: &Piece)
    requires
        in_search_box(*p),
        !marked(*old(visited), *p),
    ensures
        marks_add(*old(visited), *final(visited), *p),
        marks_count(*final(visited)) == marks_count(*old(visited)) + 1,
{
    let y = p.y as usize;
    let x = (p.x + 3) as usize;
    let r = p.rotation;
    let ghost before = *visited;
    visited[y][x][r] = true;
    proof {
        assert forall|yy: int| 0 <= yy < INTERNAL_HEIGHT && yy != y implies visited[yy] == before[yy] by {}
        assert forall|xx: int| 0 <= xx < 16 && xx != x implies visited[y as int][xx] == before[y as int][xx] by {}
        lemma_count_cube_add(before, *visited, y as int, x as int, r as int, INTERNAL_HEIGHT as int);
    }
}

/// What `try_enqueue_reachable` does to the marks and the queue.
pub open spec fn enqueue_rel(
    b: Board,
    v1: SearchMarks,
    q1: Seq<(Piece, bool, Vec<MoveAction>)>,
    v2: SearchMarks,
    q2: Seq<(Piece, bool, Vec<MoveAction>)>,
    piece: Piece,
    was_rotate: bool,
    path: Vec<MoveAction>,
) -> bool {
    let fresh = valid_position(b, piece) && in_search_box(piece) && !marked(v1, piece);
    &&& fresh ==> marks_add(v1, v2, piece) && marks_count(v2) == marks_count(v1) + 1 && q2 == q1.push(
        (piece, was_rotate, path),
    )
    &&& !fresh ==> v2 == v1 && q2 == q1
    &&& valid_position(b, piece) && in_search_box(piece) ==> marked(v2, piece)
}

/// Queues `piece` with its path when it is a valid position inside the
/// search box that has not been reached before, and marks it.
fn try_enqueue_reachable(
    game: &Game,
    piece: Piece,
    was_rotate: bool,
    path: Vec<MoveAction>,
    visited: &mut SearchMarks,
    queue: &mut VecDeque<(Piece, bool, Vec<MoveAction>)>,
)
    requires
        piece.fits(0),
        piece.rotation < 4,
    ensures
        enqueue_rel(game.board, *old(visited), old(queue)@, *final(visited), final(queue)@, piece, was_rotate, path),
{
    if game.is_valid_position(&piece) {
        if piece.y >= 0 && piece.y < INTERNAL_HEIGHT as i32 && piece.x >= -3 && piece.x < 13 {
            let y_idx = piece.y as usize;
            let x_idx = (piece.x + 3) as usize;
            let rot_idx = piece.rotation;
            if !visited[y_idx][x_idx][rot_idx] {
                set_mark(visited, &piece);
                queue.push_back((piece, was_rotate, path));
            }
        }
    }
}

/// The first kick that fits when `p` turns to state `to`.
pub open spec fn kick_step(b: Board, p: Piece, to: int) -> Option<Piece> {
    first_fitting_kick(b, p.rotated_to(to), kick_table(p.block_type, p.rotation as int, to), 0)
}

/// One input of the search: a step left, right or down, or a turn either
/// way with SRS kicks (not for the O piece), to a valid position in the box.
pub open spec fn search_step(b: Board, p: Piece, q: Piece) -> bool {
    &&& valid_position(b, q)
    &&& in_search_box(q)
    &&& (q == p.shifted(-1, 0) || q == p.shifted(1, 0) || q == p.shifted(0, 1) || (p.block_type
        != BlockType::O && (kick_step(b, p, (p.rotation + 1) % 4) == Some(q) || kick_step(
        b,
        p,
        (p.rotation + 3) % 4,
    ) == Some(q))))
}

/// A sequence of pieces, each reached from the one before by one search step.
pub open spec fn is_search_chain(b: Board, s: Seq<Piece>) -> bool {
    &&& s.len() >= 1
    &&& forall|i: int| 0 <= i < s.len() - 1 ==> #[trigger] search_step(b, s[i], s[i + 1])
}

/// `q` can be reached from `start` by search steps.
pub open spec fn search_reachable(b: Board, start: Piece, q: Piece) -> bool {
    exists|s: Seq<Piece>| is_search_chain(b, s) && s[0] == start && s[s.len() - 1] == q
}

/// The position one input of the search moves `p` to: a step left, right or
/// down, or a turn either way with SRS kicks (not for the O piece), when it
/// lands on a valid position inside the search box; `None` otherwise (and
/// for a hard drop, which ends a path).
pub open spec fn input_step(b: Board, p: Piece, a: MoveAction) -> Option<Piece> {
    let q = match a {
        MoveAction::MoveLeft => Some(p.shifted(-1, 0)),
        MoveAction::MoveRight => Some(p.shifted(1, 0)),
        MoveAction::SoftDrop => Some(p.shifted(0, 1)),
        MoveAction::RotateCW => if p.block_type != BlockType::O {
            kick_step(b, p, (p.rotation + 1) % 4)
        } else {
            None
        },
        MoveAction::RotateCCW => if p.block_type != BlockType::O {
            kick_step(b, p, (p.rotation + 3) % 4)
        } else {
            None
        },
        MoveAction::HardDrop => None,
    };
    match q {
        Some(t) => if valid_position(b, t) && in_search_box(t) {
            Some(t)
        } else {
            None
        },
        None => None,
    }
}

/// Where a sequence of inputs takes `p`, if every input can be made.
pub open spec fn replay(b: Board, p: Piece, path: Seq<MoveAction>) -> Option<Piece>
    decreases path.len(),
{
    if path.len() == 0 {
        Some(p)
    } else {
        match replay(b, p, path.drop_last()) {
            Some(q) => input_step(b, q, path.last()),
            None => None,
        }
    }
}

/// The last input of a path is a turn.
pub open spec fn ends_with_turn(path: Seq<MoveAction>) -> bool {
    path.len() > 0 && (path.last() == MoveAction::RotateCW || path.last() == MoveAction::RotateCCW)
}

/// A queue entry of the search: its path of inputs takes the spawned piece to
/// its position, and its flag tells whether the last input was a turn.
pub open spec fn entry_ok(b: Board, start: Piece, e: (Piece, bool, Vec<MoveAction>)) -> bool {
    replay(b, start, e.2@) == Some(e.0) && e.1 == ends_with_turn(e.2@)
}

/// `p` rests on the stack or the floor: it fits, one row lower it does not.
pub open spec fn is_landing(b: Board, p: Piece) -> bool {
    valid_position(b, p) && !valid_position(b, p.shifted(0, 1))
}

/// What is promised of each landing found for `bt`: its piece is reachable
/// from the spawn position and rests there; its path ends with a hard drop
/// and is the direct path whenever the piece can be dropped from above, else
/// a sequence of search inputs that brings the spawned piece there followed
/// by a hard drop; its flag tells whether the last of those inputs was a turn.
pub open spec fn landing_sound(b: Board, bt: BlockType, l: LandingInfo) -> bool {
    &&& l.piece.block_type == bt
    &&& search_reachable(b, spawned(bt), l.piece)
    &&& is_landing(b, l.piece)
    &&& l.path@.len() > 0
    &&& l.path@.last() == MoveAction::HardDrop
    &&& direct_drop_ok(b, spawned(bt), l.piece) ==> l.path@ == direct_path(spawned(bt), l.piece)
    &&& exists|bfs: Seq<MoveAction>|
        #[trigger] replay(b, spawned(bt), bfs) == Some(l.piece) && l.was_rotate == ends_with_turn(bfs) && l.path@
            == execution_path(b, spawned(bt), l.piece, bfs)
}

/// All successors of `p` are marked, and if `p` is a landing it is listed.
pub open spec fn processed(b: Board, v: SearchMarks, landings: Seq<LandingInfo>, p: Piece) -> bool {
    &&& forall|q: Piece| #[trigger] search_step(b, p, q) ==> marked(v, q)
    &&& is_landing(b, p) ==> exists|j: int| 0 <= j < landings.len() && landings[j].piece == p
}

/// The queue holds `p`.
pub open spec fn queued(q: Seq<(Piece, bool, Vec<MoveAction>)>, p: Piece) -> bool {
    exists|i: int| 0 <= i < q.len() && q[i].0 == p
}

/// What exploring the neighbours of `curr` did to the marks and the queue.
pub open spec fn explored(
    b: Board,
    bt: BlockType,
    curr: Piece,
    v0: SearchMarks,
    q0: Seq<(Piece, bool, Vec<MoveAction>)>,
    v: SearchMarks,
    q: Seq<(Piece, bool, Vec<MoveAction>)>,
) -> bool {
    &&& marks_grow(v0, v)
    &&& q0.len() <= q.len()
    &&& q.subrange(0, q0.len() as int) == q0
    &&& marks_count(v) == marks_count(v0) + (q.len() - q0.len())
    &&& forall|i: int|
        q0.len() <= i < q.len() ==> search_step(b, curr, #[trigger] q[i].0) && q[i].0.block_type == bt
            && marked(v, q[i].0)
    &&& forall|yi: int, xi: int, ri: int|
        0 <= yi < INTERNAL_HEIGHT && 0 <= xi < 16 && 0 <= ri < 4 && #[trigger] v[yi][xi][ri] ==> v0[yi][xi][ri]
            || exists|i: int| q0.len() <= i < q.len() && q[i].0 == key_piece(bt, xi, yi, ri)
}

proof fn lemma_explored_refl(
    b: Board,
    bt: BlockType,
    curr: Piece,
    v0: SearchMarks,
    q0: Seq<(Piece, bool, Vec<MoveAction>)>,
)
    ensures
        explored(b, bt, curr, v0, q0, v0, q0),
{
    assert(q0.subrange(0, q0.len() as int) =~= q0);
}

proof fn lemma_explored_step(
    b: Board,
    bt: BlockType,
    curr: Piece,
    v0: SearchMarks,
    q0: Seq<(Piece, bool, Vec<MoveAction>)>,
    v1: SearchMarks,
    q1: Seq<(Piece, bool, Vec<MoveAction>)>,
    v2: SearchMarks,
    q2: Seq<(Piece, bool, Vec<MoveAction>)>,
    piece: Piece,
    was_rotate: bool,
    path: Vec<MoveAction>,
)
    requires
        explored(b, bt, curr, v0, q0, v1, q1),
        enqueue_rel(b, v1, q1, v2, q2, piece, was_rotate, path),
        valid_position(b, piece) && in_search_box(piece) ==> search_step(b, curr, piece),
        piece.block_type == bt,
    ensures
        explored(b, bt, curr, v0, q0, v2, q2),
{
    let fresh = valid_position(b, piece) && in_search_box(piece) && !marked(v1, piece);
    if fresh {
        assert(q2.subrange(0, q0.len() as int) =~= q1.subrange(0, q0.len() as int));
        assert forall|i: int| q0.len() <= i < q2.len() implies search_step(b, curr, #[trigger] q2[i].0)
            && q2[i].0.block_type == bt && marked(v2, q2[i].0) by {
            if i < q1.len() {
                assert(q2[i] == q1[i]);
            }
        }
        assert forall|yi: int, xi: int, ri: int|
            0 <= yi < INTERNAL_HEIGHT && 0 <= xi < 16 && 0 <= ri < 4 && #[trigger] v2[yi][xi][ri] implies v0[yi][xi][ri]
            || exists|i: int| q0.len() <= i < q2.len() && q2[i].0 == key_piece(bt, xi, yi, ri) by {
            if v1[yi][xi][ri] {
                if !v0[yi][xi][ri] {
                    let i = choose|i: int| q0.len() <= i < q1.len() && q1[i].0 == key_piece(bt, xi, yi, ri);
                    assert(q2[i] == q1[i]);
                }
            } else {
                assert(q2[q1.len() as int].0 == piece);
                assert(key_piece(bt, xi, yi, ri) == piece);
            }
        }
    }
}

proof fn lemma_kick_keeps_type(b: Board, p: Piece, kicks: Seq<(i32, i32)>, i: int)
    ensures
        first_fitting_kick(b, p, kicks, i) matches Some(t) ==> t.block_type == p.block_type && t.rotation
            == p.rotation && valid_position(b, t),
    decreases kicks.len() - i,
{
    if 0 <= i < kicks.len() {
        lemma_kick_keeps_type(b, p, kicks, i + 1);
    }
}

proof fn lemma_step_keeps_type(b: Board, p: Piece, q: Piece)
    requires
        search_step(b, p, q),
    ensures
        q.block_type == p.block_type,
{
    let to1 = (p.rotation + 1) % 4;
    let to3 = (p.rotation + 3) % 4;
    lemma_kick_keeps_type(b, p.rotated_to(to1), kick_table(p.block_type, p.rotation as int, to1), 0);
    lemma_kick_keeps_type(b, p.rotated_to(to3), kick_table(p.block_type, p.rotation as int, to3), 0);
}

proof fn lemma_reach_step(b: Board, start: Piece, p: Piece, q: Piece)
    requires
        search_reachable(b, start, p),
        search_step(b, p, q),
    ensures
        search_reachable(b, start, q),
{
    let s = choose|s: Seq<Piece>| is_search_chain(b, s) && s[0] == start && s[s.len() - 1] == p;
    let s2 = s.push(q);
    assert forall|i: int| 0 <= i < s2.len() - 1 implies #[trigger] search_step(b, s2[i], s2[i + 1]) by {
        if i < s.len() - 1 {
            assert(s2[i] == s[i] && s2[i + 1] == s[i + 1]);
        }
    }
    assert(is_search_chain(b, s2));
}

proof fn lemma_key_piece_of(bt: BlockType, p: Piece)
    requires
        in_search_box(p),
        p.block_type == bt,
    ensures
        key_piece(bt, p.x + 3, p.y as int, p.rotation as int) == p,
{
}

/// When every mark is processed, everything reachable from a marked start is marked.
proof fn lemma_closure(b: Board, bt: BlockType, v: SearchMarks, landings: Seq<LandingInfo>, s: Seq<Piece>, n: int)
    requires
        is_search_chain(b, s),
        s[0].block_type == bt,
        marked(v, s[0]),
        0 <= n < s.len(),
        forall|yi: int, xi: int, ri: int|
            0 <= yi < INTERNAL_HEIGHT && 0 <= xi < 16 && 0 <= ri < 4 && #[trigger] v[yi][xi][ri] ==> processed(
                b,
                v,
                landings,
                key_piece(bt, xi, yi, ri),
            ),
    ensures
        marked(v, s[n]),
        s[n].block_type == bt,
    decreases n,
{
    if n > 0 {
        lemma_closure(b, bt, v, landings, s, n - 1);
        let i = n - 1;
        assert(search_step(b, s[i], s[i + 1]));
        assert(s[i + 1] == s[n]);
        let p = s[n - 1];
        lemma_step_keeps_type(b, p, s[n]);
        lemma_key_piece_of(bt, p);
        assert(v[p.y as int][p.x + 3][p.rotation as int]);
        assert(processed(b, v, landings, key_piece(bt, p.x + 3, p.y as int, p.rotation as int)));
    }
}


proof fn lemma_enqueue_grows(
    b: Board,
    v1: SearchMarks,
    q1: Seq<(Piece, bool, Vec<MoveAction>)>,
    v2: SearchMarks,
    q2: Seq<(Piece, bool, Vec<MoveAction>)>,
    piece: Piece,
    was_rotate: bool,
    path: Vec<MoveAction>,
)
    requires
        enqueue_rel(b, v1, q1, v2, q2, piece, was_rotate, path),
    ensures
        forall|p: Piece| marked(v1, p) ==> #[trigger] marked(v2, p),
{
}

proof fn lemma_replay_push(b: Board, start: Piece, path: Seq<MoveAction>, a: MoveAction, curr: Piece)
    requires
        replay(b, start, path) == Some(curr),
    ensures
        replay(b, start, path.push(a)) == input_step(b, curr, a),
{
    assert(path.push(a).drop_last() =~= path);
}

proof fn lemma_entries_push(
    b: Board,
    start: Piece,
    from: int,
    v1: SearchMarks,
    q1: Seq<(Piece, bool, Vec<MoveAction>)>,
    v2: SearchMarks,
    q2: Seq<(Piece, bool, Vec<MoveAction>)>,
    piece: Piece,
    was_rotate: bool,
    path: Vec<MoveAction>,
)
    requires
        0 <= from,
        enqueue_rel(b, v1, q1, v2, q2, piece, was_rotate, path),
        forall|i: int| from <= i < q1.len() ==> entry_ok(b, start, #[trigger] q1[i]),
        valid_position(b, piece) && in_search_box(piece) ==> entry_ok(b, start, (piece, was_rotate, path)),
    ensures
        forall|i: int| from <= i < q2.len() ==> entry_ok(b, start, #[trigger] q2[i]),
{
    let fresh = valid_position(b, piece) && in_search_box(piece) && !marked(v1, piece);
    if fresh {
        assert(q2 == q1.push((piece, was_rotate, path)));
        assert forall|i: int| from <= i < q2.len() implies entry_ok(b, start, #[trigger] q2[i]) by {
            if i < q1.len() {
                assert(q2[i] == q1[i]);
            } else {
                assert(q2[i] == (piece, was_rotate, path));
            }
        }
    }
}

/// Tries the first fitting kick of `curr` turned to `to_rot`, queueing it.
fn explore_turn(
    game: &Game,
    block_type: BlockType,
    curr: Piece,
    to_rot: usize,
    action: MoveAction,
    path: &Vec<MoveAction>,
    visited: &mut SearchMarks,
    queue: &mut VecDeque<(Piece, bool, Vec<MoveAction>)>,
)
    requires
        curr.block_type == block_type,
        block_type != BlockType::O,
        in_search_box(curr),
        valid_position(game.board, curr),
        (action == MoveAction::RotateCW && to_rot as int == (curr.rotation + 1) % 4) || (action
            == MoveAction::RotateCCW && to_rot as int == (curr.rotation + 3) % 4),
        replay(game.board, spawned(block_type), path@) == Some(curr),
    ensures
        explored(game.board, block_type, curr, *old(visited), old(queue)@, *final(visited), final(queue)@),
        forall|p: Piece| marked(*old(visited), p) ==> #[trigger] marked(*final(visited), p),
        kick_step(game.board, curr, to_rot as int) matches Some(q) ==> (in_search_box(q) ==> marked(
            *final(visited),
            q,
        )),
        fresh_entries(*old(visited), final(queue)@, old(queue)@.len() as int, path@.len() as int + 1),
        forall|i: int|
            old(queue)@.len() <= i < final(queue)@.len() ==> entry_ok(
                game.board,
                spawned(block_type),
                #[trigger] final(queue)@[i],
            ),
{
    let ghost b = game.board;
    let ghost v0 = *visited;
    let ghost q0 = queue@;
    proof {
        lemma_valid_bounds(b, curr);
        lemma_explored_refl(b, block_type, curr, v0, q0);
        lemma_kicks_small(block_type, curr.rotation as int, to_rot as int);
    }
    let from_rot = curr.rotation;
    let kick_offsets = game.get_kick_offsets(block_type, from_rot, to_rot);
    let ghost kicks = kick_offsets@;
    let ghost rotated = curr.rotated_to(to_rot as int);
    let mut i: usize = 0;
    let mut done = false;
    while i < 5 && !done
        invariant
            i <= 5,
            kicks == kick_offsets@,
            kicks == kick_table(block_type, from_rot as int, to_rot as int),
            kicks.len() == 5,
            forall|k: int| 0 <= k < 5 ==> -2 <= #[trigger] kicks[k].0 <= 2 && -2 <= kicks[k].1 <= 2,
            curr.block_type == block_type,
            from_rot == curr.rotation,
            -1 <= curr.x <= 9,
            -1 <= curr.y <= 23,
            to_rot < 4,
            to_rot as int == (curr.rotation + 1) % 4 || to_rot as int == (curr.rotation + 3) % 4,
            curr.block_type != BlockType::O,
            rotated == curr.rotated_to(to_rot as int),
            explored(b, block_type, curr, v0, q0, *visited, queue@),
            forall|p: Piece| marked(v0, p) ==> #[trigger] marked(*visited, p),
            forall|k: int| q0.len() <= k < queue@.len() ==> entry_ok(b, spawned(block_type), #[trigger] queue@[k]),
            replay(b, spawned(block_type), path@) == Some(curr),
            fresh_entries(v0, queue@, q0.len() as int, path@.len() as int + 1),
            q0.len() <= queue@.len(),
            (action == MoveAction::RotateCW && to_rot as int == (curr.rotation + 1) % 4) || (action
                == MoveAction::RotateCCW && to_rot as int == (curr.rotation + 3) % 4),
            !done ==> first_fitting_kick(b, rotated, kicks, 0) == first_fitting_kick(b, rotated, kicks, i as int),
            done ==> (kick_step(b, curr, to_rot as int) matches Some(q) && (in_search_box(q) ==> marked(
                *visited,
                q,
            ))),
            b == game.board,
        decreases 5 - i + if done { 0int } else { 1int },
    {
        let (dx, dy) = kick_offsets[i];
        let test_piece = Piece { block_type, x: curr.x + dx, y: curr.y + dy, rotation: to_rot };
        assert(test_piece == rotated.shifted(kicks[i as int].0 as int, kicks[i as int].1 as int));
        if game.is_valid_position(&test_piece) {
            let mut turn_path = path.clone();
            assert(turn_path@ =~= path@);
            turn_path.push(action);
            let ghost tp = turn_path;
            let ghost v1 = *visited;
            let ghost q1 = queue@;
            proof {
                assert(kick_step(b, curr, to_rot as int) == Some(test_piece));
                lemma_replay_push(b, spawned(block_type), path@, action, curr);
                assert(tp@ == path@.push(action));
            }
            try_enqueue_reachable(game, test_piece, true, turn_path, visited, queue);
            proof {
                lemma_enqueue_grows(b, v1, q1, *visited, queue@, test_piece, true, tp);
                lemma_explored_step(b, block_type, curr, v0, q0, v1, q1, *visited, queue@, test_piece, true, tp);
                lemma_entries_push(b, spawned(block_type), q0.len() as int, v1, q1, *visited, queue@, test_piece, true, tp);
                lemma_fresh_push(b, v0, q0.len() as int, path@.len() as int + 1, v1, q1, *visited, queue@, test_piece, true, tp);
            }
            done = true;
        } else {
            i += 1;
        }
    }
}


proof fn lemma_explored_trans(
    b: Board,
    bt: BlockType,
    curr: Piece,
    v0: SearchMarks,
    q0: Seq<(Piece, bool, Vec<MoveAction>)>,
    v1: SearchMarks,
    q1: Seq<(Piece, bool, Vec<MoveAction>)>,
    v2: SearchMarks,
    q2: Seq<(Piece, bool, Vec<MoveAction>)>,
)
    requires
        explored(b, bt, curr, v0, q0, v1, q1),
        explored(b, bt, curr, v1, q1, v2, q2),
    ensures
        explored(b, bt, curr, v0, q0, v2, q2),
{
    assert(q2.subrange(0, q0.len() as int) =~= q1.subrange(0, q0.len() as int));
    assert forall|i: int| q0.len() <= i < q2.len() implies search_step(b, curr, #[trigger] q2[i].0)
        && q2[i].0.block_type == bt && marked(v2, q2[i].0) by {
        if i < q1.len() {
            assert(q2[i] == q2.subrange(0, q1.len() as int)[i]);
            assert(q2[i] == q1[i]);
        }
    }
    assert forall|yi: int, xi: int, ri: int|
        0 <= yi < INTERNAL_HEIGHT && 0 <= xi < 16 && 0 <= ri < 4 && #[trigger] v2[yi][xi][ri] implies v0[yi][xi][ri]
        || exists|i: int| q0.len() <= i < q2.len() && q2[i].0 == key_piece(bt, xi, yi, ri) by {
        if !v0[yi][xi][ri] {
            if v1[yi][xi][ri] {
                let i = choose|i: int| q0.len() <= i < q1.len() && q1[i].0 == key_piece(bt, xi, yi, ri);
                assert(q2[i] == q2.subrange(0, q1.len() as int)[i]);
            } else {
                let i = choose|i: int| q1.len() <= i < q2.len() && q2[i].0 == key_piece(bt, xi, yi, ri);
                assert(q0.len() <= i);
            }
        }
    }
}

/// Tries the moves left, right and (unless the piece rests) down from `curr`,
/// then the two turns, queueing each new position.
fn explore_neighbors(
    game: &Game,
    block_type: BlockType,
    curr: Piece,
    is_landing: bool,
    path: &Vec<MoveAction>,
    visited: &mut SearchMarks,
    queue: &mut VecDeque<(Piece, bool, Vec<MoveAction>)>,
)
    requires
        curr.block_type == block_type,
        in_search_box(curr),
        valid_position(game.board, curr),
        is_landing == !valid_position(game.board, curr.shifted(0, 1)),
        replay(game.board, spawned(block_type), path@) == Some(curr),
    ensures
        explored(game.board, block_type, curr, *old(visited), old(queue)@, *final(visited), final(queue)@),
        forall|p: Piece| marked(*old(visited), p) ==> #[trigger] marked(*final(visited), p),
        forall|q: Piece| #[trigger] search_step(game.board, curr, q) ==> marked(*final(visited), q),
        fresh_entries(*old(visited), final(queue)@, old(queue)@.len() as int, path@.len() as int + 1),
        forall|i: int|
            old(queue)@.len() <= i < final(queue)@.len() ==> entry_ok(
                game.board,
                spawned(block_type),
                #[trigger] final(queue)@[i],
            ),
{
    let ghost b = game.board;
    let ghost v0 = *visited;
    let ghost q0 = queue@;
    proof {
        lemma_valid_bounds(b, curr);
        lemma_explored_refl(b, block_type, curr, v0, q0);
    }
    // left
    let left_piece = Piece { x: curr.x - 1, y: curr.y, rotation: curr.rotation, block_type: curr.block_type };
    assert(left_piece == curr.shifted(-1, 0));
    let mut left_path = path.clone();
    assert(left_path@ =~= path@);
    left_path.push(MoveAction::MoveLeft);
    let ghost lp = left_path;
    let ghost v1 = *visited;
    let ghost q1 = queue@;
    proof {
        lemma_replay_push(b, spawned(block_type), path@, MoveAction::MoveLeft, curr);
    }
    try_enqueue_reachable(game, left_piece, false, left_path, visited, queue);
    proof {
        lemma_enqueue_grows(b, v1, q1, *visited, queue@, left_piece, false, lp);
        lemma_explored_step(b, block_type, curr, v0, q0, v1, q1, *visited, queue@, left_piece, false, lp);
        lemma_entries_push(b, spawned(block_type), q0.len() as int, v1, q1, *visited, queue@, left_piece, false, lp);
        lemma_marks_grow_marked(v0, v1);
        lemma_fresh_push(b, v0, q0.len() as int, path@.len() as int + 1, v1, q1, *visited, queue@, left_piece, false, lp);
    }
    // right
    let right_piece = Piece { x: curr.x + 1, y: curr.y, rotation: curr.rotation, block_type: curr.block_type };
    assert(right_piece == curr.shifted(1, 0));
    let mut right_path = path.clone();
    assert(right_path@ =~= path@);
    right_path.push(MoveAction::MoveRight);
    let ghost rp = right_path;
    let ghost v2 = *visited;
    let ghost q2 = queue@;
    proof {
        lemma_replay_push(b, spawned(block_type), path@, MoveAction::MoveRight, curr);
    }
    try_enqueue_reachable(game, right_piece, false, right_path, visited, queue);
    proof {
        lemma_enqueue_grows(b, v2, q2, *visited, queue@, right_piece, false, rp);
        lemma_explored_step(b, block_type, curr, v0, q0, v2, q2, *visited, queue@, right_piece, false, rp);
        lemma_entries_push(b, spawned(block_type), q0.len() as int, v2, q2, *visited, queue@, right_piece, false, rp);
        lemma_marks_grow_marked(v0, v2);
        lemma_fresh_push(b, v0, q0.len() as int, path@.len() as int + 1, v2, q2, *visited, queue@, right_piece, false, rp);
    }
    // soft drop
    let down_piece = Piece { block_type: curr.block_type, x: curr.x, y: curr.y + 1, rotation: curr.rotation };
    assert(down_piece == curr.shifted(0, 1));
    if !is_landing {
        let mut down_path = path.clone();
        assert(down_path@ =~= path@);
        down_path.push(MoveAction::SoftDrop);
        let ghost dp = down_path;
        let ghost v3 = *visited;
        let ghost q3 = queue@;
        proof {
            lemma_replay_push(b, spawned(block_type), path@, MoveAction::SoftDrop, curr);
        }
        try_enqueue_reachable(game, down_piece, false, down_path, visited, queue);
        proof {
            lemma_enqueue_grows(b, v3, q3, *visited, queue@, down_piece, false, dp);
            lemma_explored_step(b, block_type, curr, v0, q0, v3, q3, *visited, queue@, down_piece, false, dp);
        lemma_entries_push(b, spawned(block_type), q0.len() as int, v3, q3, *visited, queue@, down_piece, false, dp);
            lemma_marks_grow_marked(v0, v3);
            lemma_fresh_push(b, v0, q0.len() as int, path@.len() as int + 1, v3, q3, *visited, queue@, down_piece, false, dp);
        }
    }
    if block_type != BlockType::O {
        let from_rot = curr.rotation;
        let ghost v4 = *visited;
        let ghost q4 = queue@;
        explore_turn(game, block_type, curr, (from_rot + 1) % 4, MoveAction::RotateCW, path, visited, queue);
        proof {
            lemma_explored_trans(b, block_type, curr, v0, q0, v4, q4, *visited, queue@);
            lemma_marks_grow_marked(v0, v4);
            lemma_fresh_join(v0, v4, q4, queue@, q0.len() as int, path@.len() as int + 1);
            assert forall|i: int| q0.len() <= i < queue@.len() implies entry_ok(b, spawned(block_type), #[trigger] queue@[i]) by {
                if i < q4.len() {
                    assert(queue@.subrange(0, q4.len() as int)[i] == queue@[i]);
                }
            }
        }
        let ghost v5 = *visited;
        let ghost q5 = queue@;
        explore_turn(game, block_type, curr, (from_rot + 3) % 4, MoveAction::RotateCCW, path, visited, queue);
        proof {
            lemma_explored_trans(b, block_type, curr, v0, q0, v5, q5, *visited, queue@);
            lemma_marks_grow_marked(v0, v5);
            lemma_fresh_join(v0, v5, q5, queue@, q0.len() as int, path@.len() as int + 1);
            assert forall|i: int| q0.len() <= i < queue@.len() implies entry_ok(b, spawned(block_type), #[trigger] queue@[i]) by {
                if i < q5.len() {
                    assert(queue@.subrange(0, q5.len() as int)[i] == queue@[i]);
                }
            }
        }
    }
    proof {
        assert forall|q: Piece| #[trigger] search_step(b, curr, q) implies marked(*visited, q) by {
            if q == curr.shifted(-1, 0) {
            } else if q == curr.shifted(1, 0) {
            } else if q == curr.shifted(0, 1) {
            } else {
            }
        }
    }
}

/// Everything the search keeps true between two steps.
pub open spec fn search_invariant(
    b: Board,
    bt: BlockType,
    v: SearchMarks,
    lv: SearchMarks,
    q: Seq<(Piece, bool, Vec<MoveAction>)>,
    landings: Seq<LandingInfo>,
) -> bool {
    let spawn = spawned(bt);
    &&& valid_position(b, spawn)
    &&& marked(v, spawn)
    &&& forall|yi: int, xi: int, ri: int|
        0 <= yi < INTERNAL_HEIGHT && 0 <= xi < 16 && 0 <= ri < 4 && #[trigger] v[yi][xi][ri] ==> valid_position(
            b,
            key_piece(bt, xi, yi, ri),
        ) && search_reachable(b, spawn, key_piece(bt, xi, yi, ri)) && (queued(q, key_piece(bt, xi, yi, ri))
            || processed(b, v, landings, key_piece(bt, xi, yi, ri)))
    &&& forall|i: int|
        0 <= i < q.len() ==> (#[trigger] q[i].0).block_type == bt && in_search_box(q[i].0) && marked(v, q[i].0)
    &&& forall|i: int| 0 <= i < q.len() ==> entry_ok(b, spawn, #[trigger] q[i])
    &&& forall|j: int| 0 <= j < landings.len() ==> landing_sound(b, bt, #[trigger] landings[j]) && marked(lv, landings[j].piece)
    &&& forall|yi: int, xi: int, ri: int|
        0 <= yi < INTERNAL_HEIGHT && 0 <= xi < 16 && 0 <= ri < 4 && #[trigger] lv[yi][xi][ri] ==> exists|j: int|
            0 <= j < landings.len() && landings[j].piece == key_piece(bt, xi, yi, ri)
    &&& forall|i: int, j: int| 0 <= i < j < landings.len() ==> landings[i].piece != landings[j].piece
    &&& q.len() <= marks_count(v) <= 64 * INTERNAL_HEIGHT
}


/// One step of the search keeps `search_invariant`.
proof fn lemma_search_step(
    b: Board,
    bt: BlockType,
    v0: SearchMarks,
    lv0: SearchMarks,
    q0: Seq<(Piece, bool, Vec<MoveAction>)>,
    l0: Seq<LandingInfo>,
    curr: Piece,
    rests: bool,
    lv1: SearchMarks,
    l1: Seq<LandingInfo>,
    v2: SearchMarks,
    q2: Seq<(Piece, bool, Vec<MoveAction>)>,
    bfs: Seq<MoveAction>,
)
    requires
        search_invariant(b, bt, v0, lv0, q0, l0),
        q0.len() > 0,
        q0[0].0 == curr,
        rests == !valid_position(b, curr.shifted(0, 1)),
        rests && !marked(lv0, curr) ==> {
            &&& marks_add(lv0, lv1, curr)
            &&& l1.len() == l0.len() + 1
            &&& l1.subrange(0, l0.len() as int) == l0
            &&& l1[l0.len() as int].piece == curr
            &&& replay(b, spawned(bt), bfs) == Some(curr)
            &&& l1[l0.len() as int].was_rotate == ends_with_turn(bfs)
            &&& l1[l0.len() as int].path@ == execution_path(b, spawned(bt), curr, bfs)
        },
        forall|i: int| q0.len() - 1 <= i < q2.len() ==> entry_ok(b, spawned(bt), #[trigger] q2[i]),
        !(rests && !marked(lv0, curr)) ==> lv1 == lv0 && l1 == l0,
        explored(b, bt, curr, v0, q0.subrange(1, q0.len() as int), v2, q2),
        forall|p: Piece| marked(v0, p) ==> #[trigger] marked(v2, p),
        forall|q: Piece| #[trigger] search_step(b, curr, q) ==> marked(v2, q),
    ensures
        search_invariant(b, bt, v2, lv1, q2, l1),
        2 * (64 * INTERNAL_HEIGHT - marks_count(v2)) + q2.len() < 2 * (64 * INTERNAL_HEIGHT - marks_count(v0))
            + q0.len(),
{
    let spawn = spawned(bt);
    let q1 = q0.subrange(1, q0.len() as int);
    assert(in_search_box(curr) && marked(v0, curr) && curr.block_type == bt);
    lemma_valid_bounds(b, curr);
    lemma_key_piece_of(bt, curr);
    assert(v0[curr.y as int][curr.x + 3][curr.rotation as int]);
    assert(search_reachable(b, spawn, curr));
    lemma_count_cube_bound(v2, INTERNAL_HEIGHT as int);
    // every landing of l0 is in l1
    assert forall|j: int| 0 <= j < l0.len() implies #[trigger] l1[j] == l0[j] by {
        if l1 != l0 {
            assert(l1.subrange(0, l0.len() as int)[j] == l1[j]);
        }
    }
    // curr is processed now
    assert(processed(b, v2, l1, curr)) by {
        if rests {
            if marked(lv0, curr) {
                assert(lv0[curr.y as int][curr.x + 3][curr.rotation as int]);
                let j = choose|j: int|
                    0 <= j < l0.len() && l0[j].piece == key_piece(bt, curr.x + 3, curr.y as int, curr.rotation as int);
                assert(l1[j] == l0[j]);
            } else {
                assert(l1[l0.len() as int].piece == curr);
            }
        }
    }
    // marks of v2
    assert forall|yi: int, xi: int, ri: int|
        0 <= yi < INTERNAL_HEIGHT && 0 <= xi < 16 && 0 <= ri < 4 && #[trigger] v2[yi][xi][ri] implies valid_position(
            b,
            key_piece(bt, xi, yi, ri),
        ) && search_reachable(b, spawn, key_piece(bt, xi, yi, ri)) && (queued(q2, key_piece(bt, xi, yi, ri))
            || processed(b, v2, l1, key_piece(bt, xi, yi, ri))) by {
        let kp = key_piece(bt, xi, yi, ri);
        if v0[yi][xi][ri] {
            if queued(q0, kp) {
                let i = choose|i: int| 0 <= i < q0.len() && q0[i].0 == kp;
                if i == 0 {
                    assert(kp == curr);
                } else {
                    assert(q1[i - 1] == q0[i]);
                    assert(q2.subrange(0, q1.len() as int)[i - 1] == q2[i - 1]);
                    assert(q2[i - 1].0 == kp);
                }
            } else {
                assert(processed(b, v0, l0, kp));
                assert forall|q: Piece| #[trigger] search_step(b, kp, q) implies marked(v2, q) by {
                    assert(marked(v0, q));
                }
                if is_landing(b, kp) {
                    let j = choose|j: int| 0 <= j < l0.len() && l0[j].piece == kp;
                    assert(l1[j] == l0[j]);
                }
            }
        } else {
            let i = choose|i: int| q1.len() <= i < q2.len() && q2[i].0 == kp;
            assert(search_step(b, curr, q2[i].0));
            lemma_reach_step(b, spawn, curr, kp);
        }
    }
    // queue entries
    assert forall|i: int| 0 <= i < q2.len() implies (#[trigger] q2[i].0).block_type == bt && in_search_box(q2[i].0)
        && marked(v2, q2[i].0) && entry_ok(b, spawn, q2[i]) by {
        if i < q1.len() {
            assert(q2.subrange(0, q1.len() as int)[i] == q2[i]);
            assert(q1[i] == q0[i + 1]);
            assert(marked(v0, q0[i + 1].0));
            assert(entry_ok(b, spawn, q0[i + 1]));
        }
    }
    // landings
    assert forall|j: int| 0 <= j < l1.len() implies landing_sound(b, bt, #[trigger] l1[j]) && marked(
        lv1,
        l1[j].piece,
    ) by {
        if j < l0.len() {
            assert(l1[j] == l0[j]);
            let p = l0[j].piece;
            assert(marked(lv0, p));
            if lv1 != lv0 {
                assert(lv1[p.y as int][p.x + 3][p.rotation as int]);
            }
        } else {
            assert(l1[j].piece == curr);
            assert(lv1[curr.y as int][curr.x + 3][curr.rotation as int]);
            let sp = spawned(bt);
            law_execution_path_ends_in_hard_drop(b, sp, curr, bfs);
            assert(replay(b, sp, bfs) == Some(l1[j].piece));
        }
    }
    assert forall|yi: int, xi: int, ri: int|
        0 <= yi < INTERNAL_HEIGHT && 0 <= xi < 16 && 0 <= ri < 4 && #[trigger] lv1[yi][xi][ri] implies exists|j: int|
        0 <= j < l1.len() && l1[j].piece == key_piece(bt, xi, yi, ri) by {
        if lv0[yi][xi][ri] {
            let j = choose|j: int| 0 <= j < l0.len() && l0[j].piece == key_piece(bt, xi, yi, ri);
            assert(l1[j] == l0[j]);
        } else {
            assert(l1[l0.len() as int].piece == curr);
        }
    }
    assert forall|i: int, j: int| 0 <= i < j < l1.len() implies l1[i].piece != l1[j].piece by {
        if j >= l0.len() {
            assert(l1[i] == l0[i]);
            let p = l0[i].piece;
            assert(marked(lv0, p));
            if p == curr {
                assert(marked(lv0, curr));
            }
        } else {
            assert(l1[i] == l0[i]);
            assert(l1[j] == l0[j]);
        }
    }
}

// ----------------------------------------------------------------------------
// Breadth-first order
// ----------------------------------------------------------------------------

/// No input sequence shorter than `n` brings `start` to `p`.
pub open spec fn no_shorter_path(b: Board, start: Piece, p: Piece, n: int) -> bool {
    forall|s: Seq<MoveAction>| #[trigger] replay(b, start, s) == Some(p) ==> n <= s.len()
}

/// `n` is the fewest search inputs that bring `start` to `p`.
pub open spec fn input_distance(b: Board, start: Piece, p: Piece, n: int) -> bool {
    &&& exists|s: Seq<MoveAction>| s.len() == n && #[trigger] replay(b, start, s) == Some(p)
    &&& no_shorter_path(b, start, p, n)
}

/// A piece has one input distance.
proof fn lemma_input_distance_unique(b: Board, start: Piece, p: Piece, n1: int, n2: int)
    requires
        input_distance(b, start, p, n1),
        input_distance(b, start, p, n2),
    ensures
        n1 == n2,
{
    let s1 = choose|s: Seq<MoveAction>| s.len() == n1 && #[trigger] replay(b, start, s) == Some(p);
    let s2 = choose|s: Seq<MoveAction>| s.len() == n2 && #[trigger] replay(b, start, s) == Some(p);
}

/// The entries queued from index `from` on carry paths of `n` inputs, and
/// their pieces were not marked in `v0`.
pub open spec fn fresh_entries(v0: SearchMarks, q: Seq<(Piece, bool, Vec<MoveAction>)>, from: int, n: int) -> bool {
    forall|i: int| from <= i < q.len() ==> (#[trigger] q[i]).2@.len() == n && !marked(v0, q[i].0)
}

/// The queue is in breadth-first order: path lengths never fall and differ
/// by at most one, each queued path is a shortest one, and every position
/// that can be reached in as few inputs as the front entry's path is marked.
pub open spec fn bfs_layers(b: Board, start: Piece, v: SearchMarks, q: Seq<(Piece, bool, Vec<MoveAction>)>) -> bool {
    &&& forall|i: int, j: int| 0 <= i <= j < q.len() ==> (#[trigger] q[i]).2@.len() <= (#[trigger] q[j]).2@.len()
    &&& q.len() > 0 ==> q[q.len() - 1].2@.len() <= q[0].2@.len() + 1
    &&& forall|i: int| 0 <= i < q.len() ==> no_shorter_path(b, start, (#[trigger] q[i]).0, q[i].2@.len() as int)
    &&& q.len() > 0 ==> forall|s: Seq<MoveAction>|
        #[trigger] replay(b, start, s) is Some && s.len() <= q[0].2@.len() ==> marked(v, replay(b, start, s)->0)
}

/// The length of the front entry's path, if any.
pub open spec fn front_length(q: Seq<(Piece, bool, Vec<MoveAction>)>) -> Option<int> {
    if q.len() > 0 {
        Some(q[0].2@.len() as int)
    } else {
        None
    }
}

/// The landings found so far: each with a shortest searched path, listed
/// by their input distance, none farther than the front of the queue.
pub open spec fn landings_by_distance(b: Board, start: Piece, l: Seq<LandingInfo>, front: Option<int>) -> bool {
    &&& forall|j: int|
        0 <= j < l.len() ==> exists|bfs: Seq<MoveAction>|
            #[trigger] replay(b, start, bfs) == Some((#[trigger] l[j]).piece) && no_shorter_path(
                b,
                start,
                l[j].piece,
                bfs.len() as int,
            ) && l[j].was_rotate == ends_with_turn(bfs) && l[j].path@ == execution_path(b, start, l[j].piece, bfs)
    &&& forall|i: int, j: int, ni: int, nj: int|
        0 <= i < j < l.len() && #[trigger] input_distance(b, start, l[i].piece, ni) && #[trigger] input_distance(
            b,
            start,
            l[j].piece,
            nj,
        ) ==> ni <= nj
    &&& front matches Some(k) ==> forall|j: int, nj: int|
        0 <= j < l.len() && #[trigger] input_distance(b, start, l[j].piece, nj) ==> nj <= k
}

proof fn lemma_fresh_push(
    b: Board,
    v0: SearchMarks,
    from: int,
    n: int,
    v1: SearchMarks,
    q1: Seq<(Piece, bool, Vec<MoveAction>)>,
    v2: SearchMarks,
    q2: Seq<(Piece, bool, Vec<MoveAction>)>,
    piece: Piece,
    was_rotate: bool,
    path: Vec<MoveAction>,
)
    requires
        enqueue_rel(b, v1, q1, v2, q2, piece, was_rotate, path),
        0 <= from,
        fresh_entries(v0, q1, from, n),
        path@.len() == n,
        forall|p: Piece| marked(v0, p) ==> #[trigger] marked(v1, p),
    ensures
        fresh_entries(v0, q2, from, n),
{
    let fresh = valid_position(b, piece) && in_search_box(piece) && !marked(v1, piece);
    if fresh {
        assert(q2 == q1.push((piece, was_rotate, path)));
        assert forall|i: int| from <= i < q2.len() implies (#[trigger] q2[i]).2@.len() == n && !marked(v0, q2[i].0) by {
            if i < q1.len() {
                assert(q2[i] == q1[i]);
            }
        }
    }
}

proof fn lemma_marks_grow_marked(v1: SearchMarks, v2: SearchMarks)
    requires
        marks_grow(v1, v2),
    ensures
        forall|p: Piece| marked(v1, p) ==> #[trigger] marked(v2, p),
{
    assert forall|p: Piece| marked(v1, p) implies #[trigger] marked(v2, p) by {
        assert(v1[p.y as int][p.x + 3][p.rotation as int]);
    }
}

proof fn lemma_fresh_join(
    v0: SearchMarks,
    v1: SearchMarks,
    q1: Seq<(Piece, bool, Vec<MoveAction>)>,
    q2: Seq<(Piece, bool, Vec<MoveAction>)>,
    from: int,
    n: int,
)
    requires
        0 <= from <= q1.len(),
        fresh_entries(v0, q1, from, n),
        fresh_entries(v1, q2, q1.len() as int, n),
        q1.len() <= q2.len(),
        q2.subrange(0, q1.len() as int) == q1,
        forall|p: Piece| marked(v0, p) ==> #[trigger] marked(v1, p),
    ensures
        fresh_entries(v0, q2, from, n),
{
    assert forall|i: int| from <= i < q2.len() implies (#[trigger] q2[i]).2@.len() == n && !marked(v0, q2[i].0) by {
        if i < q1.len() {
            assert(q2.subrange(0, q1.len() as int)[i] == q2[i]);
        }
    }
}

/// A search input that takes is a search step.
proof fn lemma_input_is_step(b: Board, p: Piece, a: MoveAction)
    requires
        input_step(b, p, a) is Some,
    ensures
        search_step(b, p, input_step(b, p, a)->0),
{
}

proof fn lemma_first_fitting_kick_type(b: Board, p: Piece, kicks: Seq<(i32, i32)>, i: int)
    ensures
        first_fitting_kick(b, p, kicks, i) matches Some(t) ==> t.block_type == p.block_type,
    decreases kicks.len() - i,
{
    if 0 <= i < kicks.len() {
        lemma_first_fitting_kick_type(b, p, kicks, i + 1);
    }
}

/// Replaying inputs keeps the piece's type.
proof fn lemma_replay_type(b: Board, start: Piece, s: Seq<MoveAction>)
    ensures
        replay(b, start, s) matches Some(p) ==> p.block_type == start.block_type,
    decreases s.len(),
{
    if s.len() > 0 {
        lemma_replay_type(b, start, s.drop_last());
        if let Some(q) = replay(b, start, s.drop_last()) {
            lemma_first_fitting_kick_type(
                b,
                q.rotated_to((q.rotation + 1) % 4),
                kick_table(q.block_type, q.rotation as int, (q.rotation + 1) % 4),
                0,
            );
            lemma_first_fitting_kick_type(
                b,
                q.rotated_to((q.rotation + 3) % 4),
                kick_table(q.block_type, q.rotation as int, (q.rotation + 3) % 4),
                0,
            );
        }
    }
}

/// One round of the search keeps the queue in breadth-first order.
proof fn lemma_bfs_step(
    b: Board,
    bt: BlockType,
    v0: SearchMarks,
    q0: Seq<(Piece, bool, Vec<MoveAction>)>,
    lv2: SearchMarks,
    l2: Seq<LandingInfo>,
    v2: SearchMarks,
    q2: Seq<(Piece, bool, Vec<MoveAction>)>,
    path: Seq<MoveAction>,
)
    requires
        bfs_layers(b, spawned(bt), v0, q0),
        q0.len() > 0,
        q0[0].2@ == path,
        q2.len() >= q0.len() - 1,
        q2.subrange(0, q0.len() - 1) == q0.subrange(1, q0.len() as int),
        fresh_entries(v0, q2, q0.len() - 1, path.len() as int + 1),
        forall|p: Piece| marked(v0, p) ==> #[trigger] marked(v2, p),
        search_invariant(b, bt, v2, lv2, q2, l2),
    ensures
        bfs_layers(b, spawned(bt), v2, q2),
        q2.len() > 0 ==> q2[0].2@.len() >= path.len(),
{
    let start = spawned(bt);
    let k = path.len() as int;
    let m = q0.len() - 1;
    assert forall|i: int| 0 <= i < m implies #[trigger] q2[i] == q0[i + 1] by {
        assert(q2.subrange(0, m)[i] == q0.subrange(1, q0.len() as int)[i]);
    }
    assert(q0[0].2@.len() == k);
    // path lengths
    assert forall|i: int, j: int| 0 <= i <= j < q2.len() implies (#[trigger] q2[i]).2@.len() <= (#[trigger] q2[j]).2@.len() by {
        if j < m {
            assert(q0[i + 1].2@.len() <= q0[j + 1].2@.len());
        } else if i < m {
            assert(q0[i + 1].2@.len() <= q0[q0.len() - 1].2@.len());
        }
    }
    if q2.len() > 0 {
        if m > 0 {
            assert(q2[0] == q0[1]);
            assert(q0[0].2@.len() <= q0[1].2@.len());
            if q2.len() - 1 < m {
                assert(q2[q2.len() - 1] == q0[q2.len() as int]);
                assert(q0[q2.len() as int].2@.len() <= q0[q0.len() - 1].2@.len());
            }
        }
    }
    // queued paths are shortest
    assert forall|i: int| 0 <= i < q2.len() implies no_shorter_path(b, start, (#[trigger] q2[i]).0, q2[i].2@.len() as int) by {
        if i < m {
            assert(no_shorter_path(b, start, q0[i + 1].0, q0[i + 1].2@.len() as int));
        } else {
            assert forall|s: Seq<MoveAction>| #[trigger] replay(b, start, s) == Some(q2[i].0) implies q2[i].2@.len() <= s.len() by {
                if s.len() < k + 1 {
                    assert(replay(b, start, s) is Some && s.len() <= q0[0].2@.len());
                    assert(marked(v0, replay(b, start, s)->0));
                }
            }
        }
    }
    // reachable within the new front's length means marked
    if q2.len() > 0 {
        let k2 = q2[0].2@.len() as int;
        assert forall|s: Seq<MoveAction>| #[trigger] replay(b, start, s) is Some && s.len() <= q2[0].2@.len() implies marked(
            v2,
            replay(b, start, s)->0,
        ) by {
            if s.len() <= k {
                assert(marked(v0, replay(b, start, s)->0));
            } else {
                let sp = s.drop_last();
                assert(s == sp.push(s.last()));
                lemma_replay_push_some(b, start, s);
                let p0 = replay(b, start, sp)->0;
                assert(marked(v0, p0));
                assert(marked(v2, p0));
                lemma_replay_type(b, start, sp);
                assert(in_search_box(p0));
                lemma_key_piece_of(bt, p0);
                assert(v2[p0.y as int][p0.x + 3][p0.rotation as int]);
                if queued(q2, p0) {
                    let i = choose|i: int| 0 <= i < q2.len() && q2[i].0 == p0;
                    assert(q2[0].2@.len() <= q2[i].2@.len());
                    assert(no_shorter_path(b, start, q2[i].0, q2[i].2@.len() as int));
                    assert(replay(b, start, sp) == Some(q2[i].0));
                    assert(false);
                }
                assert(processed(b, v2, l2, p0));
                lemma_input_is_step(b, p0, s.last());
                assert(replay(b, start, s) == input_step(b, p0, s.last()));
            }
        }
    }
}

/// A path that replays has a prefix that replays, and its last input takes
/// from where the prefix ends.
proof fn lemma_replay_push_some(b: Board, start: Piece, s: Seq<MoveAction>)
    requires
        s.len() > 0,
        replay(b, start, s) is Some,
    ensures
        replay(b, start, s.drop_last()) is Some,
        replay(b, start, s) == input_step(b, replay(b, start, s.drop_last())->0, s.last()),
{
}

/// One round of the search keeps the landings listed by distance.
proof fn lemma_landings_step(
    b: Board,
    bt: BlockType,
    v0: SearchMarks,
    q0: Seq<(Piece, bool, Vec<MoveAction>)>,
    l0: Seq<LandingInfo>,
    l1: Seq<LandingInfo>,
    q2: Seq<(Piece, bool, Vec<MoveAction>)>,
    pushed: bool,
    bfs: Seq<MoveAction>,
)
    requires
        landings_by_distance(b, spawned(bt), l0, front_length(q0)),
        bfs_layers(b, spawned(bt), v0, q0),
        q0.len() > 0,
        q0[0].2@ == bfs,
        replay(b, spawned(bt), bfs) == Some(q0[0].0),
        !pushed ==> l1 == l0,
        pushed ==> {
            &&& l1.len() == l0.len() + 1
            &&& l1.subrange(0, l0.len() as int) == l0
            &&& l1[l0.len() as int].piece == q0[0].0
            &&& l1[l0.len() as int].was_rotate == ends_with_turn(bfs)
            &&& l1[l0.len() as int].path@ == execution_path(b, spawned(bt), q0[0].0, bfs)
        },
        q2.len() > 0 ==> q2[0].2@.len() >= bfs.len(),
    ensures
        landings_by_distance(b, spawned(bt), l1, front_length(q2)),
{
    let start = spawned(bt);
    let k = bfs.len() as int;
    assert(no_shorter_path(b, start, q0[0].0, q0[0].2@.len() as int));
    if pushed {
        let n = l0.len() as int;
        assert forall|j: int| 0 <= j < n implies #[trigger] l1[j] == l0[j] by {
            assert(l1.subrange(0, n)[j] == l1[j]);
        }
        assert(input_distance(b, start, q0[0].0, k));
        assert forall|j: int|
            0 <= j < l1.len() implies exists|w: Seq<MoveAction>|
                #[trigger] replay(b, start, w) == Some((#[trigger] l1[j]).piece) && no_shorter_path(
                    b,
                    start,
                    l1[j].piece,
                    w.len() as int,
                ) && l1[j].was_rotate == ends_with_turn(w) && l1[j].path@ == execution_path(b, start, l1[j].piece, w) by {
            if j < n {
                assert(l1[j] == l0[j]);
            } else {
                assert(replay(b, start, bfs) == Some(l1[j].piece));
            }
        }
        assert forall|i: int, j: int, ni: int, nj: int|
            0 <= i < j < l1.len() && #[trigger] input_distance(b, start, l1[i].piece, ni) && #[trigger] input_distance(
                b,
                start,
                l1[j].piece,
                nj,
            ) implies ni <= nj by {
            assert(l1[i] == l0[i]);
            if j < n {
                assert(l1[j] == l0[j]);
            } else {
                lemma_input_distance_unique(b, start, q0[0].0, nj, k);
            }
        }
        if q2.len() > 0 {
            assert forall|j: int, nj: int|
                0 <= j < l1.len() && #[trigger] input_distance(b, start, l1[j].piece, nj) implies nj <= q2[0].2@.len() by {
                if j < n {
                    assert(l1[j] == l0[j]);
                } else {
                    lemma_input_distance_unique(b, start, q0[0].0, nj, k);
                }
            }
        }
    } else {
        if q2.len() > 0 {
            assert forall|j: int, nj: int|
                0 <= j < l1.len() && #[trigger] input_distance(b, start, l1[j].piece, nj) implies nj <= q2[0].2@.len() by {
            }
        }
    }
}

/// Breadth-first search of every position the piece of type `block_type`
/// can reach from its spawn position by single moves, soft drops and SRS
/// turns, keeping the positions where it comes to rest.
pub fn search_reachable_landings(game: &Game, block_type: BlockType) -> (landings: Vec<LandingInfo>)
    ensures
        !valid_position(game.board, spawned(block_type)) ==> landings@.len() == 0,
        forall|i: int| 0 <= i < landings@.len() ==> landing_sound(game.board, block_type, #[trigger] landings@[i]),
        forall|i: int, j: int| 0 <= i < j < landings@.len() ==> landings@[i].piece != landings@[j].piece,
        landings_by_distance(game.board, spawned(block_type), landings@, None),
        valid_position(game.board, spawned(block_type)) ==> forall|q: Piece|
            search_reachable(game.board, spawned(block_type), q) && is_landing(game.board, q) ==> exists|i: int|
                0 <= i < landings@.len() && #[trigger] landings@[i].piece == q,
{
    let ghost b = game.board;
    let mut landings: Vec<LandingInfo> = Vec::new();
    let mut visited: SearchMarks = [[[false; 4]; 16]; INTERNAL_HEIGHT];
    let mut queue: VecDeque<(Piece, bool, Vec<MoveAction>)> = VecDeque::new();
    let spawn_piece = Piece::new(block_type);
    if !game.is_valid_position(&spawn_piece) {
        return landings;
    }
    proof {
        lemma_count_cube_zero(visited, INTERNAL_HEIGHT as int);
    }
    set_mark(&mut visited, &spawn_piece);
    queue.push_back((spawn_piece, false, Vec::new()));
    let mut landing_visited: SearchMarks = [[[false; 4]; 16]; INTERNAL_HEIGHT];
    proof {
        let s = seq![spawn_piece];
        assert(is_search_chain(b, s));
        lemma_count_cube_bound(visited, INTERNAL_HEIGHT as int);
        assert forall|yi: int, xi: int, ri: int|
            0 <= yi < INTERNAL_HEIGHT && 0 <= xi < 16 && 0 <= ri < 4 && #[trigger] visited[yi][xi][ri] implies valid_position(
                b,
                key_piece(block_type, xi, yi, ri),
            ) && search_reachable(b, spawn_piece, key_piece(block_type, xi, yi, ri)) && (queued(
                queue@,
                key_piece(block_type, xi, yi, ri),
            ) || processed(b, visited, landings@, key_piece(block_type, xi, yi, ri))) by {
            assert(key_piece(block_type, xi, yi, ri) == spawn_piece);
            assert(queue@[0].0 == spawn_piece);
        }
    }
    loop
        invariant
            b == game.board,
            spawn_piece == spawned(block_type),
            search_invariant(b, block_type, visited, landing_visited, queue@, landings@),
            bfs_layers(b, spawn_piece, visited, queue@),
            landings_by_distance(b, spawn_piece, landings@, front_length(queue@)),
        ensures
            search_invariant(b, block_type, visited, landing_visited, queue@, landings@),
            landings_by_distance(b, spawn_piece, landings@, front_length(queue@)),
            queue@.len() == 0,
        decreases 2 * (64 * INTERNAL_HEIGHT - marks_count(visited)) + queue@.len(),
    {
        let ghost v_before = visited;
        let ghost q_before = queue@;
        let ghost l_before = landings@;
        let ghost lv_before_all = landing_visited;
        let entry = queue.pop_front();
        match entry {
            None => {
                break;
            },
            Some((curr, was_rotate, path)) => {
                assert(q_before[0].0 == curr);
                assert(entry_ok(b, spawn_piece, q_before[0]));
                assert(replay(b, spawn_piece, path@) == Some(curr));
                assert(was_rotate == ends_with_turn(path@));
                let ghost q_after_pop = queue@;
                proof {
                    lemma_valid_bounds(b, curr);
                    lemma_key_piece_of(block_type, curr);
                }
                let down_piece = Piece { block_type: curr.block_type, x: curr.x, y: curr.y + 1, rotation: curr.rotation };
                assert(down_piece == curr.shifted(0, 1));
                let is_landing = !game.is_valid_position(&down_piece);
                if is_landing {
                    if curr.y >= 0 && curr.y < INTERNAL_HEIGHT as i32 && curr.x >= -3 && curr.x < 13 {
                        let cx_idx = (curr.x + 3) as usize;
                        let cy_idx = curr.y as usize;
                        if !landing_visited[cy_idx][cx_idx][curr.rotation] {
                            let ghost lv_before = landing_visited;
                            set_mark(&mut landing_visited, &curr);
                            let optimized_path = optimize_execution_path(game, &spawn_piece, &curr, path.as_slice());
                            proof {
                                law_execution_path_ends_in_hard_drop(b, spawn_piece, curr, path@);
                            }
                            landings.push(LandingInfo { piece: curr, was_rotate, path: optimized_path });
                            proof {
                                assert(landings@.subrange(0, l_before.len() as int) =~= l_before);
                            }
                        }
                    }
                }
                let ghost l_mid = landings@;
                let ghost lv_mid = landing_visited;
                let ghost v_mid = visited;
                explore_neighbors(game, block_type, curr, is_landing, &path, &mut visited, &mut queue);
                let ghost pushed = landings@.len() > l_before.len();
                proof {
                    assert(q_after_pop == q_before.subrange(1, q_before.len() as int));
                    lemma_search_step(
                        b,
                        block_type,
                        v_before,
                        lv_before_all,
                        q_before,
                        l_before,
                        curr,
                        is_landing,
                        lv_mid,
                        l_mid,
                        visited,
                        queue@,
                        path@,
                    );
                    assert(q_before[0].2@ == path@);
                    lemma_bfs_step(b, block_type, v_before, q_before, landing_visited, landings@, visited, queue@, path@);
                    lemma_landings_step(b, block_type, v_before, q_before, l_before, landings@, queue@, pushed, path@);
                }
            },
        }
    }
    proof {
        assert forall|q: Piece|
            search_reachable(b, spawned(block_type), q) && is_landing(b, q) implies exists|i: int|
                0 <= i < landings@.len() && #[trigger] landings@[i].piece == q by {
            let s = choose|s: Seq<Piece>| is_search_chain(b, s) && s[0] == spawned(block_type) && s[s.len() - 1] == q;
            assert forall|yi: int, xi: int, ri: int|
                0 <= yi < INTERNAL_HEIGHT && 0 <= xi < 16 && 0 <= ri < 4 && #[trigger] visited[yi][xi][ri] implies processed(
                    b,
                    visited,
                    landings@,
                    key_piece(block_type, xi, yi, ri),
                ) by {
            }
            lemma_closure(b, block_type, visited, landings@, s, s.len() - 1);
            lemma_key_piece_of(block_type, q);
            assert(visited[q.y as int][q.x + 3][q.rotation as int]);
        }
    }
    landings
}


// ----------------------------------------------------------------------------
// Playing a path on a game
// ----------------------------------------------------------------------------

/// `k` steps to the right, or to the left.
pub open spec fn side(right: bool, k: int) -> int {
    if right {
        k
    } else {
        -k
    }
}

/// The piece at `q` when it fits there.
pub open spec fn moved_to(b: Board, q: Piece) -> Option<Piece> {
    if valid_position(b, q) {
        Some(q)
    } else {
        None
    }
}

/// Where one input played on a game takes its piece, as the contracts of
/// `Game::try_move` and `Game::try_rotate` state it: a step left, right or
/// down, a turn with kicks, or a hard drop (`try_move(0, 1)` until it
/// fails, which ends at the drop distance). `None` when the input does not take.
pub open spec fn game_input(b: Board, p: Piece, a: MoveAction) -> Option<Piece> {
    match a {
        MoveAction::MoveLeft => moved_to(b, p.shifted(-1, 0)),
        MoveAction::MoveRight => moved_to(b, p.shifted(1, 0)),
        MoveAction::SoftDrop => moved_to(b, p.shifted(0, 1)),
        MoveAction::RotateCW => rotate_result(b, p, RotationDirection::Clockwise),
        MoveAction::RotateCCW => rotate_result(b, p, RotationDirection::CounterClockwise),
        MoveAction::HardDrop => if exists|d: int| is_drop_distance(b, p, d) {
            Some(p.shifted(0, choose|d: int| is_drop_distance(b, p, d)))
        } else {
            None
        },
    }
}

/// Where playing `path` input by input on a game takes the piece `p`;
/// `None` when some input does not take.
pub open spec fn game_replay(b: Board, p: Piece, path: Seq<MoveAction>) -> Option<Piece>
    decreases path.len(),
{
    if path.len() == 0 {
        Some(p)
    } else {
        match game_replay(b, p, path.drop_last()) {
            Some(q) => game_input(b, q, path.last()),
            None => None,
        }
    }
}

/// The six top rows of the board, where pieces spawn and turn, are empty.
pub open spec fn top_rows_empty(b: Board) -> bool {
    forall|y: int, x: int| 0 <= y < 6 && 0 <= x < BOARD_WIDTH ==> #[trigger] b[y][x] is None
}

proof fn lemma_game_replay_append(b: Board, p: Piece, s1: Seq<MoveAction>, s2: Seq<MoveAction>)
    ensures
        game_replay(b, p, s1 + s2) == match game_replay(b, p, s1) {
            Some(q) => game_replay(b, q, s2),
            None => None,
        },
    decreases s2.len(),
{
    if s2.len() == 0 {
        assert(s1 + s2 =~= s1);
    } else {
        lemma_game_replay_append(b, p, s1, s2.drop_last());
        assert((s1 + s2).drop_last() =~= s1 + s2.drop_last());
        assert((s1 + s2).last() == s2.last());
    }
}

/// A search input that takes plays the same way on a game.
proof fn lemma_input_plays(b: Board, p: Piece, a: MoveAction)
    requires
        input_step(b, p, a) is Some,
    ensures
        game_input(b, p, a) == input_step(b, p, a),
{
}

/// A search path that replays plays the same way on a game.
proof fn lemma_replay_plays(b: Board, p: Piece, path: Seq<MoveAction>)
    requires
        replay(b, p, path) is Some,
    ensures
        game_replay(b, p, path) == replay(b, p, path),
    decreases path.len(),
{
    if path.len() > 0 {
        lemma_replay_plays(b, p, path.drop_last());
        let q = replay(b, p, path.drop_last())->0;
        lemma_input_plays(b, q, path.last());
    }
}

/// A hard drop leaves a resting piece where it is.
proof fn lemma_hard_drop_at_landing(b: Board, p: Piece)
    requires
        is_landing(b, p),
    ensures
        game_input(b, p, MoveAction::HardDrop) == Some(p),
{
    assert(p.shifted(0, 0) == p);
    assert(is_drop_distance(b, p, 0));
    let d = choose|d: int| is_drop_distance(b, p, d);
    law_drop_distance_unique(b, p, d, 0);
}

/// Along a search chain from a spawned piece the rotation stays a state
/// `0..4`, and an O piece never turns.
proof fn lemma_chain_rotation(b: Board, s: Seq<Piece>, i: int)
    requires
        is_search_chain(b, s),
        s[0].rotation == 0,
        0 <= i < s.len(),
    ensures
        s[i].rotation < 4,
        s[0].block_type == BlockType::O ==> s[i].block_type == BlockType::O && s[i].rotation == 0,
    decreases i,
{
    if i > 0 {
        lemma_chain_rotation(b, s, i - 1);
        let k = i - 1;
        assert(search_step(b, s[k], s[k + 1]));
        assert(s[k + 1] == s[i]);
    }
}

/// With the top rows empty, the spawned piece fits in every rotation state.
proof fn lemma_spawn_turns_fit(b: Board, bt: BlockType, r: int)
    requires
        top_rows_empty(b),
        0 <= r < 4,
    ensures
        valid_position(b, spawned(bt).rotated_to(r)),
{
    let p = spawned(bt).rotated_to(r);
    lemma_offsets_small(bt, r);
    assert forall|i: int| 0 <= i < 4 implies #[trigger] block_free(b, p, i) by {
        let c = p.cell(i);
        assert(0 <= c.1 < 6 && 0 <= c.0 < BOARD_WIDTH);
        assert(b[c.1][c.0] is None);
    }
}

/// With the top rows empty, the spawned piece turns in place: the first
/// kick, no shift, fits.
proof fn lemma_spawn_turn(b: Board, bt: BlockType, r: int, dir: RotationDirection)
    requires
        top_rows_empty(b),
        0 <= r < 4,
        bt != BlockType::O,
    ensures
        rotate_result(b, spawned(bt).rotated_to(r), dir) == Some(
            spawned(bt).rotated_to(
                match dir {
                    RotationDirection::Clockwise => (r + 1) % 4,
                    RotationDirection::CounterClockwise => (r + 3) % 4,
                },
            ),
        ),
{
    let p = spawned(bt).rotated_to(r);
    let to: int = match dir {
        RotationDirection::Clockwise => (r + 1) % 4,
        RotationDirection::CounterClockwise => (r + 3) % 4,
    };
    lemma_spawn_turns_fit(b, bt, to);
    let kicks = kick_table(bt, r, to);
    assert(kicks.len() > 0 && kicks[0] == (0i32, 0i32));
    assert(p.rotated_to(to).shifted(0, 0) == spawned(bt).rotated_to(to));
    assert(p.rotated_to(to) == spawned(bt).rotated_to(to));
}

/// Playing `n` sideways steps moves the piece `n` columns when every column
/// on the way fits.
proof fn lemma_shift_plays(b: Board, p: Piece, n: int, right: bool)
    requires
        0 <= n <= 20,
        -20 <= p.x <= 20,
        forall|k: int| 0 <= k <= n ==> #[trigger] valid_position(b, p.shifted(side(right, k), 0)),
    ensures
        game_replay(
            b,
            p,
            Seq::new(n as nat, |i: int| if right { MoveAction::MoveRight } else { MoveAction::MoveLeft }),
        ) == Some(p.shifted(side(right, n), 0)),
    decreases n,
{
    let path = Seq::new(n as nat, |i: int| if right { MoveAction::MoveRight } else { MoveAction::MoveLeft });
    if n == 0 {
        assert(p.shifted(0, 0) == p);
    } else {
        lemma_shift_plays(b, p, n - 1, right);
        assert(path.drop_last() =~= Seq::new(
            (n - 1) as nat,
            |i: int| if right { MoveAction::MoveRight } else { MoveAction::MoveLeft },
        ));
        let q = p.shifted(side(right, n - 1), 0);
        assert(q.shifted(side(right, 1), 0) == p.shifted(side(right, n), 0));
        assert(valid_position(b, p.shifted(side(right, n), 0)));
    }
}

/// The turns of a direct path play on a game and turn the spawned piece in place.
proof fn lemma_turns_play(b: Board, bt: BlockType, r: usize)
    requires
        top_rows_empty(b),
        r < 4,
        bt == BlockType::O ==> r == 0,
    ensures
        game_replay(b, spawned(bt), rotation_actions(r)) == Some(spawned(bt).rotated_to(r as int)),
{
    let sp = spawned(bt);
    assert(sp.rotated_to(0) == sp);
    reveal_with_fuel(game_replay, 3);
    if r == 1 {
        lemma_spawn_turn(b, bt, 0, RotationDirection::Clockwise);
        assert(rotation_actions(r).drop_last() =~= Seq::<MoveAction>::empty());
    } else if r == 2 {
        lemma_spawn_turn(b, bt, 0, RotationDirection::Clockwise);
        lemma_spawn_turn(b, bt, 1, RotationDirection::Clockwise);
        assert(rotation_actions(r).drop_last() =~= seq![MoveAction::RotateCW]);
        assert(seq![MoveAction::RotateCW].drop_last() =~= Seq::<MoveAction>::empty());
    } else if r == 3 {
        lemma_spawn_turn(b, bt, 0, RotationDirection::CounterClockwise);
        assert(rotation_actions(r).drop_last() =~= Seq::<MoveAction>::empty());
    }
}

/// With the top rows empty, a resting piece lies below the spawn row: one
/// row lower than any place above it is still in the empty top rows.
proof fn lemma_landing_below_spawn(b: Board, target: Piece)
    requires
        top_rows_empty(b),
        target.rotation < 4,
        is_landing(b, target),
    ensures
        target.y >= 2,
{
    lemma_valid_bounds(b, target);
    lemma_offsets_small(target.block_type, target.rotation as int);
    if target.y < 2 {
        assert forall|i: int| 0 <= i < 4 implies #[trigger] block_free(b, target.shifted(0, 1), i) by {
            assert(block_free(b, target, i));
            let c = target.shifted(0, 1).cell(i);
            assert(b[c.1][c.0] is None);
        }
        assert(false);
    }
}

/// With the top rows empty, the turned spawned piece fits in every column
/// between the spawn column and the target column at the spawn row.
proof fn lemma_shift_columns_fit(b: Board, bt: BlockType, target: Piece)
    requires
        top_rows_empty(b),
        target.block_type == bt,
        target.rotation < 4,
        direct_drop_ok(b, spawned(bt), target),
    ensures
        ({
            let sp = spawned(bt);
            let a0 = sp.rotated_to(target.rotation as int);
            let right = target.x - sp.x >= 0;
            forall|k: int|
                0 <= k <= side(right, target.x - sp.x) ==> #[trigger] valid_position(b, a0.shifted(side(right, k), 0))
        }),
{
    let sp = spawned(bt);
    let r = target.rotation;
    let a0 = sp.rotated_to(r as int);
    let a1 = aligned_at(sp, target, sp.y as int);
    let dx = target.x - sp.x;
    let right = dx >= 0;
    lemma_spawn_turns_fit(b, bt, r as int);
    assert(valid_position(b, a1));
    assert forall|k: int| 0 <= k <= side(right, dx) implies #[trigger] valid_position(b, a0.shifted(side(right, k), 0)) by {
        let q = a0.shifted(side(right, k), 0);
        assert forall|i: int| 0 <= i < 4 implies #[trigger] block_free(b, q, i) by {
            assert(block_free(b, a0, i));
            assert(block_free(b, a1, i));
            let c = q.cell(i);
            assert(b[c.1][c.0] is None);
        }
    }
}

/// From the spawn row, above a target that can be dropped onto from above,
/// a hard drop lands the piece on the target.
proof fn lemma_drop_onto_target(b: Board, bt: BlockType, target: Piece)
    requires
        target.block_type == bt,
        target.y >= 2,
        is_landing(b, target),
        direct_drop_ok(b, spawned(bt), target),
    ensures
        game_input(b, aligned_at(spawned(bt), target, 2), MoveAction::HardDrop) == Some(target),
{
    let sp = spawned(bt);
    let a1 = aligned_at(sp, target, 2);
    let d = target.y - 2;
    assert forall|k: int| 1 <= k <= d implies #[trigger] valid_position(b, a1.shifted(0, k)) by {
        assert(a1.shifted(0, k) == aligned_at(sp, target, 2 + k));
    }
    assert(a1.shifted(0, d + 1) == target.shifted(0, 1));
    assert(is_drop_distance(b, a1, d));
    let dd = choose|dd: int| is_drop_distance(b, a1, dd);
    law_drop_distance_unique(b, a1, dd, d);
    assert(a1.shifted(0, d) == target);
}

/// A direct path plays on a game and lands the piece on its target.
proof fn lemma_direct_path_plays(b: Board, bt: BlockType, target: Piece)
    requires
        top_rows_empty(b),
        target.block_type == bt,
        target.rotation < 4,
        bt == BlockType::O ==> target.rotation == 0,
        is_landing(b, target),
        direct_drop_ok(b, spawned(bt), target),
    ensures
        game_replay(b, spawned(bt), direct_path(spawned(bt), target)) == Some(target),
{
    let sp = spawned(bt);
    let r = target.rotation;
    let a0 = sp.rotated_to(r as int);
    let a1 = aligned_at(sp, target, 2);
    let dx = target.x - sp.x;
    let right = dx >= 0;
    let n = side(right, dx);
    lemma_turns_play(b, bt, r);
    lemma_landing_below_spawn(b, target);
    lemma_shift_columns_fit(b, bt, target);
    lemma_valid_bounds(b, target);
    lemma_shift_plays(b, a0, n, right);
    assert(a0.shifted(side(right, n), 0) == a1);
    let shifts = Seq::new(n as nat, |i: int| if right { MoveAction::MoveRight } else { MoveAction::MoveLeft });
    assert(shift_actions(dx) =~= shifts);
    lemma_drop_onto_target(b, bt, target);
    lemma_game_replay_append(b, sp, rotation_actions(r), shift_actions(dx));
    lemma_game_replay_append(b, sp, rotation_actions(r) + shift_actions(dx), seq![MoveAction::HardDrop]);
    reveal_with_fuel(game_replay, 2);
    assert(seq![MoveAction::HardDrop].drop_last() =~= Seq::<MoveAction>::empty());
}

/// Law: every landing the search reports is played by its path on a game.
/// Input by input, as `try_move`, `try_rotate` and the hard drop state
/// them, the path takes the spawned piece to the landing's position. For a
/// searched path this holds on any board; for the direct path (turn at the
/// spawn row, shift, hard drop) it holds when the six top rows are empty.
pub proof fn law_landing_paths_play_on_a_game(b: Board, bt: BlockType, l: LandingInfo)
    requires
        landing_sound(b, bt, l),
    ensures
        !direct_drop_ok(b, spawned(bt), l.piece) ==> game_replay(b, spawned(bt), l.path@) == Some(l.piece),
        top_rows_empty(b) ==> game_replay(b, spawned(bt), l.path@) == Some(l.piece),
{
    let sp = spawned(bt);
    if direct_drop_ok(b, sp, l.piece) {
        if top_rows_empty(b) {
            let s = choose|s: Seq<Piece>| is_search_chain(b, s) && s[0] == sp && s[s.len() - 1] == l.piece;
            lemma_chain_rotation(b, s, s.len() - 1);
            lemma_direct_path_plays(b, bt, l.piece);
        }
    } else {
        let bfs = choose|bfs: Seq<MoveAction>|
            #[trigger] replay(b, sp, bfs) == Some(l.piece) && l.was_rotate == ends_with_turn(bfs) && l.path@
                == execution_path(b, sp, l.piece, bfs);
        lemma_replay_plays(b, sp, bfs);
        if bfs.len() > 0 && bfs[bfs.len() - 1] == MoveAction::HardDrop {
            assert(replay(b, sp, bfs) is None);
        }
        assert(l.path@ == bfs.push(MoveAction::HardDrop));
        assert(bfs.push(MoveAction::HardDrop).drop_last() =~= bfs);
        lemma_hard_drop_at_landing(b, l.piece);
    }
}

} // verus!
