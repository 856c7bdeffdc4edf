use vstd::prelude::*;
use crate::rng::{shuffle_blocks, random_ratio, random_range};
use crate::config::game::{
    TSPIN_0_SCORE, TSPIN_1_SCORE, TSPIN_2_SCORE, TSPIN_3_SCORE,
    line_clear_score, spec_line_clear_score,
};
use crate::scoring::{corner_count, count_corners, well_bonus, filled};
pub use crate::scoring::{get_well_bonus, count_t_slots};

verus! {

broadcast use vstd::seq_lib::group_to_multiset_ensures;

/// The seven tetrominoes.
#[derive(Debug, Clone, Copy, PartialEq, Eq, Structural)]
pub enum BlockType {
    I,
    O,
    T,
    S,
    Z,
    J,
    L,
}

/// The seven block types in their canonical order.
pub open spec fn all_block_types() -> Seq<BlockType> {
    seq![BlockType::I, BlockType::O, BlockType::T, BlockType::S, BlockType::Z, BlockType::J, BlockType::L]
}

impl BlockType {
    /// All seven block types, in the order I, O, T, S, Z, J, L.
    pub fn all() -> (r: [BlockType; 7])
        ensures
            r@ == all_block_types(),
    {
        let r = [BlockType::I, BlockType::O, BlockType::T, BlockType::S, BlockType::Z, BlockType::J, BlockType::L];
        assert(r@ =~= all_block_types());
        r
    }
}

pub const BOARD_WIDTH: usize = 10;
pub const BOARD_HEIGHT: usize = 20;
/// Visible height plus a hidden buffer of four rows on top.
pub const INTERNAL_HEIGHT: usize = 24;

/// `board[y][x]`, with `y` growing downwards.
pub type Board = [[Option<BlockType>; BOARD_WIDTH]; INTERNAL_HEIGHT];

/// The board as a sequence of 24 rows of 10 cells.
pub open spec fn grid_of(b: Board) -> Seq<Seq<Option<BlockType>>> {
    Seq::new(INTERNAL_HEIGHT as nat, |y: int| b[y]@)
}

/// A grid has the board's shape.
pub open spec fn grid_shaped(g: Seq<Seq<Option<BlockType>>>) -> bool {
    &&& g.len() == INTERNAL_HEIGHT
    &&& forall|y: int| 0 <= y < INTERNAL_HEIGHT ==> #[trigger] g[y].len() == BOARD_WIDTH
}

pub proof fn lemma_grid_of_shaped(b: Board)
    ensures
        grid_shaped(grid_of(b)),
        forall|y: int, x: int|
            0 <= y < INTERNAL_HEIGHT && 0 <= x < BOARD_WIDTH ==> #[trigger] grid_of(b)[y][x] == b[y][x],
{
}

/// A board with no block on it.
pub open spec fn board_is_empty(b: Board) -> bool {
    forall|y: int, x: int| 0 <= y < INTERNAL_HEIGHT && 0 <= x < BOARD_WIDTH ==> #[trigger] b[y][x] is None
}

pub fn empty_board() -> (b: Board)
    ensures
        board_is_empty(b),
{
    let b: Board = [[None; BOARD_WIDTH]; INTERNAL_HEIGHT];
    b
}

/// Cell offsets of each block type in each rotation state, `y` growing downwards.
pub open spec fn piece_offsets(bt: BlockType, r: int) -> Seq<(i32, i32)> {
    match bt {
        BlockType::I => if r == 0 {
            seq![(-1i32, 0i32), (0i32, 0i32), (1i32, 0i32), (2i32, 0i32)]
        } else if r == 1 {
            seq![(1i32, -1i32), (1i32, 0i32), (1i32, 1i32), (1i32, 2i32)]
        } else if r == 2 {
            seq![(-1i32, 1i32), (0i32, 1i32), (1i32, 1i32), (2i32, 1i32)]
        } else {
            seq![(0i32, -1i32), (0i32, 0i32), (0i32, 1i32), (0i32, 2i32)]
        },
        BlockType::O => seq![(0i32, 0i32), (1i32, 0i32), (0i32, 1i32), (1i32, 1i32)],
        BlockType::T => if r == 0 {
            seq![(0i32, -1i32), (-1i32, 0i32), (0i32, 0i32), (1i32, 0i32)]
        } else if r == 1 {
            seq![(0i32, -1i32), (0i32, 0i32), (1i32, 0i32), (0i32, 1i32)]
        } else if r == 2 {
            seq![(-1i32, 0i32), (0i32, 0i32), (1i32, 0i32), (0i32, 1i32)]
        } else {
            seq![(0i32, -1i32), (-1i32, 0i32), (0i32, 0i32), (0i32, 1i32)]
        },
        BlockType::S => if r == 0 {
            seq![(0i32, -1i32), (1i32, -1i32), (-1i32, 0i32), (0i32, 0i32)]
        } else if r == 1 {
            seq![(0i32, -1i32), (0i32, 0i32), (1i32, 0i32), (1i32, 1i32)]
        } else if r == 2 {
            seq![(0i32, 0i32), (1i32, 0i32), (-1i32, 1i32), (0i32, 1i32)]
        } else {
            seq![(-1i32, -1i32), (-1i32, 0i32), (0i32, 0i32), (0i32, 1i32)]
        },
        BlockType::Z => if r == 0 {
            seq![(-1i32, -1i32), (0i32, -1i32), (0i32, 0i32), (1i32, 0i32)]
        } else if r == 1 {
            seq![(1i32, -1i32), (0i32, 0i32), (1i32, 0i32), (0i32, 1i32)]
        } else if r == 2 {
            seq![(-1i32, 0i32), (0i32, 0i32), (0i32, 1i32), (1i32, 1i32)]
        } else {
            seq![(0i32, -1i32), (-1i32, 0i32), (0i32, 0i32), (-1i32, 1i32)]
        },
        BlockType::J => if r == 0 {
            seq![(-1i32, -1i32), (-1i32, 0i32), (0i32, 0i32), (1i32, 0i32)]
        } else if r == 1 {
            seq![(0i32, -1i32), (1i32, -1i32), (0i32, 0i32), (0i32, 1i32)]
        } else if r == 2 {
            seq![(-1i32, 0i32), (0i32, 0i32), (1i32, 0i32), (1i32, 1i32)]
        } else {
            seq![(0i32, -1i32), (0i32, 0i32), (-1i32, 1i32), (0i32, 1i32)]
        },
        BlockType::L => if r == 0 {
            seq![(1i32, -1i32), (-1i32, 0i32), (0i32, 0i32), (1i32, 0i32)]
        } else if r == 1 {
            seq![(0i32, -1i32), (0i32, 0i32), (0i32, 1i32), (1i32, 1i32)]
        } else if r == 2 {
            seq![(-1i32, 0i32), (0i32, 0i32), (1i32, 0i32), (-1i32, 1i32)]
        } else {
            seq![(-1i32, -1i32), (0i32, -1i32), (0i32, 0i32), (0i32, 1i32)]
        },
    }
}

/// Every offset lies in `-1..=2` on both axes.
pub proof fn lemma_offsets_small(bt: BlockType, r: int)
    requires
        0 <= r < 4,
    ensures
        piece_offsets(bt, r).len() == 4,
        forall|i: int|
            0 <= i < 4 ==> -1 <= #[trigger] piece_offsets(bt, r)[i].0 <= 2 && -1 <= piece_offsets(
                bt,
                r,
            )[i].1 <= 2,
{
}

/// One of the four cells of `s` is at `c`.
pub open spec fn has_cell(s: Seq<(i32, i32)>, c: (int, int)) -> bool {
    ||| (s[0].0 as int, s[0].1 as int) == c
    ||| (s[1].0 as int, s[1].1 as int) == c
    ||| (s[2].0 as int, s[2].1 as int) == c
    ||| (s[3].0 as int, s[3].1 as int) == c
}

/// Two cells share an edge.
pub open spec fn edge_adjacent(a: (i32, i32), b: (i32, i32)) -> bool {
    ||| a.0 == b.0 && (a.1 - b.1 == 1 || b.1 - a.1 == 1)
    ||| a.1 == b.1 && (a.0 - b.0 == 1 || b.0 - a.0 == 1)
}

/// One flood step over the four cells of `s`: a cell is reached when it was
/// reached before or shares an edge with a cell that was.
pub open spec fn flood_step(s: Seq<(i32, i32)>, reached: Seq<bool>) -> Seq<bool> {
    Seq::new(
        4,
        |i: int|
            reached[i] || (reached[0] && edge_adjacent(s[i], s[0])) || (reached[1] && edge_adjacent(s[i], s[1]))
                || (reached[2] && edge_adjacent(s[i], s[2])) || (reached[3] && edge_adjacent(s[i], s[3])),
    )
}

/// The four cells of `s` are edge-connected: flooding from the first cell
/// through shared edges reaches all of them (three steps suffice for four).
pub open spec fn edge_connected(s: Seq<(i32, i32)>) -> bool {
    let r = flood_step(s, flood_step(s, flood_step(s, seq![true, false, false, false])));
    r[0] && r[1] && r[2] && r[3]
}

/// Law: the offset tables are the SRS shapes. In every rotation state the
/// four cells are distinct and edge-connected. Turning clockwise (y points
/// down) maps each cell `(x, y)` to `(-y, x)` for T, S, Z, J and L, and to
/// `(1 - y, x)` for I; O looks the same in every state. So a cell `c` is in
/// the next state exactly when the cell that turns into `c` is in this one.
pub proof fn law_piece_offsets_turn(bt: BlockType, r: int)
    requires
        0 <= r < 4,
    ensures
        forall|i: int, j: int| 0 <= i < j < 4 ==> piece_offsets(bt, r)[i] != piece_offsets(bt, r)[j],
        edge_connected(piece_offsets(bt, r)),
        bt == BlockType::O ==> piece_offsets(bt, (r + 1) % 4) == piece_offsets(bt, r),
        bt == BlockType::I ==> forall|c: (int, int)|
            has_cell(piece_offsets(bt, (r + 1) % 4), c) <==> has_cell(piece_offsets(bt, r), (c.1, 1 - c.0)),
        bt != BlockType::O && bt != BlockType::I ==> forall|c: (int, int)|
            has_cell(piece_offsets(bt, (r + 1) % 4), c) <==> has_cell(piece_offsets(bt, r), (c.1, -c.0)),
{
    assert(r == 0 || r == 1 || r == 2 || r == 3);
}

/// The offsets of `block_type` in rotation state `rotation % 4`.
pub fn get_piece_offsets(block_type: BlockType, rotation: usize) -> (r: [(i32, i32); 4])
    ensures
        r@ == piece_offsets(block_type, rotation as int % 4),
{
    let r = rotation % 4;
    let out: [(i32, i32); 4] = match block_type {
        BlockType::I => if r == 0 {
            [(-1, 0), (0, 0), (1, 0), (2, 0)]
        } else if r == 1 {
            [(1, -1), (1, 0), (1, 1), (1, 2)]
        } else if r == 2 {
            [(-1, 1), (0, 1), (1, 1), (2, 1)]
        } else {
            [(0, -1), (0, 0), (0, 1), (0, 2)]
        },
        BlockType::O => [(0, 0), (1, 0), (0, 1), (1, 1)],
        BlockType::T => if r == 0 {
            [(0, -1), (-1, 0), (0, 0), (1, 0)]
        } else if r == 1 {
            [(0, -1), (0, 0), (1, 0), (0, 1)]
        } else if r == 2 {
            [(-1, 0), (0, 0), (1, 0), (0, 1)]
        } else {
            [(0, -1), (-1, 0), (0, 0), (0, 1)]
        },
        BlockType::S => if r == 0 {
            [(0, -1), (1, -1), (-1, 0), (0, 0)]
        } else if r == 1 {
            [(0, -1), (0, 0), (1, 0), (1, 1)]
        } else if r == 2 {
            [(0, 0), (1, 0), (-1, 1), (0, 1)]
        } else {
            [(-1, -1), (-1, 0), (0, 0), (0, 1)]
        },
        BlockType::Z => if r == 0 {
            [(-1, -1), (0, -1), (0, 0), (1, 0)]
        } else if r == 1 {
            [(1, -1), (0, 0), (1, 0), (0, 1)]
        } else if r == 2 {
            [(-1, 0), (0, 0), (0, 1), (1, 1)]
        } else {
            [(0, -1), (-1, 0), (0, 0), (-1, 1)]
        },
        BlockType::J => if r == 0 {
            [(-1, -1), (-1, 0), (0, 0), (1, 0)]
        } else if r == 1 {
            [(0, -1), (1, -1), (0, 0), (0, 1)]
        } else if r == 2 {
            [(-1, 0), (0, 0), (1, 0), (1, 1)]
        } else {
            [(0, -1), (0, 0), (-1, 1), (0, 1)]
        },
        BlockType::L => if r == 0 {
            [(1, -1), (-1, 0), (0, 0), (1, 0)]
        } else if r == 1 {
            [(0, -1), (0, 0), (0, 1), (1, 1)]
        } else if r == 2 {
            [(-1, 0), (0, 0), (1, 0), (-1, 1)]
        } else {
            [(-1, -1), (0, -1), (0, 0), (0, 1)]
        },
    };
    assert(out@ =~= piece_offsets(block_type, rotation as int % 4));
    out
}

/// A falling tetromino: its type, the board position of its rotation centre,
/// and its rotation state (0: spawn, 1: right, 2: 180 degrees, 3: left).
#[derive(Debug, Clone, Copy, PartialEq, Eq, Structural)]
pub struct Piece {
    pub block_type: BlockType,
    pub x: i32,
    pub y: i32,
    pub rotation: usize,
}

/// The spawn column of each block type.
pub open spec fn spawn_x(bt: BlockType) -> i32 {
    match bt {
        BlockType::O => 4,
        _ => 3,
    }
}

/// The row in the hidden buffer where pieces spawn.
pub open spec fn spawn_y() -> i32 {
    2
}

/// The piece of type `bt` as it spawns.
pub open spec fn spawned(bt: BlockType) -> Piece {
    Piece { block_type: bt, x: spawn_x(bt), y: spawn_y(), rotation: 0 }
}

impl Piece {
    /// The board cell covered by the `i`-th block of this piece.
    pub open spec fn cell(self, i: int) -> (int, int) {
        let off = piece_offsets(self.block_type, self.rotation as int % 4)[i];
        (self.x + off.0, self.y + off.1)
    }

    /// The cell coordinates can be computed in `i32` with a margin of `m` around them.
    pub open spec fn fits(self, m: int) -> bool {
        &&& i32::MIN + 1 + m <= self.x <= i32::MAX - 2 - m
        &&& i32::MIN + 1 + m <= self.y <= i32::MAX - 2 - m
    }

    /// The same piece moved by `(dx, dy)`.
    pub open spec fn shifted(self, dx: int, dy: int) -> Piece {
        Piece {
            block_type: self.block_type,
            x: (self.x + dx) as i32,
            y: (self.y + dy) as i32,
            rotation: self.rotation,
        }
    }

    /// The same piece in another rotation state.
    pub open spec fn rotated_to(self, r: int) -> Piece {
        Piece { block_type: self.block_type, x: self.x, y: self.y, rotation: r as usize }
    }

    /// A new piece of `block_type` at its spawn position.
    pub fn new(block_type: BlockType) -> (p: Piece)
        ensures
            p == spawned(block_type),
    {
        let spawn_x: i32 = match block_type {
            BlockType::I => 3,
            BlockType::O => 4,
            _ => 3,
        };
        Piece { block_type, x: spawn_x, y: 2, rotation: 0 }
    }

    /// The four board cells covered by this piece.
    pub fn get_cells(&self) -> (cells: [(i32, i32); 4])
        requires
            self.fits(0),
        ensures
            forall|i: int|
                0 <= i < 4 ==> (#[trigger] cells[i].0 as int, cells[i].1 as int) == self.cell(i),
    {
        let offsets = get_piece_offsets(self.block_type, self.rotation);
        proof {
            lemma_offsets_small(self.block_type, self.rotation as int % 4);
        }
        let mut cells = [(0i32, 0i32); 4];
        let mut i: usize = 0;
        while i < 4
            invariant
                i <= 4,
                self.fits(0),
                offsets@ == piece_offsets(self.block_type, self.rotation as int % 4),
                forall|k: int|
                    0 <= k < 4 ==> -1 <= #[trigger] offsets@[k].0 <= 2 && -1 <= offsets@[k].1 <= 2,
                forall|k: int|
                    0 <= k < i ==> (#[trigger] cells[k].0 as int, cells[k].1 as int) == self.cell(k),
            decreases 4 - i,
        {
            let (dx, dy) = offsets[i];
            cells[i] = (self.x + dx, self.y + dy);
            i += 1;
        }
        cells
    }
}

/// `(x, y)` is on the board and holds no block.
pub open spec fn cell_free(b: Board, x: int, y: int) -> bool {
    0 <= x < BOARD_WIDTH && 0 <= y < INTERNAL_HEIGHT && b[y][x] is None
}

/// The `i`-th block of `p` lies on a free cell of `b`.
pub open spec fn block_free(b: Board, p: Piece, i: int) -> bool {
    cell_free(b, p.cell(i).0, p.cell(i).1)
}

/// Every block of `p` lies on a free cell of `b`.
pub open spec fn valid_position(b: Board, p: Piece) -> bool {
    forall|i: int| 0 <= i < 4 ==> #[trigger] block_free(b, p, i)
}

/// A piece in a valid position stays in a small box around the board.
pub proof fn lemma_valid_bounds(b: Board, p: Piece)
    requires
        valid_position(b, p),
    ensures
        -1 <= p.x <= 9,
        -1 <= p.y <= 23,
{
    assert(block_free(b, p, 0));
    assert(block_free(b, p, 1));
    assert(block_free(b, p, 2));
    assert(block_free(b, p, 3));
}

/// Checks every block of `piece` against the walls, the floor and the stack.
pub fn is_position_valid(board: &Board, piece: &Piece) -> (r: bool)
    requires
        piece.fits(0),
    ensures
        r == valid_position(*board, *piece),
{
    let cells = piece.get_cells();
    let mut i: usize = 0;
    while i < 4
        invariant
            i <= 4,
            forall|k: int|
                0 <= k < 4 ==> (#[trigger] cells[k].0 as int, cells[k].1 as int) == piece.cell(k),
            forall|k: int| 0 <= k < i ==> #[trigger] block_free(*board, *piece, k),
        decreases 4 - i,
    {
        let (cx, cy) = cells[i];
        assert((cells[i as int].0 as int, cells[i as int].1 as int) == piece.cell(i as int));
        if cx < 0 || cx >= BOARD_WIDTH as i32 || cy < 0 || cy >= INTERNAL_HEIGHT as i32 {
            assert(!block_free(*board, *piece, i as int));
            return false;
        }
        if board[cy as usize][cx as usize].is_some() {
            assert(!block_free(*board, *piece, i as int));
            return false;
        }
        i += 1;
    }
    true
}

#[derive(Debug, Clone, Copy, PartialEq, Eq, Structural)]
pub enum RotationDirection {
    Clockwise,
    CounterClockwise,
}

// ----------------------------------------------------------------------------
// The 7-bag randomizer
// ----------------------------------------------------------------------------

/// A piece seen in the mirror: J/L and S/Z swap, I, O and T stay.
pub open spec fn mirror_block(b: BlockType) -> BlockType {
    match b {
        BlockType::J => BlockType::L,
        BlockType::L => BlockType::J,
        BlockType::S => BlockType::Z,
        BlockType::Z => BlockType::S,
        other => other,
    }
}

/// A piece option seen in the mirror: see `mirror_block`.
pub open spec fn mirror_option(b: Option<BlockType>) -> Option<BlockType> {
    match b {
        Some(x) => Some(mirror_block(x)),
        None => None,
    }
}

/// A bag: the seven block types, each exactly once, in some order.
pub open spec fn is_full_bag(s: Seq<BlockType>) -> bool {
    s.len() == 7 && s.to_multiset() == all_block_types().to_multiset()
}

/// The queue is a remainder of one bag followed by whole bags: split from the
/// back into groups of seven, every group is a full bag and what is left in
/// front holds no type twice.
pub open spec fn bag_ok(q: Seq<BlockType>) -> bool
    decreases q.len(),
{
    if q.len() < 7 {
        q.no_duplicates()
    } else {
        is_full_bag(q.subrange(q.len() - 7, q.len() as int)) && bag_ok(q.subrange(0, q.len() - 7))
    }
}

proof fn lemma_all_types_distinct()
    ensures
        all_block_types().no_duplicates(),
        forall|t: BlockType| all_block_types().contains(t),
{
    let a = all_block_types();
    assert forall|t: BlockType| a.contains(t) by {
        match t {
            BlockType::I => assert(a[0] == t),
            BlockType::O => assert(a[1] == t),
            BlockType::T => assert(a[2] == t),
            BlockType::S => assert(a[3] == t),
            BlockType::Z => assert(a[4] == t),
            BlockType::J => assert(a[5] == t),
            BlockType::L => assert(a[6] == t),
        }
    }
}

/// A full bag holds each of the seven types exactly once.
pub proof fn lemma_full_bag_distinct(s: Seq<BlockType>)
    requires
        is_full_bag(s),
    ensures
        s.no_duplicates(),
        forall|t: BlockType| s.contains(t),
{
    lemma_all_types_distinct();
    all_block_types().lemma_multiset_has_no_duplicates();
    assert forall|x: BlockType| s.to_multiset().contains(x) implies s.to_multiset().count(x) == 1 by {
    }
    s.lemma_multiset_has_no_duplicates_conv();
    assert forall|t: BlockType| s.contains(t) by {
        assert(all_block_types().contains(t));
        assert(all_block_types().to_multiset().count(t) > 0);
    }
}

proof fn lemma_no_dup_drop_first(q: Seq<BlockType>)
    requires
        q.no_duplicates(),
        q.len() > 0,
    ensures
        q.drop_first().no_duplicates(),
{
    assert forall|i: int, j: int|
        0 <= i < q.drop_first().len() && 0 <= j < q.drop_first().len() && i != j implies q.drop_first()[i]
        != q.drop_first()[j] by {
        assert(q.drop_first()[i] == q[i + 1]);
        assert(q.drop_first()[j] == q[j + 1]);
    }
}

/// Taking the front piece keeps the bag structure.
pub proof fn lemma_bag_ok_drop_first(q: Seq<BlockType>)
    requires
        bag_ok(q),
        q.len() > 0,
    ensures
        bag_ok(q.drop_first()),
    decreases q.len(),
{
    if q.len() < 7 {
        lemma_no_dup_drop_first(q);
    } else if q.len() == 7 {
        assert(q.subrange(0, 7) =~= q);
        lemma_full_bag_distinct(q);
        lemma_no_dup_drop_first(q);
    } else {
        let n = q.len() as int;
        let d = q.drop_first();
        assert(d.subrange(d.len() - 7, d.len() as int) =~= q.subrange(n - 7, n));
        lemma_bag_ok_drop_first(q.subrange(0, n - 7));
        assert(d.subrange(0, d.len() - 7) =~= q.subrange(0, n - 7).drop_first());
    }
}

/// Appending a full bag keeps the bag structure.
pub proof fn lemma_bag_ok_append(q: Seq<BlockType>, b: Seq<BlockType>)
    requires
        bag_ok(q),
        is_full_bag(b),
    ensures
        bag_ok(q + b),
{
    let r = q + b;
    assert(r.subrange(r.len() - 7, r.len() as int) =~= b);
    assert(r.subrange(0, r.len() - 7) =~= q);
}

/// What one draw from a bag does: either the queue is long enough and its front
/// piece leaves it, or a fresh full bag is appended first.
pub open spec fn pop_relation(before: Seq<BlockType>, after: Seq<BlockType>, piece: BlockType) -> bool {
    if before.len() > 7 {
        piece == before[0] && after == before.drop_first()
    } else {
        exists|fresh: Seq<BlockType>|
            is_full_bag(fresh) && piece == (before + fresh)[0] && after == (before + fresh).drop_first()
    }
}

/// The queue is kept in whole bags: it holds one bag or more, and every
/// group of seven from the front is a full bag.
pub open spec fn at_bag_boundary(q: Seq<BlockType>) -> bool {
    &&& bag_ok(q)
    &&& q.len() >= 7
    &&& q.len() % 7 == 0
}

/// At a bag boundary the first seven pieces are a full bag.
proof fn lemma_boundary_front_bag(q: Seq<BlockType>)
    requires
        at_bag_boundary(q),
    ensures
        is_full_bag(q.take(7)),
    decreases q.len(),
{
    let n = q.len() as int;
    if n == 7 {
        assert(q.subrange(0, 7) =~= q.take(7));
    } else {
        let p = q.subrange(0, n - 7);
        lemma_boundary_front_bag(p);
        assert(p.take(7) =~= q.take(7));
    }
}

/// One draw keeps the bag structure.
proof fn lemma_pop_keeps_bag_ok(before: Seq<BlockType>, after: Seq<BlockType>, piece: BlockType)
    requires
        bag_ok(before),
        pop_relation(before, after, piece),
    ensures
        bag_ok(after),
{
    if before.len() > 7 {
        lemma_bag_ok_drop_first(before);
    } else {
        let fresh = choose|fresh: Seq<BlockType>|
            is_full_bag(fresh) && piece == (before + fresh)[0] && after == (before + fresh).drop_first();
        lemma_bag_ok_append(before, fresh);
        lemma_bag_ok_drop_first(before + fresh);
    }
}

/// After `i` of the seven draws from a bag boundary, the pieces dealt are
/// the first `i` of the front bag and the queue starts with the rest of it.
proof fn lemma_draws_from_boundary(qs: Seq<Seq<BlockType>>, pieces: Seq<BlockType>, i: int)
    requires
        qs.len() == 8,
        pieces.len() == 7,
        0 <= i <= 7,
        at_bag_boundary(qs[0]),
        forall|j: int| 0 <= j < 7 ==> #[trigger] pop_relation(qs[j], qs[j + 1], pieces[j]),
    ensures
        bag_ok(qs[i]),
        qs[i].len() >= 7 - i,
        i > 0 ==> qs[i].len() >= 7,
        (qs[i].len() + i) % 7 == 0,
        qs[i].take(7 - i) =~= qs[0].take(7).subrange(i, 7),
        pieces.take(i) =~= qs[0].take(7).take(i),
        qs[0].len() == 7 ==> qs[i].len() == if i == 0 { 7 } else { 14 - i },
    decreases i,
{
    if i > 0 {
        lemma_draws_from_boundary(qs, pieces, i - 1);
        let q = qs[i - 1];
        let k = i - 1;
        assert(pop_relation(qs[k], qs[k + 1], pieces[k]));
        assert(qs[k + 1] == qs[i]);
        lemma_pop_keeps_bag_ok(q, qs[i], pieces[i - 1]);
        assert(q[0] == qs[0].take(7)[i - 1]) by {
            assert(q.take(7 - (i - 1))[0] == q[0]);
        }
        if q.len() > 7 {
            assert(qs[i].take(7 - i) =~= q.take(7 - (i - 1)).subrange(1, 7 - (i - 1)));
        } else {
            let fresh = choose|fresh: Seq<BlockType>|
                is_full_bag(fresh) && pieces[i - 1] == (q + fresh)[0] && qs[i] == (q + fresh).drop_first();
            assert((q + fresh)[0] == q[0]);
            assert(qs[i].take(7 - i) =~= q.take(7 - (i - 1)).subrange(1, 7 - (i - 1)));
        }
        assert(pieces.take(i) =~= pieces.take(i - 1).push(pieces[i - 1]));
        assert(qs[0].take(7).take(i) =~= qs[0].take(7).take(i - 1).push(qs[0].take(7)[i - 1]));
    }
}

/// Law (the 7-bag): from a bag boundary, the next seven draws deal each of
/// the seven types exactly once and leave the queue at a bag boundary again.
/// `Bag::new` starts at a boundary with seven pieces; from there the queue
/// holds between 7 and 13 pieces after each draw and seven again after the
/// seventh.
pub proof fn law_seven_draws_deal_a_bag(qs: Seq<Seq<BlockType>>, pieces: Seq<BlockType>)
    requires
        qs.len() == 8,
        pieces.len() == 7,
        at_bag_boundary(qs[0]),
        forall|j: int| 0 <= j < 7 ==> #[trigger] pop_relation(qs[j], qs[j + 1], pieces[j]),
    ensures
        is_full_bag(pieces),
        at_bag_boundary(qs[7]),
        qs[0].len() == 7 ==> forall|j: int| 1 <= j <= 7 ==> 7 <= #[trigger] qs[j].len() <= 13,
        qs[0].len() == 7 ==> qs[7].len() == 7,
{
    lemma_boundary_front_bag(qs[0]);
    lemma_draws_from_boundary(qs, pieces, 7);
    assert(pieces =~= pieces.take(7));
    assert(qs[0].take(7).take(7) =~= qs[0].take(7));
    if qs[0].len() == 7 {
        assert forall|j: int| 1 <= j <= 7 implies 7 <= #[trigger] qs[j].len() <= 13 by {
            lemma_draws_from_boundary(qs, pieces, j);
        }
    }
}

/// After `7 * k` draws from a queue of one full bag, the queue is one full
/// bag's worth again: seven pieces, at a bag boundary.
proof fn lemma_bag_boundary_every_seven(qs: Seq<Seq<BlockType>>, pieces: Seq<BlockType>, k: int)
    requires
        qs.len() == pieces.len() + 1,
        is_full_bag(qs[0]),
        bag_ok(qs[0]),
        forall|j: int| 0 <= j < pieces.len() ==> #[trigger] pop_relation(qs[j], qs[j + 1], pieces[j]),
        0 <= k,
        7 * k <= pieces.len(),
    ensures
        at_bag_boundary(qs[7 * k]),
        qs[7 * k].len() == 7,
    decreases k,
{
    if k > 0 {
        lemma_bag_boundary_every_seven(qs, pieces, k - 1);
        lemma_seven_draws_at(qs, pieces, k - 1);
    }
}

/// The seven draws after `7 * k` from a queue of one full bag, as a law of
/// seven draws from a bag boundary.
proof fn lemma_seven_draws_at(qs: Seq<Seq<BlockType>>, pieces: Seq<BlockType>, k: int)
    requires
        qs.len() == pieces.len() + 1,
        forall|j: int| 0 <= j < pieces.len() ==> #[trigger] pop_relation(qs[j], qs[j + 1], pieces[j]),
        0 <= k,
        7 * k + 7 <= pieces.len(),
        at_bag_boundary(qs[7 * k]),
        qs[7 * k].len() == 7,
    ensures
        is_full_bag(pieces.subrange(7 * k, 7 * k + 7)),
        at_bag_boundary(qs[7 * k + 7]),
        qs[7 * k + 7].len() == 7,
        forall|j: int| 7 * k + 1 <= j <= 7 * k + 7 ==> 7 <= #[trigger] qs[j].len() <= 13,
{
    let b = 7 * k;
    let sq = qs.subrange(b, b + 8);
    let sp = pieces.subrange(b, b + 7);
    assert forall|j: int| 0 <= j < 7 implies #[trigger] pop_relation(sq[j], sq[j + 1], sp[j]) by {
        assert(pop_relation(qs[b + j], qs[b + j + 1], pieces[b + j]));
        assert(sq[j + 1] == qs[b + j + 1]);
    }
    law_seven_draws_deal_a_bag(sq, sp);
    assert(sq[7] == qs[b + 7]);
    assert forall|j: int| b + 1 <= j <= b + 7 implies 7 <= #[trigger] qs[j].len() <= 13 by {
        assert(sq[j - b] == qs[j]);
    }
}

/// Law (the 7-bag, from a new bag): starting from `Bag::new` (one full bag),
/// draws number `7 * k` to `7 * k + 6` are each of the seven types exactly
/// once, for every `k`, and the queue holds between 7 and 13 pieces after
/// each of those draws.
pub proof fn law_every_seven_draws_from_a_new_bag(qs: Seq<Seq<BlockType>>, pieces: Seq<BlockType>, k: int)
    requires
        qs.len() == pieces.len() + 1,
        is_full_bag(qs[0]),
        bag_ok(qs[0]),
        forall|j: int| 0 <= j < pieces.len() ==> #[trigger] pop_relation(qs[j], qs[j + 1], pieces[j]),
        0 <= k,
        7 * k + 7 <= pieces.len(),
    ensures
        is_full_bag(pieces.subrange(7 * k, 7 * k + 7)),
        forall|j: int| 7 * k + 1 <= j <= 7 * k + 7 ==> 7 <= #[trigger] qs[j].len() <= 13,
{
    lemma_bag_boundary_every_seven(qs, pieces, k);
    lemma_seven_draws_at(qs, pieces, k);
}

/// The 7-bag randomizer: pieces are dealt from shuffled bags of all seven types.
#[derive(Debug, Clone)]
pub struct Bag {
    pub queue: Vec<BlockType>,
}

impl Bag {
    /// A bag queue holding one freshly shuffled bag.
    pub fn new() -> (bag: Bag)
        ensures
            is_full_bag(bag.queue@),
            bag_ok(bag.queue@),
    {
        let mut bag = Bag { queue: Vec::new() };
        bag.refill();
        proof {
            reveal_with_fuel(bag_ok, 2);
            assert(bag.queue@.subrange(0, 7) =~= bag.queue@);
            assert(bag.queue@.subrange(0, 0) =~= Seq::<BlockType>::empty());
        }
        bag
    }

    fn refill(&mut self)
        ensures
            exists|fresh: Seq<BlockType>|
                is_full_bag(fresh) && final(self).queue@ == old(self).queue@ + fresh,
    {
        let all = BlockType::all();
        let mut new_bag: Vec<BlockType> = Vec::new();
        let mut i: usize = 0;
        while i < 7
            invariant
                i <= 7,
                all@ == all_block_types(),
                new_bag@ == all_block_types().take(i as int),
            decreases 7 - i,
        {
            new_bag.push(all[i]);
            assert(all_block_types().take(i as int + 1) =~= all_block_types().take(i as int).push(all@[i as int]));
            i += 1;
        }
        assert(all_block_types().take(7) =~= all_block_types());
        let ghost before_shuffle = new_bag@;
        shuffle_blocks(&mut new_bag);
        let ghost fresh = new_bag@;
        self.queue.append(&mut new_bag);
        proof {
            assert(before_shuffle.to_multiset().len() == 7);
            assert(fresh.to_multiset().len() == 7);
            assert(fresh.len() == 7);
            assert(is_full_bag(fresh));
        }
    }

    /// Deals the next piece, refilling with a fresh bag when seven or fewer remain.
    pub fn pop(&mut self) -> (piece: BlockType)
        ensures
            pop_relation(old(self).queue@, final(self).queue@, piece),
            bag_ok(old(self).queue@) ==> bag_ok(final(self).queue@),
    {
        let ghost before = self.queue@;
        if self.queue.len() <= 7 {
            self.refill();
        }
        let ghost mid = self.queue@;
        proof {
            if before.len() <= 7 {
                let fresh = choose|fresh: Seq<BlockType>| is_full_bag(fresh) && mid == before + fresh;
                if bag_ok(before) {
                    lemma_bag_ok_append(before, fresh);
                }
            }
        }
        let piece = self.queue.remove(0);
        proof {
            assert(self.queue@ =~= mid.drop_first());
            if bag_ok(mid) {
                lemma_bag_ok_drop_first(mid);
            }
        }
        piece
    }

    /// The first `count` pieces of the queue (fewer when the queue is shorter).
    pub fn peek_next(&self, count: usize) -> (r: Vec<BlockType>)
        ensures
            r@ == self.queue@.take(if count < self.queue@.len() { count as int } else { self.queue@.len() as int }),
    {
        let n = if count < self.queue.len() { count } else { self.queue.len() };
        let mut r: Vec<BlockType> = Vec::new();
        let mut i: usize = 0;
        while i < n
            invariant
                i <= n,
                n <= self.queue@.len(),
                r@ == self.queue@.take(i as int),
            decreases n - i,
        {
            r.push(self.queue[i]);
            assert(self.queue@.take(i as int + 1) =~= self.queue@.take(i as int).push(self.queue@[i as int]));
            i += 1;
        }
        r
    }
}


// ----------------------------------------------------------------------------
// Super Rotation System kick tables
// ----------------------------------------------------------------------------

/// The SRS wall kick offsets `(dx, dy)` tried in order when rotating from
/// state `from` to state `to` (`y` grows downwards); the I piece has its own
/// table, every other piece shares one. Pairs that are not a quarter turn get
/// five zero offsets.
pub open spec fn kick_table(bt: BlockType, from: int, to: int) -> Seq<(i32, i32)> {
    if bt == BlockType::I {
        if from == 0 && to == 1 {
            seq![(0i32, 0i32), (-2i32, 0i32), (1i32, 0i32), (-2i32, -1i32), (1i32, 2i32)]
        } else if from == 1 && to == 0 {
            seq![(0i32, 0i32), (2i32, 0i32), (-1i32, 0i32), (2i32, 1i32), (-1i32, -2i32)]
        } else if from == 1 && to == 2 {
            seq![(0i32, 0i32), (-1i32, 0i32), (2i32, 0i32), (-1i32, 2i32), (2i32, -1i32)]
        } else if from == 2 && to == 1 {
            seq![(0i32, 0i32), (1i32, 0i32), (-2i32, 0i32), (1i32, -2i32), (-2i32, 1i32)]
        } else if from == 2 && to == 3 {
            seq![(0i32, 0i32), (2i32, 0i32), (-1i32, 0i32), (2i32, 1i32), (-1i32, -2i32)]
        } else if from == 3 && to == 2 {
            seq![(0i32, 0i32), (-2i32, 0i32), (1i32, 0i32), (-2i32, -1i32), (1i32, 2i32)]
        } else if from == 3 && to == 0 {
            seq![(0i32, 0i32), (1i32, 0i32), (-2i32, 0i32), (1i32, -2i32), (-2i32, 1i32)]
        } else if from == 0 && to == 3 {
            seq![(0i32, 0i32), (-1i32, 0i32), (2i32, 0i32), (-1i32, 2i32), (2i32, -1i32)]
        } else {
            seq![(0i32, 0i32), (0i32, 0i32), (0i32, 0i32), (0i32, 0i32), (0i32, 0i32)]
        }
    } else {
        if from == 0 && to == 1 {
            seq![(0i32, 0i32), (-1i32, 0i32), (-1i32, -1i32), (0i32, 2i32), (-1i32, 2i32)]
        } else if from == 1 && to == 0 {
            seq![(0i32, 0i32), (1i32, 0i32), (1i32, 1i32), (0i32, -2i32), (1i32, -2i32)]
        } else if from == 1 && to == 2 {
            seq![(0i32, 0i32), (1i32, 0i32), (1i32, 1i32), (0i32, -2i32), (1i32, -2i32)]
        } else if from == 2 && to == 1 {
            seq![(0i32, 0i32), (-1i32, 0i32), (-1i32, -1i32), (0i32, 2i32), (-1i32, 2i32)]
        } else if from == 2 && to == 3 {
            seq![(0i32, 0i32), (1i32, 0i32), (1i32, -1i32), (0i32, 2i32), (1i32, 2i32)]
        } else if from == 3 && to == 2 {
            seq![(0i32, 0i32), (-1i32, 0i32), (-1i32, 1i32), (0i32, -2i32), (-1i32, -2i32)]
        } else if from == 3 && to == 0 {
            seq![(0i32, 0i32), (-1i32, 0i32), (-1i32, 1i32), (0i32, -2i32), (-1i32, -2i32)]
        } else if from == 0 && to == 3 {
            seq![(0i32, 0i32), (1i32, 0i32), (1i32, -1i32), (0i32, 2i32), (1i32, 2i32)]
        } else {
            seq![(0i32, 0i32), (0i32, 0i32), (0i32, 0i32), (0i32, 0i32), (0i32, 0i32)]
        }
    }
}

/// Every kick offset lies in `-2..=2` on both axes.
pub proof fn lemma_kicks_small(bt: BlockType, from: int, to: int)
    ensures
        kick_table(bt, from, to).len() == 5,
        forall|i: int|
            0 <= i < 5 ==> -2 <= #[trigger] kick_table(bt, from, to)[i].0 <= 2 && -2 <= kick_table(
                bt,
                from,
                to,
            )[i].1 <= 2,
{
}

/// Law: the kick tables are antisymmetric. The `i`-th kick tried when turning
/// back from `to` to `from` is the opposite of the `i`-th kick tried when
/// turning from `from` to `to`.
pub proof fn law_kicks_antisymmetric(bt: BlockType, from: int, to: int, i: int)
    requires
        0 <= i < 5,
    ensures
        kick_table(bt, to, from)[i].0 == -kick_table(bt, from, to)[i].0,
        kick_table(bt, to, from)[i].1 == -kick_table(bt, from, to)[i].1,
{
}

/// The rotation state reached from `from` by turning in direction `dir`.
pub open spec fn rotation_target(from: usize, dir: RotationDirection) -> int {
    match dir {
        RotationDirection::Clockwise => (from + 1) % 4,
        RotationDirection::CounterClockwise => (from + 3) % 4,
    }
}

/// The first kick from index `i` on that puts `p` in a valid position, if any.
pub open spec fn first_fitting_kick(b: Board, p: Piece, kicks: Seq<(i32, i32)>, i: int) -> Option<Piece>
    decreases kicks.len() - i,
{
    if i < 0 || i >= kicks.len() {
        None
    } else {
        let t = p.shifted(kicks[i].0 as int, kicks[i].1 as int);
        if valid_position(b, t) {
            Some(t)
        } else {
            first_fitting_kick(b, p, kicks, i + 1)
        }
    }
}

/// The outcome of an SRS rotation of `p` on `b`: the O piece never turns;
/// any other piece takes the first kick that fits, or stays when none does.
pub open spec fn rotate_result(b: Board, p: Piece, dir: RotationDirection) -> Option<Piece> {
    if p.block_type == BlockType::O {
        None
    } else {
        let to = rotation_target(p.rotation, dir);
        first_fitting_kick(b, p.rotated_to(to), kick_table(p.block_type, p.rotation as int, to), 0)
    }
}

// ----------------------------------------------------------------------------
// Line clears
// ----------------------------------------------------------------------------

/// Every cell of the row holds a block.
pub open spec fn row_full(row: Seq<Option<BlockType>>) -> bool {
    forall|x: int| 0 <= x < BOARD_WIDTH ==> #[trigger] row[x] is Some
}

/// The rows of `g` from `y` down that are not full, top to bottom.
pub open spec fn kept_from(g: Seq<Seq<Option<BlockType>>>, y: int) -> Seq<Seq<Option<BlockType>>>
    decreases INTERNAL_HEIGHT - y,
{
    if y < 0 || y >= INTERNAL_HEIGHT {
        Seq::empty()
    } else if row_full(g[y]) {
        kept_from(g, y + 1)
    } else {
        seq![g[y]] + kept_from(g, y + 1)
    }
}

/// The rows that survive a line clear, top to bottom.
pub open spec fn kept_rows(g: Seq<Seq<Option<BlockType>>>) -> Seq<Seq<Option<BlockType>>> {
    kept_from(g, 0)
}

/// A row with no block.
pub open spec fn empty_row() -> Seq<Option<BlockType>> {
    Seq::new(BOARD_WIDTH as nat, |x: int| None::<BlockType>)
}

/// How many full rows a line clear removes.
pub open spec fn lines_cleared_by(g: Seq<Seq<Option<BlockType>>>) -> int {
    INTERNAL_HEIGHT - kept_rows(g).len()
}

/// The board after a line clear: the surviving rows keep their order and
/// settle at the bottom, with empty rows above them.
pub open spec fn cleared_grid(g: Seq<Seq<Option<BlockType>>>) -> Seq<Seq<Option<BlockType>>> {
    let k = kept_rows(g);
    let top = INTERNAL_HEIGHT - k.len();
    Seq::new(INTERNAL_HEIGHT as nat, |y: int| if y < top { empty_row() } else { k[y - top] })
}

pub proof fn lemma_kept_from_len(g: Seq<Seq<Option<BlockType>>>, y: int)
    requires
        0 <= y <= INTERNAL_HEIGHT,
    ensures
        kept_from(g, y).len() <= INTERNAL_HEIGHT - y,
        forall|i: int| 0 <= i < kept_from(g, y).len() ==> !row_full(#[trigger] kept_from(g, y)[i]),
    decreases INTERNAL_HEIGHT - y,
{
    if y < INTERNAL_HEIGHT {
        lemma_kept_from_len(g, y + 1);
        let rest = kept_from(g, y + 1);
        if !row_full(g[y]) {
            let k = seq![g[y]] + rest;
            assert forall|i: int| 0 <= i < k.len() implies !row_full(#[trigger] k[i]) by {
                if i > 0 {
                    assert(k[i] == rest[i - 1]);
                }
            }
        }
    }
}

/// Law: a cleared board has no full row left, so clearing it again removes
/// nothing and changes nothing.
pub proof fn law_clear_idempotent(g: Seq<Seq<Option<BlockType>>>)
    requires
        grid_shaped(g),
    ensures
        lines_cleared_by(cleared_grid(g)) == 0,
        cleared_grid(cleared_grid(g)) == cleared_grid(g),
{
    let c = cleared_grid(g);
    lemma_kept_from_len(g, 0);
    let k = kept_rows(g);
    let top = INTERNAL_HEIGHT - k.len();
    assert forall|y: int| 0 <= y < INTERNAL_HEIGHT implies !row_full(#[trigger] c[y]) by {
        if y < top {
            assert(c[y][0] is None);
        } else {
            assert(c[y] == k[y - top]);
        }
    }
    lemma_kept_all(c, 0);
    assert(kept_rows(c).len() == INTERNAL_HEIGHT);
    assert(cleared_grid(c) =~= c);
}

proof fn lemma_kept_all(g: Seq<Seq<Option<BlockType>>>, y: int)
    requires
        0 <= y <= INTERNAL_HEIGHT,
        g.len() == INTERNAL_HEIGHT,
        forall|r: int| 0 <= r < INTERNAL_HEIGHT ==> !row_full(#[trigger] g[r]),
    ensures
        kept_from(g, y) == g.subrange(y, INTERNAL_HEIGHT as int),
    decreases INTERNAL_HEIGHT - y,
{
    if y < INTERNAL_HEIGHT {
        lemma_kept_all(g, y + 1);
        assert(kept_from(g, y) =~= g.subrange(y, INTERNAL_HEIGHT as int));
    } else {
        assert(g.subrange(y, INTERNAL_HEIGHT as int) =~= Seq::<Seq<Option<BlockType>>>::empty());
    }
}

// ----------------------------------------------------------------------------
// Placing a piece
// ----------------------------------------------------------------------------

/// Writes `v` into `(x, y)` when the cell is on the board.
pub open spec fn put_block(g: Seq<Seq<Option<BlockType>>>, x: int, y: int, v: Option<BlockType>) -> Seq<
    Seq<Option<BlockType>>,
> {
    if 0 <= x < BOARD_WIDTH && 0 <= y < INTERNAL_HEIGHT {
        g.update(y, g[y].update(x, v))
    } else {
        g
    }
}

/// The first `n` blocks of `p` written into `g` (blocks off the board are dropped).
pub open spec fn placed_first(g: Seq<Seq<Option<BlockType>>>, p: Piece, n: int) -> Seq<Seq<Option<BlockType>>>
    decreases n,
{
    if n <= 0 {
        g
    } else {
        put_block(placed_first(g, p, n - 1), p.cell(n - 1).0, p.cell(n - 1).1, Some(p.block_type))
    }
}

/// The board with all four blocks of `p` written into it.
pub open spec fn place_piece(g: Seq<Seq<Option<BlockType>>>, p: Piece) -> Seq<Seq<Option<BlockType>>> {
    placed_first(g, p, 4)
}

proof fn lemma_placed_first_shaped(g: Seq<Seq<Option<BlockType>>>, p: Piece, n: int)
    requires
        grid_shaped(g),
    ensures
        grid_shaped(placed_first(g, p, n)),
    decreases n,
{
    if n > 0 {
        lemma_placed_first_shaped(g, p, n - 1);
    }
}

// ----------------------------------------------------------------------------
// Scoring and attack
// ----------------------------------------------------------------------------

/// The score of a T-Spin clearing `c` lines.
pub open spec fn tspin_score(c: int) -> int {
    if c == 0 {
        TSPIN_0_SCORE as int
    } else if c == 1 {
        TSPIN_1_SCORE as int
    } else if c == 2 {
        TSPIN_2_SCORE as int
    } else if c == 3 {
        TSPIN_3_SCORE as int
    } else {
        0
    }
}

/// The name recorded for a T-Spin clearing `c` lines.
pub open spec fn tspin_label(c: int) -> Seq<char> {
    if c == 1 {
        "T-Spin Single"@
    } else if c == 2 {
        "T-Spin Double"@
    } else if c == 3 {
        "T-Spin Triple"@
    } else {
        "T-Spin"@
    }
}

/// The lines of garbage sent before the back-to-back bonus.
pub open spec fn base_attack(tspin: bool, c: int) -> int {
    if tspin {
        if c == 1 {
            1
        } else if c == 2 {
            4
        } else if c == 3 {
            6
        } else {
            0
        }
    } else {
        if c == 2 {
            1
        } else if c == 3 {
            2
        } else if c == 4 {
            4
        } else {
            0
        }
    }
}

/// Clears that keep or start a back-to-back chain: a T-Spin that clears one
/// to three lines, or a Tetris.
pub open spec fn btb_eligible(tspin: bool, c: int) -> bool {
    if tspin {
        1 <= c <= 3
    } else {
        c == 4
    }
}

/// The attack of a clear, with one extra line when it continues a back-to-back chain.
pub open spec fn attack(tspin: bool, c: int, btb_before: bool) -> int {
    base_attack(tspin, c) + if btb_eligible(tspin, c) && btb_before { 1int } else { 0int }
}

/// The back-to-back flag after a clear: set by an eligible clear, reset by
/// any other clear, kept when nothing is cleared.
pub open spec fn btb_after(tspin: bool, c: int, btb_before: bool) -> bool {
    if btb_eligible(tspin, c) {
        true
    } else if c > 0 {
        false
    } else {
        btb_before
    }
}

/// Garbage left pending after the attack cancels what it can.
pub open spec fn pending_after(pending: int, fire: int) -> int {
    if pending >= fire {
        pending - fire
    } else {
        0
    }
}

/// Lines sent to the opponent after cancelling pending garbage.
pub open spec fn sent_after(pending: int, fire: int) -> int {
    if pending >= fire {
        0
    } else {
        fire - pending
    }
}

// ----------------------------------------------------------------------------
// The game
// ----------------------------------------------------------------------------

/// A game as it starts: an empty board, the first piece of a full bag at its
/// spawn position, the rest of that bag queued, nothing held, all counters zero.
pub open spec fn fresh_game(g: Game) -> bool {
    &&& board_is_empty(g.board)
    &&& g.current_piece == spawned(g.current_piece.block_type)
    &&& exists|first: Seq<BlockType>| is_full_bag(first) && pop_relation(first, g.bag.queue@, g.current_piece.block_type)
    &&& bag_ok(g.bag.queue@)
    &&& g.hold_piece is None
    &&& !g.hold_locked
    &&& g.score == 0
    &&& g.lines_cleared == 0
    &&& !g.game_over
    &&& !g.last_action_was_rotate
    &&& g.last_t_spin is None
    &&& !g.btb
    &&& g.pending_garbage == 0
    &&& g.last_firepower == 0
    &&& g.last_garbage_hole is None
}

/// One player's game: the board, the falling piece, the bag queue, the hold
/// slot and the counters.
#[derive(Debug, Clone)]
pub struct Game {
    pub board: Board,
    pub current_piece: Piece,
    pub bag: Bag,
    pub hold_piece: Option<BlockType>,
    pub hold_locked: bool,
    pub score: u32,
    pub lines_cleared: u32,
    pub game_over: bool,
    pub last_action_was_rotate: bool,
    pub last_t_spin: Option<String>,
    pub btb: bool,
    pub pending_garbage: u32,
    pub last_firepower: u32,
    pub last_garbage_hole: Option<usize>,
}

/// The piece can move down exactly `d` rows: the rows `1..=d` below are all
/// valid positions and the next one is not.
pub open spec fn is_drop_distance(b: Board, p: Piece, d: int) -> bool {
    &&& d >= 0
    &&& forall|k: int| 1 <= k <= d ==> #[trigger] valid_position(b, p.shifted(0, k))
    &&& !valid_position(b, p.shifted(0, d + 1))
}

/// Law: a piece has at most one drop distance, so every way of dropping it
/// (the ghost piece, a hard drop) lands it on the same row.
pub proof fn law_drop_distance_unique(b: Board, p: Piece, d1: int, d2: int)
    requires
        is_drop_distance(b, p, d1),
        is_drop_distance(b, p, d2),
    ensures
        d1 == d2,
{
    if d1 < d2 {
        assert(valid_position(b, p.shifted(0, d1 + 1)));
    } else if d2 < d1 {
        assert(valid_position(b, p.shifted(0, d2 + 1)));
    }
}

impl Game {
    /// The same game with another falling piece and rotation flag.
    pub open spec fn with_piece(self, p: Piece, rotated: bool) -> Game {
        Game { current_piece: p, last_action_was_rotate: rotated, ..self }
    }

    /// The same game with another board.
    pub open spec fn with_board(self, b: Board) -> Game {
        Game { board: b, ..self }
    }

    /// The game after its piece has moved down `d` rows by single steps.
    pub open spec fn dropped(self, d: int) -> Game {
        if d == 0 {
            self
        } else {
            self.with_piece(self.current_piece.shifted(0, d), false)
        }
    }

    /// The board once the falling piece is written into it.
    pub open spec fn placed_grid(self) -> Seq<Seq<Option<BlockType>>> {
        place_piece(grid_of(self.board), self.current_piece)
    }

    /// Locking the falling piece scores a T-Spin: it is a T, its last
    /// successful action was a rotation, and at least three of the four cells
    /// diagonal to its centre are filled once it is in place.
    pub open spec fn locks_t_spin(self) -> bool {
        &&& self.current_piece.block_type == BlockType::T
        &&& self.last_action_was_rotate
        &&& corner_count(self.placed_grid(), self.current_piece.x as int, self.current_piece.y as int) >= 3
    }

    /// What `lock_piece` does: the piece is written into the board, full
    /// rows are cleared, the score grows by the clear (T-Spin table or line
    /// table) and the deep-well bonus of the new board, the attack is
    /// computed with back-to-back and cancelled against pending garbage, and
    /// the next piece is dealt from the bag.
    pub open spec fn lock_outcome(pre: Game, post: Game) -> bool {
        let g = pre.placed_grid();
        let c = lines_cleared_by(g);
        let ts = pre.locks_t_spin();
        let fire = attack(ts, c, pre.btb);
        &&& grid_of(post.board) == cleared_grid(g)
        &&& post.lines_cleared == pre.lines_cleared + c
        &&& post.score == pre.score + (if ts { tspin_score(c) } else { spec_line_clear_score(c) })
            + well_bonus(cleared_grid(g))
        &&& (if ts { post.last_t_spin matches Some(s) && s@ == tspin_label(c) } else { post.last_t_spin is None })
        &&& post.btb == btb_after(ts, c, pre.btb)
        &&& post.pending_garbage == pending_after(pre.pending_garbage as int, fire)
        &&& post.last_firepower == sent_after(pre.pending_garbage as int, fire)
        &&& pop_relation(pre.bag.queue@, post.bag.queue@, post.current_piece.block_type)
        &&& (bag_ok(pre.bag.queue@) ==> bag_ok(post.bag.queue@))
        &&& post.current_piece == spawned(post.current_piece.block_type)
        &&& !post.hold_locked
        &&& post.hold_piece == pre.hold_piece
        &&& post.game_over == pre.game_over
        &&& post.last_action_was_rotate == pre.last_action_was_rotate
        &&& post.last_garbage_hole == pre.last_garbage_hole
    }

    /// What locking the falling piece adds to the score: the clear (T-Spin
    /// table or line table) and the deep-well bonus of the board after it.
    pub open spec fn lock_gain(self) -> int {
        let g = self.placed_grid();
        let c = lines_cleared_by(g);
        (if self.locks_t_spin() { tspin_score(c) } else { spec_line_clear_score(c) }) + well_bonus(cleared_grid(g))
    }

    /// The falling piece's cells can be computed, and the score and line
    /// counters still fit in `u32` after this lock.
    pub open spec fn lock_fits(self) -> bool {
        &&& self.current_piece.fits(0)
        &&& self.score + self.lock_gain() <= u32::MAX
        &&& self.lines_cleared + lines_cleared_by(self.placed_grid()) <= u32::MAX
    }

    /// A new game: an empty board and the first piece of a freshly shuffled bag.
    pub fn new() -> (g: Game)
        ensures
            fresh_game(g),
    {
        let mut bag = Bag::new();
        let ghost first = bag.queue@;
        let first_piece = bag.pop();
        Game {
            board: empty_board(),
            current_piece: Piece::new(first_piece),
            bag,
            hold_piece: None,
            hold_locked: false,
            score: 0,
            lines_cleared: 0,
            game_over: false,
            last_action_was_rotate: false,
            last_t_spin: None,
            btb: false,
            pending_garbage: 0,
            last_firepower: 0,
            last_garbage_hole: None,
        }
    }

    /// Whether `piece` fits on the board without overlapping walls, floor or blocks.
    pub fn is_valid_position(&self, piece: &Piece) -> (r: bool)
        requires
            piece.fits(0),
        ensures
            r == valid_position(self.board, *piece),
    {
        is_position_valid(&self.board, piece)
    }

    /// Moves the falling piece by `(dx, dy)` when the target position is valid.
    pub fn try_move(&mut self, dx: i32, dy: i32) -> (moved: bool)
        requires
            old(self).current_piece.shifted(dx as int, dy as int).fits(0),
            i32::MIN <= old(self).current_piece.x + dx <= i32::MAX,
            i32::MIN <= old(self).current_piece.y + dy <= i32::MAX,
        ensures
            moved == valid_position(old(self).board, old(self).current_piece.shifted(dx as int, dy as int)),
            moved ==> *final(self) == old(self).with_piece(
                old(self).current_piece.shifted(dx as int, dy as int),
                false,
            ),
            !moved ==> *final(self) == *old(self),
    {
        let mut next_piece = self.current_piece;
        next_piece.x = next_piece.x + dx;
        next_piece.y = next_piece.y + dy;
        if self.is_valid_position(&next_piece) {
            self.current_piece = next_piece;
            self.last_action_was_rotate = false;
            true
        } else {
            false
        }
    }

    /// The SRS kick offsets for turning `block_type` from `from_rot` to `to_rot`.
    pub fn get_kick_offsets(&self, block_type: BlockType, from_rot: usize, to_rot: usize) -> (r: [(i32, i32); 5])
        ensures
            r@ == kick_table(block_type, from_rot as int, to_rot as int),
    {
        let r: [(i32, i32); 5] = if block_type == BlockType::I {
            if from_rot == 0 && to_rot == 1 {
                [(0, 0), (-2, 0), (1, 0), (-2, -1), (1, 2)]
            } else if from_rot == 1 && to_rot == 0 {
                [(0, 0), (2, 0), (-1, 0), (2, 1), (-1, -2)]
            } else if from_rot == 1 && to_rot == 2 {
                [(0, 0), (-1, 0), (2, 0), (-1, 2), (2, -1)]
            } else if from_rot == 2 && to_rot == 1 {
                [(0, 0), (1, 0), (-2, 0), (1, -2), (-2, 1)]
            } else if from_rot == 2 && to_rot == 3 {
                [(0, 0), (2, 0), (-1, 0), (2, 1), (-1, -2)]
            } else if from_rot == 3 && to_rot == 2 {
                [(0, 0), (-2, 0), (1, 0), (-2, -1), (1, 2)]
            } else if from_rot == 3 && to_rot == 0 {
                [(0, 0), (1, 0), (-2, 0), (1, -2), (-2, 1)]
            } else if from_rot == 0 && to_rot == 3 {
                [(0, 0), (-1, 0), (2, 0), (-1, 2), (2, -1)]
            } else {
                [(0, 0); 5]
            }
        } else {
            if from_rot == 0 && to_rot == 1 {
                [(0, 0), (-1, 0), (-1, -1), (0, 2), (-1, 2)]
            } else if from_rot == 1 && to_rot == 0 {
                [(0, 0), (1, 0), (1, 1), (0, -2), (1, -2)]
            } else if from_rot == 1 && to_rot == 2 {
                [(0, 0), (1, 0), (1, 1), (0, -2), (1, -2)]
            } else if from_rot == 2 && to_rot == 1 {
                [(0, 0), (-1, 0), (-1, -1), (0, 2), (-1, 2)]
            } else if from_rot == 2 && to_rot == 3 {
                [(0, 0), (1, 0), (1, -1), (0, 2), (1, 2)]
            } else if from_rot == 3 && to_rot == 2 {
                [(0, 0), (-1, 0), (-1, 1), (0, -2), (-1, -2)]
            } else if from_rot == 3 && to_rot == 0 {
                [(0, 0), (-1, 0), (-1, 1), (0, -2), (-1, -2)]
            } else if from_rot == 0 && to_rot == 3 {
                [(0, 0), (1, 0), (1, -1), (0, 2), (1, 2)]
            } else {
                [(0, 0); 5]
            }
        };
        assert(r@ =~= kick_table(block_type, from_rot as int, to_rot as int));
        r
    }

    /// Turns the falling piece with SRS wall kicks; the O piece never turns.
    pub fn try_rotate(&mut self, dir: RotationDirection) -> (rotated: bool)
        requires
            old(self).current_piece.fits(2),
            old(self).current_piece.rotation <= usize::MAX - 3,
        ensures
            rotated == rotate_result(old(self).board, old(self).current_piece, dir) is Some,
            rotate_result(old(self).board, old(self).current_piece, dir) matches Some(q) ==> *final(self)
                == old(self).with_piece(q, true),
            !rotated ==> *final(self) == *old(self),
    {
        if self.current_piece.block_type == BlockType::O {
            return false;
        }
        let from_rot = self.current_piece.rotation;
        let to_rot = match dir {
            RotationDirection::Clockwise => (from_rot + 1) % 4,
            RotationDirection::CounterClockwise => (from_rot + 3) % 4,
        };
        let mut next_piece = self.current_piece;
        next_piece.rotation = to_rot;
        let kick_offsets = self.get_kick_offsets(self.current_piece.block_type, from_rot, to_rot);
        proof {
            lemma_kicks_small(self.current_piece.block_type, from_rot as int, to_rot as int);
        }
        let ghost kicks = kick_offsets@;
        let mut i: usize = 0;
        while i < 5
            invariant
                i <= 5,
                *self == *old(self),
                next_piece == old(self).current_piece.rotated_to(to_rot as int),
                to_rot as int == rotation_target(from_rot, dir),
                from_rot == old(self).current_piece.rotation,
                old(self).current_piece.fits(2),
                old(self).current_piece.block_type != BlockType::O,
                kicks == kick_offsets@,
                kicks == kick_table(old(self).current_piece.block_type, from_rot as int, to_rot as int),
                kicks.len() == 5,
                forall|k: int| 0 <= k < 5 ==> -2 <= #[trigger] kicks[k].0 <= 2 && -2 <= kicks[k].1 <= 2,
                first_fitting_kick(self.board, next_piece, kicks, 0) == first_fitting_kick(
                    self.board,
                    next_piece,
                    kicks,
                    i as int,
                ),
            decreases 5 - i,
        {
            let (dx, dy) = kick_offsets[i];
            let mut test_piece = next_piece;
            test_piece.x = test_piece.x + dx;
            test_piece.y = test_piece.y + dy;
            assert(test_piece == next_piece.shifted(kicks[i as int].0 as int, kicks[i as int].1 as int));
            if self.is_valid_position(&test_piece) {
                self.current_piece = test_piece;
                self.last_action_was_rotate = true;
                return true;
            }
            i += 1;
        }
        false
    }

    /// Moves every row of the board that is not full down past the full
    /// ones, and returns how many rows were full.
    pub fn clear_lines(&mut self) -> (cleared: usize)
        ensures
            grid_of(final(self).board) == cleared_grid(grid_of(old(self).board)),
            cleared as int == lines_cleared_by(grid_of(old(self).board)),
            *final(self) == old(self).with_board(final(self).board),
            cleared <= INTERNAL_HEIGHT,
    {
        let (new_board, cleared) = clear_full_rows(&self.board);
        self.board = new_board;
        cleared
    }
}

/// The board after removing its full rows (the others settle at the bottom,
/// in order), and how many rows were full.
pub fn clear_full_rows(board: &Board) -> (r: (Board, usize))
    ensures
        grid_of(r.0) == cleared_grid(grid_of(*board)),
        r.1 as int == lines_cleared_by(grid_of(*board)),
        r.1 <= INTERNAL_HEIGHT,
{
    let ghost g = grid_of(*board);
    proof {
        lemma_grid_of_shaped(*board);
        lemma_kept_from_len(g, 0);
    }
    let mut cleared: usize = 0;
    let mut new_board: Board = [[None; BOARD_WIDTH]; INTERNAL_HEIGHT];
    let mut target_y: usize = INTERNAL_HEIGHT - 1;
    let mut y: usize = INTERNAL_HEIGHT;
    while y > 0
        invariant
            y <= INTERNAL_HEIGHT,
            g == grid_of(*board),
            grid_shaped(g),
            forall|yy: int, xx: int|
                0 <= yy < INTERNAL_HEIGHT && 0 <= xx < BOARD_WIDTH ==> #[trigger] g[yy][xx]
                    == board[yy][xx],
            kept_from(g, y as int).len() + cleared == INTERNAL_HEIGHT - y,
            target_y == if kept_from(g, y as int).len() < INTERNAL_HEIGHT {
                INTERNAL_HEIGHT - 1 - kept_from(g, y as int).len()
            } else {
                0
            },
            forall|r: int|
                0 <= r < INTERNAL_HEIGHT ==> #[trigger] new_board[r]@ == if r < INTERNAL_HEIGHT
                    - kept_from(g, y as int).len() {
                    empty_row()
                } else {
                    kept_from(g, y as int)[r - (INTERNAL_HEIGHT - kept_from(g, y as int).len())]
                },
        decreases y,
    {
        y -= 1;
        proof {
            lemma_kept_from_len(g, y as int + 1);
        }
        let ghost k_old = kept_from(g, y as int + 1);
        let mut is_full = true;
        let mut x: usize = 0;
        while x < BOARD_WIDTH
            invariant
                x <= BOARD_WIDTH,
                y < INTERNAL_HEIGHT,
                is_full == forall|xx: int| 0 <= xx < x ==> #[trigger] board[y as int][xx] is Some,
            decreases BOARD_WIDTH - x,
        {
            if board[y][x].is_none() {
                is_full = false;
            }
            x += 1;
        }
        assert(is_full == row_full(g[y as int]));
        if is_full {
            cleared += 1;
            assert(kept_from(g, y as int) == k_old);
        } else {
            let ghost before = new_board;
            new_board[target_y] = board[y];
            let ghost k_new = kept_from(g, y as int);
            assert(k_new == seq![g[y as int]] + k_old);
            assert(new_board[target_y as int]@ == g[y as int]);
            assert forall|r: int| 0 <= r < INTERNAL_HEIGHT implies #[trigger] new_board[r]@ == if r
                < INTERNAL_HEIGHT - k_new.len() {
                empty_row()
            } else {
                k_new[r - (INTERNAL_HEIGHT - k_new.len())]
            } by {
                if r != target_y {
                    assert(new_board[r] == before[r]);
                }
            }
            if target_y > 0 {
                target_y -= 1;
            }
        }
    }
    proof {
        lemma_grid_of_shaped(new_board);
        assert(grid_of(new_board) =~= cleared_grid(g));
    }
    (new_board, cleared)
}


/// A garbage row: every cell holds an I block except column `h`.
pub open spec fn garbage_row(row: Seq<Option<BlockType>>, h: int) -> bool {
    forall|x: int| 0 <= x < BOARD_WIDTH ==> #[trigger] row[x] == if x == h {
        None::<BlockType>
    } else {
        Some(BlockType::I)
    }
}

/// The hole of the next garbage row: the previous hole when the 70% coin
/// `keep` says so, otherwise the drawn column `first`, moved on by `step`
/// (modulo the width) when it would repeat the previous hole.
pub open spec fn garbage_hole(last: Option<usize>, keep: bool, first: int, step: int) -> int {
    match last {
        Some(h) => if keep {
            h as int
        } else if first == h {
            (first + step) % (BOARD_WIDTH as int)
        } else {
            first
        },
        None => first,
    }
}

/// A garbage row keeps the previous row's hole this many times ...
pub const GARBAGE_HOLE_KEEP_NUMERATOR: u32 = 7;

/// ... in this many.
pub const GARBAGE_HOLE_KEEP_DENOMINATOR: u32 = 10;

/// A hole sequence that `apply_garbage` can produce after `prev`: each hole
/// either repeats the one before or is a column different from it.
pub open spec fn hole_sequence_ok(prev: Option<usize>, holes: Seq<usize>) -> bool {
    forall|j: int|
        0 <= j < holes.len() ==> {
            let before = if j == 0 { prev } else { Some(holes[j - 1]) };
            Some(#[trigger] holes[j]) == before || (holes[j] < BOARD_WIDTH && Some(holes[j]) != before)
        }
}

/// Picks the hole of the next garbage row from the random draws.
pub fn next_garbage_hole(last: Option<usize>, keep: bool, first: usize, step: usize) -> (hole: usize)
    requires
        first < BOARD_WIDTH,
        1 <= step < BOARD_WIDTH,
    ensures
        hole as int == garbage_hole(last, keep, first as int, step as int),
        Some(hole) == last || (hole < BOARD_WIDTH && Some(hole) != last),
{
    match last {
        Some(h) => if keep {
            h
        } else if first == h {
            (first + step) % BOARD_WIDTH
        } else {
            first
        },
        None => first,
    }
}

impl Game {
    /// What holding does, once allowed: the falling piece goes to the hold
    /// slot and the held piece (or, when the slot was empty, the next piece
    /// of the bag) spawns; holding is then locked until the next lock, and
    /// the game is over when the new piece does not fit.
    pub open spec fn hold_outcome(pre: Game, post: Game) -> bool {
        &&& post.hold_piece == Some(pre.current_piece.block_type)
        &&& match pre.hold_piece {
            Some(h) => post.current_piece == spawned(h) && post.bag == pre.bag,
            None => {
                &&& post.current_piece == spawned(post.current_piece.block_type)
                &&& pop_relation(pre.bag.queue@, post.bag.queue@, post.current_piece.block_type)
                &&& (bag_ok(pre.bag.queue@) ==> bag_ok(post.bag.queue@))
            },
        }
        &&& post.hold_locked
        &&& !post.last_action_was_rotate
        &&& post.game_over == (pre.game_over || !valid_position(pre.board, post.current_piece))
        &&& post.board == pre.board
        &&& post.score == pre.score
        &&& post.lines_cleared == pre.lines_cleared
        &&& post.last_t_spin == pre.last_t_spin
        &&& post.btb == pre.btb
        &&& post.pending_garbage == pre.pending_garbage
        &&& post.last_firepower == pre.last_firepower
        &&& post.last_garbage_hole == pre.last_garbage_hole
    }

    /// Swaps the falling piece with the hold slot; refused while holding is locked.
    pub fn hold(&mut self) -> (held: bool)
        ensures
            old(self).hold_locked ==> !held && *final(self) == *old(self),
            !old(self).hold_locked ==> held && Game::hold_outcome(*old(self), *final(self)),
    {
        if self.hold_locked {
            return false;
        }
        let current_type = self.current_piece.block_type;
        match self.hold_piece {
            Some(held) => {
                self.hold_piece = Some(current_type);
                self.current_piece = Piece::new(held);
            },
            None => {
                self.hold_piece = Some(current_type);
                let next_type = self.bag.pop();
                self.current_piece = Piece::new(next_type);
            },
        }
        self.hold_locked = true;
        self.last_action_was_rotate = false;
        let piece = self.current_piece;
        if !self.is_valid_position(&piece) {
            self.game_over = true;
        }
        true
    }

    /// Locks the falling piece: see `lock_outcome`.
    pub fn lock_piece(&mut self)
        requires
            old(self).lock_fits(),
        ensures
            Game::lock_outcome(*old(self), *final(self)),
    {
        let ghost pre = *self;
        let is_t_piece = self.current_piece.block_type == BlockType::T;
        let was_rotate = self.last_action_was_rotate;
        let bt = self.current_piece.block_type;
        let cells = self.current_piece.get_cells();
        proof {
            lemma_grid_of_shaped(pre.board);
        }
        let mut i: usize = 0;
        while i < 4
            invariant
                i <= 4,
                *self == pre.with_board(self.board),
                bt == pre.current_piece.block_type,
                forall|k: int|
                    0 <= k < 4 ==> (#[trigger] cells[k].0 as int, cells[k].1 as int) == pre.current_piece.cell(k),
                grid_of(self.board) == placed_first(grid_of(pre.board), pre.current_piece, i as int),
            decreases 4 - i,
        {
            let (cx, cy) = cells[i];
            assert((cells[i as int].0 as int, cells[i as int].1 as int) == pre.current_piece.cell(i as int));
            let ghost prev = grid_of(self.board);
            proof {
                lemma_grid_of_shaped(self.board);
            }
            if cx >= 0 && cx < BOARD_WIDTH as i32 && cy >= 0 && cy < INTERNAL_HEIGHT as i32 {
                let ghost old_board = self.board;
                self.board[cy as usize][cx as usize] = Some(bt);
                proof {
                    lemma_grid_of_shaped(self.board);
                    let expected = put_block(prev, cx as int, cy as int, Some(bt));
                    assert forall|r: int| 0 <= r < INTERNAL_HEIGHT implies #[trigger] grid_of(self.board)[r]
                        =~= expected[r] by {
                        if r != cy {
                            assert(self.board[r] == old_board[r]);
                        }
                    }
                    assert(grid_of(self.board) =~= expected);
                }
            }
            i += 1;
        }
        proof {
            assert(grid_of(self.board) == pre.placed_grid());
        }
        let mut is_t_spin = false;
        if is_t_piece && was_rotate {
            let filled_corners = count_corners(&self.board, self.current_piece.x, self.current_piece.y);
            if filled_corners >= 3 {
                is_t_spin = true;
            }
        }
        assert(is_t_spin == pre.locks_t_spin());
        let cleared = self.clear_lines();
        let ghost c = cleared as int;
        self.lines_cleared = self.lines_cleared + cleared as u32;
        if is_t_spin {
            let (score_add, name) = if cleared == 0 {
                (TSPIN_0_SCORE, "T-Spin")
            } else if cleared == 1 {
                (TSPIN_1_SCORE, "T-Spin Single")
            } else if cleared == 2 {
                (TSPIN_2_SCORE, "T-Spin Double")
            } else if cleared == 3 {
                (TSPIN_3_SCORE, "T-Spin Triple")
            } else {
                (0, "T-Spin")
            };
            assert(score_add == tspin_score(c));
            assert(name@ == tspin_label(c));
            self.score = self.score + score_add;
            self.last_t_spin = Some(String::from_str(name));
        } else {
            self.score = self.score + line_clear_score(cleared);
            self.last_t_spin = None;
        }
        let mut firepower: u32 = 0;
        let mut is_btb_eligible = false;
        if is_t_spin {
            if cleared == 1 {
                firepower = 1;
                is_btb_eligible = true;
            } else if cleared == 2 {
                firepower = 4;
                is_btb_eligible = true;
            } else if cleared == 3 {
                firepower = 6;
                is_btb_eligible = true;
            }
        } else {
            if cleared == 1 {
                firepower = 0;
            } else if cleared == 2 {
                firepower = 1;
            } else if cleared == 3 {
                firepower = 2;
            } else if cleared == 4 {
                firepower = 4;
                is_btb_eligible = true;
            }
        }
        assert(firepower == base_attack(is_t_spin, c));
        assert(is_btb_eligible == btb_eligible(is_t_spin, c));
        if is_btb_eligible {
            if self.btb {
                firepower += 1;
            }
            self.btb = true;
        } else if cleared > 0 {
            self.btb = false;
        }
        let mut sent = firepower;
        if self.pending_garbage >= sent {
            self.pending_garbage = self.pending_garbage - sent;
            sent = 0;
        } else {
            sent = sent - self.pending_garbage;
            self.pending_garbage = 0;
        }
        self.last_firepower = sent;
        let bonus = get_well_bonus(&self.board);
        self.score = self.score + bonus;
        let next_type = self.bag.pop();
        self.current_piece = Piece::new(next_type);
        self.hold_locked = false;
    }

    /// Drops the falling piece as far as it goes and locks it; returns the
    /// number of rows it fell.
    pub fn hard_drop(&mut self) -> (drop_dist: u32)
        requires
            old(self).current_piece.fits(1),
            forall|d: int|
                #[trigger] is_drop_distance(old(self).board, old(self).current_piece, d) ==> old(self).dropped(
                    d,
                ).lock_fits(),
        ensures
            is_drop_distance(old(self).board, old(self).current_piece, drop_dist as int),
            Game::lock_outcome(old(self).dropped(drop_dist as int), *final(self)),
    {
        let ghost pre = *self;
        let mut drop_dist: u32 = 0;
        loop
            invariant_except_break
                drop_dist <= 25,
                *self == pre.dropped(drop_dist as int),
                self.current_piece == pre.current_piece.shifted(0, drop_dist as int),
                self.current_piece.y as int == pre.current_piece.y as int + drop_dist as int,
                self.current_piece.fits(1),
                forall|k: int|
                    1 <= k <= drop_dist ==> #[trigger] valid_position(pre.board, pre.current_piece.shifted(0, k)),
                drop_dist > 0 ==> valid_position(pre.board, self.current_piece),
                forall|d: int| #[trigger] is_drop_distance(pre.board, pre.current_piece, d) ==> pre.dropped(d).lock_fits(),
                pre.current_piece.fits(1),
            ensures
                is_drop_distance(pre.board, pre.current_piece, drop_dist as int),
                *self == pre.dropped(drop_dist as int),
                self.lock_fits(),
            decreases i32::MAX - self.current_piece.y,
        {
            proof {
                if drop_dist > 0 {
                    lemma_valid_bounds(pre.board, self.current_piece);
                }
                assert(pre.current_piece.y + drop_dist + 1 <= i32::MAX - 2);
            }
            let ghost before = *self;
            assert(before.current_piece.shifted(0, 1) == pre.current_piece.shifted(0, drop_dist as int + 1));
            if !self.try_move(0, 1) {
                assert(is_drop_distance(pre.board, pre.current_piece, drop_dist as int));
                break;
            }
            proof {
                assert(self.current_piece == pre.current_piece.shifted(0, drop_dist as int + 1));
                lemma_valid_bounds(pre.board, self.current_piece);
                if drop_dist > 0 {
                    lemma_valid_bounds(pre.board, pre.current_piece.shifted(0, 1));
                } else {
                    lemma_valid_bounds(pre.board, self.current_piece);
                }
            }
            drop_dist += 1;
        }
        self.lock_piece();
        drop_dist
    }

    /// Raises the stack by the pending garbage: the rows move up, and each
    /// new bottom row is full except one random hole, which repeats the
    /// previous hole seven times in ten and otherwise moves to another column.
    /// The game is over when the falling piece no longer fits.
    pub fn apply_garbage(&mut self)
        requires
            old(self).pending_garbage <= INTERNAL_HEIGHT,
            old(self).current_piece.fits(0),
        ensures
            ({
                let l = old(self).pending_garbage as int;
                let g0 = grid_of(old(self).board);
                let g1 = grid_of(final(self).board);
                &&& l == 0 ==> final(self).board == old(self).board && final(self).last_garbage_hole
                    == old(self).last_garbage_hole
                &&& l > 0 ==> forall|r: int| 0 <= r < INTERNAL_HEIGHT - l ==> #[trigger] g1[r] == g0[r + l]
                &&& l > 0 ==> exists|holes: Seq<usize>|
                    {
                        &&& holes.len() == l
                        &&& hole_sequence_ok(old(self).last_garbage_hole, holes)
                        &&& forall|j: int|
                            0 <= j < l ==> garbage_row(
                                #[trigger] g1[INTERNAL_HEIGHT - l + j],
                                holes[j] as int,
                            )
                        &&& final(self).last_garbage_hole == Some(holes[l - 1])
                    }
            }),
            final(self).pending_garbage == 0,
            final(self).game_over == (old(self).game_over || !valid_position(
                final(self).board,
                old(self).current_piece,
            )),
            final(self).current_piece == old(self).current_piece,
            final(self).bag == old(self).bag,
            final(self).hold_piece == old(self).hold_piece,
            final(self).hold_locked == old(self).hold_locked,
            final(self).score == old(self).score,
            final(self).lines_cleared == old(self).lines_cleared,
            final(self).last_action_was_rotate == old(self).last_action_was_rotate,
            final(self).last_t_spin == old(self).last_t_spin,
            final(self).btb == old(self).btb,
            final(self).last_firepower == old(self).last_firepower,
    {
        let ghost pre = *self;
        proof {
            lemma_grid_of_shaped(pre.board);
        }
        if self.pending_garbage > 0 {
            let lines = self.pending_garbage as usize;
            let mut y: usize = lines;
            while y < INTERNAL_HEIGHT
                invariant
                    0 < lines <= INTERNAL_HEIGHT,
                    lines <= y <= INTERNAL_HEIGHT,
                    lines == pre.pending_garbage,
                    *self == pre.with_board(self.board),
                    forall|r: int| 0 <= r < y - lines ==> #[trigger] self.board[r] == pre.board[r + lines],
                    forall|r: int| y - lines <= r < INTERNAL_HEIGHT ==> #[trigger] self.board[r] == pre.board[r],
                decreases INTERNAL_HEIGHT - y,
            {
                let row = self.board[y];
                self.board[y - lines] = row;
                y += 1;
            }
            let ghost shifted_board = self.board;
            let ghost mut holes: Seq<usize> = Seq::empty();
            let mut y: usize = INTERNAL_HEIGHT - lines;
            while y < INTERNAL_HEIGHT
                invariant
                    0 < lines <= INTERNAL_HEIGHT,
                    INTERNAL_HEIGHT - lines <= y <= INTERNAL_HEIGHT,
                    lines == pre.pending_garbage,
                    holes.len() == y - (INTERNAL_HEIGHT - lines),
                    hole_sequence_ok(pre.last_garbage_hole, holes),
                    holes.len() > 0 ==> self.last_garbage_hole == Some(holes[holes.len() - 1]),
                    holes.len() == 0 ==> self.last_garbage_hole == pre.last_garbage_hole,
                    forall|r: int| 0 <= r < INTERNAL_HEIGHT - lines ==> #[trigger] self.board[r] == shifted_board[r],
                    forall|j: int|
                        0 <= j < holes.len() ==> garbage_row(
                            #[trigger] self.board[INTERNAL_HEIGHT - lines + j]@,
                            holes[j] as int,
                        ),
                    self.current_piece == pre.current_piece,
                    self.bag == pre.bag,
                    self.hold_piece == pre.hold_piece,
                    self.hold_locked == pre.hold_locked,
                    self.score == pre.score,
                    self.lines_cleared == pre.lines_cleared,
                    self.game_over == pre.game_over,
                    self.last_action_was_rotate == pre.last_action_was_rotate,
                    self.last_t_spin == pre.last_t_spin,
                    self.btb == pre.btb,
                    self.pending_garbage == pre.pending_garbage,
                    self.last_firepower == pre.last_firepower,
                decreases INTERNAL_HEIGHT - y,
            {
                let last = self.last_garbage_hole;
                let keep = match last {
                    Some(_) => random_ratio(GARBAGE_HOLE_KEEP_NUMERATOR, GARBAGE_HOLE_KEEP_DENOMINATOR),
                    None => false,
                };
                let hole = if keep {
                    next_garbage_hole(last, true, 0, 1)
                } else {
                    let first = random_range(0, BOARD_WIDTH);
                    let step = match last {
                        Some(h) => if first == h {
                            random_range(1, BOARD_WIDTH)
                        } else {
                            1
                        },
                        None => 1,
                    };
                    next_garbage_hole(last, false, first, step)
                };
                self.last_garbage_hole = Some(hole);
                let ghost before_row = self.board;
                let ghost before_game = *self;
                let mut x: usize = 0;
                while x < BOARD_WIDTH
                    invariant
                        x <= BOARD_WIDTH,
                        y < INTERNAL_HEIGHT,
                        *self == before_game.with_board(self.board),
                        forall|r: int| 0 <= r < INTERNAL_HEIGHT && r != y ==> #[trigger] self.board[r] == before_row[r],
                        forall|xx: int|
                            0 <= xx < x ==> #[trigger] self.board[y as int][xx] == if xx == hole {
                                None::<BlockType>
                            } else {
                                Some(BlockType::I)
                            },
                    decreases BOARD_WIDTH - x,
                {
                    if x == hole {
                        self.board[y][x] = None;
                    } else {
                        self.board[y][x] = Some(BlockType::I);
                    }
                    x += 1;
                }
                proof {
                    let new_holes = holes.push(hole);
                    assert forall|j: int| 0 <= j < new_holes.len() implies garbage_row(
                        #[trigger] self.board[INTERNAL_HEIGHT - lines + j]@,
                        new_holes[j] as int,
                    ) by {
                        if j < holes.len() {
                            assert(self.board[INTERNAL_HEIGHT - lines + j] == before_row[INTERNAL_HEIGHT - lines + j]);
                        }
                    }
                    assert(hole_sequence_ok(pre.last_garbage_hole, new_holes)) by {
                        assert forall|j: int| 0 <= j < new_holes.len() implies {
                            let before = if j == 0 { pre.last_garbage_hole } else { Some(new_holes[j - 1]) };
                            Some(#[trigger] new_holes[j]) == before || (new_holes[j] < BOARD_WIDTH && Some(
                                new_holes[j],
                            ) != before)
                        } by {
                            if j < holes.len() {
                                assert(new_holes[j] == holes[j]);
                                if j > 0 {
                                    assert(new_holes[j - 1] == holes[j - 1]);
                                }
                            }
                        }
                    }
                    holes = new_holes;
                }
                y += 1;
            }
            self.pending_garbage = 0;
            proof {
                lemma_grid_of_shaped(self.board);
                let l = lines as int;
                assert forall|r: int| 0 <= r < INTERNAL_HEIGHT - l implies #[trigger] grid_of(self.board)[r]
                    == grid_of(pre.board)[r + l] by {
                    assert(self.board[r] == shifted_board[r]);
                }
                assert forall|j: int| 0 <= j < l implies garbage_row(
                    #[trigger] grid_of(self.board)[INTERNAL_HEIGHT - l + j],
                    holes[j] as int,
                ) by {
                    assert(garbage_row(self.board[INTERNAL_HEIGHT - l + j]@, holes[j] as int));
                }
            }
        }
        let piece = self.current_piece;
        if !self.is_valid_position(&piece) {
            self.game_over = true;
        }
    }
}


// ----------------------------------------------------------------------------
// Laws of locking
// ----------------------------------------------------------------------------

/// Law (back-to-back): a lock that clears lines keeps the back-to-back
/// chain exactly when it is a Tetris (four lines, no T-Spin) or a T-Spin
/// that clears one to three lines; any other clear breaks it, and a lock
/// that clears nothing leaves it as it was.
pub proof fn law_back_to_back(pre: Game, post: Game)
    requires
        Game::lock_outcome(pre, post),
    ensures
        ({
            let c = lines_cleared_by(pre.placed_grid());
            let ts = pre.locks_t_spin();
            &&& (!ts && c == 4) ==> post.btb
            &&& (ts && 1 <= c <= 3) ==> post.btb
            &&& (c > 0 && !(!ts && c == 4) && !(ts && 1 <= c <= 3)) ==> !post.btb
            &&& c == 0 ==> post.btb == pre.btb
        }),
{
}

/// Law (attack of a Tetris): with no garbage pending, a Tetris sends four
/// lines, and five when it continues a back-to-back chain; a single, double
/// or triple without a T-Spin sends 0, 1 and 2 lines, and never gets the
/// back-to-back line.
pub proof fn law_line_clear_attack(pre: Game, post: Game)
    requires
        Game::lock_outcome(pre, post),
        pre.pending_garbage == 0,
        !pre.locks_t_spin(),
    ensures
        ({
            let c = lines_cleared_by(pre.placed_grid());
            &&& c == 4 ==> post.last_firepower == if pre.btb { 5u32 } else { 4u32 }
            &&& c == 3 ==> post.last_firepower == 2
            &&& c == 2 ==> post.last_firepower == 1
            &&& c <= 1 ==> post.last_firepower == 0
        }),
{
}

/// Law (T-Spin attack): with no garbage pending, a T-Spin Single, Double
/// and Triple send 1, 4 and 6 lines, one more each when it continues a
/// back-to-back chain; a T-Spin that clears nothing sends nothing.
pub proof fn law_t_spin_attack(pre: Game, post: Game)
    requires
        Game::lock_outcome(pre, post),
        pre.pending_garbage == 0,
        pre.locks_t_spin(),
    ensures
        ({
            let c = lines_cleared_by(pre.placed_grid());
            let extra: int = if pre.btb { 1 } else { 0 };
            &&& c == 0 ==> post.last_firepower == 0
            &&& c == 1 ==> post.last_firepower == 1 + extra
            &&& c == 2 ==> post.last_firepower == 4 + extra
            &&& c == 3 ==> post.last_firepower == 6 + extra
        }),
{
}

/// Law (garbage cancelling): the lines a lock fires first cancel pending
/// garbage; only what is left over is sent. Afterwards either nothing is
/// pending or nothing was sent, and pending garbage drops by exactly the
/// fired lines that were not sent.
pub proof fn law_garbage_cancelling(pre: Game, post: Game)
    requires
        Game::lock_outcome(pre, post),
    ensures
        post.pending_garbage == 0 || post.last_firepower == 0,
        post.pending_garbage <= pre.pending_garbage,
        pre.pending_garbage - post.pending_garbage + post.last_firepower == attack(
            pre.locks_t_spin(),
            lines_cleared_by(pre.placed_grid()),
            pre.btb,
        ),
{
}

/// Law (lock score): a lock adds the clear's points and then the deep-well
/// bonus of the board it leaves: a T-Spin scores 400, 800, 1200 or 1600 for
/// zero to three lines; otherwise one to four lines score 1, 10, 30 and 2000,
/// and nothing cleared scores nothing.
pub proof fn law_lock_score(pre: Game, post: Game)
    requires
        Game::lock_outcome(pre, post),
    ensures
        ({
            let c = lines_cleared_by(pre.placed_grid());
            let gain = post.score - pre.score - well_bonus(grid_of(post.board));
            &&& pre.locks_t_spin() ==> gain == (if c == 0 {
                400int
            } else if c == 1 {
                800int
            } else if c == 2 {
                1200int
            } else if c == 3 {
                1600int
            } else {
                0int
            })
            &&& !pre.locks_t_spin() ==> gain == (if c == 1 {
                1int
            } else if c == 2 {
                10int
            } else if c == 3 {
                30int
            } else if c == 4 {
                2000int
            } else {
                0int
            })
            &&& post.lines_cleared == pre.lines_cleared + c
        }),
{
}

/// Law (T-Spin detection): only a T whose last move was a turn scores a
/// T-Spin; such a T does when three of the four cells diagonal to its
/// centre are filled once it is in place (walls and floor count as filled).
pub proof fn law_t_spin_detection(pre: Game, post: Game)
    requires
        Game::lock_outcome(pre, post),
    ensures
        (pre.current_piece.block_type != BlockType::T || !pre.last_action_was_rotate) ==> post.last_t_spin is None,
        ({
            let g = pre.placed_grid();
            let x = pre.current_piece.x as int;
            let y = pre.current_piece.y as int;
            let a = filled(g, x - 1, y - 1);
            let b = filled(g, x + 1, y - 1);
            let c = filled(g, x - 1, y + 1);
            let d = filled(g, x + 1, y + 1);
            (pre.current_piece.block_type == BlockType::T && pre.last_action_was_rotate && ((a && b && c) || (a && b
                && d) || (a && c && d) || (b && c && d))) ==> post.last_t_spin is Some
        }),
{
}

// ----------------------------------------------------------------------------
// Laws of turning
// ----------------------------------------------------------------------------

/// The SRS offset data for J, L, S, T and Z, by rotation state (0, R = 1,
/// 2, L = 3) and test number, with y pointing up as the guideline writes it.
pub open spec fn srs_offset(state: int, i: int) -> (int, int) {
    if state == 1 {
        seq![(0int, 0int), (1, 0), (1, -1), (0, 2), (1, 2)][i]
    } else if state == 3 {
        seq![(0int, 0int), (-1, 0), (-1, -1), (0, 2), (-1, 2)][i]
    } else {
        (0, 0)
    }
}

/// Law (SRS kicks): for J, L, S, T and Z, the `i`-th kick tried when turning
/// from one state to a neighbouring one is the SRS offset of the state left
/// minus that of the state entered, its y flipped because board rows count
/// downwards.
pub proof fn law_srs_kicks(bt: BlockType, from: int, to: int, i: int)
    requires
        bt != BlockType::I,
        0 <= from < 4,
        to == (from + 1) % 4 || to == (from + 3) % 4,
        0 <= i < 5,
    ensures
        kick_table(bt, from, to).len() == 5,
        kick_table(bt, from, to)[i].0 == srs_offset(from, i).0 - srs_offset(to, i).0,
        kick_table(bt, from, to)[i].1 == srs_offset(to, i).1 - srs_offset(from, i).1,
{
    assert(from == 0 || from == 1 || from == 2 || from == 3);
    assert(i == 0 || i == 1 || i == 2 || i == 3 || i == 4);
}

/// The SRS offset data for I, by rotation state and test number, with y
/// pointing up as the guideline writes it.
pub open spec fn srs_offset_i(state: int, i: int) -> (int, int) {
    if state == 0 {
        seq![(0int, 0int), (-1, 0), (2, 0), (-1, 0), (2, 0)][i]
    } else if state == 1 {
        seq![(-1int, 0int), (0, 0), (0, 0), (0, 1), (0, -2)][i]
    } else if state == 2 {
        seq![(-1int, 1int), (1, 1), (-2, 1), (1, 0), (-2, 0)][i]
    } else {
        seq![(0int, 1int), (0, 1), (0, 1), (0, -1), (0, 2)][i]
    }
}

/// Law (SRS kicks for I): the `i`-th kick tried when the I turns from one
/// state to a neighbouring one is the difference of the SRS offsets of the
/// two states for test `i`, less that of the first test (so the first kick
/// is no shift). The I's table keeps the guideline's y-up signs.
pub proof fn law_srs_kicks_i(from: int, to: int, i: int)
    requires
        0 <= from < 4,
        to == (from + 1) % 4 || to == (from + 3) % 4,
        0 <= i < 5,
    ensures
        kick_table(BlockType::I, from, to).len() == 5,
        kick_table(BlockType::I, from, to)[i].0 == (srs_offset_i(from, i).0 - srs_offset_i(to, i).0) - (srs_offset_i(
            from,
            0,
        ).0 - srs_offset_i(to, 0).0),
        kick_table(BlockType::I, from, to)[i].1 == (srs_offset_i(from, i).1 - srs_offset_i(to, i).1) - (srs_offset_i(
            from,
            0,
        ).1 - srs_offset_i(to, 0).1),
{
    assert(from == 0 || from == 1 || from == 2 || from == 3);
    assert(i == 0 || i == 1 || i == 2 || i == 3 || i == 4);
}

/// Law (turning off the floor): a T lying flat on the floor of an empty
/// board, turned clockwise, cannot turn in place or one column left (it
/// would reach below the floor) and takes the third kick: one column left
/// and one row up.
pub proof fn law_t_turns_off_the_floor(b: Board, x: i32)
    requires
        forall|yy: int, xx: int| 0 <= yy < INTERNAL_HEIGHT && 0 <= xx < BOARD_WIDTH ==> #[trigger] b[yy][xx] is None,
        1 <= x <= 9,
    ensures
        rotate_result(b, Piece { block_type: BlockType::T, x, y: 23, rotation: 0 }, RotationDirection::Clockwise)
            == Some(Piece { block_type: BlockType::T, x: (x - 1) as i32, y: 22, rotation: 1 }),
{
    let p = Piece { block_type: BlockType::T, x, y: 23, rotation: 0 };
    let r = p.rotated_to(1);
    let kicks = kick_table(BlockType::T, 0, 1);
    let t0 = r.shifted(kicks[0].0 as int, kicks[0].1 as int);
    let t1 = r.shifted(kicks[1].0 as int, kicks[1].1 as int);
    let t2 = r.shifted(kicks[2].0 as int, kicks[2].1 as int);
    assert(!block_free(b, t0, 3));
    assert(!block_free(b, t1, 3));
    assert forall|k: int| 0 <= k < 4 implies #[trigger] block_free(b, t2, k) by {
        let c = t2.cell(k);
        assert(b[c.1][c.0] is None);
    }
    assert(t2 == Piece { block_type: BlockType::T, x: (x - 1) as i32, y: 22, rotation: 1 });
    assert(first_fitting_kick(b, r, kicks, 1) == first_fitting_kick(b, r, kicks, 2));
}

} // verus!
