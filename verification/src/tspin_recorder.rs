use vstd::prelude::*;
use std::collections::VecDeque;
use crate::tetris::{BlockType, Board, Game, Piece, BOARD_WIDTH, INTERNAL_HEIGHT};

verus! {

broadcast use vstd::seq_lib::group_filter_ensures;

/// The falling piece of a snapshot, with its type written out.
#[derive(Debug)]
pub struct PieceInfo {
    pub block_type: String,
    pub x: i32,
    pub y: i32,
    pub rotation: usize,
}

/// The plain content of a `PieceInfo`.
pub struct PieceInfoView {
    pub block_type: Seq<char>,
    pub x: i32,
    pub y: i32,
    pub rotation: usize,
}

impl View for PieceInfo {
    type V = PieceInfoView;

    open spec fn view(&self) -> PieceInfoView {
        PieceInfoView { block_type: self.block_type@, x: self.x, y: self.y, rotation: self.rotation }
    }
}

/// The view of an optional string.
pub open spec fn opt_text(o: Option<String>) -> Option<Seq<char>> {
    match o {
        Some(s) => Some(s@),
        None => None,
    }
}

impl Clone for PieceInfo {
    fn clone(&self) -> (r: Self)
        ensures
            r@ == self@,
    {
        PieceInfo { block_type: self.block_type.clone(), x: self.x, y: self.y, rotation: self.rotation }
    }
}

/// The state of one turn, as recorded around a T-Spin.
#[derive(Debug)]
pub struct BoardSnapshot {
    pub turn: usize,
    /// Turns relative to the T-Spin: -5 to -1 before it, 0 for it, 1 to 5 after it.
    pub relative_turn: i32,
    pub current_piece: Option<PieceInfo>,
    pub hold_piece: Option<String>,
    pub next_pieces: Vec<String>,
    pub lines_cleared_this_turn: u32,
    pub total_lines_cleared: u32,
    pub t_spin_type: Option<String>,
    pub score: u32,
    pub btb: bool,
    pub pending_garbage: u32,
    pub board_ascii: Vec<String>,
}

/// The plain content of a `BoardSnapshot`.
pub struct SnapshotView {
    pub turn: usize,
    pub relative_turn: i32,
    pub current_piece: Option<PieceInfoView>,
    pub hold_piece: Option<Seq<char>>,
    pub next_pieces: Seq<Seq<char>>,
    pub lines_cleared_this_turn: u32,
    pub total_lines_cleared: u32,
    pub t_spin_type: Option<Seq<char>>,
    pub score: u32,
    pub btb: bool,
    pub pending_garbage: u32,
    pub board_ascii: Seq<Seq<char>>,
}

impl View for BoardSnapshot {
    type V = SnapshotView;

    open spec fn view(&self) -> SnapshotView {
        SnapshotView {
            turn: self.turn,
            relative_turn: self.relative_turn,
            current_piece: match self.current_piece {
                Some(p) => Some(p@),
                None => None,
            },
            hold_piece: opt_text(self.hold_piece),
            next_pieces: self.next_pieces@.map_values(|t: String| t@),
            lines_cleared_this_turn: self.lines_cleared_this_turn,
            total_lines_cleared: self.total_lines_cleared,
            t_spin_type: opt_text(self.t_spin_type),
            score: self.score,
            btb: self.btb,
            pending_garbage: self.pending_garbage,
            board_ascii: self.board_ascii@.map_values(|t: String| t@),
        }
    }
}

/// The views of a sequence of snapshots.
pub open spec fn snaps_view(v: Seq<BoardSnapshot>) -> Seq<SnapshotView> {
    v.map_values(|t: BoardSnapshot| t@)
}

impl Clone for BoardSnapshot {
    fn clone(&self) -> (r: Self)
        ensures
            r@ == self@,
    {
        let next_pieces = self.next_pieces.clone();
        assert(next_pieces@ =~= self.next_pieces@);
        let board_ascii = self.board_ascii.clone();
        assert(board_ascii@ =~= self.board_ascii@);
        let current_piece = match &self.current_piece {
            Some(p) => Some(p.clone()),
            None => None,
        };
        let hold_piece = match &self.hold_piece {
            Some(h) => Some(h.clone()),
            None => None,
        };
        let t_spin_type = match &self.t_spin_type {
            Some(t) => Some(t.clone()),
            None => None,
        };
        BoardSnapshot {
            turn: self.turn,
            relative_turn: self.relative_turn,
            current_piece,
            hold_piece,
            next_pieces,
            lines_cleared_this_turn: self.lines_cleared_this_turn,
            total_lines_cleared: self.total_lines_cleared,
            t_spin_type,
            score: self.score,
            btb: self.btb,
            pending_garbage: self.pending_garbage,
            board_ascii,
        }
    }
}

/// A finished T-Spin event: five turns before it, the turn itself, and five after it.
#[derive(Debug)]
pub struct TSpinEventRecord {
    pub event_id: usize,
    pub timestamp: String,
    pub t_spin_type: String,
    pub trigger_turn: usize,
    pub history_before_5: Vec<BoardSnapshot>,
    pub trigger_snapshot: BoardSnapshot,
    pub history_after_5: Vec<BoardSnapshot>,
}

/// A T-Spin event still collecting the turns that follow it.
#[derive(Debug)]
pub struct PendingTSpinEvent {
    pub event_id: usize,
    pub t_spin_type: String,
    pub trigger_turn: usize,
    pub history_before_5: Vec<BoardSnapshot>,
    pub trigger_snapshot: BoardSnapshot,
    pub history_after_5: Vec<BoardSnapshot>,
    pub remaining_after: usize,
}

/// The plain content of a `PendingTSpinEvent`.
pub struct PendingView {
    pub event_id: usize,
    pub t_spin_type: Seq<char>,
    pub trigger_turn: usize,
    pub history_before_5: Seq<SnapshotView>,
    pub trigger_snapshot: SnapshotView,
    pub history_after_5: Seq<SnapshotView>,
    pub remaining_after: usize,
}

impl View for PendingTSpinEvent {
    type V = PendingView;

    open spec fn view(&self) -> PendingView {
        PendingView {
            event_id: self.event_id,
            t_spin_type: self.t_spin_type@,
            trigger_turn: self.trigger_turn,
            history_before_5: snaps_view(self.history_before_5@),
            trigger_snapshot: self.trigger_snapshot@,
            history_after_5: snaps_view(self.history_after_5@),
            remaining_after: self.remaining_after,
        }
    }
}

/// The views of a sequence of pending events.
pub open spec fn pending_view(v: Seq<PendingTSpinEvent>) -> Seq<PendingView> {
    v.map_values(|e: PendingTSpinEvent| e@)
}

impl PendingTSpinEvent {
    /// The record of this event, stamped with `timestamp`.
    pub fn into_record(self, timestamp: String) -> (r: TSpinEventRecord)
        ensures
            r.event_id == self.event_id,
            r.timestamp@ == timestamp@,
            r.t_spin_type@ == self.t_spin_type@,
            r.trigger_turn == self.trigger_turn,
            snaps_view(r.history_before_5@) == snaps_view(self.history_before_5@),
            r.trigger_snapshot@ == self.trigger_snapshot@,
            snaps_view(r.history_after_5@) == snaps_view(self.history_after_5@),
    {
        TSpinEventRecord {
            event_id: self.event_id,
            timestamp,
            t_spin_type: self.t_spin_type,
            trigger_turn: self.trigger_turn,
            history_before_5: self.history_before_5,
            trigger_snapshot: self.trigger_snapshot,
            history_after_5: self.history_after_5,
        }
    }
}

/// The letter of a block type.
pub open spec fn block_name(bt: BlockType) -> Seq<char> {
    match bt {
        BlockType::I => "I"@,
        BlockType::O => "O"@,
        BlockType::T => "T"@,
        BlockType::S => "S"@,
        BlockType::Z => "Z"@,
        BlockType::J => "J"@,
        BlockType::L => "L"@,
    }
}

/// The letter of a block type.
pub fn block_type_name(bt: BlockType) -> (s: &'static str)
    ensures
        s@ == block_name(bt),
{
    match bt {
        BlockType::I => "I",
        BlockType::O => "O",
        BlockType::T => "T",
        BlockType::S => "S",
        BlockType::Z => "Z",
        BlockType::J => "J",
        BlockType::L => "L",
    }
}

/// A cell of the picture: its letter and a space, or a dot and a space.
pub open spec fn cell_text(c: Option<BlockType>) -> Seq<char> {
    match c {
        Some(bt) => block_name(bt) + " "@,
        None => ". "@,
    }
}

/// The first `n` cells of row `y`, as text.
pub open spec fn row_cells_text(b: Board, y: int, n: int) -> Seq<char>
    decreases n,
{
    if n <= 0 {
        Seq::empty()
    } else {
        row_cells_text(b, y, n - 1) + cell_text(b[y][n - 1])
    }
}

/// Row `y` of the board as a line of the picture, between two bars.
pub open spec fn ascii_row(b: Board, y: int) -> Seq<char> {
    "|"@ + row_cells_text(b, y, BOARD_WIDTH as int) + "|"@
}

/// `s` records the given turn of `g`: the placed piece, the hold piece, the
/// next five pieces, the counters and the twenty visible rows as text.
pub open spec fn snapshot_matches(
    s: SnapshotView,
    turn: usize,
    rel: int,
    g: Game,
    piece: Option<Piece>,
    cleared: u32,
    ts: Option<Seq<char>>,
) -> bool {
    let q = g.bag.queue@;
    &&& s.turn == turn
    &&& s.relative_turn == rel
    &&& match piece {
        None => s.current_piece is None,
        Some(p) => s.current_piece == Some(
            PieceInfoView { block_type: block_name(p.block_type), x: p.x, y: p.y, rotation: p.rotation },
        ),
    }
    &&& match g.hold_piece {
        None => s.hold_piece is None,
        Some(h) => s.hold_piece == Some(block_name(h)),
    }
    &&& s.next_pieces.len() == (if q.len() < 5 { q.len() as int } else { 5int })
    &&& forall|i: int| 0 <= i < s.next_pieces.len() ==> #[trigger] s.next_pieces[i] == block_name(q[i])
    &&& s.lines_cleared_this_turn == cleared
    &&& s.total_lines_cleared == g.lines_cleared
    &&& s.t_spin_type == ts
    &&& s.score == g.score
    &&& s.btb == g.btb
    &&& s.pending_garbage == g.pending_garbage
    &&& s.board_ascii.len() == INTERNAL_HEIGHT - 4
    &&& forall|i: int| 0 <= i < s.board_ascii.len() ==> #[trigger] s.board_ascii[i] == ascii_row(g.board, i + 4)
}

/// The same snapshot with another relative turn.
pub open spec fn with_relative(s: SnapshotView, r: int) -> SnapshotView {
    SnapshotView { relative_turn: r as i32, ..s }
}

/// Writes row `y` of the board as text.
fn board_row_text(board: &Board, y: usize) -> (s: String)
    requires
        y < INTERNAL_HEIGHT,
    ensures
        s@ == ascii_row(*board, y as int),
{
    let mut row_str = String::from_str("|");
    let mut x: usize = 0;
    while x < BOARD_WIDTH
        invariant
            x <= BOARD_WIDTH,
            y < INTERNAL_HEIGHT,
            row_str@ == "|"@ + row_cells_text(*board, y as int, x as int),
        decreases BOARD_WIDTH - x,
    {
        match board[y][x] {
            Some(bt) => {
                row_str.append(block_type_name(bt));
                row_str.append(" ");
            },
            None => {
                row_str.append(". ");
            },
        }
        assert(row_str@ =~= "|"@ + row_cells_text(*board, y as int, x as int + 1));
        x += 1;
    }
    row_str.append("|");
    row_str
}

/// The events that are still collecting turns are well formed: each has
/// one to five turns to go, and as many snapshots after it as it has taken.
pub open spec fn pending_ok(e: PendingView) -> bool {
    &&& 1 <= e.remaining_after <= 5
    &&& e.history_after_5.len() + e.remaining_after == 5
    &&& e.history_before_5.len() <= 5
}

/// `after` is `before` once a turn with snapshot `snap` has been recorded:
/// turns after the trigger add a snapshot numbered 1 to 5.
pub open spec fn advanced_ok(before: PendingView, after: PendingView, turn: usize, snap: SnapshotView) -> bool {
    if turn > before.trigger_turn {
        after == PendingView {
            history_after_5: before.history_after_5.push(with_relative(snap, 6 - before.remaining_after)),
            remaining_after: (before.remaining_after - 1) as usize,
            ..before
        }
    } else {
        after == before
    }
}

/// The history turned into the turns before a T-Spin, numbered back from -1.
pub open spec fn relabel_before(hist: Seq<SnapshotView>, before: Seq<SnapshotView>) -> bool {
    &&& before.len() == hist.len()
    &&& forall|i: int| 0 <= i < hist.len() ==> #[trigger] before[i] == with_relative(hist[i], -(hist.len() - i))
}

/// A new event for a T-Spin of type `t` at `turn`.
pub open spec fn opened_event(
    e: PendingView,
    id: int,
    t: Seq<char>,
    turn: usize,
    hist: Seq<SnapshotView>,
    snap: SnapshotView,
) -> bool {
    &&& e.event_id == id
    &&& e.t_spin_type == t
    &&& e.trigger_turn == turn
    &&& relabel_before(hist, e.history_before_5)
    &&& e.trigger_snapshot == with_relative(snap, 0)
    &&& e.history_after_5.len() == 0
    &&& e.remaining_after == 5
}

/// An event that still needs turns.
pub open spec fn still_open(e: PendingView) -> bool {
    e.remaining_after > 0
}

/// An event that has all its turns.
pub open spec fn finished(e: PendingView) -> bool {
    e.remaining_after == 0
}

/// `still_open` as a filter.
pub open spec fn open_events() -> spec_fn(PendingView) -> bool {
    |e: PendingView| still_open(e)
}

/// `finished` as a filter.
pub open spec fn finished_events() -> spec_fn(PendingView) -> bool {
    |e: PendingView| finished(e)
}

/// What recording a turn does, given the snapshot `snap` of the turn, the
/// events `opened` once a T-Spin has opened its own, and the same events
/// `advanced` by the turn: the finished ones are handed over, the others
/// stay pending in order, and the turn joins the five-turn history.
pub open spec fn turn_recorded(
    pre_pending: Seq<PendingView>,
    pre_hist: Seq<SnapshotView>,
    pre_counter: usize,
    post_pending: Seq<PendingView>,
    post_hist: Seq<SnapshotView>,
    done: Seq<PendingView>,
    turn: usize,
    g: Game,
    p: Piece,
    cleared: u32,
    ts: Option<Seq<char>>,
    snap: SnapshotView,
    opened: Seq<PendingView>,
    advanced: Seq<PendingView>,
) -> bool {
    &&& snapshot_matches(snap, turn, 0, g, Some(p), cleared, ts)
    &&& match ts {
        Some(t) => {
            &&& opened.len() == pre_pending.len() + 1
            &&& opened.subrange(0, pre_pending.len() as int) == pre_pending
            &&& opened_event(opened[pre_pending.len() as int], pre_counter + 1, t, turn, pre_hist, snap)
        },
        None => opened == pre_pending,
    }
    &&& advanced.len() == opened.len()
    &&& forall|i: int| 0 <= i < opened.len() ==> #[trigger] advanced_ok(opened[i], advanced[i], turn, snap)
    &&& post_pending == advanced.filter(open_events())
    &&& done == advanced.filter(finished_events())
    &&& post_hist == (if pre_hist.len() >= 5 { pre_hist.drop_first() } else { pre_hist }).push(snap)
}

/// The turns of an event are labelled by their distance to the T-Spin: the
/// turns before it count up to -1, the T-Spin turn is 0, the turns after it
/// count from 1.
pub open spec fn event_labels(e: PendingView) -> bool {
    &&& e.trigger_snapshot.relative_turn == 0
    &&& forall|k: int|
        0 <= k < e.history_before_5.len() ==> (#[trigger] e.history_before_5[k]).relative_turn == k
            - e.history_before_5.len()
    &&& forall|k: int| 0 <= k < e.history_after_5.len() ==> (#[trigger] e.history_after_5[k]).relative_turn == k + 1
}

/// Law: recording a turn keeps every open event well formed and labelled,
/// and every event it completes holds the five turns after its T-Spin
/// (labelled 1 to 5) and at most five turns before it.
pub proof fn law_completed_events_hold_five_turns_after(
    pre_pending: Seq<PendingView>,
    pre_hist: Seq<SnapshotView>,
    pre_counter: usize,
    post_pending: Seq<PendingView>,
    post_hist: Seq<SnapshotView>,
    done: Seq<PendingView>,
    turn: usize,
    g: Game,
    p: Piece,
    cleared: u32,
    ts: Option<Seq<char>>,
    snap: SnapshotView,
    opened: Seq<PendingView>,
    advanced: Seq<PendingView>,
)
    requires
        pre_hist.len() <= 5,
        forall|i: int| 0 <= i < pre_pending.len() ==> pending_ok(#[trigger] pre_pending[i]) && event_labels(pre_pending[i]),
        turn_recorded(
            pre_pending,
            pre_hist,
            pre_counter,
            post_pending,
            post_hist,
            done,
            turn,
            g,
            p,
            cleared,
            ts,
            snap,
            opened,
            advanced,
        ),
    ensures
        forall|i: int| 0 <= i < post_pending.len() ==> pending_ok(#[trigger] post_pending[i]) && event_labels(post_pending[i]),
        forall|i: int|
            0 <= i < done.len() ==> (#[trigger] done[i]).history_after_5.len() == 5 && done[i].history_before_5.len()
                <= 5 && event_labels(done[i]),
{
    assert forall|i: int| 0 <= i < opened.len() implies pending_ok(#[trigger] opened[i]) && event_labels(opened[i]) by {
        if i < pre_pending.len() {
            assert(opened.subrange(0, pre_pending.len() as int)[i] == opened[i]);
            assert(pre_pending[i] == opened[i]);
        } else {
            let e = opened[i];
            assert(relabel_before(pre_hist, e.history_before_5));
            assert forall|k: int| 0 <= k < e.history_before_5.len() implies (#[trigger] e.history_before_5[k]).relative_turn
                == k - e.history_before_5.len() by {
                assert(e.history_before_5[k] == with_relative(pre_hist[k], -(pre_hist.len() - k)));
            }
        }
    }
    assert forall|i: int| 0 <= i < advanced.len() implies pending_ok_or_done(#[trigger] advanced[i]) && event_labels(advanced[i]) by {
        let b = opened[i];
        let a = advanced[i];
        assert(advanced_ok(b, a, turn, snap));
        assert(pending_ok(b) && event_labels(b));
        if turn > b.trigger_turn {
            let n = b.history_after_5.len();
            assert forall|k: int| 0 <= k < a.history_after_5.len() implies (#[trigger] a.history_after_5[k]).relative_turn == k + 1 by {
                if k < n {
                    assert(a.history_after_5[k] == b.history_after_5[k]);
                } else {
                    assert(a.history_after_5[k] == with_relative(snap, 6 - b.remaining_after));
                }
            }
        }
    }
    assert forall|i: int| 0 <= i < post_pending.len() implies pending_ok(#[trigger] post_pending[i]) && event_labels(post_pending[i]) by {
        assert(post_pending[i] == advanced.filter(open_events())[i]);
        assert(advanced.filter(open_events()).contains(post_pending[i]));
        advanced.lemma_filter_contains_rev(open_events(), post_pending[i]);
        let j = choose|j: int| 0 <= j < advanced.len() && advanced[j] == post_pending[i];
        assert(pending_ok_or_done(advanced[j]));
        assert(open_events()(post_pending[i]));
    }
    assert forall|i: int| 0 <= i < done.len() implies (#[trigger] done[i]).history_after_5.len() == 5
        && done[i].history_before_5.len() <= 5 && event_labels(done[i]) by {
        assert(done[i] == advanced.filter(finished_events())[i]);
        assert(advanced.filter(finished_events()).contains(done[i]));
        advanced.lemma_filter_contains_rev(finished_events(), done[i]);
        let j = choose|j: int| 0 <= j < advanced.len() && advanced[j] == done[i];
        assert(pending_ok_or_done(advanced[j]));
        assert(finished_events()(done[i]));
    }
}

/// An event that is open and well formed, or has just taken its last turn.
pub open spec fn pending_ok_or_done(e: PendingView) -> bool {
    &&& e.remaining_after <= 5
    &&& e.history_after_5.len() + e.remaining_after == 5
    &&& e.history_before_5.len() <= 5
}

/// Records the turns around each T-Spin: the five turns before it, the turn
/// itself and the five turns after it.
pub struct TSpinRecorder {
    pub event_counter: usize,
    /// The last five turns.
    pub history_buffer: VecDeque<BoardSnapshot>,
    pub pending_events: Vec<PendingTSpinEvent>,
}

impl TSpinRecorder {
    /// The history holds at most five turns and every pending event is well
    /// formed, its turns labelled by their distance to its T-Spin.
    pub open spec fn wf(self) -> bool {
        &&& self.history_buffer@.len() <= 5
        &&& forall|i: int|
            0 <= i < self.pending_events@.len() ==> #[trigger] pending_ok(self.pending_events@[i]@) && event_labels(
                self.pending_events@[i]@,
            )
    }

    /// A recorder with no history and no event.
    pub fn new() -> (r: Self)
        ensures
            r.wf(),
            r.event_counter == 0,
            r.history_buffer@.len() == 0,
            r.pending_events@.len() == 0,
    {
        TSpinRecorder { event_counter: 0, history_buffer: VecDeque::new(), pending_events: Vec::new() }
    }

    /// The snapshot of a turn: see `snapshot_matches`.
    pub fn create_snapshot(
        turn: usize,
        relative_turn: i32,
        game: &Game,
        piece: Option<&Piece>,
        cleared_lines: u32,
        t_spin_type: Option<String>,
    ) -> (s: BoardSnapshot)
        ensures
            snapshot_matches(
                s@,
                turn,
                relative_turn as int,
                *game,
                match piece {
                    Some(p) => Some(*p),
                    None => None,
                },
                cleared_lines,
                opt_text(t_spin_type),
            ),
    {
        let piece_info = match piece {
            Some(p) => Some(
                PieceInfo {
                    block_type: String::from_str(block_type_name(p.block_type)),
                    x: p.x,
                    y: p.y,
                    rotation: p.rotation,
                },
            ),
            None => None,
        };
        let hold_piece = match game.hold_piece {
            Some(h) => Some(String::from_str(block_type_name(h))),
            None => None,
        };
        let nexts = game.bag.peek_next(5);
        let mut next_pieces: Vec<String> = Vec::new();
        let mut i: usize = 0;
        while i < nexts.len()
            invariant
                i <= nexts@.len(),
                nexts@ == game.bag.queue@.take(
                    if 5 < game.bag.queue@.len() { 5int } else { game.bag.queue@.len() as int },
                ),
                next_pieces@.len() == i,
                forall|k: int| 0 <= k < i ==> #[trigger] next_pieces@[k]@ == block_name(game.bag.queue@[k]),
            decreases nexts@.len() - i,
        {
            next_pieces.push(String::from_str(block_type_name(nexts[i])));
            i += 1;
        }
        let mut board_ascii: Vec<String> = Vec::new();
        let mut y: usize = 4;
        while y < INTERNAL_HEIGHT
            invariant
                4 <= y <= INTERNAL_HEIGHT,
                board_ascii@.len() == y - 4,
                forall|k: int| 0 <= k < board_ascii@.len() ==> #[trigger] board_ascii@[k]@ == ascii_row(game.board, k + 4),
            decreases INTERNAL_HEIGHT - y,
        {
            board_ascii.push(board_row_text(&game.board, y));
            y += 1;
        }
        let s = BoardSnapshot {
            turn,
            relative_turn,
            current_piece: piece_info,
            hold_piece,
            next_pieces,
            lines_cleared_this_turn: cleared_lines,
            total_lines_cleared: game.lines_cleared,
            t_spin_type,
            score: game.score,
            btb: game.btb,
            pending_garbage: game.pending_garbage,
            board_ascii,
        };
        assert(s@.next_pieces =~= s.next_pieces@.map_values(|t: String| t@));
        s
    }

    /// Records one turn, right after its piece has been placed and locked:
    /// a T-Spin opens an event holding the last five turns and this one,
    /// every event opened on an earlier turn takes this turn as one of its
    /// five following turns, and the turn joins the five-turn history.
    /// Returns the events that now have all their turns, oldest first.
    pub fn record_turn(
        &mut self,
        turn: usize,
        game_before_spawn: &Game,
        placed_piece: &Piece,
        cleared_lines: u32,
        t_spin: Option<String>,
    ) -> (done: Vec<PendingTSpinEvent>)
        requires
            old(self).wf(),
            old(self).event_counter < usize::MAX,
        ensures
            final(self).wf(),
            final(self).event_counter == old(self).event_counter + if t_spin is Some { 1int } else { 0int },
            forall|i: int|
                0 <= i < done@.len() ==> (#[trigger] done@[i]).history_after_5@.len() == 5
                    && done@[i].history_before_5@.len() <= 5 && done@[i].remaining_after == 0 && event_labels(done@[i]@),
            exists|snap: SnapshotView, opened: Seq<PendingView>, advanced: Seq<PendingView>|
                #[trigger] turn_recorded(
                    pending_view(old(self).pending_events@),
                    snaps_view(old(self).history_buffer@),
                    old(self).event_counter,
                    pending_view(final(self).pending_events@),
                    snaps_view(final(self).history_buffer@),
                    pending_view(done@),
                    turn,
                    *game_before_spawn,
                    *placed_piece,
                    cleared_lines,
                    opt_text(t_spin),
                    snap,
                    opened,
                    advanced,
                ),
    {
        let snapshot = Self::create_snapshot(
            turn,
            0,
            game_before_spawn,
            Some(placed_piece),
            cleared_lines,
            t_spin.clone(),
        );
        let ghost snap = snapshot@;
        let ghost old_pending = pending_view(self.pending_events@);
        let ghost hist = snaps_view(self.history_buffer@);
        match &t_spin {
            Some(t_type) => {
                self.event_counter = self.event_counter + 1;
                let count = self.history_buffer.len();
                let mut before: Vec<BoardSnapshot> = Vec::new();
                let mut idx: usize = 0;
                while idx < count
                    invariant
                        count == self.history_buffer@.len(),
                        count <= 5,
                        idx <= count,
                        hist == snaps_view(self.history_buffer@),
                        before@.len() == idx,
                        forall|k: int|
                            0 <= k < idx ==> #[trigger] before@[k]@ == with_relative(hist[k], -(count - k)),
                    decreases count - idx,
                {
                    let mut snap_k = self.history_buffer[idx].clone();
                    snap_k.relative_turn = -((count - idx) as i32);
                    before.push(snap_k);
                    idx += 1;
                }
                let mut trigger_snap = snapshot.clone();
                trigger_snap.relative_turn = 0;
                let event = PendingTSpinEvent {
                    event_id: self.event_counter,
                    t_spin_type: t_type.clone(),
                    trigger_turn: turn,
                    history_before_5: before,
                    trigger_snapshot: trigger_snap,
                    history_after_5: Vec::new(),
                    remaining_after: 5,
                };
                proof {
                    assert(snaps_view(event.history_before_5@) =~= snaps_view(before@));
                    assert(relabel_before(hist, event@.history_before_5));
                    assert(event@.history_after_5 =~= Seq::<SnapshotView>::empty());
                }
                self.pending_events.push(event);
                proof {
                    assert(pending_view(self.pending_events@).subrange(0, old_pending.len() as int) =~= old_pending);
                }
            },
            None => {},
        }
        let ghost opened = pending_view(self.pending_events@);
        proof {
            assert forall|i: int| 0 <= i < opened.len() implies #[trigger] pending_ok(opened[i]) by {
                if i < old_pending.len() {
                    assert(opened[i] == old_pending[i]);
                }
            }
        }
        let mut rest: Vec<PendingTSpinEvent> = Vec::new();
        std::mem::swap(&mut rest, &mut self.pending_events);
        let mut kept: Vec<PendingTSpinEvent> = Vec::new();
        let mut done: Vec<PendingTSpinEvent> = Vec::new();
        let ghost mut advanced: Seq<PendingView> = Seq::empty();
        let n = rest.len();
        while rest.len() > 0
            invariant
                advanced.len() + rest@.len() == n,
                n == opened.len(),
                pending_view(rest@) == opened.subrange(advanced.len() as int, n as int),
                forall|i: int| 0 <= i < opened.len() ==> #[trigger] pending_ok(opened[i]),
                forall|k: int| 0 <= k < advanced.len() ==> #[trigger] advanced_ok(opened[k], advanced[k], turn, snap),
                pending_view(kept@) == advanced.filter(open_events()),
                pending_view(done@) == advanced.filter(finished_events()),
                forall|k: int| 0 <= k < kept@.len() ==> #[trigger] pending_ok(kept@[k]@),
                snap == snapshot@,
                hist == snaps_view(self.history_buffer@),
                self.history_buffer@.len() <= 5,
                self.event_counter == old(self).event_counter + if t_spin is Some { 1int } else { 0int },
            decreases rest@.len(),
        {
            let ghost k = advanced.len() as int;
            let ghost adv_start = advanced;
            let ghost rest_before = rest@;
            let mut e = rest.remove(0);
            proof {
                assert(pending_view(rest_before)[0] == e@);
                assert(rest@ =~= rest_before.subrange(1, rest_before.len() as int));
                assert forall|j: int| 0 <= j < rest@.len() implies #[trigger] pending_view(rest@)[j] == opened[k
                    + 1 + j] by {
                    assert(rest@[j] == rest_before[j + 1]);
                    assert(pending_view(rest_before)[j + 1] == opened.subrange(k, n as int)[j + 1]);
                }
                assert(pending_view(rest@) =~= opened.subrange(k + 1, n as int));
                assert(opened.subrange(k, n as int)[0] == opened[k]);
                assert(e@ == opened[k]);
                assert(pending_ok(opened[k]));
            }
            let ghost e_before = e@;
            if turn > e.trigger_turn {
                let mut after = snapshot.clone();
                after.relative_turn = (6 - e.remaining_after) as i32;
                e.history_after_5.push(after);
                e.remaining_after = e.remaining_after - 1;
                proof {
                    assert(snaps_view(e.history_after_5@) =~= e_before.history_after_5.push(
                        with_relative(snap, 6 - e_before.remaining_after),
                    ));
                }
            }
            proof {
                assert(advanced_ok(opened[k], e@, turn, snap));
                let adv2 = advanced.push(e@);
                assert forall|j: int| 0 <= j < adv2.len() implies #[trigger] advanced_ok(opened[j], adv2[j], turn, snap) by {
                    if j < advanced.len() {
                        assert(adv2[j] == advanced[j]);
                    }
                }
                advanced = adv2;
            }
            let ghost kept_before = kept@;
            let ghost done_before = done@;
            let ghost adv_before = adv_start;
            proof {
                assert(adv_before.push(e@) =~= advanced);
                adv_before.lemma_filter_push(e@, open_events());
                adv_before.lemma_filter_push(e@, finished_events());
            }
            if e.remaining_after == 0 {
                done.push(e);
                proof {
                    assert(pending_view(done@) =~= pending_view(done_before).push(e@));
                }
            } else {
                kept.push(e);
                proof {
                    assert(pending_view(kept@) =~= pending_view(kept_before).push(e@));
                    assert forall|j: int| 0 <= j < kept@.len() implies #[trigger] pending_ok(kept@[j]@) by {
                        if j < kept_before.len() {
                            assert(kept@[j] == kept_before[j]);
                        }
                    }
                }
            }
        }
        self.pending_events = kept;
        if self.history_buffer.len() >= 5 {
            self.history_buffer.pop_front();
        }
        self.history_buffer.push_back(snapshot);
        proof {
            assert(rest@.len() == 0);
            assert(advanced.len() == opened.len());
            let h = if hist.len() >= 5 { hist.drop_first() } else { hist };
            assert(snaps_view(self.history_buffer@) =~= h.push(snap));
            assert(turn_recorded(
                old_pending,
                hist,
                old(self).event_counter,
                pending_view(self.pending_events@),
                snaps_view(self.history_buffer@),
                pending_view(done@),
                turn,
                *game_before_spawn,
                *placed_piece,
                cleared_lines,
                opt_text(t_spin),
                snap,
                opened,
                advanced,
            ));
            assert forall|i: int| 0 <= i < old_pending.len() implies pending_ok(#[trigger] old_pending[i])
                && event_labels(old_pending[i]) by {
                assert(old_pending[i] == old(self).pending_events@[i]@);
            }
            law_completed_events_hold_five_turns_after(
                old_pending,
                hist,
                old(self).event_counter,
                pending_view(self.pending_events@),
                snaps_view(self.history_buffer@),
                pending_view(done@),
                turn,
                *game_before_spawn,
                *placed_piece,
                cleared_lines,
                opt_text(t_spin),
                snap,
                opened,
                advanced,
            );
            assert forall|i: int| 0 <= i < self.pending_events@.len() implies #[trigger] pending_ok(
                self.pending_events@[i]@,
            ) && event_labels(self.pending_events@[i]@) by {
                assert(pending_view(self.pending_events@)[i] == self.pending_events@[i]@);
            }
            assert forall|i: int| 0 <= i < done@.len() implies (#[trigger] done@[i]).history_after_5@.len() == 5
                && done@[i].history_before_5@.len() <= 5 && done@[i].remaining_after == 0 && event_labels(
                done@[i]@,
            ) by {
                assert(pending_view(done@)[i] == done@[i]@);
                assert(done@[i]@.history_after_5 == snaps_view(done@[i].history_after_5@));
                assert(finished_events()(pending_view(done@)[i]));
            }
        }
        done
    }

    /// Hands over every event still collecting turns (at the end of a game), emptying the list.
    pub fn flush_remaining(&mut self) -> (events: Vec<PendingTSpinEvent>)
        ensures
            pending_view(events@) == pending_view(old(self).pending_events@),
            final(self).pending_events@.len() == 0,
            final(self).event_counter == old(self).event_counter,
            snaps_view(final(self).history_buffer@) == snaps_view(old(self).history_buffer@),
            old(self).wf() ==> final(self).wf(),
    {
        let mut events: Vec<PendingTSpinEvent> = Vec::new();
        std::mem::swap(&mut events, &mut self.pending_events);
        events
    }
}

} // verus!
