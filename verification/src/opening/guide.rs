use vstd::prelude::*;
use crate::tetris::{BlockType, piece_offsets, get_piece_offsets};
use crate::opening::{
    ParsedPlacement, OpeningBranch, evaluate_condition, condition_holds, condition_sequence, min_first, min_coords,
};

verus! {

// ----------------------------------------------------------------------------
// Which bag's map applies
// ----------------------------------------------------------------------------

/// The map to follow at turn `turn` among `n` maps, one per bag of seven
/// pieces: the map of the current bag, the last map once past them all, none
/// when there are no maps.
pub open spec fn map_for_turn(n: int, turn: int) -> Option<int> {
    if turn / 7 < n {
        Some(turn / 7)
    } else if n > 0 {
        Some(n - 1)
    } else {
        None
    }
}

/// The placements to follow at turn `turn`: those of `map_for_turn` among the
/// lists, else the fallback.
pub fn placements_for_turn(
    lists: &Vec<Vec<ParsedPlacement>>,
    fallback: &Vec<ParsedPlacement>,
    turn: usize,
) -> (r: Vec<ParsedPlacement>)
    ensures
        r@ == match map_for_turn(lists@.len() as int, turn as int) {
            Some(i) => lists@[i]@,
            None => fallback@,
        },
{
    let bag_index = turn / 7;
    let r = if bag_index < lists.len() {
        lists[bag_index].clone()
    } else if lists.len() > 0 {
        lists[lists.len() - 1].clone()
    } else {
        fallback.clone()
    };
    assert(r@ =~= match map_for_turn(lists@.len() as int, turn as int) {
        Some(i) => lists@[i]@,
        None => fallback@,
    });
    r
}

/// The target heights to follow at turn `turn`: those of `map_for_turn`
/// among the lists, else the fallback.
pub fn heights_for_turn(lists: &Vec<Vec<i32>>, fallback: &Vec<i32>, turn: usize) -> (r: Vec<i32>)
    ensures
        r@ == match map_for_turn(lists@.len() as int, turn as int) {
            Some(i) => lists@[i]@,
            None => fallback@,
        },
{
    let bag_index = turn / 7;
    let r = if bag_index < lists.len() {
        lists[bag_index].clone()
    } else if lists.len() > 0 {
        lists[lists.len() - 1].clone()
    } else {
        fallback.clone()
    };
    assert(r@ =~= match map_for_turn(lists@.len() as int, turn as int) {
        Some(i) => lists@[i]@,
        None => fallback@,
    });
    r
}

// ----------------------------------------------------------------------------
// How well a move follows the map
// ----------------------------------------------------------------------------

/// How a candidate move compares with the map's placements.
#[derive(Debug, Clone, Copy, PartialEq, Eq, Structural)]
pub enum SequenceMatch {
    /// Column within one and the same rotation state.
    Full,
    /// Column within one or the same rotation state, not both.
    Partial,
    /// Neither, for every placement of the piece.
    Miss,
}

/// The columns differ by at most one.
pub open spec fn column_close(a: int, b: int) -> bool {
    -1 <= a - b <= 1
}

/// The leftmost column a piece of type `piece` covers when its position is
/// column `x` in rotation state `rotation`.
pub open spec fn leftmost_column(piece: BlockType, x: i32, rotation: usize) -> int {
    x + min_first(piece_offsets(piece, rotation as int % 4))
}

/// The move (its leftmost column `left` and its rotation state) agrees in
/// something with a placement of the same piece.
pub open spec fn agrees(p: ParsedPlacement, piece: BlockType, left: int, rotation: usize) -> bool {
    p.piece == piece && (column_close(left, p.col as int) || rotation == p.rotation)
}

/// The match of a move (its leftmost column `left` and its rotation state)
/// with the first placement of its piece that agrees with it in column or
/// rotation; a miss when none does.
pub open spec fn sequence_match_of(ps: Seq<ParsedPlacement>, piece: BlockType, left: int, rotation: usize) -> SequenceMatch
    decreases ps.len(),
{
    if ps.len() == 0 {
        SequenceMatch::Miss
    } else if agrees(ps[0], piece, left, rotation) {
        if column_close(left, ps[0].col as int) && rotation == ps[0].rotation {
            SequenceMatch::Full
        } else {
            SequenceMatch::Partial
        }
    } else {
        sequence_match_of(ps.drop_first(), piece, left, rotation)
    }
}

/// Compares a candidate move (the piece, its position's column `col` and its
/// rotation state) with the placements of the map, by the leftmost column
/// the piece covers: see `sequence_match_of`.
pub fn sequence_match(placements: &[ParsedPlacement], piece: BlockType, col: i32, rotation: usize) -> (r: SequenceMatch)
    ensures
        r == sequence_match_of(placements@, piece, leftmost_column(piece, col, rotation), rotation),
{
    let offsets = get_piece_offsets(piece, rotation);
    proof {
        crate::tetris::lemma_offsets_small(piece, rotation as int % 4);
    }
    let (min_ox, _) = min_coords(&offsets);
    let ghost left = leftmost_column(piece, col, rotation);
    proof {
        assert(offsets@ == piece_offsets(piece, rotation as int % 4));
        assert(-1 <= min_ox <= 2) by {
            crate::opening::lemma_min_first(offsets@);
        }
    }
    let left_col: i64 = col as i64 + min_ox as i64;
    assert(left_col == left);
    assert(placements@.skip(0) =~= placements@);
    let mut i: usize = 0;
    while i < placements.len()
        invariant
            i <= placements@.len(),
            left_col == left,
            left == leftmost_column(piece, col, rotation),
            i32::MIN - 1 <= left_col <= i32::MAX + 2,
            sequence_match_of(placements@, piece, left, rotation) == sequence_match_of(
                placements@.skip(i as int),
                piece,
                left,
                rotation,
            ),
        decreases placements@.len() - i,
    {
        let p = placements[i];
        assert(placements@.skip(i as int)[0] == p);
        assert(placements@.skip(i as int).drop_first() =~= placements@.skip(i as int + 1));
        if p.piece == piece {
            let diff = left_col - p.col as i64;
            let col_ok = -1 <= diff && diff <= 1;
            let rot_ok = rotation == p.rotation;
            if col_ok && rot_ok {
                return SequenceMatch::Full;
            } else if col_ok || rot_ok {
                return SequenceMatch::Partial;
            }
        }
        i += 1;
    }
    SequenceMatch::Miss
}

// ----------------------------------------------------------------------------
// Which branches apply
// ----------------------------------------------------------------------------

/// A branch applies by its conditions: it has some, and all of them hold for
/// the current piece followed by the queue.
pub open spec fn branch_selected(conds: Seq<Seq<char>>, queue: Seq<BlockType>, current: BlockType) -> bool {
    conds.len() > 0 && forall|i: int|
        0 <= i < conds.len() ==> condition_holds(#[trigger] conds[i], condition_sequence(queue, Some(current)))
}

/// Tells whether a branch applies by its conditions: see `branch_selected`.
pub fn branch_conditions_met(branch: &OpeningBranch, queue: &[BlockType], current: BlockType) -> (r: bool)
    ensures
        r == branch_selected(branch@.conditions, queue@, current),
{
    if branch.conditions.len() == 0 {
        return false;
    }
    let mut i: usize = 0;
    while i < branch.conditions.len()
        invariant
            i <= branch.conditions@.len(),
            forall|k: int|
                0 <= k < i ==> condition_holds(#[trigger] branch@.conditions[k], condition_sequence(queue@, Some(current))),
        decreases branch.conditions@.len() - i,
    {
        assert(branch@.conditions[i as int] == branch.conditions@[i as int]@);
        if !evaluate_condition(branch.conditions[i].as_str(), queue, Some(current)) {
            return false;
        }
        i += 1;
    }
    true
}

} // verus!
