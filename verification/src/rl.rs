use vstd::prelude::*;
use crate::tetris::{BlockType, Board, BOARD_WIDTH, INTERNAL_HEIGHT, mirror_block, all_block_types};
use crate::text::ascii_lower;
use crate::tspin_recorder::block_name;
use crate::opening::board_map::piece_of_lower;
use crate::text::text_from_chars;

verus! {

/// The block a board-map character stands for: a piece letter or its digit
/// `1`..`7`, and `・` as a filler block; anything else is an empty cell.
pub open spec fn map_char_block(c: char) -> Option<BlockType> {
    if c == 'i' || c == '1' || c == '・' {
        Some(BlockType::I)
    } else if c == 'o' || c == '2' {
        Some(BlockType::O)
    } else if c == 't' || c == '3' {
        Some(BlockType::T)
    } else if c == 's' || c == '4' {
        Some(BlockType::S)
    } else if c == 'z' || c == '5' {
        Some(BlockType::Z)
    } else if c == 'j' || c == '6' {
        Some(BlockType::J)
    } else if c == 'l' || c == '7' {
        Some(BlockType::L)
    } else {
        None
    }
}

fn char_block(c: char) -> (r: Option<BlockType>)
    ensures
        r == map_char_block(c),
{
    if c == 'i' || c == '1' || c == '・' {
        Some(BlockType::I)
    } else if c == 'o' || c == '2' {
        Some(BlockType::O)
    } else if c == 't' || c == '3' {
        Some(BlockType::T)
    } else if c == 's' || c == '4' {
        Some(BlockType::S)
    } else if c == 'z' || c == '5' {
        Some(BlockType::Z)
    } else if c == 'j' || c == '6' {
        Some(BlockType::J)
    } else if c == 'l' || c == '7' {
        Some(BlockType::L)
    } else {
        None
    }
}

/// The cell `(x, y)` of a board drawn from `rows`: the rows sit at the bottom
/// of the board, each read from its left end for at most ten columns.
pub open spec fn map_cell(rows: Seq<Seq<char>>, x: int, y: int) -> Option<BlockType> {
    let top = INTERNAL_HEIGHT - rows.len();
    if top <= y < INTERNAL_HEIGHT && 0 <= x < rows[y - top].len() {
        map_char_block(rows[y - top][x])
    } else {
        None
    }
}

/// Law (board-map letters): a board-map cell holding the lower-case letter
/// of a block's name (the one `block_type_name` gives) becomes that block,
/// and so does the digit of its place, 1 to 7, in the order
/// `BlockType::all` lists them (I, O, T, S, Z, J, L).
pub proof fn law_map_letters_name_their_blocks(rows: Seq<Seq<char>>, x: int, y: int, bt: BlockType)
    requires
        rows.len() <= INTERNAL_HEIGHT,
        INTERNAL_HEIGHT - rows.len() <= y < INTERNAL_HEIGHT,
        0 <= x < rows[y - (INTERNAL_HEIGHT - rows.len())].len(),
        ({
            let c = rows[y - (INTERNAL_HEIGHT - rows.len())][x];
            ||| c == ascii_lower(block_name(bt)[0])
            ||| exists|k: int| 0 <= k < 7 && all_block_types()[k] == bt && c as u32 == '1' as u32 + k
        }),
    ensures
        map_cell(rows, x, y) == Some(bt),
{
    reveal_strlit("I");
    reveal_strlit("O");
    reveal_strlit("T");
    reveal_strlit("S");
    reveal_strlit("Z");
    reveal_strlit("J");
    reveal_strlit("L");
    let c = rows[y - (INTERNAL_HEIGHT - rows.len())][x];
    assert(ascii_lower('I') == 'i' && ascii_lower('O') == 'o' && ascii_lower('T') == 't' && ascii_lower('S') == 's'
        && ascii_lower('Z') == 'z' && ascii_lower('J') == 'j' && ascii_lower('L') == 'l') by {
        assert(('I' as u32) + 32 == 'i' as u32);
        assert(('O' as u32) + 32 == 'o' as u32);
        assert(('T' as u32) + 32 == 't' as u32);
        assert(('S' as u32) + 32 == 's' as u32);
        assert(('Z' as u32) + 32 == 'z' as u32);
        assert(('J' as u32) + 32 == 'j' as u32);
        assert(('L' as u32) + 32 == 'l' as u32);
    }
    if exists|k: int| 0 <= k < 7 && all_block_types()[k] == bt && c as u32 == '1' as u32 + k {
        let k = choose|k: int| 0 <= k < 7 && all_block_types()[k] == bt && c as u32 == '1' as u32 + k;
        if k == 0 {
            vstd::utf8::char_u32_cast(c, c as u32);
            vstd::utf8::char_u32_cast('1', '1' as u32);
            assert(c == '1');
        } else if k == 1 {
            vstd::utf8::char_u32_cast(c, c as u32);
            vstd::utf8::char_u32_cast('2', '2' as u32);
            assert(c == '2');
        } else if k == 2 {
            vstd::utf8::char_u32_cast(c, c as u32);
            vstd::utf8::char_u32_cast('3', '3' as u32);
            assert(c == '3');
        } else if k == 3 {
            vstd::utf8::char_u32_cast(c, c as u32);
            vstd::utf8::char_u32_cast('4', '4' as u32);
            assert(c == '4');
        } else if k == 4 {
            vstd::utf8::char_u32_cast(c, c as u32);
            vstd::utf8::char_u32_cast('5', '5' as u32);
            assert(c == '5');
        } else if k == 5 {
            vstd::utf8::char_u32_cast(c, c as u32);
            vstd::utf8::char_u32_cast('6', '6' as u32);
            assert(c == '6');
        } else {
            vstd::utf8::char_u32_cast(c, c as u32);
            vstd::utf8::char_u32_cast('7', '7' as u32);
            assert(c == '7');
        }
    }
}

/// Law (one alphabet for maps): a training map and an opening's board map
/// read every letter the same way; a letter that names no piece is empty in
/// a training map and names no piece in an opening map.
pub proof fn law_training_and_opening_maps_agree(c: char)
    requires
        'a' <= c <= 'z',
    ensures
        map_char_block(c) == piece_of_lower(c),
{
}

/// Law (other characters are empty): a board-map cell holding anything but
/// a lower-case piece letter, a digit 1 to 7, or the filler `・` stays
/// empty, as does every cell above the map and every cell past the end of
/// its row.
pub proof fn law_other_map_cells_are_empty(rows: Seq<Seq<char>>, x: int, y: int)
    requires
        rows.len() <= INTERNAL_HEIGHT,
        0 <= y < INTERNAL_HEIGHT,
        0 <= x < BOARD_WIDTH,
        ({
            let top = INTERNAL_HEIGHT - rows.len();
            y < top || x >= rows[y - top].len() || {
                let c = rows[y - top][x];
                !(c == 'i' || c == 'o' || c == 't' || c == 's' || c == 'z' || c == 'j' || c == 'l' || ('1' <= c
                    <= '7') || c == '・')
            }
        }),
    ensures
        map_cell(rows, x, y) is None,
{
    let top = INTERNAL_HEIGHT - rows.len();
    if top <= y && x < rows[y - top].len() {
        let c = rows[y - top][x];
        assert(c != '1' && c != '2' && c != '3' && c != '4' && c != '5' && c != '6' && c != '7');
    }
}

/// Law (maps are bottom-aligned): putting another row on top of a board map
/// leaves every cell the shorter map drew where it was; the new row fills
/// the row just above them.
pub proof fn law_map_rows_stack(rows: Seq<Seq<char>>, r: Seq<char>, x: int, y: int)
    requires
        rows.len() < INTERNAL_HEIGHT,
        0 <= x < BOARD_WIDTH,
        INTERNAL_HEIGHT - rows.len() <= y < INTERNAL_HEIGHT,
    ensures
        map_cell(seq![r] + rows, x, y) == map_cell(rows, x, y),
        map_cell(seq![r] + rows, x, INTERNAL_HEIGHT - rows.len() - 1) == map_cell(seq![r], x, INTERNAL_HEIGHT - 1),
{
    let top = INTERNAL_HEIGHT - rows.len();
    assert((seq![r] + rows)[y - (top - 1)] == rows[y - top]);
    assert((seq![r] + rows)[0] == r);
}

/// Overwrites `board` with the picture in `board_map`, bottom-aligned.
pub fn set_board_from_strings(board: &mut Board, board_map: &[String])
    requires
        board_map@.len() <= INTERNAL_HEIGHT,
    ensures
        forall|y: int, x: int|
            0 <= y < INTERNAL_HEIGHT && 0 <= x < BOARD_WIDTH ==> #[trigger] final(board)[y][x] == map_cell(
                board_map@.map_values(|s: String| s@),
                x,
                y,
            ),
{
    let ghost rows = board_map@.map_values(|s: String| s@);
    *board = [[None; BOARD_WIDTH]; INTERNAL_HEIGHT];
    let nrows = board_map.len();
    let mut r: usize = 0;
    while r < nrows
        invariant
            nrows == board_map@.len(),
            nrows <= INTERNAL_HEIGHT,
            r <= nrows,
            rows == board_map@.map_values(|s: String| s@),
            rows.len() == nrows,
            forall|y: int, x: int|
                0 <= y < INTERNAL_HEIGHT && 0 <= x < BOARD_WIDTH ==> #[trigger] board[y][x] == if y
                    < INTERNAL_HEIGHT - nrows + r {
                    map_cell(rows, x, y)
                } else {
                    None::<BlockType>
                },
        decreases nrows - r,
    {
        let board_y = INTERNAL_HEIGHT - nrows + r;
        let row_str = board_map[r].as_str();
        let len = row_str.unicode_len();
        assert(row_str@ == rows[r as int]);
        let mut c: usize = 0;
        while c < len && c < BOARD_WIDTH
            invariant
                c <= BOARD_WIDTH,
                c <= len,
                len == rows[r as int].len(),
                row_str@ == rows[r as int],
                rows.len() == nrows,
                board_y == INTERNAL_HEIGHT - nrows + r,
                board_y < INTERNAL_HEIGHT,
                r < nrows,
                nrows <= INTERNAL_HEIGHT,
                forall|y: int, x: int|
                    0 <= y < INTERNAL_HEIGHT && 0 <= x < BOARD_WIDTH ==> #[trigger] board[y][x] == if y
                        < board_y || (y == board_y && x < c) {
                        map_cell(rows, x, y)
                    } else {
                        None::<BlockType>
                    },
            decreases len - c,
        {
            let ch = row_str.get_char(c);
            board[board_y][c] = char_block(ch);
            c += 1;
        }
        r += 1;
    }
}


// ----------------------------------------------------------------------------
// Mirrored training positions
// ----------------------------------------------------------------------------

/// A training-map character seen in the mirror: `j`/`l` and `s`/`z` swap,
/// everything else stays.
pub open spec fn training_mirror_char(c: char) -> char {
    if c == 'j' {
        'l'
    } else if c == 'l' {
        'j'
    } else if c == 's' {
        'z'
    } else if c == 'z' {
        's'
    } else {
        c
    }
}

/// A training-map row seen in the mirror: reversed, each character mirrored.
pub open spec fn training_mirror_row(r: Seq<char>) -> Seq<char> {
    Seq::new(r.len(), |i: int| training_mirror_char(r[r.len() - 1 - i]))
}

fn training_mirror_char_exec(c: char) -> (r: char)
    ensures
        r == training_mirror_char(c),
{
    if c == 'j' {
        'l'
    } else if c == 'l' {
        'j'
    } else if c == 's' {
        'z'
    } else if c == 'z' {
        's'
    } else {
        c
    }
}

/// Mirrors a training map left to right: every row reversed, with `j`/`l`
/// and `s`/`z` swapped.
pub fn mirror_training_map(map: &[String]) -> (r: Vec<String>)
    ensures
        r@.len() == map@.len(),
        forall|k: int| 0 <= k < map@.len() ==> (#[trigger] r@[k])@ == training_mirror_row(map@[k]@),
{
    let mut out: Vec<String> = Vec::new();
    let mut k: usize = 0;
    while k < map.len()
        invariant
            k <= map@.len(),
            out@.len() == k,
            forall|j: int| 0 <= j < k ==> (#[trigger] out@[j])@ == training_mirror_row(map@[j]@),
        decreases map@.len() - k,
    {
        let s = map[k].as_str();
        let n = s.unicode_len();
        let mut cs: Vec<char> = Vec::new();
        let mut i: usize = 0;
        while i < n
            invariant
                n == s@.len(),
                s@ == map@[k as int]@,
                i <= n,
                cs@ == training_mirror_row(s@).take(i as int),
            decreases n - i,
        {
            cs.push(training_mirror_char_exec(s.get_char(n - 1 - i)));
            assert(cs@ =~= training_mirror_row(s@).take(i as int + 1));
            i += 1;
        }
        assert(cs@ =~= training_mirror_row(s@));
        out.push(text_from_chars(&cs));
        k += 1;
    }
    out
}

/// Mirrors a piece sequence: see `mirror_block`.
pub fn mirror_pieces(pieces: &[BlockType]) -> (r: Vec<BlockType>)
    ensures
        r@ == pieces@.map_values(|b: BlockType| mirror_block(b)),
{
    let mut out: Vec<BlockType> = Vec::new();
    let mut i: usize = 0;
    while i < pieces.len()
        invariant
            i <= pieces@.len(),
            out@ == pieces@.take(i as int).map_values(|b: BlockType| mirror_block(b)),
        decreases pieces@.len() - i,
    {
        let m = match pieces[i] {
            BlockType::J => BlockType::L,
            BlockType::L => BlockType::J,
            BlockType::S => BlockType::Z,
            BlockType::Z => BlockType::S,
            other => other,
        };
        out.push(m);
        assert(out@ =~= pieces@.take(i as int + 1).map_values(|b: BlockType| mirror_block(b)));
        i += 1;
    }
    assert(pieces@.take(pieces@.len() as int) =~= pieces@);
    out
}
} // verus!
