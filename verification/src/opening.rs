use vstd::prelude::*;
use crate::tetris::{BlockType, piece_offsets, get_piece_offsets, mirror_block, mirror_option};
use crate::text::{
    str_upper, str_lower, trimmed, upper_text, lower_text, trim_text, text_from_chars, count_char,
    first_index_of, find_char, ascii_lower, to_ascii_lower, white_space, lemma_trimmed_push_ws,
    lemma_trimmed_prepend_ws, lemma_count_char_concat, lemma_count_char_absent, lemma_first_index_concat,
    lemma_concat_absent, trim_start, trim_end,
};

pub mod board_map;
pub mod layout;
pub mod guide;

pub use board_map::parse_board_map;

verus! {

// ----------------------------------------------------------------------------
// Conditions on the piece sequence
// ----------------------------------------------------------------------------

/// The piece a text names: exactly one of the letters I, O, T, S, Z, J, L.
pub open spec fn piece_of_text(u: Seq<char>) -> Option<BlockType> {
    if u.len() != 1 {
        None
    } else if u[0] == 'I' {
        Some(BlockType::I)
    } else if u[0] == 'O' {
        Some(BlockType::O)
    } else if u[0] == 'T' {
        Some(BlockType::T)
    } else if u[0] == 'S' {
        Some(BlockType::S)
    } else if u[0] == 'Z' {
        Some(BlockType::Z)
    } else if u[0] == 'J' {
        Some(BlockType::J)
    } else if u[0] == 'L' {
        Some(BlockType::L)
    } else {
        None
    }
}

/// Reads a piece letter in either case.
pub fn parse_block_type_char(s: &str) -> (r: Option<BlockType>)
    ensures
        r == piece_of_text(str_upper(s@)),
{
    let u = upper_text(s);
    let us = u.as_str();
    if us.unicode_len() != 1 {
        return None;
    }
    let c = us.get_char(0);
    if c == 'I' {
        Some(BlockType::I)
    } else if c == 'O' {
        Some(BlockType::O)
    } else if c == 'T' {
        Some(BlockType::T)
    } else if c == 'S' {
        Some(BlockType::S)
    } else if c == 'Z' {
        Some(BlockType::Z)
    } else if c == 'J' {
        Some(BlockType::J)
    } else if c == 'L' {
        Some(BlockType::L)
    } else {
        None
    }
}

/// The text before the first `c`.
pub open spec fn part_before(s: Seq<char>, c: char) -> Seq<char> {
    s.take(first_index_of(s, c))
}

/// The text after the first `c`.
pub open spec fn part_after(s: Seq<char>, c: char) -> Seq<char> {
    s.skip(first_index_of(s, c) + 1)
}

/// The piece named by one side of a condition, spaces around it ignored.
pub open spec fn side_piece(part: Seq<char>) -> Option<BlockType> {
    piece_of_text(str_upper(trimmed(part)))
}

/// The position of the first `b` in `seq`, or its length when there is none.
pub open spec fn first_position(seq: Seq<BlockType>, b: BlockType) -> int
    decreases seq.len(),
{
    if seq.len() == 0 {
        0
    } else if seq[0] == b {
        0
    } else {
        1 + first_position(seq.drop_first(), b)
    }
}

/// The sequence a condition is checked against: the current piece, then the queue.
pub open spec fn condition_sequence(queue: Seq<BlockType>, current: Option<BlockType>) -> Seq<BlockType> {
    match current {
        Some(c) => seq![c] + queue,
        None => queue,
    }
}

/// A condition `A < B` holds when both pieces come in the sequence and the
/// first `A` comes before the first `B`; `A = B` holds when both come. The
/// condition must hold exactly one operator sign (a second sign makes it
/// false), and `<` is looked for before `=`.
pub open spec fn condition_holds(cond: Seq<char>, seq: Seq<BlockType>) -> bool {
    if cond.contains('<') {
        count_char(cond, '<') == 1 && match (
            side_piece(part_before(cond, '<')),
            side_piece(part_after(cond, '<')),
        ) {
            (Some(b1), Some(b2)) => seq.contains(b1) && seq.contains(b2) && first_position(seq, b1)
                < first_position(seq, b2),
            _ => false,
        }
    } else if cond.contains('=') {
        count_char(cond, '=') == 1 && match (
            side_piece(part_before(cond, '=')),
            side_piece(part_after(cond, '=')),
        ) {
            (Some(b1), Some(b2)) => seq.contains(b1) && seq.contains(b2),
            _ => false,
        }
    } else {
        false
    }
}

proof fn lemma_first_position(seq: Seq<BlockType>, b: BlockType)
    ensures
        0 <= first_position(seq, b) <= seq.len(),
        forall|k: int| 0 <= k < first_position(seq, b) ==> seq[k] != b,
        first_position(seq, b) < seq.len() ==> seq[first_position(seq, b)] == b,
        seq.contains(b) <==> first_position(seq, b) < seq.len(),
    decreases seq.len(),
{
    if seq.len() > 0 && seq[0] != b {
        lemma_first_position(seq.drop_first(), b);
        assert forall|k: int| 0 <= k < first_position(seq, b) implies seq[k] != b by {
            if k > 0 {
                assert(seq[k] == seq.drop_first()[k - 1]);
            }
        }
        if seq.contains(b) {
            let j = choose|j: int| 0 <= j < seq.len() && seq[j] == b;
            assert(seq.drop_first()[j - 1] == b);
        }
        if first_position(seq, b) < seq.len() {
            assert(seq[first_position(seq, b)] == seq.drop_first()[first_position(seq, b) - 1]);
        }
    }
}

/// Finds the first `b` in `seq`.
fn position_of(seq: &Vec<BlockType>, b: BlockType) -> (r: Option<usize>)
    ensures
        seq@.contains(b) ==> r == Some(first_position(seq@, b) as usize),
        !seq@.contains(b) ==> r is None,
{
    proof {
        lemma_first_position(seq@, b);
    }
    let mut i: usize = 0;
    while i < seq.len()
        invariant
            i <= seq@.len(),
            forall|k: int| 0 <= k < i ==> seq@[k] != b,
            0 <= first_position(seq@, b) <= seq@.len(),
            forall|k: int| 0 <= k < first_position(seq@, b) ==> seq@[k] != b,
            first_position(seq@, b) < seq@.len() ==> seq@[first_position(seq@, b)] == b,
            seq@.contains(b) <==> first_position(seq@, b) < seq@.len(),
        decreases seq@.len() - i,
    {
        if seq[i] == b {
            return Some(i);
        }
        i += 1;
    }
    None
}

/// Splits `cond` around its first `c` and reads the pieces on both sides.
fn side_pieces(cond: &str, first: usize) -> (r: (Option<BlockType>, Option<BlockType>))
    requires
        first < cond@.len(),
    ensures
        r.0 == side_piece(cond@.take(first as int)),
        r.1 == side_piece(cond@.skip(first as int + 1)),
{
    let n = cond.unicode_len();
    let left = cond.substring_char(0, first);
    let right = cond.substring_char(first + 1, n);
    assert(left@ =~= cond@.take(first as int));
    assert(right@ =~= cond@.skip(first as int + 1));
    let p1 = parse_block_type_char(trim_text(left));
    let p2 = parse_block_type_char(trim_text(right));
    (p1, p2)
}

/// Checks a branch condition such as `"L < J"` or `"T = Z"` against the
/// current piece followed by the queue: see `condition_holds`.
pub fn evaluate_condition(cond: &str, queue: &[BlockType], current_piece: Option<BlockType>) -> (r: bool)
    ensures
        r == condition_holds(cond@, condition_sequence(queue@, current_piece)),
{
    let mut sequence: Vec<BlockType> = Vec::new();
    match current_piece {
        Some(cp) => sequence.push(cp),
        None => {},
    }
    let ghost start = sequence@;
    let mut i: usize = 0;
    while i < queue.len()
        invariant
            i <= queue@.len(),
            sequence@ == start + queue@.take(i as int),
            start == match current_piece {
                Some(c) => seq![c],
                None => Seq::<BlockType>::empty(),
            },
        decreases queue@.len() - i,
    {
        sequence.push(queue[i]);
        assert(queue@.take(i as int + 1) =~= queue@.take(i as int).push(queue@[i as int]));
        i += 1;
    }
    assert(queue@.take(queue@.len() as int) =~= queue@);
    assert(sequence@ =~= condition_sequence(queue@, current_piece));
    let (lt_count, lt_first) = find_char(cond, '<');
    if lt_first < cond.unicode_len() {
        if lt_count == 1 {
            let (p1, p2) = side_pieces(cond, lt_first);
            assert(p1 == side_piece(part_before(cond@, '<')));
            assert(p2 == side_piece(part_after(cond@, '<')));
            match (p1, p2) {
                (Some(b1), Some(b2)) => {
                    let idx1 = position_of(&sequence, b1);
                    let idx2 = position_of(&sequence, b2);
                    proof {
                        lemma_first_position(sequence@, b1);
                        lemma_first_position(sequence@, b2);
                    }
                    match (idx1, idx2) {
                        (Some(i1), Some(i2)) => {
                            return i1 < i2;
                        },
                        _ => return false,
                    }
                },
                _ => {},
            }
        }
    } else {
        let (eq_count, eq_first) = find_char(cond, '=');
        if eq_first < cond.unicode_len() {
            if eq_count == 1 {
                let (p1, p2) = side_pieces(cond, eq_first);
                match (p1, p2) {
                    (Some(b1), Some(b2)) => {
                        let has1 = position_of(&sequence, b1).is_some();
                        let has2 = position_of(&sequence, b2).is_some();
                        return has1 && has2;
                    },
                    _ => {},
                }
            }
        }
    }
    false
}

// ----------------------------------------------------------------------------
// Mirroring
// ----------------------------------------------------------------------------

/// One side of a mirrored condition: the upper-cased piece name, with J and
/// L swapped and S and Z swapped.
pub open spec fn swapped_side(part: Seq<char>) -> Seq<char> {
    let u = str_upper(trimmed(part));
    if u == "J"@ {
        "L"@
    } else if u == "L"@ {
        "J"@
    } else if u == "S"@ {
        "Z"@
    } else if u == "Z"@ {
        "S"@
    } else {
        u
    }
}

/// The condition for the left-right mirror of a board: `A < B` becomes
/// `A' < B'` and `A = B` becomes `A' = B'` with J/L and S/Z swapped; any
/// other text is kept.
pub open spec fn mirrored_condition(cond: Seq<char>) -> Seq<char> {
    if cond.contains('<') {
        if count_char(cond, '<') == 1 {
            swapped_side(part_before(cond, '<')) + " < "@ + swapped_side(part_after(cond, '<'))
        } else {
            cond
        }
    } else if cond.contains('=') {
        if count_char(cond, '=') == 1 {
            swapped_side(part_before(cond, '=')) + " = "@ + swapped_side(part_after(cond, '='))
        } else {
            cond
        }
    } else {
        cond
    }
}

/// What the mirror law for conditions needs of `str::to_uppercase`, whose
/// result the library names and does not state: on one side of a condition,
/// upper-casing the trimmed text gives no `<` or `=`, no whitespace at either
/// end, and text that upper-casing keeps; and the capitals J, L, S and Z
/// upper-case to themselves.
pub open spec fn upper_case_regular(part: Seq<char>) -> bool {
    let u = str_upper(trimmed(part));
    &&& !u.contains('<')
    &&& !u.contains('=')
    &&& trimmed(u) == u
    &&& str_upper(u) == u
    &&& str_upper("J"@) == "J"@
    &&& str_upper("L"@) == "L"@
    &&& str_upper("S"@) == "S"@
    &&& str_upper("Z"@) == "Z"@
}

/// The two sides of the condition's operator are `upper_case_regular`.
pub open spec fn condition_sides_regular(cond: Seq<char>) -> bool {
    &&& cond.contains('<') ==> upper_case_regular(part_before(cond, '<')) && upper_case_regular(
        part_after(cond, '<'),
    )
    &&& !cond.contains('<') && cond.contains('=') ==> upper_case_regular(part_before(cond, '=')) && upper_case_regular(
        part_after(cond, '='),
    )
}

/// A mirrored side holds no operator sign, and, with a space on either side,
/// reads as the mirror image of the side's piece.
proof fn lemma_swapped_side(part: Seq<char>)
    requires
        upper_case_regular(part),
    ensures
        !swapped_side(part).contains('<'),
        !swapped_side(part).contains('='),
        side_piece(swapped_side(part).push(' ')) == mirror_option(side_piece(part)),
        side_piece(seq![' '] + swapped_side(part)) == mirror_option(side_piece(part)),
{
    reveal_strlit("J");
    reveal_strlit("L");
    reveal_strlit("S");
    reveal_strlit("Z");
    let u = str_upper(trimmed(part));
    let x = swapped_side(part);
    assert(white_space(' ')) by {
        assert(' ' as u32 == 0x20);
    }
    lemma_trimmed_push_ws(x, ' ');
    lemma_trimmed_prepend_ws(x, ' ');
    assert(!white_space('J') && !white_space('L') && !white_space('S') && !white_space('Z')) by {
        assert('J' as u32 == 0x4A);
        assert('L' as u32 == 0x4C);
        assert('S' as u32 == 0x53);
        assert('Z' as u32 == 0x5A);
    }
    if u =~= "J"@ || u =~= "L"@ || u =~= "S"@ || u =~= "Z"@ {
        assert(x.len() == 1);
        assert(x[0] == 'J' || x[0] == 'L' || x[0] == 'S' || x[0] == 'Z');
        assert(trim_start(x) == x);
        assert(x.drop_last() =~= Seq::<char>::empty());
        assert(trim_end(x) == x);
        assert(trimmed(x) == x);
        assert(!x.contains('<') && !x.contains('=')) by {
            if x.contains('<') || x.contains('=') {
                assert(x[0] == '<' || x[0] == '=');
            }
        }
    } else {
        assert(x == u);
        assert(piece_of_text(u) != Some(BlockType::J)) by {
            if piece_of_text(u) == Some(BlockType::J) {
                assert(u =~= "J"@);
            }
        }
        assert(piece_of_text(u) != Some(BlockType::L)) by {
            if piece_of_text(u) == Some(BlockType::L) {
                assert(u =~= "L"@);
            }
        }
        assert(piece_of_text(u) != Some(BlockType::S)) by {
            if piece_of_text(u) == Some(BlockType::S) {
                assert(u =~= "S"@);
            }
        }
        assert(piece_of_text(u) != Some(BlockType::Z)) by {
            if piece_of_text(u) == Some(BlockType::Z) {
                assert(u =~= "Z"@);
            }
        }
    }
}

/// The condition `x op y` written with spaces round the sign: it holds the
/// sign once, and its sides are `x` and `y`, each with its space.
proof fn lemma_spaced_condition(x: Seq<char>, y: Seq<char>, op: char, sep: Seq<char>)
    requires
        sep == seq![' ', op, ' '],
        op != ' ',
        !x.contains(op),
        !y.contains(op),
    ensures
        (x + sep + y).contains(op),
        count_char(x + sep + y, op) == 1,
        part_before(x + sep + y, op) == x.push(' '),
        part_after(x + sep + y, op) == seq![' '] + y,
{
    let c = x + sep + y;
    assert(c[x.len() as int + 1] == op);
    lemma_count_char_concat(x + sep, y, op);
    lemma_count_char_concat(x, sep, op);
    lemma_count_char_absent(x, op);
    lemma_count_char_absent(y, op);
    reveal_with_fuel(count_char, 4);
    assert(sep.drop_last() =~= seq![' ', op]);
    assert(seq![' ', op].drop_last() =~= seq![' ']);
    assert(seq![' '].drop_last() =~= Seq::<char>::empty());
    assert(c =~= x + (sep + y));
    lemma_first_index_concat(x, sep + y, op);
    assert((sep + y)[0] == ' ');
    assert((sep + y).drop_first()[0] == op);
    assert((sep + y).drop_first() =~= seq![op, ' '] + y);
    assert(first_index_of(seq![op, ' '] + y, op) == 0);
    assert(first_index_of(sep + y, op) == 1 + first_index_of((sep + y).drop_first(), op));
    assert(first_index_of(c, op) == x.len() + 1);
    assert(c.take(x.len() as int + 1) =~= x.push(' '));
    assert(c.skip(x.len() as int + 2) =~= seq![' '] + y);
}

/// The mirror image of a piece comes in the mirrored sequence where the
/// piece comes in the sequence.
proof fn lemma_mirror_positions(s: Seq<BlockType>, b: BlockType)
    ensures
        s.map_values(|x: BlockType| mirror_block(x)).contains(mirror_block(b)) == s.contains(b),
        first_position(s.map_values(|x: BlockType| mirror_block(x)), mirror_block(b)) == first_position(s, b),
    decreases s.len(),
{
    let m = s.map_values(|x: BlockType| mirror_block(x));
    lemma_first_position(s, b);
    lemma_first_position(m, mirror_block(b));
    if s.len() > 0 {
        assert(m.drop_first() =~= s.drop_first().map_values(|x: BlockType| mirror_block(x)));
        lemma_mirror_positions(s.drop_first(), b);
        assert(m[0] == mirror_block(s[0]));
        assert((m[0] == mirror_block(b)) == (s[0] == b));
    }
}

/// Law: a condition mirrored by `mirror_condition` holds for the mirrored
/// pieces (J/L and S/Z swapped) exactly when the condition holds for the
/// pieces. The sides of the condition must be `upper_case_regular`: what the
/// law needs of upper-casing, which the library does not state.
pub proof fn law_mirrored_condition(cond: Seq<char>, queue: Seq<BlockType>, current: Option<BlockType>)
    requires
        condition_sides_regular(cond),
    ensures
        condition_holds(
            mirrored_condition(cond),
            condition_sequence(queue.map_values(|x: BlockType| mirror_block(x)), mirror_option(current)),
        ) == condition_holds(cond, condition_sequence(queue, current)),
{
    let s = condition_sequence(queue, current);
    let ms = condition_sequence(queue.map_values(|x: BlockType| mirror_block(x)), mirror_option(current));
    assert(ms =~= s.map_values(|x: BlockType| mirror_block(x)));
    reveal_strlit(" < ");
    reveal_strlit(" = ");
    assert(" < "@ =~= seq![' ', '<', ' ']);
    assert(" = "@ =~= seq![' ', '=', ' ']);
    if cond.contains('<') && count_char(cond, '<') == 1 {
        let a = part_before(cond, '<');
        let b = part_after(cond, '<');
        lemma_swapped_side(a);
        lemma_swapped_side(b);
        let x = swapped_side(a);
        let y = swapped_side(b);
        lemma_spaced_condition(x, y, '<', " < "@);
        assert(mirrored_condition(cond) == x + " < "@ + y);
        if let (Some(b1), Some(b2)) = (side_piece(a), side_piece(b)) {
            lemma_mirror_positions(s, b1);
            lemma_mirror_positions(s, b2);
        }
    } else if !cond.contains('<') && cond.contains('=') && count_char(cond, '=') == 1 {
        let a = part_before(cond, '=');
        let b = part_after(cond, '=');
        lemma_swapped_side(a);
        lemma_swapped_side(b);
        let x = swapped_side(a);
        let y = swapped_side(b);
        lemma_spaced_condition(x, y, '=', " = "@);
        assert(!" = "@.contains('<')) by {
            if " = "@.contains('<') {
                let j = choose|j: int| 0 <= j < 3 && " = "@[j] == '<';
            }
        }
        lemma_concat_absent(x, " = "@, '<');
        lemma_concat_absent(x + " = "@, y, '<');
        assert(mirrored_condition(cond) == x + " = "@ + y);
        if let (Some(b1), Some(b2)) = (side_piece(a), side_piece(b)) {
            lemma_mirror_positions(s, b1);
            lemma_mirror_positions(s, b2);
        }
    }
}

fn swap_side(part: &str) -> (r: String)
    ensures
        r@ == swapped_side(part@),
{
    let u = upper_text(trim_text(part));
    let us = u.as_str();
    proof {
        reveal_strlit("J");
        reveal_strlit("L");
        reveal_strlit("S");
        reveal_strlit("Z");
    }
    if us.unicode_len() == 1 {
        let c = us.get_char(0);
        if c == 'J' {
            assert(us@ =~= "J"@);
            return String::from_str("L");
        } else if c == 'L' {
            assert(us@ =~= "L"@);
            return String::from_str("J");
        } else if c == 'S' {
            assert(us@ =~= "S"@);
            return String::from_str("Z");
        } else if c == 'Z' {
            assert(us@ =~= "Z"@);
            return String::from_str("S");
        }
    }
    u
}

fn mirrored_parts(cond: &str, first: usize, sep: &str) -> (r: String)
    requires
        first < cond@.len(),
    ensures
        r@ == swapped_side(cond@.take(first as int)) + sep@ + swapped_side(cond@.skip(first as int + 1)),
{
    let n = cond.unicode_len();
    let left = cond.substring_char(0, first);
    let right = cond.substring_char(first + 1, n);
    assert(left@ =~= cond@.take(first as int));
    assert(right@ =~= cond@.skip(first as int + 1));
    let mut out = swap_side(left);
    out.append(sep);
    let r2 = swap_side(right);
    out.append(r2.as_str());
    out
}

/// Mirrors a branch condition: see `mirrored_condition`.
pub fn mirror_condition(cond: &str) -> (r: String)
    ensures
        r@ == mirrored_condition(cond@),
{
    let (lt_count, lt_first) = find_char(cond, '<');
    if lt_first < cond.unicode_len() {
        if lt_count == 1 {
            return mirrored_parts(cond, lt_first, " < ");
        }
    } else {
        let (eq_count, eq_first) = find_char(cond, '=');
        if eq_first < cond.unicode_len() {
            if eq_count == 1 {
                return mirrored_parts(cond, eq_first, " = ");
            }
        }
    }
    String::from_str(cond)
}

/// A board-map character seen in the mirror: lower-cased (ASCII), with j/l
/// and s/z swapped.
pub open spec fn mirror_char(c: char) -> char {
    let l = ascii_lower(c);
    if l == 'j' {
        'l'
    } else if l == 'l' {
        'j'
    } else if l == 's' {
        'z'
    } else if l == 'z' {
        's'
    } else {
        l
    }
}

/// A board-map row seen in the mirror: reversed, each character mirrored.
pub open spec fn mirror_row(r: Seq<char>) -> Seq<char> {
    Seq::new(r.len(), |i: int| mirror_char(r[r.len() - 1 - i]))
}

/// Law: mirroring a row twice gives the row in ASCII lower case.
pub proof fn law_mirror_row_twice(r: Seq<char>)
    ensures
        mirror_row(mirror_row(r)) == r.map_values(|c: char| ascii_lower(c)),
{
    assert forall|i: int| 0 <= i < r.len() implies #[trigger] mirror_row(mirror_row(r))[i] == ascii_lower(r[i]) by {
        let c = r[i];
        let m = mirror_char(c);
        assert(mirror_row(r)[r.len() - 1 - i] == m);
        if 'A' <= c <= 'Z' {
            assert(((c as u32) + 32) as char >= 'a');
        }
    }
    assert(mirror_row(mirror_row(r)) =~= r.map_values(|c: char| ascii_lower(c)));
}

fn mirror_char_exec(c: char) -> (r: char)
    ensures
        r == mirror_char(c),
{
    let l = to_ascii_lower(c);
    if l == 'j' {
        'l'
    } else if l == 'l' {
        'j'
    } else if l == 's' {
        'z'
    } else if l == 'z' {
        's'
    } else {
        l
    }
}

/// Mirrors one board-map row.
fn mirror_row_text(row: &String) -> (r: String)
    ensures
        r@ == mirror_row(row@),
{
    let s = row.as_str();
    let n = s.unicode_len();
    let mut out: Vec<char> = Vec::new();
    let mut i: usize = 0;
    while i < n
        invariant
            n == s@.len(),
            s@ == row@,
            i <= n,
            out@ == mirror_row(row@).take(i as int),
        decreases n - i,
    {
        out.push(mirror_char_exec(s.get_char(n - 1 - i)));
        assert(out@ =~= mirror_row(row@).take(i as int + 1));
        i += 1;
    }
    assert(out@ =~= mirror_row(row@));
    text_from_chars(&out)
}


// ----------------------------------------------------------------------------
// Branches
// ----------------------------------------------------------------------------

/// One piece of a board map: its type, its leftmost column (counted from 0)
/// and its rotation state.
#[derive(Debug, Clone, Copy, PartialEq, Eq, Structural)]
pub struct ParsedPlacement {
    pub piece: BlockType,
    pub col: i32,
    pub rotation: usize,
}

/// A branch of an opening: the conditions under which it applies, its board
/// maps (one per bag) and what was read from them.
#[derive(Debug, Clone)]
pub struct OpeningBranch {
    pub conditions: Vec<String>,
    pub board_map: Vec<String>,
    pub board_maps: Vec<Vec<String>>,
    pub parsed_placements: Vec<ParsedPlacement>,
    pub target_heights: Vec<i32>,
    pub parsed_placements_list: Vec<Vec<ParsedPlacement>>,
    pub target_heights_list: Vec<Vec<i32>>,
}

/// The texts of a list of strings.
pub open spec fn texts(v: Seq<String>) -> Seq<Seq<char>> {
    v.map_values(|s: String| s@)
}

/// The texts of a list of board maps.
pub open spec fn maps_text(v: Seq<Vec<String>>) -> Seq<Seq<Seq<char>>> {
    v.map_values(|m: Vec<String>| texts(m@))
}

/// The contents of a list of vectors.
pub open spec fn vec_views<T>(v: Seq<Vec<T>>) -> Seq<Seq<T>> {
    v.map_values(|x: Vec<T>| x@)
}

/// The plain content of an `OpeningBranch`.
pub struct BranchView {
    pub conditions: Seq<Seq<char>>,
    pub board_map: Seq<Seq<char>>,
    pub board_maps: Seq<Seq<Seq<char>>>,
    pub parsed_placements: Seq<ParsedPlacement>,
    pub target_heights: Seq<i32>,
    pub parsed_placements_list: Seq<Seq<ParsedPlacement>>,
    pub target_heights_list: Seq<Seq<i32>>,
}

impl View for OpeningBranch {
    type V = BranchView;

    open spec fn view(&self) -> BranchView {
        BranchView {
            conditions: texts(self.conditions@),
            board_map: texts(self.board_map@),
            board_maps: maps_text(self.board_maps@),
            parsed_placements: self.parsed_placements@,
            target_heights: self.target_heights@,
            parsed_placements_list: vec_views(self.parsed_placements_list@),
            target_heights_list: vec_views(self.target_heights_list@),
        }
    }
}

/// A board map seen in the mirror, row by row.
pub open spec fn mirror_map(m: Seq<Seq<char>>) -> Seq<Seq<char>> {
    m.map_values(|r: Seq<char>| mirror_row(r))
}

/// The mirror image of a branch: every board map mirrored, every condition
/// mirrored, the first mirrored map as its single map, nothing read yet.
pub open spec fn mirrored_branch(b: BranchView) -> BranchView {
    let maps = b.board_maps.map_values(|m: Seq<Seq<char>>| mirror_map(m));
    BranchView {
        conditions: b.conditions.map_values(|c: Seq<char>| mirrored_condition(c)),
        board_map: if maps.len() > 0 { maps[0] } else { Seq::empty() },
        board_maps: maps,
        parsed_placements: Seq::empty(),
        target_heights: Seq::empty(),
        parsed_placements_list: Seq::empty(),
        target_heights_list: Seq::empty(),
    }
}

proof fn lemma_texts_push(v: Seq<String>, x: String)
    ensures
        texts(v.push(x)) == texts(v).push(x@),
{
    assert(texts(v.push(x)) =~= texts(v).push(x@));
}

proof fn lemma_maps_text_push(v: Seq<Vec<String>>, x: Vec<String>)
    ensures
        maps_text(v.push(x)) == maps_text(v).push(texts(x@)),
{
    assert(maps_text(v.push(x)) =~= maps_text(v).push(texts(x@)));
}

fn mirror_map_text(map: &Vec<String>) -> (r: Vec<String>)
    ensures
        texts(r@) == mirror_map(texts(map@)),
{
    let mut out: Vec<String> = Vec::new();
    let mut i: usize = 0;
    while i < map.len()
        invariant
            i <= map@.len(),
            texts(out@) == mirror_map(texts(map@)).take(i as int),
        decreases map@.len() - i,
    {
        let ghost before = out@;
        let row = mirror_row_text(&map[i]);
        out.push(row);
        proof {
            lemma_texts_push(before, row);
            assert(texts(map@)[i as int] == map@[i as int]@);
            assert(texts(out@) =~= mirror_map(texts(map@)).take(i as int + 1));
        }
        i += 1;
    }
    assert(mirror_map(texts(map@)).take(map@.len() as int) =~= mirror_map(texts(map@)));
    out
}

/// The branch for the left-right mirror of the board: see `mirrored_branch`.
pub fn create_mirror_branch(orig: &OpeningBranch) -> (r: OpeningBranch)
    ensures
        r@ == mirrored_branch(orig@),
{
    let ghost maps_spec = orig@.board_maps.map_values(|m: Seq<Seq<char>>| mirror_map(m));
    let mut mirrored_maps: Vec<Vec<String>> = Vec::new();
    let mut i: usize = 0;
    while i < orig.board_maps.len()
        invariant
            i <= orig.board_maps@.len(),
            maps_text(mirrored_maps@) == maps_spec.take(i as int),
            maps_spec == orig@.board_maps.map_values(|m: Seq<Seq<char>>| mirror_map(m)),
        decreases orig.board_maps@.len() - i,
    {
        let ghost before = mirrored_maps@;
        let m = mirror_map_text(&orig.board_maps[i]);
        mirrored_maps.push(m);
        proof {
            lemma_maps_text_push(before, m);
            assert(orig@.board_maps[i as int] == texts(orig.board_maps@[i as int]@));
            assert(maps_text(mirrored_maps@) =~= maps_spec.take(i as int + 1));
        }
        i += 1;
    }
    assert(maps_spec.take(orig.board_maps@.len() as int) =~= maps_spec);
    let ghost conds_spec = orig@.conditions.map_values(|c: Seq<char>| mirrored_condition(c));
    let mut mirrored_conditions: Vec<String> = Vec::new();
    let mut j: usize = 0;
    while j < orig.conditions.len()
        invariant
            j <= orig.conditions@.len(),
            texts(mirrored_conditions@) == conds_spec.take(j as int),
            conds_spec == orig@.conditions.map_values(|c: Seq<char>| mirrored_condition(c)),
        decreases orig.conditions@.len() - j,
    {
        let ghost before = mirrored_conditions@;
        let c = mirror_condition(orig.conditions[j].as_str());
        mirrored_conditions.push(c);
        proof {
            lemma_texts_push(before, c);
            assert(orig@.conditions[j as int] == orig.conditions@[j as int]@);
            assert(texts(mirrored_conditions@) =~= conds_spec.take(j as int + 1));
        }
        j += 1;
    }
    assert(conds_spec.take(orig.conditions@.len() as int) =~= conds_spec);
    let board_map = if mirrored_maps.len() > 0 {
        mirrored_maps[0].clone()
    } else {
        Vec::new()
    };
    proof {
        if mirrored_maps@.len() > 0 {
            assert(board_map@ =~= mirrored_maps@[0]@);
            assert(texts(board_map@) == maps_text(mirrored_maps@)[0]);
        } else {
            assert(texts(board_map@) =~= Seq::<Seq<char>>::empty());
        }
    }
    let r = OpeningBranch {
        conditions: mirrored_conditions,
        board_map,
        board_maps: mirrored_maps,
        parsed_placements: Vec::new(),
        target_heights: Vec::new(),
        parsed_placements_list: Vec::new(),
        target_heights_list: Vec::new(),
    };
    proof {
        assert(vec_views(r.parsed_placements_list@) =~= Seq::<Seq<ParsedPlacement>>::empty());
        assert(vec_views(r.target_heights_list@) =~= Seq::<Seq<i32>>::empty());
    }
    r
}


// ----------------------------------------------------------------------------
// Target heights
// ----------------------------------------------------------------------------

/// How many of the first `n` rows have a character other than `0` in column `c`.
pub open spec fn column_fill(rows: Seq<Seq<char>>, c: int, n: int) -> int
    decreases n,
{
    if n <= 0 {
        0
    } else {
        column_fill(rows, c, n - 1) + if c < rows[n - 1].len() && rows[n - 1][c] != '0' { 1int } else { 0int }
    }
}

/// The byte length of the first row, which fixes the number of columns.
pub open spec fn first_row_width(rows: Seq<Seq<char>>) -> int {
    if rows.len() > 0 {
        (vstd::utf8::encode_utf8(rows[0]).len() as usize) as int
    } else {
        0
    }
}

/// Every row in lower case.
pub open spec fn lower_texts(rows: Seq<Seq<char>>) -> Seq<Seq<char>> {
    rows.map_values(|r: Seq<char>| str_lower(r))
}

/// The target height of each column of a board map: the number of rows with
/// a block (a character other than `0`, read in lower case) in that column.
pub open spec fn target_heights_of(rows: Seq<Seq<char>>) -> Seq<i32> {
    Seq::new(
        first_row_width(rows) as nat,
        |c: int| column_fill(lower_texts(rows), c, rows.len() as int) as i32,
    )
}

proof fn lemma_column_fill_bound(rows: Seq<Seq<char>>, c: int, n: int)
    requires
        0 <= n,
    ensures
        0 <= column_fill(rows, c, n) <= n,
    decreases n,
{
    if n > 0 {
        lemma_column_fill_bound(rows, c, n - 1);
    }
}

/// The lower case of every row.
pub(crate) fn lower_rows(rows: &[String]) -> (r: Vec<String>)
    ensures
        texts(r@) == lower_texts(texts(rows@)),
{
    let mut out: Vec<String> = Vec::new();
    let mut i: usize = 0;
    while i < rows.len()
        invariant
            i <= rows@.len(),
            texts(out@) == lower_texts(texts(rows@)).take(i as int),
        decreases rows@.len() - i,
    {
        let ghost before = out@;
        let l = lower_text(rows[i].as_str());
        out.push(l);
        proof {
            lemma_texts_push(before, l);
            assert(texts(out@) =~= lower_texts(texts(rows@)).take(i as int + 1));
        }
        i += 1;
    }
    assert(lower_texts(texts(rows@)).take(rows@.len() as int) =~= texts(
        rows@,
    ).map_values(|t: Seq<char>| str_lower(t)));
    out
}

/// The target height of each column: see `target_heights_of`.
pub fn compute_target_heights(rows: &[String]) -> (heights: Vec<i32>)
    requires
        rows@.len() <= i32::MAX,
    ensures
        heights@ == target_heights_of(texts(rows@)),
{
    let ghost lr = lower_texts(texts(rows@));
    let ncols = if rows.len() > 0 {
        rows[0].as_str().len()
    } else {
        0
    };
    let lower = lower_rows(rows);
    let nrows = lower.len();
    assert(texts(lower@).len() == lower@.len());
    assert(lr.len() == rows@.len());
    let mut heights: Vec<i32> = Vec::new();
    let mut c: usize = 0;
    while c < ncols
        invariant
            c <= ncols,
            ncols as int == first_row_width(texts(rows@)),
            nrows == lower@.len(),
            texts(lower@) == lr,
            lr == lower_texts(texts(rows@)),
            lr.len() == nrows,
            nrows <= i32::MAX,
            heights@ == target_heights_of(texts(rows@)).take(c as int),
        decreases ncols - c,
    {
        let mut count: usize = 0;
        let mut r: usize = 0;
        while r < nrows
            invariant
                r <= nrows,
                nrows == lower@.len(),
                texts(lower@) == lr,
                count as int == column_fill(lr, c as int, r as int),
                count <= r,
                nrows <= i32::MAX,
            decreases nrows - r,
        {
            let row = lower[r].as_str();
            assert(row@ == lr[r as int]);
            if c < row.unicode_len() && row.get_char(c) != '0' {
                count += 1;
            }
            r += 1;
        }
        let h = count as i32;
        assert(h as int == column_fill(lr, c as int, lr.len() as int));
        let ghost before = heights@;
        heights.push(h);
        proof {
            let t = target_heights_of(texts(rows@));
            lemma_column_fill_bound(lr, c as int, lr.len() as int);
            assert(t[c as int] == h);
            assert(heights@ =~= before.push(h));
            assert(t.take(c as int + 1) =~= t.take(c as int).push(t[c as int]));
        }
        c += 1;
    }
    assert(heights@ =~= target_heights_of(texts(rows@)));
    heights
}

// ----------------------------------------------------------------------------
// Recognising a piece shape
// ----------------------------------------------------------------------------

/// The smallest first coordinate of a list of cells (0 when empty).
pub open spec fn min_first(s: Seq<(i32, i32)>) -> int
    decreases s.len(),
{
    if s.len() == 0 {
        0
    } else if s.len() == 1 {
        s[0].0 as int
    } else {
        let m = min_first(s.drop_last());
        if (s.last().0 as int) < m {
            s.last().0 as int
        } else {
            m
        }
    }
}

/// The smallest second coordinate of a list of cells (0 when empty).
pub open spec fn min_second(s: Seq<(i32, i32)>) -> int
    decreases s.len(),
{
    if s.len() == 0 {
        0
    } else if s.len() == 1 {
        s[0].1 as int
    } else {
        let m = min_second(s.drop_last());
        if (s.last().1 as int) < m {
            s.last().1 as int
        } else {
            m
        }
    }
}

pub(crate) proof fn lemma_min_first(s: Seq<(i32, i32)>)
    requires
        s.len() > 0,
    ensures
        forall|i: int| 0 <= i < s.len() ==> min_first(s) <= #[trigger] s[i].0,
        exists|i: int| 0 <= i < s.len() && min_first(s) == #[trigger] s[i].0,
    decreases s.len(),
{
    if s.len() > 1 {
        lemma_min_first(s.drop_last());
        assert forall|i: int| 0 <= i < s.len() implies min_first(s) <= #[trigger] s[i].0 by {
            if i < s.len() - 1 {
                assert(s[i] == s.drop_last()[i]);
            }
        }
        if (s.last().0 as int) < min_first(s.drop_last()) {
            assert(min_first(s) == s[s.len() - 1].0);
        } else {
            let i = choose|i: int| 0 <= i < s.drop_last().len() && min_first(s.drop_last()) == #[trigger] s.drop_last()[i].0;
            assert(min_first(s) == s[i].0);
        }
    } else {
        assert(min_first(s) == s[0].0);
    }
}

proof fn lemma_min_second(s: Seq<(i32, i32)>)
    requires
        s.len() > 0,
    ensures
        forall|i: int| 0 <= i < s.len() ==> min_second(s) <= #[trigger] s[i].1,
        exists|i: int| 0 <= i < s.len() && min_second(s) == #[trigger] s[i].1,
    decreases s.len(),
{
    if s.len() > 1 {
        lemma_min_second(s.drop_last());
        assert forall|i: int| 0 <= i < s.len() implies min_second(s) <= #[trigger] s[i].1 by {
            if i < s.len() - 1 {
                assert(s[i] == s.drop_last()[i]);
            }
        }
        if (s.last().1 as int) < min_second(s.drop_last()) {
            assert(min_second(s) == s[s.len() - 1].1);
        } else {
            let i = choose|i: int| 0 <= i < s.drop_last().len() && min_second(s.drop_last()) == #[trigger] s.drop_last()[i].1;
            assert(min_second(s) == s[i].1);
        }
    } else {
        assert(min_second(s) == s[0].1);
    }
}

/// The cells of a list, as a set of integer pairs.
pub open spec fn cell_set(s: Seq<(i32, i32)>) -> Set<(int, int)> {
    Set::new(|p: (int, int)| exists|i: int| 0 <= i < s.len() && p == (s[i].0 as int, s[i].1 as int))
}

/// `m` is the smallest first coordinate of the cells of `c`.
pub open spec fn is_least_first(c: Set<(int, int)>, m: int) -> bool {
    &&& exists|p: (int, int)| c.contains(p) && p.0 == m
    &&& forall|p: (int, int)| c.contains(p) ==> m <= p.0
}

/// `m` is the smallest second coordinate of the cells of `c`.
pub open spec fn is_least_second(c: Set<(int, int)>, m: int) -> bool {
    &&& exists|p: (int, int)| c.contains(p) && p.1 == m
    &&& forall|p: (int, int)| c.contains(p) ==> m <= p.1
}

/// The smallest first coordinate of a set of cells.
pub open spec fn least_first(c: Set<(int, int)>) -> int {
    choose|m: int| is_least_first(c, m)
}

/// The smallest second coordinate of a set of cells.
pub open spec fn least_second(c: Set<(int, int)>) -> int {
    choose|m: int| is_least_second(c, m)
}

/// The cells moved so that their smallest coordinates are zero.
pub open spec fn normalized(c: Set<(int, int)>) -> Set<(int, int)> {
    Set::new(
        |p: (int, int)|
            exists|q: (int, int)| c.contains(q) && p == (q.0 - least_first(c), q.1 - least_second(c)),
    )
}

/// The cells have the shape of `bt` in rotation state `r`.
pub open spec fn shape_matches(bt: BlockType, cells: Set<(int, int)>, r: int) -> bool {
    normalized(cells) == normalized(cell_set(piece_offsets(bt, r)))
}

/// The first rotation state from `r` below `max` whose shape the cells have.
pub open spec fn first_matching_rotation(bt: BlockType, cells: Set<(int, int)>, r: int, max: int) -> Option<int>
    decreases max - r,
{
    if r >= max {
        None
    } else if shape_matches(bt, cells, r) {
        Some(r)
    } else {
        first_matching_rotation(bt, cells, r + 1, max)
    }
}

/// The rotation states worth telling apart: one for O, four for the others.
pub open spec fn rotation_states(bt: BlockType) -> int {
    if bt == BlockType::O {
        1
    } else {
        4
    }
}

/// The column and rotation state of a piece of type `bt` covering the set of
/// cells `c`: the leftmost column of the cells, and the first rotation state
/// whose shape the cells have.
pub open spec fn set_rotation(bt: BlockType, c: Set<(int, int)>) -> Option<(i32, usize)> {
    if c =~= Set::empty() {
        None
    } else {
        match first_matching_rotation(bt, c, 0, rotation_states(bt)) {
            Some(r) => Some((least_first(c) as i32, r as usize)),
            None => None,
        }
    }
}

/// The column and rotation state of a piece of type `bt` covering `cells`;
/// only the set of cells counts, not their order or repetitions.
pub open spec fn matched_rotation(bt: BlockType, cells: Seq<(i32, i32)>) -> Option<(i32, usize)> {
    set_rotation(bt, cell_set(cells))
}

/// The cells of a list moved by its smallest coordinates, as a set.
spec fn seq_normalized(s: Seq<(i32, i32)>) -> Set<(int, int)> {
    Set::new(|p: (int, int)| exists|i: int| 0 <= i < s.len() && p == (s[i].0 - min_first(s), s[i].1 - min_second(s)))
}

proof fn lemma_least_of_seq(s: Seq<(i32, i32)>)
    requires
        s.len() > 0,
    ensures
        least_first(cell_set(s)) == min_first(s),
        least_second(cell_set(s)) == min_second(s),
        normalized(cell_set(s)) == seq_normalized(s),
        !(cell_set(s) =~= Set::empty()),
{
    let c = cell_set(s);
    lemma_min_first(s);
    lemma_min_second(s);
    let i = choose|i: int| 0 <= i < s.len() && min_first(s) == #[trigger] s[i].0;
    let j = choose|j: int| 0 <= j < s.len() && min_second(s) == #[trigger] s[j].1;
    assert(c.contains((s[i].0 as int, s[i].1 as int)));
    assert(c.contains((s[j].0 as int, s[j].1 as int)));
    assert forall|p: (int, int)| c.contains(p) implies min_first(s) <= p.0 && min_second(s) <= p.1 by {
        let k = choose|k: int| 0 <= k < s.len() && p == (s[k].0 as int, s[k].1 as int);
        assert(min_first(s) <= s[k].0);
        assert(min_second(s) <= s[k].1);
    }
    assert(is_least_first(c, min_first(s)));
    assert(is_least_second(c, min_second(s)));
    let a = least_first(c);
    let b = least_second(c);
    assert(is_least_first(c, a));
    assert(is_least_second(c, b));
    let pa = choose|p: (int, int)| c.contains(p) && p.0 == a;
    let pb = choose|p: (int, int)| c.contains(p) && p.1 == b;
    assert(a == min_first(s));
    assert(b == min_second(s));
    assert forall|p: (int, int)| normalized(c).contains(p) implies seq_normalized(s).contains(p) by {
        let q = choose|q: (int, int)| c.contains(q) && p == (q.0 - a, q.1 - b);
        let k = choose|k: int| 0 <= k < s.len() && q == (s[k].0 as int, s[k].1 as int);
        assert(p == (s[k].0 - min_first(s), s[k].1 - min_second(s)));
    }
    assert forall|p: (int, int)| seq_normalized(s).contains(p) implies normalized(c).contains(p) by {
        let k = choose|k: int| 0 <= k < s.len() && p == (s[k].0 - min_first(s), s[k].1 - min_second(s));
        let q = (s[k].0 as int, s[k].1 as int);
        assert(c.contains(q));
    }
    assert(normalized(c) =~= seq_normalized(s));
    assert(!c.contains((s[0].0 as int, s[0].1 as int)) ==> false);
}

/// The cells shifted by `(-mx, -my)`, which lie at most `i32::MAX` beyond them.
fn shift_cells(cells: &[(i32, i32)], mx: i32, my: i32) -> (r: Vec<(i32, i32)>)
    requires
        forall|i: int|
            0 <= i < cells@.len() ==> mx <= #[trigger] cells@[i].0 <= mx + i32::MAX && my <= cells@[i].1 <= my
                + i32::MAX,
    ensures
        r@.len() == cells@.len(),
        forall|i: int| 0 <= i < cells@.len() ==> (#[trigger] r@[i]).0 == cells@[i].0 - mx && r@[i].1 == cells@[i].1 - my,
{
    let mut out: Vec<(i32, i32)> = Vec::new();
    let mut i: usize = 0;
    while i < cells.len()
        invariant
            i <= cells@.len(),
            out@.len() == i,
            forall|k: int|
                0 <= k < cells@.len() ==> mx <= #[trigger] cells@[k].0 <= mx + i32::MAX && my <= cells@[k].1 <= my
                    + i32::MAX,
            forall|k: int| 0 <= k < i ==> (#[trigger] out@[k]).0 == cells@[k].0 - mx && out@[k].1 == cells@[k].1 - my,
        decreases cells@.len() - i,
    {
        let (x, y) = cells[i];
        out.push((x - mx, y - my));
        i += 1;
    }
    out
}

/// `p` occurs in `v`.
pub open spec fn cell_in(v: Seq<(i32, i32)>, p: (i32, i32)) -> bool {
    exists|j: int| 0 <= j < v.len() && v[j] == p
}

/// Every cell of `a` occurs in `b`.
pub open spec fn all_in(a: Seq<(i32, i32)>, b: Seq<(i32, i32)>) -> bool {
    forall|i: int| 0 <= i < a.len() ==> cell_in(b, #[trigger] a[i])
}

fn contains_cell(v: &Vec<(i32, i32)>, p: (i32, i32)) -> (r: bool)
    ensures
        r == cell_in(v@, p),
{
    let mut j: usize = 0;
    while j < v.len()
        invariant
            j <= v@.len(),
            forall|k: int| 0 <= k < j ==> #[trigger] v@[k] != p,
        decreases v@.len() - j,
    {
        let (a, b) = v[j];
        if a == p.0 && b == p.1 {
            return true;
        }
        j += 1;
    }
    false
}

fn all_cells_in(a: &Vec<(i32, i32)>, b: &Vec<(i32, i32)>) -> (r: bool)
    ensures
        r == all_in(a@, b@),
{
    let mut i: usize = 0;
    while i < a.len()
        invariant
            i <= a@.len(),
            forall|k: int| 0 <= k < i ==> cell_in(b@, #[trigger] a@[k]),
        decreases a@.len() - i,
    {
        if !contains_cell(b, a[i]) {
            return false;
        }
        i += 1;
    }
    true
}

/// Smallest coordinates of a non-empty list of cells.
pub(crate) fn min_coords(cells: &[(i32, i32)]) -> (r: (i32, i32))
    requires
        cells@.len() > 0,
    ensures
        r.0 as int == min_first(cells@),
        r.1 as int == min_second(cells@),
{
    let mut mx = cells[0].0;
    let mut my = cells[0].1;
    let mut i: usize = 1;
    while i < cells.len()
        invariant
            1 <= i <= cells@.len(),
            mx as int == min_first(cells@.take(i as int)),
            my as int == min_second(cells@.take(i as int)),
        decreases cells@.len() - i,
    {
        assert(cells@.take(i as int + 1).drop_last() =~= cells@.take(i as int));
        if cells[i].0 < mx {
            mx = cells[i].0;
        }
        if cells[i].1 < my {
            my = cells[i].1;
        }
        i += 1;
    }
    assert(cells@.take(cells@.len() as int) =~= cells@);
    (mx, my)
}

proof fn lemma_normalized_eq(s: Seq<(i32, i32)>, t: Seq<(i32, i32)>, a: Seq<(i32, i32)>, b: Seq<(i32, i32)>)
    requires
        s.len() > 0,
        t.len() > 0,
        a.len() == s.len(),
        b.len() == t.len(),
        forall|i: int| 0 <= i < s.len() ==> (#[trigger] a[i]).0 == s[i].0 - min_first(s) && a[i].1 == s[i].1 - min_second(s),
        forall|i: int| 0 <= i < t.len() ==> (#[trigger] b[i]).0 == t[i].0 - min_first(t) && b[i].1 == t[i].1 - min_second(t),
    ensures
        (seq_normalized(s) == seq_normalized(t)) == (all_in(a, b) && all_in(b, a)),
{
    let ns = seq_normalized(s);
    let nt = seq_normalized(t);
    if ns == nt {
        assert forall|i: int| 0 <= i < a.len() implies cell_in(b, #[trigger] a[i]) by {
            let p = (s[i].0 - min_first(s), s[i].1 - min_second(s));
            assert(ns.contains(p));
            assert(nt.contains(p));
            let j = choose|j: int| 0 <= j < t.len() && p == (t[j].0 - min_first(t), t[j].1 - min_second(t));
            assert(b[j] == a[i]);
        }
        assert forall|i: int| 0 <= i < b.len() implies cell_in(a, #[trigger] b[i]) by {
            let p = (t[i].0 - min_first(t), t[i].1 - min_second(t));
            assert(nt.contains(p));
            assert(ns.contains(p));
            let j = choose|j: int| 0 <= j < s.len() && p == (s[j].0 - min_first(s), s[j].1 - min_second(s));
            assert(a[j] == b[i]);
        }
    }
    if all_in(a, b) && all_in(b, a) {
        assert forall|p: (int, int)| ns.contains(p) implies nt.contains(p) by {
            let i = choose|i: int| 0 <= i < s.len() && p == (s[i].0 - min_first(s), s[i].1 - min_second(s));
            assert(cell_in(b, a[i]));
            let j = choose|j: int| 0 <= j < b.len() && b[j] == a[i];
            assert(p == (t[j].0 - min_first(t), t[j].1 - min_second(t)));
        }
        assert forall|p: (int, int)| nt.contains(p) implies ns.contains(p) by {
            let i = choose|i: int| 0 <= i < t.len() && p == (t[i].0 - min_first(t), t[i].1 - min_second(t));
            assert(cell_in(a, b[i]));
            let j = choose|j: int| 0 <= j < a.len() && a[j] == b[i];
            assert(p == (s[j].0 - min_first(s), s[j].1 - min_second(s)));
        }
        assert(ns =~= nt);
    }
}

/// Finds the column and rotation state of a piece of type `bt` covering
/// `cells`: see `matched_rotation`.
pub fn match_rotation(bt: BlockType, cells: &[(i32, i32)]) -> (r: Option<(i32, usize)>)
    requires
        forall|i: int, j: int|
            0 <= i < cells@.len() && 0 <= j < cells@.len() ==> #[trigger] cells@[i].0 - #[trigger] cells@[j].0
                <= i32::MAX && cells@[i].1 - cells@[j].1 <= i32::MAX,
    ensures
        r == matched_rotation(bt, cells@),
{
    if cells.len() == 0 {
        return None;
    }
    let (min_x, min_y) = min_coords(cells);
    proof {
        lemma_min_first(cells@);
        lemma_min_second(cells@);
        lemma_least_of_seq(cells@);
        let kx = choose|k: int| 0 <= k < cells@.len() && min_first(cells@) == #[trigger] cells@[k].0;
        let ky = choose|k: int| 0 <= k < cells@.len() && min_second(cells@) == #[trigger] cells@[k].1;
        assert forall|i: int| 0 <= i < cells@.len() implies min_x <= #[trigger] cells@[i].0 <= min_x + i32::MAX
            && min_y <= cells@[i].1 <= min_y + i32::MAX by {
            assert(cells@[i].0 - cells@[kx].0 <= i32::MAX);
            assert(cells@[i].1 - cells@[ky].1 <= i32::MAX);
        }
    }
    let rel = shift_cells(cells, min_x, min_y);
    let max_rot: usize = if bt == BlockType::O { 1 } else { 4 };
    let mut rot: usize = 0;
    while rot < max_rot
        invariant
            rot <= max_rot,
            max_rot as int == rotation_states(bt),
            cells@.len() > 0,
            min_x as int == min_first(cells@),
            min_y as int == min_second(cells@),
            rel@.len() == cells@.len(),
            forall|i: int| 0 <= i < cells@.len() ==> (#[trigger] rel@[i]).0 == cells@[i].0 - min_first(cells@) && rel@[i].1 == cells@[i].1 - min_second(cells@),
            first_matching_rotation(bt, cell_set(cells@), 0, max_rot as int) == first_matching_rotation(
                bt,
                cell_set(cells@),
                rot as int,
                max_rot as int,
            ),
            least_first(cell_set(cells@)) == min_first(cells@),
            normalized(cell_set(cells@)) == seq_normalized(cells@),
            !(cell_set(cells@) =~= Set::empty()),
        decreases max_rot - rot,
    {
        let offsets = get_piece_offsets(bt, rot);
        let (min_ox, min_oy) = min_coords(&offsets);
        proof {
            crate::tetris::lemma_offsets_small(bt, rot as int);
            lemma_min_first(offsets@);
            lemma_min_second(offsets@);
            lemma_least_of_seq(offsets@);
            assert(offsets@ == piece_offsets(bt, rot as int));
        }
        let norm = shift_cells(&offsets, min_ox, min_oy);
        let same = all_cells_in(&rel, &norm) && all_cells_in(&norm, &rel);
        proof {
            lemma_normalized_eq(cells@, offsets@, rel@, norm@);
        }
        if same {
            return Some((min_x, rot));
        }
        rot += 1;
    }
    None
}

} // verus!
