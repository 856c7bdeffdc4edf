use vstd::prelude::*;
use crate::tetris::BlockType;
use crate::opening::{ParsedPlacement, texts, lower_texts, lower_rows, set_rotation, cell_set, match_rotation};

verus! {

// ----------------------------------------------------------------------------
// The grid of a board map
// ----------------------------------------------------------------------------

/// The number of columns of a grid: the length of its first row.
pub open spec fn map_width(g: Seq<Seq<char>>) -> int {
    if g.len() > 0 {
        g[0].len() as int
    } else {
        0
    }
}

/// Every row is at least as long as the first one, so that every column of
/// the first row can be read in every row.
pub open spec fn rows_cover_width(g: Seq<Seq<char>>) -> bool {
    forall|r: int| 0 <= r < g.len() ==> #[trigger] g[r].len() >= map_width(g)
}

/// A cell `(row, column)` lies on the map.
pub open spec fn on_map(g: Seq<Seq<char>>, p: (int, int)) -> bool {
    0 <= p.0 < g.len() && 0 <= p.1 < map_width(g)
}

/// The character of a cell.
pub open spec fn char_at(g: Seq<Seq<char>>, p: (int, int)) -> char {
    g[p.0][p.1]
}

/// Two cells share a side.
pub open spec fn touching(a: (int, int), b: (int, int)) -> bool {
    (a.0 == b.0 && (a.1 == b.1 + 1 || a.1 + 1 == b.1)) || (a.1 == b.1 && (a.0 == b.0 + 1 || a.0 + 1
        == b.0))
}

/// A walk over the map from cell to touching cell, all with one character.
pub open spec fn is_trail(g: Seq<Seq<char>>, t: Seq<(int, int)>) -> bool {
    &&& t.len() > 0
    &&& forall|i: int| 0 <= i < t.len() ==> on_map(g, #[trigger] t[i]) && char_at(g, t[i]) == char_at(g, t[0])
    &&& forall|i: int| 0 <= i < t.len() - 1 ==> touching(#[trigger] t[i], t[i + 1])
}

/// `b` is reached from `a` by a walk over cells of one character.
pub open spec fn linked(g: Seq<Seq<char>>, a: (int, int), b: (int, int)) -> bool {
    exists|t: Seq<(int, int)>| #[trigger] is_trail(g, t) && t[0] == a && t.last() == b
}

/// The region of a cell: the cells linked to it.
pub open spec fn region_of(g: Seq<Seq<char>>, s: (int, int)) -> Set<(int, int)> {
    Set::new(|p: (int, int)| linked(g, s, p))
}

/// Row-major order: `a` is read before `b`.
pub open spec fn read_before(a: (int, int), b: (int, int)) -> bool {
    a.0 < b.0 || (a.0 == b.0 && a.1 < b.1)
}

/// A cell is the first of its region in row-major order.
pub open spec fn leads_region(g: Seq<Seq<char>>, s: (int, int)) -> bool {
    forall|q: (int, int)| #[trigger] linked(g, s, q) ==> q == s || read_before(s, q)
}

/// The piece a lower-case letter names.
pub open spec fn piece_of_lower(c: char) -> Option<BlockType> {
    if c == 'i' {
        Some(BlockType::I)
    } else if c == 'o' {
        Some(BlockType::O)
    } else if c == 't' {
        Some(BlockType::T)
    } else if c == 's' {
        Some(BlockType::S)
    } else if c == 'z' {
        Some(BlockType::Z)
    } else if c == 'j' {
        Some(BlockType::J)
    } else if c == 'l' {
        Some(BlockType::L)
    } else {
        None
    }
}

/// A region's cells as `(column, row)` pairs.
pub open spec fn as_columns_rows(c: Set<(int, int)>) -> Set<(int, int)> {
    Set::new(|p: (int, int)| c.contains((p.1, p.0)))
}

/// What the region led by `s` contributes: the placement of a piece when its
/// character is a piece letter, it has exactly four cells and their shape is
/// one of the piece's rotation states.
pub open spec fn placement_of(g: Seq<Seq<char>>, s: (int, int)) -> Option<ParsedPlacement> {
    match piece_of_lower(char_at(g, s)) {
        Some(bt) => if region_of(g, s).len() == 4 {
            match set_rotation(bt, as_columns_rows(region_of(g, s))) {
                Some(cr) => Some(ParsedPlacement { piece: bt, col: cr.0, rotation: cr.1 }),
                None => None,
            }
        } else {
            None
        },
        None => None,
    }
}

/// The placements found at one cell: one where the cell leads a region of
/// blocks that makes a piece, none otherwise.
pub open spec fn found_at(g: Seq<Seq<char>>, s: (int, int)) -> Seq<ParsedPlacement> {
    if char_at(g, s) != '0' && leads_region(g, s) {
        match placement_of(g, s) {
            Some(p) => seq![p],
            None => Seq::empty(),
        }
    } else {
        Seq::empty()
    }
}

/// The placements found at the cells read before `(r, c)`, in reading order
/// (rows top to bottom, each row left to right).
pub open spec fn placements_before(g: Seq<Seq<char>>, r: int, c: int) -> Seq<ParsedPlacement>
    decreases r, c,
{
    if c > 0 {
        placements_before(g, r, c - 1) + found_at(g, (r, c - 1))
    } else if r > 0 {
        placements_before(g, r - 1, map_width(g))
    } else {
        Seq::empty()
    }
}

/// The placements of a grid: one for each region of a piece letter with four
/// cells in the shape of the piece, in the reading order of the regions' first cells.
pub open spec fn grid_placements(g: Seq<Seq<char>>) -> Seq<ParsedPlacement> {
    placements_before(g, g.len() as int, 0)
}

/// The rows of a board map in lower case, as a grid.
pub open spec fn map_grid(rows: Seq<String>) -> Seq<Seq<char>> {
    lower_texts(texts(rows))
}

/// What reading a board map needs: the rows in lower case are at least as
/// long as the first one, and the grid's sides fit in an `i32`.
pub open spec fn map_fits(m: Seq<Seq<char>>) -> bool {
    let g = lower_texts(m);
    rows_cover_width(g) && g.len() < i32::MAX && map_width(g) < i32::MAX
}

/// The placements read from a board map given as texts: none for a map
/// without rows.
pub open spec fn map_placements(m: Seq<Seq<char>>) -> Seq<ParsedPlacement> {
    if m.len() == 0 {
        Seq::empty()
    } else {
        grid_placements(lower_texts(m))
    }
}

// ----------------------------------------------------------------------------
// Walks
// ----------------------------------------------------------------------------

proof fn lemma_linked_ends(g: Seq<Seq<char>>, a: (int, int), b: (int, int))
    requires
        linked(g, a, b),
    ensures
        on_map(g, a),
        on_map(g, b),
        char_at(g, a) == char_at(g, b),
{
    let t = choose|t: Seq<(int, int)>| #[trigger] is_trail(g, t) && t[0] == a && t.last() == b;
    assert(on_map(g, t[0]));
    assert(on_map(g, t[t.len() - 1]));
}

proof fn lemma_linked_self(g: Seq<Seq<char>>, a: (int, int))
    requires
        on_map(g, a),
    ensures
        linked(g, a, a),
{
    let t = seq![a];
    assert(is_trail(g, t));
}

proof fn lemma_linked_step(g: Seq<Seq<char>>, a: (int, int), b: (int, int), c: (int, int))
    requires
        linked(g, a, b),
        touching(b, c),
        on_map(g, c),
        char_at(g, c) == char_at(g, b),
    ensures
        linked(g, a, c),
{
    let t = choose|t: Seq<(int, int)>| #[trigger] is_trail(g, t) && t[0] == a && t.last() == b;
    assert(on_map(g, t[t.len() - 1]));
    let u = t.push(c);
    assert forall|i: int| 0 <= i < u.len() implies on_map(g, #[trigger] u[i]) && char_at(g, u[i]) == char_at(
        g,
        u[0],
    ) by {
        if i < t.len() {
            assert(u[i] == t[i]);
        }
    }
    assert forall|i: int| 0 <= i < u.len() - 1 implies touching(#[trigger] u[i], u[i + 1]) by {
        if i < t.len() - 1 {
            assert(u[i] == t[i] && u[i + 1] == t[i + 1]);
        }
    }
    assert(is_trail(g, u));
}

proof fn lemma_linked_back(g: Seq<Seq<char>>, a: (int, int), b: (int, int))
    requires
        linked(g, a, b),
    ensures
        linked(g, b, a),
{
    let t = choose|t: Seq<(int, int)>| #[trigger] is_trail(g, t) && t[0] == a && t.last() == b;
    let n = t.len();
    let u = Seq::new(n, |i: int| t[n - 1 - i]);
    assert(on_map(g, t[n - 1]));
    assert forall|i: int| 0 <= i < u.len() implies on_map(g, #[trigger] u[i]) && char_at(g, u[i]) == char_at(
        g,
        u[0],
    ) by {
        assert(on_map(g, t[n - 1 - i]));
    }
    assert forall|i: int| 0 <= i < u.len() - 1 implies touching(#[trigger] u[i], u[i + 1]) by {
        assert(touching(t[n - 2 - i], t[n - 1 - i]));
    }
    assert(is_trail(g, u));
    assert(u[0] == b && u.last() == a);
}

proof fn lemma_linked_chain(g: Seq<Seq<char>>, a: (int, int), b: (int, int), c: (int, int))
    requires
        linked(g, a, b),
        linked(g, b, c),
    ensures
        linked(g, a, c),
{
    let t = choose|t: Seq<(int, int)>| #[trigger] is_trail(g, t) && t[0] == a && t.last() == b;
    let v = choose|v: Seq<(int, int)>| #[trigger] is_trail(g, v) && v[0] == b && v.last() == c;
    let n = t.len();
    let u = t + v.skip(1);
    assert(on_map(g, t[n - 1]));
    assert(char_at(g, v[0]) == char_at(g, t[0]));
    assert forall|i: int| 0 <= i < u.len() implies on_map(g, #[trigger] u[i]) && char_at(g, u[i]) == char_at(
        g,
        u[0],
    ) by {
        if i < n {
            assert(u[i] == t[i]);
        } else {
            assert(u[i] == v[i - n + 1]);
        }
    }
    assert forall|i: int| 0 <= i < u.len() - 1 implies touching(#[trigger] u[i], u[i + 1]) by {
        if i < n - 1 {
            assert(u[i] == t[i] && u[i + 1] == t[i + 1]);
        } else if i == n - 1 {
            assert(u[i] == v[0] && u[i + 1] == v[1]);
        } else {
            assert(u[i] == v[i - n + 1] && u[i + 1] == v[i - n + 2]);
        }
    }
    assert(is_trail(g, u));
    if v.len() == 1 {
        assert(u =~= t);
    } else {
        assert(u.last() == v.last());
    }
}

/// A set of cells closed under stepping to a touching cell of the same character.
pub open spec fn closed_set(g: Seq<Seq<char>>, c: Set<(int, int)>) -> bool {
    forall|x: (int, int), y: (int, int)|
        #![trigger c.contains(x), touching(x, y)]
        c.contains(x) && touching(x, y) && on_map(g, y) && char_at(g, y) == char_at(g, x) ==> c.contains(y)
}

proof fn lemma_closed_holds_trail(g: Seq<Seq<char>>, c: Set<(int, int)>, t: Seq<(int, int)>, i: int)
    requires
        closed_set(g, c),
        is_trail(g, t),
        c.contains(t[0]),
        0 <= i < t.len(),
    ensures
        c.contains(t[i]),
    decreases i,
{
    if i > 0 {
        lemma_closed_holds_trail(g, c, t, i - 1);
        assert(touching(t[i - 1], t[i]));
        assert(on_map(g, t[i]) && on_map(g, t[i - 1]));
    }
}

/// A closed set that holds `a` holds every cell linked to `a`.
proof fn lemma_closed_holds_linked(g: Seq<Seq<char>>, c: Set<(int, int)>, a: (int, int), b: (int, int))
    requires
        c.contains(a),
        closed_set(g, c),
        linked(g, a, b),
    ensures
        c.contains(b),
{
    let t = choose|t: Seq<(int, int)>| #[trigger] is_trail(g, t) && t[0] == a && t.last() == b;
    lemma_closed_holds_trail(g, c, t, t.len() - 1);
}

// ----------------------------------------------------------------------------
// Claimed cells
// ----------------------------------------------------------------------------

/// `p` is linked to a cell of the map read before `k`.
pub open spec fn claimed(g: Seq<Seq<char>>, k: (int, int), p: (int, int)) -> bool {
    exists|s: (int, int)| on_map(g, s) && read_before(s, k) && #[trigger] linked(g, s, p)
}

proof fn lemma_claimed_spreads(g: Seq<Seq<char>>, k: (int, int), p: (int, int), q: (int, int))
    requires
        claimed(g, k, p),
        linked(g, p, q),
    ensures
        claimed(g, k, q),
{
    let s = choose|s: (int, int)| on_map(g, s) && read_before(s, k) && #[trigger] linked(g, s, p);
    lemma_linked_chain(g, s, p, q);
}

/// A cell leads its region exactly when no cell read before it is linked to it.
proof fn lemma_leads_unclaimed(g: Seq<Seq<char>>, k: (int, int))
    requires
        on_map(g, k),
    ensures
        leads_region(g, k) == !claimed(g, k, k),
{
    if claimed(g, k, k) {
        let s = choose|s: (int, int)| on_map(g, s) && read_before(s, k) && #[trigger] linked(g, s, k);
        lemma_linked_back(g, s, k);
        assert(linked(g, k, s));
    } else {
        assert forall|q: (int, int)| #[trigger] linked(g, k, q) implies q == k || read_before(k, q) by {
            if q != k && !read_before(k, q) {
                lemma_linked_back(g, k, q);
                lemma_linked_ends(g, k, q);
                assert(read_before(q, k));
                assert(claimed(g, k, k));
            }
        }
    }
}

/// Moving the reading position past `k` claims what `k` is linked to.
proof fn lemma_claimed_next(g: Seq<Seq<char>>, k: (int, int), k2: (int, int), p: (int, int))
    requires
        on_map(g, k),
        forall|s: (int, int)| on_map(g, s) ==> (read_before(s, k2) <==> (read_before(s, k) || s == k)),
    ensures
        claimed(g, k2, p) == (claimed(g, k, p) || linked(g, k, p)),
{
    if claimed(g, k2, p) {
        let s = choose|s: (int, int)| on_map(g, s) && read_before(s, k2) && #[trigger] linked(g, s, p);
        if s != k {
            assert(claimed(g, k, p));
        }
    }
    if claimed(g, k, p) {
        let s = choose|s: (int, int)| on_map(g, s) && read_before(s, k) && #[trigger] linked(g, s, p);
        assert(read_before(s, k2));
    }
    if linked(g, k, p) {
        assert(read_before(k, k2));
    }
}

// ----------------------------------------------------------------------------
// Reading the grid
// ----------------------------------------------------------------------------

/// The characters of each row.
pub open spec fn grid_view(v: Seq<Vec<char>>) -> Seq<Seq<char>> {
    v.map_values(|r: Vec<char>| r@)
}

fn chars_of(s: &str) -> (v: Vec<char>)
    ensures
        v@ == s@,
{
    let n = s.unicode_len();
    let mut v: Vec<char> = Vec::new();
    let mut i: usize = 0;
    while i < n
        invariant
            n == s@.len(),
            i <= n,
            v@ == s@.take(i as int),
        decreases n - i,
    {
        v.push(s.get_char(i));
        i += 1;
        assert(v@ =~= s@.take(i as int));
    }
    assert(s@.take(n as int) =~= s@);
    v
}

/// The rows in lower case, as a grid of characters.
fn grid_of_rows(rows: &[String]) -> (g: Vec<Vec<char>>)
    ensures
        grid_view(g@) == map_grid(rows@),
{
    let lower = lower_rows(rows);
    let mut g: Vec<Vec<char>> = Vec::new();
    let mut i: usize = 0;
    while i < lower.len()
        invariant
            i <= lower@.len(),
            texts(lower@) == map_grid(rows@),
            grid_view(g@) == texts(lower@).take(i as int),
        decreases lower@.len() - i,
    {
        let ghost before = g@;
        let row = chars_of(lower[i].as_str());
        g.push(row);
        proof {
            assert(grid_view(g@) =~= grid_view(before).push(row@));
            assert(texts(lower@).take(i as int + 1) =~= texts(lower@).take(i as int).push(lower@[i as int]@));
        }
        i += 1;
    }
    assert(texts(lower@).take(lower@.len() as int) =~= texts(lower@));
    g
}

/// The marks of a grid of booleans.
pub open spec fn seen(v: Seq<Vec<bool>>, p: (int, int)) -> bool {
    v[p.0]@[p.1]
}

/// The marks have the grid's shape.
pub open spec fn marks_shaped(g: Seq<Seq<char>>, v: Seq<Vec<bool>>) -> bool {
    v.len() == g.len() && forall|r: int| 0 <= r < v.len() ==> (#[trigger] v[r])@.len() == map_width(g)
}

fn fresh_marks(nrows: usize, ncols: usize) -> (v: Vec<Vec<bool>>)
    ensures
        v@.len() == nrows,
        forall|r: int| 0 <= r < nrows ==> (#[trigger] v@[r])@.len() == ncols,
        forall|r: int, c: int| 0 <= r < nrows && 0 <= c < ncols ==> !(#[trigger] v@[r]@[c]),
{
    let mut v: Vec<Vec<bool>> = Vec::new();
    let mut r: usize = 0;
    while r < nrows
        invariant
            r <= nrows,
            v@.len() == r,
            forall|i: int| 0 <= i < r ==> (#[trigger] v@[i])@.len() == ncols,
            forall|i: int, c: int| 0 <= i < r && 0 <= c < ncols ==> !(#[trigger] v@[i]@[c]),
        decreases nrows - r,
    {
        let mut row: Vec<bool> = Vec::new();
        let mut c: usize = 0;
        while c < ncols
            invariant
                c <= ncols,
                row@.len() == c,
                forall|j: int| 0 <= j < c ==> !(#[trigger] row@[j]),
            decreases ncols - c,
        {
            row.push(false);
            c += 1;
        }
        v.push(row);
        r += 1;
    }
    v
}

fn set_seen(v: &mut Vec<Vec<bool>>, r: usize, c: usize)
    requires
        r < old(v)@.len(),
        c < old(v)@[r as int]@.len(),
    ensures
        final(v)@.len() == old(v)@.len(),
        forall|i: int| 0 <= i < old(v)@.len() && i != r ==> final(v)@[i] == old(v)@[i],
        final(v)@[r as int]@ == old(v)@[r as int]@.update(c as int, true),
{
    let n = v[r].len();
    let mut row: Vec<bool> = Vec::new();
    let mut j: usize = 0;
    while j < n
        invariant
            j <= n,
            n == v@[r as int]@.len(),
            r < v@.len(),
            c < n,
            row@ == v@[r as int]@.update(c as int, true).take(j as int),
        decreases n - j,
    {
        let b = if j == c {
            true
        } else {
            v[r][j]
        };
        row.push(b);
        j += 1;
        assert(row@ =~= v@[r as int]@.update(c as int, true).take(j as int));
    }
    assert(v@[r as int]@.update(c as int, true).take(n as int) =~= v@[r as int]@.update(c as int, true));
    v.set(r, row);
}

// ----------------------------------------------------------------------------
// Flooding one region
// ----------------------------------------------------------------------------

/// The number of unmarked entries of a row.
pub open spec fn row_unmarked(r: Seq<bool>) -> int
    decreases r.len(),
{
    if r.len() == 0 {
        0
    } else {
        row_unmarked(r.drop_last()) + if r.last() {
            0int
        } else {
            1int
        }
    }
}

/// The number of unmarked entries of a grid of marks.
pub open spec fn unmarked(v: Seq<Vec<bool>>) -> int
    decreases v.len(),
{
    if v.len() == 0 {
        0
    } else {
        unmarked(v.drop_last()) + row_unmarked(v.last()@)
    }
}

proof fn lemma_row_unmarked_mark(r: Seq<bool>, c: int)
    requires
        0 <= c < r.len(),
        !r[c],
    ensures
        row_unmarked(r.update(c, true)) == row_unmarked(r) - 1,
        row_unmarked(r) >= 1,
    decreases r.len(),
{
    let u = r.update(c, true);
    if c < r.len() - 1 {
        assert(u.drop_last() =~= r.drop_last().update(c, true));
        lemma_row_unmarked_mark(r.drop_last(), c);
    } else {
        assert(u.drop_last() =~= r.drop_last());
        lemma_row_unmarked_nonneg(r.drop_last());
    }
}

proof fn lemma_row_unmarked_nonneg(r: Seq<bool>)
    ensures
        row_unmarked(r) >= 0,
    decreases r.len(),
{
    if r.len() > 0 {
        lemma_row_unmarked_nonneg(r.drop_last());
    }
}

proof fn lemma_unmarked_nonneg(v: Seq<Vec<bool>>)
    ensures
        unmarked(v) >= 0,
    decreases v.len(),
{
    if v.len() > 0 {
        lemma_unmarked_nonneg(v.drop_last());
        lemma_row_unmarked_nonneg(v.last()@);
    }
}

proof fn lemma_unmarked_update(v: Seq<Vec<bool>>, w: Seq<Vec<bool>>, i: int)
    requires
        0 <= i < v.len(),
        w.len() == v.len(),
        forall|j: int| 0 <= j < v.len() && j != i ==> w[j] == v[j],
    ensures
        unmarked(w) == unmarked(v) - row_unmarked(v[i]@) + row_unmarked(w[i]@),
    decreases v.len(),
{
    if i < v.len() - 1 {
        assert(w.drop_last().len() == v.drop_last().len());
        assert forall|j: int| 0 <= j < v.drop_last().len() && j != i implies w.drop_last()[j] == v.drop_last()[j] by {}
        lemma_unmarked_update(v.drop_last(), w.drop_last(), i);
        assert(w.last() == v.last());
    } else {
        assert(w.drop_last() =~= v.drop_last());
    }
}

/// The cells of a queue as integer pairs.
pub open spec fn queued_cells(q: Seq<(usize, usize)>) -> Seq<(int, int)> {
    q.map_values(|x: (usize, usize)| (x.0 as int, x.1 as int))
}

/// The state of a flood from `k` over the grid `g`: the queue holds distinct
/// cells linked to `k`, and the marked cells are those claimed before `k`
/// and those queued.
pub open spec fn flood_state(g: Seq<Seq<char>>, k: (int, int), v: Seq<Vec<bool>>, q: Seq<(usize, usize)>) -> bool {
    let qc = queued_cells(q);
    &&& marks_shaped(g, v)
    &&& rows_cover_width(g)
    &&& on_map(g, k)
    &&& char_at(g, k) != '0'
    &&& !claimed(g, k, k)
    &&& forall|i: int| 0 <= i < qc.len() ==> on_map(g, #[trigger] qc[i]) && linked(g, k, qc[i])
    &&& qc.no_duplicates()
    &&& forall|p: (int, int)|
        on_map(g, p) ==> (#[trigger] seen(v, p) <==> ((char_at(g, p) != '0' && claimed(g, k, p)) || qc.contains(p)))
}

/// Queues the neighbour `n` of the queued cell `x` when it has the same
/// character and is not marked yet.
fn try_visit(
    grid: &Vec<Vec<char>>,
    v: &mut Vec<Vec<bool>>,
    q: &mut Vec<(usize, usize)>,
    x: (usize, usize),
    n: (usize, usize),
    Ghost(k): Ghost<(int, int)>,
)
    requires
        flood_state(grid_view(grid@), k, old(v)@, old(q)@),
        queued_cells(old(q)@).contains((x.0 as int, x.1 as int)),
        on_map(grid_view(grid@), (n.0 as int, n.1 as int)),
        touching((x.0 as int, x.1 as int), (n.0 as int, n.1 as int)),
    ensures
        flood_state(grid_view(grid@), k, final(v)@, final(q)@),
        final(q)@.len() >= old(q)@.len(),
        forall|i: int| 0 <= i < old(q)@.len() ==> final(q)@[i] == old(q)@[i],
        unmarked(final(v)@) + final(q)@.len() == unmarked(old(v)@) + old(q)@.len(),
        char_at(grid_view(grid@), (n.0 as int, n.1 as int)) == char_at(grid_view(grid@), (x.0 as int, x.1 as int))
            ==> queued_cells(final(q)@).contains((n.0 as int, n.1 as int)),
{
    let ghost g = grid_view(grid@);
    let ghost xi = (x.0 as int, x.1 as int);
    let ghost ni = (n.0 as int, n.1 as int);
    let ghost v0 = v@;
    let ghost q0 = q@;
    proof {
        let j = choose|j: int| 0 <= j < queued_cells(q0).len() && queued_cells(q0)[j] == xi;
        assert(on_map(g, queued_cells(q0)[j]) && linked(g, k, queued_cells(q0)[j]));
        assert(grid@[n.0 as int]@ == g[n.0 as int]);
        assert(grid@[x.0 as int]@ == g[x.0 as int]);
        assert(g[n.0 as int].len() >= map_width(g));
        assert(g[x.0 as int].len() >= map_width(g));
        assert(v0[n.0 as int]@.len() == map_width(g));
    }
    let same = grid[n.0][n.1] == grid[x.0][x.1];
    if same {
        proof {
            lemma_linked_step(g, k, xi, ni);
        }
    }
    if !v[n.0][n.1] && same {
        set_seen(v, n.0, n.1);
        q.push(n);
        proof {
            let qc0 = queued_cells(q0);
            let qc = queued_cells(q@);
            assert(qc =~= qc0.push(ni));
            assert(!seen(v0, ni));
            assert(!qc0.contains(ni));
            assert forall|a: int, b: int| 0 <= a < b < qc.len() implies qc[a] != qc[b] by {
                if b == qc.len() - 1 {
                    assert(qc[a] == qc0[a]);
                } else {
                    assert(qc[a] == qc0[a] && qc[b] == qc0[b]);
                }
            }
            assert forall|i: int| 0 <= i < qc.len() implies on_map(g, #[trigger] qc[i]) && linked(g, k, qc[i]) by {
                if i < qc0.len() {
                    assert(qc[i] == qc0[i]);
                }
            }
            assert forall|r: int| 0 <= r < v@.len() implies (#[trigger] v@[r])@.len() == map_width(g) by {
                if r != n.0 {
                    assert(v@[r] == v0[r]);
                }
            }
            assert forall|p: (int, int)| on_map(g, p) implies (#[trigger] seen(v@, p) <==> ((char_at(g, p) != '0'
                && claimed(g, k, p)) || qc.contains(p))) by {
                if p == ni {
                    assert(qc[qc.len() - 1] == ni);
                } else {
                    if p.0 != n.0 {
                        assert(v@[p.0] == v0[p.0]);
                    }
                    assert(seen(v@, p) == seen(v0, p));
                    if qc.contains(p) {
                        let j = choose|j: int| 0 <= j < qc.len() && qc[j] == p;
                        assert(qc0[j] == p);
                    }
                    if qc0.contains(p) {
                        let j = choose|j: int| 0 <= j < qc0.len() && qc0[j] == p;
                        assert(qc[j] == p);
                    }
                }
            }
            lemma_row_unmarked_mark(v0[n.0 as int]@, n.1 as int);
            lemma_unmarked_update(v0, v@, n.0 as int);
            assert(qc.contains(ni) == true) by {
                assert(qc[qc.len() - 1] == ni);
            }
        }
    } else if same {
        proof {
            let qc0 = queued_cells(q0);
            assert(seen(v0, ni));
            if !qc0.contains(ni) {
                assert(claimed(g, k, ni));
                lemma_linked_back(g, k, ni);
                lemma_claimed_spreads(g, k, ni, k);
                assert(false);
            }
        }
    }
}

/// Every same-character neighbour of the first `h` queued cells is queued.
pub open spec fn neighbours_queued(g: Seq<Seq<char>>, q: Seq<(usize, usize)>, h: int) -> bool {
    let qc = queued_cells(q);
    forall|i: int, y: (int, int)|
        #![trigger qc[i], touching(qc[i], y)]
        0 <= i < h && touching(qc[i], y) && on_map(g, y) && char_at(g, y) == char_at(g, qc[i]) ==> qc.contains(y)
}

/// Marks and collects the region of the unmarked cell `(sr, sc)`, whose
/// cells claimed before it are exactly the marked ones; the region comes
/// back as `(column, row)` pairs.
fn flood_region(grid: &Vec<Vec<char>>, v: &mut Vec<Vec<bool>>, sr: usize, sc: usize) -> (region: Vec<(i32, i32)>)
    requires
        rows_cover_width(grid_view(grid@)),
        grid_view(grid@).len() < i32::MAX,
        map_width(grid_view(grid@)) < i32::MAX,
        marks_shaped(grid_view(grid@), old(v)@),
        on_map(grid_view(grid@), (sr as int, sc as int)),
        char_at(grid_view(grid@), (sr as int, sc as int)) != '0',
        !seen(old(v)@, (sr as int, sc as int)),
        forall|p: (int, int)|
            on_map(grid_view(grid@), p) ==> (#[trigger] seen(old(v)@, p) <==> (char_at(grid_view(grid@), p) != '0'
                && claimed(grid_view(grid@), (sr as int, sc as int), p))),
    ensures
        marks_shaped(grid_view(grid@), final(v)@),
        forall|p: (int, int)|
            on_map(grid_view(grid@), p) ==> (#[trigger] seen(final(v)@, p) <==> (char_at(grid_view(grid@), p) != '0'
                && (claimed(grid_view(grid@), (sr as int, sc as int), p) || linked(
                grid_view(grid@),
                (sr as int, sc as int),
                p,
            )))),
        cell_set(region@) == as_columns_rows(region_of(grid_view(grid@), (sr as int, sc as int))),
        region@.len() == region_of(grid_view(grid@), (sr as int, sc as int)).len(),
        forall|i: int|
            0 <= i < region@.len() ==> 0 <= (#[trigger] region@[i]).0 < i32::MAX && 0 <= region@[i].1 < i32::MAX,
{
    let ghost g = grid_view(grid@);
    let ghost k = (sr as int, sc as int);
    let nrows = grid.len();
    let ncols = grid[0].len();
    proof {
        assert(grid@[0]@ == g[0]);
        assert(!claimed(g, k, k));
        lemma_linked_self(g, k);
        lemma_unmarked_nonneg(v@);
    }
    let ghost v0 = v@;
    set_seen(v, sr, sc);
    let mut q: Vec<(usize, usize)> = Vec::new();
    q.push((sr, sc));
    proof {
        let qc = queued_cells(q@);
        assert(qc =~= seq![k]);
        assert forall|r: int| 0 <= r < v@.len() implies (#[trigger] v@[r])@.len() == map_width(g) by {
            if r != sr {
                assert(v@[r] == v0[r]);
            }
        }
        assert forall|p: (int, int)| on_map(g, p) implies (#[trigger] seen(v@, p) <==> ((char_at(g, p) != '0'
            && claimed(g, k, p)) || qc.contains(p))) by {
            if p == k {
                assert(qc[0] == k);
            } else {
                if p.0 != sr {
                    assert(v@[p.0] == v0[p.0]);
                }
                assert(seen(v@, p) == seen(v0, p));
                assert(!qc.contains(p));
            }
        }
        lemma_row_unmarked_mark(v0[sr as int]@, sc as int);
        lemma_unmarked_update(v0, v@, sr as int);
        lemma_unmarked_nonneg(v@);
    }
    let mut head: usize = 0;
    let mut region: Vec<(i32, i32)> = Vec::new();
    while head < q.len()
        invariant
            g == grid_view(grid@),
            k == (sr as int, sc as int),
            nrows == g.len(),
            ncols == map_width(g),
            nrows < i32::MAX,
            ncols < i32::MAX,
            flood_state(g, k, v@, q@),
            head <= q@.len(),
            q@.len() >= 1,
            q@[0] == (sr, sc),
            region@.len() == head,
            forall|i: int| 0 <= i < head ==> #[trigger] region@[i] == (q@[i].1 as i32, q@[i].0 as i32),
            neighbours_queued(g, q@, head as int),
            unmarked(v@) >= 0,
        decreases unmarked(v@) + q@.len() - head,
    {
        let x = q[head];
        proof {
            assert(queued_cells(q@)[head as int] == (x.0 as int, x.1 as int));
            assert(on_map(g, queued_cells(q@)[head as int]));
        }
        let ghost q1 = q@;
        let ghost m1 = unmarked(v@) + q@.len();
        if x.0 > 0 {
            try_visit(grid, v, &mut q, x, (x.0 - 1, x.1), Ghost(k));
        }
        let ghost q2 = q@;
        if x.0 + 1 < nrows {
            proof {
                assert(queued_cells(q@)[head as int] == (x.0 as int, x.1 as int));
            }
            try_visit(grid, v, &mut q, x, (x.0 + 1, x.1), Ghost(k));
        }
        let ghost q3 = q@;
        if x.1 > 0 {
            proof {
                assert(queued_cells(q@)[head as int] == (x.0 as int, x.1 as int));
            }
            try_visit(grid, v, &mut q, x, (x.0, x.1 - 1), Ghost(k));
        }
        let ghost q4 = q@;
        if x.1 + 1 < ncols {
            proof {
                assert(queued_cells(q@)[head as int] == (x.0 as int, x.1 as int));
            }
            try_visit(grid, v, &mut q, x, (x.0, x.1 + 1), Ghost(k));
        }
        proof {
            lemma_unmarked_nonneg(v@);
            let xi = (x.0 as int, x.1 as int);
            let qc = queued_cells(q@);
            assert(forall|i: int| 0 <= i < q1.len() ==> q@[i] == q1[i]);
            assert forall|i: int, y: (int, int)|
                #![trigger qc[i], touching(qc[i], y)]
                0 <= i < head + 1 && touching(qc[i], y) && on_map(g, y) && char_at(g, y) == char_at(g, qc[i]) implies qc.contains(y) by {
                if i < head {
                    let qc1 = queued_cells(q1);
                    assert(qc1[i] == qc[i]);
                    assert(qc1.contains(y));
                    let j = choose|j: int| 0 <= j < qc1.len() && qc1[j] == y;
                    assert(qc[j] == y);
                } else {
                    assert(qc[i] == xi);
                    // y is one of the four neighbours of x
                    if y.0 == xi.0 - 1 {
                        let qq = queued_cells(q2);
                        assert(qq.contains(y));
                        let j = choose|j: int| 0 <= j < qq.len() && qq[j] == y;
                        assert(qc[j] == y);
                    } else if y.0 == xi.0 + 1 {
                        let qq = queued_cells(q3);
                        assert(qq.contains(y));
                        let j = choose|j: int| 0 <= j < qq.len() && qq[j] == y;
                        assert(qc[j] == y);
                    } else if y.1 == xi.1 - 1 {
                        let qq = queued_cells(q4);
                        assert(qq.contains(y));
                        let j = choose|j: int| 0 <= j < qq.len() && qq[j] == y;
                        assert(qc[j] == y);
                    } else {
                        assert(y.1 == xi.1 + 1);
                    }
                }
            }
        }
        region.push((x.1 as i32, x.0 as i32));
        head += 1;
    }
    proof {
        let qc = queued_cells(q@);
        let c = qc.to_set();
        assert(qc[0] == k);
        assert(c.contains(k));
        assert(closed_set(g, c)) by {
            assert forall|x: (int, int), y: (int, int)|
                #![trigger c.contains(x), touching(x, y)]
                c.contains(x) && touching(x, y) && on_map(g, y) && char_at(g, y) == char_at(g, x) implies c.contains(y) by {
                let i = choose|i: int| 0 <= i < qc.len() && qc[i] == x;
                assert(touching(qc[i], y));
                assert(qc.contains(y));
            }
        }
        assert forall|p: (int, int)| region_of(g, k).contains(p) implies c.contains(p) by {
            lemma_closed_holds_linked(g, c, k, p);
        }
        assert forall|p: (int, int)| c.contains(p) implies region_of(g, k).contains(p) by {
            let i = choose|i: int| 0 <= i < qc.len() && qc[i] == p;
            assert(linked(g, k, qc[i]));
        }
        assert(region_of(g, k) =~= c);
        qc.unique_seq_to_set();
        assert forall|p: (int, int)| cell_set(region@).contains(p) implies as_columns_rows(c).contains(p) by {
            let i = choose|i: int| 0 <= i < region@.len() && p == (region@[i].0 as int, region@[i].1 as int);
            assert(qc[i] == (p.1, p.0));
        }
        assert forall|p: (int, int)| as_columns_rows(c).contains(p) implies cell_set(region@).contains(p) by {
            let i = choose|i: int| 0 <= i < qc.len() && qc[i] == (p.1, p.0);
            assert(region@[i] == (q@[i].1 as i32, q@[i].0 as i32));
            assert(p == (region@[i].0 as int, region@[i].1 as int));
        }
        assert(cell_set(region@) =~= as_columns_rows(region_of(g, k)));
        assert forall|i: int| 0 <= i < region@.len() implies 0 <= (#[trigger] region@[i]).0 < i32::MAX && 0
            <= region@[i].1 < i32::MAX by {
            assert(on_map(g, qc[i]));
        }
        assert forall|p: (int, int)| on_map(g, p) implies (#[trigger] seen(v@, p) <==> (char_at(g, p) != '0'
            && (claimed(g, k, p) || linked(g, k, p)))) by {
            if linked(g, k, p) {
                lemma_linked_ends(g, k, p);
                assert(c.contains(p));
            }
            if qc.contains(p) {
                let i = choose|i: int| 0 <= i < qc.len() && qc[i] == p;
                assert(linked(g, k, qc[i]));
                lemma_linked_ends(g, k, p);
            }
        }
    }
    region
}

// ----------------------------------------------------------------------------
// Reading a board map
// ----------------------------------------------------------------------------

/// The piece a lower-case letter names.
fn piece_of_lower_exec(c: char) -> (r: Option<BlockType>)
    ensures
        r == piece_of_lower(c),
{
    if c == 'i' {
        Some(BlockType::I)
    } else if c == 'o' {
        Some(BlockType::O)
    } else if c == 't' {
        Some(BlockType::T)
    } else if c == 's' {
        Some(BlockType::S)
    } else if c == 'z' {
        Some(BlockType::Z)
    } else if c == 'j' {
        Some(BlockType::J)
    } else if c == 'l' {
        Some(BlockType::L)
    } else {
        None
    }
}

/// Reads the pieces of a board map: `None` for a map without rows, else the
/// placements of `grid_placements` over the rows in lower case. Each region
/// of one letter that touches side to side is one candidate piece; it counts
/// when the letter names a piece, the region has four cells and their shape
/// is one of the piece's rotation states.
pub fn parse_board_map(rows: &[String]) -> (r: Option<Vec<ParsedPlacement>>)
    requires
        map_fits(texts(rows@)),
    ensures
        rows@.len() == 0 ==> r is None,
        rows@.len() > 0 ==> r is Some && r->0@ == map_placements(texts(rows@)),
{
    let grid = grid_of_rows(rows);
    let ghost g = map_grid(rows@);
    let nrows = grid.len();
    proof {
        assert(grid_view(grid@).len() == grid@.len());
    }
    if nrows == 0 {
        return None;
    }
    let ncols = grid[0].len();
    proof {
        assert(grid@[0]@ == g[0]);
    }
    let mut visited = fresh_marks(nrows, ncols);
    let mut placements: Vec<ParsedPlacement> = Vec::new();
    let mut sr: usize = 0;
    while sr < nrows
        invariant
            g == grid_view(grid@),
            rows_cover_width(g),
            nrows == g.len(),
            ncols == map_width(g),
            nrows < i32::MAX,
            ncols < i32::MAX,
            sr <= nrows,
            marks_shaped(g, visited@),
            forall|p: (int, int)|
                on_map(g, p) ==> (#[trigger] seen(visited@, p) <==> (char_at(g, p) != '0' && claimed(
                    g,
                    (sr as int, 0),
                    p,
                ))),
            placements@ == placements_before(g, sr as int, 0),
        decreases nrows - sr,
    {
        let mut sc: usize = 0;
        proof {
            if sr > 0 {
                assert(placements_before(g, sr as int, 0) == placements_before(g, sr - 1, map_width(g)));
            }
        }
        while sc < ncols
            invariant
                g == grid_view(grid@),
                rows_cover_width(g),
                nrows == g.len(),
                ncols == map_width(g),
                nrows < i32::MAX,
                ncols < i32::MAX,
                sr < nrows,
                sc <= ncols,
                marks_shaped(g, visited@),
                forall|p: (int, int)|
                    on_map(g, p) ==> (#[trigger] seen(visited@, p) <==> (char_at(g, p) != '0' && claimed(
                        g,
                        (sr as int, sc as int),
                        p,
                    ))),
                placements@ == placements_before(g, sr as int, sc as int) || (sc == 0 && placements@
                    == placements_before(g, sr as int, 0)),
            decreases ncols - sc,
        {
            let ghost k = (sr as int, sc as int);
            let ghost k2 = (sr as int, sc as int + 1);
            proof {
                assert(grid@[sr as int]@ == g[sr as int]);
                assert(g[sr as int].len() >= map_width(g));
                assert(visited@[sr as int]@.len() == map_width(g));
                assert(forall|s: (int, int)| on_map(g, s) ==> (read_before(s, k2) <==> (read_before(s, k) || s == k)));
                lemma_leads_unclaimed(g, k);
                assert(placements_before(g, sr as int, sc as int + 1) == placements_before(g, sr as int, sc as int)
                    + found_at(g, k));
            }
            let ch = grid[sr][sc];
            if ch == '0' || visited[sr][sc] {
                proof {
                    assert forall|p: (int, int)| on_map(g, p) implies (#[trigger] seen(visited@, p) <==> (char_at(g, p)
                        != '0' && claimed(g, k2, p))) by {
                        lemma_claimed_next(g, k, k2, p);
                        if linked(g, k, p) && char_at(g, p) != '0' {
                            lemma_linked_ends(g, k, p);
                            assert(seen(visited@, k));
                            lemma_claimed_spreads(g, k, k, p);
                        }
                    }
                    if ch != '0' {
                        assert(seen(visited@, k));
                        assert(claimed(g, k, k));
                    }
                    assert(found_at(g, k) =~= Seq::empty());
                    assert(placements@ =~= placements_before(g, sr as int, sc as int + 1));
                }
            } else {
                let region = flood_region(&grid, &mut visited, sr, sc);
                proof {
                    assert forall|p: (int, int)| on_map(g, p) implies (#[trigger] seen(visited@, p) <==> (char_at(g, p)
                        != '0' && claimed(g, k2, p))) by {
                        lemma_claimed_next(g, k, k2, p);
                    }
                }
                let piece = piece_of_lower_exec(ch);
                match piece {
                    Some(bt) => {
                        if region.len() == 4 {
                            let m = match_rotation(bt, region.as_slice());
                            match m {
                                Some(cr) => {
                                    placements.push(ParsedPlacement { piece: bt, col: cr.0, rotation: cr.1 });
                                },
                                None => {},
                            }
                        }
                    },
                    None => {},
                }
                proof {
                    assert(found_at(g, k) == match placement_of(g, k) {
                        Some(p) => seq![p],
                        None => Seq::<ParsedPlacement>::empty(),
                    });
                    assert(placements@ =~= placements_before(g, sr as int, sc as int + 1));
                }
            }
            sc += 1;
        }
        proof {
            let k3 = (sr as int + 1, 0int);
            assert forall|p: (int, int)| on_map(g, p) implies (#[trigger] seen(visited@, p) <==> (char_at(g, p)
                != '0' && claimed(g, k3, p))) by {
                if claimed(g, (sr as int, ncols as int), p) {
                    let s = choose|s: (int, int)| on_map(g, s) && read_before(s, (sr as int, ncols as int)) && #[trigger] linked(g, s, p);
                    assert(read_before(s, k3));
                }
                if claimed(g, k3, p) {
                    let s = choose|s: (int, int)| on_map(g, s) && read_before(s, k3) && #[trigger] linked(g, s, p);
                    assert(read_before(s, (sr as int, ncols as int)));
                }
            }
            assert(placements_before(g, sr as int + 1, 0) == placements_before(g, sr as int, map_width(g)));
        }
        sr += 1;
    }
    Some(placements)
}

/// Tells whether a board map can be read: see `map_fits`.
pub fn board_map_fits(rows: &[String]) -> (r: bool)
    ensures
        r == map_fits(texts(rows@)),
{
    let grid = grid_of_rows(rows);
    let ghost g = map_grid(rows@);
    proof {
        assert(grid_view(grid@).len() == grid@.len());
    }
    let nrows = grid.len();
    if nrows >= 0x7fff_ffff {
        return false;
    }
    if nrows == 0 {
        return true;
    }
    let ncols = grid[0].len();
    proof {
        assert(grid@[0]@ == g[0]);
    }
    if ncols >= 0x7fff_ffff {
        return false;
    }
    let mut r: usize = 0;
    while r < nrows
        invariant
            g == grid_view(grid@),
            g == map_grid(rows@),
            nrows == g.len(),
            ncols == map_width(g),
            r <= nrows,
            forall|i: int| 0 <= i < r ==> #[trigger] g[i].len() >= map_width(g),
        decreases nrows - r,
    {
        proof {
            assert(grid@[r as int]@ == g[r as int]);
        }
        if grid[r].len() < ncols {
            assert(!rows_cover_width(g));
            return false;
        }
        r += 1;
    }
    true
}

} // verus!
