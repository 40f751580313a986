//! Splitting a drawn field into pieces and ordering them so that each can be
//! placed in turn.
//!
//! The field has 10 columns (x = 0..=9) and 23 rows (y = 0..=22, y = 0 at the
//! bottom). Cells hold `_` (empty), `X` (garbage) or a piece letter.

use vstd::prelude::*;
use crate::cell_set::CellSet;
use crate::geometry::{
    cell_positions, is_piece_letter, lemma_shape_small, piece_cells, placement_fits, rotate,
    roomy, rotation_name, shape_of, shift_cells, shift_fits, spawn_shape, turn_cells, quarter_turns,
};

verus! {

broadcast use vstd::seq_lib::group_seq_properties;

/// A piece to place: its letter, rotation name and the position of its centre.
#[derive(Debug)]
pub struct PieceOperation {
    pub piece_type: String,
    pub rotation: String,
    pub x: i32,
    pub y: i32,
}

impl Clone for PieceOperation {
    fn clone(&self) -> (res: Self)
        ensures
            res == *self,
    {
        PieceOperation {
            piece_type: self.piece_type.clone(),
            rotation: self.rotation.clone(),
            x: self.x,
            y: self.y,
        }
    }
}

/// The letter a piece type names: its first character, `_` when empty.
pub open spec fn letter_of(s: Seq<char>) -> char {
    if s.len() > 0 {
        s[0]
    } else {
        '_'
    }
}

/// The cells an operation covers.
pub open spec fn op_cells(op: PieceOperation) -> Seq<(i32, i32)> {
    piece_cells(letter_of(op.piece_type@), op.rotation@, op.x as int, op.y as int)
}

/// The cells of the operation can be computed without leaving `i32`.
pub open spec fn op_fits(op: PieceOperation) -> bool {
    placement_fits(letter_of(op.piece_type@), op.rotation@, op.x as int, op.y as int)
}

/// A cell of the visible field.
pub open spec fn in_field(c: (i32, i32)) -> bool {
    0 <= c.0 <= 9 && 0 <= c.1 <= 22
}

pub open spec fn all_in_field(cells: Seq<(i32, i32)>) -> bool {
    forall|i: int| 0 <= i < cells.len() ==> in_field(#[trigger] cells[i])
}

/// The cell directly below.
pub open spec fn below(c: (i32, i32)) -> (i32, i32) {
    (c.0, (c.1 - 1) as i32)
}

/// Whether a row is marked full.
pub open spec fn row_full(full_rows: Seq<bool>, y: int) -> bool {
    0 <= y < full_rows.len() && full_rows[y]
}

/// Walking down column x from row y, through rows that are full, an occupied
/// cell or the floor is met before a cell of another unplaced piece or an
/// empty cell of a row that is not full.
pub open spec fn supported_from(
    x: i32,
    y: int,
    occupied: Set<(i32, i32)>,
    full_rows: Seq<bool>,
    others: Set<(i32, i32)>,
) -> bool
    decreases y + 1,
{
    if y < 0 {
        true
    } else if occupied.contains((x, y as i32)) {
        true
    } else if others.contains((x, y as i32)) {
        false
    } else if !row_full(full_rows, y) {
        false
    } else {
        supported_from(x, y - 1, occupied, full_rows, others)
    }
}

/// The cell below cell i lies outside the piece (or is the floor).
pub open spec fn faces_outside(cells: Seq<(i32, i32)>, i: int) -> bool {
    cells[i].1 - 1 < 0 || !cells.contains(below(cells[i]))
}

/// Cell i rests on the floor, or on something found below it outside the piece.
pub open spec fn rests(
    cells: Seq<(i32, i32)>,
    i: int,
    occupied: Set<(i32, i32)>,
    full_rows: Seq<bool>,
    others: Set<(i32, i32)>,
) -> bool {
    cells[i].1 - 1 < 0 || (!cells.contains(below(cells[i])) && supported_from(
        cells[i].0,
        cells[i].1 - 1,
        occupied,
        full_rows,
        others,
    ))
}

/// Some cell sits directly on a cell of another unplaced piece.
pub open spec fn waits_on_other(cells: Seq<(i32, i32)>, others: Set<(i32, i32)>) -> bool {
    exists|i: int|
        0 <= i < cells.len() && cells[i].1 - 1 >= 0 && !cells.contains(below(cells[i]))
            && #[trigger] others.contains(below(cells[i]))
}

/// A piece covering these cells can be placed: it lies in the field, does not
/// overlap occupied cells, does not sit on another unplaced piece, and, if any
/// of its cells faces outside downwards, at least one of them rests.
pub open spec fn placeable(
    cells: Seq<(i32, i32)>,
    occupied: Set<(i32, i32)>,
    full_rows: Seq<bool>,
    others: Set<(i32, i32)>,
) -> bool {
    &&& all_in_field(cells)
    &&& !(exists|i: int| 0 <= i < cells.len() && #[trigger] occupied.contains(cells[i]))
    &&& !waits_on_other(cells, others)
    &&& ((forall|i: int| 0 <= i < cells.len() ==> !#[trigger] faces_outside(cells, i)) || (exists|
        i: int,
    | 0 <= i < cells.len() && #[trigger] rests(cells, i, occupied, full_rows, others)))
}

/// The letter of a piece type: its first character, or `_` when it is empty.
pub fn first_letter(s: &String) -> (c: char)
    ensures
        c == letter_of(s@),
{
    let t = s.as_str();
    if t.unicode_len() == 0 {
        '_'
    } else {
        t.get_char(0)
    }
}

/// Whether every cell of the piece lies in the visible field.
pub fn in_bounds(op: &PieceOperation) -> (res: bool)
    requires
        op_fits(*op),
    ensures
        res == all_in_field(op_cells(*op)),
{
    let cells = cell_positions(first_letter(&op.piece_type), op.rotation.as_str(), op.x, op.y);
    let mut i: usize = 0;
    while i < cells.len()
        invariant
            i <= cells@.len(),
            cells@ == op_cells(*op),
            forall|j: int| 0 <= j < i ==> in_field(#[trigger] cells@[j]),
        decreases cells@.len() - i,
    {
        let (x, y) = cells[i];
        if !(x >= 0 && x <= 9 && y >= 0 && y <= 22) {
            assert(!in_field(cells@[i as int]));
            return false;
        }
        i += 1;
    }
    true
}

/// Whether any of the cells is occupied.
pub fn overlaps(cells: &[(i32, i32)], occupied: &CellSet) -> (res: bool)
    ensures
        res == exists|i: int| 0 <= i < cells@.len() && #[trigger] occupied@.contains(cells@[i]),
{
    let mut i: usize = 0;
    while i < cells.len()
        invariant
            i <= cells@.len(),
            forall|j: int| 0 <= j < i ==> !#[trigger] occupied@.contains(cells@[j]),
        decreases cells@.len() - i,
    {
        if occupied.contains(cells[i]) {
            return true;
        }
        i += 1;
    }
    false
}

/// Whether the row is marked full.
pub fn is_full_row(full_rows: &[bool], y: i32) -> (res: bool)
    ensures
        res == row_full(full_rows@, y as int),
{
    y >= 0 && (y as usize) < full_rows.len() && full_rows[y as usize]
}

/// Traces down column x from row `start_y` through full rows (which will be
/// cleared) to find support: an occupied cell or the floor. A cell of another
/// unplaced piece, or an empty cell of a row that is not full, is no support.
pub fn trace_support(
    x: i32,
    start_y: i32,
    occupied: &CellSet,
    full_rows: &[bool],
    other_piece_cells: &CellSet,
) -> (res: bool)
    ensures
        res == supported_from(x, start_y as int, occupied@, full_rows@, other_piece_cells@),
{
    let mut y = start_y;
    while y >= 0
        invariant
            y <= start_y,
            supported_from(x, start_y as int, occupied@, full_rows@, other_piece_cells@)
                == supported_from(x, y as int, occupied@, full_rows@, other_piece_cells@),
        decreases y + 1,
    {
        if occupied.contains((x, y)) {
            return true;
        }
        if other_piece_cells.contains((x, y)) {
            return false;
        }
        if !is_full_row(full_rows, y) {
            return false;
        }
        y -= 1;
    }
    true
}

/// Whether the piece can be placed now: see [`placeable`].
pub fn can_place(
    op: &PieceOperation,
    occupied: &CellSet,
    full_rows: &[bool],
    other_piece_cells: &CellSet,
) -> (res: bool)
    requires
        op_fits(*op),
    ensures
        res == placeable(op_cells(*op), occupied@, full_rows@, other_piece_cells@),
{
    if !in_bounds(op) {
        return false;
    }
    let cells = cell_positions(first_letter(&op.piece_type), op.rotation.as_str(), op.x, op.y);
    if overlaps(&cells, occupied) {
        return false;
    }
    let ghost cs = cells@;
    let cell_set = CellSet::from_cells(&cells);
    let mut any_outside = false;
    let mut any_rests = false;
    let mut waits = false;
    let mut i: usize = 0;
    while i < cells.len()
        invariant
            i <= cs.len(),
            cells@ == cs,
            cs == op_cells(*op),
            all_in_field(cs),
            cell_set@ == cs.to_set(),
            any_outside == exists|j: int| 0 <= j < i && #[trigger] faces_outside(cs, j),
            any_rests == exists|j: int|
                0 <= j < i && #[trigger] rests(
                    cs,
                    j,
                    occupied@,
                    full_rows@,
                    other_piece_cells@,
                ),
            waits == exists|j: int|
                0 <= j < i && cs[j].1 - 1 >= 0 && !cs.contains(below(cs[j]))
                    && #[trigger] other_piece_cells@.contains(below(cs[j])),
        decreases cs.len() - i,
    {
        let (cx, cy) = cells[i];
        assert(in_field(cs[i as int]));
        let by: i32 = cy - 1;
        if by < 0 {
            any_outside = true;
            any_rests = true;
            assert(faces_outside(cs, i as int));
            assert(rests(cs, i as int, occupied@, full_rows@, other_piece_cells@));
        } else if cell_set.contains((cx, by)) {
            assert(below(cs[i as int]) == (cx, by));
        } else {
            assert(below(cs[i as int]) == (cx, by));
            any_outside = true;
            assert(faces_outside(cs, i as int));
            if trace_support(cx, by, occupied, full_rows, other_piece_cells) {
                any_rests = true;
                assert(rests(cs, i as int, occupied@, full_rows@, other_piece_cells@));
            }
            if other_piece_cells.contains((cx, by)) {
                waits = true;
            }
        }
        i += 1;
    }
    if waits {
        return false;
    }
    if any_outside && !any_rests {
        return false;
    }
    true
}

/// The rows of a field given as 230 characters, top row first: row y of the
/// result is the (22 - y)-th line of ten characters.
pub open spec fn field_rows(s: Seq<char>) -> Seq<Seq<char>> {
    Seq::new(23, |y: int| Seq::new(10, |x: int| s[(22 - y) * 10 + x]))
}

/// The visible field is the grid of a field string: a cell lies in it exactly
/// when it names one of the grid's 23 rows and one of that row's 10 columns;
/// row 0, the floor, is the last ten characters of the string and row 22 the
/// first ten.
pub proof fn lemma_field_cells(s: Seq<char>, c: (i32, i32))
    ensures
        field_rows(s).len() == 23,
        in_field(c) <==> (0 <= c.1 < field_rows(s).len() && 0 <= c.0 < field_rows(s)[c.1 as int].len()),
        0 <= c.0 < 10 ==> field_rows(s)[0][c.0 as int] == s[220 + c.0],
        0 <= c.0 < 10 ==> field_rows(s)[22][c.0 as int] == s[c.0 as int],
{
}

/// The rows of a grid.
pub open spec fn grid_view(grid: Seq<Vec<char>>) -> Seq<Seq<char>> {
    grid.map_values(|r: Vec<char>| r@)
}

/// A grid of 23 rows of 10 cells.
pub open spec fn well_shaped(g: Seq<Seq<char>>) -> bool {
    g.len() == 23 && forall|y: int| 0 <= y < 23 ==> (#[trigger] g[y]).len() == 10
}

/// The content of a cell; `_` outside the field.
pub open spec fn field_at(g: Seq<Seq<char>>, c: (i32, i32)) -> char {
    if in_field(c) {
        g[c.1 as int][c.0 as int]
    } else {
        '_'
    }
}

/// Parses a field string of 230 characters (23 rows of 10, top row first)
/// into rows indexed from the bottom; `None` when the string does not have
/// 230 bytes, or has 230 bytes but not 230 characters.
pub fn parse_field(field_str: &str) -> (res: Option<Vec<Vec<char>>>)
    ensures
        res.is_none() <==> !field_sized(field_str@),
        res matches Some(g) ==> grid_view(g@) == field_rows(field_str@),
{
    if field_str.as_bytes().len() != 230 {
        return None;
    }
    if field_str.unicode_len() != 230 {
        return None;
    }
    let ghost s = field_str@;
    let mut grid: Vec<Vec<char>> = Vec::new();
    let mut y: usize = 0;
    while y < 23
        invariant
            s == field_str@,
            s.len() == 230,
            y <= 23,
            grid@.len() == y,
            forall|r: int| 0 <= r < y ==> (#[trigger] grid@[r])@ == field_rows(s)[r],
        decreases 23 - y,
    {
        let mut row: Vec<char> = Vec::new();
        let mut x: usize = 0;
        while x < 10
            invariant
                s == field_str@,
                s.len() == 230,
                y < 23,
                x <= 10,
                row@.len() == x,
                forall|k: int| 0 <= k < x ==> row@[k] == s[(22 - y) * 10 + k],
            decreases 10 - x,
        {
            row.push(field_str.get_char((22 - y) * 10 + x));
            x += 1;
        }
        assert(row@ =~= field_rows(s)[y as int]);
        grid.push(row);
        y += 1;
    }
    assert(grid_view(grid@) =~= field_rows(s));
    Some(grid)
}

/// The content of cell (x, y); `_` outside the field.
pub fn cell_at(grid: &[Vec<char>], x: i32, y: i32) -> (c: char)
    requires
        well_shaped(grid_view(grid@)),
    ensures
        c == field_at(grid_view(grid@), (x, y)),
{
    if !(0 <= x && x <= 9) || !(0 <= y && y <= 22) {
        return '_';
    }
    assert(grid@[y as int]@ == grid_view(grid@)[y as int]);
    grid[y as usize][x as usize]
}

/// The index of a field cell in a flat table of 230 entries, row by row.
pub open spec fn flat(c: (i32, i32)) -> int {
    c.1 * 10 + c.0
}

/// Whether a cell is marked in a flat table.
pub open spec fn marked(v: Seq<bool>, c: (i32, i32)) -> bool {
    v[flat(c)]
}

/// Two cells share an edge.
pub open spec fn adjacent(a: (i32, i32), b: (i32, i32)) -> bool {
    (a.0 == b.0 && (a.1 - b.1 == 1 || b.1 - a.1 == 1)) || (a.1 == b.1 && (a.0 - b.0 == 1 || b.0
        - a.0 == 1))
}

/// A path of edge-adjacent field cells holding `t`, none of them marked in `blocked`.
pub open spec fn is_walk(
    g: Seq<Seq<char>>,
    t: char,
    blocked: Seq<bool>,
    path: Seq<(i32, i32)>,
) -> bool {
    &&& path.len() > 0
    &&& forall|i: int|
        0 <= i < path.len() ==> in_field(#[trigger] path[i]) && field_at(g, path[i]) == t
            && !marked(blocked, path[i])
    &&& forall|i: int| 0 <= i < path.len() - 1 ==> adjacent(#[trigger] path[i], path[i + 1])
}

/// `b` can be reached from `a` through edge-adjacent cells holding `t` that
/// are not marked in `blocked`.
pub open spec fn connected(
    g: Seq<Seq<char>>,
    t: char,
    blocked: Seq<bool>,
    a: (i32, i32),
    b: (i32, i32),
) -> bool {
    exists|path: Seq<(i32, i32)>|
        #[trigger] is_walk(g, t, blocked, path) && path[0] == a && path.last() == b
}

/// The number of unmarked entries.
pub open spec fn count_unmarked(v: Seq<bool>) -> nat
    decreases v.len(),
{
    if v.len() == 0 {
        0
    } else {
        count_unmarked(v.drop_last()) + if v.last() {
            0nat
        } else {
            1nat
        }
    }
}

proof fn lemma_count_mark(v: Seq<bool>, i: int)
    requires
        0 <= i < v.len(),
        !v[i],
    ensures
        count_unmarked(v.update(i, true)) + 1 == count_unmarked(v),
    decreases v.len(),
{
    if i == v.len() - 1 {
        assert(v.update(i, true).drop_last() =~= v.drop_last());
    } else {
        assert(v.update(i, true).drop_last() =~= v.drop_last().update(i, true));
        lemma_count_mark(v.drop_last(), i);
    }
}

/// Every walk from a cell of a closed set stays in it.
proof fn lemma_walk_stays(
    g: Seq<Seq<char>>,
    t: char,
    blocked: Seq<bool>,
    visited: Seq<bool>,
    inside: Seq<(i32, i32)>,
    path: Seq<(i32, i32)>,
    k: int,
)
    requires
        is_walk(g, t, blocked, path),
        0 <= k < path.len(),
        inside.contains(path[0]),
        visited.len() == 230,
        forall|c: (i32, i32)|
            in_field(c) ==> (marked(visited, c) == (marked(blocked, c) || inside.contains(c))),
        forall|c: (i32, i32), n: (i32, i32)|
            #![trigger adjacent(c, n)]
            inside.contains(c) && in_field(n) && adjacent(c, n) && field_at(g, n) == t
                ==> marked(visited, n),
    ensures
        inside.contains(path[k]),
    decreases k,
{
    if k > 0 {
        lemma_walk_stays(g, t, blocked, visited, inside, path, k - 1);
        assert(adjacent(path[k - 1], path[k]));
        assert(in_field(path[k]));
        assert(marked(visited, path[k]));
    }
}

/// Marks and returns the cells holding `piece_type` that can be reached from
/// (start_x, start_y) through edge-adjacent unvisited cells holding it.
pub fn flood_fill(
    grid: &[Vec<char>],
    start_x: i32,
    start_y: i32,
    piece_type: char,
    visited: &mut Vec<bool>,
) -> (cells: Vec<(i32, i32)>)
    requires
        well_shaped(grid_view(grid@)),
        old(visited)@.len() == 230,
        in_field((start_x, start_y)),
        field_at(grid_view(grid@), (start_x, start_y)) == piece_type,
        !marked(old(visited)@, (start_x, start_y)),
    ensures
        final(visited)@.len() == 230,
        cells@.no_duplicates(),
        forall|c: (i32, i32)|
            #![trigger cells@.contains(c)]
            cells@.contains(c) <==> connected(
                grid_view(grid@),
                piece_type,
                old(visited)@,
                (start_x, start_y),
                c,
            ),
        forall|c: (i32, i32)|
            #![trigger marked(final(visited)@, c)]
            in_field(c) ==> (marked(final(visited)@, c) == (marked(old(visited)@, c)
                || cells@.contains(c))),
        forall|i: int| 0 <= i < 230 && #[trigger] old(visited)@[i] ==> final(visited)@[i],
{
    let ghost g = grid_view(grid@);
    let ghost v0 = visited@;
    let ghost start = (start_x, start_y);
    let mut cells: Vec<(i32, i32)> = Vec::new();
    let mut queue: Vec<(i32, i32)> = Vec::new();
    let ghost mut paths: Map<(i32, i32), Seq<(i32, i32)>> = Map::empty();
    proof {
        lemma_count_mark(visited@, flat(start));
        paths = paths.insert(start, seq![start]);
        assert(is_walk(g, piece_type, v0, seq![start]));
    }
    visited.set((start_y * 10 + start_x) as usize, true);
    queue.push((start_x, start_y));
    assert(queue@ =~= seq![start]);
    while queue.len() > 0
        invariant
            g == grid_view(grid@),
            well_shaped(g),
            v0.len() == 230,
            visited@.len() == 230,
            in_field(start),
            start == (start_x, start_y),
            forall|c: (i32, i32)|
                #![trigger marked(visited@, c)]
                in_field(c) ==> (marked(visited@, c) == (marked(v0, c) || cells@.contains(c)
                    || queue@.contains(c))),
            forall|i: int| 0 <= i < 230 && #[trigger] v0[i] ==> visited@[i],
            cells@.no_duplicates(),
            queue@.no_duplicates(),
            forall|c: (i32, i32)| !(cells@.contains(c) && queue@.contains(c)),
            forall|c: (i32, i32)|
                #![trigger cells@.contains(c)]
                #![trigger queue@.contains(c)]
                (cells@.contains(c) || queue@.contains(c)) ==> {
                    &&& in_field(c)
                    &&& !marked(v0, c)
                    &&& paths.dom().contains(c)
                    &&& is_walk(g, piece_type, v0, paths[c])
                    &&& paths[c][0] == start
                    &&& paths[c].last() == c
                },
            forall|c: (i32, i32), n: (i32, i32)|
                #![trigger adjacent(c, n)]
                cells@.contains(c) && in_field(n) && adjacent(c, n) && field_at(g, n)
                    == piece_type ==> marked(visited@, n),
            cells@.contains(start) || queue@.contains(start),
        decreases 2 * count_unmarked(visited@) + queue@.len(),
    {
        let ghost measure = 2 * count_unmarked(visited@) + queue@.len();
        let ghost q_before = queue@;
        let (x, y) = queue.pop().unwrap();
        let ghost p = (x, y);
        assert(q_before =~= queue@.push(p));
        assert(q_before.contains(p));
        assert(start == p || cells@.contains(start) || queue@.contains(start));
        let mut k: usize = 0;
        while k < 4
            invariant
                g == grid_view(grid@),
                well_shaped(g),
                v0.len() == 230,
                visited@.len() == 230,
                in_field(start),
                in_field(p),
                p == (x, y),
                k <= 4,
                !cells@.contains(p),
                !queue@.contains(p),
                !marked(v0, p),
                marked(visited@, p),
                paths.dom().contains(p),
                is_walk(g, piece_type, v0, paths[p]),
                paths[p][0] == start,
                paths[p].last() == p,
                forall|c: (i32, i32)|
                    #![trigger marked(visited@, c)]
                    in_field(c) ==> (marked(visited@, c) == (marked(v0, c) || cells@.contains(c)
                        || queue@.contains(c) || c == p)),
                forall|i: int| 0 <= i < 230 && #[trigger] v0[i] ==> visited@[i],
                cells@.no_duplicates(),
                queue@.no_duplicates(),
                forall|c: (i32, i32)| !(cells@.contains(c) && queue@.contains(c)),
                forall|c: (i32, i32)|
                    #![trigger cells@.contains(c)]
                    #![trigger queue@.contains(c)]
                    (cells@.contains(c) || queue@.contains(c)) ==> {
                        &&& in_field(c)
                        &&& !marked(v0, c)
                        &&& paths.dom().contains(c)
                        &&& is_walk(g, piece_type, v0, paths[c])
                        &&& paths[c][0] == start
                        &&& paths[c].last() == c
                    },
                forall|c: (i32, i32), n: (i32, i32)|
                    #![trigger adjacent(c, n)]
                    cells@.contains(c) && in_field(n) && adjacent(c, n) && field_at(g, n)
                        == piece_type ==> marked(visited@, n),
                forall|j: int|
                    0 <= j < k ==> (in_field(#[trigger] neighbour(p, j)) && field_at(
                        g,
                        neighbour(p, j),
                    ) == piece_type ==> marked(visited@, neighbour(p, j))),
                2 * count_unmarked(visited@) + queue@.len() < measure,
                start == p || cells@.contains(start) || queue@.contains(start),
            decreases 4 - k,
        {
            let (dx, dy): (i32, i32) = if k == 0 {
                (1, 0)
            } else if k == 1 {
                (-1, 0)
            } else if k == 2 {
                (0, 1)
            } else {
                (0, -1)
            };
            let nx = x + dx;
            let ny = y + dy;
            let ghost n = (nx, ny);
            assert(n == neighbour(p, k as int));
            if 0 <= nx && nx <= 9 && 0 <= ny && ny <= 22 {
                let idx = (ny * 10 + nx) as usize;
                if !visited[idx] && cell_at(grid, nx, ny) == piece_type {
                    assert(!marked(visited@, n));
                    assert(!queue@.contains(n));
                    assert(!cells@.contains(n));
                    let ghost q_old = queue@;
                    let ghost v_old = visited@;
                    let ghost paths_old = paths;
                    proof {
                        lemma_count_mark(visited@, flat(n));
                        let np = paths[p].push(n);
                        assert(adjacent(p, n));
                        assert(is_walk(g, piece_type, v0, np)) by {
                            assert forall|i: int| 0 <= i < np.len() - 1 implies adjacent(
                                #[trigger] np[i],
                                np[i + 1],
                            ) by {
                                if i < np.len() - 2 {
                                    assert(np[i] == paths[p][i]);
                                    assert(np[i + 1] == paths[p][i + 1]);
                                }
                            }
                        }
                        paths = paths.insert(n, np);
                    }
                    visited.set(idx, true);
                    queue.push((nx, ny));
                    proof {
                        assert(queue@ == q_old.push(n));
                        assert forall|c: (i32, i32)|
                            #![trigger marked(visited@, c)]
                            in_field(c) implies (marked(visited@, c) == (marked(v0, c)
                                || cells@.contains(c) || queue@.contains(c) || c == p)) by {
                            if c != n {
                                assert(flat(c) != flat(n));
                                assert(marked(visited@, c) == marked(v_old, c));
                                assert(queue@.contains(c) == q_old.contains(c));
                            } else {
                                assert(queue@.contains(n));
                            }
                        }
                        assert forall|c: (i32, i32)|
                            #![trigger cells@.contains(c)]
                            #![trigger queue@.contains(c)]
                            (cells@.contains(c) || queue@.contains(c)) implies {
                                &&& in_field(c)
                                &&& !marked(v0, c)
                                &&& paths.dom().contains(c)
                                &&& is_walk(g, piece_type, v0, paths[c])
                                &&& paths[c][0] == start
                                &&& paths[c].last() == c
                            } by {
                            if c != n {
                                assert(queue@.contains(c) ==> q_old.contains(c));
                                assert(paths[c] == paths_old[c]);
                            }
                        }
                        assert(queue@.no_duplicates());
                        assert(q_old.contains(start) ==> queue@.contains(start));
                    }
                }
            }
            k += 1;
        }
        proof {
            assert forall|n: (i32, i32)|
                in_field(n) && adjacent(p, n) && field_at(g, n) == piece_type implies marked(
                visited@,
                n,
            ) by {
                if n == neighbour(p, 0) {
                } else if n == neighbour(p, 1) {
                } else if n == neighbour(p, 2) {
                } else {
                    assert(n == neighbour(p, 3));
                }
            }
        }
        let ghost c_old = cells@;
        cells.push((x, y));
        proof {
            assert(cells@ == c_old.push(p));
            assert(cells@.contains(p));
            if start != p {
                assert(c_old.contains(start) ==> cells@.contains(start));
            }
            assert(cells@.no_duplicates());
        }
    }
    proof {
        assert forall|c: (i32, i32)|
            #![trigger cells@.contains(c)]
            cells@.contains(c) <==> connected(g, piece_type, v0, start, c) by {
            if cells@.contains(c) {
                assert(is_walk(g, piece_type, v0, paths[c]) && paths[c][0] == start
                    && paths[c].last() == c);
            }
            if connected(g, piece_type, v0, start, c) {
                let path = choose|path: Seq<(i32, i32)>|
                    #[trigger] is_walk(g, piece_type, v0, path) && path[0] == start && path.last()
                        == c;
                lemma_walk_stays(g, piece_type, v0, visited@, cells@, path, path.len() - 1);
            }
        }
    }
    cells
}

/// The cell next to `c` in direction j: right, left, up, down.
pub open spec fn neighbour(c: (i32, i32), j: int) -> (i32, i32) {
    if j == 0 {
        ((c.0 + 1) as i32, c.1)
    } else if j == 1 {
        ((c.0 - 1) as i32, c.1)
    } else if j == 2 {
        (c.0, (c.1 + 1) as i32)
    } else {
        (c.0, (c.1 - 1) as i32)
    }
}

/// The cells of piece `t` turned `r` quarter turns with its centre at `o`.
pub open spec fn placed_shape(t: char, r: int, o: (i32, i32)) -> Seq<(i32, i32)> {
    shift_cells(turn_cells(shape_of(t), r), o.0 as int, o.1 as int)
}

/// Piece `t`, turned `r` quarter turns with its centre at `o`, covers exactly the cells `cs`.
pub open spec fn covers_exactly(cs: Set<(i32, i32)>, t: char, r: int, o: (i32, i32)) -> bool {
    &&& shift_fits(turn_cells(shape_of(t), r), o.0 as int, o.1 as int)
    &&& placed_shape(t, r, o).to_set() == cs
}

/// Piece `t`, turned `r` quarter turns, covers exactly the cells `cs` at some position.
pub open spec fn covers_in_turn(cs: Set<(i32, i32)>, t: char, r: int) -> bool {
    exists|o: (i32, i32)| #[trigger] covers_exactly(cs, t, r, o)
}

/// The cells `cs` are those of piece `t` in some rotation and position.
pub open spec fn identifiable(cs: Set<(i32, i32)>, t: char) -> bool {
    is_piece_letter(t) && (covers_in_turn(cs, t, 0) || covers_in_turn(cs, t, 1) || covers_in_turn(
        cs,
        t,
        2,
    ) || covers_in_turn(cs, t, 3))
}

/// The first rotation, in the order spawn, right, reverse, left, in which
/// piece `t` covers the cells `cs`.
pub open spec fn first_turn(cs: Set<(i32, i32)>, t: char) -> int {
    if covers_in_turn(cs, t, 0) {
        0
    } else if covers_in_turn(cs, t, 1) {
        1
    } else if covers_in_turn(cs, t, 2) {
        2
    } else {
        3
    }
}

/// The position at which piece `t` covers the cells `cs` in its first rotation.
pub open spec fn found_position(cs: Set<(i32, i32)>, t: char) -> (i32, i32) {
    choose|o: (i32, i32)| covers_exactly(cs, t, first_turn(cs, t), o)
}

/// The operation is piece `t`, turned `r` quarter turns, with its centre at `o`.
pub open spec fn describes(op: PieceOperation, t: char, r: int, o: (i32, i32)) -> bool {
    &&& op.piece_type@ == seq![t]
    &&& op.rotation@ == rotation_name(r)
    &&& op.x == o.0
    &&& op.y == o.1
}

/// The index of a cell with the least column.
pub open spec fn least_x(a: Seq<(i32, i32)>) -> int
    decreases a.len(),
{
    if a.len() <= 1 {
        0
    } else {
        let m = least_x(a.drop_last());
        if a.last().0 < a[m].0 {
            a.len() - 1
        } else {
            m
        }
    }
}

/// The index of a cell with the least row.
pub open spec fn least_y(a: Seq<(i32, i32)>) -> int
    decreases a.len(),
{
    if a.len() <= 1 {
        0
    } else {
        let m = least_y(a.drop_last());
        if a.last().1 < a[m].1 {
            a.len() - 1
        } else {
            m
        }
    }
}

proof fn lemma_least(a: Seq<(i32, i32)>)
    requires
        a.len() > 0,
    ensures
        0 <= least_x(a) < a.len(),
        0 <= least_y(a) < a.len(),
        forall|i: int| 0 <= i < a.len() ==> a[least_x(a)].0 <= #[trigger] a[i].0,
        forall|i: int| 0 <= i < a.len() ==> a[least_y(a)].1 <= #[trigger] a[i].1,
    decreases a.len(),
{
    if a.len() > 1 {
        lemma_least(a.drop_last());
        assert forall|i: int| 0 <= i < a.len() implies a[least_x(a)].0 <= #[trigger] a[i].0 by {
            if i < a.len() - 1 {
                assert(a[i] == a.drop_last()[i]);
            }
        }
        assert forall|i: int| 0 <= i < a.len() implies a[least_y(a)].1 <= #[trigger] a[i].1 by {
            if i < a.len() - 1 {
                assert(a[i] == a.drop_last()[i]);
            }
        }
    }
}

/// A set of cells determines where a shape stands.
proof fn lemma_position_unique(a: Seq<(i32, i32)>, o1: (i32, i32), o2: (i32, i32))
    requires
        a.len() > 0,
        shift_fits(a, o1.0 as int, o1.1 as int),
        shift_fits(a, o2.0 as int, o2.1 as int),
        shift_cells(a, o1.0 as int, o1.1 as int).to_set() == shift_cells(
            a,
            o2.0 as int,
            o2.1 as int,
        ).to_set(),
    ensures
        o1 == o2,
{
    lemma_least(a);
    let s1 = shift_cells(a, o1.0 as int, o1.1 as int);
    let s2 = shift_cells(a, o2.0 as int, o2.1 as int);
    let mx = least_x(a);
    let my = least_y(a);
    assert(s1.to_set().contains(s1[mx]));
    assert(s2.to_set().contains(s1[mx]));
    let j1 = choose|j: int| 0 <= j < s2.len() && s2[j] == s1[mx];
    assert(a[mx].0 <= a[j1].0);
    assert(s2.to_set().contains(s2[mx]));
    assert(s1.to_set().contains(s2[mx]));
    let j2 = choose|j: int| 0 <= j < s1.len() && s1[j] == s2[mx];
    assert(a[mx].0 <= a[j2].0);
    assert(s1.to_set().contains(s1[my]));
    assert(s2.to_set().contains(s1[my]));
    let j3 = choose|j: int| 0 <= j < s2.len() && s2[j] == s1[my];
    assert(a[my].1 <= a[j3].1);
    assert(s2.to_set().contains(s2[my]));
    assert(s1.to_set().contains(s2[my]));
    let j4 = choose|j: int| 0 <= j < s1.len() && s1[j] == s2[my];
    assert(a[my].1 <= a[j4].1);
}

/// The turned shapes of the piece letters have four distinct cells.
proof fn lemma_turned_distinct(t: char, r: int)
    requires
        is_piece_letter(t),
        0 <= r < 4,
    ensures
        turn_cells(shape_of(t), r).no_duplicates(),
        turn_cells(shape_of(t), r).len() == 4,
{
    let a = turn_cells(shape_of(t), r);
    assert(a.len() == 4);
    assert(a[0] != a[1] && a[0] != a[2] && a[0] != a[3] && a[1] != a[2] && a[1] != a[3] && a[2]
        != a[3]);
}

/// Shifting keeps cells distinct.
proof fn lemma_shift_distinct(a: Seq<(i32, i32)>, o: (i32, i32))
    requires
        a.no_duplicates(),
        shift_fits(a, o.0 as int, o.1 as int),
    ensures
        shift_cells(a, o.0 as int, o.1 as int).no_duplicates(),
{
    let s = shift_cells(a, o.0 as int, o.1 as int);
    assert forall|i: int, j: int| 0 <= i < s.len() && 0 <= j < s.len() && i != j implies s[i]
        != s[j] by {
        assert(a[i] != a[j]);
    }
}

/// Moved so that cell `rp` lands on cell `c`, every cell of `a` is in `cs`.
pub open spec fn anchored_cover(
    cs: Set<(i32, i32)>,
    a: Seq<(i32, i32)>,
    c: (i32, i32),
    rp: (i32, i32),
) -> bool {
    forall|i: int|
        0 <= i < a.len() ==> #[trigger] cs.contains(shift_cells(a, c.0 - rp.0, c.1 - rp.1)[i])
}

/// Whether every cell of `positions`, moved by (ox, oy), is in the set.
fn covered_by(positions: &[(i32, i32)], ox: i32, oy: i32, set: &CellSet) -> (res: bool)
    requires
        shift_fits(positions@, ox as int, oy as int),
    ensures
        res == forall|i: int|
            0 <= i < positions@.len() ==> #[trigger] set@.contains(
                shift_cells(positions@, ox as int, oy as int)[i],
            ),
{
    let mut i: usize = 0;
    while i < positions.len()
        invariant
            i <= positions@.len(),
            shift_fits(positions@, ox as int, oy as int),
            forall|j: int|
                0 <= j < i ==> #[trigger] set@.contains(
                    shift_cells(positions@, ox as int, oy as int)[j],
                ),
        decreases positions@.len() - i,
    {
        let (px, py) = positions[i];
        let q: (i32, i32) = (px + ox, py + oy);
        if !set.contains(q) {
            assert(shift_cells(positions@, ox as int, oy as int)[i as int] == q);
            return false;
        }
        i += 1;
    }
    true
}

/// The name of a piece letter as a string.
pub fn letter_name(t: char) -> (s: String)
    requires
        is_piece_letter(t),
    ensures
        s@ == seq![t],
{
    proof {
        reveal_strlit("I");
        reveal_strlit("L");
        reveal_strlit("O");
        reveal_strlit("Z");
        reveal_strlit("T");
        reveal_strlit("J");
        reveal_strlit("S");
    }
    let s = match t {
        'I' => String::from_str("I"),
        'L' => String::from_str("L"),
        'O' => String::from_str("O"),
        'Z' => String::from_str("Z"),
        'T' => String::from_str("T"),
        'J' => String::from_str("J"),
        _ => String::from_str("S"),
    };
    assert(s@ =~= seq![t]);
    s
}

/// The rotation name for a number of quarter turns.
pub fn turn_name(r: usize) -> (s: &'static str)
    requires
        r < 4,
    ensures
        s@ == rotation_name(r as int),
        quarter_turns(s@) == r,
{
    proof {
        reveal_strlit("spawn");
        reveal_strlit("right");
        reveal_strlit("reverse");
        reveal_strlit("left");
    }
    let s = if r == 0 {
        "spawn"
    } else if r == 1 {
        "right"
    } else if r == 2 {
        "reverse"
    } else {
        "left"
    };
    assert(s@ =~= rotation_name(r as int));
    s
}

/// Finds the rotation and position in which piece `piece_type` covers exactly
/// the given cells: the first rotation in the order spawn, right, reverse, left
/// that fits. `None` when the cells are not such a piece.
pub fn identify_piece(cells: &[(i32, i32)], piece_type: char) -> (res: Option<PieceOperation>)
    requires
        cells@.no_duplicates(),
        all_in_field(cells@),
    ensures
        res.is_some() <==> (cells@.len() == 4 && identifiable(cells@.to_set(), piece_type)),
        res matches Some(op) ==> describes(
            op,
            piece_type,
            first_turn(cells@.to_set(), piece_type),
            found_position(cells@.to_set(), piece_type),
        ),
{
    let ghost cs = cells@.to_set();
    let ghost t = piece_type;
    let shape = spawn_shape(piece_type);
    proof {
        lemma_shape_small(piece_type, 0);
    }
    if shape.len() == 0 || cells.len() != shape.len() {
        return None;
    }
    proof {
        cells@.unique_seq_to_set();
    }
    let cell_set = CellSet::from_cells(cells);
    let mut r: usize = 0;
    while r < 4
        invariant
            r <= 4,
            is_piece_letter(t),
            t == piece_type,
            cs == cells@.to_set(),
            cs.len() == 4,
            cells@.len() == 4,
            cells@.no_duplicates(),
            all_in_field(cells@),
            cell_set@ == cs,
            shape@ == shape_of(t),
            forall|q: int| 0 <= q < r ==> !#[trigger] covers_in_turn(cs, t, q),
        decreases 4 - r,
    {
        let name = turn_name(r);
        proof {
            lemma_shape_small(t, r as int);
            lemma_turned_distinct(t, r as int);
        }
        let ref_positions = rotate(&shape, name);
        let ghost a = ref_positions@;
        assert(a == turn_cells(shape_of(t), r as int));
        let mut j: usize = 0;
        while j < ref_positions.len()
            invariant
                r < 4,
                j <= 4,
                a.len() == 4,
                a.no_duplicates(),
                ref_positions@ == a,
                a == turn_cells(shape_of(t), r as int),
                forall|i: int| #![trigger a[i]] 0 <= i < 4 ==> -2 <= a[i].0 <= 2 && -2 <= a[i].1 <= 2,
                is_piece_letter(t),
                t == piece_type,
                cs == cells@.to_set(),
                cs.len() == 4,
                cells@.len() == 4,
                cells@.no_duplicates(),
                all_in_field(cells@),
                cell_set@ == cs,
                name@ == rotation_name(r as int),
                forall|q: int| 0 <= q < r ==> !#[trigger] covers_in_turn(cs, t, q),
                forall|jj: int, kk: int|
                    0 <= jj < j && 0 <= kk < 4 ==> !#[trigger] anchored_cover(
                        cs,
                        a,
                        cells@[kk],
                        a[jj],
                    ),
            decreases 4 - j,
        {
            let mut k: usize = 0;
            while k < cells.len()
                invariant
                    r < 4,
                    j < 4,
                    k <= 4,
                    a.len() == 4,
                    a.no_duplicates(),
                    ref_positions@ == a,
                    a == turn_cells(shape_of(t), r as int),
                    forall|i: int| #![trigger a[i]] 0 <= i < 4 ==> -2 <= a[i].0 <= 2 && -2 <= a[i].1 <= 2,
                    is_piece_letter(t),
                    t == piece_type,
                    cs == cells@.to_set(),
                    cs.len() == 4,
                    cells@.len() == 4,
                    cells@.no_duplicates(),
                    all_in_field(cells@),
                    cell_set@ == cs,
                    name@ == rotation_name(r as int),
                    forall|q: int| 0 <= q < r ==> !#[trigger] covers_in_turn(cs, t, q),
                    forall|jj: int, kk: int|
                        (0 <= jj < j && 0 <= kk < 4) || (jj == j && 0 <= kk < k)
                            ==> !#[trigger] anchored_cover(cs, a, cells@[kk], a[jj]),
                decreases 4 - k,
            {
                let (cx, cy) = cells[k];
                let (rx, ry) = ref_positions[j];
                assert(in_field(cells@[k as int]));
                assert(-2 <= a[j as int].0 <= 2 && -2 <= a[j as int].1 <= 2);
                let ox = cx - rx;
                let oy = cy - ry;
                if covered_by(&ref_positions, ox, oy, &cell_set) {
                    let ghost o = (ox, oy);
                    proof {
                        let p = placed_shape(t, r as int, o);
                        lemma_shift_distinct(a, o);
                        p.unique_seq_to_set();
                        assert(p.to_set().subset_of(cs));
                        vstd::set_lib::lemma_subset_equality(p.to_set(), cs);
                        assert(covers_exactly(cs, t, r as int, o));
                        assert(first_turn(cs, t) == r);
                        let o2 = found_position(cs, t);
                        lemma_position_unique(a, o, o2);
                    }
                    return Some(
                        PieceOperation {
                            piece_type: letter_name(piece_type),
                            rotation: String::from_str(name),
                            x: ox,
                            y: oy,
                        },
                    );
                }
                k += 1;
            }
            j += 1;
        }
        proof {
            if covers_in_turn(cs, t, r as int) {
                let o = choose|o: (i32, i32)| #[trigger] covers_exactly(cs, t, r as int, o);
                let p = placed_shape(t, r as int, o);
                assert(p.to_set().contains(p[0]));
                assert(cs.contains(p[0]));
                let kk = choose|kk: int| 0 <= kk < 4 && cells@[kk] == p[0];
                assert(cells@[kk].0 - a[0].0 == o.0);
                assert(cells@[kk].1 - a[0].1 == o.1);
                assert forall|i: int| 0 <= i < 4 implies #[trigger] cs.contains(
                    shift_cells(a, cells@[kk].0 - a[0].0, cells@[kk].1 - a[0].1)[i],
                ) by {
                    assert(p.to_set().contains(p[i]));
                }
                assert(anchored_cover(cs, a, cells@[kk], a[0]));
            }
        }
        r += 1;
    }
    None
}

/// The cells covered by the operations at the given indices.
pub open spec fn cells_of(ops: Seq<PieceOperation>, idx: Seq<int>) -> Set<(i32, i32)> {
    Set::new(
        |c: (i32, i32)|
            exists|k: int| 0 <= k < idx.len() && #[trigger] op_cells(ops[idx[k]]).contains(c),
    )
}

/// The occupied cells once the operations at `placed` stand on the field.
pub open spec fn occupied_after(
    ops: Seq<PieceOperation>,
    initial: Set<(i32, i32)>,
    placed: Seq<int>,
) -> Set<(i32, i32)> {
    initial.union(cells_of(ops, placed))
}

/// The cells of the operations not yet placed, apart from those of operation `i`.
pub open spec fn pending_cells(ops: Seq<PieceOperation>, placed: Seq<int>, i: int) -> Set<
    (i32, i32),
> {
    Set::new(
        |c: (i32, i32)|
            (exists|r: int|
                0 <= r < ops.len() && !placed.contains(r) && #[trigger] op_cells(ops[r]).contains(
                    c,
                )) && !op_cells(ops[i]).contains(c),
    )
}

/// The cells of the operations not yet placed.
pub open spec fn unplaced_cells(ops: Seq<PieceOperation>, placed: Seq<int>) -> Set<(i32, i32)> {
    Set::new(
        |c: (i32, i32)|
            exists|r: int|
                0 <= r < ops.len() && !placed.contains(r) && #[trigger] op_cells(ops[r]).contains(
                    c,
                ),
    )
}

/// Operation `i` can be placed once the operations at `placed` stand.
pub open spec fn can_place_next(
    ops: Seq<PieceOperation>,
    initial: Set<(i32, i32)>,
    full_rows: Seq<bool>,
    placed: Seq<int>,
    i: int,
) -> bool {
    placeable(
        op_cells(ops[i]),
        occupied_after(ops, initial, placed),
        full_rows,
        pending_cells(ops, placed, i),
    )
}

/// Operation `i` is the first of those not yet placed that can be placed.
pub open spec fn greedy_pick(
    ops: Seq<PieceOperation>,
    initial: Set<(i32, i32)>,
    full_rows: Seq<bool>,
    placed: Seq<int>,
    i: int,
) -> bool {
    &&& 0 <= i < ops.len()
    &&& !placed.contains(i)
    &&& can_place_next(ops, initial, full_rows, placed, i)
    &&& forall|j: int|
        0 <= j < i && !placed.contains(j) ==> !#[trigger] can_place_next(
            ops,
            initial,
            full_rows,
            placed,
            j,
        )
}

/// Each index of `order` is the greedy pick after the ones before it.
pub open spec fn greedy_prefix(
    ops: Seq<PieceOperation>,
    initial: Set<(i32, i32)>,
    full_rows: Seq<bool>,
    order: Seq<int>,
) -> bool {
    forall|k: int|
        0 <= k < order.len() ==> #[trigger] greedy_pick(
            ops,
            initial,
            full_rows,
            order.take(k),
            order[k],
        )
}

/// Following the greedy picks reaches a point where none of the operations
/// left can be placed.
pub open spec fn greedy_stuck(
    ops: Seq<PieceOperation>,
    initial: Set<(i32, i32)>,
    full_rows: Seq<bool>,
    order: Seq<int>,
) -> bool {
    &&& greedy_prefix(ops, initial, full_rows, order)
    &&& order.len() < ops.len()
    &&& forall|i: int|
        0 <= i < ops.len() && !order.contains(i) ==> !#[trigger] can_place_next(
            ops,
            initial,
            full_rows,
            order,
            i,
        )
}

/// The operations `res` are `ops` in the greedy order.
pub open spec fn greedy_result(
    ops: Seq<PieceOperation>,
    initial: Set<(i32, i32)>,
    full_rows: Seq<bool>,
    res: Seq<PieceOperation>,
) -> bool {
    exists|order: Seq<int>|
        #[trigger] greedy_prefix(ops, initial, full_rows, order) && order.len() == ops.len()
            && res.len() == ops.len() && forall|k: int|
            0 <= k < res.len() ==> res[k] == ops[order[k]]
}

/// Orders the pieces so that each can be placed after the ones before it,
/// always taking the first piece (in the given order) that can be placed
/// now; `None` when at some point none of the pieces left can be placed.
pub fn find_valid_order(
    ops: &[PieceOperation],
    initial_occupied: CellSet,
    full_rows: &[bool],
) -> (res: Option<Vec<PieceOperation>>)
    requires
        forall|i: int| 0 <= i < ops@.len() ==> op_fits(#[trigger] ops@[i]),
    ensures
        res matches Some(v) ==> greedy_result(ops@, initial_occupied@, full_rows@, v@),
        res is None ==> exists|order: Seq<int>|
            #[trigger] greedy_stuck(ops@, initial_occupied@, full_rows@, order),
{
    let ghost os = ops@;
    let ghost initial = initial_occupied@;
    let n = ops.len();
    let mut all_piece_cells: Vec<Vec<(i32, i32)>> = Vec::new();
    let mut i: usize = 0;
    while i < n
        invariant
            n == os.len(),
            os == ops@,
            i <= n,
            all_piece_cells@.len() == i,
            forall|i: int| 0 <= i < os.len() ==> op_fits(#[trigger] os[i]),
            forall|j: int| 0 <= j < i ==> (#[trigger] all_piece_cells@[j])@ == op_cells(os[j]),
        decreases n - i,
    {
        let op = &ops[i];
        let cells = cell_positions(first_letter(&op.piece_type), op.rotation.as_str(), op.x, op.y);
        all_piece_cells.push(cells);
        i += 1;
    }
    let mut remaining: Vec<usize> = Vec::new();
    let mut i: usize = 0;
    while i < n
        invariant
            i <= n,
            remaining@.len() == i,
            forall|j: int| 0 <= j < i ==> remaining@[j] == j,
        decreases n - i,
    {
        remaining.push(i);
        i += 1;
    }
    proof {
        let ghost empty: Seq<int> = Seq::empty();
        assert forall|r: int|
            0 <= r < n implies (!empty.contains(r) <==> remaining@.contains(r as usize)) by {
            assert(remaining@[r] == r as usize);
        }
    }
    let mut result: Vec<PieceOperation> = Vec::new();
    let mut occupied = initial_occupied;
    let ghost mut placed: Seq<int> = Seq::empty();
    while remaining.len() > 0
        invariant
            n == os.len(),
            os == ops@,
            forall|i: int| 0 <= i < os.len() ==> op_fits(#[trigger] os[i]),
            all_piece_cells@.len() == n,
            forall|j: int| 0 <= j < n ==> (#[trigger] all_piece_cells@[j])@ == op_cells(os[j]),
            forall|a: int, b: int|
                0 <= a < b < remaining@.len() ==> remaining@[a] < remaining@[b],
            forall|r: int|
                0 <= r < n ==> (!placed.contains(r) <==> remaining@.contains(r as usize)),
            forall|j: int| 0 <= j < remaining@.len() ==> remaining@[j] < n,
            remaining@.len() + placed.len() == n,
            greedy_prefix(os, initial, full_rows@, placed),
            occupied@ == occupied_after(os, initial, placed),
            initial == initial_occupied@,
            forall|k: int| 0 <= k < placed.len() ==> 0 <= #[trigger] placed[k] < n,
            result@.len() == placed.len(),
            forall|k: int| 0 <= k < result@.len() ==> result@[k] == os[placed[k]],
        decreases remaining@.len(),
    {
        let ghost pending_all = unplaced_cells(os, placed);
        let mut other_piece_cells = CellSet::new();
        let mut m: usize = 0;
        while m < remaining.len()
            invariant
                m <= remaining@.len(),
                n == os.len(),
                all_piece_cells@.len() == n,
                forall|j: int|
                    0 <= j < n ==> (#[trigger] all_piece_cells@[j])@ == op_cells(os[j]),
                forall|j: int| 0 <= j < remaining@.len() ==> remaining@[j] < n,
                other_piece_cells@ == Set::new(
                    |c: (i32, i32)|
                        exists|q: int|
                            0 <= q < m && #[trigger] op_cells(os[remaining@[q] as int]).contains(
                                c,
                            ),
                ),
            decreases remaining@.len() - m,
        {
            let ghost before = other_piece_cells@;
            let idx = remaining[m];
            other_piece_cells.insert_all(all_piece_cells[idx].as_slice());
            proof {
                assert forall|c: (i32, i32)|
                    other_piece_cells@.contains(c) <==> exists|q: int|
                        0 <= q < m + 1 && #[trigger] op_cells(
                            os[remaining@[q] as int],
                        ).contains(c) by {
                    if other_piece_cells@.contains(c) && !before.contains(c) {
                        assert(op_cells(os[remaining@[m as int] as int]).contains(c));
                    }
                    if exists|q: int|
                        0 <= q < m + 1 && #[trigger] op_cells(
                            os[remaining@[q] as int],
                        ).contains(c) {
                        let q = choose|q: int|
                            0 <= q < m + 1 && #[trigger] op_cells(
                                os[remaining@[q] as int],
                            ).contains(c);
                        if q < m {
                            assert(before.contains(c));
                        }
                    }
                }
            }
            m += 1;
            assert(other_piece_cells@ =~= Set::new(
                |c: (i32, i32)|
                    exists|q: int|
                        0 <= q < m && #[trigger] op_cells(os[remaining@[q] as int]).contains(c),
            ));
        }
        proof {
            assert forall|c: (i32, i32)|
                other_piece_cells@.contains(c) <==> pending_all.contains(c) by {
                if other_piece_cells@.contains(c) {
                    let q = choose|q: int|
                        0 <= q < remaining@.len() && #[trigger] op_cells(
                            os[remaining@[q] as int],
                        ).contains(c);
                    let r = remaining@[q] as int;
                    assert(remaining@.contains(r as usize));
                    assert(!placed.contains(r));
                }
                if pending_all.contains(c) {
                    let r = choose|r: int|
                        0 <= r < n && !placed.contains(r) && #[trigger] op_cells(os[r]).contains(
                            c,
                        );
                    assert(remaining@.contains(r as usize));
                    let q = choose|q: int| 0 <= q < remaining@.len() && remaining@[q] == r as usize;
                    assert(op_cells(os[remaining@[q] as int]).contains(c));
                }
            }
            assert(other_piece_cells@ =~= pending_all);
        }
        let len = remaining.len();
        let mut chosen: usize = len;
        let mut i: usize = 0;
        while i < len && chosen == len
            invariant
                len == remaining@.len(),
                i <= len,
                chosen <= len,
                n == os.len(),
                os == ops@,
                forall|i: int| 0 <= i < os.len() ==> op_fits(#[trigger] os[i]),
                all_piece_cells@.len() == n,
                forall|j: int|
                    0 <= j < n ==> (#[trigger] all_piece_cells@[j])@ == op_cells(os[j]),
                forall|j: int| 0 <= j < remaining@.len() ==> remaining@[j] < n,
                forall|r: int|
                    0 <= r < n ==> (!placed.contains(r) <==> remaining@.contains(r as usize)),
                other_piece_cells@ == pending_all,
                pending_all == unplaced_cells(os, placed),
                occupied@ == occupied_after(os, initial, placed),
                forall|q: int|
                    0 <= q < i ==> !#[trigger] can_place_next(
                        os,
                        initial,
                        full_rows@,
                        placed,
                        remaining@[q] as int,
                    ),
                chosen < len ==> chosen == i && i < len && can_place_next(
                    os,
                    initial,
                    full_rows@,
                    placed,
                    remaining@[i as int] as int,
                ),
            decreases len - i + (if chosen == len { 1int } else { 0int }),
        {
            let idx = remaining[i];
            let mut other = other_piece_cells.copy();
            other.remove_all(all_piece_cells[idx].as_slice());
            proof {
                assert(all_piece_cells@[idx as int]@ == op_cells(os[idx as int]));
                assert forall|c: (i32, i32)|
                    other@.contains(c) <==> pending_cells(os, placed, idx as int).contains(c) by {
                    assert(op_cells(os[idx as int]).to_set().contains(c) <==> op_cells(
                        os[idx as int],
                    ).contains(c));
                    assert(pending_all.contains(c) <==> exists|r: int|
                        0 <= r < n && !placed.contains(r) && #[trigger] op_cells(
                            os[r],
                        ).contains(c));
                }
                assert(other@ =~= pending_cells(os, placed, idx as int));
            }
            if can_place(&ops[idx], &occupied, full_rows, &other) {
                chosen = i;
            } else {
                i += 1;
            }
        }
        if chosen == len {
            proof {
                assert forall|r: int|
                    0 <= r < os.len() && !placed.contains(r) implies !#[trigger] can_place_next(
                    os,
                    initial,
                    full_rows@,
                    placed,
                    r,
                ) by {
                    assert(remaining@.contains(r as usize));
                    let q = choose|q: int| 0 <= q < remaining@.len() && remaining@[q] == r as usize;
                }
                assert(greedy_stuck(os, initial, full_rows@, placed));
            }
            return None;
        }
        let idx = remaining[chosen];
        let ghost old_placed = placed;
        let ghost old_remaining = remaining@;
        proof {
            assert forall|j: int|
                0 <= j < idx && !placed.contains(j) implies !#[trigger] can_place_next(
                os,
                initial,
                full_rows@,
                placed,
                j,
            ) by {
                assert(remaining@.contains(j as usize));
                let q = choose|q: int| 0 <= q < remaining@.len() && remaining@[q] == j as usize;
                if q >= chosen {
                    if q > chosen {
                        assert(remaining@[chosen as int] < remaining@[q]);
                    }
                }
            }
            assert(greedy_pick(os, initial, full_rows@, placed, idx as int));
        }
        occupied.insert_all(all_piece_cells[idx].as_slice());
        result.push(ops[idx].clone());
        remaining.remove(chosen);
        proof {
            placed = placed.push(idx as int);
            assert(placed.take(old_placed.len() as int) =~= old_placed);
            assert forall|k: int| 0 <= k < placed.len() implies #[trigger] greedy_pick(
                os,
                initial,
                full_rows@,
                placed.take(k),
                placed[k],
            ) by {
                if k < old_placed.len() {
                    assert(placed.take(k) =~= old_placed.take(k));
                }
            }
            assert(occupied@ =~= occupied_after(os, initial, placed)) by {
                assert forall|c: (i32, i32)|
                    cells_of(os, placed).contains(c) <==> (cells_of(os, old_placed).contains(c)
                        || op_cells(os[idx as int]).contains(c)) by {
                    if cells_of(os, placed).contains(c) {
                        let k = choose|k: int|
                            0 <= k < placed.len() && #[trigger] op_cells(
                                os[placed[k]],
                            ).contains(c);
                        if k < old_placed.len() {
                            assert(op_cells(os[old_placed[k]]).contains(c));
                        }
                    }
                    if cells_of(os, old_placed).contains(c) {
                        let k = choose|k: int|
                            0 <= k < old_placed.len() && #[trigger] op_cells(
                                os[old_placed[k]],
                            ).contains(c);
                        assert(op_cells(os[placed[k]]).contains(c));
                    }
                    if op_cells(os[idx as int]).contains(c) {
                        assert(op_cells(os[placed[old_placed.len() as int]]).contains(c));
                    }
                }
            }
            assert forall|r: int|
                0 <= r < n implies (!placed.contains(r) <==> remaining@.contains(r as usize)) by {
                if r == idx {
                    assert(placed.contains(r));
                    if remaining@.contains(r as usize) {
                        let q = choose|q: int| 0 <= q < remaining@.len() && remaining@[q] == r as usize;
                        if q < chosen {
                            assert(old_remaining[q] == remaining@[q]);
                        } else {
                            assert(old_remaining[q + 1] == remaining@[q]);
                        }
                    }
                } else {
                    assert(placed.contains(r) <==> old_placed.contains(r));
                    if old_remaining.contains(r as usize) {
                        let q = choose|q: int| 0 <= q < old_remaining.len() && old_remaining[q] == r as usize;
                        if q < chosen {
                            assert(remaining@[q] == r as usize);
                        } else {
                            assert(q != chosen);
                            assert(remaining@[q - 1] == r as usize);
                        }
                    }
                    if remaining@.contains(r as usize) {
                        let q = choose|q: int| 0 <= q < remaining@.len() && remaining@[q] == r as usize;
                        if q < chosen {
                            assert(old_remaining[q] == r as usize);
                        } else {
                            assert(old_remaining[q + 1] == r as usize);
                        }
                    }
                }
            }
        }
    }
    proof {
        assert(greedy_prefix(os, initial, full_rows@, placed) && placed.len() == os.len()
            && result@.len() == os.len() && forall|k: int|
            0 <= k < result@.len() ==> result@[k] == os[placed[k]]);
    }
    Some(result)
}

/// No cell marked.
pub open spec fn no_marks() -> Seq<bool> {
    Seq::new(230, |i: int| false)
}

/// The cell visited at step k when the field is scanned from the top row
/// down, each row from left to right.
pub open spec fn scan_cell(k: int) -> (i32, i32) {
    ((k % 10) as i32, (22 - k / 10) as i32)
}

/// A cell holding a piece letter (neither empty nor garbage).
pub open spec fn colored(g: Seq<Seq<char>>, c: (i32, i32)) -> bool {
    in_field(c) && field_at(g, c) != '_' && field_at(g, c) != 'X'
}

/// A coloured cell scanned before step k reaches `c` through cells of its colour.
pub open spec fn seen_before(g: Seq<Seq<char>>, k: int, c: (i32, i32)) -> bool {
    exists|j: int|
        0 <= j < k && colored(g, scan_cell(j)) && #[trigger] connected(
            g,
            field_at(g, scan_cell(j)),
            no_marks(),
            scan_cell(j),
            c,
        )
}

/// The cells of the colour of `c` that `c` reaches through cells of that colour.
pub open spec fn component(g: Seq<Seq<char>>, c: (i32, i32)) -> Set<(i32, i32)> {
    Set::new(|d: (i32, i32)| connected(g, field_at(g, c), no_marks(), c, d))
}

/// Step k of the scan meets the first cell of a group of four cells of one
/// colour that form that piece.
pub open spec fn starts_piece(g: Seq<Seq<char>>, k: int) -> bool {
    let c = scan_cell(k);
    &&& colored(g, c)
    &&& !seen_before(g, k, c)
    &&& component(g, c).len() == 4
    &&& identifiable(component(g, c), field_at(g, c))
}

/// The scan steps before step k that start a piece, in scan order.
pub open spec fn piece_starts(g: Seq<Seq<char>>, k: int) -> Seq<int>
    decreases k,
{
    if k <= 0 {
        Seq::empty()
    } else if starts_piece(g, k - 1) {
        piece_starts(g, k - 1).push(k - 1)
    } else {
        piece_starts(g, k - 1)
    }
}

/// The operation is the piece whose first cell is met at scan step k.
pub open spec fn piece_at_step(g: Seq<Seq<char>>, k: int, op: PieceOperation) -> bool {
    let c = scan_cell(k);
    let t = field_at(g, c);
    describes(op, t, first_turn(component(g, c), t), found_position(component(g, c), t))
}

/// The pieces found before scan step k, in scan order.
pub open spec fn pieces_before(g: Seq<Seq<char>>, k: int, pieces: Seq<PieceOperation>) -> bool {
    &&& pieces.len() == piece_starts(g, k).len()
    &&& forall|i: int|
        0 <= i < pieces.len() ==> #[trigger] piece_at_step(g, piece_starts(g, k)[i], pieces[i])
}

/// The cells holding garbage.
pub open spec fn garbage_cells(g: Seq<Seq<char>>) -> Set<(i32, i32)> {
    Set::new(|c: (i32, i32)| in_field(c) && field_at(g, c) == 'X')
}

/// For each row, whether none of its cells is empty.
pub open spec fn full_rows_of(g: Seq<Seq<char>>) -> Seq<bool> {
    Seq::new(23, |y: int| forall|x: int| 0 <= x < 10 ==> g[y][x] != '_')
}

proof fn lemma_walk_unblocked(g: Seq<Seq<char>>, t: char, v: Seq<bool>, p: Seq<(i32, i32)>)
    requires
        is_walk(g, t, v, p),
    ensures
        is_walk(g, t, no_marks(), p),
{
    assert forall|i: int| 0 <= i < p.len() implies !marked(no_marks(), #[trigger] p[i]) by {
        assert(in_field(p[i]));
    }
}

proof fn lemma_walk_part(g: Seq<Seq<char>>, t: char, v: Seq<bool>, p: Seq<(i32, i32)>, a: int, b: int)
    requires
        is_walk(g, t, v, p),
        0 <= a < b <= p.len(),
    ensures
        is_walk(g, t, v, p.subrange(a, b)),
{
    let q = p.subrange(a, b);
    assert forall|i: int| 0 <= i < q.len() - 1 implies adjacent(#[trigger] q[i], q[i + 1]) by {
        assert(q[i] == p[a + i]);
        assert(q[i + 1] == p[a + i + 1]);
    }
}

proof fn lemma_walk_reverse(g: Seq<Seq<char>>, t: char, v: Seq<bool>, p: Seq<(i32, i32)>)
    requires
        is_walk(g, t, v, p),
    ensures
        is_walk(g, t, v, p.reverse()),
        p.reverse()[0] == p.last(),
        p.reverse().last() == p[0],
{
    let q = p.reverse();
    assert forall|i: int| 0 <= i < q.len() implies in_field(#[trigger] q[i]) && field_at(g, q[i])
        == t && !marked(v, q[i]) by {
        assert(q[i] == p[p.len() - 1 - i]);
    }
    assert forall|i: int| 0 <= i < q.len() - 1 implies adjacent(#[trigger] q[i], q[i + 1]) by {
        assert(q[i] == p[p.len() - 1 - i]);
        assert(q[i + 1] == p[p.len() - 2 - i]);
        assert(adjacent(p[p.len() - 2 - i], p[p.len() - 1 - i]));
    }
}

proof fn lemma_walk_join(
    g: Seq<Seq<char>>,
    t: char,
    v: Seq<bool>,
    p: Seq<(i32, i32)>,
    q: Seq<(i32, i32)>,
)
    requires
        is_walk(g, t, v, p),
        is_walk(g, t, v, q),
        p.last() == q[0],
    ensures
        is_walk(g, t, v, p + q.drop_first()),
        (p + q.drop_first())[0] == p[0],
        (p + q.drop_first()).last() == q.last(),
{
    let r = p + q.drop_first();
    assert forall|i: int| 0 <= i < r.len() implies in_field(#[trigger] r[i]) && field_at(g, r[i])
        == t && !marked(v, r[i]) by {
        if i >= p.len() {
            assert(r[i] == q[i - p.len() + 1]);
        }
    }
    assert forall|i: int| 0 <= i < r.len() - 1 implies adjacent(#[trigger] r[i], r[i + 1]) by {
        if i < p.len() - 1 {
        } else if i == p.len() - 1 {
            assert(r[i] == q[0]);
            assert(r[i + 1] == q[1]);
        } else {
            assert(r[i] == q[i - p.len() + 1]);
            assert(r[i + 1] == q[i - p.len() + 2]);
        }
    }
    if q.len() == 1 {
        assert(r =~= p);
    } else {
        assert(r.last() == q[q.len() - 1]);
    }
}

proof fn lemma_connected_ends(g: Seq<Seq<char>>, t: char, v: Seq<bool>, a: (i32, i32), b: (i32, i32))
    requires
        connected(g, t, v, a, b),
    ensures
        in_field(a) && in_field(b) && field_at(g, a) == t && field_at(g, b) == t,
{
    let p = choose|p: Seq<(i32, i32)>| #[trigger] is_walk(g, t, v, p) && p[0] == a && p.last() == b;
    assert(in_field(p[0]));
    assert(in_field(p[p.len() - 1]));
}

proof fn lemma_connected_join(
    g: Seq<Seq<char>>,
    t: char,
    v: Seq<bool>,
    a: (i32, i32),
    b: (i32, i32),
    c: (i32, i32),
)
    requires
        connected(g, t, v, a, b),
        connected(g, t, v, b, c),
    ensures
        connected(g, t, v, a, c),
{
    let p = choose|p: Seq<(i32, i32)>| #[trigger] is_walk(g, t, v, p) && p[0] == a && p.last() == b;
    let q = choose|q: Seq<(i32, i32)>| #[trigger] is_walk(g, t, v, q) && q[0] == b && q.last() == c;
    lemma_walk_join(g, t, v, p, q);
}

proof fn lemma_connected_back(g: Seq<Seq<char>>, t: char, v: Seq<bool>, a: (i32, i32), b: (i32, i32))
    requires
        connected(g, t, v, a, b),
    ensures
        connected(g, t, v, b, a),
{
    let p = choose|p: Seq<(i32, i32)>| #[trigger] is_walk(g, t, v, p) && p[0] == a && p.last() == b;
    lemma_walk_reverse(g, t, v, p);
}

/// A cell not yet marked by the scan reaches through unmarked cells all the
/// cells it reaches at all.
proof fn lemma_unseen_reach(g: Seq<Seq<char>>, v: Seq<bool>, k: int, c: (i32, i32), d: (i32, i32))
    requires
        v.len() == 230,
        forall|e: (i32, i32)| #[trigger] in_field(e) ==> (marked(v, e) == seen_before(g, k, e)),
        in_field(c),
        !marked(v, c),
        connected(g, field_at(g, c), no_marks(), c, d),
    ensures
        connected(g, field_at(g, c), v, c, d),
{
    let t = field_at(g, c);
    let p = choose|p: Seq<(i32, i32)>|
        #[trigger] is_walk(g, t, no_marks(), p) && p[0] == c && p.last() == d;
    assert forall|i: int| 0 <= i < p.len() implies !marked(v, #[trigger] p[i]) by {
        assert(in_field(p[i]));
        if marked(v, p[i]) {
            assert(seen_before(g, k, p[i]));
            let j = choose|j: int|
                0 <= j < k && colored(g, scan_cell(j)) && #[trigger] connected(
                    g,
                    field_at(g, scan_cell(j)),
                    no_marks(),
                    scan_cell(j),
                    p[i],
                );
            lemma_connected_ends(g, field_at(g, scan_cell(j)), no_marks(), scan_cell(j), p[i]);
            lemma_walk_part(g, t, no_marks(), p, 0, i + 1);
            let pre = p.subrange(0, i + 1);
            assert(connected(g, t, no_marks(), c, p[i])) by {
                assert(pre[0] == c && pre.last() == p[i]);
            }
            lemma_connected_back(g, t, no_marks(), c, p[i]);
            lemma_connected_join(g, t, no_marks(), scan_cell(j), p[i], c);
            assert(seen_before(g, k, c));
            assert(in_field(c));
        }
    }
    assert(is_walk(g, t, v, p));
}

proof fn lemma_turn_names(r: int)
    requires
        0 <= r < 4,
    ensures
        quarter_turns(rotation_name(r)) == r,
{
    let right = seq!['r', 'i', 'g', 'h', 't'];
    let reverse = seq!['r', 'e', 'v', 'e', 'r', 's', 'e'];
    let left = seq!['l', 'e', 'f', 't'];
    let spawn = seq!['s', 'p', 'a', 'w', 'n'];
    assert(spawn[0] != right[0]);
    assert(spawn.len() != reverse.len());
    assert(spawn[0] != left[0]);
    assert(reverse.len() != right.len());
    assert(left[0] != right[0]);
    assert(left.len() != reverse.len());
}

proof fn lemma_identified_fits(cs: Set<(i32, i32)>, t: char)
    requires
        identifiable(cs, t),
    ensures
        0 <= first_turn(cs, t) < 4,
        covers_exactly(cs, t, first_turn(cs, t), found_position(cs, t)),
{
    assert(covers_in_turn(cs, t, first_turn(cs, t)));
}

proof fn lemma_support_grows(
    x: i32,
    y: int,
    occupied: Set<(i32, i32)>,
    full_rows: Seq<bool>,
    others: Set<(i32, i32)>,
    c: (i32, i32),
)
    requires
        supported_from(x, y, occupied, full_rows, others),
    ensures
        supported_from(x, y, occupied.insert(c), full_rows, others.remove(c)),
    decreases y + 1,
{
    if y >= 0 && !occupied.contains((x, y as i32)) {
        lemma_support_grows(x, y - 1, occupied, full_rows, others, c);
    }
}

/// Placing another piece never makes a placeable piece unplaceable: when a
/// cell of another unplaced piece, not one of this piece's cells, becomes
/// occupied, a piece that could be placed still can.
pub proof fn lemma_placeable_stays(
    cells: Seq<(i32, i32)>,
    occupied: Set<(i32, i32)>,
    full_rows: Seq<bool>,
    others: Set<(i32, i32)>,
    c: (i32, i32),
)
    requires
        placeable(cells, occupied, full_rows, others),
        others.contains(c),
        !cells.contains(c),
    ensures
        placeable(cells, occupied.insert(c), full_rows, others.remove(c)),
{
    let occ2 = occupied.insert(c);
    let oth2 = others.remove(c);
    assert(!(exists|i: int| 0 <= i < cells.len() && #[trigger] occ2.contains(cells[i]))) by {
        if exists|i: int| 0 <= i < cells.len() && #[trigger] occ2.contains(cells[i]) {
            let i = choose|i: int| 0 <= i < cells.len() && #[trigger] occ2.contains(cells[i]);
            assert(cells[i] != c);
            assert(occupied.contains(cells[i]));
        }
    }
    assert(!waits_on_other(cells, oth2)) by {
        if waits_on_other(cells, oth2) {
            let i = choose|i: int|
                0 <= i < cells.len() && cells[i].1 - 1 >= 0 && !cells.contains(below(cells[i]))
                    && #[trigger] oth2.contains(below(cells[i]));
            assert(others.contains(below(cells[i])));
        }
    }
    if !(forall|i: int| 0 <= i < cells.len() ==> !#[trigger] faces_outside(cells, i)) {
        let i = choose|i: int|
            0 <= i < cells.len() && #[trigger] rests(cells, i, occupied, full_rows, others);
        if cells[i].1 - 1 >= 0 {
            lemma_support_grows(cells[i].0, cells[i].1 - 1, occupied, full_rows, others, c);
        }
        assert(rests(cells, i, occ2, full_rows, oth2));
    }
}

/// A placed piece is identified again: the cells that piece `t` covers in
/// some rotation and position are identifiable as piece `t`, and the
/// operation identified for them (the first rotation that fits, at its
/// position) covers exactly those cells.
pub proof fn lemma_identify_round_trip(
    cells: Seq<(i32, i32)>,
    t: char,
    r: int,
    o: (i32, i32),
    op: PieceOperation,
)
    requires
        is_piece_letter(t),
        0 <= r < 4,
        shift_fits(turn_cells(shape_of(t), r), o.0 as int, o.1 as int),
        cells.to_set() == placed_shape(t, r, o).to_set(),
    ensures
        identifiable(cells.to_set(), t),
        describes(op, t, first_turn(cells.to_set(), t), found_position(cells.to_set(), t))
            ==> letter_of(op.piece_type@) == t && op_cells(op).to_set() == cells.to_set(),
{
    let cs = cells.to_set();
    assert(covers_exactly(cs, t, r, o));
    assert(covers_in_turn(cs, t, r));
    lemma_identified_fits(cs, t);
    if describes(op, t, first_turn(cs, t), found_position(cs, t)) {
        lemma_turn_names(first_turn(cs, t));
        assert(op.piece_type@[0] == t);
        assert(op_cells(op) == placed_shape(t, first_turn(cs, t), found_position(cs, t)));
    }
}

/// A piece lying in spawn orientation is identified as such: its cells are
/// identifiable as that piece, and the operation found for them names the
/// piece, the `spawn` rotation and the piece's own centre.
pub proof fn lemma_spawn_identified(t: char, o: (i32, i32), op: PieceOperation)
    requires
        is_piece_letter(t),
        roomy(o.0 as int, o.1 as int),
        describes(
            op,
            t,
            first_turn(placed_shape(t, 0, o).to_set(), t),
            found_position(placed_shape(t, 0, o).to_set(), t),
        ),
    ensures
        identifiable(placed_shape(t, 0, o).to_set(), t),
        op.piece_type@ == seq![t],
        op.rotation@ == seq!['s', 'p', 'a', 'w', 'n'],
        op.x == o.0,
        op.y == o.1,
{
    let cs = placed_shape(t, 0, o).to_set();
    let a = turn_cells(shape_of(t), 0);
    lemma_shape_small(t, 0);
    assert(shift_fits(a, o.0 as int, o.1 as int));
    assert(covers_exactly(cs, t, 0, o));
    assert(covers_in_turn(cs, t, 0));
    assert(first_turn(cs, t) == 0);
    let f = found_position(cs, t);
    assert(covers_exactly(cs, t, 0, f));
    lemma_position_unique(a, o, f);
}

/// The message for a field string that does not have 230 bytes.
pub open spec fn bad_length_message() -> Seq<char> {
    "Invalid field: expected 230 characters"@
}

/// The message for a field without any piece.
pub open spec fn no_pieces_message() -> Seq<char> {
    "No piece-colored cells found. Draw pieces using I/L/O/Z/T/J/S colors, not gray (X) blocks."@
}

/// The message for pieces that cannot all be placed.
pub open spec fn unplaceable_message() -> Seq<char> {
    "Cannot place all pieces. Check: 1) no floating pieces (all must rest on floor/garbage/other pieces), 2) pieces are within 10-column bounds, 3) kick table supports the required rotations."@
}

/// The length in bytes of the UTF-8 encoding of a string.
pub open spec fn field_bytes(s: Seq<char>) -> nat {
    vstd::utf8::encode_utf8(s).len()
}

/// A field string of the right size: 230 bytes, and 230 characters.
pub open spec fn field_sized(s: Seq<char>) -> bool {
    field_bytes(s) == 230 && s.len() == 230
}

/// What splitting the field string `s` gives: an error when it does not have
/// 230 bytes and 230 characters, or holds no piece; otherwise the pieces of the field (see
/// [`pieces_before`]) in greedy placement order, or an error when that order
/// gets stuck.
pub open spec fn split_outcome(s: Seq<char>, res: Result<Vec<PieceOperation>, String>) -> bool {
    if !field_sized(s) {
        res matches Err(e) && e@ == bad_length_message()
    } else {
        let g = field_rows(s);
        if piece_starts(g, 230).len() == 0 {
            res matches Err(e) && e@ == no_pieces_message()
        } else {
            exists|pieces: Seq<PieceOperation>|
                #[trigger] pieces_before(g, 230, pieces) && match res {
                    Ok(v) => greedy_result(pieces, garbage_cells(g), full_rows_of(g), v@),
                    Err(e) => e@ == unplaceable_message() && exists|order: Seq<int>|
                        #[trigger] greedy_stuck(pieces, garbage_cells(g), full_rows_of(g), order),
                }
        }
    }
}

/// Splits a field of 230 characters into pieces and orders them for placement.
///
/// Garbage (`X`) cells are the initial support and rows without empty cells
/// count as cleared lines. Each group of four edge-adjacent cells of one piece
/// letter that forms that piece becomes an operation, in the order the field
/// is scanned (top row first, left to right); the operations are then put in
/// the greedy placement order of [`find_valid_order`].
pub fn auto_split(field_str: &str) -> (res: Result<Vec<PieceOperation>, String>)
    ensures
        split_outcome(field_str@, res),
{
    let grid = match parse_field(field_str) {
        Some(g) => g,
        None => {
            return Err(String::from_str("Invalid field: expected 230 characters"));
        },
    };
    let ghost g = grid_view(grid@);
    assert(g == field_rows(field_str@));
    assert(well_shaped(g));
    // garbage cells are the initial support
    let mut initial_occupied = CellSet::new();
    let mut k: usize = 0;
    while k < 230
        invariant
            k <= 230,
            g == grid_view(grid@),
            well_shaped(g),
            initial_occupied@ == Set::new(
                |c: (i32, i32)| in_field(c) && flat(c) < k && field_at(g, c) == 'X',
            ),
        decreases 230 - k,
    {
        let y = k / 10;
        let x = k % 10;
        let ghost before = initial_occupied@;
        assert(grid@[y as int]@ == g[y as int]);
        if grid[y][x] == 'X' {
            initial_occupied.insert((x as i32, y as i32));
        }
        k += 1;
        assert(initial_occupied@ =~= Set::new(
            |c: (i32, i32)| in_field(c) && flat(c) < k && field_at(g, c) == 'X',
        )) by {
            assert forall|c: (i32, i32)|
                in_field(c) && flat(c) < k && field_at(g, c) == 'X' implies initial_occupied@.contains(c) by {
                if flat(c) == k - 1 {
                    assert(c == (x as i32, y as i32));
                }
            }
        }
    }
    assert(initial_occupied@ =~= garbage_cells(g));
    // rows without empty cells were cleared
    let mut full_rows: Vec<bool> = Vec::new();
    let mut y: usize = 0;
    while y < 23
        invariant
            y <= 23,
            g == grid_view(grid@),
            well_shaped(g),
            full_rows@.len() == y,
            forall|r: int| 0 <= r < y ==> full_rows@[r] == full_rows_of(g)[r],
        decreases 23 - y,
    {
        assert(grid@[y as int]@ == g[y as int]);
        let mut full = true;
        let mut x: usize = 0;
        while x < 10
            invariant
                x <= 10,
                y < 23,
                g == grid_view(grid@),
                well_shaped(g),
                grid@[y as int]@ == g[y as int],
                full == forall|c: int| 0 <= c < x ==> g[y as int][c] != '_',
            decreases 10 - x,
        {
            if grid[y][x] == '_' {
                full = false;
            }
            x += 1;
        }
        full_rows.push(full);
        y += 1;
    }
    assert(full_rows@ =~= full_rows_of(g));
    // scan the field for pieces
    let mut visited: Vec<bool> = Vec::new();
    let mut i: usize = 0;
    while i < 230
        invariant
            i <= 230,
            visited@.len() == i,
            forall|j: int| 0 <= j < i ==> !visited@[j],
        decreases 230 - i,
    {
        visited.push(false);
        i += 1;
    }
    assert(visited@ =~= no_marks());
    proof {
        assert forall|e: (i32, i32)| #[trigger] in_field(e) implies (marked(visited@, e) == seen_before(g, 0, e)) by {
        }
    }
    let mut pieces: Vec<PieceOperation> = Vec::new();
    let mut k: usize = 0;
    while k < 230
        invariant
            k <= 230,
            g == grid_view(grid@),
            well_shaped(g),
            visited@.len() == 230,
            forall|e: (i32, i32)| #[trigger] in_field(e) ==> (marked(visited@, e) == seen_before(g, k as int, e)),
            pieces_before(g, k as int, pieces@),
            forall|i: int| 0 <= i < pieces@.len() ==> op_fits(#[trigger] pieces@[i]),
        decreases 230 - k,
    {
        let x = (k % 10) as i32;
        let y = 22 - (k / 10) as i32;
        let ghost c = (x, y);
        assert(c == scan_cell(k as int));
        assert(in_field(c));
        let idx = (y * 10 + x) as usize;
        assert(grid@[y as int]@ == g[y as int]);
        let cell = grid[y as usize][x as usize];
        assert(cell == field_at(g, c));
        let ghost v_before = visited@;
        let ghost p_before = pieces@;
        if cell == '_' || cell == 'X' || visited[idx] {
            proof {
                assert(!starts_piece(g, k as int));
                assert(piece_starts(g, k + 1) == piece_starts(g, k as int));
                assert forall|e: (i32, i32)| #[trigger] in_field(e) implies (marked(visited@, e)
                    == seen_before(g, k + 1, e)) by {
                    if seen_before(g, k + 1, e) && !seen_before(g, k as int, e) {
                        assert(colored(g, c));
                        assert(connected(g, field_at(g, c), no_marks(), c, e));
                        assert(marked(visited@, c));
                        assert(seen_before(g, k as int, c));
                        let j = choose|j: int|
                            0 <= j < k && colored(g, scan_cell(j)) && #[trigger] connected(
                                g,
                                field_at(g, scan_cell(j)),
                                no_marks(),
                                scan_cell(j),
                                c,
                            );
                        lemma_connected_ends(g, field_at(g, scan_cell(j)), no_marks(), scan_cell(j), c);
                        lemma_connected_join(g, field_at(g, c), no_marks(), scan_cell(j), c, e);
                    }
                    if seen_before(g, k as int, e) {
                        let j = choose|j: int|
                            0 <= j < k && colored(g, scan_cell(j)) && #[trigger] connected(
                                g,
                                field_at(g, scan_cell(j)),
                                no_marks(),
                                scan_cell(j),
                                e,
                            );
                        assert(0 <= j < k + 1);
                    }
                }
            }
            k += 1;
            continue;
        }
        let cells = flood_fill(&grid, x, y, cell, &mut visited);
        proof {
            assert(!seen_before(g, k as int, c));
            assert forall|d: (i32, i32)|
                cells@.contains(d) <==> connected(g, cell, no_marks(), c, d) by {
                if cells@.contains(d) {
                    let p = choose|p: Seq<(i32, i32)>|
                        #[trigger] is_walk(g, cell, v_before, p) && p[0] == c && p.last() == d;
                    lemma_walk_unblocked(g, cell, v_before, p);
                }
                if connected(g, cell, no_marks(), c, d) {
                    lemma_unseen_reach(g, v_before, k as int, c, d);
                }
            }
            assert(component(g, c) =~= cells@.to_set());
            cells@.unique_seq_to_set();
            assert forall|e: (i32, i32)| #[trigger] in_field(e) implies (marked(visited@, e)
                == seen_before(g, k + 1, e)) by {
                if seen_before(g, k + 1, e) && !seen_before(g, k as int, e) {
                    assert(connected(g, field_at(g, c), no_marks(), c, e));
                    assert(cells@.contains(e));
                }
                if seen_before(g, k as int, e) {
                    let j = choose|j: int|
                        0 <= j < k && colored(g, scan_cell(j)) && #[trigger] connected(
                            g,
                            field_at(g, scan_cell(j)),
                            no_marks(),
                            scan_cell(j),
                            e,
                        );
                    assert(0 <= j < k + 1);
                }
                if cells@.contains(e) {
                    assert(connected(g, field_at(g, scan_cell(k as int)), no_marks(), scan_cell(k as int), e));
                }
            }
        }
        if cells.len() == 4 {
            proof {
                assert forall|q: int| 0 <= q < cells@.len() implies in_field(#[trigger] cells@[q]) by {
                    assert(cells@.contains(cells@[q]));
                    lemma_connected_ends(g, cell, no_marks(), c, cells@[q]);
                }
            }
            match identify_piece(&cells, cell) {
                Some(op) => {
                    proof {
                        assert(starts_piece(g, k as int));
                        lemma_identified_fits(component(g, c), cell);
                        lemma_turn_names(first_turn(component(g, c), cell));
                        assert(letter_of(op.piece_type@) == cell);
                    }
                    pieces.push(op);
                    proof {
                        assert(piece_starts(g, k + 1) == piece_starts(g, k as int).push(k as int));
                        assert forall|i: int| 0 <= i < pieces@.len() implies #[trigger] piece_at_step(
                            g,
                            piece_starts(g, k + 1)[i],
                            pieces@[i],
                        ) by {
                            if i < p_before.len() {
                                assert(piece_at_step(g, piece_starts(g, k as int)[i], p_before[i]));
                            }
                        }
                    }
                },
                None => {
                    assert(!starts_piece(g, k as int));
                },
            }
        } else {
            assert(!starts_piece(g, k as int));
        }
        k += 1;
    }
    if pieces.len() == 0 {
        return Err(
            String::from_str(
                "No piece-colored cells found. Draw pieces using I/L/O/Z/T/J/S colors, not gray (X) blocks.",
            ),
        );
    }
    let ghost ps = pieces@;
    match find_valid_order(&pieces, initial_occupied, &full_rows) {
        Some(v) => {
            assert(pieces_before(g, 230, ps));
            Ok(v)
        },
        None => {
            assert(pieces_before(g, 230, ps));
            Err(
                String::from_str(
                    "Cannot place all pieces. Check: 1) no floating pieces (all must rest on floor/garbage/other pieces), 2) pieces are within 10-column bounds, 3) kick table supports the required rotations.",
                ),
            )
        },
    }
}

/// Splits a field string into ordered piece operations (see [`auto_split`]).
pub fn auto_split_field(field_str: String) -> (res: Result<Vec<PieceOperation>, String>)
    ensures
        split_outcome(field_str@, res),
{
    auto_split(field_str.as_str())
}

/// The greedy placement order is determined: two greedy prefixes agree on
/// their common length.
pub proof fn lemma_greedy_prefix_unique(
    ops: Seq<PieceOperation>,
    initial: Set<(i32, i32)>,
    full_rows: Seq<bool>,
    o1: Seq<int>,
    o2: Seq<int>,
)
    requires
        greedy_prefix(ops, initial, full_rows, o1),
        greedy_prefix(ops, initial, full_rows, o2),
        o1.len() <= o2.len(),
    ensures
        o1 == o2.take(o1.len() as int),
    decreases o1.len(),
{
    if o1.len() > 0 {
        let k = o1.len() - 1;
        let p1 = o1.take(k);
        assert(greedy_prefix(ops, initial, full_rows, p1)) by {
            assert forall|i: int| 0 <= i < p1.len() implies #[trigger] greedy_pick(
                ops,
                initial,
                full_rows,
                p1.take(i),
                p1[i],
            ) by {
                assert(p1.take(i) =~= o1.take(i));
                assert(greedy_pick(ops, initial, full_rows, o1.take(i), o1[i]));
            }
        }
        lemma_greedy_prefix_unique(ops, initial, full_rows, p1, o2);
        assert(o2.take(k) =~= p1);
        assert(greedy_pick(ops, initial, full_rows, o1.take(k), o1[k]));
        assert(greedy_pick(ops, initial, full_rows, o2.take(k), o2[k]));
        let a = o1[k];
        let b = o2[k];
        if a < b {
            assert(!can_place_next(ops, initial, full_rows, p1, a));
        } else if b < a {
            assert(!can_place_next(ops, initial, full_rows, p1, b));
        }
        assert(o1 =~= o2.take(o1.len() as int));
    }
}

/// Either all operations get a greedy placement order or the greedy order
/// gets stuck, never both; and the complete order is unique.
pub proof fn lemma_greedy_outcome_exclusive(
    ops: Seq<PieceOperation>,
    initial: Set<(i32, i32)>,
    full_rows: Seq<bool>,
    done: Seq<int>,
    other: Seq<int>,
)
    requires
        greedy_prefix(ops, initial, full_rows, done),
        done.len() == ops.len(),
    ensures
        !greedy_stuck(ops, initial, full_rows, other),
        greedy_prefix(ops, initial, full_rows, other) && other.len() == ops.len() ==> other
            == done,
{
    if greedy_prefix(ops, initial, full_rows, other) && other.len() <= done.len() {
        lemma_greedy_prefix_unique(ops, initial, full_rows, other, done);
        if other.len() < ops.len() {
            let i = done[other.len() as int];
            assert(done.take(other.len() as int) =~= other);
            assert(greedy_pick(ops, initial, full_rows, done.take(other.len() as int), i));
            assert(!other.contains(i));
            assert(can_place_next(ops, initial, full_rows, other, i));
        } else {
            assert(done.take(done.len() as int) =~= done);
        }
    }
}

/// Every piece in a split result lies inside the visible field, and each can
/// be placed once the pieces before it stand.
pub proof fn lemma_split_pieces_placeable(s: Seq<char>, v: Vec<PieceOperation>)
    requires
        split_outcome(s, Ok(v)),
    ensures
        forall|k: int| 0 <= k < v@.len() ==> all_in_field(op_cells(#[trigger] v@[k])),
        exists|pieces: Seq<PieceOperation>, order: Seq<int>|
            #[trigger] greedy_prefix(
                pieces,
                garbage_cells(field_rows(s)),
                full_rows_of(field_rows(s)),
                order,
            ) && order.len() == v@.len() && forall|k: int|
                0 <= k < v@.len() ==> v@[k] == pieces[order[k]] && can_place_next(
                    pieces,
                    garbage_cells(field_rows(s)),
                    full_rows_of(field_rows(s)),
                    order.take(k),
                    order[k],
                ),
{
    let g = field_rows(s);
    let pieces = choose|pieces: Seq<PieceOperation>|
        #[trigger] pieces_before(g, 230, pieces) && greedy_result(
            pieces,
            garbage_cells(g),
            full_rows_of(g),
            v@,
        );
    let order = choose|order: Seq<int>|
        #[trigger] greedy_prefix(pieces, garbage_cells(g), full_rows_of(g), order) && order.len()
            == pieces.len() && v@.len() == pieces.len() && forall|k: int|
            0 <= k < v@.len() ==> v@[k] == pieces[order[k]];
    assert forall|k: int| 0 <= k < v@.len() implies all_in_field(op_cells(#[trigger] v@[k]))
        && can_place_next(pieces, garbage_cells(g), full_rows_of(g), order.take(k), order[k]) by {
        assert(greedy_pick(pieces, garbage_cells(g), full_rows_of(g), order.take(k), order[k]));
    }
}

/// Each piece found in the field covers exactly the group of cells whose first
/// cell the scan met, and every one of those cells holds the piece's letter.
pub proof fn lemma_pieces_match_field(g: Seq<Seq<char>>, pieces: Seq<PieceOperation>, i: int)
    requires
        pieces_before(g, 230, pieces),
        0 <= i < pieces.len(),
    ensures
        op_cells(pieces[i]).to_set() == component(g, scan_cell(piece_starts(g, 230)[i])),
        forall|d: (i32, i32)|
            op_cells(pieces[i]).contains(d) ==> field_at(g, d) == letter_of(
                pieces[i].piece_type@,
            ),
{
    lemma_piece_starts_qualify(g, 230);
    let k = piece_starts(g, 230)[i];
    let c = scan_cell(k);
    let t = field_at(g, c);
    let cs = component(g, c);
    assert(piece_at_step(g, k, pieces[i]));
    assert(starts_piece(g, k));
    lemma_identified_fits(cs, t);
    lemma_turn_names(first_turn(cs, t));
    assert(letter_of(pieces[i].piece_type@) == t);
    assert(op_cells(pieces[i]) == placed_shape(t, first_turn(cs, t), found_position(cs, t)));
    assert forall|d: (i32, i32)| op_cells(pieces[i]).contains(d) implies field_at(g, d) == t by {
        assert(op_cells(pieces[i]).to_set().contains(d));
        assert(cs.contains(d));
        lemma_connected_ends(g, t, no_marks(), c, d);
    }
}

proof fn lemma_piece_starts_qualify(g: Seq<Seq<char>>, k: int)
    ensures
        forall|i: int|
            0 <= i < piece_starts(g, k).len() ==> starts_piece(g, #[trigger] piece_starts(g, k)[i]),
    decreases k,
{
    if k > 0 {
        lemma_piece_starts_qualify(g, k - 1);
        let prev = piece_starts(g, k - 1);
        assert forall|i: int|
            0 <= i < piece_starts(g, k).len() implies starts_piece(
            g,
            #[trigger] piece_starts(g, k)[i],
        ) by {
            if i < prev.len() {
                assert(piece_starts(g, k)[i] == prev[i]);
            }
        }
    }
}

} // verus!
