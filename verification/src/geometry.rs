//! Piece shapes and rotations on the field grid (x to the right, y upwards).

use vstd::prelude::*;

verus! {

/// The four cells of a piece in spawn orientation, relative to its centre.
/// Pieces other than I, L, O, Z, T, J and S have no cells.
pub open spec fn shape_of(piece: char) -> Seq<(i32, i32)> {
    if piece == 'I' {
        seq![(-1i32, 0i32), (0i32, 0i32), (1i32, 0i32), (2i32, 0i32)]
    } else if piece == 'L' {
        seq![(-1i32, 0i32), (0i32, 0i32), (1i32, 0i32), (1i32, 1i32)]
    } else if piece == 'O' {
        seq![(0i32, 0i32), (1i32, 0i32), (0i32, 1i32), (1i32, 1i32)]
    } else if piece == 'Z' {
        seq![(0i32, 0i32), (1i32, 0i32), (-1i32, 1i32), (0i32, 1i32)]
    } else if piece == 'T' {
        seq![(-1i32, 0i32), (0i32, 0i32), (1i32, 0i32), (0i32, 1i32)]
    } else if piece == 'J' {
        seq![(-1i32, 0i32), (0i32, 0i32), (1i32, 0i32), (-1i32, 1i32)]
    } else if piece == 'S' {
        seq![(-1i32, 0i32), (0i32, 0i32), (0i32, 1i32), (1i32, 1i32)]
    } else {
        Seq::empty()
    }
}

/// The seven piece letters.
pub open spec fn is_piece_letter(piece: char) -> bool {
    piece == 'I' || piece == 'L' || piece == 'O' || piece == 'Z' || piece == 'T' || piece == 'J'
        || piece == 'S'
}

/// Quarter turns named by a rotation: `right` is one clockwise turn, `reverse`
/// two, `left` three; every other name (`spawn` among them) is none.
pub open spec fn quarter_turns(rotation: Seq<char>) -> int {
    if rotation == seq!['r', 'i', 'g', 'h', 't'] {
        1
    } else if rotation == seq!['r', 'e', 'v', 'e', 'r', 's', 'e'] {
        2
    } else if rotation == seq!['l', 'e', 'f', 't'] {
        3
    } else {
        0
    }
}

/// The name of a rotation by its number of clockwise quarter turns.
pub open spec fn rotation_name(turns: int) -> Seq<char> {
    if turns == 0 {
        seq!['s', 'p', 'a', 'w', 'n']
    } else if turns == 1 {
        seq!['r', 'i', 'g', 'h', 't']
    } else if turns == 2 {
        seq!['r', 'e', 'v', 'e', 'r', 's', 'e']
    } else {
        seq!['l', 'e', 'f', 't']
    }
}

/// A cell turned clockwise by the given number of quarter turns about the origin.
pub open spec fn turn_cell(c: (i32, i32), turns: int) -> (i32, i32) {
    if turns == 1 {
        (c.1, (-c.0) as i32)
    } else if turns == 2 {
        ((-c.0) as i32, (-c.1) as i32)
    } else if turns == 3 {
        ((-c.1) as i32, c.0)
    } else {
        c
    }
}

/// Every coordinate can be negated without leaving `i32`.
pub open spec fn negatable(cells: Seq<(i32, i32)>) -> bool {
    forall|i: int| #![trigger cells[i]] 0 <= i < cells.len() ==> cells[i].0 > i32::MIN && cells[i].1 > i32::MIN
}

pub open spec fn turn_cells(cells: Seq<(i32, i32)>, turns: int) -> Seq<(i32, i32)> {
    cells.map_values(|c: (i32, i32)| turn_cell(c, turns))
}

/// Cells moved by an offset.
pub open spec fn shift_cells(cells: Seq<(i32, i32)>, dx: int, dy: int) -> Seq<(i32, i32)> {
    cells.map_values(|c: (i32, i32)| ((c.0 + dx) as i32, (c.1 + dy) as i32))
}

/// Moving the cells by the offset stays inside `i32`.
pub open spec fn shift_fits(cells: Seq<(i32, i32)>, dx: int, dy: int) -> bool {
    forall|i: int|
        #![trigger cells[i]]
        0 <= i < cells.len() ==> i32::MIN <= cells[i].0 + dx <= i32::MAX && i32::MIN <= cells[i].1
            + dy <= i32::MAX
}

/// The cells a piece covers when its centre stands at (x, y) in the given rotation.
pub open spec fn piece_cells(piece: char, rotation: Seq<char>, x: int, y: int) -> Seq<(i32, i32)> {
    shift_cells(turn_cells(shape_of(piece), quarter_turns(rotation)), x, y)
}

/// The piece can be placed at (x, y) in this rotation without leaving `i32`.
pub open spec fn placement_fits(piece: char, rotation: Seq<char>, x: int, y: int) -> bool {
    shift_fits(turn_cells(shape_of(piece), quarter_turns(rotation)), x, y)
}

/// Whether two strings hold the same characters.
pub fn str_equal(a: &str, b: &str) -> (res: bool)
    ensures
        res == (a@ == b@),
{
    let n = a.unicode_len();
    let m = b.unicode_len();
    if n != m {
        return false;
    }
    let mut i: usize = 0;
    while i < n
        invariant
            n == a@.len(),
            m == b@.len(),
            n == m,
            i <= n,
            forall|j: int| 0 <= j < i ==> a@[j] == b@[j],
        decreases n - i,
    {
        if a.get_char(i) != b.get_char(i) {
            return false;
        }
        i += 1;
    }
    assert(a@ =~= b@);
    true
}

/// The number of clockwise quarter turns a rotation name stands for.
pub fn rotation_turns(rotation: &str) -> (turns: u8)
    ensures
        turns as int == quarter_turns(rotation@),
{
    proof {
        reveal_strlit("right");
        reveal_strlit("reverse");
        reveal_strlit("left");
        assert("right"@ =~= seq!['r', 'i', 'g', 'h', 't']);
        assert("reverse"@ =~= seq!['r', 'e', 'v', 'e', 'r', 's', 'e']);
        assert("left"@ =~= seq!['l', 'e', 'f', 't']);
    }
    if str_equal(rotation, "right") {
        1
    } else if str_equal(rotation, "reverse") {
        2
    } else if str_equal(rotation, "left") {
        3
    } else {
        0
    }
}

/// The cells of a piece in spawn orientation, relative to its centre; empty for
/// anything that is not a piece letter.
pub fn spawn_shape(piece: char) -> (shape: Vec<(i32, i32)>)
    ensures
        shape@ == shape_of(piece),
{
    let v = match piece {
        'I' => vec![(-1, 0), (0, 0), (1, 0), (2, 0)],
        'L' => vec![(-1, 0), (0, 0), (1, 0), (1, 1)],
        'O' => vec![(0, 0), (1, 0), (0, 1), (1, 1)],
        'Z' => vec![(0, 0), (1, 0), (-1, 1), (0, 1)],
        'T' => vec![(-1, 0), (0, 0), (1, 0), (0, 1)],
        'J' => vec![(-1, 0), (0, 0), (1, 0), (-1, 1)],
        'S' => vec![(-1, 0), (0, 0), (0, 1), (1, 1)],
        _ => vec![],
    };
    assert(v@ =~= shape_of(piece));
    v
}

/// Turns the cells clockwise about the origin: once for `right`, twice for
/// `reverse`, three times for `left`; any other name leaves them as they are.
pub fn rotate(positions: &[(i32, i32)], rotation: &str) -> (res: Vec<(i32, i32)>)
    requires
        negatable(positions@),
    ensures
        res@ == turn_cells(positions@, quarter_turns(rotation@)),
{
    let turns = rotation_turns(rotation);
    let mut out: Vec<(i32, i32)> = Vec::new();
    let mut i: usize = 0;
    while i < positions.len()
        invariant
            i <= positions@.len(),
            negatable(positions@),
            turns as int == quarter_turns(rotation@),
            out@ =~= turn_cells(positions@.subrange(0, i as int), turns as int),
        decreases positions@.len() - i,
    {
        let (x, y) = positions[i];
        let c = if turns == 1 {
            (y, -x)
        } else if turns == 2 {
            (-x, -y)
        } else if turns == 3 {
            (-y, x)
        } else {
            (x, y)
        };
        out.push(c);
        i += 1;
        assert(positions@.subrange(0, i as int) =~= positions@.subrange(0, i - 1).push((x, y)));
    }
    assert(positions@.subrange(0, positions@.len() as int) =~= positions@);
    out
}

/// The shapes of the piece letters are small enough to be turned and moved freely.
pub proof fn lemma_shape_small(piece: char, turns: int)
    ensures
        forall|i: int|
            #![trigger turn_cells(shape_of(piece), turns)[i]]
            0 <= i < shape_of(piece).len() ==> -2 <= turn_cells(shape_of(piece), turns)[i].0 <= 2
                && -2 <= turn_cells(shape_of(piece), turns)[i].1 <= 2,
        negatable(shape_of(piece)),
        turn_cells(shape_of(piece), turns).len() == shape_of(piece).len(),
        shape_of(piece).len() == 0 || shape_of(piece).len() == 4,
        shape_of(piece).len() == 4 <==> is_piece_letter(piece),
{
}

/// The cells a piece covers with its centre at (x, y) in the given rotation.
pub fn cell_positions(piece_type: char, rotation: &str, x: i32, y: i32) -> (cells: Vec<(i32, i32)>)
    requires
        placement_fits(piece_type, rotation@, x as int, y as int),
    ensures
        cells@ == piece_cells(piece_type, rotation@, x as int, y as int),
{
    proof {
        lemma_shape_small(piece_type, quarter_turns(rotation@));
    }
    let shape = spawn_shape(piece_type);
    let turned = rotate(&shape, rotation);
    let mut out: Vec<(i32, i32)> = Vec::new();
    let mut i: usize = 0;
    while i < turned.len()
        invariant
            i <= turned@.len(),
            turned@ == turn_cells(shape_of(piece_type), quarter_turns(rotation@)),
            shift_fits(turned@, x as int, y as int),
            out@ =~= shift_cells(turned@.subrange(0, i as int), x as int, y as int),
        decreases turned@.len() - i,
    {
        let (px, py) = turned[i];
        out.push((px + x, py + y));
        i += 1;
        assert(turned@.subrange(0, i as int) =~= turned@.subrange(0, i - 1).push((px, py)));
    }
    assert(turned@.subrange(0, turned@.len() as int) =~= turned@);
    out
}

/// The cell at offset (dx, dy) from (x, y).
pub open spec fn cell_at(x: int, y: int, dx: int, dy: int) -> (i32, i32) {
    ((x + dx) as i32, (y + dy) as i32)
}

/// The centre (x, y) lies far enough from the ends of `i32` for any piece around it.
pub open spec fn roomy(x: int, y: int) -> bool {
    i32::MIN + 2 <= x <= i32::MAX - 2 && i32::MIN + 2 <= y <= i32::MAX - 2
}

/// In spawn orientation every piece lies on the row of its centre and the row
/// above: the I piece flat from one left of the centre to two right of it; L,
/// J and T as three cells centred on (x, y) with the fourth above the right
/// end, the left end or the middle; O as the square whose lower-left cell is
/// the centre; Z and S as two cells on the centre row and two above, shifted
/// one column left (Z) or right (S).
pub proof fn lemma_spawn_cells(x: int, y: int)
    requires
        roomy(x, y),
    ensures
        piece_cells('I', seq!['s', 'p', 'a', 'w', 'n'], x, y) == seq![
            cell_at(x, y, -1, 0),
            cell_at(x, y, 0, 0),
            cell_at(x, y, 1, 0),
            cell_at(x, y, 2, 0),
        ],
        piece_cells('L', seq!['s', 'p', 'a', 'w', 'n'], x, y) == seq![
            cell_at(x, y, -1, 0),
            cell_at(x, y, 0, 0),
            cell_at(x, y, 1, 0),
            cell_at(x, y, 1, 1),
        ],
        piece_cells('O', seq!['s', 'p', 'a', 'w', 'n'], x, y) == seq![
            cell_at(x, y, 0, 0),
            cell_at(x, y, 1, 0),
            cell_at(x, y, 0, 1),
            cell_at(x, y, 1, 1),
        ],
        piece_cells('Z', seq!['s', 'p', 'a', 'w', 'n'], x, y) == seq![
            cell_at(x, y, 0, 0),
            cell_at(x, y, 1, 0),
            cell_at(x, y, -1, 1),
            cell_at(x, y, 0, 1),
        ],
        piece_cells('T', seq!['s', 'p', 'a', 'w', 'n'], x, y) == seq![
            cell_at(x, y, -1, 0),
            cell_at(x, y, 0, 0),
            cell_at(x, y, 1, 0),
            cell_at(x, y, 0, 1),
        ],
        piece_cells('J', seq!['s', 'p', 'a', 'w', 'n'], x, y) == seq![
            cell_at(x, y, -1, 0),
            cell_at(x, y, 0, 0),
            cell_at(x, y, 1, 0),
            cell_at(x, y, -1, 1),
        ],
        piece_cells('S', seq!['s', 'p', 'a', 'w', 'n'], x, y) == seq![
            cell_at(x, y, -1, 0),
            cell_at(x, y, 0, 0),
            cell_at(x, y, 0, 1),
            cell_at(x, y, 1, 1),
        ],
{
    let spawn = seq!['s', 'p', 'a', 'w', 'n'];
    assert(spawn[0] == 's');
    assert(quarter_turns(spawn) == 0);
    assert(piece_cells('I', spawn, x, y) =~= seq![cell_at(x, y, -1, 0), cell_at(x, y, 0, 0), cell_at(x, y, 1, 0), cell_at(x, y, 2, 0)]);
    assert(piece_cells('L', spawn, x, y) =~= seq![cell_at(x, y, -1, 0), cell_at(x, y, 0, 0), cell_at(x, y, 1, 0), cell_at(x, y, 1, 1)]);
    assert(piece_cells('O', spawn, x, y) =~= seq![cell_at(x, y, 0, 0), cell_at(x, y, 1, 0), cell_at(x, y, 0, 1), cell_at(x, y, 1, 1)]);
    assert(piece_cells('Z', spawn, x, y) =~= seq![cell_at(x, y, 0, 0), cell_at(x, y, 1, 0), cell_at(x, y, -1, 1), cell_at(x, y, 0, 1)]);
    assert(piece_cells('T', spawn, x, y) =~= seq![cell_at(x, y, -1, 0), cell_at(x, y, 0, 0), cell_at(x, y, 1, 0), cell_at(x, y, 0, 1)]);
    assert(piece_cells('J', spawn, x, y) =~= seq![cell_at(x, y, -1, 0), cell_at(x, y, 0, 0), cell_at(x, y, 1, 0), cell_at(x, y, -1, 1)]);
    assert(piece_cells('S', spawn, x, y) =~= seq![cell_at(x, y, -1, 0), cell_at(x, y, 0, 0), cell_at(x, y, 0, 1), cell_at(x, y, 1, 1)]);
}

/// The four orientations of the I and T pieces: `right` is a clockwise quarter
/// turn, so the I piece stands upright from one row above its centre to two
/// below, `reverse` lies flat from two left of the centre to one right, and
/// `left` stands from two above to one below; the T piece points up in spawn,
/// right after `right`, down after `reverse` and left after `left`.
pub proof fn lemma_turned_cells(x: int, y: int)
    requires
        roomy(x, y),
    ensures
        piece_cells('I', seq!['r', 'i', 'g', 'h', 't'], x, y) == seq![
            cell_at(x, y, 0, 1),
            cell_at(x, y, 0, 0),
            cell_at(x, y, 0, -1),
            cell_at(x, y, 0, -2),
        ],
        piece_cells('I', seq!['r', 'e', 'v', 'e', 'r', 's', 'e'], x, y) == seq![
            cell_at(x, y, 1, 0),
            cell_at(x, y, 0, 0),
            cell_at(x, y, -1, 0),
            cell_at(x, y, -2, 0),
        ],
        piece_cells('I', seq!['l', 'e', 'f', 't'], x, y) == seq![
            cell_at(x, y, 0, -1),
            cell_at(x, y, 0, 0),
            cell_at(x, y, 0, 1),
            cell_at(x, y, 0, 2),
        ],
        piece_cells('T', seq!['r', 'i', 'g', 'h', 't'], x, y) == seq![
            cell_at(x, y, 0, 1),
            cell_at(x, y, 0, 0),
            cell_at(x, y, 0, -1),
            cell_at(x, y, 1, 0),
        ],
        piece_cells('T', seq!['r', 'e', 'v', 'e', 'r', 's', 'e'], x, y) == seq![
            cell_at(x, y, 1, 0),
            cell_at(x, y, 0, 0),
            cell_at(x, y, -1, 0),
            cell_at(x, y, 0, -1),
        ],
        piece_cells('T', seq!['l', 'e', 'f', 't'], x, y) == seq![
            cell_at(x, y, 0, -1),
            cell_at(x, y, 0, 0),
            cell_at(x, y, 0, 1),
            cell_at(x, y, -1, 0),
        ],
{
    let r = seq!['r', 'i', 'g', 'h', 't'];
    let v = seq!['r', 'e', 'v', 'e', 'r', 's', 'e'];
    let l = seq!['l', 'e', 'f', 't'];
    assert(quarter_turns(r) == 1);
    assert(quarter_turns(v) == 2);
    assert(quarter_turns(l) == 3);
    assert(piece_cells('I', r, x, y) =~= seq![cell_at(x, y, 0, 1), cell_at(x, y, 0, 0), cell_at(x, y, 0, -1), cell_at(x, y, 0, -2)]);
    assert(piece_cells('I', v, x, y) =~= seq![cell_at(x, y, 1, 0), cell_at(x, y, 0, 0), cell_at(x, y, -1, 0), cell_at(x, y, -2, 0)]);
    assert(piece_cells('I', l, x, y) =~= seq![cell_at(x, y, 0, -1), cell_at(x, y, 0, 0), cell_at(x, y, 0, 1), cell_at(x, y, 0, 2)]);
    assert(piece_cells('T', r, x, y) =~= seq![cell_at(x, y, 0, 1), cell_at(x, y, 0, 0), cell_at(x, y, 0, -1), cell_at(x, y, 1, 0)]);
    assert(piece_cells('T', v, x, y) =~= seq![cell_at(x, y, 1, 0), cell_at(x, y, 0, 0), cell_at(x, y, -1, 0), cell_at(x, y, 0, -1)]);
    assert(piece_cells('T', l, x, y) =~= seq![cell_at(x, y, 0, -1), cell_at(x, y, 0, 0), cell_at(x, y, 0, 1), cell_at(x, y, -1, 0)]);
}

} // verus!
