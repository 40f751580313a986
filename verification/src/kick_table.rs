//! Wall-kick tables: for a piece and a rotation from one orientation to
//! another, the offsets to try in order.
//!
//! Orientations are numbered 0 = spawn (N), 1 = right (E), 2 = reverse (S),
//! 3 = left (W).

use vstd::prelude::*;
use crate::text::{
    chars_equal_str, chars_of, find_char, first_index, int_text, is_digit, lemma_int_text_chars,
    lemma_parse_int_text, parse_i32, parse_i32_spec, slice_range, split_chars, split_on, strip_end,
    strip_leading, strip_start, strip_trailing, trim, trim_end, trim_start, trimmed,
};

verus! {

/// A piece letter and a rotation from one orientation to another.
pub type KickKey = (char, usize, usize);

/// Kick offsets by piece and rotation.
pub struct KickTable {
    entries: Vec<(KickKey, Vec<(i32, i32)>)>,
}

/// The table of the entries, a later entry for a key replacing an earlier one.
pub open spec fn entries_map(entries: Seq<(KickKey, Vec<(i32, i32)>)>) -> Map<KickKey, Seq<(i32, i32)>>
    decreases entries.len(),
{
    if entries.len() == 0 {
        Map::empty()
    } else {
        entries_map(entries.drop_last()).insert(entries.last().0, entries.last().1@)
    }
}

impl View for KickTable {
    type V = Map<KickKey, Seq<(i32, i32)>>;

    closed spec fn view(&self) -> Map<KickKey, Seq<(i32, i32)>> {
        entries_map(self.entries@)
    }
}

/// The offsets for a piece and rotation: those defined for it, else those
/// defined for L (which most tables define first and refer to), else none.
pub open spec fn kicks_for(
    table: Map<KickKey, Seq<(i32, i32)>>,
    piece: char,
    from: usize,
    to: usize,
) -> Seq<(i32, i32)> {
    if table.contains_key((piece, from, to)) {
        table[(piece, from, to)]
    } else if piece != 'L' && table.contains_key(('L', from, to)) {
        table[('L', from, to)]
    } else {
        Seq::empty()
    }
}

proof fn lemma_entries_lookup(entries: Seq<(KickKey, Vec<(i32, i32)>)>, k: KickKey, i: int)
    requires
        0 <= i < entries.len(),
        entries[i].0 == k,
        forall|j: int| i < j < entries.len() ==> entries[j].0 != k,
    ensures
        entries_map(entries).contains_key(k),
        entries_map(entries)[k] == entries[i].1@,
    decreases entries.len(),
{
    if i < entries.len() - 1 {
        lemma_entries_lookup(entries.drop_last(), k, i);
    }
}

proof fn lemma_entries_absent(entries: Seq<(KickKey, Vec<(i32, i32)>)>, k: KickKey)
    requires
        forall|j: int| 0 <= j < entries.len() ==> entries[j].0 != k,
    ensures
        !entries_map(entries).contains_key(k),
    decreases entries.len(),
{
    if entries.len() > 0 {
        lemma_entries_absent(entries.drop_last(), k);
    }
}

impl KickTable {
    /// An empty table.
    pub fn empty() -> (t: Self)
        ensures
            t@ == Map::<KickKey, Seq<(i32, i32)>>::empty(),
    {
        KickTable { entries: Vec::new() }
    }

    /// Sets the offsets for a key.
    pub fn insert(&mut self, key: KickKey, offsets: Vec<(i32, i32)>)
        ensures
            final(self)@ == old(self)@.insert(key, offsets@),
    {
        self.entries.push((key, offsets));
        assert(self.entries@.drop_last() =~= old(self).entries@);
    }

    /// The index of the entry for the key that counts: the last one.
    fn find(&self, key: KickKey) -> (r: Option<usize>)
        ensures
            r is None ==> !self@.contains_key(key),
            r matches Some(i) ==> i < self.entries@.len() && self@.contains_key(key)
                && self@[key] == self.entries@[i as int].1@,
    {
        let mut i = self.entries.len();
        while i > 0
            invariant
                i <= self.entries@.len(),
                forall|j: int| i <= j < self.entries@.len() ==> self.entries@[j].0 != key,
            decreases i,
        {
            let k = self.entries[i - 1].0;
            if k.0 == key.0 && k.1 == key.1 && k.2 == key.2 {
                proof {
                    lemma_entries_lookup(self.entries@, key, i - 1);
                }
                return Some(i - 1);
            }
            i -= 1;
        }
        proof {
            lemma_entries_absent(self.entries@, key);
        }
        None
    }

    /// The offsets defined for the key, if any.
    pub fn lookup(&self, key: KickKey) -> (r: Option<&Vec<(i32, i32)>>)
        ensures
            r is None <==> !self@.contains_key(key),
            r matches Some(v) ==> v@ == self@[key],
    {
        match self.find(key) {
            Some(i) => Some(&self.entries[i].1),
            None => None,
        }
    }

    /// The kick offsets for a rotation (see [`kicks_for`]); empty when none is defined.
    pub fn get(&self, piece: char, from: usize, to: usize) -> (r: &[(i32, i32)])
        ensures
            r@ == kicks_for(self@, piece, from, to),
    {
        if let Some(i) = self.find((piece, from, to)) {
            return self.entries[i].1.as_slice();
        }
        if piece != 'L' {
            if let Some(i) = self.find(('L', from, to)) {
                return self.entries[i].1.as_slice();
            }
        }
        &[]
    }
}

/// The eight rotations that standard kick tables define: quarter turns
/// both ways from each orientation.
pub open spec fn srs_rotation(from: usize, to: usize) -> bool {
    (from == 0 && to == 1) || (from == 1 && to == 2) || (from == 2 && to == 3) || (from == 3 && to
        == 0) || (from == 0 && to == 3) || (from == 3 && to == 2) || (from == 2 && to == 1) || (
    from == 1 && to == 0)
}

/// The pieces sharing one standard kick table.
pub open spec fn jlstz(piece: char) -> bool {
    piece == 'J' || piece == 'L' || piece == 'S' || piece == 'Z' || piece == 'T'
}

/// The standard (SRS) kicks for J, L, S, Z and T.
pub open spec fn jlstz_kicks(from: usize, to: usize) -> Seq<(i32, i32)> {
    if (from == 0 && to == 1) || (from == 2 && to == 1) {
        seq![(0i32, 0i32), (-1i32, 0i32), (-1i32, 1i32), (0i32, -2i32), (-1i32, -2i32)]
    } else if (from == 1 && to == 2) || (from == 1 && to == 0) {
        seq![(0i32, 0i32), (1i32, 0i32), (1i32, -1i32), (0i32, 2i32), (1i32, 2i32)]
    } else if (from == 2 && to == 3) || (from == 0 && to == 3) {
        seq![(0i32, 0i32), (1i32, 0i32), (1i32, 1i32), (0i32, -2i32), (1i32, -2i32)]
    } else {
        seq![(0i32, 0i32), (-1i32, 0i32), (-1i32, -1i32), (0i32, 2i32), (-1i32, 2i32)]
    }
}

/// The standard (SRS) kicks for I.
pub open spec fn i_kicks(from: usize, to: usize) -> Seq<(i32, i32)> {
    if (from == 0 && to == 1) || (from == 3 && to == 2) {
        seq![(0i32, 0i32), (-2i32, 0i32), (1i32, 0i32), (-2i32, -1i32), (1i32, 2i32)]
    } else if (from == 1 && to == 2) || (from == 0 && to == 3) {
        seq![(0i32, 0i32), (-1i32, 0i32), (2i32, 0i32), (-1i32, 2i32), (2i32, -1i32)]
    } else if (from == 2 && to == 3) || (from == 1 && to == 0) {
        seq![(0i32, 0i32), (2i32, 0i32), (-1i32, 0i32), (2i32, 1i32), (-1i32, -2i32)]
    } else {
        seq![(0i32, 0i32), (1i32, 0i32), (-2i32, 0i32), (1i32, -2i32), (-2i32, 1i32)]
    }
}

/// The standard (SRS) kick table: for J, L, S, Z, T and I, each of the eight
/// quarter-turn rotations.
pub open spec fn srs_table() -> Map<KickKey, Seq<(i32, i32)>> {
    Map::new(
        |k: KickKey| (jlstz(k.0) || k.0 == 'I') && srs_rotation(k.1, k.2),
        |k: KickKey| if k.0 == 'I' { i_kicks(k.1, k.2) } else { jlstz_kicks(k.1, k.2) },
    )
}

/// The standard kicks of one piece.
pub open spec fn piece_srs(piece: char) -> Map<KickKey, Seq<(i32, i32)>> {
    Map::new(
        |k: KickKey| k.0 == piece && srs_rotation(k.1, k.2),
        |k: KickKey| if k.0 == 'I' { i_kicks(k.1, k.2) } else { jlstz_kicks(k.1, k.2) },
    )
}

/// The opposite offset.
pub open spec fn negated(o: (i32, i32)) -> (i32, i32) {
    ((-o.0) as i32, (-o.1) as i32)
}

/// In the standard table every rotation has five tests, the first of them no
/// shift at all, the rotation back has a table too, and its tests are the
/// same shifts reversed; J, L, S, Z and T share one table.
pub proof fn lemma_srs_kicks_undo(k: KickKey)
    requires
        srs_table().dom().contains(k),
    ensures
        srs_table().dom().contains((k.0, k.2, k.1)),
        srs_table()[k].len() == 5,
        srs_table()[k][0] == (0i32, 0i32),
        forall|i: int|
            0 <= i < 5 ==> #[trigger] srs_table()[(k.0, k.2, k.1)][i] == negated(srs_table()[k][i]),
        jlstz(k.0) ==> srs_table()[k] == srs_table()[('T', k.1, k.2)],
{
    let back = (k.0, k.2, k.1);
    assert(srs_table().dom().contains(back));
    assert forall|i: int| 0 <= i < 5 implies #[trigger] srs_table()[back][i] == negated(srs_table()[k][i]) by {
        if k.0 == 'I' {
            assert(srs_table()[back] == i_kicks(k.2, k.1));
            assert(srs_table()[k] == i_kicks(k.1, k.2));
        } else {
            assert(srs_table()[back] == jlstz_kicks(k.2, k.1));
            assert(srs_table()[k] == jlstz_kicks(k.1, k.2));
        }
    }
    if jlstz(k.0) {
        assert(srs_table().dom().contains(('T', k.1, k.2)));
    }
}

fn insert_piece_kicks(table: &mut KickTable, piece: char)
    requires
        jlstz(piece),
    ensures
        final(table)@ == old(table)@.union_prefer_right(piece_srs(piece)),
{
    table.insert((piece, 0, 1), vec![(0,0),(-1,0),(-1,1),(0,-2),(-1,-2)]);
    table.insert((piece, 1, 2), vec![(0,0),(1,0),(1,-1),(0,2),(1,2)]);
    table.insert((piece, 2, 3), vec![(0,0),(1,0),(1,1),(0,-2),(1,-2)]);
    table.insert((piece, 3, 0), vec![(0,0),(-1,0),(-1,-1),(0,2),(-1,2)]);
    table.insert((piece, 0, 3), vec![(0,0),(1,0),(1,1),(0,-2),(1,-2)]);
    table.insert((piece, 3, 2), vec![(0,0),(-1,0),(-1,-1),(0,2),(-1,2)]);
    table.insert((piece, 2, 1), vec![(0,0),(-1,0),(-1,1),(0,-2),(-1,-2)]);
    table.insert((piece, 1, 0), vec![(0,0),(1,0),(1,-1),(0,2),(1,2)]);
    assert(table@ =~= old(table)@.union_prefer_right(piece_srs(piece)));
}

/// The built-in standard (SRS) kick table, used when no file is given.
pub fn srs_kick_table() -> (t: KickTable)
    ensures
        t@ == srs_table(),
{
    let mut table = KickTable::empty();
    let pieces = ['J', 'L', 'S', 'Z', 'T'];
    let mut n: usize = 0;
    while n < 5
        invariant
            n <= 5,
            pieces@ == seq!['J', 'L', 'S', 'Z', 'T'],
            table@ == Map::new(
                |k: KickKey| (exists|m: int| 0 <= m < n && k.0 == pieces@[m]) && srs_rotation(k.1, k.2),
                |k: KickKey| jlstz_kicks(k.1, k.2),
            ),
        decreases 5 - n,
    {
        let ghost before = table@;
        insert_piece_kicks(&mut table, pieces[n]);
        n += 1;
        assert(table@ =~= Map::new(
            |k: KickKey| (exists|m: int| 0 <= m < n && k.0 == pieces@[m]) && srs_rotation(k.1, k.2),
            |k: KickKey| jlstz_kicks(k.1, k.2),
        )) by {
            assert forall|k: KickKey| (exists|m: int| 0 <= m < n && k.0 == pieces@[m]) implies
                table@.contains_key(k) || !srs_rotation(k.1, k.2) by {
                let m = choose|m: int| 0 <= m < n && k.0 == pieces@[m];
                if m < n - 1 {
                    assert(exists|m2: int| 0 <= m2 < n - 1 && k.0 == pieces@[m2]);
                }
            }
        }
    }
    let ghost jl = table@;
    table.insert(('I', 0, 1), vec![(0,0),(-2,0),(1,0),(-2,-1),(1,2)]);
    table.insert(('I', 1, 2), vec![(0,0),(-1,0),(2,0),(-1,2),(2,-1)]);
    table.insert(('I', 2, 3), vec![(0,0),(2,0),(-1,0),(2,1),(-1,-2)]);
    table.insert(('I', 3, 0), vec![(0,0),(1,0),(-2,0),(1,-2),(-2,1)]);
    table.insert(('I', 0, 3), vec![(0,0),(-1,0),(2,0),(-1,2),(2,-1)]);
    table.insert(('I', 3, 2), vec![(0,0),(-2,0),(1,0),(-2,-1),(1,2)]);
    table.insert(('I', 2, 1), vec![(0,0),(1,0),(-2,0),(1,-2),(-2,1)]);
    table.insert(('I', 1, 0), vec![(0,0),(2,0),(-1,0),(2,1),(-1,-2)]);
    assert(table@ =~= srs_table()) by {
        assert forall|k: KickKey| #[trigger] srs_table().contains_key(k) && jlstz(k.0) implies jl.contains_key(k) by {
            if k.0 == 'J' { assert(k.0 == pieces@[0]); }
            else if k.0 == 'L' { assert(k.0 == pieces@[1]); }
            else if k.0 == 'S' { assert(k.0 == pieces@[2]); }
            else if k.0 == 'Z' { assert(k.0 == pieces@[3]); }
            else { assert(k.0 == pieces@[4]); }
        }
    }
    table
}

/// The rotation a direction name stands for: `NE`, `ES`, `SW`, `WN` (clockwise),
/// `NW`, `WS`, `SE`, `EN` (counter-clockwise) and `NS`, `EW`, `SN`, `WE` (half turns).
pub open spec fn direction(d: Seq<char>) -> Option<(usize, usize)> {
    if d == "NE"@ {
        Some((0usize, 1usize))
    } else if d == "ES"@ {
        Some((1usize, 2usize))
    } else if d == "SW"@ {
        Some((2usize, 3usize))
    } else if d == "WN"@ {
        Some((3usize, 0usize))
    } else if d == "NW"@ {
        Some((0usize, 3usize))
    } else if d == "WS"@ {
        Some((3usize, 2usize))
    } else if d == "SE"@ {
        Some((2usize, 1usize))
    } else if d == "EN"@ {
        Some((1usize, 0usize))
    } else if d == "NS"@ {
        Some((0usize, 2usize))
    } else if d == "EW"@ {
        Some((1usize, 3usize))
    } else if d == "SN"@ {
        Some((2usize, 0usize))
    } else if d == "WE"@ {
        Some((3usize, 1usize))
    } else {
        None
    }
}

/// The orientation a compass letter names: `N` spawn (0), `E` right (1), `S`
/// reverse (2), `W` left (3).
pub open spec fn compass(c: char) -> Option<usize> {
    if c == 'N' {
        Some(0usize)
    } else if c == 'E' {
        Some(1usize)
    } else if c == 'S' {
        Some(2usize)
    } else if c == 'W' {
        Some(3usize)
    } else {
        None
    }
}

/// A direction name is two different compass letters, from-orientation first:
/// it stands for the rotation from the orientation of its first letter to that
/// of its second; any other name stands for none.
pub proof fn lemma_direction_letters(d: Seq<char>)
    ensures
        direction(d) == (if d.len() == 2 && compass(d[0]) is Some && compass(d[1]) is Some && d[0]
            != d[1] {
            Some((compass(d[0]).unwrap(), compass(d[1]).unwrap()))
        } else {
            None::<(usize, usize)>
        }),
{
    reveal_strlit("NE");
    reveal_strlit("ES");
    reveal_strlit("SW");
    reveal_strlit("WN");
    reveal_strlit("NW");
    reveal_strlit("WS");
    reveal_strlit("SE");
    reveal_strlit("EN");
    reveal_strlit("NS");
    reveal_strlit("EW");
    reveal_strlit("SN");
    reveal_strlit("WE");
    let names = seq!["NE"@, "ES"@, "SW"@, "WN"@, "NW"@, "WS"@, "SE"@, "EN"@, "NS"@, "EW"@, "SN"@, "WE"@];
    assert forall|k: int| 0 <= k < names.len() implies #[trigger] names[k].len() == 2 && compass(
        names[k][0],
    ) is Some && compass(names[k][1]) is Some && names[k][0] != names[k][1] by {}
    if d.len() == 2 && compass(d[0]) is Some && compass(d[1]) is Some && d[0] != d[1] {
        let a = d[0];
        let b = d[1];
        assert(d =~= seq![a, b]);
        if a == 'N' && b == 'E' {
            assert(d =~= "NE"@);
        } else if a == 'E' && b == 'S' {
            assert(d =~= "ES"@);
        } else if a == 'S' && b == 'W' {
            assert(d =~= "SW"@);
        } else if a == 'W' && b == 'N' {
            assert(d =~= "WN"@);
        } else if a == 'N' && b == 'W' {
            assert(d =~= "NW"@);
        } else if a == 'W' && b == 'S' {
            assert(d =~= "WS"@);
        } else if a == 'S' && b == 'E' {
            assert(d =~= "SE"@);
        } else if a == 'E' && b == 'N' {
            assert(d =~= "EN"@);
        } else if a == 'N' && b == 'S' {
            assert(d =~= "NS"@);
        } else if a == 'E' && b == 'W' {
            assert(d =~= "EW"@);
        } else if a == 'S' && b == 'N' {
            assert(d =~= "SN"@);
        } else {
            assert(a == 'W' && b == 'E');
            assert(d =~= "WE"@);
        }
    } else {
        assert forall|k: int| 0 <= k < names.len() implies d != #[trigger] names[k] by {}
        assert(names[0] == "NE"@ && names[1] == "ES"@ && names[2] == "SW"@ && names[3] == "WN"@);
        assert(names[4] == "NW"@ && names[5] == "WS"@ && names[6] == "SE"@ && names[7] == "EN"@);
        assert(names[8] == "NS"@ && names[9] == "EW"@ && names[10] == "SN"@ && names[11] == "WE"@);
    }
}

/// The rotation a direction name stands for (see [`direction`]).
pub fn parse_direction(dir: &[char]) -> (r: Option<(usize, usize)>)
    ensures
        r == direction(dir@),
{
    if chars_equal_str(dir, "NE") {
        Some((0, 1))
    } else if chars_equal_str(dir, "ES") {
        Some((1, 2))
    } else if chars_equal_str(dir, "SW") {
        Some((2, 3))
    } else if chars_equal_str(dir, "WN") {
        Some((3, 0))
    } else if chars_equal_str(dir, "NW") {
        Some((0, 3))
    } else if chars_equal_str(dir, "WS") {
        Some((3, 2))
    } else if chars_equal_str(dir, "SE") {
        Some((2, 1))
    } else if chars_equal_str(dir, "EN") {
        Some((1, 0))
    } else if chars_equal_str(dir, "NS") {
        Some((0, 2))
    } else if chars_equal_str(dir, "EW") {
        Some((1, 3))
    } else if chars_equal_str(dir, "SN") {
        Some((2, 0))
    } else if chars_equal_str(dir, "WE") {
        Some((3, 1))
    } else {
        None
    }
}

/// The pieces of `s` between occurrences of `)(`.
pub open spec fn split_pairs(s: Seq<char>) -> Seq<Seq<char>>
    decreases s.len(),
{
    if s.len() == 0 {
        seq![Seq::empty()]
    } else if s.len() >= 2 && s[0] == ')' && s[1] == '(' {
        seq![Seq::<char>::empty()] + split_pairs(s.skip(2))
    } else {
        let r = split_pairs(s.drop_first());
        r.update(0, seq![s[0]] + r[0])
    }
}

proof fn lemma_split_pairs_nonempty(s: Seq<char>)
    ensures
        split_pairs(s).len() >= 1,
    decreases s.len(),
{
    if s.len() > 0 {
        if s.len() >= 2 && s[0] == ')' && s[1] == '(' {
            lemma_split_pairs_nonempty(s.skip(2));
        } else {
            lemma_split_pairs_nonempty(s.drop_first());
        }
    }
}

/// Puts `c` in front of the first piece.
pub open spec fn prefix_first(c: Seq<char>, r: Seq<Seq<char>>) -> Seq<Seq<char>> {
    r.update(0, c + r[0])
}

/// Splits at every `)(`.
fn split_at_pairs(s: &[char]) -> (parts: Vec<Vec<char>>)
    ensures
        parts@.len() == split_pairs(s@).len(),
        forall|i: int| 0 <= i < parts@.len() ==> (#[trigger] parts@[i])@ == split_pairs(s@)[i],
{
    let mut parts: Vec<Vec<char>> = Vec::new();
    let mut cur: Vec<char> = Vec::new();
    let mut i: usize = 0;
    assert(s@.skip(0) =~= s@);
    proof {
        lemma_split_pairs_nonempty(s@);
    }
    assert(prefix_first(cur@, split_pairs(s@)) =~= split_pairs(s@));
    while i < s.len()
        invariant
            i <= s@.len(),
            split_pairs(s@) == parts@.map_values(|p: Vec<char>| p@) + prefix_first(
                cur@,
                split_pairs(s@.skip(i as int)),
            ),
        decreases s@.len() - i,
    {
        let ghost rest = s@.skip(i as int);
        proof {
            lemma_split_pairs_nonempty(rest);
        }
        if i + 1 < s.len() && s[i] == ')' && s[i + 1] == '(' {
            assert(rest.skip(2) =~= s@.skip(i + 2));
            proof {
                lemma_split_pairs_nonempty(rest.skip(2));
            }
            let done = cur;
            parts.push(done);
            cur = Vec::new();
            i += 2;
            assert(split_pairs(s@) =~= parts@.map_values(|p: Vec<char>| p@) + prefix_first(
                cur@,
                split_pairs(s@.skip(i as int)),
            ));
        } else {
            assert(rest.drop_first() =~= s@.skip(i + 1));
            proof {
                lemma_split_pairs_nonempty(rest.drop_first());
            }
            let c = s[i];
            let ghost before = cur@;
            cur.push(c);
            i += 1;
            proof {
                let r = split_pairs(rest.drop_first());
                assert(rest[0] == c);
                assert(!(rest.len() >= 2 && rest[0] == ')' && rest[1] == '('));
                assert(split_pairs(rest) == r.update(0, seq![c] + r[0]));
                assert(before + (seq![c] + r[0]) =~= cur@ + r[0]);
                assert(prefix_first(before, split_pairs(rest)) =~= r.update(0, cur@ + r[0]));
            }
            assert(prefix_first(before, split_pairs(rest)) =~= prefix_first(
                cur@,
                split_pairs(s@.skip(i as int)),
            ));
        }
    }
    assert(s@.skip(s@.len() as int) =~= Seq::<char>::empty());
    let ghost pv = parts@.map_values(|p: Vec<char>| p@);
    parts.push(cur);
    assert(parts@.map_values(|p: Vec<char>| p@) =~= split_pairs(s@));
    parts
}

/// The offset one `(dx,dy)` group gives, if it holds one: brackets, an `@`
/// marker and `+` signs are dropped, and both numbers must be `i32`s.
pub open spec fn group_offset(part: Seq<char>) -> Option<(i32, i32)> {
    let clean = trim(strip_start(strip_end(strip_start(trim(part), '('), ')'), '@'));
    match first_index(clean, ',') {
        Some(c) => {
            let xs = strip_start(trim(clean.take(c)), '+');
            let ys = strip_start(trim(clean.skip(c + 1)), '+');
            match (parse_i32_spec(xs), parse_i32_spec(ys)) {
                (Some(x), Some(y)) => Some((x, y)),
                _ => None,
            }
        },
        None => None,
    }
}

/// The offsets the groups give, in order, skipping groups that give none.
pub open spec fn group_offsets(parts: Seq<Seq<char>>) -> Seq<(i32, i32)>
    decreases parts.len(),
{
    if parts.len() == 0 {
        Seq::empty()
    } else {
        match group_offset(parts.last()) {
            Some(o) => group_offsets(parts.drop_last()).push(o),
            None => group_offsets(parts.drop_last()),
        }
    }
}

/// The offsets a definition lists: `(dx,dy)(dx,dy)...`, with the outer
/// brackets dropped and the groups split at `)(`.
pub open spec fn offsets_of(raw: Seq<char>) -> Seq<(i32, i32)> {
    let s = trim(raw);
    if s.len() == 0 {
        Seq::empty()
    } else {
        group_offsets(split_pairs(strip_end(strip_start(s, '('), ')')))
    }
}

fn group_offset_of(part: &[char]) -> (r: Option<(i32, i32)>)
    ensures
        r == group_offset(part@),
{
    let t = trimmed(part);
    let a = strip_leading(t.as_slice(), '(');
    let b = strip_trailing(a.as_slice(), ')');
    let c = strip_leading(b.as_slice(), '@');
    let clean = trimmed(c.as_slice());
    match find_char(clean.as_slice(), ',') {
        Some(comma) => {
            let n: usize = clean.len();
            let xpart = slice_range(clean.as_slice(), 0, comma);
            let ypart = slice_range(clean.as_slice(), comma + 1, n);
            assert(xpart@ =~= clean@.take(comma as int));
            assert(ypart@ =~= clean@.skip(comma + 1));
            let xt = trimmed(xpart.as_slice());
            let yt = trimmed(ypart.as_slice());
            let xs = strip_leading(xt.as_slice(), '+');
            let ys = strip_leading(yt.as_slice(), '+');
            match (parse_i32(xs.as_slice()), parse_i32(ys.as_slice())) {
                (Some(x), Some(y)) => Some((x, y)),
                _ => None,
            }
        },
        None => None,
    }
}

/// Parses the offsets of a definition: `(dx,dy)(dx,dy)...` (see [`offsets_of`]).
pub fn parse_offsets(raw: &[char]) -> (offsets: Vec<(i32, i32)>)
    ensures
        offsets@ == offsets_of(raw@),
{
    let mut offsets: Vec<(i32, i32)> = Vec::new();
    let s = trimmed(raw);
    if s.len() == 0 {
        return offsets;
    }
    let a = strip_leading(s.as_slice(), '(');
    let inner = strip_trailing(a.as_slice(), ')');
    let parts = split_at_pairs(inner.as_slice());
    let ghost ps = split_pairs(inner@);
    let mut i: usize = 0;
    while i < parts.len()
        invariant
            i <= parts@.len(),
            parts@.len() == ps.len(),
            forall|j: int| 0 <= j < parts@.len() ==> (#[trigger] parts@[j])@ == ps[j],
            offsets@ == group_offsets(ps.take(i as int)),
        decreases parts@.len() - i,
    {
        assert(ps.take(i + 1).drop_last() =~= ps.take(i as int));
        if let Some(o) = group_offset_of(parts[i].as_slice()) {
            offsets.push(o);
        }
        i += 1;
    }
    assert(ps.take(ps.len() as int) =~= ps);
    offsets
}

/// A piece name: one ASCII character.
pub open spec fn single_ascii(s: Seq<char>) -> bool {
    s.len() == 1 && (s[0] as u32) < 128
}

/// The trimmed text before the first `.` (all of it when there is none).
pub open spec fn before_dot(s: Seq<char>) -> Seq<char> {
    match first_index(s, '.') {
        Some(d) => trim(s.take(d)),
        None => trim(s),
    }
}

/// The trimmed text after the first `.` (nothing when there is none).
pub open spec fn after_dot(s: Seq<char>) -> Seq<char> {
    match first_index(s, '.') {
        Some(d) => trim(s.skip(d + 1)),
        None => Seq::empty(),
    }
}

/// The key a `Piece.DIR` name stands for: a one-character piece and a known direction.
pub open spec fn key_of(name: Seq<char>) -> Option<KickKey> {
    let p = before_dot(name);
    if single_ascii(p) {
        match direction(after_dot(name)) {
            Some((f, t)) => Some((p[0], f, t)),
            None => None,
        }
    } else {
        None
    }
}

/// A line with nothing to read: blank, or a `#` or `//` comment.
pub open spec fn ignored_line(t: Seq<char>) -> bool {
    t.len() == 0 || t[0] == '#' || (t.len() >= 2 && t[0] == '/' && t[1] == '/')
}

/// A definition line `Piece.DIR=value`: its key and its trimmed value.
pub open spec fn definition(line: Seq<char>) -> Option<(KickKey, Seq<char>)> {
    let t = trim(line);
    if ignored_line(t) {
        None
    } else {
        match first_index(t, '=') {
            Some(e) => match key_of(trim(t.take(e))) {
                Some(k) => Some((k, trim(t.skip(e + 1)))),
                None => None,
            },
            None => None,
        }
    }
}

/// The key a value `&Piece.DIR` refers to, when it is a well-formed reference.
pub open spec fn reference_key(value: Seq<char>) -> Option<KickKey> {
    if value.len() > 0 && value[0] == '&' {
        key_of(trim(value.drop_first()))
    } else {
        None
    }
}

/// The direct definitions of the lines, a later one for a key replacing an earlier one.
pub open spec fn direct_definitions(lines: Seq<Seq<char>>) -> Map<KickKey, Seq<(i32, i32)>>
    decreases lines.len(),
{
    if lines.len() == 0 {
        Map::empty()
    } else {
        let m = direct_definitions(lines.drop_last());
        match definition(lines.last()) {
            Some((k, v)) => if reference_key(v) is None {
                m.insert(k, offsets_of(v))
            } else {
                m
            },
            None => m,
        }
    }
}

/// The references of the lines, in order: each key with the key it refers to.
pub open spec fn references(lines: Seq<Seq<char>>) -> Seq<(KickKey, KickKey)>
    decreases lines.len(),
{
    if lines.len() == 0 {
        Seq::empty()
    } else {
        let r = references(lines.drop_last());
        match definition(lines.last()) {
            Some((k, v)) => match reference_key(v) {
                Some(target) => r.push((k, target)),
                None => r,
            },
            None => r,
        }
    }
}

/// Resolves references in order: each key gets what its target holds at that
/// point (nothing when the target is undefined).
pub open spec fn resolve(
    table: Map<KickKey, Seq<(i32, i32)>>,
    refs: Seq<(KickKey, KickKey)>,
) -> Map<KickKey, Seq<(i32, i32)>>
    decreases refs.len(),
{
    if refs.len() == 0 {
        table
    } else {
        let m = resolve(table, refs.drop_last());
        let (k, target) = refs.last();
        m.insert(k, if m.contains_key(target) { m[target] } else { Seq::empty() })
    }
}

proof fn lemma_resolve_other(
    table: Map<KickKey, Seq<(i32, i32)>>,
    refs: Seq<(KickKey, KickKey)>,
    k: KickKey,
)
    requires
        forall|i: int| 0 <= i < refs.len() ==> #[trigger] refs[i].0 != k,
    ensures
        resolve(table, refs).contains_key(k) == table.contains_key(k),
        table.contains_key(k) ==> resolve(table, refs)[k] == table[k],
    decreases refs.len(),
{
    if refs.len() > 0 {
        let r0 = refs.drop_last();
        assert forall|i: int| 0 <= i < r0.len() implies #[trigger] r0[i].0 != k by {
            assert(r0[i] == refs[i]);
        }
        lemma_resolve_other(table, r0, k);
        assert(refs[refs.len() - 1].0 != k);
    }
}

proof fn lemma_resolve_given(table: Map<KickKey, Seq<(i32, i32)>>, refs: Seq<(KickKey, KickKey)>, i: int)
    requires
        0 <= i < refs.len(),
    ensures
        resolve(table, refs).contains_key(refs[i].0),
    decreases refs.len(),
{
    if i < refs.len() - 1 {
        lemma_resolve_given(table, refs.drop_last(), i);
        assert(refs.drop_last()[i] == refs[i]);
    }
}

/// Resolving references defines every key that a reference gives, and
/// leaves every other key as it was (defined with the same offsets, or not at all).
pub proof fn lemma_resolved_keys(table: Map<KickKey, Seq<(i32, i32)>>, refs: Seq<(KickKey, KickKey)>)
    ensures
        forall|i: int| 0 <= i < refs.len() ==> resolve(table, refs).contains_key(#[trigger] refs[i].0),
        forall|k: KickKey|
            (forall|i: int| 0 <= i < refs.len() ==> #[trigger] refs[i].0 != k) ==> (#[trigger] resolve(
                table,
                refs,
            ).contains_key(k) == table.contains_key(k) && (table.contains_key(k) ==> resolve(
                table,
                refs,
            )[k] == table[k])),
{
    assert forall|i: int| 0 <= i < refs.len() implies resolve(table, refs).contains_key(
        #[trigger] refs[i].0,
    ) by {
        lemma_resolve_given(table, refs, i);
    }
    assert forall|k: KickKey|
        (forall|i: int| 0 <= i < refs.len() ==> #[trigger] refs[i].0 != k) implies (#[trigger] resolve(
            table,
            refs,
        ).contains_key(k) == table.contains_key(k) && (table.contains_key(k) ==> resolve(
            table,
            refs,
        )[k] == table[k])) by {
        lemma_resolve_other(table, refs, k);
    }
}

/// The table a kick file describes: its direct definitions, then its references resolved.
pub open spec fn kick_file_table(content: Seq<char>) -> Map<KickKey, Seq<(i32, i32)>> {
    let lines = split_on(content, '\n');
    resolve(direct_definitions(lines), references(lines))
}

fn ascii_single(s: &[char]) -> (b: bool)
    ensures
        b == single_ascii(s@),
{
    s.len() == 1 && (s[0] as u32) < 128
}

fn name_key(name: &[char]) -> (r: Option<KickKey>)
    ensures
        r == key_of(name@),
{
    let (p, d) = match find_char(name, '.') {
        Some(dot) => {
            let n: usize = name.len();
            let a = slice_range(name, 0, dot);
            let b = slice_range(name, dot + 1, n);
            assert(a@ =~= name@.take(dot as int));
            assert(b@ =~= name@.skip(dot + 1));
            (trimmed(a.as_slice()), trimmed(b.as_slice()))
        },
        None => (trimmed(name), Vec::new()),
    };
    assert(p@ == before_dot(name@));
    assert(d@ == after_dot(name@));
    if ascii_single(p.as_slice()) {
        match parse_direction(d.as_slice()) {
            Some((f, t)) => Some((p[0], f, t)),
            None => None,
        }
    } else {
        None
    }
}

fn line_definition(line: &[char]) -> (r: Option<(KickKey, Vec<char>)>)
    ensures
        r is None <==> definition(line@) is None,
        r matches Some((k, v)) ==> definition(line@) == Some((k, v@)),
{
    let t = trimmed(line);
    if t.len() == 0 || t[0] == '#' || (t.len() >= 2 && t[0] == '/' && t[1] == '/') {
        return None;
    }
    match find_char(t.as_slice(), '=') {
        Some(e) => {
            let n: usize = t.len();
            let left = slice_range(t.as_slice(), 0, e);
            let right = slice_range(t.as_slice(), e + 1, n);
            assert(left@ =~= t@.take(e as int));
            assert(right@ =~= t@.skip(e + 1));
            let lt = trimmed(left.as_slice());
            match name_key(lt.as_slice()) {
                Some(k) => Some((k, trimmed(right.as_slice()))),
                None => None,
            }
        },
        None => None,
    }
}

fn value_reference(value: &[char]) -> (r: Option<KickKey>)
    ensures
        r == reference_key(value@),
{
    if value.len() > 0 && value[0] == '&' {
        let n: usize = value.len();
        let rest = slice_range(value, 1, n);
        assert(rest@ =~= value@.drop_first());
        let target = trimmed(rest.as_slice());
        name_key(target.as_slice())
    } else {
        None
    }
}

fn copy_offsets(v: &Vec<(i32, i32)>) -> (r: Vec<(i32, i32)>)
    ensures
        r@ == v@,
{
    let mut r: Vec<(i32, i32)> = Vec::new();
    let mut i: usize = 0;
    while i < v.len()
        invariant
            i <= v@.len(),
            r@ == v@.take(i as int),
        decreases v@.len() - i,
    {
        r.push(v[i]);
        i += 1;
        assert(r@ =~= v@.take(i as int));
    }
    assert(v@.take(v@.len() as int) =~= v@);
    r
}

/// Reads a kick table in the sfinder `.properties` format: one definition per
/// line, `Piece.DIR=(dx,dy)(dx,dy)...` or a reference `Piece.DIR=&Other.DIR`;
/// blank lines and `#` or `//` comments are skipped (see [`kick_file_table`]).
pub fn parse_kick_content(content: &str) -> (table: KickTable)
    ensures
        table@ == kick_file_table(content@),
{
    let chars = chars_of(content);
    let lines = split_chars(chars.as_slice(), '\n');
    let ghost ls = split_on(content@, '\n');
    let mut table = KickTable::empty();
    let mut refs: Vec<(KickKey, KickKey)> = Vec::new();
    let mut i: usize = 0;
    while i < lines.len()
        invariant
            i <= lines@.len(),
            lines@.len() == ls.len(),
            forall|j: int| 0 <= j < lines@.len() ==> (#[trigger] lines@[j])@ == ls[j],
            table@ == direct_definitions(ls.take(i as int)),
            refs@ == references(ls.take(i as int)),
        decreases lines@.len() - i,
    {
        assert(ls.take(i + 1).drop_last() =~= ls.take(i as int));
        assert(ls.take(i + 1).last() == ls[i as int]);
        match line_definition(lines[i].as_slice()) {
            Some((k, v)) => {
                match value_reference(v.as_slice()) {
                    Some(target) => {
                        refs.push((k, target));
                    },
                    None => {
                        let offsets = parse_offsets(v.as_slice());
                        table.insert(k, offsets);
                    },
                }
            },
            None => {},
        }
        i += 1;
    }
    assert(ls.take(ls.len() as int) =~= ls);
    let ghost direct = table@;
    let mut j: usize = 0;
    while j < refs.len()
        invariant
            j <= refs@.len(),
            table@ == resolve(direct, refs@.take(j as int)),
        decreases refs@.len() - j,
    {
        assert(refs@.take(j + 1).drop_last() =~= refs@.take(j as int));
        let (k, target) = refs[j];
        let offsets = match table.lookup(target) {
            Some(v) => copy_offsets(v),
            None => Vec::new(),
        };
        table.insert(k, offsets);
        j += 1;
    }
    assert(refs@.take(refs@.len() as int) =~= refs@);
    table
}

/// One offset as `{},{}` writes it, without brackets.
pub open spec fn group_text(p: (i32, i32)) -> Seq<char> {
    int_text(p.0 as int) + seq![','] + int_text(p.1 as int)
}

/// Offsets written as `({},{})` pairs, one after another.
pub open spec fn offsets_text(v: Seq<(i32, i32)>) -> Seq<char>
    decreases v.len(),
{
    if v.len() == 0 {
        Seq::empty()
    } else {
        seq!['('] + group_text(v[0]) + seq![')'] + offsets_text(v.drop_first())
    }
}

/// The groups of the offsets joined by `)(`.
spec fn inner_text(v: Seq<(i32, i32)>) -> Seq<char>
    decreases v.len(),
{
    if v.len() <= 1 {
        if v.len() == 1 {
            group_text(v[0])
        } else {
            Seq::empty()
        }
    } else {
        group_text(v[0]) + seq![')', '('] + inner_text(v.drop_first())
    }
}

spec fn no_bracket(a: Seq<char>) -> bool {
    forall|i: int| 0 <= i < a.len() ==> #[trigger] a[i] != ')' && a[i] != '(' && a[i] != ','
        && a[i] != '+' && a[i] != '@' && !crate::text::is_space(a[i])
}

proof fn lemma_int_text_plain(v: int)
    ensures
        no_bracket(int_text(v)),
        int_text(v).len() > 0,
        int_text(v)[0] != '+',
        is_digit(int_text(v).last()),
{
    lemma_int_text_chars(v);
    assert forall|i: int| 0 <= i < int_text(v).len() implies #[trigger] int_text(v)[i] != ')'
        && int_text(v)[i] != '(' && int_text(v)[i] != ',' && int_text(v)[i] != '+' && int_text(v)[i]
        != '@' && !crate::text::is_space(int_text(v)[i]) by {
        if i > 0 {
            assert(is_digit(int_text(v)[i]));
        }
    }
}

proof fn lemma_group_chars(p: (i32, i32))
    ensures
        forall|i: int| 0 <= i < group_text(p).len() ==> #[trigger] group_text(p)[i] != ')',
        group_text(p).len() > 0,
        group_text(p)[0] != '(' && !crate::text::is_space(group_text(p)[0]),
        is_digit(group_text(p).last()),
{
    lemma_int_text_plain(p.0 as int);
    lemma_int_text_plain(p.1 as int);
    let a = int_text(p.0 as int);
    let b = int_text(p.1 as int);
    let g = group_text(p);
    assert forall|i: int| 0 <= i < g.len() implies #[trigger] g[i] != ')' by {
        if i < a.len() {
            assert(g[i] == a[i]);
        } else if i > a.len() {
            assert(g[i] == b[i - a.len() - 1]);
        }
    }
    assert(g.last() == b[b.len() - 1]);
}

proof fn lemma_split_plain(a: Seq<char>)
    requires
        forall|i: int| 0 <= i < a.len() ==> #[trigger] a[i] != ')',
    ensures
        split_pairs(a) == seq![a],
    decreases a.len(),
{
    if a.len() == 0 {
        assert(a =~= Seq::<char>::empty());
    } else {
        lemma_split_plain(a.drop_first());
        let r = split_pairs(a.drop_first());
        assert(!(a.len() >= 2 && a[0] == ')' && a[1] == '('));
        assert(split_pairs(a) == r.update(0, seq![a[0]] + r[0]));
        assert(seq![a[0]] + a.drop_first() =~= a);
        assert(r.update(0, seq![a[0]] + r[0]) =~= seq![a]);
    }
}

proof fn lemma_split_joined(a: Seq<char>, b: Seq<char>)
    requires
        forall|i: int| 0 <= i < a.len() ==> #[trigger] a[i] != ')',
    ensures
        split_pairs(a + seq![')', '('] + b) == seq![a] + split_pairs(b),
    decreases a.len(),
{
    let s = a + seq![')', '('] + b;
    if a.len() == 0 {
        assert(a =~= Seq::<char>::empty());
        assert(s =~= seq![')', '('] + b);
        assert(s.skip(2) =~= b);
        assert(seq![Seq::<char>::empty()] + split_pairs(b) =~= seq![a] + split_pairs(b));
    } else {
        assert(s.drop_first() =~= a.drop_first() + seq![')', '('] + b);
        lemma_split_joined(a.drop_first(), b);
        assert(seq![a[0]] + a.drop_first() =~= a);
        let r = split_pairs(s.drop_first());
        assert(s[0] == a[0]);
        assert(split_pairs(s) == r.update(0, seq![s[0]] + r[0]));
        assert(split_pairs(s) =~= seq![a] + split_pairs(b));
    }
}

/// The groups of the offsets, in order.
spec fn groups(v: Seq<(i32, i32)>) -> Seq<Seq<char>> {
    Seq::new(v.len(), |i: int| group_text(v[i]))
}

proof fn lemma_inner_parts(v: Seq<(i32, i32)>)
    requires
        v.len() > 0,
    ensures
        split_pairs(inner_text(v)) == groups(v),
        inner_text(v).len() > 0,
        inner_text(v)[0] == group_text(v[0])[0],
        inner_text(v).last() == group_text(v.last()).last(),
    decreases v.len(),
{
    lemma_group_chars(v[0]);
    if v.len() == 1 {
        lemma_split_plain(group_text(v[0]));
        assert(groups(v) =~= seq![group_text(v[0])]);
    } else {
        let rest = v.drop_first();
        lemma_inner_parts(rest);
        lemma_split_joined(group_text(v[0]), inner_text(rest));
        assert(groups(v) =~= seq![group_text(v[0])] + groups(rest));
        assert(rest.last() == v.last());
    }
}

proof fn lemma_offsets_framed(v: Seq<(i32, i32)>)
    requires
        v.len() > 0,
    ensures
        offsets_text(v) == seq!['('] + inner_text(v) + seq![')'],
    decreases v.len(),
{
    if v.len() == 1 {
        assert(offsets_text(v.drop_first()) =~= Seq::<char>::empty());
        assert(offsets_text(v) =~= seq!['('] + inner_text(v) + seq![')']);
    } else {
        lemma_offsets_framed(v.drop_first());
        assert(offsets_text(v) =~= seq!['('] + inner_text(v) + seq![')']);
    }
}

proof fn lemma_group_offset_text(p: (i32, i32))
    ensures
        group_offset(group_text(p)) == Some(p),
{
    lemma_int_text_plain(p.0 as int);
    lemma_int_text_plain(p.1 as int);
    lemma_parse_int_text(p.0);
    lemma_parse_int_text(p.1);
    let a = int_text(p.0 as int);
    let b = int_text(p.1 as int);
    let g = group_text(p);
    assert(g[0] == a[0]);
    assert(g.last() == b[b.len() - 1]);
    assert(trim_start(g) == g);
    assert(trim_end(g) == g);
    assert(trim(g) == g);
    assert(strip_start(g, '(') == g);
    assert(strip_end(g, ')') == g);
    assert(strip_start(g, '@') == g);
    let k = a.len() as int;
    assert(g[k] == ',');
    assert forall|j: int| 0 <= j < k implies g[j] != ',' by {
        assert(g[j] == a[j]);
    }
    let f = choose|i: int| 0 <= i < g.len() && g[i] == ',' && forall|j: int| 0 <= j < i ==> g[j] != ',';
    assert(f == k) by {
        if f > k {
            assert(g[k] != ',');
        } else if f < k {
            assert(g[f] == a[f]);
        }
    }
    assert(first_index(g, ',') == Some(k));
    assert(g.take(k) =~= a);
    assert(g.skip(k + 1) =~= b);
    assert(a[a.len() - 1] == a.last());
    assert(trim_start(a) == a);
    assert(trim_end(a) == a);
    assert(b[0] == b[0]);
    assert(trim_start(b) == b);
    assert(trim_end(b) == b);
    assert(strip_start(a, '+') == a);
    assert(strip_start(b, '+') == b);
}

proof fn lemma_group_offsets_of(v: Seq<(i32, i32)>)
    ensures
        group_offsets(groups(v)) == v,
    decreases v.len(),
{
    if v.len() > 0 {
        lemma_group_offsets_of(v.drop_last());
        assert(groups(v).drop_last() =~= groups(v.drop_last()));
        lemma_group_offset_text(v.last());
        assert(groups(v).last() == group_text(v.last()));
        assert(v.drop_last().push(v.last()) =~= v);
    }
}

/// Writing offsets as `({},{})` pairs and reading them back gives the same
/// offsets, in order.
pub proof fn lemma_offsets_round_trip(v: Seq<(i32, i32)>)
    ensures
        offsets_of(offsets_text(v)) == v,
{
    if v.len() == 0 {
        assert(trim(offsets_text(v)) =~= Seq::<char>::empty());
        assert(v =~= Seq::<(i32, i32)>::empty());
    } else {
        lemma_offsets_framed(v);
        lemma_inner_parts(v);
        lemma_group_chars(v[0]);
        lemma_group_chars(v.last());
        let inner = inner_text(v);
        let s = offsets_text(v);
        assert(s[0] == '(');
        assert(s.last() == ')');
        assert(trim_start(s) == s);
        assert(trim_end(s) == s);
        assert(s.drop_first() =~= inner + seq![')']);
        assert((inner + seq![')'])[0] == inner[0]);
        assert(strip_start(s, '(') == strip_start(s.drop_first(), '('));
        assert(strip_start(inner + seq![')'], '(') == inner + seq![')']);
        assert(strip_start(s, '(') == inner + seq![')']);
        assert((inner + seq![')']).drop_last() =~= inner);
        assert(inner.last() == inner[inner.len() - 1]);
        assert(strip_end(inner, ')') == inner);
        assert(strip_end(inner + seq![')'], ')') == inner);
        lemma_group_offsets_of(v);
    }
}

} // verus!
