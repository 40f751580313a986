use sfinder_gui_lib::kick_table::{parse_direction, parse_kick_content, parse_offsets, srs_kick_table, KickTable};

fn chars(s: &str) -> Vec<char> {
    s.chars().collect()
}

#[test]
fn srs_table_has_standard_kicks() {
    let t = srs_kick_table();
    assert_eq!(t.get('T', 0, 1), &[(0, 0), (-1, 0), (-1, 1), (0, -2), (-1, -2)]);
    assert_eq!(t.get('I', 0, 1), &[(0, 0), (-2, 0), (1, 0), (-2, -1), (1, 2)]);
    assert_eq!(t.get('J', 1, 0), &[(0, 0), (1, 0), (1, -1), (0, 2), (1, 2)]);
    assert_eq!(t.get('I', 2, 1), &[(0, 0), (1, 0), (-2, 0), (1, -2), (-2, 1)]);
}

#[test]
fn missing_piece_falls_back_to_l() {
    let t = srs_kick_table();
    // O has no entry of its own: it takes L's kicks.
    assert_eq!(t.get('O', 0, 1), t.get('L', 0, 1));
    // Half turns are not in the standard table at all.
    assert!(t.get('T', 0, 2).is_empty());
    assert!(t.get('L', 0, 2).is_empty());
}

#[test]
fn empty_table_gives_nothing() {
    let mut t = KickTable::empty();
    assert!(t.get('T', 0, 1).is_empty());
    t.insert(('T', 0, 1), vec![(1, 2)]);
    t.insert(('T', 0, 1), vec![(3, 4)]);
    assert_eq!(t.get('T', 0, 1), &[(3, 4)]);
    assert_eq!(t.lookup(('T', 0, 1)), Some(&vec![(3, 4)]));
    assert_eq!(t.lookup(('T', 1, 0)), None);
}

#[test]
fn directions() {
    assert_eq!(parse_direction(&chars("NE")), Some((0, 1)));
    assert_eq!(parse_direction(&chars("WN")), Some((3, 0)));
    assert_eq!(parse_direction(&chars("SE")), Some((2, 1)));
    assert_eq!(parse_direction(&chars("EW")), Some((1, 3)));
    assert_eq!(parse_direction(&chars("NN")), None);
    assert_eq!(parse_direction(&chars("N")), None);
}

#[test]
fn offsets_are_read_in_order() {
    assert_eq!(parse_offsets(&chars("(0,0)(-1,0)(-1,+1)(0,-2)")), vec![(0, 0), (-1, 0), (-1, 1), (0, -2)]);
    // Fin markers and spaces are dropped; a malformed group is skipped.
    assert_eq!(parse_offsets(&chars("  (@1, 2)(x,1)( 3 ,-4 ) ")), vec![(1, 2), (3, -4)]);
    assert!(parse_offsets(&chars("   ")).is_empty());
}

#[test]
fn kick_file_with_references() {
    let content = "# comment\n\
                   // another\n\
                   \n\
                   L.NE=(0,0)(-1,0)(-1,1)\n\
                   T.NE=&L.NE\n\
                   S.NE=&Q.NE\n\
                   I.NS = (0,0)(0,1)\r\n\
                   J.NE=&L.XX\n\
                   bad line\n\
                   LL.NE=(5,5)\n";
    let t = parse_kick_content(content);
    assert_eq!(t.get('L', 0, 1), &[(0, 0), (-1, 0), (-1, 1)]);
    assert_eq!(t.lookup(('T', 0, 1)), Some(&vec![(0, 0), (-1, 0), (-1, 1)]));
    // A reference to an undefined entry gives no kicks.
    assert_eq!(t.lookup(('S', 0, 1)), Some(&vec![]));
    assert_eq!(t.get('I', 0, 2), &[(0, 0), (0, 1)]);
    // A malformed reference is read as a definition with no offsets.
    assert_eq!(t.lookup(('J', 0, 1)), Some(&vec![]));
    assert_eq!(t.lookup(('L', 1, 0)), None);
}

#[test]
fn references_resolve_after_definitions() {
    // The reference comes first in the file but sees the later definition.
    let t = parse_kick_content("T.ES=&L.ES\nL.ES=(1,0)\n");
    assert_eq!(t.lookup(('T', 1, 2)), Some(&vec![(1, 0)]));
}

#[test]
fn formatted_offsets_read_back() {
    let offsets = vec![(0, 0), (-1, 2), (i32::MIN, i32::MAX), (10, -300)];
    let text: String = offsets.iter().map(|(x, y)| format!("({},{})", x, y)).collect();
    assert_eq!(parse_offsets(&chars(&text)), offsets);
    assert!(parse_offsets(&chars("")).is_empty());
}
