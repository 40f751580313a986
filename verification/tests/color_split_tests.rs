use sfinder_gui_lib::cell_set::CellSet;
use sfinder_gui_lib::color_split::{auto_split, can_place, identify_piece, in_bounds, PieceOperation};
use sfinder_gui_lib::geometry::cell_positions;

fn field_with_bottom(data: &str) -> String {
    let mut field = vec!['_'; 230];
    let base_idx = 230 - data.len();
    for (i, c) in data.chars().enumerate() {
        field[base_idx + i] = c;
    }
    field.into_iter().collect()
}

#[test]
fn test_fumen_v115() {
    // Field string from v115@9gBtDewhi0wwBtCewhRpg0xwR4BewhRpglwwR4Cewh?ilJeAgl
    let mut field = vec!['_'; 230];
    let data = "ZZ____IJJJTZZ___IOOJTTSS__IOOLTSS___ILLL";
    let base_idx = 230 - 40; // last 4 rows
    for (i, c) in data.chars().enumerate() {
        field[base_idx + i] = c;
    }
    let field_str: String = field.into_iter().collect();

    let result = auto_split(&field_str);
    assert!(result.is_ok(), "auto_split failed: {:?}", result.err());
    let ops = result.unwrap();
    assert_eq!(ops.len(), 7, "expected 7 pieces, got {}: {:?}", ops.len(), ops);

    let types: Vec<String> = ops.iter().map(|o| o.piece_type.clone()).collect();
    for t in &["I", "L", "O", "Z", "T", "J", "S"] {
        assert!(types.contains(&t.to_string()), "missing piece type {}", t);
    }

    for op in &ops {
        assert!(in_bounds(op), "piece {:?} out of bounds", op);
    }

    // O rests on L, J rests on O
    let o_idx = ops.iter().position(|o| o.piece_type == "O").unwrap();
    let j_idx = ops.iter().position(|o| o.piece_type == "J").unwrap();
    assert!(
        o_idx < j_idx,
        "expected O before J, got O@{} J@{} order: {:?}",
        o_idx,
        j_idx,
        ops.iter().map(|o| format!("{}-{}", o.piece_type, o.rotation)).collect::<Vec<_>>()
    );

    println!(
        "Placement order: {:?}",
        ops.iter().map(|o| format!("{}-{}@({},{})", o.piece_type, o.rotation, o.x, o.y)).collect::<Vec<_>>()
    );
}

#[test]
fn test_fumen_with_line_clears() {
    // v115@3gywHewwDeG8Q4I8R4H8AeQ4A8JeAgl
    // T-piece above, S-piece in cleared rows (y=1,2 are full)
    let field_str = "________________________________________________________________________________________________________________________________________________________________________________________TTT________T____XXXXXXXSXXXXXXXXXSSXXXXXXXX_SX".to_string();

    let result = auto_split(&field_str);
    assert!(result.is_ok(), "auto_split failed: {:?}", result.err());
    let ops = result.unwrap();
    assert_eq!(ops.len(), 2, "expected 2 pieces, got {}: {:?}", ops.len(), ops);
    assert!(ops.iter().any(|o| o.piece_type == "T"), "missing T piece");
    assert!(ops.iter().any(|o| o.piece_type == "S"), "missing S piece");

    println!(
        "Placement order: {:?}",
        ops.iter().map(|o| format!("{}-{}@({},{})", o.piece_type, o.rotation, o.x, o.y)).collect::<Vec<_>>()
    );
}

#[test]
fn split_rejects_wrong_length() {
    let r = auto_split("ZZ__");
    assert_eq!(r.unwrap_err(), "Invalid field: expected 230 characters");
}

#[test]
fn split_rejects_field_without_pieces() {
    let field = field_with_bottom("XXXXXXXXX_");
    let r = auto_split(&field);
    assert_eq!(
        r.unwrap_err(),
        "No piece-colored cells found. Draw pieces using I/L/O/Z/T/J/S colors, not gray (X) blocks."
    );
}

#[test]
fn split_rejects_floating_piece() {
    // An O piece hanging two rows above the floor.
    let field = field_with_bottom("OO________OO____________________________");
    let r = auto_split(&field);
    assert!(r.unwrap_err().starts_with("Cannot place all pieces."));
}

#[test]
fn split_single_piece_on_floor() {
    let field = field_with_bottom("_T________TTT_______");
    let ops = auto_split(&field).expect("split failed");
    assert_eq!(ops.len(), 1);
    assert_eq!(ops[0].piece_type, "T");
    assert_eq!(ops[0].rotation, "spawn");
    assert_eq!((ops[0].x, ops[0].y), (1, 0));
}

#[test]
fn split_stacked_pieces_bottom_first() {
    // An I lying on the floor and an O resting on it.
    let field = field_with_bottom("OO________OO________IIII______");
    let ops = auto_split(&field).expect("split failed");
    assert_eq!(ops.len(), 2);
    assert_eq!(ops[0].piece_type, "I");
    assert_eq!(ops[1].piece_type, "O");
}

#[test]
fn split_rejects_multibyte_field() {
    let field = "é".to_string() + &"_".repeat(228);
    assert_eq!(field.len(), 230);
    assert_eq!(auto_split(&field).unwrap_err(), "Invalid field: expected 230 characters");
}

#[test]
fn placed_piece_is_identified_again() {
    for (piece, rot) in [('L', "right"), ('T', "left"), ('S', "reverse"), ('I', "right"), ('O', "left")] {
        let mut cells = cell_positions(piece, rot, 4, 10);
        cells.reverse();
        let op = identify_piece(&cells, piece).expect("identified");
        assert_eq!(op.piece_type, piece.to_string());
        let mut again = cell_positions(piece, &op.rotation, op.x, op.y);
        let mut orig = cells.clone();
        again.sort();
        orig.sort();
        assert_eq!(again, orig);
    }
}

#[test]
fn occupying_another_piece_keeps_placeable() {
    // A T resting on an O-piece cell that is not placed yet cannot go first,
    // and can once that cell is occupied.
    let t = PieceOperation { piece_type: "T".to_string(), rotation: "spawn".to_string(), x: 1, y: 1 };
    let full = vec![false; 23];
    let floor = CellSet::from_cells(&[(0, 0), (2, 0)]);
    let other = CellSet::from_cells(&[(1, 0)]);
    assert!(!can_place(&t, &floor, &full, &other));
    let floor2 = CellSet::from_cells(&[(0, 0), (2, 0), (1, 0)]);
    assert!(can_place(&t, &floor2, &full, &CellSet::new()));
    // A piece already placeable stays so when another piece's cell is occupied.
    let ground = CellSet::from_cells(&[(0, 0), (1, 0), (2, 0)]);
    let other = CellSet::from_cells(&[(5, 1)]);
    assert!(can_place(&t, &ground, &full, &other));
    let ground2 = CellSet::from_cells(&[(0, 0), (1, 0), (2, 0), (5, 1)]);
    assert!(can_place(&t, &ground2, &full, &CellSet::new()));
}
