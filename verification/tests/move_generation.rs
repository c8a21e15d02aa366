use cshogi_rust::{Color, File, PieceType, Position};

#[test]
fn test_startpos_legal_moves() {
    let pos = Position::start_position();
    let moves = pos.generate_legal_moves();
    assert_eq!(moves.len(), 30, "Expected 30 moves, got {}", moves.len());
}

#[test]
fn test_nifu_prevented() {
    let sfen = "4k4/9/9/9/4P4/9/9/9/4K4 b P 1";
    let pos = Position::from_sfen(sfen).unwrap();
    let moves = pos.generate_legal_moves();
    let illegal = moves.iter().any(|m| {
        m.is_drop() && m.piece_type_dropped() == PieceType::Pawn && m.to().file() == File::File5
    });
    assert!(!illegal, "Nifu (double pawn) should be prevented");
}

#[test]
fn test_check_evasion() {
    let sfen = "4r4/9/9/9/9/9/9/9/4K4 b - 1";
    let pos = Position::from_sfen(sfen).unwrap();
    let moves = pos.generate_legal_moves();
    assert!(moves.len() > 0, "Should have evasion moves");
    for mv in &moves {
        let mut after = pos.clone();
        after.do_move(*mv);
        assert!(!after.is_attacked(Color::Black), "Move {} leaves king in check", mv.to_usi());
    }
}

#[test]
fn pawn_drop_the_king_can_take_is_allowed() {
    // The king on 5a takes an undefended pawn on 5b, so the drop is no
    // pawn-drop mate and stays a legal move.
    let pos = Position::from_sfen("3lkl3/3p1p3/9/9/9/9/9/9/4K4 b P 1").unwrap();
    let moves = pos.generate_legal_moves();
    assert!(moves.iter().any(|m| m.to_usi() == "P*5b"));
    // Defended by a gold on 5c, the same drop is pawn-drop mate.
    let pos = Position::from_sfen("3lkl3/3p1p3/4G4/9/9/9/9/9/4K4 b P 1").unwrap();
    let moves = pos.generate_legal_moves();
    assert!(!moves.iter().any(|m| m.to_usi() == "P*5b"));
}
