use cshogi_rust::attacks::{attacks_from, init_attack_tables};
use cshogi_rust::{Bitboard, Color, File, Hand, HandPiece, Move, Piece, PieceType, Rank, Square, SquareDelta};

#[test]
fn test_attack_tables() {
    let _tables = init_attack_tables();

    let sq = Square::new(File::File7, Rank::Rank7);
    let bb = attacks_from(PieceType::Pawn, Color::Black, sq);
    assert_eq!(bb.count(), 1);
    assert!(bb.is_set(Square::new(File::File7, Rank::Rank6)));

    let bb = attacks_from(PieceType::Knight, Color::Black, sq);
    assert_eq!(bb.count(), 2);

    let bb = attacks_from(PieceType::Gold, Color::Black, sq);
    assert_eq!(bb.count(), 6);

    let sq = Square::new(File::File5, Rank::Rank5);
    let bb = attacks_from(PieceType::King, Color::Black, sq);
    assert_eq!(bb.count(), 8);
}

#[test]
fn test_bitboard_basic() {
    let mut bb = Bitboard::ZERO();
    assert!(bb.is_zero());

    let sq = Square::new(File::File7, Rank::Rank7);
    bb.set(sq);
    assert!(bb.is_set(sq));
    assert!(!bb.is_zero());

    bb.clear(sq);
    assert!(!bb.is_set(sq));
    assert!(bb.is_zero());
}

#[test]
fn test_bitboard_count() {
    let mut bb = Bitboard::ZERO();
    assert_eq!(bb.count(), 0);

    bb.set(Square::new(File::File1, Rank::Rank1));
    bb.set(Square::new(File::File9, Rank::Rank9));
    assert_eq!(bb.count(), 2);
}

#[test]
fn test_bitboard_iter() {
    let mut bb = Bitboard::ZERO();
    bb.set(Square::new(File::File1, Rank::Rank1));
    bb.set(Square::new(File::File5, Rank::Rank5));
    bb.set(Square::new(File::File9, Rank::Rank9));

    let mut it = bb.iter();
    let mut squares: Vec<Square> = Vec::new();
    while let Some(sq) = it.next() {
        squares.push(sq);
    }
    assert_eq!(squares.len(), 3);
}

#[test]
fn test_bitboard_operations() {
    let bb1 = Bitboard::square_mask(Square::new(File::File1, Rank::Rank1));
    let bb2 = Bitboard::square_mask(Square::new(File::File9, Rank::Rank9));

    let bb_or = bb1 | bb2;
    assert_eq!(bb_or.count(), 2);

    let bb_and = bb1 & bb2;
    assert!(bb_and.is_zero());

    let bb_not = !bb1;
    assert_eq!(bb_not.count(), 80);
}

#[test]
fn test_hand_basic() {
    let mut hand = Hand::new();
    assert_eq!(hand, Hand::EMPTY());
    assert_eq!(hand.count(HandPiece::HPawn), 0);

    hand.add_one(HandPiece::HPawn);
    assert_eq!(hand.count(HandPiece::HPawn), 1);

    hand.add_one(HandPiece::HPawn);
    assert_eq!(hand.count(HandPiece::HPawn), 2);

    hand.remove_one(HandPiece::HPawn);
    assert_eq!(hand.count(HandPiece::HPawn), 1);
}

#[test]
fn test_hand_multiple() {
    let mut hand = Hand::new();
    hand.add_one(HandPiece::HRook);
    hand.add_one(HandPiece::HBishop);
    hand.add_one(HandPiece::HPawn);
    hand.add_one(HandPiece::HPawn);

    assert_eq!(hand.count(HandPiece::HRook), 1);
    assert_eq!(hand.count(HandPiece::HBishop), 1);
    assert_eq!(hand.count(HandPiece::HPawn), 2);
    assert_eq!(hand.count(HandPiece::HGold), 0);
}

#[test]
fn test_hand_sfen() {
    let mut hand = Hand::new();
    hand.set(HandPiece::HRook, 1);
    hand.set(HandPiece::HBishop, 1);
    hand.set(HandPiece::HPawn, 3);

    let sfen = hand.to_sfen();
    assert_eq!(sfen, "RB3P");

    let parsed = Hand::from_sfen(&sfen).unwrap();
    assert_eq!(hand, parsed);
}

#[test]
fn test_hand_empty_sfen() {
    let hand = Hand::EMPTY();
    assert_eq!(hand.to_sfen(), "-");

    let parsed = Hand::from_sfen("-").unwrap();
    assert_eq!(hand, parsed);
}

#[test]
fn test_move_normal() {
    let from = Square::new(File::File7, Rank::Rank7);
    let to = Square::new(File::File7, Rank::Rank6);
    let mv = Move::new_normal(from, to, PieceType::Pawn, false);

    assert_eq!(mv.from(), Some(from));
    assert_eq!(mv.to(), to);
    assert!(!mv.is_drop());
    assert!(!mv.is_promotion());
    assert_eq!(mv.piece_type_from(), PieceType::Pawn);
}

#[test]
fn test_move_promotion() {
    let from = Square::new(File::File2, Rank::Rank2);
    let to = Square::new(File::File2, Rank::Rank1);
    let mv = Move::new_normal(from, to, PieceType::Pawn, true);

    assert!(mv.is_promotion());
    assert_eq!(mv.piece_type_to(), PieceType::ProPawn);
}

#[test]
fn test_move_drop() {
    let to = Square::new(File::File5, Rank::Rank5);
    let mv = Move::new_drop(PieceType::Pawn, to);

    assert!(mv.is_drop());
    assert_eq!(mv.to(), to);
    assert_eq!(mv.piece_type_dropped(), PieceType::Pawn);
    assert_eq!(mv.from(), None);
}

#[test]
fn test_move_usi() {
    let from = Square::new(File::File7, Rank::Rank7);
    let to = Square::new(File::File7, Rank::Rank6);
    let mv = Move::new_normal(from, to, PieceType::Pawn, false);
    assert_eq!(mv.to_usi(), "7g7f");

    let mv2 = Move::new_normal(from, to, PieceType::Pawn, true);
    assert_eq!(mv2.to_usi(), "7g7f+");

    let mv3 = Move::new_drop(PieceType::Pawn, to);
    assert_eq!(mv3.to_usi(), "P*7f");
}

#[test]
fn test_move_parse_usi() {
    let mv = Move::from_usi("7g7f").unwrap();
    assert!(!mv.is_drop());
    assert_eq!(mv.to(), Square::new(File::File7, Rank::Rank6));

    let mv2 = Move::from_usi("7g7f+").unwrap();
    assert!(mv2.is_promotion());

    let mv3 = Move::from_usi("P*5e").unwrap();
    assert!(mv3.is_drop());
    assert_eq!(mv3.piece_type_dropped(), PieceType::Pawn);
}

#[test]
fn test_piece_creation() {
    let p = Piece::new(Color::Black, PieceType::Pawn);
    assert_eq!(p.color(), Color::Black);
    assert_eq!(p.piece_type(), PieceType::Pawn);
}

#[test]
fn test_piece_promote() {
    let pawn = Piece::new(Color::Black, PieceType::Pawn);
    let promoted = pawn.promote().unwrap();
    assert_eq!(promoted.piece_type(), PieceType::ProPawn);
}

#[test]
fn test_piece_inverse() {
    let black_pawn = Piece::new(Color::Black, PieceType::Pawn);
    let white_pawn = black_pawn.inverse();
    assert_eq!(white_pawn.color(), Color::White);
    assert_eq!(white_pawn.piece_type(), PieceType::Pawn);
}

#[test]
fn test_square_creation() {
    let sq = Square::new(File::File7, Rank::Rank7);
    assert_eq!(sq.file(), File::File7);
    assert_eq!(sq.rank(), Rank::Rank7);
}

#[test]
fn test_usi_conversion() {
    let sq = Square::new(File::File7, Rank::Rank7);
    assert_eq!(sq.to_usi(), "7g");

    let sq2 = Square::from_usi("7g").unwrap();
    assert_eq!(sq, sq2);
}

#[test]
fn test_can_promote() {
    let sq1 = Square::new(File::File7, Rank::Rank3);
    assert!(sq1.can_promote(Color::Black));
    assert!(!sq1.can_promote(Color::White));

    let sq2 = Square::new(File::File3, Rank::Rank7);
    assert!(!sq2.can_promote(Color::Black));
    assert!(sq2.can_promote(Color::White));
}

#[test]
fn test_square_delta() {
    let sq = Square::new(File::File9, Rank::Rank5);
    assert_eq!(sq + SquareDelta::E(), None);

    let sq = Square::new(File::File1, Rank::Rank5);
    assert_eq!(sq + SquareDelta::W(), None);

    let sq = Square::new(File::File5, Rank::Rank1);
    assert_eq!(sq + SquareDelta::N(), None);

    let sq = Square::new(File::File5, Rank::Rank9);
    assert_eq!(sq + SquareDelta::S(), None);

    let sq = Square::new(File::File5, Rank::Rank5);
    let sq_n = (sq + SquareDelta::N()).unwrap();
    assert_eq!(sq_n, Square::new(File::File5, Rank::Rank4));
}

#[test]
fn move_usi_reads_back_the_same_text() {
    let from = Square::new(File::File3, Rank::Rank3);
    let to = Square::new(File::File2, Rank::Rank2);
    let mv = Move::new_normal(from, to, PieceType::Silver, true);
    let text = mv.to_usi();
    assert_eq!(text, "3c2b+");
    let back = Move::from_usi(&text).unwrap();
    assert_eq!(back.to_usi(), text);
    assert_eq!(back.from(), Some(from));
    assert_eq!(back.to(), to);
    assert!(back.is_promotion());
    assert_eq!(back.piece_type_from(), PieceType::Pawn);
    let drop = Move::new_drop(PieceType::Gold, to);
    assert_eq!(Move::from_usi(&drop.to_usi()), Some(drop));
}

#[test]
fn bitboard_picture_shows_set_squares() {
    let mut bb = Bitboard::ZERO();
    bb.set(Square::new(File::File1, Rank::Rank1));
    bb.set(Square::new(File::File9, Rank::Rank9));
    let pic = bb.to_picture();
    let lines: Vec<&str> = pic.lines().collect();
    assert_eq!(lines.len(), 10);
    assert_eq!(lines[0], "Bitboard:");
    assert_eq!(lines[1], ". . . . . . . . 1 ");
    assert_eq!(lines[5], ". . . . . . . . . ");
    assert_eq!(lines[9], "1 . . . . . . . . ");
    assert!(pic.ends_with('\n'));
}

#[test]
fn white_attacks_are_black_attacks_turned() {
    let kinds = [
        PieceType::Pawn,
        PieceType::Lance,
        PieceType::Knight,
        PieceType::Silver,
        PieceType::Gold,
        PieceType::Bishop,
        PieceType::Rook,
        PieceType::King,
        PieceType::Horse,
        PieceType::Dragon,
    ];
    for pt in kinds {
        for s in 0..81u8 {
            let w = attacks_from(pt, Color::White, Square(s));
            let b = attacks_from(pt, Color::Black, Square(80 - s));
            for u in 0..81u8 {
                assert_eq!(w.is_set(Square(u)), b.is_set(Square(80 - u)));
            }
        }
    }
}

#[test]
fn sfen_piece_letters_only() {
    assert_eq!(Piece::from_sfen_char('+'), None);
    assert_eq!(Piece::from_sfen_char('-'), None);
    assert_eq!(Piece::from_sfen_char('1'), None);
    let p = Piece::from_sfen_char('s').unwrap();
    assert_eq!(p.color(), Color::White);
    assert_eq!(p.piece_type(), PieceType::Silver);
    let p = Piece::from_sfen_char('K').unwrap();
    assert_eq!(p.color(), Color::Black);
}

#[test]
fn square_names_outside_the_board_are_refused() {
    assert_eq!(Square::from_usi("1a"), Some(Square(0)));
    assert_eq!(Square::from_usi("9i"), Some(Square(80)));
    assert_eq!(Square::from_usi("0a"), None);
    assert_eq!(Square::from_usi("1j"), None);
    assert_eq!(Square::from_usi("7G"), None);
    assert_eq!(Square::from_usi("7g7"), None);
    assert_eq!(Square::from_usi(""), None);
}
