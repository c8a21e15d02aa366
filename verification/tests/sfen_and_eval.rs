use cshogi_rust::eval_params::EvalParams;
use cshogi_rust::mate1ply::{gold_effect, king_effect, knight_effect, pawn_effect, rook_step_effect, silver_effect, bishop_step_effect};
use cshogi_rust::{Color, File, Hand, HandPiece, Move, PieceType, Position, Rank, Square};

const START: &str = "lnsgkgsnl/1r5b1/ppppppppp/9/9/9/PPPPPPPPP/1B5R1/LNSGKGSNL b - 1";

#[test]
fn start_position_writes_standard_sfen() {
    let pos = Position::start_position();
    assert_eq!(pos.to_sfen(), START);
}

#[test]
fn sfen_reads_back_what_it_wrote() {
    let pos = Position::from_sfen(START).unwrap();
    assert_eq!(pos.to_sfen(), START);
    let other = "l6nl/5+P1gk/2np1S3/p1p4Pp/3P2Sp1/1PPb2P1P/P5GS1/R8/LN4bKL w RGgsn5p 1";
    let pos = Position::from_sfen(other).unwrap();
    assert_eq!(pos.to_sfen(), other);
    assert_eq!(pos.side_to_move(), Color::White);
    assert_eq!(pos.hand(Color::Black).count(HandPiece::HRook), 1);
    assert_eq!(pos.hand(Color::White).count(HandPiece::HPawn), 5);
}

#[test]
fn sfen_rejects_bad_text() {
    assert!(Position::from_sfen("").is_none());
    assert!(Position::from_sfen("9/9/9/9/9/9/9/9/9 b").is_none());
    assert!(Position::from_sfen("9/9/9/9/9/9/9/9/9 x - 1").is_none());
    assert!(Position::from_sfen("9/9/9/9/9/9/9/9/8X b - 1").is_none());
    assert!(Position::from_sfen("9/9/9/9/9/9/9/9/8+G b - 1").is_none());
    assert!(Position::from_sfen("9k/9/9/9/9/9/9/9/9 b - 1").is_none());
    assert!(Position::from_sfen("9/9/9/9/9/9/9/9/9 b 3 1").is_none());
    assert!(Position::from_sfen("9/9/9/9/9/9/9/9/9 b X 1").is_none());
}

#[test]
fn sfen_move_number_rules() {
    let three_words = Position::from_sfen("9/9/9/9/9/9/9/9/4K4 b -").unwrap();
    assert_eq!(three_words.to_sfen(), "9/9/9/9/9/9/9/9/4K4 b - 0");
    let not_a_number = Position::from_sfen("9/9/9/9/9/9/9/9/4K4 b - x").unwrap();
    assert_eq!(not_a_number.to_sfen(), "9/9/9/9/9/9/9/9/4K4 b - 1");
    let plus = Position::from_sfen("9/9/9/9/9/9/9/9/4K4 b - +42").unwrap();
    assert_eq!(plus.to_sfen(), "9/9/9/9/9/9/9/9/4K4 b - 42");
}

#[test]
fn sfen_hands_set_counts() {
    let pos = Position::from_sfen("9/9/9/9/9/9/9/9/4K4 b 2P3p 1").unwrap();
    assert_eq!(pos.hand(Color::Black).count(HandPiece::HPawn), 2);
    assert_eq!(pos.hand(Color::White).count(HandPiece::HPawn), 3);
    let later_wins = Position::from_sfen("9/9/9/9/9/9/9/9/4K4 b 2P5P 1").unwrap();
    assert_eq!(later_wins.hand(Color::Black).count(HandPiece::HPawn), 5);
}

#[test]
fn evaluate_is_zero_at_start() {
    let pos = Position::start_position();
    assert_eq!(pos.evaluate(), 0);
}

#[test]
fn evaluate_counts_material_and_hands() {
    let pos = Position::from_sfen("4k4/9/9/9/9/9/9/9/4K4 b R 1").unwrap();
    assert_eq!(pos.evaluate(), 990);
}

#[test]
fn evaluate_improved_at_start_is_the_tempo() {
    let pos = Position::start_position();
    let params = EvalParams::default();
    let mut rng: u64 = 12345;
    assert_eq!(pos.evaluate_improved(&params, &mut rng), 20);
    assert_eq!(rng, 12345);
}

#[test]
fn evaluate_improved_hand_values() {
    let pos = Position::from_sfen("4k4/9/9/9/9/9/9/9/4K4 w R 1").unwrap();
    let params = EvalParams::default();
    let mut rng: u64 = 1;
    // Black's rook in hand is worth 1100; White is to move.
    assert_eq!(pos.evaluate_improved(&params, &mut rng), 1100 - 20);
}

#[test]
fn evaluate_improved_noise_steps_generator() {
    let pos = Position::start_position();
    let mut params = EvalParams::default();
    params.eval_noise = 3;
    let mut rng: u64 = 12345;
    let score = pos.evaluate_improved(&params, &mut rng);
    let expected_state = 12345u64.wrapping_mul(6364136223846793005).wrapping_add(1);
    assert_eq!(rng, expected_state);
    let x = (expected_state >> 32) as u32;
    assert_eq!(score, 20 + (x % 7) as i32 - 3);
}

#[test]
fn default_params_values() {
    let p = EvalParams::default();
    assert_eq!(p.hand_pawn, 100);
    assert_eq!(p.hand_rook, 1100);
    assert_eq!(p.king_center_penalty, -15);
    assert_eq!(p.eval_noise, 0);
}

#[test]
fn step_effects_match_piece_patterns() {
    let sq = Square::new(File::File5, Rank::Rank5);
    assert_eq!(king_effect(sq).count(), 8);
    assert_eq!(rook_step_effect(sq).count(), 16);
    assert_eq!(bishop_step_effect(sq).count(), 5);
    assert_eq!(gold_effect(Color::Black, sq).count(), 6);
    assert_eq!(silver_effect(Color::White, sq).count(), 5);
    assert_eq!(knight_effect(Color::Black, sq).count(), 2);
    assert_eq!(pawn_effect(Color::White, sq).count(), 1);
    assert!(pawn_effect(Color::White, sq).is_set(Square::new(File::File5, Rank::Rank6)));
}

#[test]
fn mate1ply_finds_knight_drop() {
    let pos = Position::from_sfen("7RG/9/8k/9/8P/7P1/9/9/K8 b N 1").unwrap();
    let mv = pos.mate1ply_fast().unwrap();
    assert_eq!(mv.to_usi(), "N*2e");
    assert_eq!(pos.mate1ply(), Some(mv));
    let mut after = pos;
    after.do_move(mv);
    assert!(after.in_check());
    assert!(after.generate_legal_moves().is_empty());
}

#[test]
fn mate1ply_rejects_a_drop_the_king_escapes() {
    // N*2e checks the king on 1c, but the knight blocks the rook's file and
    // the king walks out to 2c.
    let pos = Position::from_sfen("9/9/8k/9/8P/9/9/9/K6RL b N 1").unwrap();
    assert_eq!(pos.mate1ply_fast(), None);
    assert_eq!(pos.mate1ply(), None);
}

#[test]
fn mate1ply_none_at_start() {
    let pos = Position::start_position();
    assert_eq!(pos.mate1ply_fast(), None);
}

#[test]
fn mate1ply_counts_king_as_defender() {
    // The gold drop on 5b would mate, but the search counts the king as able
    // to take any piece next to it.
    let pos = Position::from_sfen("4k4/9/4P4/9/9/9/9/9/4K4 b G 1").unwrap();
    assert_eq!(pos.mate1ply_fast(), None);
}

#[test]
fn has_attacker_and_pawn_file() {
    let pos = Position::start_position();
    assert!(pos.has_attacker_to(Color::Black, Square::new(File::File7, Rank::Rank6)));
    assert!(!pos.has_attacker_to(Color::Black, Square::new(File::File5, Rank::Rank4)));
    assert!(pos.has_pawn_on_file(Color::Black, File::File5));
    let no_pawns = Position::from_sfen("4k4/9/9/9/9/9/9/9/4K4 b - 1").unwrap();
    assert!(!no_pawns.has_pawn_on_file(Color::Black, File::File5));
}

#[test]
fn do_move_and_null_move() {
    let mut pos = Position::start_position();
    let mv = Move::from_usi("7g7f").unwrap();
    pos.do_move(mv);
    assert_eq!(pos.to_sfen(), "lnsgkgsnl/1r5b1/ppppppppp/9/9/2P6/PP1PPPPPP/1B5R1/LNSGKGSNL w - 2");
    let null = pos.make_null_move();
    assert_eq!(null.side_to_move(), Color::Black);
    assert_eq!(null.to_sfen(), "lnsgkgsnl/1r5b1/ppppppppp/9/9/2P6/PP1PPPPPP/1B5R1/LNSGKGSNL b - 2");
}

#[test]
fn capture_goes_to_hand_unpromoted() {
    let mut pos = Position::from_sfen("4k4/9/9/9/4+p4/4R4/9/9/4K4 b - 1").unwrap();
    let mv = pos
        .generate_legal_moves()
        .into_iter()
        .find(|m| m.to_usi() == "5f5e")
        .unwrap();
    pos.do_move(mv);
    assert_eq!(pos.hand(Color::Black).count(HandPiece::HPawn), 1);
    assert_eq!(pos.piece_at(Square::new(File::File5, Rank::Rank5)).piece_type(), PieceType::Rook);
}

#[test]
fn hand_set_keeps_other_kinds() {
    let mut h = Hand::new();
    h.set(HandPiece::HGold, 4);
    h.set(HandPiece::HPawn, 18);
    h.set(HandPiece::HGold, 2);
    assert_eq!(h.count(HandPiece::HGold), 2);
    assert_eq!(h.count(HandPiece::HPawn), 18);
    assert_eq!(h.count(HandPiece::HRook), 0);
}

#[test]
fn can_drop_pawn_checks_file() {
    let pos = Position::from_sfen("4k4/9/9/9/4P4/9/9/9/4K4 b P 1").unwrap();
    assert!(!pos.can_drop_pawn(4));
    assert!(pos.can_drop_pawn(3));
}

#[test]
fn sfen_reads_back_a_played_position() {
    let mut pos = Position::from_sfen("4k4/9/9/9/4+p4/4R4/9/9/4K4 b 2Sg 7").unwrap();
    let mv = pos
        .generate_legal_moves()
        .into_iter()
        .find(|m| m.to_usi() == "5f5e")
        .unwrap();
    pos.do_move(mv);
    let text = pos.to_sfen();
    assert_eq!(text, "4k4/9/9/9/4R4/9/9/9/4K4 w 2SPg 8");
    let back = Position::from_sfen(&text).unwrap();
    assert_eq!(back.to_sfen(), text);
    assert_eq!(back.side_to_move(), pos.side_to_move());
    assert_eq!(back.hand(Color::Black), pos.hand(Color::Black));
    assert_eq!(back.hand(Color::White), pos.hand(Color::White));
    assert_eq!(back.occupied_bb(), pos.occupied_bb());
    for f in 0..9u8 {
        for r in 0..9u8 {
            let sq = Square(f * 9 + r);
            assert_eq!(back.piece_at(sq), pos.piece_at(sq));
        }
    }
}

fn pieces_of_kind(pos: &Position, hp: HandPiece) -> u32 {
    let mut n = 0;
    for s in 0..81u8 {
        let p = pos.piece_at(Square(s));
        if !p.is_empty() && HandPiece::from_piece_type(p.piece_type()) == Some(hp) {
            n += 1;
        }
    }
    n + pos.hand(Color::Black).count(hp) + pos.hand(Color::White).count(hp)
}

#[test]
fn moves_keep_the_pieces() {
    let mut pos = Position::from_sfen("4k4/9/9/9/4+p4/4R4/9/9/4K4 b S 1").unwrap();
    let kinds = [HandPiece::HPawn, HandPiece::HRook, HandPiece::HSilver];
    let before: Vec<u32> = kinds.iter().map(|&h| pieces_of_kind(&pos, h)).collect();
    let mv = pos.generate_legal_moves().into_iter().find(|m| m.to_usi() == "5f5e").unwrap();
    pos.do_move(mv);
    let after: Vec<u32> = kinds.iter().map(|&h| pieces_of_kind(&pos, h)).collect();
    assert_eq!(before, after);
    assert_eq!(pos.hand(Color::Black).count(HandPiece::HPawn), 1);
    let mut pos = Position::from_sfen("4k4/9/9/9/9/9/9/9/4K4 b S 1").unwrap();
    let mv = pos.generate_legal_moves().into_iter().find(|m| m.is_drop()).unwrap();
    pos.do_move(mv);
    let after: Vec<u32> = kinds.iter().map(|&h| pieces_of_kind(&pos, h)).collect();
    assert_eq!(after, vec![0, 0, 1]);
    assert_eq!(pos.hand(Color::Black).count(HandPiece::HSilver), 0);
}

#[test]
fn evaluation_turns_sign_with_the_board() {
    let mut params = EvalParams::default();
    params.eval_noise = 0;
    let p = Position::from_sfen("lnsgkgsnl/1r5b1/ppppppppp/9/9/2P6/PP1PPPPPP/1B5R1/LNSGKGSNL w - 2").unwrap();
    let q = Position::from_sfen("lnsgkgsnl/1r5b1/pppppp1pp/6p2/9/9/PPPPPPPPP/1B5R1/LNSGKGSNL b - 2").unwrap();
    let a = p.evaluate_improved(&params, &mut 0u64);
    let b = q.evaluate_improved(&params, &mut 0u64);
    assert_eq!(b, -a);
    let p = Position::from_sfen("4k4/9/4G4/9/9/9/2p6/9/4K4 b Rp 1").unwrap();
    let q = Position::from_sfen("4k4/9/6P2/9/9/9/4g4/9/4K4 w rP 1").unwrap();
    let a = p.evaluate_improved(&params, &mut 0u64);
    let b = q.evaluate_improved(&params, &mut 0u64);
    assert_eq!(b, -a);
}

#[test]
fn evaluation_flips_sign_with_the_board_turned() {
    let mut params = EvalParams::default();
    params.eval_noise = 0;
    let p = Position::from_sfen("4k4/9/9/9/9/9/2P6/9/4K4 b G 1").unwrap();
    let q = Position::from_sfen("4k4/9/6p2/9/9/9/9/9/4K4 w g 1").unwrap();
    let ep = p.evaluate_improved(&params, &mut 0u64);
    let eq = q.evaluate_improved(&params, &mut 0u64);
    assert_eq!(eq, -ep);
    assert_ne!(ep, 0);
}
