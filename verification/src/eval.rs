//! The evaluation with adjustable weights: material (with configurable hand
//! values), piece placement, king safety, the move, and optional noise.
//!
//! The score is the sum of these terms taken in 32-bit two's complement, as
//! the accumulation in `i32` gives it when it wraps; every term itself is
//! computed exactly.
use vstd::prelude::*;
use crate::types::{Color, Square, File, Rank, sq_file, sq_rank, abs_int};
use crate::piece::{Piece, PieceType, HandPiece, piece_value, piece_value_spec};
use crate::hand::{Hand, hand_field_max};
use crate::position::{Position, PosView, board_material, lemma_king_sq};
use crate::piece::piece_spec;
use crate::attacks::lemma_turn_square;
use crate::eval_params::EvalParams;

verus! {

/// The value of a hand under the weights `p`.
pub open spec fn hand_value(h: Hand, p: EvalParams) -> int {
    h.cnt(HandPiece::HPawn) * p.hand_pawn + h.cnt(HandPiece::HLance) * p.hand_lance + h.cnt(HandPiece::HKnight)
        * p.hand_knight + h.cnt(HandPiece::HSilver) * p.hand_silver + h.cnt(HandPiece::HGold) * p.hand_gold
        + h.cnt(HandPiece::HBishop) * p.hand_bishop + h.cnt(HandPiece::HRook) * p.hand_rook
}

/// The material term: the board's material balance and Black's hand value
/// less White's.
pub open spec fn material_spec(v: PosView, p: EvalParams) -> int {
    board_material(v.board, 81) + hand_value(v.hand[0], p) - hand_value(v.hand[1], p)
}

/// The number of king steps along files plus along ranks between two squares.
pub open spec fn manhattan(s1: int, s2: int) -> int {
    abs_int(sq_file(s1) - sq_file(s2)) + abs_int(sq_rank(s1) - sq_rank(s2))
}

/// The weight of a kind's closeness to the enemy king.
pub open spec fn proximity_weight(pt: PieceType, p: EvalParams) -> int {
    match pt {
        PieceType::Rook | PieceType::Dragon => p.rook_proximity_weight as int,
        PieceType::Bishop | PieceType::Horse => p.bishop_proximity_weight as int,
        PieceType::Gold | PieceType::ProPawn | PieceType::ProLance | PieceType::ProKnight
        | PieceType::ProSilver => p.gold_proximity_weight as int,
        _ => 0,
    }
}

/// The bonus of a kind inside the enemy camp.
pub open spec fn zone_bonus(pt: PieceType, p: EvalParams) -> int {
    match pt {
        PieceType::Gold | PieceType::ProPawn | PieceType::ProLance | PieceType::ProKnight
        | PieceType::ProSilver => p.enemy_zone_gold as int,
        PieceType::Horse => p.enemy_zone_horse as int,
        PieceType::Dragon => p.enemy_zone_dragon as int,
        PieceType::Rook => p.enemy_zone_rook as int,
        PieceType::Bishop => p.enemy_zone_bishop as int,
        PieceType::Pawn | PieceType::Lance | PieceType::Knight | PieceType::Silver => p.enemy_zone_pawn as int,
        _ => 0,
    }
}

/// The bonus of a kind on a central file.
pub open spec fn center_bonus(pt: PieceType, p: EvalParams) -> int {
    match pt {
        PieceType::Rook | PieceType::Dragon => p.center_rook as int,
        PieceType::Bishop | PieceType::Horse => p.center_bishop as int,
        PieceType::Silver | PieceType::Gold => p.center_gold as int,
        _ => 0,
    }
}

/// Rank index `r` lies in the camp of the side opposing `c` (the first three
/// ranks for Black, the last three for White).
pub open spec fn in_enemy_camp(c: Color, r: int) -> bool {
    match c {
        Color::Black => r <= 2,
        Color::White => r >= 6,
    }
}

/// The smaller of two integers.
pub open spec fn min_int(a: int, b: int) -> int {
    if a < b {
        a
    } else {
        b
    }
}

/// The placement bonus of the piece on `s` (not for kings): closeness to the
/// enemy king, presence in the enemy camp and on the central files; Black's
/// count for, White's against.
pub open spec fn piece_bonus(v: PosView, s: int, p: EvalParams) -> int {
    let piece = v.board[s];
    if piece.empty() || piece.kind() == PieceType::King {
        0
    } else {
        let c = piece.owner();
        let pt = piece.kind();
        let prox = match v.king_sq(c.opp()) {
            Some(k) => (14 - min_int(manhattan(s, k.0 as int), 14)) * proximity_weight(pt, p),
            None => 0,
        };
        let zone = if in_enemy_camp(c, sq_rank(s)) {
            zone_bonus(pt, p)
        } else {
            0
        };
        let center = if 3 <= sq_file(s) <= 5 {
            center_bonus(pt, p)
        } else {
            0
        };
        if c == Color::Black {
            prox + zone + center
        } else {
            -(prox + zone + center)
        }
    }
}

/// The placement term over the squares `0..n`.
pub open spec fn placement_sum(v: PosView, p: EvalParams, n: int) -> int
    decreases n,
{
    if n <= 0 {
        0
    } else {
        placement_sum(v, p, n - 1) + piece_bonus(v, n - 1, p)
    }
}

/// The square at offset number `k` (file step `k / 3 - 1`, rank step
/// `k % 3 - 1`) around file `f`, rank `r`, if it is a different square on
/// the board.
pub open spec fn neighbor_at(f: int, r: int, k: int) -> Seq<Square> {
    let nf = f + k / 3 - 1;
    let nr = r + k % 3 - 1;
    if k == 4 || nf < 0 || nf >= 9 || nr < 0 || nr >= 9 {
        Seq::empty()
    } else {
        seq![Square((nf * 9 + nr) as u8)]
    }
}

/// The neighbours at the first `k` offsets.
pub open spec fn neighbors_upto(f: int, r: int, k: int) -> Seq<Square>
    decreases k,
{
    if k <= 0 {
        Seq::empty()
    } else {
        neighbors_upto(f, r, k - 1) + neighbor_at(f, r, k - 1)
    }
}

/// The squares next to square `s`, by file step then rank step, each from -1
/// to 1.
pub open spec fn king_neighbors(s: int) -> Seq<Square> {
    neighbors_upto(sq_file(s), sq_rank(s), 9)
}

/// The value of `piece` as a guard of the king of `c`.
pub open spec fn guard_value(piece: Piece, c: Color, p: EvalParams) -> int {
    if !piece.empty() && piece.owner() == c {
        match piece.kind() {
            PieceType::Gold => p.king_safety_gold as int,
            PieceType::Silver => p.king_safety_silver as int,
            PieceType::ProPawn | PieceType::ProLance | PieceType::ProKnight
            | PieceType::ProSilver => p.king_safety_propawn as int,
            PieceType::Pawn => p.king_safety_pawn as int,
            _ => 0,
        }
    } else {
        0
    }
}

/// The guard values of the pieces on the first `n` squares of `ns`.
pub open spec fn guards_sum(v: PosView, c: Color, p: EvalParams, ns: Seq<Square>, n: int) -> int
    decreases n,
{
    if n <= 0 {
        0
    } else {
        guards_sum(v, c, p, ns, n - 1) + guard_value(v.board[ns[n - 1].0 as int], c, p)
    }
}

/// The value of the king's file: the edge is safe, the centre is not.
pub open spec fn file_term(f: int, p: EvalParams) -> int {
    if f == 0 || f == 8 {
        p.king_edge_bonus as int
    } else if 3 <= f <= 5 {
        p.king_center_penalty as int
    } else {
        0
    }
}

/// The safety of the king of `c` (0 without a king).
pub open spec fn side_safety(v: PosView, c: Color, p: EvalParams) -> int {
    match v.king_sq(c) {
        None => 0,
        Some(k) => {
            let ns = king_neighbors(k.0 as int);
            guards_sum(v, c, p, ns, ns.len() as int) + file_term(sq_file(k.0 as int), p)
        },
    }
}

/// The king-safety term: Black's safety less White's.
pub open spec fn king_safety_spec(v: PosView, p: EvalParams) -> int {
    side_safety(v, Color::Black, p) - side_safety(v, Color::White, p)
}

/// The value of having the move, for Black.
pub open spec fn tempo_spec(v: PosView, p: EvalParams) -> int {
    if v.side == Color::Black {
        p.tempo_value as int
    } else {
        -p.tempo_value
    }
}

/// The score before noise, computed exactly.
pub open spec fn score_spec(v: PosView, p: EvalParams) -> int {
    material_spec(v, p) + placement_sum(v, p, 81) + king_safety_spec(v, p) + tempo_spec(v, p)
}

/// The next state of the noise generator (a 64-bit linear congruential step).
pub open spec fn lcg_next(s: u64) -> u64 {
    vstd::wrapping::u64_specs::wrapping_add(vstd::wrapping::u64_specs::wrapping_mul(s, 6364136223846793005u64), 1u64)
}

/// The number a generator state yields: its high 32 bits.
pub open spec fn rand_output(s: u64) -> u32 {
    (s >> 32u64) as u32
}

/// The noise drawn from `x` for half-width `n`: a value from `-n` to `n`.
pub open spec fn noise_term(n: i32, x: u32) -> int {
    (x as int) % (2 * n + 1) - n
}

/// Steps the noise generator and returns its next number.
pub fn simple_rand(state: &mut u64) -> (r: u32)
    ensures
        *final(state) == lcg_next(*old(state)),
        r == rand_output(*final(state)),
{
    let new_state = state.wrapping_mul(6364136223846793005).wrapping_add(1);
    *state = new_state;
    (new_state >> 32) as u32
}

proof fn lemma_scaled(a: int, b: int, amax: int)
    requires
        0 <= a <= amax,
        -0x8000_0000 <= b < 0x8000_0000,
    ensures
        -amax * 0x8000_0000 <= a * b <= amax * 0x8000_0000,
{
    assert(-amax * 0x8000_0000 <= a * b <= amax * 0x8000_0000) by (nonlinear_arith)
        requires
            0 <= a <= amax,
            -0x8000_0000 <= b < 0x8000_0000,
    ;
}

/// Bounds of the hand value.
proof fn lemma_hand_value_bound(h: Hand, p: EvalParams)
    ensures
        -7 * 31 * 0x8000_0000 <= hand_value(h, p) <= 7 * 31 * 0x8000_0000,
{
    Hand::lemma_cnt_bound(h, HandPiece::HPawn);
    Hand::lemma_cnt_bound(h, HandPiece::HLance);
    Hand::lemma_cnt_bound(h, HandPiece::HKnight);
    Hand::lemma_cnt_bound(h, HandPiece::HSilver);
    Hand::lemma_cnt_bound(h, HandPiece::HGold);
    Hand::lemma_cnt_bound(h, HandPiece::HBishop);
    Hand::lemma_cnt_bound(h, HandPiece::HRook);
    lemma_scaled(h.cnt(HandPiece::HPawn) as int, p.hand_pawn as int, 31);
    lemma_scaled(h.cnt(HandPiece::HLance) as int, p.hand_lance as int, 31);
    lemma_scaled(h.cnt(HandPiece::HKnight) as int, p.hand_knight as int, 31);
    lemma_scaled(h.cnt(HandPiece::HSilver) as int, p.hand_silver as int, 31);
    lemma_scaled(h.cnt(HandPiece::HGold) as int, p.hand_gold as int, 31);
    lemma_scaled(h.cnt(HandPiece::HBishop) as int, p.hand_bishop as int, 31);
    lemma_scaled(h.cnt(HandPiece::HRook) as int, p.hand_rook as int, 31);
}

/// Bounds of a placement bonus.
proof fn lemma_piece_bonus_bound(v: PosView, s: int, p: EvalParams)
    ensures
        -16 * 0x8000_0000 <= piece_bonus(v, s, p) <= 16 * 0x8000_0000,
{
    let piece = v.board[s];
    if !(piece.empty() || piece.kind() == PieceType::King) {
        let c = piece.owner();
        let pt = piece.kind();
        match v.king_sq(c.opp()) {
            Some(k) => {
                let d = 14 - min_int(manhattan(s, k.0 as int), 14);
                assert(0 <= d <= 14);
                lemma_scaled(d, proximity_weight(pt, p), 14);
            },
            None => {},
        }
    }
}

/// Bounds of a sum of guard values.
proof fn lemma_guards_bound(v: PosView, c: Color, p: EvalParams, ns: Seq<Square>, n: int)
    requires
        n >= 0,
    ensures
        -n * 0x8000_0000 <= guards_sum(v, c, p, ns, n) <= n * 0x8000_0000,
    decreases n,
{
    if n > 0 {
        lemma_guards_bound(v, c, p, ns, n - 1);
    }
}

impl Position {
    /// The distance between two squares counted in file steps plus rank steps.
    fn manhattan_distance(&self, sq1: Square, sq2: Square) -> (r: i32)
        requires
            sq1.on_board(),
            sq2.on_board(),
        ensures
            r == manhattan(sq1.0 as int, sq2.0 as int),
            0 <= r <= 16,
    {
        let f1 = sq1.file().to_u8() as i32;
        let f2 = sq2.file().to_u8() as i32;
        let r1 = sq1.rank().to_u8() as i32;
        let r2 = sq2.rank().to_u8() as i32;
        let file_diff = if f1 >= f2 {
            f1 - f2
        } else {
            f2 - f1
        };
        let rank_diff = if r1 >= r2 {
            r1 - r2
        } else {
            r2 - r1
        };
        file_diff + rank_diff
    }

    /// The squares next to `king_sq` (see `king_neighbors`).
    fn get_king_neighbors(&self, king_sq: Square) -> (r: Vec<Square>)
        requires
            king_sq.on_board(),
        ensures
            r@ == king_neighbors(king_sq.0 as int),
            r@.len() <= 9,
            forall|i: int| 0 <= i < r@.len() ==> (#[trigger] r@[i]).on_board(),
    {
        let file = king_sq.file().to_u8() as i32;
        let rank = king_sq.rank().to_u8() as i32;
        let ghost f = file as int;
        let ghost rk = rank as int;
        let mut neighbors: Vec<Square> = Vec::new();
        let mut df: i32 = -1;
        while df <= 1
            invariant
                -1 <= df <= 2,
                0 <= file < 9,
                0 <= rank < 9,
                f == file,
                rk == rank,
                f == sq_file(king_sq.0 as int),
                rk == sq_rank(king_sq.0 as int),
                neighbors@ == neighbors_upto(f, rk, (df + 1) * 3),
                neighbors@.len() <= (df + 1) * 3,
                forall|i: int| 0 <= i < neighbors@.len() ==> (#[trigger] neighbors@[i]).on_board(),
            decreases 2 - df,
        {
            let mut dr: i32 = -1;
            while dr <= 1
                invariant
                    -1 <= df <= 1,
                    -1 <= dr <= 2,
                    0 <= file < 9,
                    0 <= rank < 9,
                    f == file,
                    rk == rank,
                    neighbors@ == neighbors_upto(f, rk, (df + 1) * 3 + dr + 1),
                    neighbors@.len() <= (df + 1) * 3 + dr + 1,
                    forall|i: int| 0 <= i < neighbors@.len() ==> (#[trigger] neighbors@[i]).on_board(),
                decreases 2 - dr,
            {
                let ghost k = (df + 1) * 3 + dr + 1;
                let ghost prev = neighbors@;
                assert(k / 3 - 1 == df && k % 3 - 1 == dr);
                if !(df == 0 && dr == 0) {
                    let new_file = file + df;
                    let new_rank = rank + dr;
                    if new_file >= 0 && new_file < 9 && new_rank >= 0 && new_rank < 9 {
                        let fo = File::from_u8(new_file as u8);
                        let ro = Rank::from_u8(new_rank as u8);
                        let sq = Square::new(fo.unwrap(), ro.unwrap());
                        neighbors.push(sq);
                        assert(neighbor_at(f, rk, k) =~= seq![sq]);
                    } else {
                        assert(neighbor_at(f, rk, k) =~= Seq::<Square>::empty());
                    }
                } else {
                    assert(k == 4);
                    assert(neighbor_at(f, rk, k) =~= Seq::<Square>::empty());
                }
                assert(neighbors@ =~= prev + neighbor_at(f, rk, k));
                dr = dr + 1;
            }
            df = df + 1;
        }
        neighbors
    }

    /// The material term with the hand values of `params` (see `material_spec`).
    fn evaluate_material_with_hand(&self, params: &EvalParams) -> (r: i64)
        requires
            self@.pieces_ok(),
        ensures
            r == material_spec(self@, *params),
            -0x100_0000_0000 <= r <= 0x100_0000_0000,
    {
        proof {
            lemma_hand_value_bound(self@.hand[0], *params);
            lemma_hand_value_bound(self@.hand[1], *params);
        }
        let mut score: i64 = 0;
        let mut i: u8 = 0;
        while i < 81
            invariant
                i <= 81,
                self@.pieces_ok(),
                score == board_material(self@.board, i as int),
                -15000 * i <= score <= 15000 * i,
            decreases 81 - i,
        {
            let sq = Square::from_u8(i).unwrap();
            let piece = self.piece_at(sq);
            if !piece.is_empty() {
                let value = piece_value(piece.piece_type()) as i64;
                if piece.color() == Color::Black {
                    score = score + value;
                } else {
                    score = score - value;
                }
            }
            i = i + 1;
        }
        let bv = hand_value_exec(self.hand(Color::Black), params);
        let wv = hand_value_exec(self.hand(Color::White), params);
        score + bv - wv
    }

    /// The placement term over the whole board (see `placement_sum`).
    fn evaluate_simple_position(&self, params: &EvalParams) -> (r: i64)
        requires
            self@.wf(),
        ensures
            r == placement_sum(self@, *params, 81),
            -0x10_0000_0000 * 81 <= r <= 0x10_0000_0000 * 81,
    {
        let mut score: i64 = 0;
        let black_king = self.king_square(Color::Black);
        let white_king = self.king_square(Color::White);
        let mut i: u8 = 0;
        while i < 81
            invariant
                i <= 81,
                self@.wf(),
                black_king == self@.king_sq(Color::Black),
                white_king == self@.king_sq(Color::White),
                black_king matches Some(k) ==> k.on_board(),
                white_king matches Some(k) ==> k.on_board(),
                score == placement_sum(self@, *params, i as int),
                -0x10_0000_0000 * (i as int) <= score <= 0x10_0000_0000 * (i as int),
            decreases 81 - i,
        {
            proof {
                lemma_piece_bonus_bound(self@, i as int, *params);
            }
            let sq = Square::from_u8(i).unwrap();
            let piece = self.piece_at(sq);
            if !piece.is_empty() {
                let pt = piece.piece_type();
                let color = piece.color();
                if pt != PieceType::King {
                    let mut pos_bonus: i64 = 0;
                    let enemy_king = if color == Color::Black {
                        white_king
                    } else {
                        black_king
                    };
                    if let Some(king_sq) = enemy_king {
                        let dist = self.manhattan_distance(sq, king_sq) as i64;
                        let near = 14 - if dist < 14 {
                            dist
                        } else {
                            14
                        };
                        let w: i64 = match pt {
                            PieceType::Rook | PieceType::Dragon => params.rook_proximity_weight as i64,
                            PieceType::Bishop | PieceType::Horse => params.bishop_proximity_weight as i64,
                            PieceType::Gold | PieceType::ProPawn | PieceType::ProLance | PieceType::ProKnight
                            | PieceType::ProSilver => params.gold_proximity_weight as i64,
                            _ => 0,
                        };
                        assert(w == proximity_weight(pt, *params));
                        proof {
                            lemma_scaled(near as int, w as int, 14);
                        }
                        pos_bonus = pos_bonus + near * w;
                    }
                    let in_enemy_zone = if color == Color::Black {
                        sq.rank().to_u8() <= 2
                    } else {
                        sq.rank().to_u8() >= 6
                    };
                    if in_enemy_zone {
                        let z: i64 = match pt {
                            PieceType::Gold | PieceType::ProPawn | PieceType::ProLance | PieceType::ProKnight
                            | PieceType::ProSilver => params.enemy_zone_gold as i64,
                            PieceType::Horse => params.enemy_zone_horse as i64,
                            PieceType::Dragon => params.enemy_zone_dragon as i64,
                            PieceType::Rook => params.enemy_zone_rook as i64,
                            PieceType::Bishop => params.enemy_zone_bishop as i64,
                            PieceType::Pawn | PieceType::Lance | PieceType::Knight
                            | PieceType::Silver => params.enemy_zone_pawn as i64,
                            _ => 0,
                        };
                        assert(z == zone_bonus(pt, *params));
                        pos_bonus = pos_bonus + z;
                    }
                    let file = sq.file().to_u8();
                    if file >= 3 && file <= 5 {
                        let cb: i64 = match pt {
                            PieceType::Rook | PieceType::Dragon => params.center_rook as i64,
                            PieceType::Bishop | PieceType::Horse => params.center_bishop as i64,
                            PieceType::Silver | PieceType::Gold => params.center_gold as i64,
                            _ => 0,
                        };
                        assert(cb == center_bonus(pt, *params));
                        pos_bonus = pos_bonus + cb;
                    }
                    assert(-16 * 0x8000_0000 <= pos_bonus <= 16 * 0x8000_0000);
                    if color == Color::Black {
                        score = score + pos_bonus;
                    } else {
                        score = score - pos_bonus;
                    }
                }
            }
            assert(score == placement_sum(self@, *params, i + 1));
            i = i + 1;
        }
        score
    }

    /// The safety of one side's king (see `side_safety`).
    fn king_safety_of(&self, color: Color, params: &EvalParams) -> (r: i64)
        requires
            self@.wf(),
        ensures
            r == side_safety(self@, color, *params),
            -10 * 0x8000_0000 <= r <= 10 * 0x8000_0000,
    {
        match self.king_square(color) {
            None => 0,
            Some(king_sq) => {
                let mut safety: i64 = 0;
                let king_neighbors = self.get_king_neighbors(king_sq);
                let ghost ns = king_neighbors@;
                let n = king_neighbors.len();
                let mut j: usize = 0;
                while j < n
                    invariant
                        j <= n,
                        n == ns.len(),
                        n <= 9,
                        ns == king_neighbors@,
                        self@.pieces_ok(),
                        forall|i: int| 0 <= i < ns.len() ==> (#[trigger] ns[i]).on_board(),
                        safety == guards_sum(self@, color, *params, ns, j as int),
                    decreases n - j,
                {
                    proof {
                        lemma_guards_bound(self@, color, *params, ns, j as int);
                    }
                    let neighbor_sq = king_neighbors[j];
                    let piece = self.piece_at(neighbor_sq);
                    if !piece.is_empty() && piece.color() == color {
                        let pt = piece.piece_type();
                        let g: i64 = match pt {
                            PieceType::Gold => params.king_safety_gold as i64,
                            PieceType::Silver => params.king_safety_silver as i64,
                            PieceType::ProPawn | PieceType::ProLance | PieceType::ProKnight
                            | PieceType::ProSilver => params.king_safety_propawn as i64,
                            PieceType::Pawn => params.king_safety_pawn as i64,
                            _ => 0,
                        };
                        safety = safety + g;
                    }
                    j = j + 1;
                }
                proof {
                    lemma_guards_bound(self@, color, *params, ns, n as int);
                }
                let file = king_sq.file().to_u8();
                if file == 0 || file == 8 {
                    safety = safety + params.king_edge_bonus as i64;
                } else if file >= 3 && file <= 5 {
                    safety = safety + params.king_center_penalty as i64;
                }
                safety
            },
        }
    }

    /// The king-safety term (see `king_safety_spec`).
    fn evaluate_king_safety(&self, params: &EvalParams) -> (r: i64)
        requires
            self@.wf(),
        ensures
            r == king_safety_spec(self@, *params),
            -20 * 0x8000_0000 <= r <= 20 * 0x8000_0000,
    {
        let b = self.king_safety_of(Color::Black, params);
        let w = self.king_safety_of(Color::White, params);
        b - w
    }

    /// The value of the move for Black (see `tempo_spec`).
    fn evaluate_tempo(&self, params: &EvalParams) -> (r: i64)
        ensures
            r == tempo_spec(self@, *params),
            -0x8000_0000 <= r <= 0x8000_0000,
    {
        if self.side_to_move() == Color::Black {
            params.tempo_value as i64
        } else {
            -(params.tempo_value as i64)
        }
    }

    /// The evaluation for Black under `params` (see `score_spec`), taken in
    /// 32-bit two's complement.  When `params.eval_noise` is positive, it
    /// steps the generator state `rng` once and adds a noise from
    /// `-eval_noise` to `eval_noise` (see `noise_term`); otherwise `rng` is
    /// left alone.
    pub fn evaluate_improved(&self, params: &EvalParams, rng: &mut u64) -> (r: i32)
        requires
            self@.wf(),
        ensures
            params.eval_noise > 0 ==> *final(rng) == lcg_next(*old(rng)) && r == (score_spec(self@, *params)
                + noise_term(params.eval_noise, rand_output(*final(rng)))) as i32,
            params.eval_noise <= 0 ==> *final(rng) == *old(rng) && r == score_spec(self@, *params) as i32,
    {
        proof {
            lemma_hand_value_bound(self@.hand[0], *params);
            lemma_hand_value_bound(self@.hand[1], *params);
        }
        let mut score: i64 = 0;
        score = score + self.evaluate_material_with_hand(params);
        score = score + self.evaluate_simple_position(params);
        score = score + self.evaluate_king_safety(params);
        score = score + self.evaluate_tempo(params);
        if params.eval_noise > 0 {
            let range: i64 = params.eval_noise as i64 * 2 + 1;
            let x = simple_rand(rng);
            let m = x % (range as u32);
            let noise: i64 = m as i64 - params.eval_noise as i64;
            score = score + noise;
        }
        score as i32
    }
}

/// The value of a hand under `params` (see `hand_value`).
fn hand_value_exec(hand: Hand, params: &EvalParams) -> (r: i64)
    ensures
        r == hand_value(hand, *params),
{
    proof {
        lemma_hand_value_bound(hand, *params);
        Hand::lemma_cnt_bound(hand, HandPiece::HPawn);
        Hand::lemma_cnt_bound(hand, HandPiece::HLance);
        Hand::lemma_cnt_bound(hand, HandPiece::HKnight);
        Hand::lemma_cnt_bound(hand, HandPiece::HSilver);
        Hand::lemma_cnt_bound(hand, HandPiece::HGold);
        Hand::lemma_cnt_bound(hand, HandPiece::HBishop);
        Hand::lemma_cnt_bound(hand, HandPiece::HRook);
        lemma_scaled(hand.cnt(HandPiece::HPawn) as int, params.hand_pawn as int, 31);
        lemma_scaled(hand.cnt(HandPiece::HLance) as int, params.hand_lance as int, 31);
        lemma_scaled(hand.cnt(HandPiece::HKnight) as int, params.hand_knight as int, 31);
        lemma_scaled(hand.cnt(HandPiece::HSilver) as int, params.hand_silver as int, 31);
        lemma_scaled(hand.cnt(HandPiece::HGold) as int, params.hand_gold as int, 31);
        lemma_scaled(hand.cnt(HandPiece::HBishop) as int, params.hand_bishop as int, 31);
        lemma_scaled(hand.cnt(HandPiece::HRook) as int, params.hand_rook as int, 31);
    }
    hand.count(HandPiece::HPawn) as i64 * params.hand_pawn as i64 + hand.count(HandPiece::HLance) as i64
        * params.hand_lance as i64 + hand.count(HandPiece::HKnight) as i64 * params.hand_knight as i64
        + hand.count(HandPiece::HSilver) as i64 * params.hand_silver as i64 + hand.count(HandPiece::HGold) as i64
        * params.hand_gold as i64 + hand.count(HandPiece::HBishop) as i64 * params.hand_bishop as i64
        + hand.count(HandPiece::HRook) as i64 * params.hand_rook as i64
}


/// A piece of the other colour and the same kind (the empty square stays empty).
pub open spec fn turned_piece(x: Piece) -> Piece {
    if x.empty() {
        x
    } else if x.0 < 16 {
        Piece((x.0 + 16) as u8)
    } else {
        Piece((x.0 - 16) as u8)
    }
}

/// `q` is `p` turned half round with the colours swapped: the piece on
/// square `80 - s` of `q` is the piece on `s` of `p` in the other colour.
pub open spec fn turned_board(p: PosView, q: PosView) -> bool {
    forall|s: int| 0 <= s < 81 ==> #[trigger] q.board[80 - s] == turned_piece(p.board[s])
}

/// No colour has two kings.
pub open spec fn one_king_each(v: PosView) -> bool {
    forall|s: int, t: int|
        0 <= s < 81 && 0 <= t < 81 && !(#[trigger] v.board[s]).empty() && v.board[s].kind() == PieceType::King
            && v.board[s] == #[trigger] v.board[t] ==> s == t
}

/// The king of `c.opp()` in the turned position stands on the turned square
/// of the king of `c`.
proof fn lemma_turned_king(p: PosView, q: PosView, c: Color)
    requires
        p.wf(),
        q.wf(),
        turned_board(p, q),
        one_king_each(p),
    ensures
        q.king_sq(c.opp()) == match p.king_sq(c) {
            Some(k) => Some(Square((80 - k.0) as u8)),
            None => None,
        },
{
    lemma_king_sq(p, c);
    lemma_king_sq(q, c.opp());
    Piece::lemma_piece_spec(c, PieceType::King);
    Piece::lemma_piece_spec(c.opp(), PieceType::King);
    assert(turned_piece(piece_spec(c, PieceType::King)) == piece_spec(c.opp(), PieceType::King));
    match p.king_sq(c) {
        Some(k) => {
            let kk = k.0 as int;
            assert(q.board[80 - kk] == turned_piece(p.board[kk]));
            match q.king_sq(c.opp()) {
                Some(x) => {
                    let y = 80 - x.0 as int;
                    assert(q.board[80 - y] == turned_piece(p.board[y]));
                    assert(p.board[y] == piece_spec(c, PieceType::King));
                    assert(y == kk);
                },
                None => {
                    assert(!(q.board[80 - kk] == piece_spec(c.opp(), PieceType::King)));
                },
            }
        },
        None => {
            match q.king_sq(c.opp()) {
                Some(x) => {
                    let y = 80 - x.0 as int;
                    assert(q.board[80 - y] == turned_piece(p.board[y]));
                    assert(p.board[y] == piece_spec(c, PieceType::King));
                },
                None => {},
            }
        },
    }
}

/// The placement bonus of a piece is the negated bonus of its turned piece
/// on the turned square.
proof fn lemma_turned_bonus(p: PosView, q: PosView, prm: EvalParams, s: int)
    requires
        p.wf(),
        q.wf(),
        turned_board(p, q),
        one_king_each(p),
        0 <= s < 81,
    ensures
        piece_bonus(q, 80 - s, prm) == -piece_bonus(p, s, prm),
{
    let x = p.board[s];
    assert(q.board[80 - s] == turned_piece(x));
    lemma_turn_square(s);
    if !x.empty() {
        assert(x.0 < 32);
        let c = x.owner();
        lemma_turned_king(p, q, c.opp());
        assert(c.opp().opp() == c);
        match p.king_sq(c.opp()) {
            Some(k) => {
                lemma_king_sq(p, c.opp());
                lemma_turn_square(k.0 as int);
                assert(manhattan(80 - s, 80 - k.0 as int) == manhattan(s, k.0 as int));
            },
            None => {},
        }
    }
}

/// The placement term summed over the first `n` squares of the turned
/// position is the negated term of the last `n` squares of the position.
proof fn lemma_turned_sum(p: PosView, q: PosView, prm: EvalParams, n: int)
    requires
        p.wf(),
        q.wf(),
        turned_board(p, q),
        one_king_each(p),
        0 <= n <= 81,
    ensures
        placement_sum(q, prm, n) == -(placement_sum(p, prm, 81) - placement_sum(p, prm, 81 - n)),
    decreases n,
{
    if n > 0 {
        lemma_turned_sum(p, q, prm, n - 1);
        lemma_turned_bonus(p, q, prm, 81 - n);
        assert(placement_sum(p, prm, 81 - n + 1) == placement_sum(p, prm, 81 - n) + piece_bonus(p, 81 - n, prm));
    }
}

/// The placement term is colour-antisymmetric: turning the board half round
/// and swapping the colours of every piece negates it (for positions with
/// at most one king of each colour).
pub proof fn lemma_placement_antisymmetric(p: PosView, q: PosView, prm: EvalParams)
    requires
        p.wf(),
        q.wf(),
        turned_board(p, q),
        one_king_each(p),
    ensures
        placement_sum(q, prm, 81) == -placement_sum(p, prm, 81),
{
    lemma_turned_sum(p, q, prm, 81);
}


/// The material of the first `n` squares of the turned position is the
/// negated material of the last `n` squares of the position.
proof fn lemma_turned_material(p: PosView, q: PosView, n: int)
    requires
        p.pieces_ok(),
        q.pieces_ok(),
        turned_board(p, q),
        0 <= n <= 81,
    ensures
        board_material(q.board, n) == -(board_material(p.board, 81) - board_material(p.board, 81 - n)),
    decreases n,
{
    if n > 0 {
        lemma_turned_material(p, q, n - 1);
        let s = 81 - n;
        assert(q.board[80 - s] == turned_piece(p.board[s]));
        assert(p.board[s].0 < 32);
        assert(board_material(p.board, s + 1) == board_material(p.board, s) + {
            let x = p.board[s];
            if x.empty() {
                0
            } else if x.owner() == Color::Black {
                piece_value_spec(x.kind())
            } else {
                -piece_value_spec(x.kind())
            }
        });
    }
}

/// The guard value of the neighbour at offset `j` of file `f`, rank `r`
/// (0 off the board or at the centre).
pub open spec fn guard_at(v: PosView, c: Color, prm: EvalParams, f: int, r: int, j: int) -> int {
    let ns = neighbor_at(f, r, j);
    if ns.len() == 0 {
        0
    } else {
        guard_value(v.board[ns[0].0 as int], c, prm)
    }
}

/// The guard values at the first `k` offsets.
pub open spec fn guards_upto(v: PosView, c: Color, prm: EvalParams, f: int, r: int, k: int) -> int
    decreases k,
{
    if k <= 0 {
        0
    } else {
        guards_upto(v, c, prm, f, r, k - 1) + guard_at(v, c, prm, f, r, k - 1)
    }
}

/// Summing guards over a list depends only on its first `n` entries.
proof fn lemma_guards_prefix(v: PosView, c: Color, prm: EvalParams, a: Seq<Square>, b: Seq<Square>, n: int)
    requires
        0 <= n <= a.len(),
    ensures
        guards_sum(v, c, prm, a + b, n) == guards_sum(v, c, prm, a, n),
    decreases n,
{
    if n > 0 {
        lemma_guards_prefix(v, c, prm, a, b, n - 1);
        assert((a + b)[n - 1] == a[n - 1]);
    }
}

/// The guards of the neighbour list are the guards at the offsets.
proof fn lemma_guards_offsets(v: PosView, c: Color, prm: EvalParams, f: int, r: int, k: int)
    requires
        0 <= k <= 9,
    ensures
        guards_sum(v, c, prm, neighbors_upto(f, r, k), neighbors_upto(f, r, k).len() as int) == guards_upto(
            v,
            c,
            prm,
            f,
            r,
            k,
        ),
    decreases k,
{
    if k > 0 {
        lemma_guards_offsets(v, c, prm, f, r, k - 1);
        let a = neighbors_upto(f, r, k - 1);
        let b = neighbor_at(f, r, k - 1);
        lemma_guards_prefix(v, c, prm, a, b, a.len() as int);
        if b.len() > 0 {
            assert((a + b)[a.len() as int] == b[0]);
        } else {
            assert(a + b =~= a);
        }
    }
}

/// The neighbour at offset `j` of the turned square is the turned neighbour
/// at offset `8 - j`, so its guard value for the other colour is the same.
proof fn lemma_turned_guard_at(p: PosView, q: PosView, c: Color, prm: EvalParams, f: int, r: int, j: int)
    requires
        p.pieces_ok(),
        turned_board(p, q),
        0 <= f < 9,
        0 <= r < 9,
        0 <= j < 9,
    ensures
        guard_at(q, c.opp(), prm, 8 - f, 8 - r, j) == guard_at(p, c, prm, f, r, 8 - j),
{
    let a = neighbor_at(f, r, 8 - j);
    let b = neighbor_at(8 - f, 8 - r, j);
    assert((8 - j) / 3 == 2 - j / 3 && (8 - j) % 3 == 2 - j % 3);
    if a.len() > 0 {
        let t = a[0].0 as int;
        assert(0 <= t < 81);
        assert(b.len() > 0 && b[0].0 as int == 80 - t);
        assert(q.board[80 - t] == turned_piece(p.board[t]));
        assert(p.board[t].0 < 32);
    }
}

/// The safety of the king of `c.opp()` in the turned position is that of the
/// king of `c` in the position.
proof fn lemma_turned_safety(p: PosView, q: PosView, c: Color, prm: EvalParams)
    requires
        p.wf(),
        q.wf(),
        turned_board(p, q),
        one_king_each(p),
    ensures
        side_safety(q, c.opp(), prm) == side_safety(p, c, prm),
{
    lemma_turned_king(p, q, c);
    match p.king_sq(c) {
        None => {},
        Some(k) => {
            lemma_king_sq(p, c);
            let kk = k.0 as int;
            lemma_turn_square(kk);
            let f = sq_file(kk);
            let r = sq_rank(kk);
            assert(sq_file(80 - kk) == 8 - f && sq_rank(80 - kk) == 8 - r);
            lemma_guards_offsets(p, c, prm, f, r, 9);
            lemma_guards_offsets(q, c.opp(), prm, 8 - f, 8 - r, 9);
            lemma_turned_guard_at(p, q, c, prm, f, r, 0);
            lemma_turned_guard_at(p, q, c, prm, f, r, 1);
            lemma_turned_guard_at(p, q, c, prm, f, r, 2);
            lemma_turned_guard_at(p, q, c, prm, f, r, 3);
            lemma_turned_guard_at(p, q, c, prm, f, r, 4);
            lemma_turned_guard_at(p, q, c, prm, f, r, 5);
            lemma_turned_guard_at(p, q, c, prm, f, r, 6);
            lemma_turned_guard_at(p, q, c, prm, f, r, 7);
            lemma_turned_guard_at(p, q, c, prm, f, r, 8);
            reveal_with_fuel(guards_upto, 10);
        },
    }
}

/// The evaluation before noise is colour-antisymmetric: turning the board
/// half round, swapping the colours of every piece, the hands and the side
/// to move negates it (for positions with at most one king of each colour).
pub proof fn lemma_score_antisymmetric(p: PosView, q: PosView, prm: EvalParams)
    requires
        p.wf(),
        q.wf(),
        turned_board(p, q),
        one_king_each(p),
        q.hand[0] == p.hand[1],
        q.hand[1] == p.hand[0],
        q.side == p.side.opp(),
    ensures
        score_spec(q, prm) == -score_spec(p, prm),
{
    lemma_turned_material(p, q, 81);
    lemma_placement_antisymmetric(p, q, prm);
    lemma_turned_safety(p, q, Color::Black, prm);
    lemma_turned_safety(p, q, Color::White, prm);
}

/// Without noise, the 32-bit result of `evaluate_improved` is
/// colour-antisymmetric too, for scores whose negation fits in 32 bits.
pub proof fn lemma_evaluate_antisymmetric(p: PosView, q: PosView, prm: EvalParams)
    requires
        p.wf(),
        q.wf(),
        turned_board(p, q),
        one_king_each(p),
        q.hand[0] == p.hand[1],
        q.hand[1] == p.hand[0],
        q.side == p.side.opp(),
        i32::MIN < score_spec(p, prm) <= i32::MAX,
    ensures
        score_spec(q, prm) as i32 == -(score_spec(p, prm) as i32),
{
    lemma_score_antisymmetric(p, q, prm);
}


/// The hand weight of kind `hp` under `p`.
pub open spec fn hand_weight(hp: HandPiece, p: EvalParams) -> int {
    match hp {
        HandPiece::HPawn => p.hand_pawn as int,
        HandPiece::HLance => p.hand_lance as int,
        HandPiece::HKnight => p.hand_knight as int,
        HandPiece::HSilver => p.hand_silver as int,
        HandPiece::HGold => p.hand_gold as int,
        HandPiece::HBishop => p.hand_bishop as int,
        HandPiece::HRook => p.hand_rook as int,
    }
}

/// The placement term reads only the board.
proof fn lemma_placement_same_board(v: PosView, w: PosView, p: EvalParams, n: int)
    requires
        w.board == v.board,
        w.piece_bb == v.piece_bb,
        w.color_bb == v.color_bb,
    ensures
        placement_sum(w, p, n) == placement_sum(v, p, n),
    decreases n,
{
    if n > 0 {
        lemma_placement_same_board(v, w, p, n - 1);
        assert(piece_bonus(w, n - 1, p) == piece_bonus(v, n - 1, p));
    }
}

/// The guard sum reads only the board.
proof fn lemma_guards_same_board(v: PosView, w: PosView, c: Color, p: EvalParams, ns: Seq<Square>, n: int)
    requires
        w.board == v.board,
    ensures
        guards_sum(w, c, p, ns, n) == guards_sum(v, c, p, ns, n),
    decreases n,
{
    if n > 0 {
        lemma_guards_same_board(v, w, c, p, ns, n - 1);
    }
}

/// One more piece of kind `hp` in the hand of `c` (its field not full, all
/// else equal) raises the evaluation before noise by exactly the hand weight
/// of `hp` when `c` is Black, and lowers it by that weight when `c` is White.
pub proof fn lemma_hand_piece_worth(v: PosView, w: PosView, p: EvalParams, hp: HandPiece, c: Color)
    requires
        v.hand.len() == 2,
        v.hand[c.index()].cnt(hp) < hand_field_max(hp),
        v.hand[c.index()].0 + crate::hand::hand_one(hp) <= u32::MAX,
        w == (PosView {
            hand: v.hand.update(c.index(), Hand((v.hand[c.index()].0 + crate::hand::hand_one(hp)) as u32)),
            ..v
        }),
    ensures
        score_spec(w, p) == score_spec(v, p) + (if c == Color::Black {
            hand_weight(hp, p)
        } else {
            -hand_weight(hp, p)
        }),
{
    let h = v.hand[c.index()];
    let h2 = Hand((h.0 + crate::hand::hand_one(hp)) as u32);
    Hand::lemma_add_one(h.0, hp);
    assert(h2.cnt(hp) == h.cnt(hp) + 1);
    assert forall|o: HandPiece| o != hp implies #[trigger] h2.cnt(o) == h.cnt(o) by {}
    let hw = hand_weight(hp, p);
    assert(hand_value(h2, p) == hand_value(h, p) + hw) by {
        let k = h.cnt(hp) as int;
        assert((k + 1) * hw == k * hw + hw) by (nonlinear_arith);
        match hp {
            HandPiece::HPawn => {
                assert((k + 1) * p.hand_pawn == k * p.hand_pawn + p.hand_pawn) by (nonlinear_arith);
            },
            HandPiece::HLance => {
                assert((k + 1) * p.hand_lance == k * p.hand_lance + p.hand_lance) by (nonlinear_arith);
            },
            HandPiece::HKnight => {
                assert((k + 1) * p.hand_knight == k * p.hand_knight + p.hand_knight) by (nonlinear_arith);
            },
            HandPiece::HSilver => {
                assert((k + 1) * p.hand_silver == k * p.hand_silver + p.hand_silver) by (nonlinear_arith);
            },
            HandPiece::HGold => {
                assert((k + 1) * p.hand_gold == k * p.hand_gold + p.hand_gold) by (nonlinear_arith);
            },
            HandPiece::HBishop => {
                assert((k + 1) * p.hand_bishop == k * p.hand_bishop + p.hand_bishop) by (nonlinear_arith);
            },
            HandPiece::HRook => {
                assert((k + 1) * p.hand_rook == k * p.hand_rook + p.hand_rook) by (nonlinear_arith);
            },
        }
    }
    lemma_placement_same_board(v, w, p, 81);
    assert(king_safety_spec(w, p) == king_safety_spec(v, p)) by {
        assert(w.king_sq(Color::Black) == v.king_sq(Color::Black));
        assert(w.king_sq(Color::White) == v.king_sq(Color::White));
        if let Some(k) = v.king_sq(Color::Black) {
            let ns = king_neighbors(k.0 as int);
            lemma_guards_same_board(v, w, Color::Black, p, ns, ns.len() as int);
        }
        if let Some(k) = v.king_sq(Color::White) {
            let ns = king_neighbors(k.0 as int);
            lemma_guards_same_board(v, w, Color::White, p, ns, ns.len() as int);
        }
    }
    if c == Color::Black {
        assert(w.hand[0] == h2 && w.hand[1] == v.hand[1]);
    } else {
        assert(w.hand[1] == h2 && w.hand[0] == v.hand[0]);
    }
}

} // verus!
