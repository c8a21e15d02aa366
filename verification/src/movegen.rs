//! Attack queries on a position and the generation of legal moves.
//!
//! Pseudo-legal moves are generated first (board rules: no piece left without
//! a move, no second pawn on a file, no pawn drop that mates); the legal ones
//! are those that do not leave the mover's king attacked.
use vstd::prelude::*;
use crate::types::{Color, Square, Rank, File, SquareDelta, step, sq_file, sq_rank, abs_int, in_promotion_zone};
use crate::piece::{Piece, PieceType, HandPiece, piece_type_of_code, hand_piece_of, hand_piece_of_index};
use crate::bitboard::{Bitboard, mask_spec, or_spec, and_spec, not_spec, lemma_rest_decreases, lemma_popcount_pos};
use crate::moves::{Move, normal_move_bits, drop_move_bits};
use crate::position::{Position, PosView};
use crate::hand::Hand;
use crate::attacks::{attack_spec, attacks_from, lance_ray_attacks, bishop_ray_attacks, rook_ray_attacks, lance_set, bishop_set, rook_set, king_set, lemma_attack_on_board, step_square};

verus! {

/// The piece on `s` attacks `t` (pieces are taken as colour `c`).
pub open spec fn hits(v: PosView, c: Color, s: int, t: int, occ: Set<int>) -> bool {
    attack_spec(v.board[s].kind(), c, s, occ).contains(t)
}

/// Some piece of colour `c` attacks `t` when the occupied squares are `occ`.
pub open spec fn attacked_by_spec(v: PosView, c: Color, t: int, occ: Set<int>) -> bool {
    exists|s: int| #[trigger] v.color_bb[c.index()]@.contains(s) && hits(v, c, s, t, occ)
}

/// The king of `c` is attacked (a missing king counts as attacked).
pub open spec fn checked(v: PosView, c: Color) -> bool {
    match v.king_sq(c) {
        None => true,
        Some(k) => attacked_by_spec(v, c.opp(), k.0 as int, v.occ()),
    }
}

/// The pieces of `c` other than kings, pawns and lances that attack `t`.
pub open spec fn attackers_spec(v: PosView, c: Color, t: int) -> Set<int> {
    Set::new(
        |s: int|
            v.color_bb[c.index()]@.contains(s) && v.board[s].kind() != PieceType::King
                && v.board[s].kind() != PieceType::Pawn && v.board[s].kind() != PieceType::Lance
                && hits(v, c, s, t, v.occ()),
    )
}

/// The squares walked from `s` in direction `d` before reaching `stop` or the edge.
pub open spec fn walk(s: int, d: int, stop: int) -> Set<int>
    decreases (if d < 0 {
        s
    } else {
        81 - s
    }),
{
    if d == 0 || !(0 <= s < 81) {
        Set::empty()
    } else {
        match step(s, d) {
            None => Set::empty(),
            Some(n) => if n == stop {
                Set::empty()
            } else {
                set![n].union(walk(n, d, stop))
            },
        }
    }
}

/// The direction that `between_bb` walks from `s1` toward `s2` (0 when the
/// squares are not on one line or are the same square).
pub open spec fn between_dir(s1: int, s2: int) -> int {
    let fd = sq_file(s2) - sq_file(s1);
    let rd = sq_rank(s2) - sq_rank(s1);
    if fd != 0 && rd != 0 && abs_int(fd) != abs_int(rd) {
        0
    } else if fd == 0 && rd > 0 {
        1
    } else if fd == 0 && rd < 0 {
        -1
    } else if fd > 0 && rd == 0 {
        9
    } else if fd < 0 && rd == 0 {
        -9
    } else if fd > 0 && rd > 0 {
        10
    } else if fd < 0 && rd > 0 {
        -8
    } else if fd > 0 && rd < 0 {
        8
    } else if fd < 0 && rd < 0 {
        -10
    } else {
        0
    }
}

/// `k` copies of the unit step `e` (-1, 0 or 1).
pub open spec fn times(e: int, k: int) -> int {
    if e == 1 {
        k
    } else if e == -1 {
        -k
    } else {
        0
    }
}

/// Square `t` lies on the line from `s2` with file step `ef` and rank step
/// `er`, `k` steps before `s2`.
pub open spec fn on_line_before(t: int, s2: int, ef: int, er: int, k: int) -> bool {
    &&& 0 <= t < 81
    &&& sq_file(s2) - sq_file(t) == times(ef, k)
    &&& sq_rank(s2) - sq_rank(t) == times(er, k)
}

/// Walking from a square `k` steps before `s2` on a line toward `s2` collects
/// exactly the squares 1 to `k - 1` steps before `s2`.
proof fn lemma_walk_line(x: int, s2: int, ef: int, er: int, k: int, t: int)
    requires
        -1 <= ef <= 1,
        -1 <= er <= 1,
        ef != 0 || er != 0,
        0 <= s2 < 81,
        k >= 1,
        on_line_before(x, s2, ef, er, k),
    ensures
        walk(x, 9 * ef + er, s2).contains(t) <==> exists|j: int| 1 <= j < k && #[trigger] on_line_before(t, s2, ef, er, j),
    decreases k,
{
    let d = 9 * ef + er;
    let n = x + d;
    let fx = sq_file(x);
    let rx = sq_rank(x);
    assert(x == 9 * fx + rx);
    let fn_ = fx + ef;
    let rn = rx + er;
    assert(0 <= fn_ < 9 && 0 <= rn < 9);
    assert(n == 9 * fn_ + rn);
    assert(sq_file(n) == fn_ && sq_rank(n) == rn);
    assert(step(x, d) == Some(n));
    assert(on_line_before(n, s2, ef, er, k - 1));
    if k == 1 {
        let f2 = sq_file(s2);
        let r2 = sq_rank(s2);
        assert(s2 == 9 * f2 + r2);
        assert(n == s2);
    } else {
        assert(n != s2);
        lemma_walk_line(n, s2, ef, er, k - 1, t);
        if t == n {
            assert(on_line_before(t, s2, ef, er, k - 1));
        }
        if exists|j: int| 1 <= j < k && #[trigger] on_line_before(t, s2, ef, er, j) {
            let j = choose|j: int| 1 <= j < k && #[trigger] on_line_before(t, s2, ef, er, j);
            if j == k - 1 {
                let ft = sq_file(t);
                let rt = sq_rank(t);
                assert(t == 9 * ft + rt);
                assert(t == n);
            } else {
                assert(on_line_before(t, s2, ef, er, j));
            }
        }
    }
}

/// The squares that `between_bb(s1, s2)` collects.
pub open spec fn between_spec(s1: int, s2: int) -> Set<int> {
    walk(s1, between_dir(s1, s2), s2)
}

/// The sign of an integer: -1, 0 or 1.
pub open spec fn sign(x: int) -> int {
    if x > 0 {
        1
    } else if x < 0 {
        -1
    } else {
        0
    }
}

/// The squares between two squares on one line are those strictly between
/// them: `between_bb(s1, s2)` holds exactly the squares 1 to `k - 1` steps
/// before `s2` on the line from `s1`, where `s1` is `k` steps before `s2`.
pub proof fn lemma_between_squares(s1: int, s2: int, t: int)
    requires
        0 <= s1 < 81,
        0 <= s2 < 81,
        between_dir(s1, s2) != 0,
    ensures
        ({
            let ef = sign(sq_file(s2) - sq_file(s1));
            let er = sign(sq_rank(s2) - sq_rank(s1));
            let k = if abs_int(sq_file(s2) - sq_file(s1)) > abs_int(sq_rank(s2) - sq_rank(s1)) {
                abs_int(sq_file(s2) - sq_file(s1))
            } else {
                abs_int(sq_rank(s2) - sq_rank(s1))
            };
            &&& k >= 1
            &&& on_line_before(s1, s2, ef, er, k)
            &&& (between_spec(s1, s2).contains(t) <==> exists|j: int|
                1 <= j < k && #[trigger] on_line_before(t, s2, ef, er, j))
        }),
{
    let ef = sign(sq_file(s2) - sq_file(s1));
    let er = sign(sq_rank(s2) - sq_rank(s1));
    let k = if abs_int(sq_file(s2) - sq_file(s1)) > abs_int(sq_rank(s2) - sq_rank(s1)) {
        abs_int(sq_file(s2) - sq_file(s1))
    } else {
        abs_int(sq_rank(s2) - sq_rank(s1))
    };
    assert(between_dir(s1, s2) == 9 * ef + er);
    assert(on_line_before(s1, s2, ef, er, k));
    lemma_walk_line(s1, s2, ef, er, k, t);
}

/// The enemy sliders that can pin a piece of `c` (rooks, bishops, dragons and
/// horses of the other side).
pub open spec fn sliders_set(v: PosView, c: Color) -> Set<int> {
    v.color_bb[c.opp().index()]@.intersect(
        v.piece_bb[6]@.union(v.piece_bb[5]@).union(v.piece_bb[14]@).union(v.piece_bb[13]@),
    )
}

/// The occupied squares strictly between slider `s` and square `k` as
/// `between_bb` walks them.
pub open spec fn between_occ(v: PosView, s: int, k: int) -> Set<int> {
    between_spec(s, k).intersect(v.occ())
}

/// Slider `s` attacks the king square `k` with exactly one occupied square
/// on its walk, and that square holds a piece of `c`.
pub open spec fn pins(v: PosView, c: Color, s: int, k: int) -> bool {
    &&& sliders_set(v, c).contains(s)
    &&& hits(v, c.opp(), s, k, v.occ())
    &&& between_occ(v, s, k).len() == 1
    &&& between_occ(v, s, k).intersect(v.color_bb[c.index()]@).len() == 1
}

/// The pieces that `pinned_pieces(c)` reports.
pub open spec fn pinned_spec(v: PosView, c: Color) -> Set<int> {
    match v.king_sq(c) {
        None => Set::empty(),
        Some(k) => Set::new(|p: int| exists|s: int| #[trigger] pins(v, c, s, k.0 as int) && between_occ(v, s, k.0 as int).contains(p)),
    }
}

/// A piece of kind `pt` and colour `c` must promote when it lands on rank index `r`.
pub open spec fn must_promote_spec(pt: PieceType, c: Color, r: int) -> bool {
    match pt {
        PieceType::Pawn | PieceType::Lance => match c {
            Color::Black => r == 0,
            Color::White => r == 8,
        },
        PieceType::Knight => match c {
            Color::Black => r <= 1,
            Color::White => r >= 7,
        },
        PieceType::Rook | PieceType::Bishop => match c {
            Color::Black => r <= 2,
            Color::White => r >= 6,
        },
        _ => false,
    }
}

impl Position {
    /// The squares a piece of kind `pt` and colour `c` on `from` attacks,
    /// sliding pieces stopping at the first occupied square.
    pub fn get_attacks(&self, pt: PieceType, c: Color, from: Square, occupied: Bitboard) -> (r: Bitboard)
        requires
            from.on_board(),
        ensures
            r.wf(),
            r@ == attack_spec(pt, c, from.0 as int, occupied@),
    {
        match pt {
            PieceType::Pawn | PieceType::Knight | PieceType::Silver | PieceType::Gold
            | PieceType::King | PieceType::ProPawn | PieceType::ProLance | PieceType::ProKnight
            | PieceType::ProSilver => attacks_from(pt, c, from),
            PieceType::Lance => self.lance_attacks(c, from, occupied),
            PieceType::Bishop => self.bishop_attacks(from, occupied),
            PieceType::Rook => self.rook_attacks(from, occupied),
            PieceType::Horse => self.bishop_attacks(from, occupied).bit_or(attacks_from(PieceType::King, c, from)),
            PieceType::Dragon => self.rook_attacks(from, occupied).bit_or(attacks_from(PieceType::King, c, from)),
            PieceType::Occupied => Bitboard::ZERO(),
        }
    }

    /// A lance's squares, stopping at the first occupied square.
    pub fn lance_attacks(&self, c: Color, from: Square, occupied: Bitboard) -> (r: Bitboard)
        requires
            from.on_board(),
        ensures
            r.wf(),
            r@ == lance_set(c, from.0 as int, occupied@),
    {
        lance_ray_attacks(c, from, occupied)
    }

    /// A bishop's squares, stopping at the first occupied square in each direction.
    pub fn bishop_attacks(&self, from: Square, occupied: Bitboard) -> (r: Bitboard)
        requires
            from.on_board(),
        ensures
            r.wf(),
            r@ == bishop_set(from.0 as int, occupied@),
    {
        bishop_ray_attacks(from, occupied)
    }

    /// A rook's squares, stopping at the first occupied square in each direction.
    pub fn rook_attacks(&self, from: Square, occupied: Bitboard) -> (r: Bitboard)
        requires
            from.on_board(),
        ensures
            r.wf(),
            r@ == rook_set(from.0 as int, occupied@),
    {
        rook_ray_attacks(from, occupied)
    }

    pub fn lance_attacks_pub(&self, c: Color, from: Square, occupied: Bitboard) -> (r: Bitboard)
        requires
            from.on_board(),
        ensures
            r.wf(),
            r@ == lance_set(c, from.0 as int, occupied@),
    {
        self.lance_attacks(c, from, occupied)
    }

    pub fn bishop_attacks_pub(&self, from: Square, occupied: Bitboard) -> (r: Bitboard)
        requires
            from.on_board(),
        ensures
            r.wf(),
            r@ == bishop_set(from.0 as int, occupied@),
    {
        self.bishop_attacks(from, occupied)
    }

    pub fn rook_attacks_pub(&self, from: Square, occupied: Bitboard) -> (r: Bitboard)
        requires
            from.on_board(),
        ensures
            r.wf(),
            r@ == rook_set(from.0 as int, occupied@),
    {
        self.rook_attacks(from, occupied)
    }

    /// Whether some piece of colour `attacker_color` attacks `target_sq` when
    /// the occupied squares are `occupied`.
    fn is_attacked_by(&self, attacker_color: Color, target_sq: Square, occupied: Bitboard) -> (r: bool)
        requires
            self@.wf(),
            target_sq.on_board(),
        ensures
            r == attacked_by_spec(self@, attacker_color, target_sq.0 as int, occupied@),
    {
        let attacker_pieces = self.color_bb(attacker_color);
        let ghost orig = attacker_pieces@;
        let mut rem = attacker_pieces;
        proof {
            assert(self@.color_bb[attacker_color.index()].wf());
        }
        loop
            invariant_except_break
                self@.wf(),
                target_sq.on_board(),
                orig == self@.color_bb[attacker_color.index()]@,
                rem.wf(),
                rem@.subset_of(orig),
                forall|s: int| orig.contains(s) && !rem@.contains(s) ==> !hits(self@, attacker_color, s, target_sq.0 as int, occupied@),
            ensures
                !attacked_by_spec(self@, attacker_color, target_sq.0 as int, occupied@),
            decreases rem.p0, rem.p1,
        {
            let ghost before = rem;
            match rem.pop_first() {
                None => {
                    break;
                },
                Some(from_sq) => {
                    proof {
                        lemma_rest_decreases(before);
                        assert(self@.squares_of_color(attacker_color).contains(from_sq.0 as int));
                    }
                    let pt = self.piece_at(from_sq).piece_type();
                    let attacks = self.get_attacks(pt, attacker_color, from_sq, occupied);
                    if attacks.is_set(target_sq) {
                        assert(self@.color_bb[attacker_color.index()]@.contains(from_sq.0 as int) && hits(self@, attacker_color, from_sq.0 as int, target_sq.0 as int, occupied@));
                        return true;
                    }
                },
            }
        }
        false
    }

    /// Whether the king of `c` is attacked (a missing king counts as attacked).
    pub fn is_attacked(&self, c: Color) -> (r: bool)
        requires
            self@.wf(),
        ensures
            r == checked(self@, c),
    {
        let king_sq = match self.king_square(c) {
            Some(sq) => sq,
            None => return true,
        };
        let them = c.opposite();
        let occupied = self.occupied_bb();
        self.is_attacked_by(them, king_sq, occupied)
    }

    /// Whether the side to move is in check.
    pub fn in_check(&self) -> (r: bool)
        requires
            self@.wf(),
        ensures
            r == checked(self@, self@.side),
    {
        self.is_attacked(self.side_to_move())
    }

    /// The pieces of `attacker_color` other than kings, pawns and lances that
    /// attack `target_sq`.
    fn attackers_to_square(&self, attacker_color: Color, target_sq: Square) -> (r: Bitboard)
        requires
            self@.wf(),
            target_sq.on_board(),
        ensures
            r.wf(),
            r@ == attackers_spec(self@, attacker_color, target_sq.0 as int),
    {
        let mut attackers = Bitboard::ZERO();
        let occupied = self.occupied_bb();
        let attacker_pieces = self.color_bb(attacker_color);
        let ghost orig = attacker_pieces@;
        let mut rem = attacker_pieces;
        proof {
            assert(self@.color_bb[attacker_color.index()].wf());
        }
        loop
            invariant_except_break
                self@.wf(),
                target_sq.on_board(),
                orig == self@.color_bb[attacker_color.index()]@,
                occupied@ == self@.occ(),
                rem.wf(),
                attackers.wf(),
                rem@.subset_of(orig),
                attackers@ == attackers_spec(self@, attacker_color, target_sq.0 as int).difference(rem@),
            ensures
                attackers.wf(),
                attackers@ == attackers_spec(self@, attacker_color, target_sq.0 as int),
            decreases rem.p0, rem.p1,
        {
            let ghost before = rem;
            match rem.pop_first() {
                None => {
                    assert(attackers@ =~= attackers_spec(self@, attacker_color, target_sq.0 as int));
                    break;
                },
                Some(from_sq) => {
                    proof {
                        lemma_rest_decreases(before);
                        assert(self@.squares_of_color(attacker_color).contains(from_sq.0 as int));
                    }
                    let pt = self.piece_at(from_sq).piece_type();
                    if pt == PieceType::King || pt == PieceType::Pawn || pt == PieceType::Lance {
                        assert(attackers@ =~= attackers_spec(self@, attacker_color, target_sq.0 as int).difference(rem@));
                    } else {
                        let attacks = self.get_attacks(pt, attacker_color, from_sq, occupied);
                        if attacks.is_set(target_sq) {
                            attackers.set(from_sq);
                        }
                        assert(attackers@ =~= attackers_spec(self@, attacker_color, target_sq.0 as int).difference(rem@));
                    }
                },
            }
        }
        attackers
    }

    /// The squares walked from `sq1` in the direction `between_dir` gives
    /// (see `between_spec`), up to `sq2` or the edge.
    fn between_bb(&self, sq1: Square, sq2: Square) -> (r: Bitboard)
        requires
            sq1.on_board(),
            sq2.on_board(),
        ensures
            r.wf(),
            r@ == between_spec(sq1.0 as int, sq2.0 as int),
    {
        let mut bb = Bitboard::ZERO();
        let file_diff = sq2.file().to_u8() as i8 - sq1.file().to_u8() as i8;
        let rank_diff = sq2.rank().to_u8() as i8 - sq1.rank().to_u8() as i8;
        let fa = if file_diff < 0 {
            -file_diff
        } else {
            file_diff
        };
        let ra = if rank_diff < 0 {
            -rank_diff
        } else {
            rank_diff
        };
        if file_diff != 0 && rank_diff != 0 && fa != ra {
            assert(bb@ =~= between_spec(sq1.0 as int, sq2.0 as int));
            return bb;
        }
        let dir = if file_diff == 0 && rank_diff > 0 {
            SquareDelta::S()
        } else if file_diff == 0 && rank_diff < 0 {
            SquareDelta::N()
        } else if file_diff > 0 && rank_diff == 0 {
            SquareDelta::E()
        } else if file_diff < 0 && rank_diff == 0 {
            SquareDelta::W()
        } else if file_diff > 0 && rank_diff > 0 {
            SquareDelta::SE()
        } else if file_diff < 0 && rank_diff > 0 {
            SquareDelta::SW()
        } else if file_diff > 0 && rank_diff < 0 {
            SquareDelta::NE()
        } else if file_diff < 0 && rank_diff < 0 {
            SquareDelta::NW()
        } else {
            assert(bb@ =~= between_spec(sq1.0 as int, sq2.0 as int));
            return bb;
        };
        assert(dir.0 == between_dir(sq1.0 as int, sq2.0 as int));
        let mut cur = sq1;
        loop
            invariant_except_break
                cur.on_board(),
                sq2.on_board(),
                dir.0 == -1 || dir.0 == 1 || dir.0 == -9 || dir.0 == 9 || dir.0 == -10 || dir.0 == 8 || dir.0 == -8 || dir.0 == 10,
                bb.wf(),
                bb@.union(walk(cur.0 as int, dir.0 as int, sq2.0 as int)) == walk(sq1.0 as int, dir.0 as int, sq2.0 as int),
            ensures
                bb.wf(),
                bb@ == walk(sq1.0 as int, dir.0 as int, sq2.0 as int),
            decreases (if dir.0 < 0 {
                cur.0 as int
            } else {
                81 - cur.0
            }),
        {
            match step_square(cur, dir) {
                Some(next) => {
                    if next == sq2 {
                        assert(bb@ =~= walk(sq1.0 as int, dir.0 as int, sq2.0 as int));
                        break;
                    }
                    bb.set(next);
                    assert(bb@.union(walk(next.0 as int, dir.0 as int, sq2.0 as int)) =~= walk(sq1.0 as int, dir.0 as int, sq2.0 as int));
                    cur = next;
                },
                None => {
                    assert(bb@ =~= walk(sq1.0 as int, dir.0 as int, sq2.0 as int));
                    break;
                },
            }
        }
        bb
    }

    /// The squares of one file.
    fn file_bb(&self, file: File) -> (r: Bitboard)
        ensures
            r.wf(),
            r@ == Set::new(|s: int| 0 <= s < 81 && sq_file(s) == file.value()),
    {
        let mut bb = Bitboard::ZERO();
        let mut rank: u8 = 0;
        while rank < 9
            invariant
                rank <= 9,
                bb.wf(),
                bb@ == Set::new(|s: int| 0 <= s < 81 && sq_file(s) == file.value() && sq_rank(s) < rank),
            decreases 9 - rank,
        {
            bb.set(Square::new(file, Rank::from_u8(rank).unwrap()));
            rank = rank + 1;
            assert(bb@ =~= Set::new(|s: int| 0 <= s < 81 && sq_file(s) == file.value() && sq_rank(s) < rank));
        }
        assert(bb@ =~= Set::new(|s: int| 0 <= s < 81 && sq_file(s) == file.value()));
        bb
    }

    /// Whether a piece of kind `pt` and colour `c` must promote on `to`: pawns
    /// and lances on the last rank, knights on the last two, and (as this
    /// engine plays) rooks and bishops anywhere in the promotion zone.
    fn must_promote(&self, pt: PieceType, c: Color, to: Square) -> (r: bool)
        ensures
            r == must_promote_spec(pt, c, sq_rank(to.0 as int)),
    {
        let r = to.rank().to_u8();
        match pt {
            PieceType::Pawn | PieceType::Lance => match c {
                Color::Black => r == 0,
                Color::White => r == 8,
            },
            PieceType::Knight => match c {
                Color::Black => r <= 1,
                Color::White => r >= 7,
            },
            PieceType::Rook | PieceType::Bishop => match c {
                Color::Black => r <= 2,
                Color::White => r >= 6,
            },
            _ => false,
        }
    }

    /// The pieces of `c` pinned to their king (see `pinned_spec`).
    fn pinned_pieces(&self, c: Color) -> (r: Bitboard)
        requires
            self@.wf(),
        ensures
            r.wf(),
            r@ == pinned_spec(self@, c),
    {
        let mut pinned = Bitboard::ZERO();
        let king_sq = match self.king_square(c) {
            Some(sq) => sq,
            None => {
                return pinned;
            },
        };
        let enemy_color = c.opposite();
        let our_pieces = self.color_bb(c);
        let occupied = self.occupied_bb();
        let enemy_sliders = self.color_bb(enemy_color).bit_and(
            self.piece_bb(PieceType::Rook).bit_or(self.piece_bb(PieceType::Bishop)).bit_or(self.piece_bb(PieceType::Dragon)).bit_or(
                self.piece_bb(PieceType::Horse),
            ),
        );
        let ghost k = king_sq.0 as int;
        let ghost orig = enemy_sliders@;
        proof {
            assert(self@.color_bb[enemy_color.index()].wf());
            assert(self@.color_bb[c.index()].wf());
            assert(orig =~= sliders_set(self@, c));
        }
        let mut rem = enemy_sliders;
        loop
            invariant_except_break
                self@.wf(),
                enemy_color == c.opp(),
                king_sq.on_board(),
                self@.king_sq(c) == Some(king_sq),
                k == king_sq.0,
                our_pieces@ == self@.color_bb[c.index()]@,
                our_pieces.wf(),
                occupied@ == self@.occ(),
                occupied.wf(),
                orig == sliders_set(self@, c),
                rem.wf(),
                pinned.wf(),
                rem@.subset_of(orig),
                pinned@ == Set::new(|p: int| exists|s: int| #[trigger] pins(self@, c, s, k) && !rem@.contains(s) && between_occ(self@, s, k).contains(p)),
            ensures
                pinned.wf(),
                pinned@ == pinned_spec(self@, c),
            decreases rem.p0, rem.p1,
        {
            let ghost before = rem;
            match rem.pop_first() {
                None => {
                    assert(pinned@ =~= pinned_spec(self@, c));
                    break;
                },
                Some(slider_sq) => {
                    proof {
                        lemma_rest_decreases(before);
                        assert(self@.color_bb[enemy_color.index()]@.contains(slider_sq.0 as int));
                        assert(self@.squares_of_color(enemy_color).contains(slider_sq.0 as int));
                    }
                    let ghost old_pinned = pinned@;
                    let pt = self.piece_at(slider_sq).piece_type();
                    let attacks = self.get_attacks(pt, enemy_color, slider_sq, occupied);
                    if attacks.is_set(king_sq) {
                        let between = self.between_bb(slider_sq, king_sq);
                        let pieces_between = between.bit_and(occupied);
                        let ours_between = pieces_between.bit_and(our_pieces);
                        proof {
                            Bitboard::lemma_count_is_len(pieces_between);
                            Bitboard::lemma_count_is_len(ours_between);
                            assert(pieces_between@ =~= between_occ(self@, slider_sq.0 as int, k));
                        }
                        if pieces_between.count() == 1 && ours_between.count() == 1 {
                            pinned = pinned.bit_or(pieces_between);
                        }
                    }
                    proof {
                        let s0 = slider_sq.0 as int;
                        assert forall|p: int| pinned@.contains(p) == (exists|s: int| #[trigger] pins(self@, c, s, k) && !rem@.contains(s) && between_occ(self@, s, k).contains(p)) by {
                            if pinned@.contains(p) && !old_pinned.contains(p) {
                                assert(pins(self@, c, s0, k) && !rem@.contains(s0) && between_occ(self@, s0, k).contains(p));
                            }
                            if old_pinned.contains(p) {
                                let s = choose|s: int| #[trigger] pins(self@, c, s, k) && !before@.contains(s) && between_occ(self@, s, k).contains(p);
                                assert(pins(self@, c, s, k) && !rem@.contains(s) && between_occ(self@, s, k).contains(p));
                            }
                            if exists|s: int| #[trigger] pins(self@, c, s, k) && !rem@.contains(s) && between_occ(self@, s, k).contains(p) {
                                let s = choose|s: int| #[trigger] pins(self@, c, s, k) && !rem@.contains(s) && between_occ(self@, s, k).contains(p);
                                if s != s0 {
                                    assert(!before@.contains(s));
                                }
                            }
                        }
                        assert(pinned@ =~= Set::new(|p: int| exists|s: int| #[trigger] pins(self@, c, s, k) && !rem@.contains(s) && between_occ(self@, s, k).contains(p)));
                    }
                },
            }
        }
        pinned
    }
}

/// The pawn drop on square `s`.
pub open spec fn pawn_drop(s: int) -> Move {
    Move(drop_move_bits(PieceType::Pawn, Square(s as u8)))
}

/// The squares of the file with index `f`.
pub open spec fn file_set(f: int) -> Set<int> {
    Set::new(|s: int| 0 <= s < 81 && sq_file(s) == f)
}

/// Dropping a pawn (for the side to move) on `pawn_sq` would mate, as
/// `is_uchifuzume` judges it: the pawn gives check, no piece of the other side
/// (other than king, pawn or lance) that is unpinned or stands on the pawn's
/// file can take it, and every square next to their king that holds none of
/// their pieces is attacked by `c` (the pawn's square among them: an
/// undefended pawn is taken by the king).
pub open spec fn uchifuzume_spec(v: PosView, pawn_sq: int, c: Color) -> bool {
    let t = v.after_move(pawn_drop(pawn_sq));
    let e = c.opp();
    if !checked(t, t.side) {
        false
    } else {
        match t.king_sq(e) {
            None => false,
            Some(k) => {
                let att = attackers_spec(t, e, pawn_sq);
                let capt = att.intersect(
                    crate::bitboard::all_squares().difference(pinned_spec(t, e)).union(file_set(sq_file(pawn_sq))),
                );
                if !capt.is_empty() {
                    false
                } else {
                    let esc = king_set(k.0 as int).difference(t.color_bb[e.index()]@);
                    !(exists|x: int| #[trigger] esc.contains(x) && !attacked_by_spec(t, c, x, t.occ()))
                }
            },
        }
    }
}

/// A pawn of colour `c` stands on the file with index `f`.
pub open spec fn own_pawn_on_file(v: PosView, c: Color, f: int) -> bool {
    exists|rk: int|
        0 <= rk < 9 && !(#[trigger] v.board[f * 9 + rk]).empty() && v.board[f * 9 + rk].owner() == c
            && v.board[f * 9 + rk].kind() == PieceType::Pawn
}

/// A piece of kind `pt` dropped on rank index `r` by `c` would have a move.
pub open spec fn drop_rank_ok(pt: PieceType, c: Color, r: int) -> bool {
    match pt {
        PieceType::Pawn | PieceType::Lance => match c {
            Color::Black => r != 0,
            Color::White => r != 8,
        },
        PieceType::Knight => match c {
            Color::Black => r > 1,
            Color::White => r < 7,
        },
        _ => true,
    }
}

/// A drop of kind `pt` by `c` on `to` obeys the board rules.
pub open spec fn can_drop_spec(v: PosView, pt: PieceType, c: Color, to: int) -> bool {
    &&& drop_rank_ok(pt, c, sq_rank(to))
    &&& (pt == PieceType::Pawn ==> !own_pawn_on_file(v, c, sq_file(to)) && !uchifuzume_spec(v, to, c))
}

/// The move of the piece on `from` to `to` (promoting when `p`), recording
/// the captured kind when `to` is occupied.
pub open spec fn normal_move_spec(v: PosView, from: int, to: int, p: bool) -> Move {
    let base = normal_move_bits(Square(from as u8), Square(to as u8), v.board[from].kind(), p);
    let cap = v.board[to];
    if cap.empty() {
        Move(base)
    } else {
        Move(base | ((cap.kind().code() as u32) << 20u32))
    }
}

/// The piece on `from` may promote on the move to `to`.
pub open spec fn can_promote_spec(v: PosView, from: int, to: int) -> bool {
    v.board[from].kind().promotable() && (in_promotion_zone(v.side, sq_rank(from)) || in_promotion_zone(
        v.side,
        sq_rank(to),
    ))
}

/// The squares the piece on `from` can move to: those it attacks that hold
/// none of the mover's pieces.
pub open spec fn targets_spec(v: PosView, from: int) -> Set<int> {
    attack_spec(v.board[from].kind(), v.side, from, v.occ()).difference(v.color_bb[v.side.index()]@)
}

/// A move of a piece on the board that the generator produces.
pub open spec fn pseudo_normal(v: PosView, m: Move) -> bool {
    let from = m.from_field();
    let to = m.to_bits();
    let pt = v.board[from].kind();
    &&& !m.drop_move()
    &&& v.color_bb[v.side.index()]@.contains(from)
    &&& targets_spec(v, from).contains(to)
    &&& m == normal_move_spec(v, from, to, m.promo())
    &&& if must_promote_spec(pt, v.side, sq_rank(to)) {
        m.promo() && can_promote_spec(v, from, to)
    } else {
        m.promo() ==> can_promote_spec(v, from, to)
    }
}

/// A drop that the generator produces.
pub open spec fn pseudo_drop(v: PosView, m: Move) -> bool {
    let code = m.dropped_code();
    let pt = piece_type_of_code(code);
    let to = m.to_bits();
    &&& m.drop_move()
    &&& 1 <= code <= 7
    &&& (hand_piece_of(pt) matches Some(hp) && v.hand[v.side.index()].cnt(hp) > 0)
    &&& m == Move(drop_move_bits(pt, Square(to as u8)))
    &&& 0 <= to < 81
    &&& !v.occ().contains(to)
    &&& can_drop_spec(v, pt, v.side, to)
}

/// The pseudo-legal moves: board rules obeyed, king safety not yet checked.
pub open spec fn pseudo_spec(v: PosView, m: Move) -> bool {
    pseudo_normal(v, m) || pseudo_drop(v, m)
}

/// A pseudo-legal move is legal when it does not leave the mover's king attacked.
pub open spec fn legal_spec(v: PosView, m: Move) -> bool {
    !checked(v.after_move(m), v.side)
}

/// Decoding the fields of a generated normal move.
pub proof fn lemma_normal_move_decode(v: PosView, from: int, to: int, p: bool)
    requires
        0 <= from < 81,
        0 <= to < 81,
        v.board[to].valid_kind(),
    ensures
        normal_move_spec(v, from, to, p).from_field() == from,
        normal_move_spec(v, from, to, p).to_bits() == to,
        normal_move_spec(v, from, to, p).promo() == p,
        !normal_move_spec(v, from, to, p).drop_move(),
{
    let pt = v.board[from].kind();
    Move::lemma_normal_fields(Square(from as u8), Square(to as u8), pt, p);
    let b = normal_move_bits(Square(from as u8), Square(to as u8), pt, p);
    let c = v.board[to].kind().code() as u32;
    assert(c < 16);
    assert(c < 16 && (b / 1048576) % 16 == 0 ==> {
        let w = b | (c << 20u32);
        &&& w % 128 == b % 128
        &&& (w / 128) % 128 == (b / 128) % 128
        &&& (w / 16384) % 2 == (b / 16384) % 2
    }) by (bit_vector);
}

/// A generated move can be made and keeps the bitboards in step.
pub proof fn lemma_pseudo_makeable(v: PosView, m: Move)
    requires
        v.wf(),
        pseudo_spec(v, m),
    ensures
        v.can_make(m),
        v.sane(m),
{
    if pseudo_normal(v, m) {
        let from = m.from_field();
        assert(v.squares_of_color(v.side).contains(from));
        lemma_attack_on_board(v.board[from].kind(), v.side, from, v.occ());
    } else {
        let to = m.to_bits();
        assert(to < 81);
        if !v.board[to].empty() {
            if v.board[to].owner() == Color::Black {
                assert(v.squares_of_color(Color::Black).contains(to));
            } else {
                assert(v.squares_of_color(Color::White).contains(to));
            }
        }
    }
}

impl Position {
    /// Whether dropping a pawn (for the side to move) on `pawn_sq` would mate
    /// (see `uchifuzume_spec`); it does not generate moves.
    fn is_uchifuzume(&self, pawn_sq: Square, c: Color) -> (r: bool)
        requires
            self@.wf(),
            pawn_sq.on_board(),
            self@.board[pawn_sq.0 as int].empty(),
        ensures
            r == uchifuzume_spec(self@, pawn_sq.0 as int, c),
    {
        let drop_mv = Move::new_drop(PieceType::Pawn, pawn_sq);
        let mut test_pos = *self;
        proof {
            assert(drop_mv == pawn_drop(pawn_sq.0 as int));
            crate::position::lemma_after_move_wf(self@, drop_mv);
        }
        test_pos.do_move(drop_mv);
        if !test_pos.in_check() {
            return false;
        }
        let enemy_color = c.opposite();
        let enemy_king_sq = match test_pos.king_square(enemy_color) {
            Some(sq) => sq,
            None => return false,
        };
        let attackers = test_pos.attackers_to_square(enemy_color, pawn_sq);
        proof {
            Bitboard::lemma_count_is_len(attackers);
            lemma_popcount_pos(attackers.p0);
        }
        let ghost tv = test_pos@;
        let ghost capt = attackers@.intersect(
            crate::bitboard::all_squares().difference(pinned_spec(tv, enemy_color)).union(file_set(sq_file(pawn_sq.0 as int))),
        );
        if attackers.count() > 0 {
            let pinned = test_pos.pinned_pieces(enemy_color);
            let file_mask = test_pos.file_bb(pawn_sq.file());
            let can_capture = attackers.bit_and(pinned.complement().bit_or(file_mask));
            proof {
                Bitboard::lemma_count_is_len(can_capture);
                assert(can_capture@ =~= capt);
                if capt.len() == 0 {
                    assert(capt =~= Set::<int>::empty());
                }
                if capt.is_empty() {
                    assert(capt =~= Set::<int>::empty());
                }
            }
            if can_capture.count() > 0 {
                proof {
                    if capt.is_empty() {
                        assert(capt =~= Set::<int>::empty());
                    }
                }
                return false;
            }
        } else {
            proof {
                assert(attackers@.len() == 0);
                assert(attackers@ =~= Set::<int>::empty());
                assert(capt =~= Set::<int>::empty());
            }
        }
        assert(capt.is_empty()) by {
            if !capt.is_empty() {
                let x = capt.choose();
                assert(capt.contains(x));
            }
        }
        let king_moves = attacks_from(PieceType::King, enemy_color, enemy_king_sq);
        let escape_squares = king_moves.bit_and(test_pos.color_bb(enemy_color).complement());
        let ghost esc = king_set(enemy_king_sq.0 as int).difference(tv.color_bb[enemy_color.index()]@);
        proof {
            crate::attacks::lemma_attack_on_board(PieceType::King, enemy_color, enemy_king_sq.0 as int, Set::empty());
            assert(escape_squares@ =~= esc);
        }
        let occupied_with_pawn = test_pos.occupied_bb();
        let mut rem = escape_squares;
        assert(uchifuzume_spec(self@, pawn_sq.0 as int, c) == !(exists|x: int| #[trigger] esc.contains(x) && !attacked_by_spec(tv, c, x, tv.occ())));
        loop
            invariant_except_break
                uchifuzume_spec(self@, pawn_sq.0 as int, c) == !(exists|x: int| #[trigger] esc.contains(x) && !attacked_by_spec(tv, c, x, tv.occ())),
                test_pos@ == tv,
                tv.wf(),
                occupied_with_pawn@ == tv.occ(),
                rem.wf(),
                rem@.subset_of(esc),
                forall|x: int| esc.contains(x) && !rem@.contains(x) ==> attacked_by_spec(tv, c, x, tv.occ()),
            ensures
                forall|x: int| esc.contains(x) ==> attacked_by_spec(tv, c, x, tv.occ()),
            decreases rem.p0, rem.p1,
        {
            let ghost before = rem;
            match rem.pop_first() {
                None => {
                    break;
                },
                Some(escape_sq) => {
                    proof {
                        lemma_rest_decreases(before);
                    }
                    if !test_pos.is_attacked_by(c, escape_sq, occupied_with_pawn) {
                        assert(esc.contains(escape_sq.0 as int) && !attacked_by_spec(tv, c, escape_sq.0 as int, tv.occ()));
                        return false;
                    }
                },
            }
        }
        true
    }

    /// Whether `pt` may be dropped by `c` on the (empty) square `to`.
    fn can_drop(&self, pt: PieceType, c: Color, to: Square) -> (r: bool)
        requires
            self@.wf(),
            to.on_board(),
            self@.board[to.0 as int].empty(),
        ensures
            r == can_drop_spec(self@, pt, c, to.0 as int),
    {
        let r = to.rank();
        match pt {
            PieceType::Pawn | PieceType::Lance => match c {
                Color::Black => {
                    if r.to_u8() == 0 {
                        return false;
                    }
                },
                Color::White => {
                    if r.to_u8() == 8 {
                        return false;
                    }
                },
            },
            PieceType::Knight => match c {
                Color::Black => {
                    if r.to_u8() <= 1 {
                        return false;
                    }
                },
                Color::White => {
                    if r.to_u8() >= 7 {
                        return false;
                    }
                },
            },
            _ => {},
        }
        if pt == PieceType::Pawn {
            let file = to.file();
            let us = c;
            let mut rank: u8 = 0;
            while rank < 9
                invariant
                    rank <= 9,
                    self@.wf(),
                    us == c,
                    file.value() == sq_file(to.0 as int),
                    pt == PieceType::Pawn,
                    drop_rank_ok(pt, c, sq_rank(to.0 as int)),
                    forall|rk: int| 0 <= rk < rank ==> !(!(#[trigger] self@.board[file.value() * 9 + rk]).empty() && self@.board[file.value() * 9 + rk].owner() == us && self@.board[file.value() * 9 + rk].kind() == PieceType::Pawn),
                decreases 9 - rank,
            {
                let sq = Square::new(file, Rank::from_u8(rank).unwrap());
                let p = self.piece_at(sq);
                if !p.is_empty() && p.color() == us && p.piece_type() == PieceType::Pawn {
                    assert(self@.board[file.value() * 9 + rank as int] == p);
                    assert(own_pawn_on_file(self@, c, sq_file(to.0 as int)));
                    return false;
                }
                rank = rank + 1;
            }
            if self.is_uchifuzume(to, c) {
                return false;
            }
        }
        true
    }

    /// Whether a move does not leave the mover's king attacked.
    pub fn legal(&self, mv: Move) -> (r: bool)
        requires
            self@.wf(),
            self@.can_make(mv),
            self@.sane(mv),
        ensures
            r == legal_spec(self@, mv),
    {
        let us = self.side_to_move();
        let mut after = *self;
        proof {
            crate::position::lemma_after_move_wf(self@, mv);
        }
        after.do_move(mv);
        !after.is_attacked(us)
    }
}

/// The hand index of the kind a drop drops.
pub open spec fn drop_index(m: Move) -> int {
    match hand_piece_of(piece_type_of_code(m.dropped_code())) {
        Some(hp) => hp.index(),
        None => 7,
    }
}

/// The generated normal moves from `f` to `t` are the plain move unless
/// promotion is forced, and the promoting move when promotion is allowed.
proof fn lemma_pseudo_pair(v: PosView, f: int, t: int, m: Move)
    requires
        v.wf(),
        0 <= f < 81,
        0 <= t < 81,
        v.color_bb[v.side.index()]@.contains(f),
        targets_spec(v, f).contains(t),
        m.from_field() == f,
        m.to_bits() == t,
    ensures
        pseudo_normal(v, m) <==> ((m == normal_move_spec(v, f, t, false) && !must_promote_spec(v.board[f].kind(), v.side, sq_rank(t)))
            || (m == normal_move_spec(v, f, t, true) && can_promote_spec(v, f, t))),
{
    lemma_normal_move_decode(v, f, t, false);
    lemma_normal_move_decode(v, f, t, true);
}

/// Pushing `x` onto `s` adds exactly `x`, and keeps `s` free of repeats
/// when `x` was not in it.
proof fn lemma_push_moves(s: Seq<Move>, x: Move)
    ensures
        forall|y: Move| #[trigger] s.push(x).contains(y) <==> s.contains(y) || y == x,
        s.no_duplicates() && !s.contains(x) ==> s.push(x).no_duplicates(),
{
    assert forall|y: Move| #[trigger] s.push(x).contains(y) <==> s.contains(y) || y == x by {
        vstd::seq_lib::lemma_seq_contains_after_push(s, x, y);
    }
    if s.no_duplicates() && !s.contains(x) {
        let t = s.push(x);
        assert forall|i: int, j: int| 0 <= i < t.len() && 0 <= j < t.len() && i != j implies t[i] != t[j] by {
            if i == s.len() {
                assert(s[j] == t[j]);
            } else if j == s.len() {
                assert(s[i] == t[i]);
            } else {
                assert(s[i] == t[i] && s[j] == t[j]);
            }
        }
    }
}

/// One destination square `t` of the piece on `f` handled: the moves pushed
/// for it are exactly the generated moves from `f` to `t`.
proof fn lemma_normal_step(
    v: PosView,
    f: int,
    t: int,
    old_moves: Seq<Move>,
    new_moves: Seq<Move>,
    before_r: Set<int>,
    before_d: Set<int>,
    after_d: Set<int>,
    must: bool,
    can: bool,
)
    requires
        v.wf(),
        0 <= f < 81,
        0 <= t < 81,
        v.color_bb[v.side.index()]@.contains(f),
        targets_spec(v, f).contains(t),
        must == must_promote_spec(v.board[f].kind(), v.side, sq_rank(t)),
        can == can_promote_spec(v, f, t),
        before_d.contains(t),
        after_d == before_d.remove(t),
        forall|m: Move| #[trigger] old_moves.contains(m) <==> pseudo_normal(v, m) && ((m.from_field() != f
            && !before_r.contains(m.from_field())) || (m.from_field() == f && !before_d.contains(m.to_bits()))),
        forall|m: Move| #[trigger] new_moves.contains(m) <==> old_moves.contains(m) || (m == normal_move_spec(
            v,
            f,
            t,
            false,
        ) && !must) || (m == normal_move_spec(v, f, t, true) && can),
    ensures
        forall|m: Move| #[trigger] new_moves.contains(m) <==> pseudo_normal(v, m) && ((m.from_field() != f
            && !before_r.contains(m.from_field())) || (m.from_field() == f && !after_d.contains(m.to_bits()))),
{
    lemma_normal_move_decode(v, f, t, false);
    lemma_normal_move_decode(v, f, t, true);
    assert forall|m: Move| #[trigger] new_moves.contains(m) <==> pseudo_normal(v, m) && ((m.from_field() != f
        && !before_r.contains(m.from_field())) || (m.from_field() == f && !after_d.contains(m.to_bits()))) by {
        if m.from_field() == f && m.to_bits() == t {
            lemma_pseudo_pair(v, f, t, m);
            assert(!old_moves.contains(m));
        } else {
            assert(m != normal_move_spec(v, f, t, false));
            assert(m != normal_move_spec(v, f, t, true));
        }
    }
}

/// One empty square `t` handled for the hand kind with index `k`: the drop
/// pushed for it (if any) is exactly the generated drop of that kind there.
proof fn lemma_drop_step(
    v: PosView,
    k: int,
    hp: HandPiece,
    t: int,
    mv: Move,
    ok: bool,
    old_moves: Seq<Move>,
    new_moves: Seq<Move>,
    before_e: Set<int>,
    after_e: Set<int>,
)
    requires
        v.wf(),
        0 <= k < 7,
        hp.index() == k,
        hand_piece_of(hp.kind()) == Some(hp),
        v.hand[v.side.index()].cnt(hp) > 0,
        0 <= t < 81,
        !v.occ().contains(t),
        mv == Move(drop_move_bits(hp.kind(), Square(t as u8))),
        mv.to_bits() == t,
        mv.from_field() == 80 + hp.kind().code(),
        drop_index(mv) == k,
        ok == can_drop_spec(v, hp.kind(), v.side, t),
        before_e.contains(t),
        after_e == before_e.remove(t),
        forall|m: Move| #[trigger] old_moves.contains(m) <==> pseudo_normal(v, m) || (pseudo_drop(v, m) && (
        drop_index(m) < k || (drop_index(m) == k && !before_e.contains(m.to_bits())))),
        forall|m: Move| #[trigger] new_moves.contains(m) <==> old_moves.contains(m) || (m == mv && ok),
    ensures
        forall|m: Move| #[trigger] new_moves.contains(m) <==> pseudo_normal(v, m) || (pseudo_drop(v, m) && (
        drop_index(m) < k || (drop_index(m) == k && !after_e.contains(m.to_bits())))),
{
    let pt = hp.kind();
    PieceType::lemma_code(pt);
    assert(1 <= pt.code() <= 7) by {
        assert(hand_piece_of(pt) is Some);
    }
    assert(pseudo_drop(v, mv) == ok);
    assert(!pseudo_normal(v, mv));
    assert forall|m: Move| #[trigger] new_moves.contains(m) <==> pseudo_normal(v, m) || (pseudo_drop(v, m) && (
    drop_index(m) < k || (drop_index(m) == k && !after_e.contains(m.to_bits())))) by {
        if pseudo_drop(v, m) && drop_index(m) == k && m.to_bits() == t {
            assert(hand_piece_of(piece_type_of_code(m.dropped_code())) == Some(hp));
            assert(piece_type_of_code(m.dropped_code()) == pt);
            assert(m == mv);
        }
    }
}

impl Position {
    /// The move of the piece of kind `pt` from `from_sq` to `to_sq`.
    fn make_normal(&self, from_sq: Square, to_sq: Square, pt: PieceType, cap_pt: Option<PieceType>, p: bool) -> (r: Move)
        requires
            from_sq.on_board(),
            to_sq.on_board(),
            self@.pieces_ok(),
            pt == self@.board[from_sq.0 as int].kind(),
            cap_pt == (if self@.board[to_sq.0 as int].empty() {
                None
            } else {
                Some(self@.board[to_sq.0 as int].kind())
            }),
        ensures
            r == normal_move_spec(self@, from_sq.0 as int, to_sq.0 as int, p),
    {
        let mut mv = Move::new_normal(from_sq, to_sq, pt, p);
        if let Some(c) = cap_pt {
            mv = mv.with_capture(c);
        }
        proof {
            assert(Square(from_sq.0 as int as u8) == from_sq);
            assert(Square(to_sq.0 as int as u8) == to_sq);
        }
        mv
    }

    /// The pseudo-legal moves (see `pseudo_spec`), each once.
    pub fn generate_pseudo_legal_moves(&self) -> (moves: Vec<Move>)
        requires
            self@.wf(),
        ensures
            forall|m: Move| #[trigger] moves@.contains(m) <==> pseudo_spec(self@, m),
            moves@.no_duplicates(),
    {
        let mut moves: Vec<Move> = Vec::new();
        let us = self.side_to_move();
        let occupied = self.occupied_bb();
        let our_pieces = self.color_bb(us);
        let ghost v = self@;
        proof {
            assert(v.color_bb[us.index()].wf());
        }
        let mut rem = our_pieces;
        loop
            invariant_except_break
                self@ == v,
                v.wf(),
                us == v.side,
                occupied@ == v.occ(),
                our_pieces == v.color_bb[us.index()],
                our_pieces.wf(),
                rem.wf(),
                rem@.subset_of(our_pieces@),
                forall|m: Move| #[trigger] moves@.contains(m) <==> pseudo_normal(v, m) && !rem@.contains(m.from_field()),
                moves@.no_duplicates(),
            ensures
                forall|m: Move| #[trigger] moves@.contains(m) <==> pseudo_normal(v, m),
                moves@.no_duplicates(),
            decreases rem.p0, rem.p1,
        {
            let ghost before = rem;
            match rem.pop_first() {
                None => {
                    assert forall|m: Move| pseudo_normal(v, m) implies #[trigger] moves@.contains(m) by {
                        assert(!rem@.contains(m.from_field()));
                    }
                    break;
                },
                Some(from_sq) => {
                    proof {
                        lemma_rest_decreases(before);
                        assert(v.squares_of_color(us).contains(from_sq.0 as int));
                    }
                    let piece = self.piece_at(from_sq);
                    let pt = piece.piece_type();
                    let targets = self.get_attacks(pt, us, from_sq, occupied);
                    let dests = targets.bit_and(our_pieces.complement());
                    let ghost f = from_sq.0 as int;
                    proof {
                        lemma_attack_on_board(pt, us, f, v.occ());
                        assert(dests@ =~= targets_spec(v, f));
                    }
                    let mut drem = dests;
                    loop
                        invariant_except_break
                            self@ == v,
                            v.wf(),
                            us == v.side,
                            from_sq.on_board(),
                            f == from_sq.0,
                            pt == v.board[f].kind(),
                            v.color_bb[us.index()]@.contains(f),
                            !rem@.contains(f),
                            before@ == rem@.insert(f),
                            drem.wf(),
                            drem@.subset_of(targets_spec(v, f)),
                            forall|m: Move| #[trigger] moves@.contains(m) <==> pseudo_normal(v, m) && ((m.from_field() != f && !before@.contains(m.from_field())) || (m.from_field() == f && !drem@.contains(m.to_bits()))),
                            moves@.no_duplicates(),
                        ensures
                            forall|m: Move| #[trigger] moves@.contains(m) <==> pseudo_normal(v, m) && !rem@.contains(m.from_field()),
                            moves@.no_duplicates(),
                        decreases drem.p0, drem.p1,
                    {
                        let ghost dbefore = drem;
                        match drem.pop_first() {
                            None => {
                                assert forall|m: Move| #[trigger] moves@.contains(m) <==> pseudo_normal(v, m) && !rem@.contains(m.from_field()) by {
                                    if pseudo_normal(v, m) && m.from_field() == f {
                                        assert(!drem@.contains(m.to_bits()));
                                    }
                                }
                                break;
                            },
                            Some(to_sq) => {
                                proof {
                                    lemma_rest_decreases(dbefore);
                                    crate::attacks::lemma_attack_on_board(pt, us, f, v.occ());
                                }
                                let ghost t = to_sq.0 as int;
                                let cap = self.piece_at(to_sq);
                                let cap_pt = if !cap.is_empty() {
                                    Some(cap.piece_type())
                                } else {
                                    None
                                };
                                let can_promote = pt.can_promote() && (from_sq.can_promote(us) || to_sq.can_promote(us));
                                let must_promote = self.must_promote(pt, us, to_sq);
                                let ghost old_moves = moves@;
                                proof {
                                    assert(can_promote == can_promote_spec(v, f, t));
                                    lemma_normal_move_decode(v, f, t, false);
                                    lemma_normal_move_decode(v, f, t, true);
                                    assert(!old_moves.contains(normal_move_spec(v, f, t, false)));
                                    assert(!old_moves.contains(normal_move_spec(v, f, t, true)));
                                }
                                let ghost m0 = normal_move_spec(v, f, t, false);
                                let ghost m1 = normal_move_spec(v, f, t, true);
                                proof {
                                    assert(m0 != m1);
                                }
                                if must_promote {
                                    if can_promote {
                                        let mv = self.make_normal(from_sq, to_sq, pt, cap_pt, true);
                                        proof {
                                            lemma_push_moves(moves@, mv);
                                        }
                                        moves.push(mv);
                                    }
                                } else {
                                    let mv = self.make_normal(from_sq, to_sq, pt, cap_pt, false);
                                    proof {
                                        lemma_push_moves(moves@, mv);
                                    }
                                    moves.push(mv);
                                    if can_promote {
                                        let mv2 = self.make_normal(from_sq, to_sq, pt, cap_pt, true);
                                        proof {
                                            lemma_push_moves(moves@, mv2);
                                        }
                                        moves.push(mv2);
                                    }
                                }
                                proof {
                                    assert forall|m: Move| #[trigger] moves@.contains(m) <==> old_moves.contains(m) || (m == m0 && !must_promote) || (m == m1 && can_promote) by {
                                    }
                                    lemma_normal_step(v, f, t, old_moves, moves@, before@, dbefore@, drem@, must_promote, can_promote);
                                }
                            },
                        }
                    }
                },
            }
        }
        let ghost normals = moves@;
        let hand = self.hand(us);
        let empty_squares = occupied.complement();
        proof {
            assert forall|s: int| empty_squares@.contains(s) implies v.board[s].empty() by {
            }
        }
        let mut hp_idx: u8 = 0;
        while hp_idx < 7
            invariant
                self@ == v,
                v.wf(),
                us == v.side,
                hand == v.hand[us.index()],
                hp_idx <= 7,
                empty_squares.wf(),
                empty_squares@ == crate::bitboard::all_squares().difference(v.occ()),
                forall|m: Move| #[trigger] moves@.contains(m) <==> pseudo_normal(v, m) || (pseudo_drop(v, m) && drop_index(m) < hp_idx),
                moves@.no_duplicates(),
            decreases 7 - hp_idx,
        {
            let hp = HandPiece::from_index(hp_idx);
            if hand.count(hp) == 0 {
                proof {
                    assert forall|m: Move| #[trigger] moves@.contains(m) <==> pseudo_normal(v, m) || (pseudo_drop(v, m) && drop_index(m) < hp_idx + 1) by {
                        if pseudo_drop(v, m) && drop_index(m) == hp_idx {
                            assert(hand_piece_of(piece_type_of_code(m.dropped_code())) == Some(hp));
                        }
                    }
                }
                hp_idx = hp_idx + 1;
                continue;
            }
            let pt = hp.to_piece_type();
            let mut erem = empty_squares;
            loop
                invariant_except_break
                    self@ == v,
                    v.wf(),
                    us == v.side,
                    hand == v.hand[us.index()],
                    hp_idx < 7,
                    hp == hand_piece_of_index(hp_idx as int),
                    hp.index() == hp_idx,
                    pt == hp.kind(),
                    hand_piece_of(pt) == Some(hp),
                    hand.cnt(hp) > 0,
                    erem.wf(),
                    erem@.subset_of(empty_squares@),
                    empty_squares@ == crate::bitboard::all_squares().difference(v.occ()),
                    forall|m: Move| #[trigger] moves@.contains(m) <==> pseudo_normal(v, m) || (pseudo_drop(v, m) && (drop_index(m) < hp_idx || (drop_index(m) == hp_idx && !erem@.contains(m.to_bits())))),
                    moves@.no_duplicates(),
                ensures
                    forall|m: Move| #[trigger] moves@.contains(m) <==> pseudo_normal(v, m) || (pseudo_drop(v, m) && drop_index(m) < hp_idx + 1),
                    moves@.no_duplicates(),
                decreases erem.p0, erem.p1,
            {
                let ghost ebefore = erem;
                match erem.pop_first() {
                    None => {
                        assert forall|m: Move| #[trigger] moves@.contains(m) <==> pseudo_normal(v, m) || (pseudo_drop(v, m) && drop_index(m) < hp_idx + 1) by {
                            if pseudo_drop(v, m) && drop_index(m) == hp_idx {
                                assert(!erem@.contains(m.to_bits()));
                            }
                        }
                        break;
                    },
                    Some(to_sq) => {
                        proof {
                            lemma_rest_decreases(ebefore);
                        }
                        let ghost t = to_sq.0 as int;
                        let ghost old_moves = moves@;
                        let mv = Move::new_drop(pt, to_sq);
                        proof {
                            assert(ebefore@.contains(t));
                            assert(empty_squares@.contains(t));
                            assert(!v.occ().contains(t));
                            assert(v.board[t].empty()) by {
                                if !v.board[t].empty() {
                                    let c = v.board[t].owner();
                                    assert(v.squares_of_color(c).contains(t));
                                    assert(v.color_bb[c.index()]@.contains(t));
                                    assert(v.color_bb[Color::Black.index()]@.contains(t) || v.color_bb[Color::White.index()]@.contains(t));
                                }
                            }
                            assert(mv == Move(drop_move_bits(pt, Square(t as u8))));
                            assert(drop_index(mv) == hp_idx);
                            assert(!old_moves.contains(mv)) by {
                                if old_moves.contains(mv) {
                                    assert(!pseudo_normal(v, mv));
                                }
                            }
                        }
                        let ok = self.can_drop(pt, us, to_sq);
                        if ok {
                            proof {
                                lemma_push_moves(moves@, mv);
                            }
                            moves.push(mv);
                        }
                        proof {
                            assert forall|m: Move| #[trigger] moves@.contains(m) <==> old_moves.contains(m) || (m == mv && ok) by {
                            }
                            lemma_drop_step(v, hp_idx as int, hp, t, mv, ok, old_moves, moves@, ebefore@, erem@);
                        }
                    },
                }
            }
            hp_idx = hp_idx + 1;
        }
        proof {
            assert forall|m: Move| #[trigger] moves@.contains(m) <==> pseudo_spec(v, m) by {
                if pseudo_drop(v, m) {
                    assert(drop_index(m) < 7);
                }
            }
        }
        moves
    }

    /// The legal moves: the pseudo-legal moves that do not leave the mover's
    /// king attacked, each once.
    pub fn generate_legal_moves(&self) -> (r: Vec<Move>)
        requires
            self@.wf(),
        ensures
            forall|m: Move| #[trigger] r@.contains(m) <==> pseudo_spec(self@, m) && legal_spec(self@, m),
            r@.no_duplicates(),
    {
        let pseudo = self.generate_pseudo_legal_moves();
        let mut result: Vec<Move> = Vec::new();
        let mut i: usize = 0;
        while i < pseudo.len()
            invariant
                self@.wf(),
                i <= pseudo@.len(),
                forall|m: Move| #[trigger] pseudo@.contains(m) <==> pseudo_spec(self@, m),
                pseudo@.no_duplicates(),
                forall|m: Move| #[trigger] result@.contains(m) <==> pseudo@.subrange(0, i as int).contains(m) && legal_spec(self@, m),
                result@.no_duplicates(),
            decreases pseudo@.len() - i,
        {
            let mv = pseudo[i];
            proof {
                assert(pseudo@.contains(mv));
                lemma_pseudo_makeable(self@, mv);
                assert(!pseudo@.subrange(0, i as int).contains(mv)) by {
                    if pseudo@.subrange(0, i as int).contains(mv) {
                        let j = choose|j: int| 0 <= j < i && pseudo@.subrange(0, i as int)[j] == mv;
                        assert(pseudo@[j] == pseudo@[i as int]);
                    }
                }
            }
            let ghost old_result = result@;
            let ok = self.legal(mv);
            if ok {
                proof {
                    lemma_push_moves(result@, mv);
                }
                result.push(mv);
            }
            proof {
                let pre = pseudo@.subrange(0, i as int);
                assert(pseudo@.subrange(0, i + 1) =~= pre.push(mv));
                lemma_push_moves(pre, mv);
                assert forall|m: Move| #[trigger] result@.contains(m) <==> old_result.contains(m) || (m == mv && ok) by {
                }
                assert forall|m: Move| #[trigger] result@.contains(m) <==> pseudo@.subrange(0, i + 1).contains(m) && legal_spec(self@, m) by {
                    assert(pre.push(mv).contains(m) <==> pre.contains(m) || m == mv);
                }
            }
            i = i + 1;
        }
        proof {
            assert(pseudo@.subrange(0, pseudo@.len() as int) =~= pseudo@);
        }
        result
    }
}


/// The last rank of `c` (rank index 0 for Black, 8 for White) and the one
/// before it.
pub open spec fn far_ranks(c: Color, r: int, n: int) -> bool {
    match c {
        Color::Black => r < n,
        Color::White => r >= 9 - n,
    }
}

/// No generated board move leaves a piece without a further move: a pawn or
/// lance moved onto the mover's last rank, or a knight onto the last two, is
/// promoted; so is a rook or bishop moved into the far three ranks.  (The
/// moves `generate_legal_moves` gives are exactly those with `pseudo_spec`
/// and `legal_spec`.)
pub proof fn lemma_dead_end_moves_promote(v: PosView, m: Move)
    requires
        pseudo_spec(v, m),
        !m.drop_move(),
    ensures
        ({
            let pt = v.board[m.from_field()].kind();
            let r = sq_rank(m.to_bits());
            &&& (pt == PieceType::Pawn || pt == PieceType::Lance) && far_ranks(v.side, r, 1) ==> m.promo()
            &&& pt == PieceType::Knight && far_ranks(v.side, r, 2) ==> m.promo()
            &&& (pt == PieceType::Rook || pt == PieceType::Bishop) && far_ranks(v.side, r, 3) ==> m.promo()
        }),
{
    assert(pseudo_normal(v, m));
}

/// A board move puts on its destination square the piece that stood on its
/// origin, promoted to its promoted kind (in the mover's colour) when the
/// move promotes, and leaves the origin empty; a drop puts the dropped kind
/// there in the mover's colour.  Every other square keeps its piece.
pub proof fn lemma_move_lands(v: PosView, m: Move)
    requires
        v.wf(),
        pseudo_spec(v, m),
    ensures
        ({
            let a = v.after_move(m);
            let to = m.to_bits();
            let from = m.from_field();
            &&& !m.drop_move() && m.promo() ==> v.board[from].kind().promoted() is Some && a.board[to].kind()
                == v.board[from].kind().promoted()->0 && a.board[to].owner() == v.side && !a.board[to].empty()
            &&& !m.drop_move() && !m.promo() ==> a.board[to] == v.board[from]
            &&& !m.drop_move() ==> a.board[from].empty() && a.board[from] == Piece(0)
            &&& m.drop_move() ==> a.board[to].kind() == piece_type_of_code(m.dropped_code()) && a.board[to].owner()
                == v.side && !a.board[to].empty()
            &&& forall|s: int| 0 <= s < 81 && s != to && (m.drop_move() || s != from) ==> #[trigger] a.board[s]
                == v.board[s]
        }),
{
    lemma_pseudo_makeable(v, m);
    let to = m.to_bits();
    let from = m.from_field();
    if m.drop_move() {
        assert(pseudo_drop(v, m));
        Piece::lemma_piece_spec(v.side, piece_type_of_code(m.dropped_code()));
    } else {
        assert(pseudo_normal(v, m));
        assert(v.squares_of_color(v.side).contains(from));
        let p = v.board[from];
        assert(p.owner() == v.side);
        if m.promo() {
            assert(can_promote_spec(v, from, to));
            if let Some(pt) = p.kind().promoted() {
                Piece::lemma_piece_spec(p.owner(), pt);
            }
        }
        assert(from != to);
    }
}


/// No generated drop leaves a piece without a further move or doubles a
/// pawn: a pawn or lance is never dropped on the mover's last rank, a
/// knight never on the last two, and a pawn never on a file that holds an
/// unpromoted pawn of the mover.
pub proof fn lemma_drop_rules(v: PosView, m: Move)
    requires
        pseudo_spec(v, m),
        m.drop_move(),
    ensures
        ({
            let pt = piece_type_of_code(m.dropped_code());
            let to = m.to_bits();
            let r = sq_rank(to);
            &&& (pt == PieceType::Pawn || pt == PieceType::Lance) ==> !far_ranks(v.side, r, 1)
            &&& pt == PieceType::Knight ==> !far_ranks(v.side, r, 2)
            &&& pt == PieceType::Pawn ==> forall|s: int|
                0 <= s < 81 && sq_file(s) == sq_file(to) && !(#[trigger] v.board[s]).empty() && v.board[s].owner()
                    == v.side ==> v.board[s].kind() != PieceType::Pawn
            &&& v.board[to].empty() || !v.occ().contains(to)
        }),
{
    assert(pseudo_drop(v, m));
    let pt = piece_type_of_code(m.dropped_code());
    let to = m.to_bits();
    if pt == PieceType::Pawn {
        assert forall|s: int|
            0 <= s < 81 && sq_file(s) == sq_file(to) && !(#[trigger] v.board[s]).empty() && v.board[s].owner()
                == v.side implies v.board[s].kind() != PieceType::Pawn by {
            let rk = sq_rank(s);
            assert(s == sq_file(to) * 9 + rk);
            if v.board[s].kind() == PieceType::Pawn {
                assert(own_pawn_on_file(v, v.side, sq_file(to)));
            }
        }
    }
}

/// The hand `h` has room for one more piece of kind `hp`.
pub open spec fn room(h: Hand, hp: HandPiece) -> bool {
    h.cnt(hp) < crate::hand::hand_field_max(hp) && h.0 + crate::hand::hand_one(hp) <= u32::MAX
}

/// The hand `b` holds one more piece of kind `hp` than `a`, and as many of
/// every other kind.
pub open spec fn one_more(a: Hand, b: Hand, hp: HandPiece) -> bool {
    &&& b.cnt(hp) == a.cnt(hp) + 1
    &&& forall|o: HandPiece| o != hp ==> #[trigger] b.cnt(o) == a.cnt(o)
}

/// A move hands the turn over and counts one more move; a capture puts one
/// piece of the captured kind (unpromoted) in the mover's hand, a drop takes
/// one from it, and the other side's hand stays as it was.
pub proof fn lemma_move_hands(v: PosView, m: Move)
    requires
        v.wf(),
        pseudo_spec(v, m),
    ensures
        ({
            let a = v.after_move(m);
            let me = v.side.index();
            let other = v.side.opp().index();
            let cap = v.board[m.to_bits()];
            &&& a.side == v.side.opp()
            &&& a.ply == crate::hand::wadd(v.ply, 1)
            &&& a.hand[other] == v.hand[other]
            &&& !m.drop_move() && cap.empty() ==> a.hand[me] == v.hand[me]
            &&& !m.drop_move() && !cap.empty() ==> (hand_piece_of(cap.kind()) matches Some(hp) ==> (room(v.hand[me], hp)
                ==> one_more(v.hand[me], a.hand[me], hp)))
            &&& m.drop_move() ==> (hand_piece_of(piece_type_of_code(m.dropped_code())) matches Some(hp) && one_more(
                a.hand[me],
                v.hand[me],
                hp,
            ))
        }),
{
    lemma_pseudo_makeable(v, m);
    let me = v.side.index();
    let h = v.hand[me];
    assert(v.hand.len() == 2);
    if m.drop_move() {
        assert(pseudo_drop(v, m));
        let hp = hand_piece_of(piece_type_of_code(m.dropped_code()))->0;
        Hand::lemma_remove_one(h.0, hp);
    } else {
        assert(pseudo_normal(v, m));
        let from = m.from_field();
        let to = m.to_bits();
        assert(v.squares_of_color(v.side).contains(from));
        assert(from != to);
        let cap = v.board[to];
        if !cap.empty() {
            if let Some(hp) = hand_piece_of(cap.kind()) {
                if room(h, hp) {
                    assert(hand_piece_of(cap.kind().base()) == Some(hp));
                    Hand::lemma_add_one(h.0, hp);
                }
            }
        }
    }
}

} // verus!
