//! A fast, incomplete mate-in-one finder that only tries drops next to the
//! enemy king, and the empty-board attack helpers it is built from.
//!
//! Its quick tests read the attacks of an empty board: a piece counts as
//! defending or attacking a square when a piece of its kind could reach the
//! square with nothing in between, whatever stands in the way.  A drop that
//! passes them is then played out, and kept only when it leaves the other
//! side in check without a legal move, so every drop it returns mates.
use vstd::prelude::*;
use crate::types::{Color, Square, File, Rank, sq_file, sq_rank};
use crate::piece::{PieceType, HandPiece, piece_type_of_code};
use crate::bitboard::{Bitboard, all_squares, lemma_rest_decreases};
use crate::hand::Hand;
use crate::moves::{Move, drop_move_bits};
use crate::position::{Position, PosView};
use crate::attacks::{attack_spec, attacks_from};
use crate::movegen::{checked, own_pawn_on_file, pseudo_spec, legal_spec, lemma_pseudo_makeable, pseudo_drop};
use crate::position::lemma_after_move_wf;

verus! {

/// The squares a piece of kind `pt` and colour `c` on `s` attacks on an empty board.
pub open spec fn empty_attack(pt: PieceType, c: Color, s: int) -> Set<int> {
    attack_spec(pt, c, s, Set::empty())
}

/// Every square in the rook lines of `sq`.
pub fn rook_step_effect(sq: Square) -> (r: Bitboard)
    requires
        sq.on_board(),
    ensures
        r.wf(),
        r@ == empty_attack(PieceType::Rook, Color::Black, sq.0 as int),
{
    attacks_from(PieceType::Rook, Color::Black, sq)
}

/// The squares a black silver on `sq` attacks (the diagonal neighbours and
/// the square ahead).
pub fn bishop_step_effect(sq: Square) -> (r: Bitboard)
    requires
        sq.on_board(),
    ensures
        r.wf(),
        r@ == empty_attack(PieceType::Silver, Color::Black, sq.0 as int),
{
    attacks_from(PieceType::Silver, Color::Black, sq)
}

/// The squares a gold of colour `c` on `sq` attacks.
pub fn gold_effect(c: Color, sq: Square) -> (r: Bitboard)
    requires
        sq.on_board(),
    ensures
        r.wf(),
        r@ == empty_attack(PieceType::Gold, c, sq.0 as int),
{
    attacks_from(PieceType::Gold, c, sq)
}

/// The squares a silver of colour `c` on `sq` attacks.
pub fn silver_effect(c: Color, sq: Square) -> (r: Bitboard)
    requires
        sq.on_board(),
    ensures
        r.wf(),
        r@ == empty_attack(PieceType::Silver, c, sq.0 as int),
{
    attacks_from(PieceType::Silver, c, sq)
}

/// The squares a knight of colour `c` on `sq` attacks.
pub fn knight_effect(c: Color, sq: Square) -> (r: Bitboard)
    requires
        sq.on_board(),
    ensures
        r.wf(),
        r@ == empty_attack(PieceType::Knight, c, sq.0 as int),
{
    attacks_from(PieceType::Knight, c, sq)
}

/// The square a pawn of colour `c` on `sq` attacks.
pub fn pawn_effect(c: Color, sq: Square) -> (r: Bitboard)
    requires
        sq.on_board(),
    ensures
        r.wf(),
        r@ == empty_attack(PieceType::Pawn, c, sq.0 as int),
{
    attacks_from(PieceType::Pawn, c, sq)
}

/// The squares next to `sq`.
pub fn king_effect(sq: Square) -> (r: Bitboard)
    requires
        sq.on_board(),
    ensures
        r.wf(),
        r@ == empty_attack(PieceType::King, Color::Black, sq.0 as int),
{
    attacks_from(PieceType::King, Color::Black, sq)
}

/// A piece of `us` with kind code `k` stands where a piece of that kind of
/// the other colour on `sq` would attack on an empty board, that is, it
/// reaches `sq` on an empty board.
pub open spec fn kind_reaches(v: PosView, us: Color, sq: int, k: int) -> bool {
    empty_attack(piece_type_of_code(k), us.opp(), sq).intersect(
        v.squares_of_kind(k).intersect(v.squares_of_color(us)),
    ) != Set::<int>::empty()
}

/// Some piece of `us` reaches `sq` on an empty board.
pub open spec fn reaches_spec(v: PosView, us: Color, sq: int) -> bool {
    exists|k: int| 1 <= k < 15 && #[trigger] kind_reaches(v, us, sq, k)
}

/// The squares the king of `them` on `k` might flee to after a drop on `to`
/// whose piece attacks `drop_att`: next to the king, holding no piece of the
/// dropping side, not attacked by the dropped piece and not `to` itself.
pub open spec fn flight_squares(v: PosView, them: Color, k: int, to: int, drop_att: Set<int>) -> Set<int> {
    empty_attack(PieceType::King, Color::Black, k).difference(v.color_bb[them.opp().index()]@).difference(
        drop_att,
    ).difference(set![to])
}

/// The king of `them` has a flight square that no piece of the other side
/// reaches (or `them` has no king).
pub open spec fn escape_spec(v: PosView, them: Color, to: int, drop_att: Set<int>) -> bool {
    match v.king_sq(them) {
        None => true,
        Some(k) => has_flight(v, them, k.0 as int, to, drop_att),
    }
}

/// Some flight square of the king of `them` on `k` is reached by no piece of
/// the other side.
pub open spec fn has_flight(v: PosView, them: Color, k: int, to: int, drop_att: Set<int>) -> bool {
    exists|x: int| #[trigger] flight_squares(v, them, k, to, drop_att).contains(x) && !reaches_spec(v, them.opp(), x)
}

/// The kind of the `i`-th drop tried: rook, bishop, gold, silver, knight, pawn.
pub open spec fn mate_kind(i: int) -> PieceType {
    if i == 0 {
        PieceType::Rook
    } else if i == 1 {
        PieceType::Bishop
    } else if i == 2 {
        PieceType::Gold
    } else if i == 3 {
        PieceType::Silver
    } else if i == 4 {
        PieceType::Knight
    } else {
        PieceType::Pawn
    }
}

/// The hand kind of the `i`-th drop tried.
pub open spec fn mate_hand(i: int) -> HandPiece {
    if i == 0 {
        HandPiece::HRook
    } else if i == 1 {
        HandPiece::HBishop
    } else if i == 2 {
        HandPiece::HGold
    } else if i == 3 {
        HandPiece::HSilver
    } else if i == 4 {
        HandPiece::HKnight
    } else {
        HandPiece::HPawn
    }
}

/// The pattern of the `i`-th drop kind around `s` for colour `c`: the rook
/// lines and the black silver's squares for the first two (whatever `c`),
/// the gold's, silver's, knight's and pawn's squares for the others.
pub open spec fn drop_pattern(i: int, c: Color, s: int) -> Set<int> {
    if i == 0 {
        empty_attack(PieceType::Rook, Color::Black, s)
    } else if i == 1 {
        empty_attack(PieceType::Silver, Color::Black, s)
    } else if i == 2 {
        empty_attack(PieceType::Gold, c, s)
    } else if i == 3 {
        empty_attack(PieceType::Silver, c, s)
    } else if i == 4 {
        empty_attack(PieceType::Knight, c, s)
    } else {
        empty_attack(PieceType::Pawn, c, s)
    }
}

/// `us` holds the `i`-th drop kind in hand.
pub open spec fn holds_kind(v: PosView, us: Color, i: int) -> bool {
    v.hand[us.index()].cnt(mate_hand(i)) > 0
}

/// The squares left to the weaker drop kinds: the patterns around the enemy
/// king `k` of each of the first `j` kinds that `us` holds.
pub open spec fn covered(v: PosView, us: Color, j: int, k: int) -> Set<int>
    decreases j,
{
    if j <= 0 {
        Set::empty()
    } else {
        covered(v, us, j - 1, k).union(
            if holds_kind(v, us, j - 1) {
                drop_pattern(j - 1, us.opp(), k)
            } else {
                Set::empty()
            },
        )
    }
}

/// The king on `k` sits on a rank where a drop of the `i`-th kind by `us`
/// cannot give check (knights on the first two ranks, pawns on the first).
pub open spec fn rank_shut(i: int, us: Color, k: int) -> bool {
    if i == 4 {
        match us {
            Color::Black => sq_rank(k) <= 1,
            Color::White => sq_rank(k) >= 7,
        }
    } else if i == 5 {
        match us {
            Color::Black => sq_rank(k) == 0,
            Color::White => sq_rank(k) == 8,
        }
    } else {
        false
    }
}

/// The empty squares tried for the `i`-th drop kind against the king on `k`.
pub open spec fn drop_candidates(v: PosView, us: Color, i: int, k: int) -> Set<int> {
    let empty = all_squares().difference(v.occ());
    if i <= 1 {
        drop_pattern(i, us.opp(), k).intersect(empty_attack(PieceType::King, Color::Black, k)).intersect(empty)
    } else if rank_shut(i, us, k) {
        Set::empty()
    } else {
        drop_pattern(i, us.opp(), k).intersect(empty).difference(covered(v, us, i, k))
    }
}

/// A drop of the `i`-th kind on `sq` is judged mate: (for a pawn, no pawn of
/// `us` on the file,) some piece of `us` backs the square, the king cannot
/// flee and no piece of the other side reaches the square.
pub open spec fn drop_mates(v: PosView, us: Color, i: int, sq: int) -> bool {
    &&& (i == 5 ==> !own_pawn_on_file(v, us, sq_file(sq)))
    &&& reaches_spec(v, us, sq)
    &&& !escape_spec(v, us.opp(), sq, drop_pattern(i, us, sq))
    &&& !reaches_spec(v, us.opp(), sq)
    &&& truly_mates(v, Move(drop_move_bits(mate_kind(i), Square(sq as u8))))
}

/// The move `m` is legal in `v` and mates: after it the side to move is in
/// check and has no legal move.
pub open spec fn truly_mates(v: PosView, m: Move) -> bool {
    &&& pseudo_spec(v, m)
    &&& legal_spec(v, m)
    &&& checked(v.after_move(m), v.after_move(m).side)
    &&& forall|mm: Move| !(pseudo_spec(v.after_move(m), mm) && legal_spec(v.after_move(m), mm))
}

/// The candidate squares of the `i`-th kind on which its drop is judged mate.
pub open spec fn mating_squares(v: PosView, us: Color, i: int, k: int) -> Set<int> {
    Set::new(|s: int| drop_candidates(v, us, i, k).contains(s) && drop_mates(v, us, i, s))
}

/// The least element of a set of integers.
pub open spec fn least(s: Set<int>) -> int {
    choose|x: int| s.contains(x) && forall|y: int| #[trigger] s.contains(y) ==> x <= y
}

/// The drop `mate1ply_fast` finds, trying the kinds from the `i`-th on: the
/// first kind held with a mating square, dropped on its lowest such square.
pub open spec fn mate_from(v: PosView, us: Color, i: int, k: int) -> Option<Move>
    decreases 6 - i,
{
    if i >= 6 {
        None
    } else if holds_kind(v, us, i) && mating_squares(v, us, i, k) != Set::<int>::empty() {
        Some(Move(drop_move_bits(mate_kind(i), Square(least(mating_squares(v, us, i, k)) as u8))))
    } else {
        mate_from(v, us, i + 1, k)
    }
}

/// A move made of drop bits, with the code of a kind that can be in hand,
/// is a drop, whatever the square byte.
proof fn lemma_drop_bits_is_drop(pt: PieceType, to: Square)
    requires
        1 <= pt.code() <= 7,
    ensures
        Move(drop_move_bits(pt, to)).drop_move(),
{
    let t = to.0 as u32;
    let f = (80 + pt.code()) as u32;
    assert(t < 256 && 81 <= f < 95 ==> ((t | (f << 7u32)) / 128) % 128 >= 81) by (bit_vector);
}

/// What `mate_from` finds is a drop.
proof fn lemma_mate_from_drop(v: PosView, us: Color, i: int, k: int)
    ensures
        mate_from(v, us, i, k) matches Some(m) ==> m.drop_move(),
    decreases 6 - i,
{
    if i < 6 {
        if holds_kind(v, us, i) && mating_squares(v, us, i, k) != Set::<int>::empty() {
            lemma_drop_bits_is_drop(mate_kind(i), Square(least(mating_squares(v, us, i, k)) as u8));
        } else {
            lemma_mate_from_drop(v, us, i + 1, k);
        }
    }
}

/// A mate that `mate1_spec` finds and that truly mates is the drop of a
/// piece the mover holds on an empty square (see `pseudo_drop`).
pub proof fn lemma_mate1_is_drop(v: PosView)
    ensures
        mate1_spec(v) matches Some(m) ==> (truly_mates(v, m) ==> pseudo_drop(v, m)),
{
    if !checked(v, v.side) {
        if let Some(k) = v.king_sq(v.side.opp()) {
            lemma_mate_from_drop(v, v.side, 0, k.0 as int);
        }
    }
}

/// What `mate1ply_fast` returns: nothing when the side to move is in check
/// or the other side has no king, else the first mating drop found.
pub open spec fn mate1_spec(v: PosView) -> Option<Move> {
    if checked(v, v.side) {
        None
    } else {
        match v.king_sq(v.side.opp()) {
            None => None,
            Some(k) => mate_from(v, v.side, 0, k.0 as int),
        }
    }
}

/// The least element of a set is the element below all others.
pub proof fn lemma_least(s: Set<int>, x: int)
    requires
        s.contains(x),
        forall|y: int| #[trigger] s.contains(y) ==> x <= y,
    ensures
        least(s) == x,
{
    let l = least(s);
    assert(s.contains(l) && forall|y: int| #[trigger] s.contains(y) ==> l <= y);
}

/// The pattern of the `i`-th drop kind.
fn drop_pattern_bb(i: u8, c: Color, sq: Square) -> (r: Bitboard)
    requires
        i < 6,
        sq.on_board(),
    ensures
        r.wf(),
        r@ == drop_pattern(i as int, c, sq.0 as int),
{
    if i == 0 {
        rook_step_effect(sq)
    } else if i == 1 {
        bishop_step_effect(sq)
    } else if i == 2 {
        gold_effect(c, sq)
    } else if i == 3 {
        silver_effect(c, sq)
    } else if i == 4 {
        knight_effect(c, sq)
    } else {
        pawn_effect(c, sq)
    }
}

/// The hand kind of the `i`-th drop tried.
fn mate_hand_exec(i: u8) -> (r: HandPiece)
    requires
        i < 6,
    ensures
        r == mate_hand(i as int),
{
    if i == 0 {
        HandPiece::HRook
    } else if i == 1 {
        HandPiece::HBishop
    } else if i == 2 {
        HandPiece::HGold
    } else if i == 3 {
        HandPiece::HSilver
    } else if i == 4 {
        HandPiece::HKnight
    } else {
        HandPiece::HPawn
    }
}

/// The kind of the `i`-th drop tried.
fn mate_kind_exec(i: u8) -> (r: PieceType)
    requires
        i < 6,
    ensures
        r == mate_kind(i as int),
{
    if i == 0 {
        PieceType::Rook
    } else if i == 1 {
        PieceType::Bishop
    } else if i == 2 {
        PieceType::Gold
    } else if i == 3 {
        PieceType::Silver
    } else if i == 4 {
        PieceType::Knight
    } else {
        PieceType::Pawn
    }
}

/// Whether the king of `them` can flee after a drop on `drop_to` whose piece
/// attacks `drop_attacks` (see `escape_spec`).
fn can_king_escape(pos: &Position, them: Color, drop_to: Square, drop_attacks: Bitboard, _occupied: Bitboard) -> (r: bool)
    requires
        pos@.wf(),
        drop_to.on_board(),
        drop_attacks.wf(),
    ensures
        r == escape_spec(pos@, them, drop_to.0 as int, drop_attacks@),
{
    let sq_king = match pos.king_square(them) {
        Some(sq) => sq,
        None => return true,
    };
    let king_moves = king_effect(sq_king);
    let us = them.opposite();
    let our_pieces = pos.pieces_of_color_bb(us);
    let escapes = king_moves.bit_and(our_pieces.complement());
    let escapes = escapes.bit_and(drop_attacks.complement());
    let escapes = escapes.bit_and(Bitboard::square_mask(drop_to).complement());
    let ghost v = pos@;
    let ghost fl = flight_squares(v, them, sq_king.0 as int, drop_to.0 as int, drop_attacks@);
    proof {
        crate::attacks::lemma_attack_on_board(PieceType::King, Color::Black, sq_king.0 as int, Set::empty());
        assert(escapes@ =~= fl);
    }
    let mut rem = escapes;
    loop
        invariant_except_break
            pos@ == v,
            v.wf(),
            us == them.opp(),
            v.king_sq(them) == Some(sq_king),
            fl == flight_squares(v, them, sq_king.0 as int, drop_to.0 as int, drop_attacks@),
            rem.wf(),
            rem@.subset_of(fl),
            forall|x: int| fl.contains(x) && !rem@.contains(x) ==> reaches_spec(v, us, x),
        ensures
            forall|x: int| fl.contains(x) ==> reaches_spec(v, us, x),
        decreases rem.p0, rem.p1,
    {
        let ghost before = rem;
        match rem.pop_first() {
            None => {
                break;
            },
            Some(escape_sq) => {
                proof {
                    lemma_rest_decreases(before);
                }
                assert(before@.contains(escape_sq.0 as int));
                if !pos.has_attacker_to(us, escape_sq) {
                    assert(flight_squares(v, them, sq_king.0 as int, drop_to.0 as int, drop_attacks@).contains(
                        escape_sq.0 as int,
                    ));
                    assert(!reaches_spec(v, them.opp(), escape_sq.0 as int));
                    assert(has_flight(v, them, sq_king.0 as int, drop_to.0 as int, drop_attacks@));
                    return true;
                }
            },
        }
    }
    false
}

/// Whether some piece of `them` reaches `drop_to` (see `reaches_spec`).
fn can_piece_capture(pos: &Position, them: Color, drop_to: Square, _pinned: Bitboard, _occupied: Bitboard) -> (r: bool)
    requires
        pos@.wf(),
        drop_to.on_board(),
    ensures
        r == reaches_spec(pos@, them, drop_to.0 as int),
{
    pos.has_attacker_to(them, drop_to)
}

impl Position {
    /// Whether some piece of `us` reaches `sq` on an empty board (see
    /// `reaches_spec`).
    pub fn has_attacker_to(&self, us: Color, sq: Square) -> (r: bool)
        requires
            self@.wf(),
            sq.on_board(),
        ensures
            r == reaches_spec(self@, us, sq.0 as int),
    {
        let mut code: u8 = 1;
        while code < 15
            invariant
                1 <= code <= 15,
                self@.wf(),
                sq.on_board(),
                forall|j: int| 1 <= j < code ==> !#[trigger] kind_reaches(self@, us, sq.0 as int, j),
            decreases 15 - code,
        {
            let pt = PieceType::from_code(code);
            let attacks = attacks_from(pt, us.opposite(), sq);
            let our_pieces = self.pieces_of(us, pt);
            proof {
                Bitboard::lemma_and(self@.piece_bb[code as int], self@.color_bb[us.index()]);
                assert(self@.piece_bb[code as int]@ == self@.squares_of_kind(code as int));
                assert(our_pieces@ == self@.squares_of_kind(code as int).intersect(self@.squares_of_color(us)));
            }
            if attacks.bit_and(our_pieces).is_any() {
                assert(kind_reaches(self@, us, sq.0 as int, code as int));
                return true;
            }
            assert(!kind_reaches(self@, us, sq.0 as int, code as int));
            code = code + 1;
        }
        false
    }

    /// Whether a pawn of `us` stands on `file`.
    pub fn has_pawn_on_file(&self, us: Color, file: File) -> (r: bool)
        requires
            self@.pieces_ok(),
        ensures
            r == own_pawn_on_file(self@, us, file.value()),
    {
        let mut rank_u8: u8 = 0;
        while rank_u8 <= 8
            invariant
                rank_u8 <= 9,
                self@.pieces_ok(),
                forall|rk: int|
                    0 <= rk < rank_u8 ==> !(!(#[trigger] self@.board[file.value() * 9 + rk]).empty()
                        && self@.board[file.value() * 9 + rk].owner() == us && self@.board[file.value() * 9
                        + rk].kind() == PieceType::Pawn),
            decreases 9 - rank_u8,
        {
            if let Some(rank) = Rank::from_u8(rank_u8) {
                let sq = Square::new(file, rank);
                let piece = self.piece_at(sq);
                if !piece.is_empty() && piece.color() == us && piece.piece_type() == PieceType::Pawn {
                    assert(self@.board[file.value() * 9 + rank_u8 as int] == piece);
                    return true;
                }
            }
            rank_u8 = rank_u8 + 1;
        }
        false
    }

    /// The squares tried for the `i`-th drop kind (see `drop_candidates`).
    fn mate_candidates(&self, i: u8, us: Color, sq_king: Square, hand: Hand, bb_drop: Bitboard) -> (r: Bitboard)
        requires
            self@.wf(),
            i < 6,
            sq_king.on_board(),
            hand == self@.hand[us.index()],
            bb_drop.wf(),
            bb_drop@ == all_squares().difference(self@.occ()),
        ensures
            r.wf(),
            r@ == drop_candidates(self@, us, i as int, sq_king.0 as int),
    {
        let them = us.opposite();
        let ghost k = sq_king.0 as int;
        if i <= 1 {
            return drop_pattern_bb(i, them, sq_king).bit_and(king_effect(sq_king)).bit_and(bb_drop);
        }
        let rank = sq_king.rank().to_u8();
        let shut = if i == 4 {
            match us {
                Color::Black => rank <= 1,
                Color::White => rank >= 7,
            }
        } else if i == 5 {
            match us {
                Color::Black => rank == 0,
                Color::White => rank == 8,
            }
        } else {
            false
        };
        if shut {
            return Bitboard::ZERO();
        }
        let mut bb = drop_pattern_bb(i, them, sq_king).bit_and(bb_drop);
        let ghost base = drop_pattern(i as int, them, k).intersect(all_squares().difference(self@.occ()));
        assert(bb@ =~= base.difference(covered(self@, us, 0, k)));
        let mut j: u8 = 0;
        while j < i
            invariant
                j <= i < 6,
                sq_king.on_board(),
                k == sq_king.0,
                them == us.opp(),
                hand == self@.hand[us.index()],
                base == drop_pattern(i as int, them, k).intersect(all_squares().difference(self@.occ())),
                bb.wf(),
                bb@ == base.difference(covered(self@, us, j as int, k)),
            decreases i - j,
        {
            let ghost old_bb = bb@;
            if hand.count(mate_hand_exec(j)) > 0 {
                bb = bb.bit_and(drop_pattern_bb(j, them, sq_king).complement());
            }
            proof {
                assert forall|x: int| base.contains(x) implies all_squares().contains(x) by {
                }
                assert(bb@ =~= base.difference(covered(self@, us, j + 1, k)));
            }
            j = j + 1;
        }
        bb
    }

    /// The lowest square of `bb` on which a drop of the `i`-th kind is judged
    /// mate, as that drop.
    fn first_mating_drop(&self, i: u8, us: Color, sq_king: Square, bb: Bitboard) -> (r: Option<Move>)
        requires
            self@.wf(),
            i < 6,
            us == self@.side,
            self@.king_sq(us.opp()) == Some(sq_king),
            sq_king.on_board(),
            bb.wf(),
            bb@ == drop_candidates(self@, us, i as int, sq_king.0 as int),
        ensures
            ({
                let ms = mating_squares(self@, us, i as int, sq_king.0 as int);
                r == if ms != Set::<int>::empty() {
                    Some(Move(drop_move_bits(mate_kind(i as int), Square(least(ms) as u8))))
                } else {
                    None
                }
            }),
            r matches Some(m) ==> truly_mates(self@, m),
    {
        let them = us.opposite();
        let ghost v = self@;
        let ghost ms = mating_squares(v, us, i as int, sq_king.0 as int);
        let mut rem = bb;
        let occupied = self.occupied_bb();
        let pinned = Bitboard::ZERO();
        loop
            invariant_except_break
                self@ == v,
                v.wf(),
                i < 6,
                them == us.opp(),
                sq_king.on_board(),
                bb@ == drop_candidates(v, us, i as int, sq_king.0 as int),
                ms == mating_squares(v, us, i as int, sq_king.0 as int),
                rem.wf(),
                rem@.subset_of(bb@),
                forall|s: int| bb@.contains(s) && !rem@.contains(s) ==> !drop_mates(v, us, i as int, s),
            ensures
                forall|s: int| bb@.contains(s) ==> !drop_mates(v, us, i as int, s),
            decreases rem.p0, rem.p1,
        {
            let ghost before = rem;
            match rem.pop_first() {
                None => {
                    break;
                },
                Some(sq) => {
                    proof {
                        lemma_rest_decreases(before);
                    }
                    let ghost s = sq.0 as int;
                    assert(before@.contains(s));
                    assert(bb@.contains(s));
                    let mut ok = true;
                    if i == 5 && self.has_pawn_on_file(us, sq.file()) {
                        ok = false;
                    }
                    if ok && !self.has_attacker_to(us, sq) {
                        ok = false;
                    }
                    if ok {
                        let drop_attacks = drop_pattern_bb(i, us, sq);
                        if can_king_escape(self, them, sq, drop_attacks, occupied) {
                            ok = false;
                        }
                    }
                    if ok && can_piece_capture(self, them, sq, pinned, occupied) {
                        ok = false;
                    }
                    if ok {
                        let cand = Move::new_drop(mate_kind_exec(i), sq);
                        ok = self.mates_with(cand);
                    }
                    assert(ok == drop_mates(v, us, i as int, s));
                    if ok {
                        let mv = Move::new_drop(mate_kind_exec(i), sq);
                        proof {
                            assert(ms.contains(s));
                            assert forall|y: int| #[trigger] ms.contains(y) implies s <= y by {
                                assert(bb@.contains(y) && drop_mates(v, us, i as int, y));
                                assert(before@.contains(y));
                            }
                            lemma_least(ms, s);
                            assert(ms != Set::<int>::empty()) by {
                                assert(ms.contains(s));
                            }
                            assert(Square(s as u8) == sq);
                        }
                        return Some(mv);
                    }
                },
            }
        }
        proof {
            assert(ms =~= Set::<int>::empty());
        }
        None
    }

    /// Whether the move `m` is legal here and mates: after it the other side
    /// is in check with no legal move.
    pub fn mates_with(&self, m: Move) -> (r: bool)
        requires
            self@.wf(),
        ensures
            r == truly_mates(self@, m),
    {
        let legal = self.generate_legal_moves();
        let mut found = false;
        let mut j: usize = 0;
        while j < legal.len()
            invariant
                j <= legal@.len(),
                found == exists|k: int| 0 <= k < j && #[trigger] legal@[k] == m,
            decreases legal@.len() - j,
        {
            if legal[j] == m {
                found = true;
            }
            j = j + 1;
        }
        proof {
            if found {
                let k = choose|k: int| 0 <= k < j && #[trigger] legal@[k] == m;
                assert(legal@.contains(m));
            } else if legal@.contains(m) {
                let k = choose|k: int| 0 <= k < legal@.len() && legal@[k] == m;
                assert(legal@[k] == m);
            }
        }
        if !found {
            return false;
        }
        proof {
            lemma_pseudo_makeable(self@, m);
            lemma_after_move_wf(self@, m);
        }
        let mut q = *self;
        q.do_move(m);
        if !q.in_check() {
            return false;
        }
        let replies = q.generate_legal_moves();
        proof {
            if replies@.len() > 0 {
                assert(replies@.contains(replies@[0]));
            } else {
                assert forall|mm: Move| !(pseudo_spec(q@, mm) && legal_spec(q@, mm)) by {
                    assert(!replies@.contains(mm));
                }
            }
        }
        replies.len() == 0
    }

    /// The mate-in-one search of the engine (see `mate1ply_fast`).
    pub fn mate1ply(&self) -> (r: Option<Move>)
        requires
            self@.wf(),
        ensures
            r == mate1_spec(self@),
            r matches Some(m) ==> truly_mates(self@, m),
            r matches Some(m) ==> pseudo_drop(self@, m),
    {
        self.mate1ply_fast()
    }

    /// A mate in one by a drop next to the enemy king, if this quick search
    /// finds one (see `mate1_spec`): it tries rook, bishop, gold, silver,
    /// knight and pawn drops in that order, each on the lowest square where
    /// the quick tests pass and the drop, played out, leaves the other side
    /// in check without a legal move.
    pub fn mate1ply_fast(&self) -> (r: Option<Move>)
        requires
            self@.wf(),
        ensures
            r == mate1_spec(self@),
            r matches Some(m) ==> truly_mates(self@, m),
            r matches Some(m) ==> pseudo_drop(self@, m),
    {
        if self.in_check() {
            return None;
        }
        let us = self.side_to_move();
        let them = us.opposite();
        let sq_king = match self.king_square(them) {
            Some(sq) => sq,
            None => return None,
        };
        let occupied = self.occupied_bb();
        let bb_drop = occupied.complement();
        let our_hand = self.hand(us);
        let ghost v = self@;
        let ghost k = sq_king.0 as int;
        let mut i: u8 = 0;
        while i < 6
            invariant
                self@ == v,
                v.wf(),
                i <= 6,
                us == v.side,
                them == us.opp(),
                v.king_sq(them) == Some(sq_king),
                sq_king.on_board(),
                k == sq_king.0,
                our_hand == v.hand[us.index()],
                bb_drop.wf(),
                bb_drop@ == all_squares().difference(v.occ()),
                mate1_spec(v) == mate_from(v, us, i as int, k),
            decreases 6 - i,
        {
            if our_hand.count(mate_hand_exec(i)) > 0 {
                let bb = self.mate_candidates(i, us, sq_king, our_hand, bb_drop);
                if let Some(m) = self.first_mating_drop(i, us, sq_king, bb) {
                    proof {
                        lemma_mate1_is_drop(self@);
                    }
                    return Some(m);
                }
            }
            i = i + 1;
        }
        None
    }
}


/// A step from `s` to `n` is undone by the opposite step.
proof fn lemma_step_back(s: int, d: int)
    requires
        0 <= s < 81,
        crate::types::step(s, d) is Some,
    ensures
        crate::types::step(crate::types::step(s, d)->0, -d) == Some(s),
{
    let n = s + d;
    assert(0 <= n < 81);
}

/// A single-step pattern read backwards: `u` is one step `d` from `s`
/// exactly when `s` is one step `-d` from `u`.
proof fn lemma_step_pair(s: int, u: int, d: int)
    requires
        0 <= s < 81,
        0 <= u < 81,
    ensures
        crate::attacks::opt_set(crate::types::step(s, d)).contains(u) == crate::attacks::opt_set(
            crate::types::step(u, -d),
        ).contains(s),
{
    if crate::types::step(s, d) == Some(u) {
        lemma_step_back(s, d);
    }
    if crate::types::step(u, -d) == Some(s) {
        lemma_step_back(u, -d);
    }
}

/// A knight of colour `c` on `s` attacks `u` exactly when `u` is two ranks
/// ahead of `s` (for `c`) on a neighbouring file.
proof fn lemma_knight_geometry(c: Color, s: int, u: int)
    requires
        0 <= s < 81,
        0 <= u < 81,
    ensures
        crate::attacks::knight_set(c, s).contains(u) <==> (sq_rank(u) == sq_rank(s) + 2 * crate::attacks::fwd(c)
            && (sq_file(u) == sq_file(s) + 1 || sq_file(u) == sq_file(s) - 1)),
{
    let f = crate::attacks::fwd(c);
    assert(sq_file(s) == s / 9 && sq_rank(s) == s % 9);
    assert(sq_file(u) == u / 9 && sq_rank(u) == u % 9);
}

/// For the gold, silver, knight and pawn, the candidate squares of a drop
/// around the enemy king `k` are exactly the squares from which that piece,
/// dropped by the side `us`, would attack the king.
pub proof fn lemma_drop_pattern_checks(i: int, us: Color, k: int, s: int)
    requires
        2 <= i <= 5,
        0 <= k < 81,
        0 <= s < 81,
    ensures
        drop_pattern(i, us.opp(), k).contains(s) <==> empty_attack(mate_kind(i), us, s).contains(k),
{
    let f = crate::attacks::fwd(us);
    assert(crate::attacks::fwd(us.opp()) == -f);
    if i == 4 {
        lemma_knight_geometry(us.opp(), k, s);
        lemma_knight_geometry(us, s, k);
    } else {
        lemma_step_pair(k, s, -1);
        lemma_step_pair(k, s, 1);
        lemma_step_pair(k, s, -9);
        lemma_step_pair(k, s, 9);
        lemma_step_pair(k, s, -10);
        lemma_step_pair(k, s, 10);
        lemma_step_pair(k, s, -8);
        lemma_step_pair(k, s, 8);
    }
}


/// Every neighbour of the enemy king `k` on a file or rank through it is a
/// rook drop candidate, from which a rook attacks the king; every diagonal
/// neighbour is a bishop drop candidate, from which a bishop attacks it.
pub proof fn lemma_line_drops_cover(c: Color, us: Color, k: int, d: int)
    requires
        0 <= k < 81,
        crate::types::step(k, d) is Some,
    ensures
        (d == 1 || d == -1 || d == 9 || d == -9) ==> drop_pattern(0, c, k).contains(crate::types::step(k, d)->0)
            && empty_attack(PieceType::Rook, us, crate::types::step(k, d)->0).contains(k),
        (d == 8 || d == -8 || d == 10 || d == -10) ==> drop_pattern(1, c, k).contains(crate::types::step(k, d)->0)
            && empty_attack(PieceType::Bishop, us, crate::types::step(k, d)->0).contains(k),
{
    let n = crate::types::step(k, d)->0;
    lemma_step_back(k, d);
    assert(0 <= n < 81);
    if d != 0 {
        assert(crate::attacks::ray(k, d, Set::empty()).contains(n));
        assert(crate::attacks::ray(n, -d, Set::empty()).contains(k));
    }
}


/// Every square on which the side `us` tries a gold, silver, knight or pawn
/// drop is empty, and the dropped piece would attack the enemy king `k`
/// from it.
pub proof fn lemma_candidates_check(v: PosView, us: Color, i: int, k: int, s: int)
    requires
        2 <= i <= 5,
        0 <= k < 81,
        0 <= s < 81,
        drop_candidates(v, us, i, k).contains(s),
    ensures
        empty_attack(mate_kind(i), us, s).contains(k),
        !v.occ().contains(s),
{
    lemma_drop_pattern_checks(i, us, k, s);
}


/// The drop rules of mate in one treat the colours alike: turning the board
/// half round and swapping the colours maps the gold, silver, knight and
/// pawn candidate patterns around the enemy king onto each other.
#[verifier::spinoff_prover]
pub proof fn lemma_drop_rules_turn(i: int, c: Color, k: int, s: int)
    requires
        2 <= i <= 5,
        0 <= k < 81,
        0 <= s < 81,
    ensures
        drop_pattern(i, c, k).contains(s) == drop_pattern(i, c.opp(), 80 - k).contains(80 - s),
{
    let pt = mate_kind(i);
    if c == Color::Black {
        crate::attacks::lemma_attacks_turn(pt, 80 - k, 80 - s);
    } else {
        crate::attacks::lemma_attacks_turn(pt, k, s);
    }
}

/// Turning the board half round and swapping the colours also maps the
/// king ranks that shut out a knight or pawn drop onto each other.
pub proof fn lemma_rank_shut_turn(i: int, c: Color, k: int)
    requires
        0 <= k < 81,
    ensures
        rank_shut(i, c, k) == rank_shut(i, c.opp(), 80 - k),
{
    assert(sq_rank(80 - k) == 8 - sq_rank(k));
}

} // verus!
