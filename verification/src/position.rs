//! The state of a game: the board, the bitboards kept beside it, the hands,
//! the side to move and the move number.
use vstd::prelude::*;
use crate::types::{Color, Square, File, Rank, sq_file, sq_rank};
use crate::piece::{Piece, PieceType, HandPiece, piece_spec, hand_piece_of, piece_value, piece_value_spec};
use crate::bitboard::{Bitboard, mask_spec, or_spec, and_spec, not_spec};
use crate::hand::{Hand, hand_one, wadd, wsub};
use crate::moves::Move;

verus! {

/// The contents of a position as mathematical values.
#[verifier::ext_equal]
pub struct PosView {
    pub board: Seq<Piece>,
    pub piece_bb: Seq<Bitboard>,
    pub color_bb: Seq<Bitboard>,
    pub hand: Seq<Hand>,
    pub side: Color,
    pub ply: u32,
}

/// The hand after adding one piece of the hand kind of `pt` (none for kinds
/// that cannot be held).
pub open spec fn hand_add_spec(h: Hand, pt: PieceType) -> Hand {
    match hand_piece_of(pt) {
        Some(hp) => Hand(wadd(h.0, hand_one(hp))),
        None => h,
    }
}

/// The hand after removing one piece of the hand kind of `pt`.
pub open spec fn hand_remove_spec(h: Hand, pt: PieceType) -> Hand {
    match hand_piece_of(pt) {
        Some(hp) => Hand(wsub(h.0, hand_one(hp))),
        None => h,
    }
}

impl PosView {
    /// The occupied squares, as the colour bitboards record them.
    pub open spec fn occ(self) -> Set<int> {
        self.color_bb[0]@.union(self.color_bb[1]@)
    }

    /// Every square holds the empty square or a piece with a kind and a colour.
    pub open spec fn pieces_ok(self) -> bool {
        &&& self.board.len() == 81
        &&& self.piece_bb.len() == 15
        &&& self.color_bb.len() == 2
        &&& self.hand.len() == 2
        &&& forall|s: int| #![trigger self.board[s]] 0 <= s < 81 ==> self.board[s].valid_kind() && self.board[s].0 < 32
    }

    /// The squares that hold a piece of kind code `k`, read from the board.
    pub open spec fn squares_of_kind(self, k: int) -> Set<int> {
        Set::new(|s: int| 0 <= s < 81 && !self.board[s].empty() && self.board[s].kind_code() == k)
    }

    /// The squares that hold a piece of colour `c`, read from the board.
    pub open spec fn squares_of_color(self, c: Color) -> Set<int> {
        Set::new(|s: int| 0 <= s < 81 && !self.board[s].empty() && self.board[s].owner() == c)
    }

    /// The bitboards agree with the board.
    pub open spec fn wf(self) -> bool {
        &&& self.pieces_ok()
        &&& forall|k: int| 0 <= k < 15 ==> (#[trigger] self.piece_bb[k]).wf() && self.piece_bb[k]@ == self.squares_of_kind(k)
        &&& forall|c: Color| (#[trigger] self.color_bb[c.index()]).wf() && self.color_bb[c.index()]@ == self.squares_of_color(c)
    }

    /// Puts a piece on a square, adding it to its bitboards (nothing is removed).
    pub open spec fn put(self, piece: Piece, s: int) -> PosView {
        let k = piece.kind_code();
        let ci = piece.owner().index();
        PosView {
            board: self.board.update(s, piece),
            piece_bb: self.piece_bb.update(k, or_spec(self.piece_bb[k], mask_spec(s))),
            color_bb: self.color_bb.update(ci, or_spec(self.color_bb[ci], mask_spec(s))),
            ..self
        }
    }

    /// Takes the piece off a square, if there is one.
    pub open spec fn remove(self, s: int) -> PosView {
        let piece = self.board[s];
        if piece.empty() {
            self
        } else {
            let k = piece.kind_code();
            let ci = piece.owner().index();
            PosView {
                board: self.board.update(s, Piece(0)),
                piece_bb: self.piece_bb.update(k, and_spec(self.piece_bb[k], not_spec(mask_spec(s)))),
                color_bb: self.color_bb.update(ci, and_spec(self.color_bb[ci], not_spec(mask_spec(s)))),
                ..self
            }
        }
    }

    /// The move can be made without a failure: its destination is on the
    /// board, a dropped kind exists and a promoting piece can promote.
    pub open spec fn can_make(self, m: Move) -> bool {
        &&& m.to_bits() < 81
        &&& if m.drop_move() {
            m.dropped_code() < 15
        } else {
            m.promo() ==> self.board[m.from_field()].kind().promotable()
        }
    }

    /// The position after a move, as `Position::do_move` makes it.
    pub open spec fn after_move(self, m: Move) -> PosView {
        let us = self.side;
        let ui = us.index();
        let to = m.to_bits();
        let moved = if m.drop_move() {
            let pt = crate::piece::piece_type_of_code(m.dropped_code());
            let v1 = self.put(piece_spec(us, pt), to);
            PosView { hand: v1.hand.update(ui, hand_remove_spec(v1.hand[ui], pt)), ..v1 }
        } else {
            let from = m.from_field();
            let p = self.board[from];
            let v1 = self.remove(from);
            let cap = v1.board[to];
            let v2 = v1.remove(to);
            let v3 = if !cap.empty() {
                PosView { hand: v2.hand.update(ui, hand_add_spec(v2.hand[ui], cap.kind().base())), ..v2 }
            } else {
                v2
            };
            let piece = if m.promo() {
                match p.kind().promoted() {
                    Some(pt) => piece_spec(p.owner(), pt),
                    None => p,
                }
            } else {
                p
            };
            v3.put(piece, to)
        };
        PosView { side: us.opp(), ply: wadd(self.ply, 1), ..moved }
    }

    /// The square of the king of colour `c`: the lowest square of the king
    /// bitboard restricted to `c`.
    pub open spec fn king_sq(self, c: Color) -> Option<Square> {
        and_spec(self.piece_bb[8], self.color_bb[c.index()]).first_spec()
    }
}

/// A position (see the module documentation).
#[derive(Clone, Copy)]
pub struct Position {
    pub board: [Piece; 81],
    pub piece_bb: [Bitboard; 15],
    pub color_bb: [Bitboard; 2],
    pub hand: [Hand; 2],
    pub side_to_move: Color,
    pub ply: u32,
}

impl View for Position {
    type V = PosView;

    open spec fn view(&self) -> PosView {
        PosView {
            board: self.board@,
            piece_bb: self.piece_bb@,
            color_bb: self.color_bb@,
            hand: self.hand@,
            side: self.side_to_move,
            ply: self.ply,
        }
    }
}

/// The material balance of the board squares `0..n` (Black's pieces count
/// for Black, White's against).
pub open spec fn board_material(board: Seq<Piece>, n: int) -> int
    decreases n,
{
    if n <= 0 {
        0
    } else {
        let p = board[n - 1];
        board_material(board, n - 1) + if p.empty() {
            0
        } else if p.owner() == Color::Black {
            piece_value_spec(p.kind())
        } else {
            -piece_value_spec(p.kind())
        }
    }
}

/// The material balance of the hands for the first `n` hand kinds.
pub open spec fn hand_material(hands: Seq<Hand>, n: int) -> int
    decreases n,
{
    if n <= 0 {
        0
    } else {
        let hp = crate::piece::hand_piece_of_index(n - 1);
        let v = piece_value_spec(hp.kind());
        hand_material(hands, n - 1) + v * hands[0].cnt(hp) - v * hands[1].cnt(hp)
    }
}

/// The board of the initial position: the piece on square `s`.
pub open spec fn start_piece(s: int) -> Piece {
    let f = sq_file(s);
    let r = sq_rank(s);
    if r == 0 || r == 8 {
        let c = if r == 0 {
            Color::White
        } else {
            Color::Black
        };
        let pt = if f == 0 || f == 8 {
            PieceType::Lance
        } else if f == 1 || f == 7 {
            PieceType::Knight
        } else if f == 2 || f == 6 {
            PieceType::Silver
        } else if f == 3 || f == 5 {
            PieceType::Gold
        } else {
            PieceType::King
        };
        piece_spec(c, pt)
    } else if r == 1 && f == 1 {
        piece_spec(Color::White, PieceType::Bishop)
    } else if r == 1 && f == 7 {
        piece_spec(Color::White, PieceType::Rook)
    } else if r == 7 && f == 7 {
        piece_spec(Color::Black, PieceType::Bishop)
    } else if r == 7 && f == 1 {
        piece_spec(Color::Black, PieceType::Rook)
    } else if r == 2 {
        piece_spec(Color::White, PieceType::Pawn)
    } else if r == 6 {
        piece_spec(Color::Black, PieceType::Pawn)
    } else {
        Piece(0)
    }
}

impl Position {
    /// The empty board, Black to move, no pieces in hand, move number 0.
    pub fn empty() -> (r: Position)
        ensures
            r@.wf(),
            forall|s: int| 0 <= s < 81 ==> #[trigger] r@.board[s] == Piece(0),
            r@.hand[0].0 == 0 && r@.hand[1].0 == 0,
            r@.side == Color::Black,
            r@.ply == 0,
    {
        let z = Bitboard::ZERO();
        let r = Position {
            board: [Piece(0); 81],
            piece_bb: [z; 15],
            color_bb: [z; 2],
            hand: [Hand(0); 2],
            side_to_move: Color::Black,
            ply: 0,
        };
        proof {
            assert forall|k: int| 0 <= k < 15 implies (#[trigger] r@.piece_bb[k]).wf() && r@.piece_bb[k]@ == r@.squares_of_kind(k) by {
                assert(r@.squares_of_kind(k) =~= Set::<int>::empty());
            }
            assert forall|c: Color| (#[trigger] r@.color_bb[c.index()]).wf() && r@.color_bb[c.index()]@ == r@.squares_of_color(c) by {
                assert(r@.squares_of_color(c) =~= Set::<int>::empty());
            }
        }
        r
    }

    /// The piece on a square.
    pub fn piece_at(&self, sq: Square) -> (r: Piece)
        requires
            sq.on_board(),
        ensures
            r == self@.board[sq.0 as int],
    {
        self.board[sq.0 as usize]
    }

    pub fn side_to_move(&self) -> (r: Color)
        ensures
            r == self@.side,
    {
        self.side_to_move
    }

    pub fn hand(&self, c: Color) -> (r: Hand)
        ensures
            r == self@.hand[c.index()],
    {
        self.hand[c.to_index()]
    }

    pub fn color_bb(&self, c: Color) -> (r: Bitboard)
        ensures
            r == self@.color_bb[c.index()],
    {
        self.color_bb[c.to_index()]
    }

    pub fn piece_bb(&self, pt: PieceType) -> (r: Bitboard)
        ensures
            r == self@.piece_bb[pt.code()],
    {
        self.piece_bb[pt.to_code() as usize]
    }

    /// All occupied squares (the union of the colour bitboards).
    pub fn occupied_bb(&self) -> (r: Bitboard)
        ensures
            r == or_spec(self@.color_bb[0], self@.color_bb[1]),
            r@ == self@.occ(),
            self@.wf() ==> r.wf(),
            self@.wf() ==> r@ == Set::new(|s: int| 0 <= s < 81 && !self@.board[s].empty()),
    {
        let r = self.color_bb[0].bit_or(self.color_bb[1]);
        proof {
            if self@.wf() {
                let b = self@.color_bb[Color::Black.index()];
                let w = self@.color_bb[Color::White.index()];
                assert(b.wf() && w.wf());
                assert forall|s: int| 0 <= s < 81 && !self@.board[s].empty() implies r@.contains(s) by {
                    if self@.board[s].owner() == Color::Black {
                        assert(self@.squares_of_color(Color::Black).contains(s));
                    } else {
                        assert(self@.squares_of_color(Color::White).contains(s));
                    }
                }
                assert(r@ =~= Set::new(|s: int| 0 <= s < 81 && !self@.board[s].empty()));
            }
        }
        r
    }

    /// The square of the king of colour `c`, if there is one.
    pub fn king_square(&self, c: Color) -> (r: Option<Square>)
        ensures
            r == self@.king_sq(c),
            self@.wf() ==> match r {
                None => forall|s: int| 0 <= s < 81 ==> !(#[trigger] self@.board[s] == piece_spec(c, PieceType::King)),
                Some(sq) => sq.on_board() && self@.board[sq.0 as int] == piece_spec(c, PieceType::King),
            },
    {
        let kb = self.piece_bb(PieceType::King).bit_and(self.color_bb(c));
        proof {
            if self@.wf() {
                lemma_king_bits(self@, c);
            }
        }
        let r = kb.first();
        proof {
            if self@.wf() {
                match r {
                    None => {
                        assert(kb@ == Set::<int>::empty());
                        assert forall|s: int| 0 <= s < 81 implies !(#[trigger] self@.board[s] == piece_spec(c, PieceType::King)) by {
                            if self@.board[s] == piece_spec(c, PieceType::King) {
                                assert(kb@.contains(s));
                            }
                        }
                    },
                    Some(sq) => {
                        assert(kb@.contains(sq.0 as int));
                    },
                }
            }
        }
        r
    }

    /// Puts a piece on a square and adds it to its bitboards.
    pub(crate) fn put_piece(&mut self, piece: Piece, sq: Square)
        requires
            sq.on_board(),
            piece.valid_kind(),
        ensures
            final(self)@ == old(self)@.put(piece, sq.0 as int),
    {
        self.board[sq.0 as usize] = piece;
        let pt = piece.piece_type();
        let c = piece.color();
        let k = pt.to_code() as usize;
        let ci = c.to_index();
        let mut b = self.piece_bb[k];
        b.set(sq);
        self.piece_bb[k] = b;
        let mut cb = self.color_bb[ci];
        cb.set(sq);
        self.color_bb[ci] = cb;
        assert(self@ =~= old(self)@.put(piece, sq.0 as int));
    }

    /// Takes the piece off a square (if any) and returns it.
    fn remove_piece(&mut self, sq: Square) -> (r: Piece)
        requires
            sq.on_board(),
            old(self)@.pieces_ok(),
        ensures
            r == old(self)@.board[sq.0 as int],
            final(self)@ == old(self)@.remove(sq.0 as int),
    {
        let piece = self.board[sq.0 as usize];
        if !piece.is_empty() {
            self.board[sq.0 as usize] = Piece(0);
            let pt = piece.piece_type();
            let c = piece.color();
            let k = pt.to_code() as usize;
            let ci = c.to_index();
            let mut b = self.piece_bb[k];
            b.clear(sq);
            self.piece_bb[k] = b;
            let mut cb = self.color_bb[ci];
            cb.clear(sq);
            self.color_bb[ci] = cb;
        }
        assert(self@ =~= old(self)@.remove(sq.0 as int));
        piece
    }

    /// Plays a move: a drop puts the piece from hand; a normal move lifts the
    /// piece, captures what stands on the destination into the hand (as its
    /// unpromoted kind), promotes if asked and puts the piece down; then the
    /// other side is to move and the move number grows by one.
    pub fn do_move(&mut self, mv: Move)
        requires
            old(self)@.pieces_ok(),
            old(self)@.can_make(mv),
        ensures
            final(self)@ == old(self)@.after_move(mv),
            final(self)@.pieces_ok(),
    {
        let ghost v0 = self@;
        let us = self.side_to_move;
        let ui = us.to_index();
        if mv.is_drop() {
            let pt = mv.piece_type_dropped();
            let to = mv.to();
            let piece = Piece::new(us, pt);
            self.put_piece(piece, to);
            let mut h = self.hand[ui];
            h.remove_piece(pt);
            self.hand[ui] = h;
        } else {
            let from = mv.from().unwrap();
            let to = mv.to();
            let mut piece = self.remove_piece(from);
            let captured = self.remove_piece(to);
            if !captured.is_empty() {
                let captured_pt = captured.piece_type().unpromote();
                let mut h = self.hand[ui];
                h.add_piece(captured_pt);
                self.hand[ui] = h;
            }
            if mv.is_promotion() {
                piece = piece.promote().unwrap();
            }
            self.put_piece(piece, to);
        }
        self.side_to_move = us.opposite();
        self.ply = self.ply.wrapping_add(1);
        proof {
            assert(self@ =~= v0.after_move(mv));
            lemma_after_move_pieces_ok(v0, mv);
        }
    }

    /// The position with the other side to move (the move number is kept).
    pub fn make_null_move(&self) -> (r: Position)
        ensures
            r@ == (PosView { side: self@.side.opp(), ..self@ }),
    {
        let mut pos = *self;
        pos.side_to_move = pos.side_to_move.opposite();
        assert(pos@ =~= (PosView { side: self@.side.opp(), ..self@ }));
        pos
    }

    /// The material balance: the value of every piece on the board and in hand,
    /// Black's counted for and White's against.
    pub fn evaluate(&self) -> (r: i32)
        requires
            self@.pieces_ok(),
        ensures
            r == board_material(self@.board, 81) + hand_material(self@.hand, 7),
    {
        let mut score: i32 = 0;
        let mut sq_idx: usize = 0;
        while sq_idx < 81
            invariant
                sq_idx <= 81,
                self@.pieces_ok(),
                score == board_material(self@.board, sq_idx as int),
                -15000 * sq_idx <= score <= 15000 * sq_idx,
            decreases 81 - sq_idx,
        {
            let piece = self.board[sq_idx];
            if !piece.is_empty() {
                let value = piece_value(piece.piece_type());
                if piece.color() == Color::Black {
                    score = score + value;
                } else {
                    score = score - value;
                }
            }
            sq_idx = sq_idx + 1;
        }
        let ghost board_part = score as int;
        let mut hp_idx: u8 = 0;
        while hp_idx < 7
            invariant
                hp_idx <= 7,
                board_part == board_material(self@.board, 81),
                -15000 * 81 <= board_part <= 15000 * 81,
                score == board_part + hand_material(self@.hand, hp_idx as int),
                -70000 * hp_idx <= score - board_part <= 70000 * hp_idx,
            decreases 7 - hp_idx,
        {
            let hp = HandPiece::from_index(hp_idx);
            let pt = hp.to_piece_type();
            let value = piece_value(pt);
            let black_count = self.hand[0].count(hp) as i32;
            let white_count = self.hand[1].count(hp) as i32;
            assert(value <= 990);
            assert(0 <= black_count <= 31 && 0 <= white_count <= 31);
            assert(0 <= value * black_count <= 990 * 31) by (nonlinear_arith)
                requires
                    0 <= value <= 990,
                    0 <= black_count <= 31,
            ;
            assert(0 <= value * white_count <= 990 * 31) by (nonlinear_arith)
                requires
                    0 <= value <= 990,
                    0 <= white_count <= 31,
            ;
            score = score + value * black_count;
            score = score - value * white_count;
            hp_idx = hp_idx + 1;
        }
        score
    }

    /// All occupied squares.
    pub fn pieces(&self) -> (r: Bitboard)
        ensures
            r == or_spec(self@.color_bb[0], self@.color_bb[1]),
    {
        self.occupied_bb()
    }

    /// The squares of the pieces of one colour and kind.
    pub fn pieces_of(&self, color: Color, pt: PieceType) -> (r: Bitboard)
        ensures
            r == and_spec(self@.piece_bb[pt.code()], self@.color_bb[color.index()]),
    {
        self.piece_bb[pt.to_code() as usize].bit_and(self.color_bb[color.to_index()])
    }

    /// The squares of the pieces of one colour.
    pub fn pieces_of_color_bb(&self, color: Color) -> (r: Bitboard)
        ensures
            r == self@.color_bb[color.index()],
    {
        self.color_bb[color.to_index()]
    }

    /// Whether the side to move may drop a pawn on file index `file`: no pawn
    /// of theirs stands on that file.
    pub fn can_drop_pawn(&self, file: u8) -> (r: bool)
        requires
            self@.pieces_ok(),
        ensures
            file < 9 ==> r == !(exists|rk: int| 0 <= rk < 9 && #[trigger] self@.board[file * 9 + rk] == piece_spec(self@.side, PieceType::Pawn)),
            file >= 9 ==> r,
    {
        let us = self.side_to_move;
        let mut rank: u8 = 0;
        while rank < 9
            invariant
                rank <= 9,
                us == self@.side,
                self@.pieces_ok(),
                file < 9 ==> forall|rk: int| 0 <= rk < rank ==> #[trigger] self@.board[file * 9 + rk] != piece_spec(us, PieceType::Pawn),
            decreases 9 - rank,
        {
            let fo = File::from_u8(file);
            let ro = Rank::from_u8(rank);
            if let (Some(f), Some(r)) = (fo, ro) {
                let sq = Square::new(f, r);
                let piece = self.piece_at(sq);
                proof {
                    Piece::lemma_piece_spec(us, PieceType::Pawn);
                }
                if !piece.is_empty() && piece.color() == us && piece.piece_type() == PieceType::Pawn {
                    assert(piece == piece_spec(us, PieceType::Pawn)) by {
                        assert(piece.0 < 32);
                        assert(piece.0 as int % 16 == 1);
                        if us == Color::Black {
                            assert(piece.0 == 1);
                        } else {
                            assert(piece.0 == 17);
                        }
                    }
                    return false;
                }
                proof {
                    if piece == piece_spec(us, PieceType::Pawn) {
                        assert(false);
                    }
                }
            }
            rank = rank + 1;
        }
        true
    }
}

proof fn lemma_put_pieces_ok(v: PosView, piece: Piece, s: int)
    requires
        v.pieces_ok(),
        0 <= s < 81,
        piece.valid_kind(),
        piece.0 < 32,
    ensures
        v.put(piece, s).pieces_ok(),
{
    assert(0 <= piece.owner().index() < 2);
    assert(0 <= piece.kind_code() < 15);
}

proof fn lemma_remove_pieces_ok(v: PosView, s: int)
    requires
        v.pieces_ok(),
        0 <= s < 81,
    ensures
        v.remove(s).pieces_ok(),
        v.remove(s).hand == v.hand,
{
    let p = v.board[s];
    assert(p.valid_kind() && p.0 < 32);
    assert(0 <= p.owner().index() < 2);
    assert(Piece(0).valid_kind());
}

/// Every move that can be made leaves each square holding a valid piece.
pub proof fn lemma_after_move_pieces_ok(v: PosView, m: Move)
    requires
        v.pieces_ok(),
        v.can_make(m),
    ensures
        v.after_move(m).pieces_ok(),
{
    let us = v.side;
    let to = m.to_bits();
    if m.drop_move() {
        let pt = crate::piece::piece_type_of_code(m.dropped_code());
        Piece::lemma_piece_spec(us, pt);
        lemma_put_pieces_ok(v, piece_spec(us, pt), to);
    } else {
        let from = m.from_field();
        let p = v.board[from];
        lemma_remove_pieces_ok(v, from);
        let v1 = v.remove(from);
        lemma_remove_pieces_ok(v1, to);
        let v2 = v1.remove(to);
        let ui = us.index();
        let cap = v1.board[to];
        let v3 = if !cap.empty() {
            PosView { hand: v2.hand.update(ui, hand_add_spec(v2.hand[ui], cap.kind().base())), ..v2 }
        } else {
            v2
        };
        assert(v3.pieces_ok());
        assert(p.valid_kind() && p.0 < 32);
        if m.promo() {
            match p.kind().promoted() {
                Some(pt) => {
                    Piece::lemma_piece_spec(p.owner(), pt);
                    lemma_put_pieces_ok(v3, piece_spec(p.owner(), pt), to);
                },
                None => {
                    lemma_put_pieces_ok(v3, p, to);
                },
            }
        } else {
            lemma_put_pieces_ok(v3, p, to);
        }
    }
}

impl PosView {
    /// The move keeps the bitboards in step with the board: a drop lands on
    /// an empty square and a normal move lifts a piece.
    pub open spec fn sane(self, m: Move) -> bool {
        if m.drop_move() {
            self.board[m.to_bits()].empty() && m.dropped_code() >= 1
        } else {
            m.from_field() < 81 && !self.board[m.from_field()].empty()
        }
    }
}

/// Taking a piece off keeps the bitboards in step with the board.
pub proof fn lemma_remove_wf(v: PosView, s: int)
    requires
        v.wf(),
        0 <= s < 81,
    ensures
        v.remove(s).wf(),
        v.remove(s).board[s].empty(),
        forall|t: int| 0 <= t < 81 && t != s ==> #[trigger] v.remove(s).board[t] == v.board[t],
        v.remove(s).hand == v.hand,
        v.remove(s).side == v.side,
        v.remove(s).ply == v.ply,
{
    let p = v.board[s];
    let r = v.remove(s);
    lemma_remove_pieces_ok(v, s);
    if !p.empty() {
        let k = p.kind_code();
        let ci = p.owner().index();
        assert forall|j: int| 0 <= j < 15 implies (#[trigger] r.piece_bb[j]).wf() && r.piece_bb[j]@ == r.squares_of_kind(j) by {
            assert(v.piece_bb[j].wf() && v.piece_bb[j]@ == v.squares_of_kind(j));
            if j == k {
                Bitboard::lemma_mask(s);
                Bitboard::lemma_not(mask_spec(s));
                Bitboard::lemma_and(v.piece_bb[j], not_spec(mask_spec(s)));
                assert(r.piece_bb[j]@ =~= r.squares_of_kind(j));
            } else {
                assert(r.piece_bb[j]@ =~= r.squares_of_kind(j));
            }
        }
        assert forall|c: Color| (#[trigger] r.color_bb[c.index()]).wf() && r.color_bb[c.index()]@ == r.squares_of_color(c) by {
            assert(v.color_bb[c.index()].wf() && v.color_bb[c.index()]@ == v.squares_of_color(c));
            if c.index() == ci {
                Bitboard::lemma_mask(s);
                Bitboard::lemma_not(mask_spec(s));
                Bitboard::lemma_and(v.color_bb[c.index()], not_spec(mask_spec(s)));
                assert(r.color_bb[c.index()]@ =~= r.squares_of_color(c));
            } else {
                assert(r.color_bb[c.index()]@ =~= r.squares_of_color(c));
            }
        }
    }
}

/// Putting a piece on an empty square keeps the bitboards in step with the board.
pub proof fn lemma_put_wf(v: PosView, piece: Piece, s: int)
    requires
        v.wf(),
        0 <= s < 81,
        v.board[s].empty(),
        !piece.empty(),
        piece.valid_kind(),
        piece.0 < 32,
    ensures
        v.put(piece, s).wf(),
        v.put(piece, s).board[s] == piece,
        forall|t: int| 0 <= t < 81 && t != s ==> #[trigger] v.put(piece, s).board[t] == v.board[t],
{
    let r = v.put(piece, s);
    lemma_put_pieces_ok(v, piece, s);
    let k = piece.kind_code();
    let ci = piece.owner().index();
    assert forall|j: int| 0 <= j < 15 implies (#[trigger] r.piece_bb[j]).wf() && r.piece_bb[j]@ == r.squares_of_kind(j) by {
        assert(v.piece_bb[j].wf() && v.piece_bb[j]@ == v.squares_of_kind(j));
        if j == k {
            Bitboard::lemma_mask(s);
            Bitboard::lemma_or(v.piece_bb[j], mask_spec(s));
            assert(r.piece_bb[j]@ =~= r.squares_of_kind(j));
        } else {
            assert(r.piece_bb[j]@ =~= r.squares_of_kind(j));
        }
    }
    assert forall|c: Color| (#[trigger] r.color_bb[c.index()]).wf() && r.color_bb[c.index()]@ == r.squares_of_color(c) by {
        assert(v.color_bb[c.index()].wf() && v.color_bb[c.index()]@ == v.squares_of_color(c));
        if c.index() == ci {
            Bitboard::lemma_mask(s);
            Bitboard::lemma_or(v.color_bb[c.index()], mask_spec(s));
            assert(r.color_bb[c.index()]@ =~= r.squares_of_color(c));
        } else {
            assert(r.color_bb[c.index()]@ =~= r.squares_of_color(c));
        }
    }
}

/// A move that lands a piece (a drop on an empty square, or a move of a piece
/// that stands on its origin) keeps the bitboards in step with the board.
pub proof fn lemma_after_move_wf(v: PosView, m: Move)
    requires
        v.wf(),
        v.can_make(m),
        v.sane(m),
    ensures
        v.after_move(m).wf(),
{
    let us = v.side;
    let to = m.to_bits();
    let ui = us.index();
    if m.drop_move() {
        let pt = crate::piece::piece_type_of_code(m.dropped_code());
        Piece::lemma_piece_spec(us, pt);
        lemma_put_wf(v, piece_spec(us, pt), to);
    } else {
        let from = m.from_field();
        let p = v.board[from];
        lemma_remove_wf(v, from);
        let v1 = v.remove(from);
        lemma_remove_wf(v1, to);
        let v2 = v1.remove(to);
        let cap = v1.board[to];
        let v3 = if !cap.empty() {
            PosView { hand: v2.hand.update(ui, hand_add_spec(v2.hand[ui], cap.kind().base())), ..v2 }
        } else {
            v2
        };
        assert(v3.wf());
        assert(p.valid_kind() && p.0 < 32);
        let piece = if m.promo() {
            match p.kind().promoted() {
                Some(pt) => piece_spec(p.owner(), pt),
                None => p,
            }
        } else {
            p
        };
        if m.promo() {
            match p.kind().promoted() {
                Some(pt) => {
                    Piece::lemma_piece_spec(p.owner(), pt);
                },
                None => {},
            }
        }
        assert(!piece.empty() && piece.valid_kind() && piece.0 < 32);
        lemma_put_wf(v3, piece, to);
    }
}


/// Piece `p` counts as a piece of hand kind `hp`: it is on the board and
/// goes to the hand as `hp` when captured.
pub open spec fn holds_as(p: Piece, hp: HandPiece) -> bool {
    !p.empty() && hand_piece_of(p.kind()) == Some(hp)
}

/// The number of squares below `n` holding a piece that counts as `hp`.
pub open spec fn board_count(b: Seq<Piece>, hp: HandPiece, n: int) -> int
    decreases n,
{
    if n <= 0 {
        0
    } else {
        board_count(b, hp, n - 1) + if holds_as(b[n - 1], hp) {
            1int
        } else {
            0int
        }
    }
}

/// The pieces of hand kind `hp` in the game: on the board and in both hands.
pub open spec fn piece_total(v: PosView, hp: HandPiece) -> int {
    board_count(v.board, hp, 81) + v.hand[0].cnt(hp) + v.hand[1].cnt(hp)
}

/// Writing one square changes the count by what leaves and what arrives.
proof fn lemma_count_update(b: Seq<Piece>, s: int, p: Piece, hp: HandPiece, n: int)
    requires
        0 <= s < b.len(),
        n <= b.len(),
    ensures
        board_count(b.update(s, p), hp, n) == board_count(b, hp, n) + if s < n {
            (if holds_as(p, hp) {
                1int
            } else {
                0int
            }) - (if holds_as(b[s], hp) {
                1int
            } else {
                0int
            })
        } else {
            0int
        },
    decreases n,
{
    if n > 0 {
        lemma_count_update(b, s, p, hp, n - 1);
    }
}

/// A drop takes one piece of its kind from the mover's hand to the board.
proof fn lemma_drop_keeps_pieces(v: PosView, m: Move, hp: HandPiece)
    requires
        v.pieces_ok(),
        m.drop_move(),
        m.to_bits() < 81,
        v.board[m.to_bits()].empty(),
        hand_piece_of(crate::piece::piece_type_of_code(m.dropped_code())) matches Some(d) && d.kind()
            == crate::piece::piece_type_of_code(m.dropped_code()) && v.hand[v.side.index()].cnt(d) > 0,
    ensures
        piece_total(v.after_move(m), hp) == piece_total(v, hp),
{
    let us = v.side;
    let ui = us.index();
    let to = m.to_bits();
    let w = v.after_move(m);
    let pt = crate::piece::piece_type_of_code(m.dropped_code());
    let d = hand_piece_of(pt)->0;
    let piece = piece_spec(us, pt);
    Piece::lemma_piece_spec(us, pt);
    lemma_count_update(v.board, to, piece, hp, 81);
    assert(holds_as(piece, hp) == (hp == d));
    Hand::lemma_remove_one(v.hand[ui].0, d);
    assert(w.board == v.board.update(to, piece));
    assert(w.hand[ui].cnt(hp) == v.hand[ui].cnt(hp) - (if hp == d { 1int } else { 0int }));
    assert(w.hand[1 - ui] == v.hand[1 - ui]);
}

/// A normal move carries its piece (promoted or not, of the same hand kind)
/// and puts a captured piece, unpromoted, in the mover's hand.
#[verifier::rlimit(30)]
proof fn lemma_normal_keeps_pieces(v: PosView, m: Move, hp: HandPiece)
    requires
        v.pieces_ok(),
        !m.drop_move(),
        m.to_bits() < 81,
        m.from_field() < 81,
        !m.drop_move() && !v.board[m.to_bits()].empty() && m.to_bits() != m.from_field() ==> (hand_piece_of(
            v.board[m.to_bits()].kind(),
        ) matches Some(c) && v.hand[v.side.index()].cnt(c) < crate::hand::hand_field_max(c) && v.hand[v.side.index()].0
            + hand_one(c) <= u32::MAX),
    ensures
        piece_total(v.after_move(m), hp) == piece_total(v, hp),
{
    let us = v.side;
    let ui = us.index();
    let to = m.to_bits();
    let w = v.after_move(m);
    let from = m.from_field();
    let p = v.board[from];
    let v1 = v.remove(from);
    let cap = v1.board[to];
    let v2 = v1.remove(to);
    let piece = if m.promo() {
        match p.kind().promoted() {
            Some(pt) => piece_spec(p.owner(), pt),
            None => p,
        }
    } else {
        p
    };
    if m.promo() {
        if let Some(pt) = p.kind().promoted() {
            Piece::lemma_piece_spec(p.owner(), pt);
        }
    }
    assert(holds_as(piece, hp) == holds_as(p, hp));
    if p.empty() {
        assert(v1 == v);
    } else {
        assert(v1.board == v.board.update(from, Piece(0)));
    }
    lemma_count_update(v.board, from, Piece(0), hp, 81);
    assert(board_count(v1.board, hp, 81) == board_count(v.board, hp, 81) - (if holds_as(p, hp) { 1int } else { 0int }));
    assert(v1.hand == v.hand);
    if cap.empty() {
        assert(v2 == v1);
    } else {
        assert(v2.board == v1.board.update(to, Piece(0)));
        assert(to != from);
        assert(cap == v.board[to]);
    }
    lemma_count_update(v1.board, to, Piece(0), hp, 81);
    assert(board_count(v2.board, hp, 81) == board_count(v1.board, hp, 81) - (if holds_as(cap, hp) { 1int } else { 0int }));
    assert(v2.hand == v.hand);
    lemma_count_update(v2.board, to, piece, hp, 81);
    assert(w.board == v2.board.update(to, piece) || p.empty());
    if !cap.empty() {
        let c = hand_piece_of(cap.kind())->0;
        assert(hand_piece_of(cap.kind().base()) == Some(c));
        Hand::lemma_add_one(v.hand[ui].0, c);
        assert(w.hand[ui].cnt(hp) == v.hand[ui].cnt(hp) + (if hp == c { 1int } else { 0int }));
        assert(holds_as(cap, hp) == (hp == c));
    } else {
        assert(w.hand[ui] == v.hand[ui]);
    }
    assert(w.hand[1 - ui] == v.hand[1 - ui]);
}

/// A move creates and loses no piece: for every hand kind, the pieces on the
/// board and in both hands are as many after the move as before.  (A capture
/// goes, unpromoted, to the mover's hand, and a drop comes from it.)  It
/// holds of moves that can be made, whose drop comes from the hand, and
/// whose capture is of a piece that can be held and fits the mover's hand
/// count and word.
pub proof fn lemma_move_keeps_pieces(v: PosView, m: Move, hp: HandPiece)
    requires
        v.wf(),
        v.can_make(m),
        v.sane(m),
        m.drop_move() ==> (hand_piece_of(crate::piece::piece_type_of_code(m.dropped_code())) matches Some(d) && d.kind()
            == crate::piece::piece_type_of_code(m.dropped_code()) && v.hand[v.side.index()].cnt(d) > 0),
        !m.drop_move() && !v.board[m.to_bits()].empty() && m.to_bits() != m.from_field() ==> (hand_piece_of(
            v.board[m.to_bits()].kind(),
        ) matches Some(c) && v.hand[v.side.index()].cnt(c) < crate::hand::hand_field_max(c) && v.hand[v.side.index()].0
            + hand_one(c) <= u32::MAX),
    ensures
        piece_total(v.after_move(m), hp) == piece_total(v, hp),
{
    if m.drop_move() {
        lemma_drop_keeps_pieces(v, m, hp);
    } else {
        lemma_normal_keeps_pieces(v, m, hp);
    }
}


/// The squares of the king bitboard of `c` are exactly those holding the
/// king of `c`.
proof fn lemma_king_bits(v: PosView, c: Color)
    requires
        v.wf(),
    ensures
        and_spec(v.piece_bb[8], v.color_bb[c.index()]).wf(),
        forall|s: int| #[trigger] and_spec(v.piece_bb[8], v.color_bb[c.index()])@.contains(s) <==> 0 <= s < 81
            && v.board[s] == piece_spec(c, PieceType::King),
{
    let k = v.piece_bb[8];
    let cb = v.color_bb[c.index()];
    assert(k.wf());
    assert(cb.wf());
    Bitboard::lemma_and(k, cb);
    let kb = and_spec(k, cb);
    assert forall|s: int| 0 <= s < 81 && v.board[s] == piece_spec(c, PieceType::King) implies kb@.contains(s) by {
        Piece::lemma_piece_spec(c, PieceType::King);
        assert(v.squares_of_kind(8).contains(s));
        assert(v.squares_of_color(c).contains(s));
    }
    assert forall|s: int| kb@.contains(s) implies 0 <= s < 81 && v.board[s] == piece_spec(c, PieceType::King) by {
        assert(v.squares_of_kind(8).contains(s));
        assert(v.squares_of_color(c).contains(s));
        let p = v.board[s];
        assert(p.0 < 32);
        assert(p.0 as int % 16 == 8);
        if c == Color::Black {
            assert((p.0 as int / 16) % 2 == 0);
            assert(p.0 == 8);
        } else {
            assert(p.0 == 24);
        }
    }
}

/// The king square of `c` holds the king of `c`; there is none exactly when
/// no square holds it.
pub proof fn lemma_king_sq(v: PosView, c: Color)
    requires
        v.wf(),
    ensures
        match v.king_sq(c) {
            None => forall|s: int| 0 <= s < 81 ==> !(#[trigger] v.board[s] == piece_spec(c, PieceType::King)),
            Some(sq) => sq.on_board() && v.board[sq.0 as int] == piece_spec(c, PieceType::King),
        },
{
    lemma_king_bits(v, c);
    let kb = and_spec(v.piece_bb[8], v.color_bb[c.index()]);
    Bitboard::lemma_first(kb);
    match kb.first_spec() {
        None => {
            assert forall|s: int| 0 <= s < 81 implies !(#[trigger] v.board[s] == piece_spec(c, PieceType::King)) by {
                if v.board[s] == piece_spec(c, PieceType::King) {
                    assert(kb@.contains(s));
                }
            }
        },
        Some(sq) => {
            assert(kb@.contains(sq.0 as int));
        },
    }
}

} // verus!
