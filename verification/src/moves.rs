//! Moves packed into a 32-bit word.
//!
//! Bits 0-6 hold the destination, bits 7-13 the origin (for a drop, 80 plus
//! the code of the dropped kind), bit 14 the promotion flag, bits 16-19 the
//! kind that moves and bits 20-23 the kind that is captured.
use vstd::prelude::*;
use crate::types::{Square, square_usi_spec, square_from_usi_spec};
use crate::piece::{PieceType, HandPiece, piece_type_of_code, hand_piece_of, letter_piece_type};
use crate::text::{push_char, chars_of, str_equals, string_of};

verus! {

/// The word of a normal move.
pub open spec fn normal_move_bits(from: Square, to: Square, pt: PieceType, promote: bool) -> u32 {
    (to.0 as u32 | ((from.0 as u32) << 7u32) | ((pt.code() as u32) << 16u32) | (if promote {
        16384u32
    } else {
        0u32
    })) as u32
}

/// The word of a drop.
pub open spec fn drop_move_bits(pt: PieceType, to: Square) -> u32 {
    (to.0 as u32 | (((80 + pt.code()) as u32) << 7u32)) as u32
}

/// What `Move::from_usi` reads from a USI move: "none", "null", a drop such as
/// "P*5e", or a normal move such as "7g7f" or "7g7f+" (recorded as a pawn move,
/// since the text does not name the kind).
pub open spec fn move_from_usi_spec(s: Seq<char>) -> Option<Move> {
    if s == seq!['n', 'o', 'n', 'e'] {
        Some(Move(0))
    } else if s == seq!['n', 'u', 'l', 'l'] {
        Some(Move(129))
    } else if s.len() < 4 {
        None
    } else if s[1] == '*' {
        match (letter_piece_type(s[0]), square_from_usi_spec(s.subrange(2, s.len() as int))) {
            (Some(pt), Some(to)) => if pt != PieceType::King {
                Some(Move(drop_move_bits(pt, to)))
            } else {
                None
            },
            _ => None,
        }
    } else {
        let promote = s.last() == '+';
        let to_end = if promote {
            s.len() - 1
        } else {
            s.len() as int
        };
        if to_end - 2 < 2 {
            None
        } else {
            match (square_from_usi_spec(s.subrange(0, 2)), square_from_usi_spec(s.subrange(2, to_end))) {
                (Some(from), Some(to)) => Some(Move(normal_move_bits(from, to, PieceType::Pawn, promote))),
                _ => None,
            }
        }
    }
}

/// A move (see the module documentation for the layout).
#[derive(Clone, Copy, PartialEq, Eq, Structural, Debug)]
pub struct Move(pub u32);

impl Move {
    pub const PROMOTE_FLAG: u32 = 16384;

    pub open spec fn to_bits(self) -> int {
        self.0 as int % 128
    }

    pub open spec fn from_field(self) -> int {
        (self.0 as int / 128) % 128
    }

    pub open spec fn drop_move(self) -> bool {
        self.from_field() >= 81
    }

    pub open spec fn promo(self) -> bool {
        (self.0 as int / 16384) % 2 == 1
    }

    pub open spec fn moved_code(self) -> int {
        (self.0 as int / 65536) % 16
    }

    pub open spec fn captured_code(self) -> int {
        (self.0 as int / 1048576) % 16
    }

    pub open spec fn capture(self) -> bool {
        (self.0 as int / 1048576) % 16 != 0
    }

    /// The code of the dropped kind (the origin field less 80).
    pub open spec fn dropped_code(self) -> int {
        self.from_field() - 80
    }

    /// The kind that stands on the destination after the move.
    pub open spec fn kind_after(self) -> PieceType {
        if self.drop_move() {
            piece_type_of_code(self.dropped_code())
        } else {
            let pt = piece_type_of_code(self.moved_code());
            if self.promo() {
                match pt.promoted() {
                    Some(p) => p,
                    None => pt,
                }
            } else {
                pt
            }
        }
    }

    /// The USI text of a move.
    pub open spec fn usi_spec(self) -> Seq<char> {
        if self.0 == 0 {
            seq!['n', 'o', 'n', 'e']
        } else if self.0 == 129 {
            seq!['n', 'u', 'l', 'l']
        } else if self.drop_move() {
            piece_type_of_code(self.dropped_code()).usi_spec().push('*') + square_usi_spec(self.to_bits())
        } else {
            square_usi_spec(self.from_field()) + square_usi_spec(self.to_bits()) + (if self.promo() {
                seq!['+']
            } else {
                Seq::empty()
            })
        }
    }

    pub proof fn lemma_normal_fields(from: Square, to: Square, pt: PieceType, promote: bool)
        requires
            from.0 < 128,
            to.0 < 128,
        ensures
            Move(normal_move_bits(from, to, pt, promote)).to_bits() == to.0,
            Move(normal_move_bits(from, to, pt, promote)).from_field() == from.0,
            Move(normal_move_bits(from, to, pt, promote)).promo() == promote,
            Move(normal_move_bits(from, to, pt, promote)).moved_code() == pt.code(),
            Move(normal_move_bits(from, to, pt, promote)).captured_code() == 0,
    {
        let t = to.0 as u32;
        let f = from.0 as u32;
        let p = pt.code() as u32;
        let fl: u32 = if promote {
            16384
        } else {
            0
        };
        assert(p < 15);
        assert(t < 128 && f < 128 && p < 16 && (fl == 0 || fl == 16384) ==> {
            let v = t | (f << 7u32) | (p << 16u32) | fl;
            &&& v % 128 == t
            &&& (v / 128) % 128 == f
            &&& ((v / 16384) % 2 == 1) == (fl == 16384)
            &&& (v / 65536) % 16 == p
            &&& (v / 1048576) % 16 == 0
        }) by (bit_vector);
    }

    pub proof fn lemma_drop_fields(pt: PieceType, to: Square)
        requires
            to.0 < 128,
        ensures
            Move(drop_move_bits(pt, to)).to_bits() == to.0,
            Move(drop_move_bits(pt, to)).from_field() == 80 + pt.code(),
            !Move(drop_move_bits(pt, to)).promo(),
            Move(drop_move_bits(pt, to)).moved_code() == 0,
            Move(drop_move_bits(pt, to)).captured_code() == 0,
    {
        let t = to.0 as u32;
        let f = (80 + pt.code()) as u32;
        assert(f < 95);
        assert(t < 128 && f < 128 ==> {
            let v = t | (f << 7u32);
            &&& v % 128 == t
            &&& (v / 128) % 128 == f
            &&& (v / 16384) % 2 == 0
            &&& (v / 65536) % 16 == 0
            &&& (v / 1048576) % 16 == 0
        }) by (bit_vector);
    }

    /// The move that means "no move".
    #[allow(non_snake_case)]
    pub fn NONE() -> (r: Move)
        ensures
            r.0 == 0,
    {
        Move(0)
    }

    /// The null move (pass).
    #[allow(non_snake_case)]
    pub fn NULL() -> (r: Move)
        ensures
            r.0 == 129,
    {
        Move(129)
    }

    /// A move from one square to another by a piece of kind `pt`.
    pub fn new_normal(from: Square, to: Square, pt: PieceType, promote: bool) -> (r: Move)
        ensures
            r.0 == normal_move_bits(from, to, pt, promote),
            from.0 < 128 && to.0 < 128 ==> {
                &&& r.to_bits() == to.0
                &&& r.from_field() == from.0
                &&& r.promo() == promote
                &&& r.moved_code() == pt.code()
                &&& r.captured_code() == 0
            },
    {
        proof {
            if from.0 < 128 && to.0 < 128 {
                Self::lemma_normal_fields(from, to, pt, promote);
            }
        }
        let flag: u32 = if promote {
            16384
        } else {
            0
        };
        Move((to.0 as u32) | ((from.0 as u32) << 7) | ((pt.to_code() as u32) << 16) | flag)
    }

    /// A drop of a piece of kind `pt`.
    pub fn new_drop(pt: PieceType, to: Square) -> (r: Move)
        ensures
            r.0 == drop_move_bits(pt, to),
            to.0 < 128 ==> {
                &&& r.to_bits() == to.0
                &&& r.from_field() == 80 + pt.code()
                &&& !r.promo()
                &&& r.moved_code() == 0
                &&& r.captured_code() == 0
            },
    {
        proof {
            if to.0 < 128 {
                Self::lemma_drop_fields(pt, to);
            }
        }
        let from_encoded = 80 + pt.to_code() as u32;
        Move((to.0 as u32) | (from_encoded << 7))
    }

    /// The same move, marked as capturing a piece of kind `captured`.
    pub fn with_capture(self, captured: PieceType) -> (r: Move)
        ensures
            r.0 == self.0 | ((captured.code() as u32) << 20u32),
            self.captured_code() == 0 ==> {
                &&& r.to_bits() == self.to_bits()
                &&& r.from_field() == self.from_field()
                &&& r.promo() == self.promo()
                &&& r.moved_code() == self.moved_code()
                &&& r.captured_code() == captured.code()
            },
    {
        let c = captured.to_code() as u32;
        let v = self.0;
        assert(c < 16 && (v / 1048576) % 16 == 0 ==> {
            let w = v | (c << 20u32);
            &&& w % 128 == v % 128
            &&& (w / 128) % 128 == (v / 128) % 128
            &&& (w / 16384) % 2 == (v / 16384) % 2
            &&& (w / 65536) % 16 == (v / 65536) % 16
            &&& (w / 1048576) % 16 == c
        }) by (bit_vector);
        Move(self.0 | (c << 20))
    }

    /// The destination.
    pub fn to(self) -> (r: Square)
        ensures
            r.0 == self.to_bits(),
    {
        let v = self.0;
        proof {
            lemma_move_bits(v);
        }
        Square((self.0 & 0x7F) as u8)
    }

    pub fn raw(self) -> (r: u32)
        ensures
            r == self.0,
    {
        self.0
    }

    pub fn from_raw(bits: u32) -> (r: Option<Move>)
        ensures
            bits == 0 ==> r is None,
            bits != 0 ==> r == Some(Move(bits)),
    {
        if bits == 0 {
            None
        } else {
            Some(Move(bits))
        }
    }

    /// The origin field (81 or more for a drop).
    pub fn from_bits(self) -> (r: u8)
        ensures
            r == self.from_field(),
    {
        let v = self.0;
        proof {
            lemma_move_bits(v);
        }
        ((self.0 >> 7) & 0x7F) as u8
    }

    /// The origin square, or `None` for a drop.
    pub fn from(self) -> (r: Option<Square>)
        ensures
            self.from_field() < 81 ==> r == Some(Square(self.from_field() as u8)),
            self.from_field() >= 81 ==> r is None,
    {
        let from = self.from_bits();
        if from < 81 {
            Some(Square(from))
        } else {
            None
        }
    }

    pub fn is_drop(self) -> (r: bool)
        ensures
            r == self.drop_move(),
    {
        self.from_bits() >= 81
    }

    pub fn is_promotion(self) -> (r: bool)
        ensures
            r == self.promo(),
    {
        let v = self.0;
        proof {
            lemma_move_bits(v);
        }
        (self.0 & Self::PROMOTE_FLAG) != 0
    }

    pub fn is_capture(self) -> (r: bool)
        ensures
            r == self.capture(),
    {
        let v = self.0;
        proof {
            lemma_move_bits(v);
        }
        (self.0 & 0xF00000) != 0
    }

    /// The kind that moves (recorded in the move).
    pub fn piece_type_from(self) -> (r: PieceType)
        requires
            self.moved_code() < 15,
        ensures
            r == piece_type_of_code(self.moved_code()),
    {
        let v = self.0;
        proof {
            lemma_move_bits(v);
        }
        PieceType::from_code(((self.0 >> 16) & 0xF) as u8)
    }

    /// The kind that stands on the destination after the move.
    pub fn piece_type_to(self) -> (r: PieceType)
        requires
            self.drop_move() ==> self.dropped_code() < 15,
            !self.drop_move() ==> self.moved_code() < 15,
        ensures
            r == self.kind_after(),
    {
        if self.is_drop() {
            self.piece_type_dropped()
        } else {
            let pt = self.piece_type_from();
            if self.is_promotion() {
                match pt.promote() {
                    Some(p) => p,
                    None => pt,
                }
            } else {
                pt
            }
        }
    }

    /// The kind that is dropped.
    pub fn piece_type_dropped(self) -> (r: PieceType)
        requires
            80 <= self.from_field(),
            self.dropped_code() < 15,
        ensures
            r == piece_type_of_code(self.dropped_code()),
    {
        PieceType::from_code(self.from_bits() - 80)
    }

    /// The kind that is captured, if any.
    pub fn captured(self) -> (r: Option<PieceType>)
        requires
            self.captured_code() < 15,
        ensures
            self.captured_code() == 0 ==> r is None,
            self.captured_code() != 0 ==> r == Some(piece_type_of_code(self.captured_code())),
    {
        let v = self.0;
        proof {
            lemma_move_bits(v);
        }
        let cap = ((self.0 >> 20) & 0xF) as u8;
        if cap == 0 {
            None
        } else {
            Some(PieceType::from_code(cap))
        }
    }

    /// The hand kind that is dropped, for a drop.
    pub fn hand_piece_dropped(self) -> (r: Option<HandPiece>)
        requires
            self.drop_move() ==> self.dropped_code() < 15,
        ensures
            !self.drop_move() ==> r is None,
            self.drop_move() ==> r == hand_piece_of(piece_type_of_code(self.dropped_code())),
    {
        if self.is_drop() {
            HandPiece::from_piece_type(self.piece_type_dropped())
        } else {
            None
        }
    }

    /// The move in USI ("7g7f", "7g7f+", "P*7f", "none" or "null").
    pub fn to_usi(self) -> (r: String)
        requires
            self.0 != 0 && self.0 != 129 ==> self.to_bits() < 81 && (self.drop_move() ==> self.dropped_code() < 15),
        ensures
            r@ == self.usi_spec(),
    {
        if self.0 == 0 {
            proof { reveal_strlit("none"); }
            return String::from_str("none");
        }
        if self.0 == 129 {
            proof { reveal_strlit("null"); }
            return String::from_str("null");
        }
        let to_str = self.to().to_usi();
        if self.is_drop() {
            let pt = self.piece_type_dropped();
            let mut s = String::from_str(pt.to_usi());
            push_char(&mut s, '*');
            s.append(to_str.as_str());
            s
        } else {
            let from = self.from().unwrap();
            let mut s = from.to_usi();
            s.append(to_str.as_str());
            if self.is_promotion() {
                push_char(&mut s, '+');
            }
            proof {
                assert(s@ =~= self.usi_spec());
            }
            s
        }
    }

    /// Whether the move reads as the given USI text.
    pub fn matches_usi(self, usi: &str) -> (r: bool)
        requires
            self.0 != 0 && self.0 != 129 ==> self.to_bits() < 81 && (self.drop_move() ==> self.dropped_code() < 15),
        ensures
            r == (self.usi_spec() == usi@),
    {
        let s = self.to_usi();
        str_equals(s.as_str(), usi)
    }

    /// Reads a move in USI (see `move_from_usi_spec`).
    pub fn from_usi(s: &str) -> (r: Option<Move>)
        ensures
            r == move_from_usi_spec(s@),
    {
        proof {
            reveal_strlit("none");
            reveal_strlit("null");
            assert("none"@ =~= seq!['n', 'o', 'n', 'e']);
            assert("null"@ =~= seq!['n', 'u', 'l', 'l']);
        }
        if str_equals(s, "none") {
            return Some(Move::NONE());
        }
        if str_equals(s, "null") {
            return Some(Move::NULL());
        }
        let chars = chars_of(s);
        let n = chars.len();
        if n < 4 {
            return None;
        }
        if chars[1] == '*' {
            let pt = match chars[0] {
                'P' => PieceType::Pawn,
                'L' => PieceType::Lance,
                'N' => PieceType::Knight,
                'S' => PieceType::Silver,
                'G' => PieceType::Gold,
                'B' => PieceType::Bishop,
                'R' => PieceType::Rook,
                _ => return None,
            };
            let to_str = string_of(&chars, 2, n);
            let to = match Square::from_usi(to_str.as_str()) {
                Some(sq) => sq,
                None => return None,
            };
            return Some(Move::new_drop(pt, to));
        }
        let from_str = string_of(&chars, 0, 2);
        let promote = chars[n - 1] == '+';
        let to_end = if promote {
            n - 1
        } else {
            n
        };
        if to_end - 2 < 2 {
            return None;
        }
        let to_str = string_of(&chars, 2, to_end);
        let from = match Square::from_usi(from_str.as_str()) {
            Some(sq) => sq,
            None => return None,
        };
        let to = match Square::from_usi(to_str.as_str()) {
            Some(sq) => sq,
            None => return None,
        };
        Some(Move::new_normal(from, to, PieceType::Pawn, promote))
    }

    /// Whether the move is an actual move (neither "none" nor the null move).
    pub fn is_ok(self) -> (r: bool)
        ensures
            r == (self.0 != 0 && self.0 != 129),
    {
        self.0 != 0 && self.0 != 129
    }
}

/// How the fields of a move word read through masks and shifts.
proof fn lemma_move_bits(v: u32)
    by (bit_vector)
    ensures
        v & 0x7F == v % 128,
        (v >> 7u32) & 0x7F == (v / 128) % 128,
        (v & 16384 != 0) == ((v / 16384) % 2 == 1),
        (v & 0xF00000 != 0) == ((v / 1048576) % 16 != 0),
        (v >> 16u32) & 0xF == (v / 65536) % 16,
        (v >> 20u32) & 0xF == (v / 1048576) % 16,
{
}


/// Reading back the USI text of a move gives a move with the same USI text,
/// the same squares and the same promotion.  (The text does not name the
/// kind that moves, so a normal move comes back recorded as a pawn move.)
pub proof fn lemma_move_usi_roundtrip(m: Move)
    requires
        m.0 != 0,
        m.0 != 129,
        m.to_bits() < 81,
        m.drop_move() ==> 1 <= m.dropped_code() <= 7,
    ensures
        move_from_usi_spec(m.usi_spec()) matches Some(m2) && m2.usi_spec() == m.usi_spec()
            && m2.to_bits() == m.to_bits() && m2.from_field() == m.from_field()
            && m2.promo() == (m.promo() && !m.drop_move()),
{
    let t = Square(m.to_bits() as u8);
    crate::types::lemma_square_usi_roundtrip(t);
    let tu = square_usi_spec(m.to_bits());
    let s = m.usi_spec();
    if m.drop_move() {
        let pt = piece_type_of_code(m.dropped_code());
        assert(pt.usi_spec().len() == 1);
        assert(s.subrange(2, s.len() as int) =~= tu);
        assert(s[1] == '*');
        assert(letter_piece_type(s[0]) == Some(pt));
        assert(pt.code() == m.dropped_code());
        Move::lemma_drop_fields(pt, t);
        let m2 = Move(drop_move_bits(pt, t));
        assert(m2.0 != 0 && m2.0 != 129);
        assert(m2.drop_move());
        assert(m2.dropped_code() == m.dropped_code());
    } else {
        let f = Square(m.from_field() as u8);
        crate::types::lemma_square_usi_roundtrip(f);
        let fu = square_usi_spec(m.from_field());
        assert(s.subrange(0, 2) =~= fu);
        let to_end = if m.promo() { s.len() - 1 } else { s.len() as int };
        assert(s.subrange(2, to_end) =~= tu);
        assert(s.last() == '+' <==> m.promo());
        Move::lemma_normal_fields(f, t, PieceType::Pawn, m.promo());
        let m2 = Move(normal_move_bits(f, t, PieceType::Pawn, m.promo()));
        assert(m2.0 != 0 && m2.0 != 129);
        assert(!m2.drop_move());
        assert(m2.usi_spec() =~= s);
    }
}

} // verus!
