//! Piece kinds, coloured pieces and the kinds that can be held in hand.
use vstd::prelude::*;
use crate::types::Color;

verus! {

/// The kind of a piece, regardless of its owner.
#[derive(Debug, Clone, Copy, PartialEq, Eq, Structural)]
pub enum PieceType {
    Occupied,
    Pawn,
    Lance,
    Knight,
    Silver,
    Bishop,
    Rook,
    Gold,
    King,
    ProPawn,
    ProLance,
    ProKnight,
    ProSilver,
    Horse,
    Dragon,
}

/// The piece kind with code `v` (0 to 14).
pub open spec fn piece_type_of_code(v: int) -> PieceType {
    if v == 0 {
        PieceType::Occupied
    } else if v == 1 {
        PieceType::Pawn
    } else if v == 2 {
        PieceType::Lance
    } else if v == 3 {
        PieceType::Knight
    } else if v == 4 {
        PieceType::Silver
    } else if v == 5 {
        PieceType::Bishop
    } else if v == 6 {
        PieceType::Rook
    } else if v == 7 {
        PieceType::Gold
    } else if v == 8 {
        PieceType::King
    } else if v == 9 {
        PieceType::ProPawn
    } else if v == 10 {
        PieceType::ProLance
    } else if v == 11 {
        PieceType::ProKnight
    } else if v == 12 {
        PieceType::ProSilver
    } else if v == 13 {
        PieceType::Horse
    } else {
        PieceType::Dragon
    }
}

/// The piece kind that a letter of SFEN or USI names (unpromoted kinds only).
pub open spec fn letter_piece_type(c: char) -> Option<PieceType> {
    if c == 'P' {
        Some(PieceType::Pawn)
    } else if c == 'L' {
        Some(PieceType::Lance)
    } else if c == 'N' {
        Some(PieceType::Knight)
    } else if c == 'S' {
        Some(PieceType::Silver)
    } else if c == 'B' {
        Some(PieceType::Bishop)
    } else if c == 'R' {
        Some(PieceType::Rook)
    } else if c == 'G' {
        Some(PieceType::Gold)
    } else if c == 'K' {
        Some(PieceType::King)
    } else {
        None
    }
}

/// Lower-cases the ASCII capital letters of a character sequence.
pub open spec fn ascii_lower(s: Seq<char>) -> Seq<char> {
    s.map_values(|c: char| if 'A' <= c <= 'Z' { ((c as int) + 32) as char } else { c })
}

/// Material value of a piece kind.
pub open spec fn piece_value_spec(pt: PieceType) -> int {
    match pt {
        PieceType::Occupied => 0,
        PieceType::Pawn => 90,
        PieceType::Lance => 315,
        PieceType::Knight => 405,
        PieceType::Silver => 495,
        PieceType::Bishop => 855,
        PieceType::Rook => 990,
        PieceType::Gold => 540,
        PieceType::King => 15000,
        PieceType::ProPawn => 540,
        PieceType::ProLance => 540,
        PieceType::ProKnight => 540,
        PieceType::ProSilver => 540,
        PieceType::Horse => 1305,
        PieceType::Dragon => 1530,
    }
}

impl PieceType {
    pub const NUM: usize = 15;

    /// The numeric code of the kind (0 to 14).
    pub open spec fn code(self) -> int {
        match self {
            PieceType::Occupied => 0,
            PieceType::Pawn => 1,
            PieceType::Lance => 2,
            PieceType::Knight => 3,
            PieceType::Silver => 4,
            PieceType::Bishop => 5,
            PieceType::Rook => 6,
            PieceType::Gold => 7,
            PieceType::King => 8,
            PieceType::ProPawn => 9,
            PieceType::ProLance => 10,
            PieceType::ProKnight => 11,
            PieceType::ProSilver => 12,
            PieceType::Horse => 13,
            PieceType::Dragon => 14,
        }
    }

    pub proof fn lemma_code(self)
        ensures
            0 <= self.code() < 15,
            piece_type_of_code(self.code()) == self,
    {
    }

    pub open spec fn promotable(self) -> bool {
        matches!(self, PieceType::Pawn | PieceType::Lance | PieceType::Knight | PieceType::Silver | PieceType::Bishop | PieceType::Rook)
    }

    /// The promoted kind, for kinds that can promote.
    pub open spec fn promoted(self) -> Option<PieceType> {
        match self {
            PieceType::Pawn => Some(PieceType::ProPawn),
            PieceType::Lance => Some(PieceType::ProLance),
            PieceType::Knight => Some(PieceType::ProKnight),
            PieceType::Silver => Some(PieceType::ProSilver),
            PieceType::Bishop => Some(PieceType::Horse),
            PieceType::Rook => Some(PieceType::Dragon),
            _ => None,
        }
    }

    /// The unpromoted kind (the kind itself when it is not promoted).
    pub open spec fn base(self) -> PieceType {
        match self {
            PieceType::ProPawn => PieceType::Pawn,
            PieceType::ProLance => PieceType::Lance,
            PieceType::ProKnight => PieceType::Knight,
            PieceType::ProSilver => PieceType::Silver,
            PieceType::Horse => PieceType::Bishop,
            PieceType::Dragon => PieceType::Rook,
            _ => self,
        }
    }

    pub open spec fn slider(self) -> bool {
        matches!(self, PieceType::Lance | PieceType::Bishop | PieceType::Rook | PieceType::Horse | PieceType::Dragon)
    }

    /// The USI letter of an unpromoted kind that can be dropped or is a king.
    pub open spec fn usi_spec(self) -> Seq<char> {
        match self {
            PieceType::Pawn => seq!['P'],
            PieceType::Lance => seq!['L'],
            PieceType::Knight => seq!['N'],
            PieceType::Silver => seq!['S'],
            PieceType::Bishop => seq!['B'],
            PieceType::Rook => seq!['R'],
            PieceType::Gold => seq!['G'],
            PieceType::King => seq!['K'],
            _ => Seq::empty(),
        }
    }

    /// The SFEN text of the kind in Black's (upper) case.
    pub open spec fn sfen_spec(self) -> Seq<char> {
        match self {
            PieceType::ProPawn => seq!['+', 'P'],
            PieceType::ProLance => seq!['+', 'L'],
            PieceType::ProKnight => seq!['+', 'N'],
            PieceType::ProSilver => seq!['+', 'S'],
            PieceType::Horse => seq!['+', 'B'],
            PieceType::Dragon => seq!['+', 'R'],
            _ => self.usi_spec(),
        }
    }

    pub fn to_code(self) -> (r: u8)
        ensures
            r == self.code(),
            r < 15,
    {
        match self {
            PieceType::Occupied => 0,
            PieceType::Pawn => 1,
            PieceType::Lance => 2,
            PieceType::Knight => 3,
            PieceType::Silver => 4,
            PieceType::Bishop => 5,
            PieceType::Rook => 6,
            PieceType::Gold => 7,
            PieceType::King => 8,
            PieceType::ProPawn => 9,
            PieceType::ProLance => 10,
            PieceType::ProKnight => 11,
            PieceType::ProSilver => 12,
            PieceType::Horse => 13,
            PieceType::Dragon => 14,
        }
    }

    pub fn from_code(v: u8) -> (r: PieceType)
        requires
            v < 15,
        ensures
            r == piece_type_of_code(v as int),
            r.code() == v,
    {
        match v {
            0 => PieceType::Occupied,
            1 => PieceType::Pawn,
            2 => PieceType::Lance,
            3 => PieceType::Knight,
            4 => PieceType::Silver,
            5 => PieceType::Bishop,
            6 => PieceType::Rook,
            7 => PieceType::Gold,
            8 => PieceType::King,
            9 => PieceType::ProPawn,
            10 => PieceType::ProLance,
            11 => PieceType::ProKnight,
            12 => PieceType::ProSilver,
            13 => PieceType::Horse,
            _ => PieceType::Dragon,
        }
    }

    pub fn can_promote(self) -> (r: bool)
        ensures
            r == self.promotable(),
    {
        matches!(self, PieceType::Pawn | PieceType::Lance | PieceType::Knight | PieceType::Silver | PieceType::Bishop | PieceType::Rook)
    }

    pub fn promote(self) -> (r: Option<PieceType>)
        ensures
            r == self.promoted(),
            r is Some <==> self.promotable(),
    {
        match self {
            PieceType::Pawn => Some(PieceType::ProPawn),
            PieceType::Lance => Some(PieceType::ProLance),
            PieceType::Knight => Some(PieceType::ProKnight),
            PieceType::Silver => Some(PieceType::ProSilver),
            PieceType::Bishop => Some(PieceType::Horse),
            PieceType::Rook => Some(PieceType::Dragon),
            _ => None,
        }
    }

    pub fn unpromote(self) -> (r: PieceType)
        ensures
            r == self.base(),
    {
        match self {
            PieceType::ProPawn => PieceType::Pawn,
            PieceType::ProLance => PieceType::Lance,
            PieceType::ProKnight => PieceType::Knight,
            PieceType::ProSilver => PieceType::Silver,
            PieceType::Horse => PieceType::Bishop,
            PieceType::Dragon => PieceType::Rook,
            _ => self,
        }
    }

    pub fn is_slider(self) -> (r: bool)
        ensures
            r == self.slider(),
    {
        matches!(self, PieceType::Lance | PieceType::Bishop | PieceType::Rook | PieceType::Horse | PieceType::Dragon)
    }

    /// The USI letter of the kind ("" for promoted kinds and `Occupied`).
    pub fn to_usi(self) -> (r: &'static str)
        ensures
            r@ == self.usi_spec(),
    {
        match self {
            PieceType::Pawn => {
                proof { reveal_strlit("P"); }
                "P"
            },
            PieceType::Lance => {
                proof { reveal_strlit("L"); }
                "L"
            },
            PieceType::Knight => {
                proof { reveal_strlit("N"); }
                "N"
            },
            PieceType::Silver => {
                proof { reveal_strlit("S"); }
                "S"
            },
            PieceType::Bishop => {
                proof { reveal_strlit("B"); }
                "B"
            },
            PieceType::Rook => {
                proof { reveal_strlit("R"); }
                "R"
            },
            PieceType::Gold => {
                proof { reveal_strlit("G"); }
                "G"
            },
            PieceType::King => {
                proof { reveal_strlit("K"); }
                "K"
            },
            _ => {
                proof { reveal_strlit(""); }
                ""
            },
        }
    }

    /// The SFEN text of the kind, promoted kinds included ("+P" and so on).
    pub fn to_sfen(self) -> (r: &'static str)
        ensures
            r@ == self.sfen_spec(),
    {
        match self {
            PieceType::ProPawn => {
                proof { reveal_strlit("+P"); }
                "+P"
            },
            PieceType::ProLance => {
                proof { reveal_strlit("+L"); }
                "+L"
            },
            PieceType::ProKnight => {
                proof { reveal_strlit("+N"); }
                "+N"
            },
            PieceType::ProSilver => {
                proof { reveal_strlit("+S"); }
                "+S"
            },
            PieceType::Horse => {
                proof { reveal_strlit("+B"); }
                "+B"
            },
            PieceType::Dragon => {
                proof { reveal_strlit("+R"); }
                "+R"
            },
            _ => self.to_usi(),
        }
    }
}

/// Whether `c` is uppercase in Unicode's sense, as `char::is_uppercase` reports.
pub uninterp spec fn char_is_uppercase(c: char) -> bool;

/// The first character of the Unicode uppercase mapping of `c`, as
/// `char::to_uppercase` yields it first.
pub uninterp spec fn char_upper_first(c: char) -> char;

/// Whether `c` is uppercase: of the ASCII characters just 'A' to 'Z' are,
/// and any other character as `char::is_uppercase` reports it.
pub open spec fn uppercase(c: char) -> bool {
    if (c as int) < 128 {
        'A' <= c <= 'Z'
    } else {
        char_is_uppercase(c)
    }
}

/// The first character of the uppercase mapping of `c`: 'a' to 'z' become
/// 'A' to 'Z', every other ASCII character stays, any other character as
/// `char::to_uppercase` yields it first.
pub open spec fn upper_first(c: char) -> char {
    if 'a' <= c <= 'z' {
        ((c as int) - 32) as char
    } else if (c as int) < 128 {
        c
    } else {
        char_upper_first(c)
    }
}

/// Whether a character is uppercase.
///
/// Calls `char::is_uppercase`, which follows Unicode's Uppercase property.
/// The contract names its result and states it for ASCII, where the
/// property holds of 'A' to 'Z' alone; other characters are left to the
/// name.
#[verifier::external_body]
pub(crate) fn is_uppercase(c: char) -> (r: bool)
    ensures
        r == char_is_uppercase(c),
        (c as int) < 128 ==> (r <==> 'A' <= c <= 'Z'),
{
    c.is_uppercase()
}

/// The first character of the uppercase mapping of a character.
///
/// Calls `char::to_uppercase` and takes the iterator's first item.  std
/// documents that the iterator yields the character itself when it has no
/// uppercase mapping, so there always is a first item.  For ASCII the
/// contract states the mapping ('a' to 'z' become 'A' to 'Z', every other
/// ASCII character maps to itself); other characters follow Unicode's case
/// tables, left to the name.
#[verifier::external_body]
pub(crate) fn to_uppercase_first(c: char) -> (r: Option<char>)
    ensures
        r == Some(char_upper_first(c)),
        'a' <= c <= 'z' ==> r == Some(((c as int) - 32) as char),
        (c as int) < 128 && !('a' <= c <= 'z') ==> r == Some(c),
{
    c.to_uppercase().next()
}

/// A piece with its owner: the low four bits hold the kind, bit 4 the colour
/// (0 for Black, 1 for White); 0 is the empty square.
#[derive(Debug, Clone, Copy, PartialEq, Eq, Structural)]
pub struct Piece(pub u8);

/// The piece of colour `c` and kind `pt`.
pub open spec fn piece_spec(c: Color, pt: PieceType) -> Piece {
    Piece((pt.code() + 16 * c.index()) as u8)
}

/// The piece that `Piece::from_sfen_char` reads from one character: an
/// uppercase letter is Black's, any other character is White's once
/// uppercased; the (uppercased) letter must name an unpromoted kind.
pub open spec fn piece_from_sfen_spec(c: char) -> Option<Piece> {
    let up = uppercase(c);
    let letter = if up {
        c
    } else {
        upper_first(c)
    };
    let color = if up {
        Color::Black
    } else {
        Color::White
    };
    match letter_piece_type(letter) {
        Some(pt) => Some(piece_spec(color, pt)),
        None => None,
    }
}

impl Piece {
    pub const NUM: usize = 32;

    /// The empty square.
    #[allow(non_snake_case)]
    pub fn EMPTY() -> (r: Piece)
        ensures
            r.0 == 0,
    {
        Piece(0)
    }

    /// The code of the kind (the low four bits).
    pub open spec fn kind_code(self) -> int {
        self.0 as int % 16
    }

    /// The kind bits name a kind (every piece built by `new` has this).
    pub open spec fn valid_kind(self) -> bool {
        self.kind_code() < 15
    }

    pub open spec fn kind(self) -> PieceType {
        piece_type_of_code(self.kind_code())
    }

    pub open spec fn owner(self) -> Color {
        if (self.0 as int / 16) % 2 == 0 {
            Color::Black
        } else {
            Color::White
        }
    }

    pub open spec fn empty(self) -> bool {
        self.0 == 0
    }

    /// The SFEN text of a piece: the kind's text, lower-cased for White.
    pub open spec fn sfen_spec(self) -> Seq<char> {
        if self.empty() {
            Seq::empty()
        } else if self.owner() == Color::Black {
            self.kind().sfen_spec()
        } else {
            ascii_lower(self.kind().sfen_spec())
        }
    }

    pub proof fn lemma_piece_spec(c: Color, pt: PieceType)
        ensures
            piece_spec(c, pt).kind() == pt,
            piece_spec(c, pt).owner() == c,
            piece_spec(c, pt).valid_kind(),
            piece_spec(c, pt).empty() <==> (c == Color::Black && pt == PieceType::Occupied),
            piece_spec(c, pt).0 < 32,
    {
    }

    pub fn new_black(pt: PieceType) -> (r: Piece)
        ensures
            r == piece_spec(Color::Black, pt),
    {
        Piece(pt.to_code())
    }

    pub fn new_white(pt: PieceType) -> (r: Piece)
        ensures
            r == piece_spec(Color::White, pt),
    {
        let code = pt.to_code();
        proof {
            lemma_piece_bits(code);
        }
        Piece(code | 0x10)
    }

    pub fn new(c: Color, pt: PieceType) -> (r: Piece)
        ensures
            r == piece_spec(c, pt),
            r.kind() == pt,
            r.owner() == c,
            r.valid_kind(),
    {
        let code = pt.to_code();
        match c {
            Color::Black => Piece(code),
            Color::White => Piece(code + 16),
        }
    }

    pub fn is_empty(self) -> (r: bool)
        ensures
            r == self.empty(),
    {
        self.0 == 0
    }

    /// The kind of the piece.
    pub fn piece_type(self) -> (r: PieceType)
        requires
            self.valid_kind(),
        ensures
            r == self.kind(),
    {
        PieceType::from_code(self.0 % 16)
    }

    pub fn color(self) -> (r: Color)
        ensures
            r == self.owner(),
    {
        let x = self.0;
        proof {
            lemma_piece_bits(x);
        }
        if (self.0 & 0x10) == 0 {
            Color::Black
        } else {
            Color::White
        }
    }

    /// The same kind for the other side.
    pub fn inverse(self) -> (r: Piece)
        ensures
            r.0 == self.0 ^ 0x10,
            r.kind() == self.kind(),
            r.owner() == self.owner().opp(),
    {
        let x = self.0;
        proof {
            lemma_piece_bits(x);
        }
        Piece(self.0 ^ 0x10)
    }

    pub fn promote(self) -> (r: Option<Piece>)
        requires
            self.valid_kind(),
        ensures
            r == (match self.kind().promoted() {
                Some(pt) => Some(piece_spec(self.owner(), pt)),
                None => None,
            }),
    {
        match self.piece_type().promote() {
            Some(pt) => Some(Piece::new(self.color(), pt)),
            None => None,
        }
    }

    pub fn unpromote(self) -> (r: Piece)
        requires
            self.valid_kind(),
        ensures
            r == piece_spec(self.owner(), self.kind().base()),
    {
        Piece::new(self.color(), self.piece_type().unpromote())
    }

    /// The SFEN text of the piece ("" for the empty square).
    pub fn to_sfen(self) -> (r: String)
        requires
            self.valid_kind(),
        ensures
            r@ == self.sfen_spec(),
    {
        if self.is_empty() {
            return String::new();
        }
        let pt = self.piece_type();
        match self.color() {
            Color::Black => String::from_str(pt.to_sfen()),
            Color::White => {
                let s = lower_sfen(pt);
                String::from_str(s)
            },
        }
    }

    /// Reads a piece from one SFEN character ('P' Black pawn, 'p' White pawn, ...).
    pub fn from_sfen_char(c: char) -> (r: Option<Piece>)
        ensures
            r == piece_from_sfen_spec(c),
            r matches Some(p) ==> p.valid_kind() && !p.empty() && p.0 < 32,
    {
        let up = is_uppercase(c);
        let (color, piece_char) = if up {
            (Color::Black, c)
        } else {
            (Color::White, to_uppercase_first(c)?)
        };
        let pt = match piece_char {
            'P' => PieceType::Pawn,
            'L' => PieceType::Lance,
            'N' => PieceType::Knight,
            'S' => PieceType::Silver,
            'B' => PieceType::Bishop,
            'R' => PieceType::Rook,
            'G' => PieceType::Gold,
            'K' => PieceType::King,
            _ => return None,
        };
        Some(Piece::new(color, pt))
    }
}

/// The SFEN text of a kind in White's (lower) case.
fn lower_sfen(pt: PieceType) -> (r: &'static str)
    ensures
        r@ == ascii_lower(pt.sfen_spec()),
{
    proof {
        let s = pt.sfen_spec();
        let l = ascii_lower(s);
        assert(l.len() == s.len());
    }
    match pt {
        PieceType::Pawn => {
            proof { reveal_strlit("p"); assert(ascii_lower(seq!['P']) =~= seq!['p']); }
            "p"
        },
        PieceType::Lance => {
            proof { reveal_strlit("l"); assert(ascii_lower(seq!['L']) =~= seq!['l']); }
            "l"
        },
        PieceType::Knight => {
            proof { reveal_strlit("n"); assert(ascii_lower(seq!['N']) =~= seq!['n']); }
            "n"
        },
        PieceType::Silver => {
            proof { reveal_strlit("s"); assert(ascii_lower(seq!['S']) =~= seq!['s']); }
            "s"
        },
        PieceType::Bishop => {
            proof { reveal_strlit("b"); assert(ascii_lower(seq!['B']) =~= seq!['b']); }
            "b"
        },
        PieceType::Rook => {
            proof { reveal_strlit("r"); assert(ascii_lower(seq!['R']) =~= seq!['r']); }
            "r"
        },
        PieceType::Gold => {
            proof { reveal_strlit("g"); assert(ascii_lower(seq!['G']) =~= seq!['g']); }
            "g"
        },
        PieceType::King => {
            proof { reveal_strlit("k"); assert(ascii_lower(seq!['K']) =~= seq!['k']); }
            "k"
        },
        PieceType::ProPawn => {
            proof { reveal_strlit("+p"); assert(ascii_lower(seq!['+', 'P']) =~= seq!['+', 'p']); }
            "+p"
        },
        PieceType::ProLance => {
            proof { reveal_strlit("+l"); assert(ascii_lower(seq!['+', 'L']) =~= seq!['+', 'l']); }
            "+l"
        },
        PieceType::ProKnight => {
            proof { reveal_strlit("+n"); assert(ascii_lower(seq!['+', 'N']) =~= seq!['+', 'n']); }
            "+n"
        },
        PieceType::ProSilver => {
            proof { reveal_strlit("+s"); assert(ascii_lower(seq!['+', 'S']) =~= seq!['+', 's']); }
            "+s"
        },
        PieceType::Horse => {
            proof { reveal_strlit("+b"); assert(ascii_lower(seq!['+', 'B']) =~= seq!['+', 'b']); }
            "+b"
        },
        PieceType::Dragon => {
            proof { reveal_strlit("+r"); assert(ascii_lower(seq!['+', 'R']) =~= seq!['+', 'r']); }
            "+r"
        },
        PieceType::Occupied => {
            proof { reveal_strlit(""); assert(ascii_lower(Seq::<char>::empty()) =~= Seq::<char>::empty()); }
            ""
        },
    }
}

/// A kind of piece that can be held in hand.
#[derive(Debug, Clone, Copy, PartialEq, Eq, Structural)]
pub enum HandPiece {
    HPawn,
    HLance,
    HKnight,
    HSilver,
    HGold,
    HBishop,
    HRook,
}

/// The hand kind with index `v` (0 to 6).
pub open spec fn hand_piece_of_index(v: int) -> HandPiece {
    if v == 0 {
        HandPiece::HPawn
    } else if v == 1 {
        HandPiece::HLance
    } else if v == 2 {
        HandPiece::HKnight
    } else if v == 3 {
        HandPiece::HSilver
    } else if v == 4 {
        HandPiece::HGold
    } else if v == 5 {
        HandPiece::HBishop
    } else {
        HandPiece::HRook
    }
}

/// The hand kind of a piece kind once unpromoted, if it can be held.
pub open spec fn hand_piece_of(pt: PieceType) -> Option<HandPiece> {
    match pt.base() {
        PieceType::Pawn => Some(HandPiece::HPawn),
        PieceType::Lance => Some(HandPiece::HLance),
        PieceType::Knight => Some(HandPiece::HKnight),
        PieceType::Silver => Some(HandPiece::HSilver),
        PieceType::Gold => Some(HandPiece::HGold),
        PieceType::Bishop => Some(HandPiece::HBishop),
        PieceType::Rook => Some(HandPiece::HRook),
        _ => None,
    }
}

impl HandPiece {
    pub const NUM: usize = 7;

    pub open spec fn index(self) -> int {
        match self {
            HandPiece::HPawn => 0,
            HandPiece::HLance => 1,
            HandPiece::HKnight => 2,
            HandPiece::HSilver => 3,
            HandPiece::HGold => 4,
            HandPiece::HBishop => 5,
            HandPiece::HRook => 6,
        }
    }

    pub open spec fn kind(self) -> PieceType {
        match self {
            HandPiece::HPawn => PieceType::Pawn,
            HandPiece::HLance => PieceType::Lance,
            HandPiece::HKnight => PieceType::Knight,
            HandPiece::HSilver => PieceType::Silver,
            HandPiece::HGold => PieceType::Gold,
            HandPiece::HBishop => PieceType::Bishop,
            HandPiece::HRook => PieceType::Rook,
        }
    }

    pub fn from_index(v: u8) -> (r: HandPiece)
        requires
            v < 7,
        ensures
            r == hand_piece_of_index(v as int),
            r.index() == v,
    {
        match v {
            0 => HandPiece::HPawn,
            1 => HandPiece::HLance,
            2 => HandPiece::HKnight,
            3 => HandPiece::HSilver,
            4 => HandPiece::HGold,
            5 => HandPiece::HBishop,
            _ => HandPiece::HRook,
        }
    }

    pub fn to_piece_type(self) -> (r: PieceType)
        ensures
            r == self.kind(),
            hand_piece_of(r) == Some(self),
    {
        match self {
            HandPiece::HPawn => PieceType::Pawn,
            HandPiece::HLance => PieceType::Lance,
            HandPiece::HKnight => PieceType::Knight,
            HandPiece::HSilver => PieceType::Silver,
            HandPiece::HGold => PieceType::Gold,
            HandPiece::HBishop => PieceType::Bishop,
            HandPiece::HRook => PieceType::Rook,
        }
    }

    pub fn from_piece_type(pt: PieceType) -> (r: Option<HandPiece>)
        ensures
            r == hand_piece_of(pt),
            r matches Some(hp) ==> hp.kind() == pt.base(),
    {
        match pt.unpromote() {
            PieceType::Pawn => Some(HandPiece::HPawn),
            PieceType::Lance => Some(HandPiece::HLance),
            PieceType::Knight => Some(HandPiece::HKnight),
            PieceType::Silver => Some(HandPiece::HSilver),
            PieceType::Gold => Some(HandPiece::HGold),
            PieceType::Bishop => Some(HandPiece::HBishop),
            PieceType::Rook => Some(HandPiece::HRook),
            _ => None,
        }
    }

    /// The USI letter of the kind.
    pub fn to_usi(self) -> (r: &'static str)
        ensures
            r@ == self.kind().usi_spec(),
    {
        self.to_piece_type().to_usi()
    }
}

/// The material value of a piece kind.
pub fn piece_value(pt: PieceType) -> (r: i32)
    ensures
        r == piece_value_spec(pt),
        0 <= r <= 15000,
{
    match pt {
        PieceType::Occupied => 0,
        PieceType::Pawn => 90,
        PieceType::Lance => 315,
        PieceType::Knight => 405,
        PieceType::Silver => 495,
        PieceType::Bishop => 855,
        PieceType::Rook => 990,
        PieceType::Gold => 540,
        PieceType::King => 15000,
        PieceType::ProPawn => 540,
        PieceType::ProLance => 540,
        PieceType::ProKnight => 540,
        PieceType::ProSilver => 540,
        PieceType::Horse => 1305,
        PieceType::Dragon => 1530,
    }
}

/// How the colour bit of a piece byte reads.
proof fn lemma_piece_bits(x: u8)
    by (bit_vector)
    ensures
        x < 15 ==> x | 0x10 == x + 16,
        (x & 0x10) == 0 <==> (x / 16) % 2 == 0,
        (x ^ 0x10) % 16 == x % 16,
        ((x ^ 0x10) / 16) % 2 != (x / 16) % 2,
{
}

} // verus!
