//! Basic board coordinates: colours, files, ranks and squares.
//!
//! Squares are numbered `file * 9 + rank`, so that 1a (file 1, rank 1) is
//! square 0 and 9i is square 80.
use vstd::prelude::*;

verus! {

/// The side to move or the owner of a piece.
#[derive(Debug, Clone, Copy, PartialEq, Eq, Structural)]
pub enum Color {
    Black,
    White,
}

impl Color {
    /// The index of the colour in per-colour tables.
    pub open spec fn index(self) -> int {
        match self {
            Color::Black => 0,
            Color::White => 1,
        }
    }

    /// The other colour.
    pub open spec fn opp(self) -> Color {
        match self {
            Color::Black => Color::White,
            Color::White => Color::Black,
        }
    }

    pub fn opposite(self) -> (r: Color)
        ensures
            r == self.opp(),
            r != self,
    {
        match self {
            Color::Black => Color::White,
            Color::White => Color::Black,
        }
    }

    pub fn from_u8(v: u8) -> (r: Option<Color>)
        ensures
            v == 0 ==> r == Some(Color::Black),
            v == 1 ==> r == Some(Color::White),
            v > 1 ==> r is None,
    {
        match v {
            0 => Some(Color::Black),
            1 => Some(Color::White),
            _ => None,
        }
    }

    /// The index of the colour in per-colour tables.
    pub fn to_index(self) -> (r: usize)
        ensures
            r == self.index(),
    {
        match self {
            Color::Black => 0,
            Color::White => 1,
        }
    }
}

impl core::ops::Not for Color {
    type Output = Color;

    fn not(self) -> (r: Color) {
        self.opposite()
    }
}

impl vstd::std_specs::ops::NotSpecImpl for Color {
    open spec fn obeys_not_spec() -> bool {
        true
    }

    open spec fn not_req(self) -> bool {
        true
    }

    open spec fn not_spec(self) -> Color {
        self.opp()
    }
}

/// A file (column), numbered 1 to 9; `File1` is the rightmost file seen by Black.
#[derive(Debug, Clone, Copy, PartialEq, Eq, Structural)]
pub enum File {
    File1,
    File2,
    File3,
    File4,
    File5,
    File6,
    File7,
    File8,
    File9,
}

/// The file whose zero-based index is `v`, for `v < 9`.
pub open spec fn file_of_index(v: int) -> File {
    if v == 0 {
        File::File1
    } else if v == 1 {
        File::File2
    } else if v == 2 {
        File::File3
    } else if v == 3 {
        File::File4
    } else if v == 4 {
        File::File5
    } else if v == 5 {
        File::File6
    } else if v == 6 {
        File::File7
    } else if v == 7 {
        File::File8
    } else {
        File::File9
    }
}

impl File {
    pub const NUM: usize = 9;

    /// Zero-based index of the file.
    pub open spec fn value(self) -> int {
        match self {
            File::File1 => 0,
            File::File2 => 1,
            File::File3 => 2,
            File::File4 => 3,
            File::File5 => 4,
            File::File6 => 5,
            File::File7 => 6,
            File::File8 => 7,
            File::File9 => 8,
        }
    }

    pub proof fn lemma_value(self)
        ensures
            0 <= self.value() < 9,
            file_of_index(self.value()) == self,
    {
    }

    pub fn from_u8(v: u8) -> (r: Option<File>)
        ensures
            v < 9 ==> r == Some(file_of_index(v as int)) && r->0.value() == v,
            v >= 9 ==> r is None,
    {
        match v {
            0 => Some(File::File1),
            1 => Some(File::File2),
            2 => Some(File::File3),
            3 => Some(File::File4),
            4 => Some(File::File5),
            5 => Some(File::File6),
            6 => Some(File::File7),
            7 => Some(File::File8),
            8 => Some(File::File9),
            _ => None,
        }
    }

    pub fn to_u8(self) -> (r: u8)
        ensures
            r == self.value(),
            r < 9,
    {
        match self {
            File::File1 => 0,
            File::File2 => 1,
            File::File3 => 2,
            File::File4 => 3,
            File::File5 => 4,
            File::File6 => 5,
            File::File7 => 6,
            File::File8 => 7,
            File::File9 => 8,
        }
    }

    /// The digit that names the file in USI notation ('1' to '9').
    pub open spec fn char_of(self) -> char {
        match self {
            File::File1 => '1',
            File::File2 => '2',
            File::File3 => '3',
            File::File4 => '4',
            File::File5 => '5',
            File::File6 => '6',
            File::File7 => '7',
            File::File8 => '8',
            File::File9 => '9',
        }
    }

    pub fn to_char(self) -> (r: char)
        ensures
            r == self.char_of(),
            r as int == '1' as int + self.value(),
    {
        match self {
            File::File1 => '1',
            File::File2 => '2',
            File::File3 => '3',
            File::File4 => '4',
            File::File5 => '5',
            File::File6 => '6',
            File::File7 => '7',
            File::File8 => '8',
            File::File9 => '9',
        }
    }

    /// The file `delta` files away, if it is on the board.
    pub fn add(self, delta: i32) -> (r: Option<File>)
        requires
            delta <= i32::MAX - 8,
        ensures
            0 <= self.value() + delta < 9 ==> r == Some(file_of_index(self.value() + delta)),
            !(0 <= self.value() + delta < 9) ==> r is None,
    {
        let new_val = (self.to_u8() as i32) + delta;
        if new_val >= 0 && new_val < 9 {
            File::from_u8(new_val as u8)
        } else {
            None
        }
    }

    /// The file `delta` files back, if it is on the board.
    pub fn sub(self, delta: i32) -> (r: Option<File>)
        requires
            delta >= -(i32::MAX - 8),
        ensures
            0 <= self.value() - delta < 9 ==> r == Some(file_of_index(self.value() - delta)),
            !(0 <= self.value() - delta < 9) ==> r is None,
    {
        self.add(-delta)
    }
}

/// A rank (row), numbered 1 to 9 (written 'a' to 'i'); `Rank1` is White's back rank.
#[derive(Debug, Clone, Copy, PartialEq, Eq, Structural)]
pub enum Rank {
    Rank1,
    Rank2,
    Rank3,
    Rank4,
    Rank5,
    Rank6,
    Rank7,
    Rank8,
    Rank9,
}

/// The rank whose zero-based index is `v`, for `v < 9`.
pub open spec fn rank_of_index(v: int) -> Rank {
    if v == 0 {
        Rank::Rank1
    } else if v == 1 {
        Rank::Rank2
    } else if v == 2 {
        Rank::Rank3
    } else if v == 3 {
        Rank::Rank4
    } else if v == 4 {
        Rank::Rank5
    } else if v == 5 {
        Rank::Rank6
    } else if v == 6 {
        Rank::Rank7
    } else if v == 7 {
        Rank::Rank8
    } else {
        Rank::Rank9
    }
}

impl Rank {
    pub const NUM: usize = 9;

    /// Zero-based index of the rank.
    pub open spec fn value(self) -> int {
        match self {
            Rank::Rank1 => 0,
            Rank::Rank2 => 1,
            Rank::Rank3 => 2,
            Rank::Rank4 => 3,
            Rank::Rank5 => 4,
            Rank::Rank6 => 5,
            Rank::Rank7 => 6,
            Rank::Rank8 => 7,
            Rank::Rank9 => 8,
        }
    }

    pub proof fn lemma_value(self)
        ensures
            0 <= self.value() < 9,
            rank_of_index(self.value()) == self,
    {
    }

    pub fn from_u8(v: u8) -> (r: Option<Rank>)
        ensures
            v < 9 ==> r == Some(rank_of_index(v as int)) && r->0.value() == v,
            v >= 9 ==> r is None,
    {
        match v {
            0 => Some(Rank::Rank1),
            1 => Some(Rank::Rank2),
            2 => Some(Rank::Rank3),
            3 => Some(Rank::Rank4),
            4 => Some(Rank::Rank5),
            5 => Some(Rank::Rank6),
            6 => Some(Rank::Rank7),
            7 => Some(Rank::Rank8),
            8 => Some(Rank::Rank9),
            _ => None,
        }
    }

    pub fn to_u8(self) -> (r: u8)
        ensures
            r == self.value(),
            r < 9,
    {
        match self {
            Rank::Rank1 => 0,
            Rank::Rank2 => 1,
            Rank::Rank3 => 2,
            Rank::Rank4 => 3,
            Rank::Rank5 => 4,
            Rank::Rank6 => 5,
            Rank::Rank7 => 6,
            Rank::Rank8 => 7,
            Rank::Rank9 => 8,
        }
    }

    /// The letter that names the rank in USI notation ('a' to 'i').
    pub open spec fn char_of(self) -> char {
        match self {
            Rank::Rank1 => 'a',
            Rank::Rank2 => 'b',
            Rank::Rank3 => 'c',
            Rank::Rank4 => 'd',
            Rank::Rank5 => 'e',
            Rank::Rank6 => 'f',
            Rank::Rank7 => 'g',
            Rank::Rank8 => 'h',
            Rank::Rank9 => 'i',
        }
    }

    pub fn to_char(self) -> (r: char)
        ensures
            r == self.char_of(),
            r as int == 'a' as int + self.value(),
    {
        match self {
            Rank::Rank1 => 'a',
            Rank::Rank2 => 'b',
            Rank::Rank3 => 'c',
            Rank::Rank4 => 'd',
            Rank::Rank5 => 'e',
            Rank::Rank6 => 'f',
            Rank::Rank7 => 'g',
            Rank::Rank8 => 'h',
            Rank::Rank9 => 'i',
        }
    }

    /// The rank `delta` ranks away, if it is on the board.
    pub fn add(self, delta: i32) -> (r: Option<Rank>)
        requires
            delta <= i32::MAX - 8,
        ensures
            0 <= self.value() + delta < 9 ==> r == Some(rank_of_index(self.value() + delta)),
            !(0 <= self.value() + delta < 9) ==> r is None,
    {
        let new_val = (self.to_u8() as i32) + delta;
        if new_val >= 0 && new_val < 9 {
            Rank::from_u8(new_val as u8)
        } else {
            None
        }
    }

    /// The rank `delta` ranks back, if it is on the board.
    pub fn sub(self, delta: i32) -> (r: Option<Rank>)
        requires
            delta >= -(i32::MAX - 8),
        ensures
            0 <= self.value() - delta < 9 ==> r == Some(rank_of_index(self.value() - delta)),
            !(0 <= self.value() - delta < 9) ==> r is None,
    {
        self.add(-delta)
    }
}

/// A square, `file * 9 + rank`; squares on the board are 0 to 80.
#[derive(Debug, Clone, Copy, PartialEq, Eq, Structural)]
pub struct Square(pub u8);

/// Zero-based file index of square number `s`.
pub open spec fn sq_file(s: int) -> int {
    s / 9
}

/// Zero-based rank index of square number `s`.
pub open spec fn sq_rank(s: int) -> int {
    s % 9
}

pub open spec fn abs_int(x: int) -> int {
    if x < 0 {
        -x
    } else {
        x
    }
}

/// The square one step from `s` by `d` (a difference of square numbers), or
/// `None` when that leaves the board or wraps round an edge.
pub open spec fn step(s: int, d: int) -> Option<int> {
    let n = s + d;
    if n < 0 || n >= 81 {
        None
    } else if abs_int(sq_file(n) - sq_file(s)) > 1 || abs_int(sq_rank(n) - sq_rank(s)) > 1 {
        None
    } else {
        Some(n)
    }
}

/// Whether a square on rank index `r` lies in the promotion zone of `c`.
pub open spec fn in_promotion_zone(c: Color, r: int) -> bool {
    match c {
        Color::Black => r <= 2,
        Color::White => r >= 6,
    }
}

/// The square named by a USI coordinate such as "7g", as `Square::from_usi` reads it:
/// a digit '1'..'9' for the file and a character whose low byte is 'a'..'i' for the rank.
pub open spec fn square_from_usi_spec(s: Seq<char>) -> Option<Square> {
    if s.len() != 2 {
        None
    } else {
        let f = s[0] as int - '0' as int;
        let r = (s[1] as int) % 256 - 'a' as int;
        if 1 <= f <= 9 && 0 <= r < 9 {
            Some(Square(((f - 1) * 9 + r) as u8))
        } else {
            None
        }
    }
}

/// The USI coordinate of an on-board square, e.g. "7g".
pub open spec fn square_usi_spec(s: int) -> Seq<char> {
    seq![file_of_index(sq_file(s)).char_of(), rank_of_index(sq_rank(s)).char_of()]
}

/// A text of ASCII characters names a square exactly when it is one digit
/// from 1 to 9 followed by one letter from a to i.
pub proof fn lemma_square_from_usi_shape(s: Seq<char>)
    requires
        forall|i: int| 0 <= i < s.len() ==> '\0' <= #[trigger] s[i] <= '\u{7f}',
    ensures
        square_from_usi_spec(s) is Some <==> (s.len() == 2 && '1' <= s[0] <= '9' && 'a' <= s[1] <= 'i'),
{
    if s.len() == 2 {
        assert('\0' <= s[1] <= '\u{7f}');
        assert(0 <= s[1] as int <= 127);
        vstd::arithmetic::div_mod::lemma_small_mod((s[1] as int) as nat, 256);
    }
}

/// Reading back the USI coordinate of a square on the board gives that
/// square again.
pub proof fn lemma_square_usi_roundtrip(sq: Square)
    requires
        sq.on_board(),
    ensures
        square_from_usi_spec(square_usi_spec(sq.0 as int)) == Some(sq),
{
    let s = sq.0 as int;
    let f = sq_file(s);
    let r = sq_rank(s);
    assert(0 <= f < 9 && 0 <= r < 9 && s == f * 9 + r);
    assert(file_of_index(f).char_of() as int == '1' as int + f);
    assert(rank_of_index(r).char_of() as int == 'a' as int + r);
}

impl Square {
    pub const NUM: usize = 81;

    /// Square 1a, number 0.
    #[allow(non_snake_case)]
    pub fn SQ11() -> (r: Square)
        ensures
            r.0 == 0,
    {
        Square(0)
    }

    /// Square 9i, number 80.
    #[allow(non_snake_case)]
    pub fn SQ99() -> (r: Square)
        ensures
            r.0 == 80,
    {
        Square(80)
    }

    /// The square on the board with this number.
    pub open spec fn on_board(self) -> bool {
        self.0 < 81
    }

    pub fn new(file: File, rank: Rank) -> (r: Square)
        ensures
            r.0 == file.value() * 9 + rank.value(),
            r.on_board(),
            sq_file(r.0 as int) == file.value(),
            sq_rank(r.0 as int) == rank.value(),
    {
        Square(file.to_u8() * 9 + rank.to_u8())
    }

    pub fn from_u8(v: u8) -> (r: Option<Square>)
        ensures
            v < 81 ==> r == Some(Square(v)),
            v >= 81 ==> r is None,
    {
        if v < 81 {
            Some(Square(v))
        } else {
            None
        }
    }

    pub fn file(self) -> (r: File)
        requires
            self.on_board(),
        ensures
            r.value() == sq_file(self.0 as int),
            r == file_of_index(sq_file(self.0 as int)),
    {
        File::from_u8(self.0 / 9).unwrap()
    }

    pub fn rank(self) -> (r: Rank)
        ensures
            r.value() == sq_rank(self.0 as int),
            r == rank_of_index(sq_rank(self.0 as int)),
    {
        Rank::from_u8(self.0 % 9).unwrap()
    }

    pub fn is_valid(self) -> (r: bool)
        ensures
            r == self.on_board(),
    {
        self.0 < 81
    }

    /// The USI coordinate of the square, e.g. "7g".
    pub fn to_usi(self) -> (r: String)
        requires
            self.on_board(),
        ensures
            r@ == square_usi_spec(self.0 as int),
    {
        let mut s = String::new();
        crate::text::push_char(&mut s, self.file().to_char());
        crate::text::push_char(&mut s, self.rank().to_char());
        proof {
            assert(s@ =~= square_usi_spec(self.0 as int));
        }
        s
    }

    /// Reads a USI coordinate such as "7g".
    pub fn from_usi(s: &str) -> (r: Option<Square>)
        ensures
            r == square_from_usi_spec(s@),
            r matches Some(sq) ==> sq.on_board(),
    {
        let n = s.unicode_len();
        if n != 2 {
            return None;
        }
        let c0 = s.get_char(0);
        let c1 = s.get_char(1);
        let d = c0 as u32;
        if d < 48 || d > 57 {
            return None;
        }
        let file = d - 48;
        let low = (c1 as u32) % 256;
        if file == 0 || file > 9 || low < 97 || low >= 106 {
            return None;
        }
        let rank = low - 97;
        let f = File::from_u8((file - 1) as u8).unwrap();
        let r = Rank::from_u8(rank as u8).unwrap();
        Some(Square::new(f, r))
    }

    /// Whether the square lies in the promotion zone (the far three ranks) of `c`.
    pub fn can_promote(self, c: Color) -> (r: bool)
        ensures
            r == in_promotion_zone(c, sq_rank(self.0 as int)),
    {
        match c {
            Color::Black => self.rank().to_u8() <= 2,
            Color::White => self.rank().to_u8() >= 6,
        }
    }
}

/// A difference between two square numbers, one step in some direction.
#[derive(Debug, Clone, Copy, PartialEq, Eq, Structural)]
pub struct SquareDelta(pub i8);

impl SquareDelta {
    /// Towards rank 1 (Black's forward).
    #[allow(non_snake_case)]
    pub fn N() -> (r: SquareDelta)
        ensures
            r.0 == -1,
    {
        SquareDelta(-1)
    }

    /// Towards rank 9.
    #[allow(non_snake_case)]
    pub fn S() -> (r: SquareDelta)
        ensures
            r.0 == 1,
    {
        SquareDelta(1)
    }

    /// Towards file 9 (the ninth file is the edge in this direction).
    #[allow(non_snake_case)]
    pub fn E() -> (r: SquareDelta)
        ensures
            r.0 == 9,
    {
        SquareDelta(9)
    }

    /// Towards file 1.
    #[allow(non_snake_case)]
    pub fn W() -> (r: SquareDelta)
        ensures
            r.0 == -9,
    {
        SquareDelta(-9)
    }

    /// North and east together.
    #[allow(non_snake_case)]
    pub fn NE() -> (r: SquareDelta)
        ensures
            r.0 == 8,
    {
        SquareDelta(8)
    }

    /// North and west together.
    #[allow(non_snake_case)]
    pub fn NW() -> (r: SquareDelta)
        ensures
            r.0 == -10,
    {
        SquareDelta(-10)
    }

    /// South and east together.
    #[allow(non_snake_case)]
    pub fn SE() -> (r: SquareDelta)
        ensures
            r.0 == 10,
    {
        SquareDelta(10)
    }

    /// South and west together.
    #[allow(non_snake_case)]
    pub fn SW() -> (r: SquareDelta)
        ensures
            r.0 == -8,
    {
        SquareDelta(-8)
    }
}

/// What `square + delta` gives for a square on the board.
pub open spec fn square_add_spec(s: Square, d: SquareDelta) -> Option<Square> {
    match step(s.0 as int, d.0 as int) {
        Some(n) => Some(Square(n as u8)),
        None => None,
    }
}

/// The inputs on which `square + delta` is defined: the sum fits in an `i8` and,
/// when it lands on the board, the starting square is on the board too.
pub open spec fn square_add_ok(s: Square, d: SquareDelta) -> bool {
    let n = (s.0 as i8) as int + d.0 as int;
    &&& -128 <= n < 128
    &&& (0 <= n < 81 ==> s.on_board())
}

impl core::ops::Add<SquareDelta> for Square {
    type Output = Option<Square>;

    fn add(self, delta: SquareDelta) -> (r: Option<Square>) {
        let new_sq = self.0 as i8 + delta.0;
        if new_sq < 0 || new_sq >= 81 {
            return None;
        }
        let old_file = self.file();
        let old_rank = self.rank();
        let new_square = Square(new_sq as u8);
        let new_file = new_square.file();
        let new_rank = new_square.rank();
        let fd = new_file.to_u8() as i8 - old_file.to_u8() as i8;
        let rd = new_rank.to_u8() as i8 - old_rank.to_u8() as i8;
        let file_diff = if fd < 0 {
            -fd
        } else {
            fd
        };
        let rank_diff = if rd < 0 {
            -rd
        } else {
            rd
        };
        if file_diff > 1 || rank_diff > 1 {
            return None;
        }
        Some(new_square)
    }
}

impl vstd::std_specs::ops::AddSpecImpl<SquareDelta> for Square {
    open spec fn obeys_add_spec() -> bool {
        true
    }

    open spec fn add_req(self, rhs: SquareDelta) -> bool {
        square_add_ok(self, rhs)
    }

    open spec fn add_spec(self, rhs: SquareDelta) -> Option<Square> {
        square_add_spec(self, rhs)
    }
}

} // verus!
