//! Reading and writing positions in SFEN: the board rank by rank from the
//! ninth file, the side to move, the pieces in hand and the move number.
use vstd::prelude::*;
use crate::types::{Color, Square, File, Rank, sq_file, sq_rank};
use crate::piece::{Piece, PieceType, piece_spec, piece_from_sfen_spec, uppercase, upper_first, is_uppercase, to_uppercase_first, ascii_lower};
use crate::hand::{Hand, hand_letter, hand_set_spec, digit_run, hand_letter_exec, lemma_digit_run};
use crate::text::{words, views_of, split_words, chars_of, is_digit, digit_value, is_digit_char, digits_value, parse_digits_u32, parse_u32, parse_u32_spec, decimal, push_char, push_decimal, ascii_lowercase, str_equals};
use crate::position::{Position, PosView, lemma_put_wf, start_piece};

verus! {

/// The board with no piece on it.
pub open spec fn empty_board() -> Seq<Piece> {
    Seq::new(81, |s: int| Piece(0))
}

/// `p` promoted, as `Piece::promote` gives it.
pub open spec fn promoted_piece(p: Piece) -> Option<Piece> {
    match p.kind().promoted() {
        Some(pt) => Some(piece_spec(p.owner(), pt)),
        None => None,
    }
}

/// The board read from the board part `cs` of an SFEN text, from position
/// `i` on, with the cursor on file index `file` (counting down from 8, the
/// ninth file) of rank index `rank`, a pending '+' when `promoted`, and the
/// pieces placed so far in `board`.  A '/' starts the next rank, a digit
/// skips that many files, '+' promotes the next piece; a piece off the
/// board, an unknown letter or a piece that cannot promote fails.
pub open spec fn board_from(cs: Seq<char>, i: int, file: int, rank: int, promoted: bool, board: Seq<Piece>) -> Option<
    Seq<Piece>,
>
    decreases cs.len() - i,
{
    if i >= cs.len() {
        Some(board)
    } else {
        let ch = cs[i];
        if ch == '/' {
            board_from(cs, i + 1, 8, rank + 1, promoted, board)
        } else if ch == '+' {
            board_from(cs, i + 1, file, rank, true, board)
        } else if is_digit(ch) {
            board_from(cs, i + 1, file - digit_value(ch), rank, promoted, board)
        } else {
            match piece_from_sfen_spec(ch) {
                None => None,
                Some(p) => {
                    let q = if promoted {
                        promoted_piece(p)
                    } else {
                        Some(p)
                    };
                    match q {
                        None => None,
                        Some(q) => if file < 0 || rank >= 9 {
                            None
                        } else {
                            board_from(cs, i + 1, file - 1, rank, false, board.update(file * 9 + rank, q))
                        },
                    }
                },
            }
        }
    }
}

/// The hands read from the hand part `cs` of an SFEN text after the words
/// `hb` (Black's) and `hw` (White's): a run of digits gives the count of the
/// piece whose letter follows (1 without a run); an uppercase letter is
/// Black's, any other White's; each entry sets (not adds to) that count.
pub open spec fn hands_parse(cs: Seq<char>, hb: u32, hw: u32) -> Option<(u32, u32)>
    decreases cs.len(),
{
    if cs.len() == 0 {
        Some((hb, hw))
    } else {
        let k = if is_digit(cs[0]) {
            digit_run(cs) as int
        } else {
            0
        };
        let count = if k > 0 {
            digits_value(cs.take(k))
        } else {
            1
        };
        if k > 0 && (count > u32::MAX || k >= cs.len()) {
            None
        } else {
            let pc = cs[k];
            match hand_letter(upper_first(pc)) {
                None => None,
                Some(hp) => if uppercase(pc) {
                    hands_parse(cs.skip(k + 1), hand_set_spec(hb, hp, count as u32), hw)
                } else {
                    hands_parse(cs.skip(k + 1), hb, hand_set_spec(hw, hp, count as u32))
                },
            }
        }
    }
}

/// The side named by the second word of an SFEN text.
pub open spec fn side_word(w: Seq<char>) -> Option<Color> {
    if w == seq!['b'] {
        Some(Color::Black)
    } else if w == seq!['w'] {
        Some(Color::White)
    } else {
        None
    }
}

/// The hands named by the third word of an SFEN text ("-" for none).
pub open spec fn hands_word(w: Seq<char>) -> Option<(u32, u32)> {
    if w == seq!['-'] {
        Some((0, 0))
    } else {
        hands_parse(w, 0, 0)
    }
}

/// The move number named by the words of an SFEN text: the fourth word read
/// as a number, 1 when it does not read as one, 0 when there is none.
pub open spec fn ply_words(ws: Seq<Seq<char>>) -> u32 {
    if ws.len() >= 4 {
        match parse_u32_spec(ws[3]) {
            Some(n) => n,
            None => 1,
        }
    } else {
        0
    }
}

/// What `Position::from_sfen` reads from `s`: the board, the side to move,
/// the two hand words and the move number; `None` when there are fewer than
/// three words or the board, side or hands do not read.
pub open spec fn sfen_read(s: Seq<char>) -> Option<(Seq<Piece>, Color, (u32, u32), u32)> {
    let ws = words(s);
    if ws.len() < 3 {
        None
    } else {
        match board_from(ws[0], 0, 8, 0, false, empty_board()) {
            None => None,
            Some(b) => match side_word(ws[1]) {
                None => None,
                Some(c) => match hands_word(ws[2]) {
                    None => None,
                    Some(h) => Some((b, c, h, ply_words(ws))),
                },
            },
        }
    }
}

/// The SFEN text of rank index `rank`, read from file index `file` down to
/// 0 with `run` empty squares not yet written, appended to `out`.
pub open spec fn row_text(board: Seq<Piece>, rank: int, file: int, run: nat, out: Seq<char>) -> Seq<char>
    decreases file + 1,
{
    if file < 0 {
        if run > 0 {
            out + decimal(run)
        } else {
            out
        }
    } else {
        let p = board[file * 9 + rank];
        if p.empty() {
            row_text(board, rank, file - 1, run + 1, out)
        } else {
            row_text(
                board,
                rank,
                file - 1,
                0,
                (if run > 0 {
                    out + decimal(run)
                } else {
                    out
                }) + p.sfen_spec(),
            )
        }
    }
}

/// The SFEN text of the first `n` ranks, each but the last followed by '/'.
pub open spec fn board_text(board: Seq<Piece>, n: int) -> Seq<char>
    decreases n,
{
    if n <= 0 {
        Seq::empty()
    } else {
        let row = row_text(board, n - 1, 8, 0, board_text(board, n - 1));
        if n - 1 < 8 {
            row.push('/')
        } else {
            row
        }
    }
}

/// The letter of the side to move.
pub open spec fn side_char(c: Color) -> char {
    match c {
        Color::Black => 'b',
        Color::White => 'w',
    }
}

/// The hands in SFEN: Black's entries then White's in lower case, or "-"
/// when both are empty.
pub open spec fn hands_text(b: Hand, w: Hand) -> Seq<char> {
    let bt = b.sfen_spec();
    let wt = w.sfen_spec();
    if bt == seq!['-'] && wt == seq!['-'] {
        seq!['-']
    } else {
        (if bt != seq!['-'] {
            bt
        } else {
            Seq::empty()
        }) + (if wt != seq!['-'] {
            ascii_lower(wt)
        } else {
            Seq::empty()
        })
    }
}

/// The SFEN text of a position.
pub open spec fn sfen_text(v: PosView) -> Seq<char> {
    board_text(v.board, 9) + seq![' ', side_char(v.side), ' '] + hands_text(v.hand[0], v.hand[1]) + seq![' ']
        + decimal(v.ply as nat)
}

/// Reads the board part of an SFEN text onto an empty position.
fn read_board(w: &Vec<char>) -> (r: Option<Position>)
    ensures
        match board_from(w@, 0, 8, 0, false, empty_board()) {
            None => r is None,
            Some(b) => r matches Some(p) && p@.wf() && p@.board == b && p@.hand[0].0 == 0 && p@.hand[1].0 == 0
                && p@.side == Color::Black && p@.ply == 0,
        },
{
    let mut pos = Position::empty();
    assert(pos@.board =~= empty_board());
    let n = w.len();
    let mut file: i128 = 8;
    let mut rank: usize = 0;
    let mut promoted = false;
    let mut i: usize = 0;
    while i < n
        invariant
            i <= n,
            n == w@.len(),
            pos@.wf(),
            pos@.hand[0].0 == 0 && pos@.hand[1].0 == 0,
            pos@.side == Color::Black,
            pos@.ply == 0,
            file <= 8,
            file >= 8 - 9 * i,
            rank <= i,
            board_from(w@, 0, 8, 0, false, empty_board()) == board_from(w@, i as int, file as int, rank as int, promoted, pos@.board),
            forall|s: int|
                0 <= s < 81 && (sq_rank(s) > rank || (sq_rank(s) == rank && sq_file(s) <= file)) ==> #[trigger] pos@.board[s].empty(),
        decreases n - i,
    {
        let ch = w[i];
        if ch == '/' {
            rank = rank + 1;
            file = 8;
        } else if ch == '+' {
            promoted = true;
        } else if is_digit_char(ch) {
            let d = (ch as u32 - 48) as i128;
            assert(d == digit_value(ch));
            file = file - d;
        } else {
            let piece = match Piece::from_sfen_char(ch) {
                Some(p) => p,
                None => return None,
            };
            let piece = if promoted {
                proof {
                    Piece::lemma_piece_spec(piece.owner(), piece.kind());
                    if piece.kind().promoted() is Some {
                        Piece::lemma_piece_spec(piece.owner(), piece.kind().promoted()->0);
                        assert(piece.kind().promoted()->0 != PieceType::Occupied);
                    }
                }
                match piece.promote() {
                    Some(q) => q,
                    None => return None,
                }
            } else {
                piece
            };
            promoted = false;
            if file < 0 || rank >= 9 {
                return None;
            }
            let sq = Square::new(File::from_u8(file as u8).unwrap(), Rank::from_u8(rank as u8).unwrap());
            let ghost s = sq.0 as int;
            proof {
                assert(s == file * 9 + rank);
                assert(sq_rank(s) == rank && sq_file(s) == file);
                lemma_put_wf(pos@, piece, s);
            }
            let ghost before = pos@;
            pos.put_piece(piece, sq);
            proof {
                assert(pos@.board == before.board.update(s, piece));
                assert forall|t: int|
                    0 <= t < 81 && (sq_rank(t) > rank || (sq_rank(t) == rank && sq_file(t) <= file - 1)) implies #[trigger] pos@.board[t].empty() by {
                    assert(t != s);
                    assert(before.board[t].empty());
                }
            }
            file = file - 1;
        }
        i = i + 1;
    }
    Some(pos)
}

/// Reads the hand part of an SFEN text (not "-"; see `hands_parse`).
fn read_hands(cs: &Vec<char>) -> (r: Option<(Hand, Hand)>)
    ensures
        match hands_parse(cs@, 0, 0) {
            None => r is None,
            Some((b, w)) => r == Some((Hand(b), Hand(w))),
        },
{
    let n = cs.len();
    let mut hb = Hand::EMPTY();
    let mut hw = Hand::EMPTY();
    assert(cs@.skip(0) =~= cs@);
    let mut i: usize = 0;
    while i < n
        invariant
            i <= n,
            n == cs@.len(),
            hands_parse(cs@, 0, 0) == hands_parse(cs@.skip(i as int), hb.0, hw.0),
        decreases n - i,
    {
        let ghost rest = cs@.skip(i as int);
        let ch = cs[i];
        let mut j = i;
        let mut count: u32 = 1;
        if is_digit_char(ch) {
            j = i + 1;
            while j < n && is_digit_char(cs[j])
                invariant
                    i < j <= n,
                    n == cs@.len(),
                    forall|k: int| i <= k < j ==> is_digit(#[trigger] cs@[k]),
                decreases n - j,
            {
                j = j + 1;
            }
            proof {
                lemma_digit_run(cs@, i as int, j as int);
                assert(cs@.skip(i as int).take((j - i) as int) =~= cs@.subrange(i as int, j as int));
            }
            let parsed = parse_digits_u32(cs, i, j);
            count = match parsed {
                Some(c) => c,
                None => return None,
            };
            if j >= n {
                return None;
            }
        }
        let pc = cs[j];
        assert(rest[(j - i) as int] == pc);
        let up = is_uppercase(pc);
        let letter = to_uppercase_first(pc).unwrap();
        let hp = match hand_letter_exec(letter) {
            Some(hp) => hp,
            None => return None,
        };
        if up {
            hb.set(hp, count);
        } else {
            hw.set(hp, count);
        }
        proof {
            assert(rest.skip((j - i) + 1) =~= cs@.skip(j + 1));
        }
        i = j + 1;
    }
    proof {
        assert(cs@.skip(n as int) =~= Seq::<char>::empty());
    }
    Some((hb, hw))
}

/// The initial piece on square `s`.
fn start_piece_exec(s: u8) -> (r: Piece)
    requires
        s < 81,
    ensures
        r == start_piece(s as int),
{
    let f = s / 9;
    let r = s % 9;
    if r == 0 || r == 8 {
        let c = if r == 0 {
            Color::White
        } else {
            Color::Black
        };
        let pt = if f == 0 || f == 8 {
            PieceType::Lance
        } else if f == 1 || f == 7 {
            PieceType::Knight
        } else if f == 2 || f == 6 {
            PieceType::Silver
        } else if f == 3 || f == 5 {
            PieceType::Gold
        } else {
            PieceType::King
        };
        Piece::new(c, pt)
    } else if r == 1 && f == 1 {
        Piece::new(Color::White, PieceType::Bishop)
    } else if r == 1 && f == 7 {
        Piece::new(Color::White, PieceType::Rook)
    } else if r == 7 && f == 7 {
        Piece::new(Color::Black, PieceType::Bishop)
    } else if r == 7 && f == 1 {
        Piece::new(Color::Black, PieceType::Rook)
    } else if r == 2 {
        Piece::new(Color::White, PieceType::Pawn)
    } else if r == 6 {
        Piece::new(Color::Black, PieceType::Pawn)
    } else {
        Piece(0)
    }
}

impl Position {
    /// The initial position: the standard arrangement, Black to move, no
    /// pieces in hand, move number 1.
    pub fn start_position() -> (r: Position)
        ensures
            r@.wf(),
            forall|s: int| 0 <= s < 81 ==> #[trigger] r@.board[s] == start_piece(s),
            r@.hand[0].0 == 0 && r@.hand[1].0 == 0,
            r@.side == Color::Black,
            r@.ply == 1,
    {
        let mut pos = Position::empty();
        let mut s: u8 = 0;
        while s < 81
            invariant
                s <= 81,
                pos@.wf(),
                pos@.hand[0].0 == 0 && pos@.hand[1].0 == 0,
                pos@.side == Color::Black,
                pos@.ply == 0,
                forall|t: int| 0 <= t < s ==> #[trigger] pos@.board[t] == start_piece(t),
                forall|t: int| s <= t < 81 ==> #[trigger] pos@.board[t] == Piece(0),
            decreases 81 - s,
        {
            let p = start_piece_exec(s);
            if !p.is_empty() {
                proof {
                    assert(p.valid_kind() && p.0 < 32);
                    lemma_put_wf(pos@, p, s as int);
                }
                pos.put_piece(p, Square(s));
            }
            s = s + 1;
        }
        pos.ply = 1;
        pos
    }

    /// Reads a position from SFEN (see `sfen_read`): `None` exactly when the
    /// text has fewer than three words or its board, side or hands do not
    /// read.  The bitboards are built to agree with the board.
    pub fn from_sfen(sfen: &str) -> (r: Option<Position>)
        ensures
            match sfen_read(sfen@) {
                None => r is None,
                Some((b, c, h, ply)) => r matches Some(p) && p@.wf() && p@.board == b && p@.side == c && p@.hand[0]
                    == Hand(h.0) && p@.hand[1] == Hand(h.1) && p@.ply == ply,
            },
    {
        let cs = chars_of(sfen);
        let parts = split_words(&cs);
        let ghost ws = words(sfen@);
        assert(ws.len() == parts@.len());
        if parts.len() < 3 {
            return None;
        }
        assert(ws[0] == parts@[0]@ && ws[1] == parts@[1]@ && ws[2] == parts@[2]@);
        let mut pos = match read_board(&parts[0]) {
            Some(p) => p,
            None => return None,
        };
        let side_w = &parts[1];
        let side = if side_w.len() == 1 && side_w[0] == 'b' {
            assert(side_w@ =~= seq!['b']);
            Color::Black
        } else if side_w.len() == 1 && side_w[0] == 'w' {
            assert(side_w@ =~= seq!['w']);
            Color::White
        } else {
            proof {
                if side_w@ == seq!['b'] || side_w@ == seq!['w'] {
                    assert(side_w@.len() == 1 && (side_w@[0] == 'b' || side_w@[0] == 'w'));
                }
            }
            return None;
        };
        pos.side_to_move = side;
        let hand_w = &parts[2];
        if hand_w.len() == 1 && hand_w[0] == '-' {
            assert(hand_w@ =~= seq!['-']);
        } else {
            proof {
                if hand_w@ == seq!['-'] {
                    assert(hand_w@.len() == 1 && hand_w@[0] == '-');
                }
            }
            let (hb, hw) = match read_hands(hand_w) {
                Some(h) => h,
                None => return None,
            };
            pos.hand[0] = hb;
            pos.hand[1] = hw;
        }
        if parts.len() >= 4 {
            assert(ws[3] == parts@[3]@);
            pos.ply = match parse_u32(&parts[3]) {
                Some(n) => n,
                None => 1,
            };
        }
        Some(pos)
    }

    /// The position in SFEN (see `sfen_text`).
    pub fn to_sfen(&self) -> (r: String)
        requires
            self@.pieces_ok(),
        ensures
            r@ == sfen_text(self@),
    {
        let mut sfen = String::new();
        let mut rank: u8 = 0;
        while rank < 9
            invariant
                rank <= 9,
                self@.pieces_ok(),
                sfen@ == board_text(self@.board, rank as int),
            decreases 9 - rank,
        {
            let ghost start = sfen@;
            let mut empty_count: u32 = 0;
            let mut file: u8 = 9;
            while file > 0
                invariant
                    file <= 9,
                    rank < 9,
                    empty_count <= 9 - file,
                    self@.pieces_ok(),
                    row_text(self@.board, rank as int, 8, 0, start) == row_text(
                        self@.board,
                        rank as int,
                        file - 1,
                        empty_count as nat,
                        sfen@,
                    ),
                decreases file,
            {
                file = file - 1;
                let sq = Square::new(File::from_u8(file).unwrap(), Rank::from_u8(rank).unwrap());
                let piece = self.piece_at(sq);
                if piece.is_empty() {
                    empty_count = empty_count + 1;
                } else {
                    if empty_count > 0 {
                        push_decimal(&mut sfen, empty_count);
                        empty_count = 0;
                    }
                    let ps = piece.to_sfen();
                    let ghost mid = sfen@;
                    push_str_chars(&mut sfen, &ps);
                    assert(sfen@ == mid + piece.sfen_spec());
                }
            }
            if empty_count > 0 {
                push_decimal(&mut sfen, empty_count);
            }
            if rank < 8 {
                push_char(&mut sfen, '/');
            }
            rank = rank + 1;
        }
        push_char(&mut sfen, ' ');
        push_char(
            &mut sfen,
            match self.side_to_move {
                Color::Black => 'b',
                Color::White => 'w',
            },
        );
        push_char(&mut sfen, ' ');
        let ghost before_hands = sfen@;
        let black_hand = self.hand[0].to_sfen();
        let white_hand = self.hand[1].to_sfen();
        let b_dash = is_dash(&black_hand);
        let w_dash = is_dash(&white_hand);
        if b_dash && w_dash {
            push_char(&mut sfen, '-');
        } else {
            if !b_dash {
                push_str_chars(&mut sfen, &black_hand);
            }
            if !w_dash {
                let wl = ascii_lowercase(&chars_of(white_hand.as_str()));
                push_chars(&mut sfen, &wl);
            }
        }
        assert(sfen@ == before_hands + hands_text(self@.hand[0], self@.hand[1]));
        push_char(&mut sfen, ' ');
        push_decimal(&mut sfen, self.ply);
        sfen
    }
}

/// Whether a string is "-".
fn is_dash(s: &String) -> (r: bool)
    ensures
        r == (s@ == seq!['-']),
{
    let cs = chars_of(s.as_str());
    if cs.len() == 1 && cs[0] == '-' {
        assert(cs@ =~= seq!['-']);
        true
    } else {
        proof {
            if s@ == seq!['-'] {
                assert(cs@.len() == 1 && cs@[0] == '-');
            }
        }
        false
    }
}

/// Appends the characters of `t`.
fn push_chars(s: &mut String, t: &Vec<char>)
    ensures
        final(s)@ == old(s)@ + t@,
{
    let n = t.len();
    let mut i: usize = 0;
    while i < n
        invariant
            i <= n,
            n == t@.len(),
            s@ == old(s)@ + t@.subrange(0, i as int),
        decreases n - i,
    {
        push_char(s, t[i]);
        i = i + 1;
        assert(s@ =~= old(s)@ + t@.subrange(0, i as int));
    }
    assert(t@.subrange(0, n as int) =~= t@);
}

/// Appends a string.
fn push_str_chars(s: &mut String, t: &String)
    ensures
        final(s)@ == old(s)@ + t@,
{
    let cs = chars_of(t.as_str());
    push_chars(s, &cs);
}

} // verus!
