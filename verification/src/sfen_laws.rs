//! Writing a position in SFEN and reading it back gives the position again.
use vstd::prelude::*;
use crate::types::{Color, sq_file, sq_rank};
use crate::piece::{Piece, PieceType, HandPiece, piece_spec, piece_from_sfen_spec, piece_type_of_code, ascii_lower, uppercase, upper_first, letter_piece_type};
use crate::text::{is_digit, digit_value, digit_char, decimal, lemma_decimal, all_digits, graphic, all_graphic, lemma_words4, lemma_parse_decimal, words};
use crate::sfen::{board_from, promoted_piece, empty_board, row_text, board_text, hands_parse, hands_word, hands_text, side_char, side_word, ply_words, sfen_read, sfen_text};
use crate::position::PosView;
use crate::moves::Move;
use crate::bitboard::Bitboard;
use crate::hand::{Hand, hand_entry, hand_char, hand_set_spec, hand_field_max, hand_upto, hand_fields_mask, sfen_order, lemma_entry_digits, lemma_upto_full, lemma_prefix_chars, lemma_hand_sfen_roundtrip};

verus! {

/// The state of the board reader: the file index of the cursor, the rank
/// index, whether a '+' is pending, and the board read so far.
pub type ReadState = (int, int, bool, Seq<Piece>);

/// One character of the board part of an SFEN text, read as `board_from`
/// reads it.
pub open spec fn board_step(ch: char, st: ReadState) -> Option<ReadState> {
    if ch == '/' {
        Some((8, st.1 + 1, st.2, st.3))
    } else if ch == '+' {
        Some((st.0, st.1, true, st.3))
    } else if is_digit(ch) {
        Some((st.0 - digit_value(ch), st.1, st.2, st.3))
    } else {
        match piece_from_sfen_spec(ch) {
            None => None,
            Some(p) => {
                let q = if st.2 {
                    promoted_piece(p)
                } else {
                    Some(p)
                };
                match q {
                    None => None,
                    Some(q) => if st.0 < 0 || st.1 >= 9 {
                        None
                    } else {
                        Some((st.0 - 1, st.1, false, st.3.update(st.0 * 9 + st.1, q)))
                    },
                }
            },
        }
    }
}

/// The reader's state after the characters `s`, from state `st`.
pub open spec fn board_steps(s: Seq<char>, st: ReadState) -> Option<ReadState>
    decreases s.len(),
{
    if s.len() == 0 {
        Some(st)
    } else {
        match board_step(s[0], st) {
            None => None,
            Some(st2) => board_steps(s.drop_first(), st2),
        }
    }
}

/// Reading a stretch `s` of the text at position `i` moves the reader from
/// `st` to the state `board_steps` gives.
proof fn lemma_board_chunk(cs: Seq<char>, i: int, s: Seq<char>, st: ReadState)
    requires
        0 <= i,
        i + s.len() <= cs.len(),
        cs.subrange(i, i + s.len()) == s,
    ensures
        board_from(cs, i, st.0, st.1, st.2, st.3) == match board_steps(s, st) {
            None => None,
            Some(st2) => board_from(cs, i + s.len(), st2.0, st2.1, st2.2, st2.3),
        },
    decreases s.len(),
{
    if s.len() > 0 {
        assert(cs[i] == s[0]);
        assert(cs.subrange(i + 1, i + 1 + s.drop_first().len()) =~= s.drop_first());
        match board_step(s[0], st) {
            None => {},
            Some(st2) => {
                lemma_board_chunk(cs, i + 1, s.drop_first(), st2);
            },
        }
    }
}

/// Reading `a + b` is reading `a`, then `b`.
proof fn lemma_steps_append(a: Seq<char>, b: Seq<char>, st: ReadState)
    ensures
        board_steps(a + b, st) == match board_steps(a, st) {
            None => None,
            Some(st2) => board_steps(b, st2),
        },
    decreases a.len(),
{
    if a.len() == 0 {
        assert(a + b =~= b);
    } else {
        assert((a + b)[0] == a[0]);
        assert((a + b).drop_first() =~= a.drop_first() + b);
        match board_step(a[0], st) {
            None => {},
            Some(st2) => {
                lemma_steps_append(a.drop_first(), b, st2);
            },
        }
    }
}

/// Reading the SFEN text of a piece of a kind that has a letter puts it
/// under the cursor and moves the cursor one file on.
proof fn lemma_piece_steps(p: Piece, f: int, r: int, b: Seq<Piece>)
    requires
        p.0 < 32,
        1 <= p.kind_code() <= 14,
        0 <= f < 9,
        0 <= r < 9,
    ensures
        board_steps(p.sfen_spec(), (f, r, false, b)) == Some((f - 1, r, false, b.update(f * 9 + r, p))),
{
    let k = p.kind();
    let o = p.owner();
    assert(k.code() == p.kind_code());
    assert(p == piece_spec(o, k));
    let t = p.sfen_spec();
    let st = (f, r, false, b);
    let done = (f - 1, r, false, b.update(f * 9 + r, p));
    if p.kind_code() <= 8 {
        let up = k.usi_spec()[0];
        assert('A' <= up <= 'Z') by {
            lemma_kind_letter(k);
        }
        assert(letter_piece_type(up) == Some(k)) by {
            lemma_kind_letter(k);
        }
        let ch = if o == Color::Black {
            up
        } else {
            ((up as int) + 32) as char
        };
        assert(t =~= seq![ch]);
        assert(uppercase(ch) == (o == Color::Black));
        assert(piece_from_sfen_spec(ch) == Some(p));
        assert(board_step(ch, st) == Some(done));
        assert(t.drop_first() =~= Seq::<char>::empty());
        assert(board_steps(t.drop_first(), done) == Some(done));
        assert(t[0] == ch);
    } else {
        let base = k.base();
        let up = base.usi_spec()[0];
        assert('A' <= up <= 'Z' && letter_piece_type(up) == Some(base)) by {
            lemma_kind_letter(base);
        }
        assert(base.promoted() == Some(k));
        crate::piece::Piece::lemma_piece_spec(o, base);
        assert(promoted_piece(piece_spec(o, base)) == Some(p));
        let ch = if o == Color::Black {
            up
        } else {
            ((up as int) + 32) as char
        };
        assert(t =~= seq!['+', ch]);
        assert(uppercase(ch) == (o == Color::Black));
        assert(piece_from_sfen_spec(ch) == Some(piece_spec(o, base)));
        assert(board_step('+', st) == Some((f, r, true, b)));
        assert(board_step(ch, (f, r, true, b)) == Some(done));
        let t1 = t.drop_first();
        assert(t1 =~= seq![ch]);
        assert(t1.drop_first() =~= Seq::<char>::empty());
        assert(board_steps(t1.drop_first(), done) == Some(done));
        assert(t1[0] == ch);
        assert(board_steps(t1, (f, r, true, b)) == Some(done));
        assert(t[0] == '+');
    }
}

/// The letter of an unpromoted kind other than the empty one is a capital
/// that names that kind.
proof fn lemma_kind_letter(k: PieceType)
    requires
        1 <= k.code() <= 8,
    ensures
        k.usi_spec().len() == 1,
        'A' <= k.usi_spec()[0] <= 'Z',
        letter_piece_type(k.usi_spec()[0]) == Some(k),
        k.sfen_spec() == k.usi_spec(),
{
}


/// Every square holds the empty square or a piece of a kind that has a letter.
pub open spec fn board_writable(board: Seq<Piece>) -> bool {
    &&& board.len() == 81
    &&& forall|s: int| #![trigger board[s]] 0 <= s < 81 ==> board[s].0 == 0 || (1 <= board[s].kind_code() <= 14 && board[s].0 < 32)
}

/// `b` with the squares of rank index `r` up to file index `m` taken from `board`.
pub open spec fn fill_rank(b: Seq<Piece>, board: Seq<Piece>, r: int, m: int) -> Seq<Piece> {
    Seq::new(81, |s: int| if sq_rank(s) == r && sq_file(s) <= m { board[s] } else { b[s] })
}

/// Reading the digit of a run of one to nine empty squares moves the cursor
/// that many files on.
proof fn lemma_digit_steps(n: int, st: ReadState)
    requires
        1 <= n <= 9,
    ensures
        board_steps(decimal(n as nat), st) == Some((st.0 - n, st.1, st.2, st.3)),
{
    let t = decimal(n as nat);
    let c = digit_char(n);
    assert(t =~= seq![c]);
    assert(digit_value(c) == n);
    assert(is_digit(c) && c != '/' && c != '+');
    assert(t[0] == c);
    assert(t.drop_first() =~= Seq::<char>::empty());
    let st2 = (st.0 - n, st.1, st.2, st.3);
    assert(board_steps(t.drop_first(), st2) == Some(st2));
}

/// The text of a rank does not depend on what was written before it.
proof fn lemma_row_out(board: Seq<Piece>, r: int, f: int, run: nat, out: Seq<char>)
    ensures
        row_text(board, r, f, run, out) == out + row_text(board, r, f, run, Seq::empty()),
    decreases f + 1,
{
    let e = Seq::<char>::empty();
    if f < 0 {
        if run > 0 {
            assert(e + decimal(run) =~= decimal(run));
        } else {
            assert(out + e =~= out);
        }
    } else {
        let p = board[f * 9 + r];
        if p.empty() {
            lemma_row_out(board, r, f - 1, run + 1, out);
            lemma_row_out(board, r, f - 1, run + 1, e);
        } else {
            let d = if run > 0 {
                decimal(run)
            } else {
                e
            };
            let o1 = (if run > 0 {
                out + decimal(run)
            } else {
                out
            }) + p.sfen_spec();
            let o2 = (if run > 0 {
                e + decimal(run)
            } else {
                e
            }) + p.sfen_spec();
            lemma_row_out(board, r, f - 1, 0, o1);
            lemma_row_out(board, r, f - 1, 0, o2);
            assert(o1 =~= out + d + p.sfen_spec());
            assert(o2 =~= d + p.sfen_spec());
            let rest = row_text(board, r, f - 1, 0, e);
            assert(o1 + rest =~= out + (o2 + rest));
        }
    }
}

/// Reading the text of rank index `r` from file index `f` on, with `run`
/// empty squares before it not yet written, fills that rank of the board.
proof fn lemma_row_steps(board: Seq<Piece>, r: int, f: int, run: nat, b: Seq<Piece>)
    requires
        board_writable(board),
        0 <= r < 9,
        -1 <= f <= 8,
        f + run <= 8,
        b.len() == 81,
        forall|g: int| f < g <= f + run ==> #[trigger] board[g * 9 + r] == Piece(0),
        forall|g: int| 0 <= g <= f + run ==> #[trigger] b[g * 9 + r] == Piece(0),
    ensures
        board_steps(row_text(board, r, f, run, Seq::empty()), (f + run, r, false, b)) == Some(
            (-1, r, false, fill_rank(b, board, r, f + run)),
        ),
    decreases f + 1,
{
    let e = Seq::<char>::empty();
    if f < 0 {
        assert forall|s: int| 0 <= s < 81 && sq_rank(s) == r && sq_file(s) <= f + run implies #[trigger] board[s] == b[s] by {
            let g = sq_file(s);
            assert(s == g * 9 + r);
            assert(board[g * 9 + r] == Piece(0));
            assert(b[g * 9 + r] == Piece(0));
        }
        assert(fill_rank(b, board, r, f + run) =~= b);
        if run > 0 {
            assert(e + decimal(run) =~= decimal(run));
            lemma_digit_steps(run as int, (f + run, r, false, b));
        }
    } else {
        let p = board[f * 9 + r];
        if p.empty() {
            assert(p == Piece(0));
            lemma_row_steps(board, r, f - 1, run + 1, b);
        } else {
            let d = if run > 0 {
                decimal(run)
            } else {
                e
            };
            let o2 = (if run > 0 {
                e + decimal(run)
            } else {
                e
            }) + p.sfen_spec();
            lemma_row_out(board, r, f - 1, 0, o2);
            let rest = row_text(board, r, f - 1, 0, e);
            assert(o2 =~= d + p.sfen_spec());
            assert(row_text(board, r, f, run, e) == (d + p.sfen_spec()) + rest);
            let st0 = (f + run, r, false, b);
            let st1 = (f, r, false, b);
            if run > 0 {
                lemma_digit_steps(run as int, st0);
            } else {
                assert(d =~= e);
            }
            assert(board_steps(d, st0) == Some(st1));
            assert(0 <= f * 9 + r < 81);
            lemma_piece_steps(p, f, r, b);
            let b2 = b.update(f * 9 + r, p);
            let st2 = (f - 1, r, false, b2);
            lemma_steps_append(d, p.sfen_spec(), st0);
            assert forall|g: int| 0 <= g <= f - 1 implies #[trigger] b2[g * 9 + r] == Piece(0) by {
                assert(b[g * 9 + r] == Piece(0));
            }
            lemma_row_steps(board, r, f - 1, 0, b2);
            lemma_steps_append(d + p.sfen_spec(), rest, st0);
            assert forall|s: int| 0 <= s < 81 implies #[trigger] fill_rank(b2, board, r, f - 1)[s] == fill_rank(b, board, r, f + run)[s] by {
                if sq_rank(s) == r && f < sq_file(s) <= f + run {
                    let g = sq_file(s);
                    assert(s == g * 9 + r);
                    assert(board[g * 9 + r] == Piece(0));
                    assert(b[g * 9 + r] == Piece(0));
                }
                if s == f * 9 + r {
                    assert(sq_rank(s) == r && sq_file(s) == f);
                }
            }
            assert(fill_rank(b2, board, r, f - 1) =~= fill_rank(b, board, r, f + run));
        }
    }
}


/// `board` on the ranks of index below `n`, empty elsewhere.
pub open spec fn fill_ranks(board: Seq<Piece>, n: int) -> Seq<Piece> {
    Seq::new(81, |s: int| if sq_rank(s) < n { board[s] } else { Piece(0) })
}

/// Reading the text of the first `n` ranks fills those ranks and leaves the
/// cursor at the start of the next one.
proof fn lemma_board_text_steps(board: Seq<Piece>, n: int)
    requires
        board_writable(board),
        0 <= n <= 9,
    ensures
        board_steps(board_text(board, n), (8, 0, false, empty_board())) == Some(
            if n < 9 {
                (8, n, false, fill_ranks(board, n))
            } else {
                (-1, 8, false, fill_ranks(board, 9))
            },
        ),
    decreases n,
{
    let s0 = (8int, 0int, false, empty_board());
    if n == 0 {
        assert(fill_ranks(board, 0) =~= empty_board());
    } else {
        lemma_board_text_steps(board, n - 1);
        let f = fill_ranks(board, n - 1);
        let bt = board_text(board, n - 1);
        let e = Seq::<char>::empty();
        lemma_row_out(board, n - 1, 8, 0, bt);
        let row = row_text(board, n - 1, 8, 0, e);
        assert forall|g: int| 0 <= g <= 8 implies #[trigger] f[g * 9 + (n - 1)] == Piece(0) by {
            assert(sq_rank(g * 9 + (n - 1)) == n - 1);
        }
        lemma_row_steps(board, n - 1, 8, 0, f);
        lemma_steps_append(bt, row, s0);
        let filled = fill_rank(f, board, n - 1, 8);
        assert forall|s: int| 0 <= s < 81 implies #[trigger] filled[s] == fill_ranks(board, n)[s] by {
            assert(0 <= sq_file(s) <= 8);
        }
        assert(filled =~= fill_ranks(board, n));
        if n - 1 < 8 {
            let t = row_text(board, n - 1, 8, 0, bt);
            assert(t.push('/') =~= (bt + row) + seq!['/']);
            lemma_steps_append(bt + row, seq!['/'], s0);
            let st = (-1int, n - 1, false, filled);
            assert(seq!['/'].drop_first() =~= e);
            assert(board_step('/', st) == Some((8int, n, false, filled)));
            assert(board_steps(e, (8int, n, false, filled)) == Some((8int, n, false, filled)));
            assert(board_steps(seq!['/'], st) == Some((8int, n, false, filled)));
        }
    }
}

/// Reading back the board part of the SFEN text of a board gives the board.
pub proof fn lemma_board_roundtrip(board: Seq<Piece>)
    requires
        board_writable(board),
    ensures
        board_from(board_text(board, 9), 0, 8, 0, false, empty_board()) == Some(board),
{
    let cs = board_text(board, 9);
    lemma_board_text_steps(board, 9);
    assert(cs.subrange(0, cs.len() as int) =~= cs);
    lemma_board_chunk(cs, 0, cs, (8, 0, false, empty_board()));
    assert(fill_ranks(board, 9) =~= board);
}


/// Lower-casing distributes over joining.
proof fn lemma_lower_append(a: Seq<char>, b: Seq<char>)
    ensures
        ascii_lower(a + b) == ascii_lower(a) + ascii_lower(b),
{
    assert(ascii_lower(a + b) =~= ascii_lower(a) + ascii_lower(b));
}

/// Reading one entry of Black's hand sets that count of Black's word.
proof fn lemma_hands_entry_black(n: nat, hp: HandPiece, rest: Seq<char>, hb: u32, hw: u32)
    requires
        1 <= n <= hand_field_max(hp),
    ensures
        hands_parse(hand_entry(n, hand_char(hp)) + rest, hb, hw) == hands_parse(rest, hand_set_spec(hb, hp, n as u32), hw),
{
    let c = hand_char(hp);
    assert(upper_first(c) == c && uppercase(c));
    assert(crate::hand::hand_letter(c) == Some(hp));
    let cs = hand_entry(n, c) + rest;
    if n == 1 {
        assert(cs[0] == c);
        assert(cs.skip(1) =~= rest);
    } else {
        lemma_entry_digits(n, c, rest);
        assert(n <= 31);
    }
}

/// Reading one (lower-case) entry of White's hand sets that count of White's word.
proof fn lemma_hands_entry_white(n: nat, hp: HandPiece, rest: Seq<char>, hb: u32, hw: u32)
    requires
        1 <= n <= hand_field_max(hp),
    ensures
        hands_parse(ascii_lower(hand_entry(n, hand_char(hp))) + rest, hb, hw) == hands_parse(
            rest,
            hb,
            hand_set_spec(hw, hp, n as u32),
        ),
{
    let c = hand_char(hp);
    let l = ((c as int) + 32) as char;
    assert(upper_first(l) == c && !uppercase(l));
    assert(crate::hand::hand_letter(c) == Some(hp));
    if n == 1 {
        assert(ascii_lower(hand_entry(n, c)) =~= seq![l]);
        let cs = seq![l] + rest;
        assert(cs[0] == l);
        assert(cs.skip(1) =~= rest);
    } else {
        lemma_decimal(n);
        assert(ascii_lower(hand_entry(n, c)) =~= decimal(n).push(l)) by {
            assert forall|i: int| 0 <= i < decimal(n).len() implies is_digit(#[trigger] decimal(n)[i]) by {
            }
        }
        lemma_entry_digits(n, l, rest);
        assert(n <= 31);
    }
}

/// Reading the entries of the first `k` kinds of Black's hand builds Black's word.
proof fn lemma_hands_prefix_black(h: Hand, k: int, rest: Seq<char>, hw: u32)
    requires
        0 <= k <= 7,
    ensures
        hands_parse(h.sfen_prefix(k) + rest, 0, hw) == hands_parse(rest, hand_upto(h, k), hw),
    decreases k,
{
    if k == 0 {
        assert(h.sfen_prefix(0) + rest =~= rest);
    } else {
        let hp = sfen_order(k - 1);
        let e = hand_entry(h.cnt(hp), hand_char(hp));
        assert(h.sfen_prefix(k) + rest =~= h.sfen_prefix(k - 1) + (e + rest));
        lemma_hands_prefix_black(h, k - 1, e + rest, hw);
        if h.cnt(hp) == 0 {
            assert(e + rest =~= rest);
        } else {
            Hand::lemma_cnt_bound(h, hp);
            lemma_hands_entry_black(h.cnt(hp), hp, rest, hand_upto(h, k - 1), hw);
        }
    }
}

/// Reading the lower-case entries of the first `k` kinds of White's hand
/// builds White's word.
proof fn lemma_hands_prefix_white(h: Hand, k: int, rest: Seq<char>, hb: u32)
    requires
        0 <= k <= 7,
    ensures
        hands_parse(ascii_lower(h.sfen_prefix(k)) + rest, hb, 0) == hands_parse(rest, hb, hand_upto(h, k)),
    decreases k,
{
    if k == 0 {
        assert(ascii_lower(h.sfen_prefix(0)) + rest =~= rest);
    } else {
        let hp = sfen_order(k - 1);
        let e = hand_entry(h.cnt(hp), hand_char(hp));
        lemma_lower_append(h.sfen_prefix(k - 1), e);
        assert(ascii_lower(h.sfen_prefix(k)) + rest =~= ascii_lower(h.sfen_prefix(k - 1)) + (ascii_lower(e) + rest));
        lemma_hands_prefix_white(h, k - 1, ascii_lower(e) + rest, hb);
        if h.cnt(hp) == 0 {
            assert(ascii_lower(e) + rest =~= rest);
        } else {
            Hand::lemma_cnt_bound(h, hp);
            lemma_hands_entry_white(h.cnt(hp), hp, rest, hb, hand_upto(h, k - 1));
        }
    }
}

/// The entries of a hand with a piece in it are not empty.
proof fn lemma_hand_text_nonempty(h: Hand)
    requires
        h.0 & !hand_fields_mask() == 0,
        h.0 != 0,
    ensures
        h.sfen_spec().len() > 0,
        h.sfen_spec() != seq!['-'],
        forall|i: int| 0 <= i < h.sfen_spec().len() ==> is_digit(#[trigger] h.sfen_spec()[i]) || 'A' <= h.sfen_spec()[i] <= 'Z',
{
    lemma_hand_sfen_roundtrip(h);
    lemma_prefix_chars(h, 7);
    if h.sfen_spec().len() == 0 {
        assert(crate::hand::hand_parse(h.sfen_spec(), 0) == Some(0u32));
    }
}

/// Reading back the hand part of an SFEN text gives both hands.
pub proof fn lemma_hands_roundtrip(b: Hand, w: Hand)
    requires
        b.0 & !hand_fields_mask() == 0,
        w.0 & !hand_fields_mask() == 0,
    ensures
        hands_word(hands_text(b, w)) == Some((b.0, w.0)),
{
    lemma_hand_sfen_roundtrip(b);
    lemma_hand_sfen_roundtrip(w);
    let bt = b.sfen_spec();
    let wt = w.sfen_spec();
    let e = Seq::<char>::empty();
    if bt == seq!['-'] && wt == seq!['-'] {
    } else {
        let bb = if bt != seq!['-'] { bt } else { e };
        let ww = if wt != seq!['-'] { ascii_lower(wt) } else { e };
        let t = hands_text(b, w);
        assert(t == bb + ww);
        if b.0 != 0 {
            lemma_upto_full(b);
            lemma_hands_prefix_black(b, 7, ww, 0);
        } else {
            assert(bb + ww =~= ww);
        }
        if w.0 != 0 {
            lemma_upto_full(w);
            lemma_hands_prefix_white(w, 7, e, b.0);
            assert(ascii_lower(wt) + e =~= ascii_lower(wt));
        }
        // The text is not "-": its first character is a digit or a letter.
        if t == seq!['-'] {
            if b.0 != 0 {
                lemma_hand_text_nonempty(b);
                assert(t[0] == bt[0]);
            } else {
                lemma_hand_text_nonempty(w);
                assert(t =~= ascii_lower(wt));
                assert(t[0] == ascii_lower(wt)[0]);
            }
        }
    }
}


/// Joining two runs of visible characters gives one.
proof fn lemma_graphic_append(a: Seq<char>, b: Seq<char>)
    requires
        all_graphic(a),
        all_graphic(b),
    ensures
        all_graphic(a + b),
{
    assert forall|i: int| 0 <= i < (a + b).len() implies graphic(#[trigger] (a + b)[i]) by {
        if i < a.len() {
            assert((a + b)[i] == a[i]);
        } else {
            assert((a + b)[i] == b[i - a.len()]);
        }
    }
}

/// The decimal text of a number is visible.
proof fn lemma_decimal_graphic(n: nat)
    ensures
        all_graphic(decimal(n)),
        decimal(n).len() > 0,
{
    lemma_decimal(n);
    assert forall|i: int| 0 <= i < decimal(n).len() implies graphic(#[trigger] decimal(n)[i]) by {
        assert(is_digit(decimal(n)[i]));
    }
}

/// The SFEN text of a piece of a kind that has a letter is visible.
proof fn lemma_piece_graphic(p: Piece)
    requires
        p.0 < 32,
        1 <= p.kind_code() <= 14,
    ensures
        all_graphic(p.sfen_spec()),
{
    let k = p.kind();
    let t = p.sfen_spec();
    let up = if p.kind_code() <= 8 {
        k.usi_spec()[0]
    } else {
        k.base().usi_spec()[0]
    };
    if p.kind_code() <= 8 {
        lemma_kind_letter(k);
    } else {
        lemma_kind_letter(k.base());
    }
    let ch = if p.owner() == Color::Black {
        up
    } else {
        ((up as int) + 32) as char
    };
    if p.kind_code() <= 8 {
        assert(t =~= seq![ch]);
    } else {
        assert(t =~= seq!['+', ch]);
    }
}

/// The text of a rank, written after visible text, is visible.
proof fn lemma_row_graphic(board: Seq<Piece>, r: int, f: int, run: nat, out: Seq<char>)
    requires
        board_writable(board),
        0 <= r < 9,
        -1 <= f <= 8,
        all_graphic(out),
    ensures
        all_graphic(row_text(board, r, f, run, out)),
    decreases f + 1,
{
    if f < 0 {
        if run > 0 {
            lemma_decimal_graphic(run);
            lemma_graphic_append(out, decimal(run));
        }
    } else {
        let p = board[f * 9 + r];
        if p.empty() {
            lemma_row_graphic(board, r, f - 1, run + 1, out);
        } else {
            let o1 = if run > 0 {
                out + decimal(run)
            } else {
                out
            };
            if run > 0 {
                lemma_decimal_graphic(run);
                lemma_graphic_append(out, decimal(run));
            }
            assert(0 <= f * 9 + r < 81);
            lemma_piece_graphic(p);
            lemma_graphic_append(o1, p.sfen_spec());
            lemma_row_graphic(board, r, f - 1, 0, o1 + p.sfen_spec());
        }
    }
}

/// The board part of an SFEN text is visible.
proof fn lemma_board_graphic(board: Seq<Piece>, n: int)
    requires
        board_writable(board),
        0 <= n <= 9,
    ensures
        all_graphic(board_text(board, n)),
    decreases n,
{
    if n > 0 {
        lemma_board_graphic(board, n - 1);
        lemma_row_graphic(board, n - 1, 8, 0, board_text(board, n - 1));
        if n - 1 < 8 {
            let t = row_text(board, n - 1, 8, 0, board_text(board, n - 1));
            assert(t.push('/') =~= t + seq!['/']);
            lemma_graphic_append(t, seq!['/']);
        }
    }
}

/// The hand part of an SFEN text is a non-empty run of visible characters.
proof fn lemma_hands_graphic(b: Hand, w: Hand)
    requires
        b.0 & !hand_fields_mask() == 0,
        w.0 & !hand_fields_mask() == 0,
    ensures
        all_graphic(hands_text(b, w)),
        hands_text(b, w).len() > 0,
{
    lemma_hand_sfen_roundtrip(b);
    lemma_hand_sfen_roundtrip(w);
    let bt = b.sfen_spec();
    let wt = w.sfen_spec();
    let e = Seq::<char>::empty();
    if bt == seq!['-'] && wt == seq!['-'] {
    } else {
        let bb = if bt != seq!['-'] { bt } else { e };
        let ww = if wt != seq!['-'] { ascii_lower(wt) } else { e };
        if b.0 != 0 {
            lemma_hand_text_nonempty(b);
            assert forall|i: int| 0 <= i < bb.len() implies graphic(#[trigger] bb[i]) by {
                assert(is_digit(bt[i]) || 'A' <= bt[i] <= 'Z');
            }
        }
        if w.0 != 0 {
            lemma_hand_text_nonempty(w);
            assert forall|i: int| 0 <= i < ww.len() implies graphic(#[trigger] ww[i]) by {
                assert(is_digit(wt[i]) || 'A' <= wt[i] <= 'Z');
            }
        }
        lemma_graphic_append(bb, ww);
    }
}

/// Reading back the SFEN text of a position gives its board, side to move,
/// hands and move number, when every square holds the empty square or a
/// piece of a kind that has a letter and no hand word has a bit outside its
/// count fields.
pub proof fn lemma_sfen_roundtrip(v: PosView)
    requires
        board_writable(v.board),
        v.hand.len() == 2,
        v.hand[0].0 & !hand_fields_mask() == 0,
        v.hand[1].0 & !hand_fields_mask() == 0,
    ensures
        sfen_read(sfen_text(v)) == Some((v.board, v.side, (v.hand[0].0, v.hand[1].0), v.ply)),
{
    let a = board_text(v.board, 9);
    let b = seq![side_char(v.side)];
    let c = hands_text(v.hand[0], v.hand[1]);
    let d = decimal(v.ply as nat);
    lemma_board_graphic(v.board, 9);
    lemma_board_text_steps(v.board, 9);
    if a.len() == 0 {
        assert(a =~= Seq::<char>::empty());
    }
    assert(all_graphic(b));
    lemma_hands_graphic(v.hand[0], v.hand[1]);
    lemma_decimal_graphic(v.ply as nat);
    lemma_words4(a, b, c, d);
    assert(sfen_text(v) =~= a + seq![' '] + b + seq![' '] + c + seq![' '] + d);
    let ws = words(sfen_text(v));
    assert(ws == seq![a, b, c, d]);
    lemma_board_roundtrip(v.board);
    match v.side {
        Color::Black => {
            assert(b =~= seq!['b']);
        },
        Color::White => {
            assert(b =~= seq!['w']);
            assert(b[0] != seq!['b'][0]);
        },
    }
    assert(side_word(b) == Some(v.side));
    lemma_hands_roundtrip(v.hand[0], v.hand[1]);
    lemma_parse_decimal(v.ply);
    assert(ply_words(ws) == v.ply);
}

/// Two well-formed positions with the same board, hands, side to move and
/// move number are the same: the bitboards follow from the board.
pub proof fn lemma_view_determined(a: PosView, b: PosView)
    requires
        a.wf(),
        b.wf(),
        a.board == b.board,
        a.hand == b.hand,
        a.side == b.side,
        a.ply == b.ply,
    ensures
        a == b,
{
    assert forall|k: int| 0 <= k < 15 implies a.piece_bb[k] == b.piece_bb[k] by {
        assert(a.squares_of_kind(k) =~= b.squares_of_kind(k));
        Bitboard::lemma_ext(a.piece_bb[k], b.piece_bb[k]);
    }
    assert forall|i: int| 0 <= i < 2 implies a.color_bb[i] == b.color_bb[i] by {
        let c = if i == 0 { Color::Black } else { Color::White };
        assert(c.index() == i);
        assert(a.squares_of_color(c) =~= b.squares_of_color(c));
        Bitboard::lemma_ext(a.color_bb[i], b.color_bb[i]);
    }
    assert(a.piece_bb =~= b.piece_bb);
    assert(a.color_bb =~= b.color_bb);
}


/// A piece of a kind with a letter (not the empty kind) is written by SFEN.
proof fn lemma_lettered_piece(c: Color, pt: PieceType)
    requires
        1 <= pt.code() <= 14,
    ensures
        piece_spec(c, pt).0 == 0 || (1 <= piece_spec(c, pt).kind_code() <= 14 && piece_spec(c, pt).0 < 32),
{
    Piece::lemma_piece_spec(c, pt);
}

/// Reading the board part of an SFEN text places only lettered pieces.
proof fn lemma_board_from_writable(cs: Seq<char>, i: int, file: int, rank: int, promoted: bool, board: Seq<Piece>)
    requires
        board_writable(board),
        file <= 8,
        0 <= rank,
    ensures
        board_from(cs, i, file, rank, promoted, board) matches Some(b) ==> board_writable(b),
    decreases cs.len() - i,
{
    if i < cs.len() {
        let ch = cs[i];
        if ch == '/' {
            lemma_board_from_writable(cs, i + 1, 8, rank + 1, promoted, board);
        } else if ch == '+' {
            lemma_board_from_writable(cs, i + 1, file, rank, true, board);
        } else if is_digit(ch) {
            lemma_board_from_writable(cs, i + 1, file - digit_value(ch), rank, promoted, board);
        } else {
            match piece_from_sfen_spec(ch) {
                None => {},
                Some(p) => {
                    let q = if promoted {
                        promoted_piece(p)
                    } else {
                        Some(p)
                    };
                    match q {
                        None => {},
                        Some(q) => {
                            if !(file < 0 || rank >= 9) {
                                let up = uppercase(ch);
                                let letter = if up {
                                    ch
                                } else {
                                    upper_first(ch)
                                };
                                let color = if up {
                                    Color::Black
                                } else {
                                    Color::White
                                };
                                let pt = letter_piece_type(letter)->0;
                                Piece::lemma_piece_spec(color, pt);
                                lemma_lettered_piece(color, pt);
                                if promoted {
                                    let qt = pt.promoted()->0;
                                    lemma_lettered_piece(color, qt);
                                }
                                let nb = board.update(file * 9 + rank, q);
                                assert(board_writable(nb)) by {
                                    assert forall|s: int| 0 <= s < 81 implies nb[s].0 == 0 || (1 <= nb[s].kind_code() <= 14
                                        && nb[s].0 < 32) by {
                                        if s != file * 9 + rank {
                                            assert(nb[s] == board[s]);
                                        }
                                    }
                                }
                                lemma_board_from_writable(cs, i + 1, file - 1, rank, false, nb);
                            }
                        },
                    }
                },
            }
        }
    }
}

/// A position read from SFEN text has only lettered pieces on its board
/// (the board condition of `lemma_sfen_roundtrip`).
pub proof fn lemma_read_board_writable(s: Seq<char>)
    ensures
        sfen_read(s) matches Some(r) ==> board_writable(r.0),
{
    let ws = crate::text::words(s);
    if ws.len() >= 3 {
        assert(board_writable(empty_board()));
        lemma_board_from_writable(ws[0], 0, 8, 0, false, empty_board());
    }
}

/// The starting position has only lettered pieces on its board.
pub proof fn lemma_start_board_writable()
    ensures
        board_writable(Seq::new(81, |s: int| crate::position::start_piece(s))),
{
    let b = Seq::new(81, |s: int| crate::position::start_piece(s));
    assert forall|s: int| 0 <= s < 81 implies b[s].0 == 0 || (1 <= b[s].kind_code() <= 14 && b[s].0 < 32) by {
        let f = sq_file(s);
        let r = sq_rank(s);
        Piece::lemma_piece_spec(Color::White, PieceType::Lance);
        Piece::lemma_piece_spec(Color::Black, PieceType::Lance);
        Piece::lemma_piece_spec(Color::White, PieceType::Knight);
        Piece::lemma_piece_spec(Color::Black, PieceType::Knight);
        Piece::lemma_piece_spec(Color::White, PieceType::Silver);
        Piece::lemma_piece_spec(Color::Black, PieceType::Silver);
        Piece::lemma_piece_spec(Color::White, PieceType::Gold);
        Piece::lemma_piece_spec(Color::Black, PieceType::Gold);
        Piece::lemma_piece_spec(Color::White, PieceType::King);
        Piece::lemma_piece_spec(Color::Black, PieceType::King);
        Piece::lemma_piece_spec(Color::White, PieceType::Bishop);
        Piece::lemma_piece_spec(Color::Black, PieceType::Bishop);
        Piece::lemma_piece_spec(Color::White, PieceType::Rook);
        Piece::lemma_piece_spec(Color::Black, PieceType::Rook);
        Piece::lemma_piece_spec(Color::White, PieceType::Pawn);
        Piece::lemma_piece_spec(Color::Black, PieceType::Pawn);
    }
}

/// A move the generator produces keeps the board made of lettered pieces
/// (the board condition of `lemma_sfen_roundtrip`).
pub proof fn lemma_move_keeps_board_writable(v: PosView, m: Move)
    requires
        v.wf(),
        board_writable(v.board),
        crate::movegen::pseudo_spec(v, m),
    ensures
        board_writable(v.after_move(m).board),
{
    crate::movegen::lemma_pseudo_makeable(v, m);
    let us = v.side;
    let to = m.to_bits();
    let nb = v.after_move(m).board;
    if m.drop_move() {
        let pt = piece_type_of_code(m.dropped_code());
        assert(crate::movegen::pseudo_drop(v, m));
        lemma_lettered_piece(us, pt);
        assert forall|s: int| 0 <= s < 81 implies nb[s].0 == 0 || (1 <= nb[s].kind_code() <= 14 && nb[s].0 < 32) by {
            if s != to {
                assert(nb[s] == v.board[s]);
            }
        }
    } else {
        let from = m.from_field();
        assert(crate::movegen::pseudo_normal(v, m));
        assert(v.squares_of_color(v.side).contains(from));
        assert(0 <= from < 81);
        let p = v.board[from];
        if m.promo() {
            if let Some(pt) = p.kind().promoted() {
                lemma_lettered_piece(p.owner(), pt);
            }
        }
        assert forall|s: int| 0 <= s < 81 implies nb[s].0 == 0 || (1 <= nb[s].kind_code() <= 14 && nb[s].0 < 32) by {
            if s != to && s != from {
                assert(nb[s] == v.board[s]);
            }
        }
    }
}


/// A move the generator produces keeps both hand words free of bits outside
/// their count fields (the hand condition of `lemma_sfen_roundtrip`) when
/// the mover's hand has room in every field; a capture into a full field
/// spills over.
pub proof fn lemma_move_keeps_hands_clean(v: PosView, m: Move)
    requires
        v.wf(),
        crate::movegen::pseudo_spec(v, m),
        v.hand.len() == 2,
        v.hand[0].0 & !hand_fields_mask() == 0,
        v.hand[1].0 & !hand_fields_mask() == 0,
        forall|hp: HandPiece| #[trigger] v.hand[v.side.index()].cnt(hp) < hand_field_max(hp),
    ensures
        v.after_move(m).hand.len() == 2,
        v.after_move(m).hand[0].0 & !hand_fields_mask() == 0,
        v.after_move(m).hand[1].0 & !hand_fields_mask() == 0,
{
    let ui = v.side.index();
    let h = v.hand[ui];
    if m.drop_move() {
        let pt = piece_type_of_code(m.dropped_code());
        assert(crate::movegen::pseudo_drop(v, m));
        let hp = crate::piece::hand_piece_of(pt)->0;
        crate::hand::lemma_step_keeps_clean(h.0, hp);
    } else {
        let from = m.from_field();
        let v1 = v.remove(from);
        let cap = v1.board[m.to_bits()];
        if !cap.empty() {
            if let Some(hp) = crate::piece::hand_piece_of(cap.kind().base()) {
                assert(h.cnt(hp) < hand_field_max(hp));
                crate::hand::lemma_step_keeps_clean(h.0, hp);
            }
        }
    }
}

} // verus!
