//! Reading the USI commands that set up a game: "position", "setoption"
//! and the limits of "go".  Commands arrive split into words.
use vstd::prelude::*;
use crate::types::Color;
use crate::piece::Piece;
use crate::hand::Hand;
use crate::moves::{Move, move_from_usi_spec};
use crate::position::{Position, PosView, start_piece, lemma_after_move_wf};
use crate::sfen::sfen_read;
use crate::text::{str_equals, chars_of, string_of, parse_u64, parse_u64_spec, parse_usize, parse_usize_spec, parse_i32, parse_i32_spec};

verus! {

/// The characters of each word.
pub open spec fn strs(t: Seq<&str>) -> Seq<Seq<char>> {
    Seq::new(t.len(), |i: int| t[i]@)
}

/// Two positions hold the same game: board, hands, side to move and move
/// number (the bitboards aside).
pub open spec fn same_game(a: PosView, b: PosView) -> bool {
    &&& a.board == b.board
    &&& a.hand == b.hand
    &&& a.side == b.side
    &&& a.ply == b.ply
}

/// Both absent, or both present holding the same game.
pub open spec fn same_outcome(a: Option<PosView>, b: Option<PosView>) -> bool {
    &&& (a is None <==> b is None)
    &&& (a matches Some(x) ==> (b matches Some(y) && same_game(x, y)))
}

/// The game after the USI moves `ts` from `v`: words that do not read as a
/// move are passed over; `None` when a move cannot be played (it promotes a
/// piece that cannot promote, moves from an empty square or drops on an
/// occupied one).
pub open spec fn play_moves(v: PosView, ts: Seq<Seq<char>>) -> Option<PosView>
    decreases ts.len(),
{
    if ts.len() == 0 {
        Some(v)
    } else {
        match move_from_usi_spec(ts[0]) {
            None => play_moves(v, ts.drop_first()),
            Some(m) => if v.can_make(m) && v.sane(m) {
                play_moves(v.after_move(m), ts.drop_first())
            } else {
                None
            },
        }
    }
}

/// The initial game (bitboards left out).
pub open spec fn start_view() -> PosView {
    PosView {
        board: Seq::new(81, |s: int| start_piece(s)),
        piece_bb: Seq::empty(),
        color_bb: Seq::empty(),
        hand: seq![Hand(0), Hand(0)],
        side: Color::Black,
        ply: 1,
    }
}

/// The game named by the fields of an SFEN text (bitboards left out).
pub open spec fn fields_view(b: Seq<Piece>, c: Color, h: (u32, u32), ply: u32) -> PosView {
    PosView { board: b, piece_bb: Seq::empty(), color_bb: Seq::empty(), hand: seq![Hand(h.0), Hand(h.1)], side: c, ply }
}

pub open spec fn word_moves() -> Seq<char> {
    seq!['m', 'o', 'v', 'e', 's']
}

pub open spec fn word_startpos() -> Seq<char> {
    seq!['s', 't', 'a', 'r', 't', 'p', 'o', 's']
}

pub open spec fn word_sfen() -> Seq<char> {
    seq!['s', 'f', 'e', 'n']
}

/// The first index from `i` on holding "moves" (the length when none).
pub open spec fn sfen_end(ts: Seq<Seq<char>>, i: int) -> int
    decreases ts.len() - i,
{
    if i >= ts.len() || ts[i] == word_moves() {
        i
    } else {
        sfen_end(ts, i + 1)
    }
}

/// Words joined with single spaces.
pub open spec fn join_words(ts: Seq<Seq<char>>) -> Seq<char>
    decreases ts.len(),
{
    if ts.len() == 0 {
        Seq::empty()
    } else if ts.len() == 1 {
        ts[0]
    } else {
        join_words(ts.drop_last()) + seq![' '] + ts.last()
    }
}

/// The game set up by the words of a "position" command (the first word
/// is the command itself): "startpos", or "sfen" and the SFEN words up to
/// "moves" (the initial game when they do not read), then the moves after
/// "moves"; with anything else the initial game.
pub open spec fn position_command(ts: Seq<Seq<char>>) -> Option<PosView> {
    let n = ts.len();
    if n <= 1 {
        Some(start_view())
    } else {
        let first = ts[1];
        let base = if first == word_sfen() {
            match sfen_read(join_words(ts.subrange(2, sfen_end(ts, 2)))) {
                Some((b, c, h, ply)) => fields_view(b, c, h, ply),
                None => start_view(),
            }
        } else {
            start_view()
        };
        let i = if first == word_startpos() {
            2
        } else if first == word_sfen() {
            sfen_end(ts, 2)
        } else {
            1
        };
        if i < n && ts[i] == word_moves() {
            play_moves(base, ts.subrange(i + 1, n as int))
        } else {
            Some(base)
        }
    }
}

/// Playing the same moves from the same game gives the same game.
pub proof fn lemma_play_congruent(a: PosView, b: PosView, ts: Seq<Seq<char>>)
    requires
        same_game(a, b),
    ensures
        same_outcome(play_moves(a, ts), play_moves(b, ts)),
    decreases ts.len(),
{
    if ts.len() > 0 {
        match move_from_usi_spec(ts[0]) {
            None => {
                lemma_play_congruent(a, b, ts.drop_first());
            },
            Some(m) => {
                if a.can_make(m) && a.sane(m) {
                    assert(b.can_make(m) && b.sane(m));
                    assert(same_game(a.after_move(m), b.after_move(m)));
                    lemma_play_congruent(a.after_move(m), b.after_move(m), ts.drop_first());
                }
            },
        }
    }
}

proof fn lemma_sfen_end(ts: Seq<Seq<char>>, s: int, i: int)
    requires
        0 <= s <= i <= ts.len(),
        forall|k: int| s <= k < i ==> ts[k] != word_moves(),
        i == ts.len() || ts[i] == word_moves(),
    ensures
        sfen_end(ts, s) == i,
    decreases i - s,
{
    if s < i {
        lemma_sfen_end(ts, s + 1, i);
    }
}

/// Whether the move can be played on `pos` and keeps it consistent.
fn playable(pos: &Position, mv: Move) -> (r: bool)
    requires
        pos@.pieces_ok(),
    ensures
        r == (pos@.can_make(mv) && pos@.sane(mv)),
{
    let to = mv.to();
    if to.0 >= 81 {
        return false;
    }
    if mv.is_drop() {
        if mv.from_bits() >= 95 {
            return false;
        }
        mv.from_bits() >= 81 && pos.piece_at(to).is_empty()
    } else {
        let from = mv.from_bits();
        let fsq = crate::types::Square(from);
        let p = pos.piece_at(fsq);
        if p.is_empty() {
            return false;
        }
        if mv.is_promotion() {
            p.piece_type().can_promote()
        } else {
            true
        }
    }
}

/// Sets up the game of a "position" command (see `position_command`):
/// `None` exactly when one of its moves cannot be played.
pub fn try_parse_position(tokens: &[&str]) -> (r: Option<Position>)
    ensures
        match position_command(strs(tokens@)) {
            None => r is None,
            Some(g) => r matches Some(p) && p@.wf() && same_game(p@, g),
        },
{
    let ghost ts = strs(tokens@);
    proof {
        reveal_strlit("moves");
        reveal_strlit("startpos");
        reveal_strlit("sfen");
        assert("moves"@ =~= word_moves());
        assert("startpos"@ =~= word_startpos());
        assert("sfen"@ =~= word_sfen());
    }
    let mut pos = Position::start_position();
    assert(pos@.board =~= start_view().board);
    assert(pos@.hand =~= start_view().hand);
    let n = tokens.len();
    let mut i: usize = 1;
    if i >= n {
        return Some(pos);
    }
    let first = tokens[1];
    assert(ts[1] == first@);
    let ghost base = if ts[1] == word_sfen() {
        match sfen_read(join_words(ts.subrange(2, sfen_end(ts, 2)))) {
            Some((b, c, h, ply)) => fields_view(b, c, h, ply),
            None => start_view(),
        }
    } else {
        start_view()
    };
    if str_equals(first, "startpos") {
        i = 2;
    } else if str_equals(first, "sfen") {
        i = 2;
        let mut text: Vec<char> = Vec::new();
        while i < n && !str_equals(tokens[i], "moves")
            invariant
                2 <= i <= n,
                n == ts.len(),
                ts == strs(tokens@),
                word_moves() == "moves"@,
                forall|k: int| 2 <= k < i ==> ts[k] != word_moves(),
                text@ == join_words(ts.subrange(2, i as int)),
            decreases n - i,
        {
            let w = chars_of(tokens[i]);
            let ghost before = text@;
            if i > 2 {
                text.push(' ');
            }
            let mut c: usize = 0;
            while c < w.len()
                invariant
                    c <= w@.len(),
                    text@ == (if i > 2 {
                        before + seq![' ']
                    } else {
                        before
                    }) + w@.subrange(0, c as int),
                decreases w@.len() - c,
            {
                text.push(w[c]);
                c = c + 1;
                assert(text@ =~= (if i > 2 {
                    before + seq![' ']
                } else {
                    before
                }) + w@.subrange(0, c as int));
            }
            proof {
                assert(w@.subrange(0, w@.len() as int) =~= w@);
                assert(ts[i as int] == w@);
                let sub = ts.subrange(2, i + 1);
                assert(sub.drop_last() =~= ts.subrange(2, i as int));
                if i == 2 {
                    assert(sub.len() == 1 && sub[0] == w@);
                    assert(before =~= Seq::<char>::empty());
                    assert(text@ =~= w@);
                } else {
                    assert(sub.last() == w@);
                }
            }
            i = i + 1;
        }
        proof {
            if i < n {
                assert(ts[i as int] == tokens@[i as int]@);
            }
            lemma_sfen_end(ts, 2, i as int);
        }
        let sfen = string_of(&text, 0, text.len());
        assert(text@.subrange(0, text@.len() as int) =~= text@);
        match Position::from_sfen(sfen.as_str()) {
            Some(p) => {
                pos = p;
                assert(pos@.hand =~= base.hand);
            },
            None => {},
        }
    }
    assert(same_game(pos@, base));
    assert(pos@.wf());
    let ghost i0 = i as int;
    if i < n && str_equals(tokens[i], "moves") {
        assert(ts[i as int] == word_moves());
        i = i + 1;
        proof {
            lemma_play_congruent(base, pos@, ts.subrange(i as int, n as int));
        }
        while i < n
            invariant
                i0 < i <= n,
                n == ts.len(),
                ts == strs(tokens@),
                pos@.wf(),
                same_outcome(position_command(ts), play_moves(pos@, ts.subrange(i as int, n as int))),
            decreases n - i,
        {
            let ghost rest = ts.subrange(i as int, n as int);
            assert(rest[0] == tokens@[i as int]@);
            assert(rest.drop_first() =~= ts.subrange(i + 1, n as int));
            match Move::from_usi(tokens[i]) {
                Some(mv) => {
                    if !playable(&pos, mv) {
                        return None;
                    }
                    proof {
                        lemma_after_move_wf(pos@, mv);
                    }
                    pos.do_move(mv);
                },
                None => {},
            }
            i = i + 1;
        }
        assert(ts.subrange(n as int, n as int) =~= Seq::<Seq<char>>::empty());
        return Some(pos);
    }
    proof {
        if i0 < n {
            assert(ts[i0] == tokens@[i0]@);
        }
    }
    Some(pos)
}

/// Sets up the game of a "position" command whose moves can all be played
/// (see `position_command`).
pub fn parse_position(tokens: &[&str]) -> (r: Position)
    requires
        position_command(strs(tokens@)) is Some,
    ensures
        r@.wf(),
        same_game(r@, position_command(strs(tokens@))->0),
{
    match try_parse_position(tokens) {
        Some(p) => p,
        None => {
            proof {
                assert(false);
            }
            Position::start_position()
        },
    }
}

pub open spec fn word_name() -> Seq<char> {
    seq!['n', 'a', 'm', 'e']
}

pub open spec fn word_value() -> Seq<char> {
    seq!['v', 'a', 'l', 'u', 'e']
}

pub open spec fn word_bookfile() -> Seq<char> {
    seq!['B', 'o', 'o', 'k', 'F', 'i', 'l', 'e']
}

pub open spec fn word_threads() -> Seq<char> {
    seq!['T', 'h', 'r', 'e', 'a', 'd', 's']
}

/// `t` brought into 1 to 8.
pub open spec fn clamp_threads(t: usize) -> usize {
    if t < 1 {
        1
    } else if t > 8 {
        8
    } else {
        t
    }
}

/// The book file and thread count after the words of a "setoption" command
/// from index `i` on: "name BookFile value X" sets the book file to X,
/// "name Threads value N" sets the thread count to N brought into 1 to 8
/// (nothing when N is not a number); other words are passed over.
pub open spec fn setoption_from(ts: Seq<Seq<char>>, i: int, book: Seq<char>, threads: usize) -> (Seq<char>, usize)
    decreases ts.len() - i,
{
    if i < 0 || i >= ts.len() {
        (book, threads)
    } else if ts[i] == word_name() && i + 3 < ts.len() {
        if ts[i + 1] == word_bookfile() && ts[i + 2] == word_value() {
            setoption_from(ts, i + 4, ts[i + 3], threads)
        } else if ts[i + 1] == word_threads() && ts[i + 2] == word_value() {
            let t = match parse_usize_spec(ts[i + 3]) {
                Some(t) => clamp_threads(t),
                None => threads,
            };
            setoption_from(ts, i + 4, book, t)
        } else {
            setoption_from(ts, i + 1, book, threads)
        }
    } else {
        setoption_from(ts, i + 1, book, threads)
    }
}

/// Applies a "setoption" command (see `setoption_from`, from the second word).
pub fn apply_setoption(tokens: &[&str], book_path: &mut String, num_threads: &mut usize)
    ensures
        (final(book_path)@, *final(num_threads)) == setoption_from(strs(tokens@), 1, old(book_path)@, *old(num_threads)),
{
    let ghost ts = strs(tokens@);
    proof {
        reveal_strlit("name");
        reveal_strlit("value");
        reveal_strlit("BookFile");
        reveal_strlit("Threads");
        assert("name"@ =~= word_name());
        assert("value"@ =~= word_value());
        assert("BookFile"@ =~= word_bookfile());
        assert("Threads"@ =~= word_threads());
    }
    let n = tokens.len();
    let mut i: usize = 1;
    while i < n
        invariant
            1 <= i,
            n == ts.len(),
            ts == strs(tokens@),
            word_name() == "name"@,
            word_value() == "value"@,
            word_bookfile() == "BookFile"@,
            word_threads() == "Threads"@,
            setoption_from(ts, 1, old(book_path)@, *old(num_threads)) == setoption_from(ts, i as int, book_path@, *num_threads),
        decreases n - i,
    {
        assert(ts[i as int] == tokens@[i as int]@);
        if str_equals(tokens[i], "name") && n - i > 3 {
            assert(ts[i + 1] == tokens@[i + 1]@);
            assert(ts[i + 2] == tokens@[i + 2]@);
            assert(ts[i + 3] == tokens@[i + 3]@);
            if str_equals(tokens[i + 1], "BookFile") && str_equals(tokens[i + 2], "value") {
                *book_path = String::from_str(tokens[i + 3]);
                i = i + 4;
            } else if str_equals(tokens[i + 1], "Threads") && str_equals(tokens[i + 2], "value") {
                let w = chars_of(tokens[i + 3]);
                if let Some(t) = parse_usize(&w) {
                    *num_threads = if t < 1 {
                        1
                    } else if t > 8 {
                        8
                    } else {
                        t
                    };
                }
                i = i + 4;
            } else {
                i = i + 1;
            }
        } else {
            i = i + 1;
        }
    }
}

/// The limits named by a "go" command: remaining time, increment and
/// byoyomi in milliseconds, and the deepest iteration.
#[derive(Clone, Copy, Debug)]
pub struct GoLimits {
    pub time_ms: u64,
    pub inc_ms: u64,
    pub byoyomi: u64,
    pub max_depth: i32,
}

/// The default limits: five seconds, no increment, no byoyomi, depth 64.
pub open spec fn default_limits() -> GoLimits {
    GoLimits { time_ms: 5000, inc_ms: 0, byoyomi: 0, max_depth: 64 }
}

/// The number that follows index `i`, when there is one that reads.
pub open spec fn next_u64(ts: Seq<Seq<char>>, i: int) -> Option<u64> {
    if i + 1 < ts.len() {
        parse_u64_spec(ts[i + 1])
    } else {
        None
    }
}

/// One word of a "go" command at index `i`: the limits after it, and how
/// many words it took (2 when it consumed the number after it).
pub open spec fn go_word(ts: Seq<Seq<char>>, i: int, side: Color, g: GoLimits) -> (GoLimits, int) {
    let w = ts[i];
    let t = next_u64(ts, i);
    if (w == seq!['b', 't', 'i', 'm', 'e'] && side == Color::Black) || (w == seq!['w', 't', 'i', 'm', 'e'] && side
        == Color::White) || w == seq!['m', 'o', 'v', 'e', 't', 'i', 'm', 'e'] {
        match t {
            Some(x) => (GoLimits { time_ms: x, ..g }, 2),
            None => (g, 1),
        }
    } else if (w == seq!['b', 'i', 'n', 'c'] && side == Color::Black) || (w == seq!['w', 'i', 'n', 'c'] && side
        == Color::White) {
        match t {
            Some(x) => (GoLimits { inc_ms: x, ..g }, 2),
            None => (g, 1),
        }
    } else if w == seq!['b', 'y', 'o', 'y', 'o', 'm', 'i'] {
        match t {
            Some(x) => (GoLimits { byoyomi: x, ..g }, 2),
            None => (g, 1),
        }
    } else if w == seq!['d', 'e', 'p', 't', 'h'] {
        let d = if i + 1 < ts.len() {
            parse_i32_spec(ts[i + 1])
        } else {
            None
        };
        match d {
            Some(x) => (GoLimits { max_depth: x, time_ms: 999_999_999, ..g }, 2),
            None => (g, 1),
        }
    } else if w == seq!['i', 'n', 'f', 'i', 'n', 'i', 't', 'e'] {
        (GoLimits { time_ms: 999_999_999, max_depth: 64, ..g }, 1)
    } else {
        (g, 1)
    }
}

/// The limits after the words of a "go" command from index `i` on.
pub open spec fn go_from(ts: Seq<Seq<char>>, i: int, side: Color, g: GoLimits) -> GoLimits
    decreases ts.len() - i,
{
    if i < 0 || i >= ts.len() {
        g
    } else {
        let (g2, k) = go_word(ts, i, side, g);
        go_from(ts, i + k, side, g2)
    }
}

/// The number after index `i`, read as `str::parse::<u64>` does.
fn next_number(tokens: &[&str], i: usize) -> (r: Option<u64>)
    requires
        i < tokens@.len(),
    ensures
        r == next_u64(strs(tokens@), i as int),
{
    if tokens.len() - i > 1 {
        let w = chars_of(tokens[i + 1]);
        assert(strs(tokens@)[i + 1] == tokens@[i + 1]@);
        parse_u64(&w)
    } else {
        None
    }
}

/// Reads the limits of a "go" command for the side to move (see `go_from`,
/// from the second word and the default limits).
pub fn parse_go_limits(tokens: &[&str], side: Color) -> (r: GoLimits)
    ensures
        r == go_from(strs(tokens@), 1, side, default_limits()),
{
    let ghost ts = strs(tokens@);
    proof {
        reveal_strlit("btime");
        reveal_strlit("wtime");
        reveal_strlit("binc");
        reveal_strlit("winc");
        reveal_strlit("byoyomi");
        reveal_strlit("movetime");
        reveal_strlit("depth");
        reveal_strlit("infinite");
    }
    let mut g = GoLimits { time_ms: 5_000, inc_ms: 0, byoyomi: 0, max_depth: 64 };
    let n = tokens.len();
    let mut i: usize = 1;
    while i < n
        invariant
            1 <= i,
            n == ts.len(),
            ts == strs(tokens@),
            go_from(ts, 1, side, default_limits()) == go_from(ts, i as int, side, g),
            "btime"@ == seq!['b', 't', 'i', 'm', 'e'],
            "wtime"@ == seq!['w', 't', 'i', 'm', 'e'],
            "binc"@ == seq!['b', 'i', 'n', 'c'],
            "winc"@ == seq!['w', 'i', 'n', 'c'],
            "byoyomi"@ == seq!['b', 'y', 'o', 'y', 'o', 'm', 'i'],
            "movetime"@ == seq!['m', 'o', 'v', 'e', 't', 'i', 'm', 'e'],
            "depth"@ == seq!['d', 'e', 'p', 't', 'h'],
            "infinite"@ == seq!['i', 'n', 'f', 'i', 'n', 'i', 't', 'e'],
        decreases n - i,
    {
        let w = tokens[i];
        assert(ts[i as int] == w@);
        let black = match side {
            Color::Black => true,
            Color::White => false,
        };
        let mut step: usize = 1;
        if (str_equals(w, "btime") && black) || (str_equals(w, "wtime") && !black) || str_equals(w, "movetime") {
            if let Some(t) = next_number(tokens, i) {
                g.time_ms = t;
                step = 2;
            }
        } else if (str_equals(w, "binc") && black) || (str_equals(w, "winc") && !black) {
            if let Some(t) = next_number(tokens, i) {
                g.inc_ms = t;
                step = 2;
            }
        } else if str_equals(w, "byoyomi") {
            if let Some(t) = next_number(tokens, i) {
                g.byoyomi = t;
                step = 2;
            }
        } else if str_equals(w, "depth") {
            if n - i > 1 {
                let dw = chars_of(tokens[i + 1]);
                assert(ts[i + 1] == tokens@[i + 1]@);
                if let Some(d) = parse_i32(&dw) {
                    g.max_depth = d;
                    g.time_ms = 999_999_999;
                    step = 2;
                }
            }
        } else if str_equals(w, "infinite") {
            g.time_ms = 999_999_999;
            g.max_depth = 64;
        }
        i = i + step;
    }
    g
}


/// The move can be written in USI (`Move::to_usi` reads its fields).
pub open spec fn usi_writable(m: Move) -> bool {
    m.0 != 0 && m.0 != 129 ==> m.to_bits() < 81 && (m.drop_move() ==> m.dropped_code() < 15)
}

/// The first of `moves` whose USI text is `text`.
pub fn find_usi_move(moves: &Vec<Move>, text: &str) -> (r: Option<Move>)
    requires
        forall|i: int| 0 <= i < moves@.len() ==> usi_writable(#[trigger] moves@[i]),
    ensures
        match r {
            None => forall|i: int| 0 <= i < moves@.len() ==> (#[trigger] moves@[i]).usi_spec() != text@,
            Some(m) => exists|i: int|
                0 <= i < moves@.len() && moves@[i] == m && m.usi_spec() == text@ && forall|j: int|
                    0 <= j < i ==> (#[trigger] moves@[j]).usi_spec() != text@,
        },
{
    let n = moves.len();
    let mut i: usize = 0;
    while i < n
        invariant
            i <= n,
            n == moves@.len(),
            forall|k: int| 0 <= k < moves@.len() ==> usi_writable(#[trigger] moves@[k]),
            forall|j: int| 0 <= j < i ==> (#[trigger] moves@[j]).usi_spec() != text@,
        decreases n - i,
    {
        let m = moves[i];
        assert(usi_writable(moves@[i as int]));
        let s = m.to_usi();
        if str_equals(s.as_str(), text) {
            return Some(m);
        }
        i = i + 1;
    }
    None
}


/// The commands of the USI loop, named by the first word of a line.
#[derive(Clone, Copy, PartialEq, Eq, Structural, Debug)]
pub enum UsiCommand {
    Usi,
    SetOption,
    IsReady,
    UsiNewGame,
    Position,
    Go,
    Stop,
    Quit,
    Other,
}

/// The command that a first word names.
pub open spec fn command_spec(w: Seq<char>) -> UsiCommand {
    if w == seq!['u', 's', 'i'] {
        UsiCommand::Usi
    } else if w == seq!['s', 'e', 't', 'o', 'p', 't', 'i', 'o', 'n'] {
        UsiCommand::SetOption
    } else if w == seq!['i', 's', 'r', 'e', 'a', 'd', 'y'] {
        UsiCommand::IsReady
    } else if w == seq!['u', 's', 'i', 'n', 'e', 'w', 'g', 'a', 'm', 'e'] {
        UsiCommand::UsiNewGame
    } else if w == seq!['p', 'o', 's', 'i', 't', 'i', 'o', 'n'] {
        UsiCommand::Position
    } else if w == seq!['g', 'o'] {
        UsiCommand::Go
    } else if w == seq!['s', 't', 'o', 'p'] {
        UsiCommand::Stop
    } else if w == seq!['q', 'u', 'i', 't'] {
        UsiCommand::Quit
    } else {
        UsiCommand::Other
    }
}

/// The command named by the first word of a line.
pub fn usi_command(word: &str) -> (r: UsiCommand)
    ensures
        r == command_spec(word@),
{
    proof {
        reveal_strlit("usi");
        assert("usi"@ =~= seq!['u', 's', 'i']);
        reveal_strlit("setoption");
        assert("setoption"@ =~= seq!['s', 'e', 't', 'o', 'p', 't', 'i', 'o', 'n']);
        reveal_strlit("isready");
        assert("isready"@ =~= seq!['i', 's', 'r', 'e', 'a', 'd', 'y']);
        reveal_strlit("usinewgame");
        assert("usinewgame"@ =~= seq!['u', 's', 'i', 'n', 'e', 'w', 'g', 'a', 'm', 'e']);
        reveal_strlit("position");
        assert("position"@ =~= seq!['p', 'o', 's', 'i', 't', 'i', 'o', 'n']);
        reveal_strlit("go");
        assert("go"@ =~= seq!['g', 'o']);
        reveal_strlit("stop");
        assert("stop"@ =~= seq!['s', 't', 'o', 'p']);
        reveal_strlit("quit");
        assert("quit"@ =~= seq!['q', 'u', 'i', 't']);
    }
    if str_equals(word, "usi") {
        UsiCommand::Usi
    } else if str_equals(word, "setoption") {
        UsiCommand::SetOption
    } else if str_equals(word, "isready") {
        UsiCommand::IsReady
    } else if str_equals(word, "usinewgame") {
        UsiCommand::UsiNewGame
    } else if str_equals(word, "position") {
        UsiCommand::Position
    } else if str_equals(word, "go") {
        UsiCommand::Go
    } else if str_equals(word, "stop") {
        UsiCommand::Stop
    } else if str_equals(word, "quit") {
        UsiCommand::Quit
    } else {
        UsiCommand::Other
    }
}


/// The time for one move when there is neither byoyomi nor increment: a
/// fiftieth of the time left, and at least half a second.
pub fn plain_time_allocation(time_ms: u64) -> (r: u64)
    ensures
        r == (if time_ms / 50 > 500 { time_ms / 50 } else { 500 }),
{
    let t = time_ms / 50;
    if t > 500 {
        t
    } else {
        500
    }
}


/// The word with its b/w side prefix swapped, for btime/wtime and
/// binc/winc; any other word as it is.
pub open spec fn swap_side_word(w: Seq<char>) -> Seq<char> {
    if w == seq!['b', 't', 'i', 'm', 'e'] {
        seq!['w', 't', 'i', 'm', 'e']
    } else if w == seq!['w', 't', 'i', 'm', 'e'] {
        seq!['b', 't', 'i', 'm', 'e']
    } else if w == seq!['b', 'i', 'n', 'c'] {
        seq!['w', 'i', 'n', 'c']
    } else if w == seq!['w', 'i', 'n', 'c'] {
        seq!['b', 'i', 'n', 'c']
    } else {
        w
    }
}

/// Every word with its side prefix swapped.
pub open spec fn swap_side_words(ts: Seq<Seq<char>>) -> Seq<Seq<char>> {
    Seq::new(ts.len(), |j: int| swap_side_word(ts[j]))
}

/// Swapping a side prefix does not change how a word reads as a number.
proof fn lemma_swap_reads_same(w: Seq<char>)
    ensures
        parse_u64_spec(swap_side_word(w)) == parse_u64_spec(w),
        parse_i32_spec(swap_side_word(w)) == parse_i32_spec(w),
{
    let x = swap_side_word(w);
    if x != w {
        assert(w.len() > 0 && x.len() > 0);
        assert(!crate::text::is_digit(w[0]) && w[0] != '+' && w[0] != '-');
        assert(!crate::text::is_digit(x[0]) && x[0] != '+' && x[0] != '-');
        assert(!crate::text::all_digits(w));
        assert(!crate::text::all_digits(x));
    }
}

/// Reading a "go" command for White gives what reading it for Black gives
/// once the b/w prefixes of btime/wtime and binc/winc are swapped: each side
/// reads its own clock and its own increment.
pub proof fn lemma_go_side_swap(ts: Seq<Seq<char>>, i: int, g: GoLimits)
    ensures
        go_from(ts, i, Color::White, g) == go_from(swap_side_words(ts), i, Color::Black, g),
    decreases ts.len() - i,
{
    let sw = swap_side_words(ts);
    if 0 <= i < ts.len() {
        let w = ts[i];
        assert(sw[i] == swap_side_word(w));
        if i + 1 < ts.len() {
            assert(sw[i + 1] == swap_side_word(ts[i + 1]));
            lemma_swap_reads_same(ts[i + 1]);
        }
        assert(next_u64(sw, i) == next_u64(ts, i));
        let (g2, k) = go_word(ts, i, Color::White, g);
        assert(go_word(sw, i, Color::Black, g) == (g2, k));
        lemma_go_side_swap(ts, i + k, g2);
    }
}


/// The clock word of `side` in a "go" command: btime for Black, wtime for White.
pub open spec fn own_time_word(side: Color) -> Seq<char> {
    match side {
        Color::Black => seq!['b', 't', 'i', 'm', 'e'],
        Color::White => seq!['w', 't', 'i', 'm', 'e'],
    }
}

/// The increment word of `side`: binc for Black, winc for White.
pub open spec fn own_inc_word(side: Color) -> Seq<char> {
    match side {
        Color::Black => seq!['b', 'i', 'n', 'c'],
        Color::White => seq!['w', 'i', 'n', 'c'],
    }
}

/// A side reads its own clock and increment and passes over the other
/// side's: its clock word followed by a number sets the time to that
/// number, its increment word the increment, and the other side's clock or
/// increment word is skipped alone (the number after it is then read as a
/// word of its own).
pub proof fn lemma_go_own_words(ts: Seq<Seq<char>>, i: int, side: Color, g: GoLimits)
    requires
        0 <= i < ts.len(),
    ensures
        ts[i] == own_time_word(side) && next_u64(ts, i) is Some ==> go_from(ts, i, side, g) == go_from(
            ts,
            i + 2,
            side,
            GoLimits { time_ms: next_u64(ts, i)->0, ..g },
        ),
        ts[i] == own_inc_word(side) && next_u64(ts, i) is Some ==> go_from(ts, i, side, g) == go_from(
            ts,
            i + 2,
            side,
            GoLimits { inc_ms: next_u64(ts, i)->0, ..g },
        ),
        ts[i] == own_time_word(side.opp()) || ts[i] == own_inc_word(side.opp()) ==> go_from(ts, i, side, g) == go_from(
            ts,
            i + 1,
            side,
            g,
        ),
{
}

} // verus!
