//! The opening book: for each position (its SFEN without the move number)
//! the recorded moves with their scores and frequencies, read from the
//! lines of a book file.
use vstd::prelude::*;
use crate::position::{Position, PosView};
use crate::moves::Move;
use crate::movegen::{pseudo_spec, legal_spec, lemma_pseudo_makeable};
use crate::usi::{find_usi_move, usi_writable};
use crate::sfen::sfen_text;
use crate::text::{is_space, is_space_char, words, views_of, split_words, chars_of, string_of, str_equals, parse_i32, parse_i32_spec, parse_u32, parse_u32_spec};

verus! {

/// One recorded move: its USI text, its score and how often it was played.
pub struct BookMove {
    pub mv: String,
    pub score: i32,
    pub count: u32,
}

/// The moves recorded for one position.
pub struct BookEntry {
    pub key: String,
    pub moves: Vec<BookMove>,
}

/// The book: one entry per position key.
pub struct OpeningBook {
    pub entries: Vec<BookEntry>,
}

/// A recorded move as values.
pub open spec fn move_view(m: BookMove) -> (Seq<char>, i32, u32) {
    (m.mv@, m.score, m.count)
}

/// The recorded moves of an entry as values.
pub open spec fn moves_view(ms: Seq<BookMove>) -> Seq<(Seq<char>, i32, u32)> {
    Seq::new(ms.len(), |i: int| move_view(ms[i]))
}

/// The index of the entry with key `key`, if any.
pub open spec fn find_entry(es: Seq<BookEntry>, key: Seq<char>) -> Option<int> {
    if exists|i: int| 0 <= i < es.len() && (#[trigger] es[i]).key@ == key {
        Some(choose|i: int| 0 <= i < es.len() && (#[trigger] es[i]).key@ == key)
    } else {
        None
    }
}

/// The index of the `k`-th space (counting from 0) of `s`, if any.
pub open spec fn nth_space(s: Seq<char>, k: int) -> Option<int>
    decreases s.len(),
{
    if s.len() == 0 {
        None
    } else if s.last() == ' ' && space_count(s.drop_last()) == k {
        Some(s.len() - 1)
    } else {
        nth_space(s.drop_last(), k)
    }
}

/// The number of spaces in `s`.
pub open spec fn space_count(s: Seq<char>) -> int
    decreases s.len(),
{
    if s.len() == 0 {
        0
    } else {
        space_count(s.drop_last()) + if s.last() == ' ' {
            1int
        } else {
            0
        }
    }
}

/// The key of an SFEN text: the text before its third space (all of it when
/// there is none), that is, the board, the side and the hands.
pub open spec fn book_key(s: Seq<char>) -> Seq<char> {
    match nth_space(s, 2) {
        Some(j) => s.take(j),
        None => s,
    }
}

/// `s` without its leading and trailing whitespace.
pub open spec fn trimmed(s: Seq<char>) -> Seq<char> {
    s.subrange(trim_start(s), trim_end(s))
}

/// The index of the first character that is not whitespace (the length when
/// there is none).
pub open spec fn trim_start(s: Seq<char>) -> int
    decreases s.len(),
{
    if s.len() == 0 || !is_space(s[0]) {
        0
    } else {
        1 + trim_start(s.drop_first())
    }
}

/// One past the last character that is not whitespace (at least `trim_start`).
pub open spec fn trim_end(s: Seq<char>) -> int
    decreases s.len(),
{
    if s.len() == 0 || trim_start(s) == s.len() {
        trim_start(s)
    } else if !is_space(s.last()) {
        s.len() as int
    } else {
        trim_end(s.drop_last())
    }
}

/// The recorded moves after adding `m` for `key`: appended to the entry of
/// `key`, or a new entry at the end.
pub open spec fn added(es: Seq<BookEntry>, key: Seq<char>, m: (Seq<char>, i32, u32)) -> Map<Seq<char>, Seq<(Seq<char>, i32, u32)>> {
    let before = book_map(es);
    if before.dom().contains(key) {
        before.insert(key, before[key].push(m))
    } else {
        before.insert(key, seq![m])
    }
}

/// The book as a map from key to recorded moves.
pub open spec fn book_map(es: Seq<BookEntry>) -> Map<Seq<char>, Seq<(Seq<char>, i32, u32)>> {
    Map::new(
        |k: Seq<char>| find_entry(es, k) is Some,
        |k: Seq<char>| moves_view(es[find_entry(es, k)->0].moves@),
    )
}

/// What a line of a book file does, given the current key: `(new key,
/// move to record)`.  Lines are trimmed; empty lines and lines starting
/// with '#' do nothing; "sfen X" makes the key of X current; any other line
/// of at least five words records, under a non-empty current key, its first
/// word as the move, the third read as the score (0 when not a number) and
/// the fifth as the count (1 when not a number).
pub open spec fn line_effect(line: Seq<char>, key: Seq<char>) -> (Seq<char>, Option<(Seq<char>, i32, u32)>) {
    let t = trimmed(line);
    if t.len() == 0 || t[0] == '#' {
        (key, None)
    } else if t.len() >= 5 && t.take(5) == seq!['s', 'f', 'e', 'n', ' '] {
        (book_key(t.skip(5)), None)
    } else if key.len() > 0 && words(t).len() >= 5 {
        let ws = words(t);
        let score = match parse_i32_spec(ws[2]) {
            Some(v) => v,
            None => 0,
        };
        let count = match parse_u32_spec(ws[4]) {
            Some(v) => v,
            None => 1,
        };
        (key, Some((ws[0], score, count)))
    } else {
        (key, None)
    }
}

/// The best recorded move: the last of greatest count, and among those of
/// greatest score.
pub open spec fn is_best(ms: Seq<(Seq<char>, i32, u32)>, i: int) -> bool {
    &&& 0 <= i < ms.len()
    &&& forall|j: int| 0 <= j < ms.len() ==> !lex_less(ms[i], #[trigger] ms[j])
    &&& forall|j: int| i < j < ms.len() ==> lex_less(#[trigger] ms[j], ms[i])
}

/// `a` comes before `b` by count, then by score.
pub open spec fn lex_less(a: (Seq<char>, i32, u32), b: (Seq<char>, i32, u32)) -> bool {
    a.2 < b.2 || (a.2 == b.2 && a.1 < b.1)
}

impl OpeningBook {
    /// No two entries share a key.
    pub open spec fn wf(&self) -> bool {
        forall|i: int, j: int|
            0 <= i < j < self.entries@.len() ==> (#[trigger] self.entries@[i]).key@ != (#[trigger] self.entries@[j]).key@
    }

    /// The book as a map from key to recorded moves.
    pub open spec fn view_map(&self) -> Map<Seq<char>, Seq<(Seq<char>, i32, u32)>> {
        book_map(self.entries@)
    }

    /// An empty book.
    pub fn new() -> (r: OpeningBook)
        ensures
            r.wf(),
            r.view_map() == Map::<Seq<char>, Seq<(Seq<char>, i32, u32)>>::empty(),
    {
        let r = OpeningBook { entries: Vec::new() };
        assert(r.view_map() =~= Map::<Seq<char>, Seq<(Seq<char>, i32, u32)>>::empty());
        r
    }

    /// The index of the entry of `key`.
    fn find(&self, key: &String) -> (r: Option<usize>)
        requires
            self.wf(),
        ensures
            r matches Some(i) ==> i < self.entries@.len() && self.entries@[i as int].key@ == key@,
            r is None ==> find_entry(self.entries@, key@) is None,
            r matches Some(i) ==> find_entry(self.entries@, key@) == Some(i as int),
    {
        let n = self.entries.len();
        if n > 0 && str_equals(self.entries[n - 1].key.as_str(), key.as_str()) {
            proof {
                self.lemma_find_unique(key@, (n - 1) as int);
            }
            return Some(n - 1);
        }
        let mut i: usize = 0;
        while i < n
            invariant
                i <= n,
                n == self.entries@.len(),
                self.wf(),
                forall|j: int| 0 <= j < i ==> (#[trigger] self.entries@[j]).key@ != key@,
            decreases n - i,
        {
            if str_equals(self.entries[i].key.as_str(), key.as_str()) {
                proof {
                    self.lemma_find_unique(key@, i as int);
                }
                return Some(i);
            }
            i = i + 1;
        }
        None
    }

    proof fn lemma_find_unique(&self, key: Seq<char>, i: int)
        requires
            self.wf(),
            0 <= i < self.entries@.len(),
            self.entries@[i].key@ == key,
        ensures
            find_entry(self.entries@, key) == Some(i),
    {
        let es = self.entries@;
        assert(exists|k: int| 0 <= k < es.len() && (#[trigger] es[k]).key@ == key);
        let c = choose|k: int| 0 <= k < es.len() && (#[trigger] es[k]).key@ == key;
        if c != i {
            if c < i {
                assert(es[c].key@ != es[i].key@);
            } else {
                assert(es[i].key@ != es[c].key@);
            }
        }
    }

    /// Records a move for `key` (see `added`).
    pub fn add_move(&mut self, key: &String, bm: BookMove)
        requires
            old(self).wf(),
        ensures
            final(self).wf(),
            final(self).view_map() == added(old(self).entries@, key@, move_view(bm)),
    {
        let ghost old_es = self.entries@;
        let ghost m = move_view(bm);
        match self.find(key) {
            Some(i) => {
                let mut e = self.entries.remove(i);
                let ghost old_moves = e.moves@;
                e.moves.push(bm);
                self.entries.insert(i, e);
                proof {
                    let es = self.entries@;
                    assert forall|a: int, b: int| 0 <= a < b < es.len() implies (#[trigger] es[a]).key@ != (#[trigger] es[b]).key@ by {
                        assert(es[a].key@ == old_es[a].key@);
                        assert(es[b].key@ == old_es[b].key@);
                    }
                    assert(moves_view(es[i as int].moves@) =~= moves_view(old_moves).push(m));
                    assert forall|k: Seq<char>| #[trigger] find_entry(es, k) == find_entry(old_es, k) by {
                        if exists|x: int| 0 <= x < es.len() && (#[trigger] es[x]).key@ == k {
                            let x = choose|x: int| 0 <= x < es.len() && (#[trigger] es[x]).key@ == k;
                            assert(old_es[x].key@ == k);
                            self.lemma_find_unique(k, x);
                            lemma_find_in(old_es, k, x);
                        } else {
                            assert forall|x: int| 0 <= x < old_es.len() implies (#[trigger] old_es[x]).key@ != k by {
                                assert(es[x].key@ == old_es[x].key@);
                            }
                        }
                    }
                    assert(self.view_map() =~= added(old_es, key@, m));
                }
            },
            None => {
                let mut moves: Vec<BookMove> = Vec::new();
                moves.push(bm);
                let k = key.clone();
                self.entries.push(BookEntry { key: k, moves });
                proof {
                    let es = self.entries@;
                    let n = old_es.len();
                    assert forall|a: int, b: int| 0 <= a < b < es.len() implies (#[trigger] es[a]).key@ != (#[trigger] es[b]).key@ by {
                        if b == n {
                            assert(es[a].key@ == old_es[a].key@);
                            assert(old_es[a].key@ != key@);
                        }
                    }
                    assert(moves_view(es[n as int].moves@) =~= seq![m]);
                    self.lemma_find_unique(key@, n as int);
                    assert forall|k: Seq<char>| k != key@ implies #[trigger] find_entry(es, k) == find_entry(old_es, k) by {
                        if exists|x: int| 0 <= x < es.len() && (#[trigger] es[x]).key@ == k {
                            let x = choose|x: int| 0 <= x < es.len() && (#[trigger] es[x]).key@ == k;
                            assert(x < n);
                            self.lemma_find_unique(k, x);
                            lemma_find_in(old_es, k, x);
                        } else {
                            assert forall|x: int| 0 <= x < old_es.len() implies (#[trigger] old_es[x]).key@ != k by {
                                assert(es[x].key@ == old_es[x].key@);
                            }
                        }
                    }
                    assert(self.view_map() =~= added(old_es, key@, m));
                }
            },
        }
    }

    /// Reads one line of a book file, given the current key (see
    /// `line_effect`).
    pub fn read_line(&mut self, current_key: &mut String, line: &str)
        requires
            old(self).wf(),
        ensures
            final(self).wf(),
            final(current_key)@ == line_effect(line@, old(current_key)@).0,
            final(self).view_map() == match line_effect(line@, old(current_key)@).1 {
                Some(m) => added(old(self).entries@, old(current_key)@, m),
                None => old(self).view_map(),
            },
    {
        let cs = chars_of(line);
        let (s, e) = trim_bounds(&cs);
        let n = e - s;
        let ghost t = trimmed(line@);
        assert(t == cs@.subrange(s as int, e as int));
        if n == 0 || cs[s] == '#' {
            return;
        }
        if n >= 5 && cs[s] == 's' && cs[s + 1] == 'f' && cs[s + 2] == 'e' && cs[s + 3] == 'n' && cs[s + 4] == ' ' {
            assert(t.take(5) =~= seq!['s', 'f', 'e', 'n', ' ']);
            let body = slice_chars(&cs, s + 5, e);
            assert(body@ =~= t.skip(5));
            let key = key_of(&body);
            *current_key = string_of(&key, 0, key.len());
            assert(key@.subrange(0, key@.len() as int) =~= key@);
            return;
        }
        proof {
            if t.len() >= 5 && t.take(5) == seq!['s', 'f', 'e', 'n', ' '] {
                assert(t[0] == 's' && t[1] == 'f' && t[2] == 'e' && t[3] == 'n' && t[4] == ' ');
            }
        }
        let key_chars = chars_of(current_key.as_str());
        if key_chars.len() == 0 {
            return;
        }
        let tc = slice_chars(&cs, s, e);
        let parts = split_words(&tc);
        assert(views_of(parts@) == words(t));
        if parts.len() >= 5 {
            assert(views_of(parts@)[0] == parts@[0]@);
            assert(views_of(parts@)[2] == parts@[2]@);
            assert(views_of(parts@)[4] == parts@[4]@);
            let mv = string_of(&parts[0], 0, parts[0].len());
            assert(parts@[0]@.subrange(0, parts@[0]@.len() as int) =~= parts@[0]@);
            let score = match parse_i32(&parts[2]) {
                Some(v) => v,
                None => 0,
            };
            let count = match parse_u32(&parts[4]) {
                Some(v) => v,
                None => 1,
            };
            let key = current_key.clone();
            self.add_move(&key, BookMove { mv, score, count });
        }
    }

    /// The recorded move to play in `pos`: the best (see `is_best`) of the
    /// entry of its key, if there is one with moves.
    pub fn probe(&self, pos: &Position) -> (r: Option<String>)
        requires
            self.wf(),
            pos@.pieces_ok(),
        ensures
            ({
                let key = book_key(sfen_text(pos@));
                let m = self.view_map();
                match r {
                    None => !m.dom().contains(key) || m[key].len() == 0,
                    Some(s) => m.dom().contains(key) && exists|i: int| is_best(m[key], i) && m[key][i].0 == s@,
                }
            }),
    {
        let sfen = pos.to_sfen();
        let cs = chars_of(sfen.as_str());
        let key = key_of(&cs);
        let key_s = string_of(&key, 0, key.len());
        assert(key@.subrange(0, key@.len() as int) =~= key@);
        let idx = match self.find(&key_s) {
            Some(i) => i,
            None => {
                return None;
            },
        };
        let moves = &self.entries[idx].moves;
        if moves.len() == 0 {
            return None;
        }
        let ghost ms = moves_view(moves@);
        let mut best: usize = 0;
        let mut i: usize = 1;
        while i < moves.len()
            invariant
                1 <= i <= moves@.len(),
                best < i,
                ms == moves_view(moves@),
                forall|j: int| 0 <= j < i ==> !lex_less(ms[best as int], #[trigger] ms[j]),
                forall|j: int| best < j < i ==> lex_less(#[trigger] ms[j], ms[best as int]),
            decreases moves@.len() - i,
        {
            let a = &moves[best];
            let b = &moves[i];
            if !(b.count < a.count || (b.count == a.count && b.score < a.score)) {
                best = i;
            }
            i = i + 1;
        }
        let out = moves[best].mv.clone();
        proof {
            assert(is_best(ms, best as int));
            assert(key_s@ == book_key(sfen_text(pos@)));
            assert(find_entry(self.entries@, key_s@) == Some(idx as int));
            assert(self.view_map().dom().contains(key_s@));
            assert(self.view_map()[key_s@] == ms);
            assert(ms[best as int].0 == out@);
        }
        Some(out)
    }
}

proof fn lemma_find_in(es: Seq<BookEntry>, key: Seq<char>, x: int)
    requires
        0 <= x < es.len(),
        es[x].key@ == key,
        forall|i: int, j: int| 0 <= i < j < es.len() ==> (#[trigger] es[i]).key@ != (#[trigger] es[j]).key@,
    ensures
        find_entry(es, key) == Some(x),
{
    assert(exists|k: int| 0 <= k < es.len() && (#[trigger] es[k]).key@ == key);
    let c = choose|k: int| 0 <= k < es.len() && (#[trigger] es[k]).key@ == key;
    if c != x {
        if c < x {
            assert(es[c].key@ != es[x].key@);
        } else {
            assert(es[x].key@ != es[c].key@);
        }
    }
}

/// The characters `cs[start..end]`.
fn slice_chars(cs: &Vec<char>, start: usize, end: usize) -> (r: Vec<char>)
    requires
        start <= end <= cs@.len(),
    ensures
        r@ == cs@.subrange(start as int, end as int),
{
    let mut out: Vec<char> = Vec::new();
    let mut i = start;
    while i < end
        invariant
            start <= i <= end <= cs@.len(),
            out@ == cs@.subrange(start as int, i as int),
        decreases end - i,
    {
        out.push(cs[i]);
        i = i + 1;
        assert(out@ =~= cs@.subrange(start as int, i as int));
    }
    out
}

/// The bounds of `cs` without its leading and trailing whitespace.
fn trim_bounds(cs: &Vec<char>) -> (r: (usize, usize))
    ensures
        r.0 <= r.1 <= cs@.len(),
        r.0 == trim_start(cs@),
        r.1 == trim_end(cs@),
{
    let n = cs.len();
    let mut s: usize = 0;
    while s < n && is_space_char(cs[s])
        invariant
            s <= n,
            n == cs@.len(),
            forall|k: int| 0 <= k < s ==> is_space(#[trigger] cs@[k]),
        decreases n - s,
    {
        s = s + 1;
    }
    proof {
        lemma_trim_start(cs@, s as int);
    }
    let mut e: usize = n;
    while e > s && is_space_char(cs[e - 1])
        invariant
            s <= e <= n,
            n == cs@.len(),
            forall|k: int| e <= k < n ==> is_space(#[trigger] cs@[k]),
        decreases e,
    {
        e = e - 1;
    }
    proof {
        lemma_trim_end(cs@, s as int, e as int);
    }
    (s, e)
}

proof fn lemma_trim_start(s: Seq<char>, i: int)
    requires
        0 <= i <= s.len(),
        forall|k: int| 0 <= k < i ==> is_space(#[trigger] s[k]),
        i == s.len() || !is_space(s[i]),
    ensures
        trim_start(s) == i,
    decreases i,
{
    if i > 0 {
        assert(is_space(s[0]));
        let t = s.drop_first();
        assert forall|k: int| 0 <= k < i - 1 implies is_space(#[trigger] t[k]) by {
            assert(t[k] == s[k + 1]);
        }
        if i - 1 < t.len() {
            assert(t[i - 1] == s[i]);
        }
        lemma_trim_start(t, i - 1);
    }
}

proof fn lemma_trim_start_bounds(s: Seq<char>)
    ensures
        0 <= trim_start(s) <= s.len(),
    decreases s.len(),
{
    if s.len() > 0 && is_space(s[0]) {
        lemma_trim_start_bounds(s.drop_first());
    }
}

proof fn lemma_trim_start_prefix(s: Seq<char>, m: int)
    requires
        trim_start(s) <= m <= s.len(),
    ensures
        trim_start(s.subrange(0, m)) == trim_start(s),
    decreases s.len(),
{
    lemma_trim_start_bounds(s);
    let p = s.subrange(0, m);
    if s.len() == 0 || !is_space(s[0]) {
        if p.len() > 0 {
            assert(p[0] == s[0]);
        }
    } else {
        lemma_trim_start_bounds(s.drop_first());
        assert(p[0] == s[0]);
        assert(p.drop_first() =~= s.drop_first().subrange(0, m - 1));
        lemma_trim_start_prefix(s.drop_first(), m - 1);
    }
}

proof fn lemma_trim_end(s: Seq<char>, st: int, e: int)
    requires
        st == trim_start(s),
        st <= e <= s.len(),
        forall|k: int| e <= k < s.len() ==> is_space(#[trigger] s[k]),
        e == st || !is_space(s[e - 1]),
    ensures
        trim_end(s) == e,
    decreases s.len(),
{
    lemma_trim_start_bounds(s);
    if s.len() == 0 || trim_start(s) == s.len() {
        if e > st {
            assert(e - 1 >= trim_start(s));
        }
    } else if !is_space(s.last()) {
        if e < s.len() {
            assert(is_space(s[s.len() - 1]));
        }
    } else {
        assert(e < s.len());
        let t = s.drop_last();
        lemma_trim_start_prefix(s, s.len() - 1);
        assert(t =~= s.subrange(0, s.len() - 1));
        assert forall|k: int| e <= k < t.len() implies is_space(#[trigger] t[k]) by {
            assert(t[k] == s[k]);
        }
        if e > st {
            assert(t[e - 1] == s[e - 1]);
        }
        lemma_trim_end(t, st, e);
    }
}

/// The key of an SFEN text (see `book_key`).
fn key_of(cs: &Vec<char>) -> (r: Vec<char>)
    ensures
        r@ == book_key(cs@),
{
    let n = cs.len();
    let mut spaces: usize = 0;
    let mut i: usize = 0;
    while i < n
        invariant
            i <= n,
            n == cs@.len(),
            spaces == space_count(cs@.subrange(0, i as int)),
            spaces <= 2,
            nth_space(cs@.subrange(0, i as int), 2) is None,
        decreases n - i,
    {
        let ghost pre = cs@.subrange(0, i as int);
        let ghost nxt = cs@.subrange(0, i + 1);
        assert(nxt.drop_last() =~= pre);
        if cs[i] == ' ' {
            if spaces == 2 {
                assert(nth_space(nxt, 2) == Some(i as int));
                proof {
                    lemma_nth_space_prefix(cs@, i + 1);
                }
                let out = slice_chars(cs, 0, i);
                assert(out@ =~= cs@.take(i as int));
                return out;
            }
            spaces = spaces + 1;
        }
        i = i + 1;
    }
    assert(cs@.subrange(0, n as int) =~= cs@);
    let out = slice_chars(cs, 0, n);
    out
}

/// The third space found in a prefix is the third space of the whole text.
proof fn lemma_nth_space_prefix(s: Seq<char>, m: int)
    requires
        0 <= m <= s.len(),
        nth_space(s.subrange(0, m), 2) is Some,
    ensures
        nth_space(s, 2) == nth_space(s.subrange(0, m), 2),
    decreases s.len() - m,
{
    if m < s.len() {
        let p = s.subrange(0, m + 1);
        let q = s.subrange(0, m);
        assert(p.drop_last() =~= q);
        lemma_space_count_grows(q);
        assert(nth_space(p, 2) == nth_space(q, 2));
        lemma_nth_space_prefix(s, m + 1);
    } else {
        assert(s.subrange(0, m) =~= s);
    }
}

/// Once a text has its `k`-th space, its count of spaces exceeds `k`.
proof fn lemma_space_count_grows(s: Seq<char>)
    requires
        nth_space(s, 2) is Some,
    ensures
        space_count(s) > 2,
    decreases s.len(),
{
    if s.len() > 0 && !(s.last() == ' ' && space_count(s.drop_last()) == 2) {
        lemma_space_count_grows(s.drop_last());
    }
}


impl OpeningBook {
    /// The book has an entry for the position.
    pub open spec fn knows(&self, v: PosView) -> bool {
        self.view_map().dom().contains(book_key(sfen_text(v)))
    }

    /// The moves recorded for the position.
    pub open spec fn moves_for(&self, v: PosView) -> Seq<(Seq<char>, i32, u32)> {
        self.view_map()[book_key(sfen_text(v))]
    }

    /// The move to play from the book in `pos`: the legal move whose USI
    /// text is the best recorded move of the position, when the book has
    /// moves for it and that move is legal.
    pub fn book_move(&self, pos: &Position) -> (r: Option<Move>)
        requires
            self.wf(),
            pos@.wf(),
        ensures
            r matches Some(mv) ==> pseudo_spec(pos@, mv) && legal_spec(pos@, mv) && self.knows(pos@) && exists|i: int|
                is_best(self.moves_for(pos@), i) && self.moves_for(pos@)[i].0 == mv.usi_spec(),
            r is None ==> !self.knows(pos@) || self.moves_for(pos@).len() == 0 || exists|i: int|
                is_best(self.moves_for(pos@), i) && forall|mv: Move|
                    pseudo_spec(pos@, mv) && legal_spec(pos@, mv) ==> mv.usi_spec() != self.moves_for(pos@)[i].0,
    {
        let text = match self.probe(pos) {
            Some(t) => t,
            None => {
                return None;
            },
        };
        let legal = pos.generate_legal_moves();
        proof {
            assert forall|i: int| 0 <= i < legal@.len() implies usi_writable(#[trigger] legal@[i]) by {
                assert(legal@.contains(legal@[i]));
                lemma_pseudo_makeable(pos@, legal@[i]);
            }
        }
        let found = find_usi_move(&legal, text.as_str());
        proof {
            let ms = self.moves_for(pos@);
            let b = choose|i: int| is_best(self.view_map()[book_key(sfen_text(pos@))], i) && self.view_map()[book_key(
                sfen_text(pos@),
            )][i].0 == text@;
            assert(is_best(ms, b) && ms[b].0 == text@);
            if found is None {
                assert forall|mv: Move| pseudo_spec(pos@, mv) && legal_spec(pos@, mv) implies mv.usi_spec() != text@ by {
                    assert(legal@.contains(mv));
                    let k = choose|k: int| 0 <= k < legal@.len() && legal@[k] == mv;
                    assert(legal@[k].usi_spec() != text@);
                }
            } else {
                let mv = found->0;
                let k = choose|k: int| 0 <= k < legal@.len() && legal@[k] == mv && mv.usi_spec() == text@ && forall|j: int|
                    0 <= j < k ==> (#[trigger] legal@[j]).usi_spec() != text@;
                assert(legal@.contains(mv));
            }
        }
        found
    }
}

} // verus!
