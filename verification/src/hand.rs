//! Pieces in hand, packed into one 32-bit word.
//!
//! Bits 0-4 hold the pawns, 6-8 the lances, 10-12 the knights, 14-16 the
//! silvers, 18-20 the golds, 22-23 the bishops and 25-26 the rooks.
use vstd::prelude::*;
use crate::piece::{HandPiece, PieceType, hand_piece_of, upper_first, to_uppercase_first};
use crate::text::{push_char, push_decimal, decimal, is_digit, digits_value, is_digit_char, parse_digits_u32, chars_of, all_digits, lemma_decimal};

verus! {

/// Where the count of a hand kind starts in the packed word.
pub open spec fn hand_shift(hp: HandPiece) -> u32 {
    match hp {
        HandPiece::HPawn => 0,
        HandPiece::HLance => 6,
        HandPiece::HKnight => 10,
        HandPiece::HSilver => 14,
        HandPiece::HGold => 18,
        HandPiece::HBishop => 22,
        HandPiece::HRook => 25,
    }
}

/// The largest count that the field of a hand kind holds.
pub open spec fn hand_field_max(hp: HandPiece) -> u32 {
    match hp {
        HandPiece::HPawn => 0x1F,
        HandPiece::HBishop => 3,
        HandPiece::HRook => 3,
        _ => 7,
    }
}

/// The field of a hand kind, in place.
pub open spec fn hand_mask(hp: HandPiece) -> u32 {
    (hand_field_max(hp) << hand_shift(hp)) as u32
}

/// One piece of a hand kind, in place.
pub open spec fn hand_one(hp: HandPiece) -> u32 {
    (1u32 << hand_shift(hp)) as u32
}

/// `x + y` wrapped to 32 bits.
pub open spec fn wadd(x: u32, y: u32) -> u32 {
    if x + y > u32::MAX {
        (x + y - 0x1_0000_0000) as u32
    } else {
        (x + y) as u32
    }
}

/// `x - y` wrapped to 32 bits.
pub open spec fn wsub(x: u32, y: u32) -> u32 {
    if x - y < 0 {
        (x - y + 0x1_0000_0000) as u32
    } else {
        (x - y) as u32
    }
}

/// The word after `set(hp, count)`.
pub open spec fn hand_set_spec(v: u32, hp: HandPiece, count: u32) -> u32 {
    (v & !hand_mask(hp)) | ((count << hand_shift(hp)) as u32)
}

/// The hand kind named by an (uppercase) letter of a hand in SFEN.
pub open spec fn hand_letter(c: char) -> Option<HandPiece> {
    if c == 'P' {
        Some(HandPiece::HPawn)
    } else if c == 'L' {
        Some(HandPiece::HLance)
    } else if c == 'N' {
        Some(HandPiece::HKnight)
    } else if c == 'S' {
        Some(HandPiece::HSilver)
    } else if c == 'G' {
        Some(HandPiece::HGold)
    } else if c == 'B' {
        Some(HandPiece::HBishop)
    } else if c == 'R' {
        Some(HandPiece::HRook)
    } else {
        None
    }
}

/// The letter of a hand kind in SFEN (Black's case).
pub open spec fn hand_char(hp: HandPiece) -> char {
    match hp {
        HandPiece::HPawn => 'P',
        HandPiece::HLance => 'L',
        HandPiece::HKnight => 'N',
        HandPiece::HSilver => 'S',
        HandPiece::HGold => 'G',
        HandPiece::HBishop => 'B',
        HandPiece::HRook => 'R',
    }
}

/// The number of leading ASCII digits of `cs`.
pub open spec fn digit_run(cs: Seq<char>) -> nat
    decreases cs.len(),
{
    if cs.len() > 0 && is_digit(cs[0]) {
        1 + digit_run(cs.drop_first())
    } else {
        0
    }
}

/// What `Hand::from_sfen` reads from the characters `cs` after the hand `h`:
/// a run of digits gives the count of the kind whose letter follows (1 when
/// there is no run); each entry sets (not adds to) that count.
pub open spec fn hand_parse(cs: Seq<char>, h: u32) -> Option<u32>
    decreases cs.len(),
{
    if cs.len() == 0 {
        Some(h)
    } else if is_digit(cs[0]) {
        let k = digit_run(cs);
        let v = digits_value(cs.take(k as int));
        if v > u32::MAX || k >= cs.len() {
            None
        } else {
            match hand_letter(upper_first(cs[k as int])) {
                None => None,
                Some(hp) => hand_parse(cs.skip(k + 1int), hand_set_spec(h, hp, v as u32)),
            }
        }
    } else {
        match hand_letter(upper_first(cs[0])) {
            None => None,
            Some(hp) => hand_parse(cs.skip(1), hand_set_spec(h, hp, 1)),
        }
    }
}

/// The order in which SFEN lists a hand: rook, bishop, gold, silver, knight,
/// lance, pawn.
pub open spec fn sfen_order(i: int) -> HandPiece {
    if i == 0 {
        HandPiece::HRook
    } else if i == 1 {
        HandPiece::HBishop
    } else if i == 2 {
        HandPiece::HGold
    } else if i == 3 {
        HandPiece::HSilver
    } else if i == 4 {
        HandPiece::HKnight
    } else if i == 5 {
        HandPiece::HLance
    } else {
        HandPiece::HPawn
    }
}

/// The SFEN text of `n` pieces of one kind: nothing for none, the letter for
/// one, the count and the letter for more.
pub open spec fn hand_entry(n: nat, c: char) -> Seq<char> {
    if n == 0 {
        Seq::empty()
    } else if n == 1 {
        seq![c]
    } else {
        decimal(n).push(c)
    }
}

/// A hand: the count of each kind in a packed word (see the module documentation).
#[derive(Clone, Copy, PartialEq, Eq, Structural, Debug)]
pub struct Hand(pub u32);

impl Hand {
    /// The number of pieces of kind `hp`.
    pub open spec fn cnt(self, hp: HandPiece) -> nat {
        ((self.0 >> hand_shift(hp)) & hand_field_max(hp)) as nat
    }

    /// The SFEN text of the entries for the first `k` kinds in SFEN order.
    pub open spec fn sfen_prefix(self, k: int) -> Seq<char>
        decreases k,
    {
        if k <= 0 {
            Seq::empty()
        } else {
            self.sfen_prefix(k - 1) + hand_entry(self.cnt(sfen_order(k - 1)), hand_char(sfen_order(k - 1)))
        }
    }

    /// The SFEN text of the hand: "-" for the zero word, else the entries in SFEN order.
    pub open spec fn sfen_spec(self) -> Seq<char> {
        if self.0 == 0 {
            seq!['-']
        } else {
            self.sfen_prefix(7)
        }
    }

    /// Counts that fit their fields: setting one field leaves the others alone.
    /// A count never exceeds its field.
    pub proof fn lemma_cnt_bound(h: Hand, hp: HandPiece)
        ensures
            h.cnt(hp) <= hand_field_max(hp) <= 31,
    {
        let x = h.0 >> hand_shift(hp);
        let m = hand_field_max(hp);
        assert(x & m <= m) by (bit_vector);
    }

    pub proof fn lemma_set(v: u32, hp: HandPiece, count: u32)
        requires
            count <= hand_field_max(hp),
        ensures
            Hand(hand_set_spec(v, hp, count)).cnt(hp) == count,
            forall|o: HandPiece| o != hp ==> #[trigger] Hand(hand_set_spec(v, hp, count)).cnt(o) == Hand(v).cnt(o),
    {
        assert forall|o: HandPiece| o != hp implies #[trigger] Hand(hand_set_spec(v, hp, count)).cnt(o) == Hand(v).cnt(o) by {
            lemma_set_other(v, hp, o, count);
        }
        lemma_set_same(v, hp, count);
    }

    /// Adding one piece to a field that is not full changes only that count.
    pub proof fn lemma_add_one(v: u32, hp: HandPiece)
        requires
            Hand(v).cnt(hp) < hand_field_max(hp),
            v + hand_one(hp) <= u32::MAX,
        ensures
            Hand((v + hand_one(hp)) as u32).cnt(hp) == Hand(v).cnt(hp) + 1,
            forall|o: HandPiece| o != hp ==> #[trigger] Hand((v + hand_one(hp)) as u32).cnt(o) == Hand(v).cnt(o),
    {
        assert forall|o: HandPiece| o != hp implies #[trigger] Hand((v + hand_one(hp)) as u32).cnt(o) == Hand(v).cnt(o) by {
            lemma_add_other(v, hp, o);
        }
        lemma_add_same(v, hp);
    }

    /// Removing one piece from a field that is not empty changes only that count.
    pub proof fn lemma_remove_one(v: u32, hp: HandPiece)
        requires
            Hand(v).cnt(hp) > 0,
        ensures
            v >= hand_one(hp),
            Hand((v - hand_one(hp)) as u32).cnt(hp) == Hand(v).cnt(hp) - 1,
            forall|o: HandPiece| o != hp ==> #[trigger] Hand((v - hand_one(hp)) as u32).cnt(o) == Hand(v).cnt(o),
    {
        assert forall|o: HandPiece| o != hp implies #[trigger] Hand((v - hand_one(hp)) as u32).cnt(o) == Hand(v).cnt(o) by {
            lemma_remove_other(v, hp, o);
        }
        lemma_remove_same(v, hp);
    }

    /// The empty hand.
    #[allow(non_snake_case)]
    pub fn EMPTY() -> (r: Hand)
        ensures
            r.0 == 0,
            forall|hp: HandPiece| #[trigger] r.cnt(hp) == 0,
    {
        assert forall|hp: HandPiece| #[trigger] Hand(0).cnt(hp) == 0 by {
            let s = hand_shift(hp);
            let m = hand_field_max(hp);
            lemma_zero_word(s, m);
        }
        Hand(0)
    }

    pub fn new() -> (r: Hand)
        ensures
            r.0 == 0,
            forall|hp: HandPiece| #[trigger] r.cnt(hp) == 0,
    {
        Hand::EMPTY()
    }

    pub fn from_u32(value: u32) -> (r: Hand)
        ensures
            r.0 == value,
    {
        Hand(value)
    }

    pub fn value(self) -> (r: u32)
        ensures
            r == self.0,
    {
        self.0
    }

    /// The number of pieces of one kind.
    pub fn count(self, hp: HandPiece) -> (r: u32)
        ensures
            r == self.cnt(hp),
            r <= hand_field_max(hp),
    {
        let (m, sh): (u32, u32) = match hp {
            HandPiece::HPawn => (0x1F, 0),
            HandPiece::HLance => (7, 6),
            HandPiece::HKnight => (7, 10),
            HandPiece::HSilver => (7, 14),
            HandPiece::HGold => (7, 18),
            HandPiece::HBishop => (3, 22),
            HandPiece::HRook => (3, 25),
        };
        let v = self.0;
        assert((v >> sh) & m <= m) by (bit_vector);
        (v >> sh) & m
    }

    pub fn holds(self, hp: HandPiece) -> (r: bool)
        ensures
            r == (self.cnt(hp) > 0),
    {
        self.count(hp) > 0
    }

    /// Whether any bit outside the pawn field is set (in particular, whether
    /// the hand holds any piece other than pawns).
    pub fn except_pawn_exists(self) -> (r: bool)
        ensures
            r == (self.0 & !0x1Fu32 != 0),
            forall|hp: HandPiece| hp != HandPiece::HPawn && #[trigger] self.cnt(hp) > 0 ==> r,
    {
        let v = self.0;
        proof {
            lemma_upper_fields(v);
        }
        (self.0 & !0x1F) != 0
    }

    /// Adds one piece of a kind (the word wraps round on overflow).
    pub fn add_one(&mut self, hp: HandPiece)
        ensures
            final(self).0 == wadd(old(self).0, hand_one(hp)),
            old(self).cnt(hp) < hand_field_max(hp) && old(self).0 + hand_one(hp) <= u32::MAX ==> final(self).cnt(hp) == old(self).cnt(hp) + 1,
            old(self).cnt(hp) < hand_field_max(hp) && old(self).0 + hand_one(hp) <= u32::MAX ==> forall|o: HandPiece| o != hp ==> #[trigger] final(self).cnt(o) == old(self).cnt(o),
    {
        proof {
            if self.cnt(hp) < hand_field_max(hp) && self.0 + hand_one(hp) <= u32::MAX {
                Self::lemma_add_one(self.0, hp);
            }
        }
        let one = hand_one_exec(hp);
        self.0 = self.0.wrapping_add(one);
    }

    /// Removes one piece of a kind (the word wraps round below zero).
    pub fn remove_one(&mut self, hp: HandPiece)
        ensures
            final(self).0 == wsub(old(self).0, hand_one(hp)),
            old(self).cnt(hp) > 0 ==> final(self).0 == old(self).0 - hand_one(hp),
            old(self).cnt(hp) > 0 ==> final(self).cnt(hp) == old(self).cnt(hp) - 1,
            old(self).cnt(hp) > 0 ==> forall|o: HandPiece| o != hp ==> #[trigger] final(self).cnt(o) == old(self).cnt(o),
    {
        proof {
            if self.cnt(hp) > 0 {
                Self::lemma_remove_one(self.0, hp);
            }
        }
        let one = hand_one_exec(hp);
        self.0 = self.0.wrapping_sub(one);
    }

    /// Sets the count of one kind.
    pub fn set(&mut self, hp: HandPiece, count: u32)
        ensures
            final(self).0 == hand_set_spec(old(self).0, hp, count),
            count <= hand_field_max(hp) ==> final(self).cnt(hp) == count,
            count <= hand_field_max(hp) ==> forall|o: HandPiece| o != hp ==> #[trigger] final(self).cnt(o) == old(self).cnt(o),
    {
        proof {
            if count <= hand_field_max(hp) {
                Self::lemma_set(self.0, hp, count);
            }
        }
        let (mask, shift): (u32, u32) = match hp {
            HandPiece::HPawn => (0x1F, 0),
            HandPiece::HLance => (0x1C0, 6),
            HandPiece::HKnight => (0x1C00, 10),
            HandPiece::HSilver => (0x1C000, 14),
            HandPiece::HGold => (0x1C0000, 18),
            HandPiece::HBishop => (0xC00000, 22),
            HandPiece::HRook => (0x6000000, 25),
        };
        proof {
            lemma_field_constants();
        }
        self.0 = (self.0 & !mask) | (count << shift);
    }

    /// The hand in SFEN ("-" for the zero word).
    pub fn to_sfen(self) -> (r: String)
        ensures
            r@ == self.sfen_spec(),
    {
        let mut s = String::new();
        if self.0 == 0 {
            push_char(&mut s, '-');
            return s;
        }
        let mut i: u8 = 0;
        while i < 7
            invariant
                i <= 7,
                s@ == self.sfen_prefix(i as int),
            decreases 7 - i,
        {
            let (hp, ch) = sfen_order_exec(i);
            let count = self.count(hp);
            if count > 0 {
                if count > 1 {
                    push_decimal(&mut s, count);
                }
                push_char(&mut s, ch);
            }
            proof {
                let e = hand_entry(self.cnt(hp), ch);
                assert(self.sfen_prefix(i + 1) == self.sfen_prefix(i as int) + e);
                if count == 0 {
                    assert(s@ =~= self.sfen_prefix(i as int) + e);
                } else if count == 1 {
                    assert(s@ =~= self.sfen_prefix(i as int) + e);
                } else {
                    assert(s@ =~= self.sfen_prefix(i as int) + e);
                }
            }
            i = i + 1;
        }
        s
    }

    /// Reads a hand in SFEN ("-", or entries such as "RB3P").
    pub fn from_sfen(s: &str) -> (r: Option<Hand>)
        ensures
            s@ == seq!['-'] ==> r == Some(Hand(0)),
            s@ != seq!['-'] ==> r == (match hand_parse(s@, 0) {
                Some(v) => Some(Hand(v)),
                None => None,
            }),
    {
        let cs = chars_of(s);
        if cs.len() == 1 && cs[0] == '-' {
            assert(s@ =~= seq!['-']);
            return Some(Hand::EMPTY());
        }
        proof {
            if s@ == seq!['-'] {
                assert(cs@.len() == 1 && cs@[0] == '-');
            }
        }
        let n = cs.len();
        let mut hand = Hand::EMPTY();
        assert(cs@.skip(0) =~= cs@);
        let mut i: usize = 0;
        while i < n
            invariant
                i <= n,
                n == cs@.len(),
                cs@ == s@,
                s@ != seq!['-'],
                hand_parse(s@, 0) == hand_parse(cs@.skip(i as int), hand.0),
            decreases n - i,
        {
            let ghost rest = cs@.skip(i as int);
            let ch = cs[i];
            if is_digit_char(ch) {
                let mut j = i + 1;
                while j < n && is_digit_char(cs[j])
                    invariant
                        i < j <= n,
                        n == cs@.len(),
                        forall|k: int| i <= k < j ==> is_digit(#[trigger] cs@[k]),
                    decreases n - j,
                {
                    j = j + 1;
                }
                proof {
                    lemma_digit_run(cs@, i as int, j as int);
                    assert(cs@.skip(i as int).take((j - i) as int) =~= cs@.subrange(i as int, j as int));
                }
                let count = parse_digits_u32(&cs, i, j);
                if count.is_none() {
                    return None;
                }
                let count = count.unwrap();
                if j >= n {
                    return None;
                }
                let pc = cs[j];
                let up = to_uppercase_first(pc);
                let up = up.unwrap();
                let hp = match hand_letter_exec(up) {
                    Some(hp) => hp,
                    None => return None,
                };
                hand.set(hp, count);
                proof {
                    assert(rest[(j - i) as int] == cs@[j as int]);
                    assert(rest.skip((j - i) + 1) =~= cs@.skip(j + 1));
                }
                i = j + 1;
            } else {
                let up = to_uppercase_first(ch);
                let up = up.unwrap();
                let hp = match hand_letter_exec(up) {
                    Some(hp) => hp,
                    None => return None,
                };
                hand.set(hp, 1);
                proof {
                    assert(rest.skip(1) =~= cs@.skip(i + 1));
                }
                i = i + 1;
            }
        }
        proof {
            assert(cs@.skip(n as int) =~= Seq::<char>::empty());
        }
        Some(hand)
    }

    /// Adds one piece of the hand kind of `pt` (unpromoted), if it can be held.
    pub fn add_piece(&mut self, pt: PieceType)
        ensures
            hand_piece_of(pt) is None ==> *final(self) == *old(self),
            hand_piece_of(pt) matches Some(hp) ==> final(self).0 == wadd(old(self).0, hand_one(hp)),
    {
        if let Some(hp) = HandPiece::from_piece_type(pt) {
            self.add_one(hp);
        }
    }

    /// Removes one piece of the hand kind of `pt` (unpromoted), if it can be held.
    pub fn remove_piece(&mut self, pt: PieceType)
        ensures
            hand_piece_of(pt) is None ==> *final(self) == *old(self),
            hand_piece_of(pt) matches Some(hp) ==> final(self).0 == wsub(old(self).0, hand_one(hp)),
    {
        if let Some(hp) = HandPiece::from_piece_type(pt) {
            self.remove_one(hp);
        }
    }
}

impl Default for Hand {
    fn default() -> (r: Hand)
        ensures
            r.0 == 0,
    {
        Hand::EMPTY()
    }
}

fn hand_one_exec(hp: HandPiece) -> (r: u32)
    ensures
        r == hand_one(hp),
{
    proof {
        lemma_field_constants();
    }
    match hp {
        HandPiece::HPawn => 1,
        HandPiece::HLance => 0x40,
        HandPiece::HKnight => 0x400,
        HandPiece::HSilver => 0x4000,
        HandPiece::HGold => 0x40000,
        HandPiece::HBishop => 0x400000,
        HandPiece::HRook => 0x2000000,
    }
}

pub(crate) fn hand_letter_exec(c: char) -> (r: Option<HandPiece>)
    ensures
        r == hand_letter(c),
{
    match c {
        'P' => Some(HandPiece::HPawn),
        'L' => Some(HandPiece::HLance),
        'N' => Some(HandPiece::HKnight),
        'S' => Some(HandPiece::HSilver),
        'G' => Some(HandPiece::HGold),
        'B' => Some(HandPiece::HBishop),
        'R' => Some(HandPiece::HRook),
        _ => None,
    }
}

fn sfen_order_exec(i: u8) -> (r: (HandPiece, char))
    requires
        i < 7,
    ensures
        r.0 == sfen_order(i as int),
        r.1 == hand_char(r.0),
{
    match i {
        0 => (HandPiece::HRook, 'R'),
        1 => (HandPiece::HBishop, 'B'),
        2 => (HandPiece::HGold, 'G'),
        3 => (HandPiece::HSilver, 'S'),
        4 => (HandPiece::HKnight, 'N'),
        5 => (HandPiece::HLance, 'L'),
        _ => (HandPiece::HPawn, 'P'),
    }
}

pub(crate) proof fn lemma_digit_run(cs: Seq<char>, i: int, j: int)
    requires
        0 <= i < j <= cs.len(),
        forall|k: int| i <= k < j ==> is_digit(#[trigger] cs[k]),
        j == cs.len() || !is_digit(cs[j]),
    ensures
        digit_run(cs.skip(i)) == j - i,
    decreases j - i,
{
    let t = cs.skip(i);
    assert(t.len() > 0 && t[0] == cs[i]);
    assert(is_digit(cs[i]));
    assert(digit_run(t) == 1 + digit_run(t.drop_first()));
    assert(t.drop_first() =~= cs.skip(i + 1));
    if i + 1 < j {
        lemma_digit_run(cs, i + 1, j);
    } else {
        let u = cs.skip(i + 1);
        if u.len() > 0 {
            assert(u[0] == cs[j]);
        }
    }
}

proof fn lemma_set_same(v: u32, hp: HandPiece, count: u32)
    requires
        count <= hand_field_max(hp),
    ensures
        Hand(hand_set_spec(v, hp, count)).cnt(hp) == count,
{
    lemma_set_fields(v, count);
}

/// The width in bits of the field of a hand kind.
spec fn hand_width(hp: HandPiece) -> u32 {
    match hp {
        HandPiece::HPawn => 5,
        HandPiece::HBishop => 2,
        HandPiece::HRook => 2,
        _ => 3,
    }
}

proof fn lemma_layout(hp: HandPiece, o: HandPiece)
    requires
        hp != o,
    ensures
        hand_shift(hp) + hand_width(hp) <= hand_shift(o) || hand_shift(o) + hand_width(o) <= hand_shift(hp),
        hand_shift(hp) + hand_width(hp) <= 27,
        hand_field_max(hp) == 0x1F && hand_width(hp) == 5 || hand_field_max(hp) == 7 && hand_width(hp) == 3
            || hand_field_max(hp) == 3 && hand_width(hp) == 2,
{
}

/// The field of `o` is untouched by writing a small count into the field of `hp`.
proof fn lemma_set_other(v: u32, hp: HandPiece, o: HandPiece, count: u32)
    requires
        count <= hand_field_max(hp),
        o != hp,
    ensures
        Hand(hand_set_spec(v, hp, count)).cnt(o) == Hand(v).cnt(o),
{
    lemma_layout(hp, o);
    lemma_layout(o, hp);
    let s = hand_shift(hp);
    let m = hand_field_max(hp);
    let w = hand_width(hp);
    let t = hand_shift(o);
    let n = hand_field_max(o);
    let x = hand_width(o);
    assert(s + w <= 27 && t + x <= 27 && (s + w <= t || t + x <= s) && (m == 0x1Fu32 && w == 5u32
        || m == 7u32 && w == 3u32 || m == 3u32 && w == 2u32) && (n == 0x1Fu32 && x == 5u32 || n
        == 7u32 && x == 3u32 || n == 3u32 && x == 2u32) && count <= m ==> ((((v & !(m << s)) | (
    count << s)) >> t) & n) == ((v >> t) & n)) by (bit_vector);
}

proof fn lemma_add_same(v: u32, hp: HandPiece)
    requires
        Hand(v).cnt(hp) < hand_field_max(hp),
        v + hand_one(hp) <= u32::MAX,
    ensures
        Hand((v + hand_one(hp)) as u32).cnt(hp) == Hand(v).cnt(hp) + 1,
{
    let s = hand_shift(hp);
    let m = hand_field_max(hp);
    assert(s <= 25 && (m == 0x1F || m == 7 || m == 3));
    assert(s <= 25 && (m == 0x1Fu32 || m == 7u32 || m == 3u32) && (v >> s) & m < m && v + (1u32
        << s) <= 0xFFFF_FFFFu32 ==> ((((v + (1u32 << s)) as u32) >> s) & m) == ((v >> s) & m) + 1)
        by (bit_vector);
}

proof fn lemma_add_other(v: u32, hp: HandPiece, o: HandPiece)
    requires
        Hand(v).cnt(hp) < hand_field_max(hp),
        v + hand_one(hp) <= u32::MAX,
        o != hp,
    ensures
        Hand((v + hand_one(hp)) as u32).cnt(o) == Hand(v).cnt(o),
{
    lemma_layout(hp, o);
    lemma_layout(o, hp);
    let s = hand_shift(hp);
    let m = hand_field_max(hp);
    let w = hand_width(hp);
    let t = hand_shift(o);
    let n = hand_field_max(o);
    let x = hand_width(o);
    assert(s + w <= 27 && t + x <= 27 && (s + w <= t || t + x <= s) && (m == 0x1Fu32 && w == 5u32
        || m == 7u32 && w == 3u32 || m == 3u32 && w == 2u32) && (n == 0x1Fu32 && x == 5u32 || n
        == 7u32 && x == 3u32 || n == 3u32 && x == 2u32) && (v >> s) & m < m && v + (1u32 << s)
        <= 0xFFFF_FFFFu32 ==> ((((v + (1u32 << s)) as u32) >> t) & n) == ((v >> t) & n))
        by (bit_vector);
}

proof fn lemma_remove_same(v: u32, hp: HandPiece)
    requires
        Hand(v).cnt(hp) > 0,
    ensures
        v >= hand_one(hp),
        Hand((v - hand_one(hp)) as u32).cnt(hp) == Hand(v).cnt(hp) - 1,
{
    let s = hand_shift(hp);
    let m = hand_field_max(hp);
    assert(s <= 25 && (m == 0x1F || m == 7 || m == 3));
    assert(s <= 25 && (m == 0x1Fu32 || m == 7u32 || m == 3u32) && (v >> s) & m > 0 ==> v >= (1u32
        << s) && ((((v - (1u32 << s)) as u32) >> s) & m) == ((v >> s) & m) - 1) by (bit_vector);
}

proof fn lemma_remove_other(v: u32, hp: HandPiece, o: HandPiece)
    requires
        Hand(v).cnt(hp) > 0,
        o != hp,
    ensures
        v >= hand_one(hp),
        Hand((v - hand_one(hp)) as u32).cnt(o) == Hand(v).cnt(o),
{
    lemma_remove_same(v, hp);
    lemma_layout(hp, o);
    lemma_layout(o, hp);
    let s = hand_shift(hp);
    let m = hand_field_max(hp);
    let w = hand_width(hp);
    let t = hand_shift(o);
    let n = hand_field_max(o);
    let x = hand_width(o);
    assert(s + w <= 27 && t + x <= 27 && (s + w <= t || t + x <= s) && (m == 0x1Fu32 && w == 5u32
        || m == 7u32 && w == 3u32 || m == 3u32 && w == 2u32) && (n == 0x1Fu32 && x == 5u32 || n
        == 7u32 && x == 3u32 || n == 3u32 && x == 2u32) && (v >> s) & m > 0 ==> ((((v - (1u32
        << s)) as u32) >> t) & n) == ((v >> t) & n)) by (bit_vector);
}

/// The fields above the pawns: any of them non-zero makes the word non-zero
/// outside the pawn field.
proof fn lemma_upper_fields(v: u32)
    by (bit_vector)
    ensures
        (v >> 6u32) & 7u32 != 0 ==> v & !0x1Fu32 != 0,
        (v >> 10u32) & 7u32 != 0 ==> v & !0x1Fu32 != 0,
        (v >> 14u32) & 7u32 != 0 ==> v & !0x1Fu32 != 0,
        (v >> 18u32) & 7u32 != 0 ==> v & !0x1Fu32 != 0,
        (v >> 22u32) & 3u32 != 0 ==> v & !0x1Fu32 != 0,
        (v >> 25u32) & 3u32 != 0 ==> v & !0x1Fu32 != 0,
{
}

/// The masks and unit values of the fields.
proof fn lemma_field_constants()
    by (bit_vector)
    ensures
        0x1Fu32 << 0u32 == 0x1Fu32,
        7u32 << 6u32 == 0x1C0u32,
        7u32 << 10u32 == 0x1C00u32,
        7u32 << 14u32 == 0x1C000u32,
        7u32 << 18u32 == 0x1C0000u32,
        3u32 << 22u32 == 0xC00000u32,
        3u32 << 25u32 == 0x6000000u32,
        1u32 << 0u32 == 1u32,
        1u32 << 6u32 == 0x40u32,
        1u32 << 10u32 == 0x400u32,
        1u32 << 14u32 == 0x4000u32,
        1u32 << 18u32 == 0x40000u32,
        1u32 << 22u32 == 0x400000u32,
        1u32 << 25u32 == 0x2000000u32,
{
}

/// Setting a field and reading it back gives the count set.
proof fn lemma_set_fields(v: u32, count: u32)
    by (bit_vector)
    ensures
        count <= 0x1F ==> ((((v & !(0x1Fu32 << 0u32)) | (count << 0u32)) >> 0u32) & 0x1Fu32) == count,
        count <= 7 ==> ((((v & !(7u32 << 6u32)) | (count << 6u32)) >> 6u32) & 7u32) == count,
        count <= 7 ==> ((((v & !(7u32 << 10u32)) | (count << 10u32)) >> 10u32) & 7u32) == count,
        count <= 7 ==> ((((v & !(7u32 << 14u32)) | (count << 14u32)) >> 14u32) & 7u32) == count,
        count <= 7 ==> ((((v & !(7u32 << 18u32)) | (count << 18u32)) >> 18u32) & 7u32) == count,
        count <= 3 ==> ((((v & !(3u32 << 22u32)) | (count << 22u32)) >> 22u32) & 3u32) == count,
        count <= 3 ==> ((((v & !(3u32 << 25u32)) | (count << 25u32)) >> 25u32) & 3u32) == count,
{
}


/// The bits of the seven count fields.
pub open spec fn hand_fields_mask() -> u32 {
    0x6DDDDDFu32
}

/// The word that reading the SFEN entries of the first `k` kinds (in SFEN
/// order) of `h` builds from the zero word.
pub open spec fn hand_upto(h: Hand, k: int) -> u32
    decreases k,
{
    if k <= 0 {
        0
    } else {
        let hp = sfen_order(k - 1);
        if h.cnt(hp) == 0 {
            hand_upto(h, k - 1)
        } else {
            hand_set_spec(hand_upto(h, k - 1), hp, h.cnt(hp) as u32)
        }
    }
}

/// Two words with no bit outside the count fields are equal when their
/// counts are; writing a count that fits its field sets no bit outside them.
proof fn lemma_fields_word(a: u32, b: u32, c: u32)
    by (bit_vector)
    ensures
        a & !0x6DDDDDFu32 == 0 && b & !0x6DDDDDFu32 == 0 && (a >> 0u32) & 0x1Fu32 == (b >> 0u32) & 0x1Fu32 && (a >> 6u32)
            & 7u32 == (b >> 6u32) & 7u32 && (a >> 10u32) & 7u32 == (b >> 10u32) & 7u32 && (a >> 14u32)
            & 7u32 == (b >> 14u32) & 7u32 && (a >> 18u32) & 7u32 == (b >> 18u32) & 7u32 && (a >> 22u32)
            & 3u32 == (b >> 22u32) & 3u32 && (a >> 25u32) & 3u32 == (b >> 25u32) & 3u32 ==> a == b,
        a & !0x6DDDDDFu32 == 0 && c <= 0x1F ==> ((a & !(0x1Fu32 << 0u32)) | (c << 0u32)) & !0x6DDDDDFu32 == 0,
        a & !0x6DDDDDFu32 == 0 && c <= 7 ==> ((a & !(7u32 << 6u32)) | (c << 6u32)) & !0x6DDDDDFu32 == 0,
        a & !0x6DDDDDFu32 == 0 && c <= 7 ==> ((a & !(7u32 << 10u32)) | (c << 10u32)) & !0x6DDDDDFu32 == 0,
        a & !0x6DDDDDFu32 == 0 && c <= 7 ==> ((a & !(7u32 << 14u32)) | (c << 14u32)) & !0x6DDDDDFu32 == 0,
        a & !0x6DDDDDFu32 == 0 && c <= 7 ==> ((a & !(7u32 << 18u32)) | (c << 18u32)) & !0x6DDDDDFu32 == 0,
        a & !0x6DDDDDFu32 == 0 && c <= 3 ==> ((a & !(3u32 << 22u32)) | (c << 22u32)) & !0x6DDDDDFu32 == 0,
        a & !0x6DDDDDFu32 == 0 && c <= 3 ==> ((a & !(3u32 << 25u32)) | (c << 25u32)) & !0x6DDDDDFu32 == 0,
{
}

/// Two words with no bit outside the count fields and the same counts are equal.
proof fn lemma_hand_ext(a: Hand, b: Hand)
    requires
        a.0 & !hand_fields_mask() == 0,
        b.0 & !hand_fields_mask() == 0,
        forall|hp: HandPiece| #[trigger] a.cnt(hp) == b.cnt(hp),
    ensures
        a == b,
{
    assert(a.cnt(HandPiece::HPawn) == b.cnt(HandPiece::HPawn));
    assert(a.cnt(HandPiece::HLance) == b.cnt(HandPiece::HLance));
    assert(a.cnt(HandPiece::HKnight) == b.cnt(HandPiece::HKnight));
    assert(a.cnt(HandPiece::HSilver) == b.cnt(HandPiece::HSilver));
    assert(a.cnt(HandPiece::HGold) == b.cnt(HandPiece::HGold));
    assert(a.cnt(HandPiece::HBishop) == b.cnt(HandPiece::HBishop));
    assert(a.cnt(HandPiece::HRook) == b.cnt(HandPiece::HRook));
    lemma_fields_word(a.0, b.0, 0);
}

/// Writing a count that fits its field keeps every bit outside the fields clear.
proof fn lemma_set_in_fields(v: u32, hp: HandPiece, count: u32)
    requires
        v & !hand_fields_mask() == 0,
        count <= hand_field_max(hp),
    ensures
        hand_set_spec(v, hp, count) & !hand_fields_mask() == 0,
{
    lemma_fields_word(v, v, count);
}

/// The word built from the first `k` entries has no bit outside the fields,
/// holds `h`'s counts of those kinds and none of the others.
proof fn lemma_upto_counts(h: Hand, k: int)
    requires
        0 <= k <= 7,
    ensures
        hand_upto(h, k) & !hand_fields_mask() == 0,
        forall|i: int| 0 <= i < k ==> #[trigger] Hand(hand_upto(h, k)).cnt(sfen_order(i)) == h.cnt(sfen_order(i)),
        forall|i: int| k <= i < 7 ==> #[trigger] Hand(hand_upto(h, k)).cnt(sfen_order(i)) == 0,
    decreases k,
{
    if k == 0 {
        lemma_zero_word(0, hand_fields_mask());
        assert forall|i: int| 0 <= i < 7 implies #[trigger] Hand(0).cnt(sfen_order(i)) == 0 by {
            let s = hand_shift(sfen_order(i));
            let m = hand_field_max(sfen_order(i));
            lemma_zero_word(s, m);
        }
    } else {
        lemma_upto_counts(h, k - 1);
        let hp = sfen_order(k - 1);
        let prev = hand_upto(h, k - 1);
        if h.cnt(hp) > 0 {
            Hand::lemma_cnt_bound(h, hp);
            Hand::lemma_set(prev, hp, h.cnt(hp) as u32);
            lemma_set_in_fields(prev, hp, h.cnt(hp) as u32);
            assert forall|i: int| 0 <= i < k implies #[trigger] Hand(hand_upto(h, k)).cnt(sfen_order(i)) == h.cnt(sfen_order(i)) by {
                if i < k - 1 {
                    assert(sfen_order(i) != hp);
                }
            }
            assert forall|i: int| k <= i < 7 implies #[trigger] Hand(hand_upto(h, k)).cnt(sfen_order(i)) == 0 by {
                assert(sfen_order(i) != hp);
                assert(Hand(prev).cnt(sfen_order(i)) == 0);
            }
        } else {
            assert forall|i: int| 0 <= i < k implies #[trigger] Hand(hand_upto(h, k)).cnt(sfen_order(i)) == h.cnt(sfen_order(i)) by {
                if i < k - 1 {
                    assert(Hand(prev).cnt(sfen_order(i)) == h.cnt(sfen_order(i)));
                } else {
                    assert(Hand(prev).cnt(sfen_order(k - 1)) == 0);
                }
            }
            assert forall|i: int| k <= i < 7 implies #[trigger] Hand(hand_upto(h, k)).cnt(sfen_order(i)) == 0 by {
                assert(Hand(prev).cnt(sfen_order(i)) == 0);
            }
        }
    }
}

/// The digits of a count followed by a letter: the run of digits is the count's text.
pub(crate) proof fn lemma_entry_digits(n: nat, c: char, rest: Seq<char>)
    requires
        n >= 2,
        !is_digit(c),
    ensures
        ({
            let cs = decimal(n).push(c) + rest;
            let k = decimal(n).len();
            &&& is_digit(cs[0])
            &&& digit_run(cs) == k
            &&& k < cs.len()
            &&& cs[k as int] == c
            &&& digits_value(cs.take(k as int)) == n
            &&& cs.skip(k + 1int) == rest
        }),
{
    let d = decimal(n);
    lemma_decimal(n);
    let cs = d.push(c) + rest;
    assert forall|k: int| 0 <= k < d.len() implies is_digit(#[trigger] cs[k]) by {
        assert(cs[k] == d[k]);
    }
    assert(cs[d.len() as int] == c);
    lemma_digit_run(cs, 0, d.len() as int);
    assert(cs.skip(0) =~= cs);
    assert(cs.take(d.len() as int) =~= d);
    assert(cs.skip(d.len() + 1int) =~= rest);
}

/// Reading one SFEN entry of `n` pieces of kind `hp` sets that count.
proof fn lemma_parse_entry(n: nat, hp: HandPiece, rest: Seq<char>, x: u32)
    requires
        1 <= n <= hand_field_max(hp),
    ensures
        hand_parse(hand_entry(n, hand_char(hp)) + rest, x) == hand_parse(rest, hand_set_spec(x, hp, n as u32)),
{
    let c = hand_char(hp);
    assert(upper_first(c) == c);
    assert(hand_letter(c) == Some(hp));
    let cs = hand_entry(n, c) + rest;
    if n == 1 {
        assert(cs[0] == c);
        assert(cs.skip(1) =~= rest);
    } else {
        lemma_entry_digits(n, c, rest);
        assert(n <= 31);
    }
}

/// Reading the entries of the first `k` kinds, then `rest`, is reading `rest`
/// after the word those entries build.
proof fn lemma_parse_prefix(h: Hand, k: int, rest: Seq<char>)
    requires
        0 <= k <= 7,
    ensures
        hand_parse(h.sfen_prefix(k) + rest, 0) == hand_parse(rest, hand_upto(h, k)),
    decreases k,
{
    if k == 0 {
        assert(h.sfen_prefix(0) + rest =~= rest);
    } else {
        let hp = sfen_order(k - 1);
        let e = hand_entry(h.cnt(hp), hand_char(hp));
        assert(h.sfen_prefix(k) + rest =~= h.sfen_prefix(k - 1) + (e + rest));
        lemma_parse_prefix(h, k - 1, e + rest);
        if h.cnt(hp) == 0 {
            assert(e + rest =~= rest);
        } else {
            Hand::lemma_cnt_bound(h, hp);
            lemma_parse_entry(h.cnt(hp), hp, rest, hand_upto(h, k - 1));
        }
    }
}

/// The SFEN entries are made of digits and capital letters.
pub(crate) proof fn lemma_prefix_chars(h: Hand, k: int)
    requires
        0 <= k <= 7,
    ensures
        forall|i: int| 0 <= i < h.sfen_prefix(k).len() ==> is_digit(#[trigger] h.sfen_prefix(k)[i])
            || 'A' <= h.sfen_prefix(k)[i] <= 'Z',
    decreases k,
{
    if k > 0 {
        lemma_prefix_chars(h, k - 1);
        let hp = sfen_order(k - 1);
        let n = h.cnt(hp);
        let e = hand_entry(n, hand_char(hp));
        let p = h.sfen_prefix(k - 1);
        if n >= 2 {
            lemma_decimal(n);
        }
        assert forall|i: int| 0 <= i < h.sfen_prefix(k).len() implies is_digit(#[trigger] h.sfen_prefix(k)[i])
            || 'A' <= h.sfen_prefix(k)[i] <= 'Z' by {
            if i < p.len() {
                assert(h.sfen_prefix(k)[i] == p[i]);
            } else {
                assert(h.sfen_prefix(k)[i] == e[i - p.len()]);
                if n >= 2 && i - p.len() < decimal(n).len() {
                    assert(e[i - p.len()] == decimal(n)[i - p.len()]);
                }
            }
        }
    }
}

/// Reading back the SFEN text of a hand whose word has no bit outside the
/// count fields gives that hand again: "-" for the empty hand, entries that
/// `hand_parse` reads back to the same word otherwise.
pub proof fn lemma_hand_sfen_roundtrip(h: Hand)
    requires
        h.0 & !hand_fields_mask() == 0,
    ensures
        h.0 == 0 <==> h.sfen_spec() == seq!['-'],
        h.0 != 0 ==> hand_parse(h.sfen_spec(), 0) == Some(h.0),
{
    if h.0 != 0 {
        lemma_parse_prefix(h, 7, Seq::empty());
        assert(h.sfen_prefix(7) + Seq::<char>::empty() =~= h.sfen_prefix(7));
        lemma_upto_full(h);
        lemma_prefix_chars(h, 7);
        if h.sfen_prefix(7) == seq!['-'] {
            assert(h.sfen_prefix(7)[0] == '-');
        }
    }
}

/// Reading all seven entries of a hand whose word has no bit outside the
/// count fields builds its word.
pub(crate) proof fn lemma_upto_full(h: Hand)
    requires
        h.0 & !hand_fields_mask() == 0,
    ensures
        hand_upto(h, 7) == h.0,
{
    lemma_upto_counts(h, 7);
    assert forall|hp: HandPiece| #[trigger] Hand(hand_upto(h, 7)).cnt(hp) == h.cnt(hp) by {
        let i: int = match hp {
            HandPiece::HRook => 0,
            HandPiece::HBishop => 1,
            HandPiece::HGold => 2,
            HandPiece::HSilver => 3,
            HandPiece::HKnight => 4,
            HandPiece::HLance => 5,
            HandPiece::HPawn => 6,
        };
        assert(sfen_order(i) == hp);
    }
    lemma_hand_ext(Hand(hand_upto(h, 7)), h);
}


/// Removing one piece of a kind undoes adding one, whatever the word (both
/// wrap round the same way).
pub proof fn lemma_remove_undoes_add(h: Hand, hp: HandPiece)
    ensures
        wsub(wadd(h.0, hand_one(hp)), hand_one(hp)) == h.0,
{
}


/// The zero word has every field and every other bit clear.
proof fn lemma_zero_word(s: u32, m: u32)
    by (bit_vector)
    ensures
        (0u32 >> s) & m == 0,
        0u32 & !m == 0,
{
}


/// One more piece in a count field that is not full, or one fewer in one
/// that is not empty, leaves a hand word with no bit outside its count
/// fields without such a bit.
pub proof fn lemma_step_keeps_clean(v: u32, hp: HandPiece)
    requires
        v & !hand_fields_mask() == 0,
    ensures
        Hand(v).cnt(hp) < hand_field_max(hp) ==> wadd(v, hand_one(hp)) & !hand_fields_mask() == 0,
        Hand(v).cnt(hp) > 0 ==> wsub(v, hand_one(hp)) & !hand_fields_mask() == 0,
{
    let s = hand_shift(hp);
    let m = hand_field_max(hp);
    assert(s == 0 && m == 0x1F || s == 6 && m == 7 || s == 10 && m == 7 || s == 14 && m == 7 || s == 18 && m
        == 7 || s == 22 && m == 3 || s == 25 && m == 3);
    assert((s == 0u32 && m == 0x1Fu32 || s == 6u32 && m == 7u32 || s == 10u32 && m == 7u32 || s == 14u32 && m
        == 7u32 || s == 18u32 && m == 7u32 || s == 22u32 && m == 3u32 || s == 25u32 && m == 3u32) && v
        & !0x6DDDDDFu32 == 0 ==> v < 0x8000000u32 && (1u32 << s) <= 0x2000000u32 && ((v >> s) & m < m ==> ((v + (1u32 << s)) as u32)
        & !0x6DDDDDFu32 == 0) && ((v >> s) & m > 0 ==> v >= (1u32 << s) && ((v - (1u32 << s)) as u32)
        & !0x6DDDDDFu32 == 0)) by (bit_vector);
}

} // verus!
