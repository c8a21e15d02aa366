//! Bitboards: sets of squares packed into two 64-bit words.
//!
//! Squares 0 to 62 are bits 0 to 62 of `p0`; squares 63 to 80 are bits 0 to 17
//! of `p1`.  A bitboard is well formed when no other bit is set.
use vstd::prelude::*;
use vstd::std_specs::bits::{u64_trailing_zeros, axiom_u64_trailing_zeros};
use crate::types::{Square, File, Rank, sq_file, sq_rank};
use crate::text::push_char;

verus! {

/// Bit `i` of `x`.
pub open spec fn bit_of(x: u64, i: int) -> bool {
    0 <= i < 64 && (x >> (i as u64)) & 1u64 == 1u64
}

/// The number of set bits of `x`.
pub open spec fn popcount(x: u64) -> nat
    decreases x,
{
    if x == 0 {
        0
    } else {
        (x % 2) as nat + popcount(x / 2)
    }
}

pub proof fn lemma_bit_and(x: u64, y: u64, i: int)
    ensures
        bit_of(x & y, i) == (bit_of(x, i) && bit_of(y, i)),
{
    if 0 <= i < 64 {
        let j = i as u64;
        assert(((x & y) >> j) & 1u64 == 1u64 <==> ((x >> j) & 1u64 == 1u64 && (y >> j) & 1u64
            == 1u64)) by (bit_vector);
    }
}

pub proof fn lemma_bit_or(x: u64, y: u64, i: int)
    ensures
        bit_of(x | y, i) == (bit_of(x, i) || bit_of(y, i)),
{
    if 0 <= i < 64 {
        let j = i as u64;
        assert(((x | y) >> j) & 1u64 == 1u64 <==> ((x >> j) & 1u64 == 1u64 || (y >> j) & 1u64
            == 1u64)) by (bit_vector);
    }
}

pub proof fn lemma_bit_xor(x: u64, y: u64, i: int)
    ensures
        bit_of(x ^ y, i) == (bit_of(x, i) != bit_of(y, i)),
{
    if 0 <= i < 64 {
        let j = i as u64;
        assert(((x ^ y) >> j) & 1u64 == 1u64 <==> (((x >> j) & 1u64 == 1u64) != ((y >> j) & 1u64
            == 1u64))) by (bit_vector);
    }
}

pub proof fn lemma_bit_not_mask(x: u64, m: u64, i: int)
    ensures
        bit_of(!x & m, i) == (!bit_of(x, i) && bit_of(m, i)),
{
    if 0 <= i < 64 {
        let j = i as u64;
        assert(((!x & m) >> j) & 1u64 == 1u64 <==> ((x >> j) & 1u64 != 1u64 && (m >> j) & 1u64
            == 1u64)) by (bit_vector);
    }
}

pub proof fn lemma_bit_single(k: u64, i: int)
    requires
        k < 64,
    ensures
        bit_of(1u64 << k, i) == (i == k),
{
    if 0 <= i < 64 {
        let j = i as u64;
        assert(k < 64 ==> (((1u64 << k) >> j) & 1u64 == 1u64 <==> j == k)) by (bit_vector);
    }
}

pub proof fn lemma_bit_zero(i: int)
    ensures
        !bit_of(0u64, i),
{
    if 0 <= i < 64 {
        let j = i as u64;
        assert((0u64 >> j) & 1u64 != 1u64) by (bit_vector);
    }
}

/// Bits at or above `k` are clear in a word below `2^k`.
pub proof fn lemma_bit_high_clear(x: u64, k: u64, i: int)
    requires
        k < 64,
        x < (1u64 << k),
        k <= i,
    ensures
        !bit_of(x, i),
{
    if 0 <= i < 64 {
        let j = i as u64;
        assert(k < 64 && x < (1u64 << k) && k <= j && j < 64 ==> (x >> j) & 1u64 != 1u64)
            by (bit_vector);
    }
}

/// Two words with the same bits are equal.
pub proof fn lemma_bits_ext(x: u64, y: u64)
    requires
        forall|i: int| 0 <= i < 64 ==> bit_of(x, i) == bit_of(y, i),
    ensures
        x == y,
{
    if x != y {
        let z = x ^ y;
        assert(z != 0) by (bit_vector)
            requires
                x != y,
                z == x ^ y,
        ;
        axiom_u64_trailing_zeros(z);
        let t = u64_trailing_zeros(z);
        assert(t < 64);
        lemma_bit_xor(x, y, t as int);
        assert(bit_of(z, t as int));
        assert(bit_of(x, t as int) == bit_of(y, t as int));
        assert(false);
    }
}

/// Clearing the lowest set bit: `x & (x - 1)` keeps every bit but the lowest one.
pub proof fn lemma_clear_lowest(x: u64)
    requires
        x != 0,
    ensures
        u64_trailing_zeros(x) < 64,
        bit_of(x, u64_trailing_zeros(x) as int),
        forall|i: int| 0 <= i < u64_trailing_zeros(x) ==> !bit_of(x, i),
        forall|i: int|
            #![trigger bit_of(x & ((x - 1u64) as u64), i)]
            bit_of(x & ((x - 1u64) as u64), i) == (bit_of(x, i) && i != u64_trailing_zeros(x)),
        x & ((x - 1u64) as u64) < x,
{
    axiom_u64_trailing_zeros(x);
    let t = u64_trailing_zeros(x) as u64;
    assert forall|i: int| 0 <= i < u64_trailing_zeros(x) implies !bit_of(x, i) by {
        let j = i as u64;
        assert((x >> j) & 1u64 == 0u64);
    }
    assert(t < 64 && x << ((64 - t) as u64) == 0 && (x >> t) & 1u64 == 1u64 ==> x & ((x - 1u64) as u64) == x
        ^ (1u64 << t)) by (bit_vector);
    assert forall|i: int| #![trigger bit_of(x & ((x - 1u64) as u64), i)]
        bit_of(x & ((x - 1u64) as u64), i) == (bit_of(x, i) && i != u64_trailing_zeros(x)) by {
        lemma_bit_xor(x, 1u64 << t, i);
        lemma_bit_single(t, i);
    }
    assert(x != 0 ==> x & ((x - 1u64) as u64) < x) by (bit_vector);
}

/// Counts the set bits of a word.
///
/// Calls `u64::count_ones`, which std documents as returning the number of ones
/// in the binary representation; the contract states that count.
#[verifier::external_body]
fn count_ones_u64(x: u64) -> (r: u32)
    ensures
        r == popcount(x),
{
    x.count_ones()
}

/// The squares of the board, 0 to 80.
pub open spec fn all_squares() -> Set<int> {
    Set::new(|s: int| 0 <= s < 81)
}

/// A set of squares; see the module documentation for the layout.
#[derive(Clone, Copy, PartialEq, Eq, Structural, Debug)]
pub struct Bitboard {
    pub p0: u64,
    pub p1: u64,
}

/// The bitboard of one square (for square numbers below 127).
pub open spec fn mask_spec(s: int) -> Bitboard {
    if s < 63 {
        Bitboard { p0: 1u64 << (s as u64), p1: 0 }
    } else {
        Bitboard { p0: 0, p1: 1u64 << ((s - 63) as u64) }
    }
}

pub open spec fn and_spec(a: Bitboard, b: Bitboard) -> Bitboard {
    Bitboard { p0: a.p0 & b.p0, p1: a.p1 & b.p1 }
}

pub open spec fn or_spec(a: Bitboard, b: Bitboard) -> Bitboard {
    Bitboard { p0: a.p0 | b.p0, p1: a.p1 | b.p1 }
}

pub open spec fn xor_spec(a: Bitboard, b: Bitboard) -> Bitboard {
    Bitboard { p0: a.p0 ^ b.p0, p1: a.p1 ^ b.p1 }
}

pub open spec fn not_spec(a: Bitboard) -> Bitboard {
    Bitboard { p0: !a.p0 & 0x7FFF_FFFF_FFFF_FFFFu64, p1: !a.p1 & 0x3FFFFu64 }
}

impl View for Bitboard {
    type V = Set<int>;

    /// The squares on the board whose bit is set.
    open spec fn view(&self) -> Set<int> {
        Set::new(|s: int| 0 <= s < 81 && self.has(s))
    }
}

impl Bitboard {
    /// Whether the bit of square number `s` is set (for `0 <= s < 127`).
    pub open spec fn has(self, s: int) -> bool {
        if s < 63 {
            bit_of(self.p0, s)
        } else {
            bit_of(self.p1, s - 63)
        }
    }

    /// No bit outside the 81 squares is set.
    pub open spec fn wf(self) -> bool {
        self.p0 < 0x8000_0000_0000_0000u64 && self.p1 < 0x40000u64
    }

    /// The lowest set bit, read as a square, as `first` computes it.
    pub open spec fn first_spec(self) -> Option<Square> {
        if self.p0 != 0 {
            Some(Square(u64_trailing_zeros(self.p0) as u8))
        } else if self.p1 != 0 {
            Some(Square((63 + u64_trailing_zeros(self.p1)) as u8))
        } else {
            None
        }
    }

    /// The bitboard with its lowest set bit cleared, as `pop_first` leaves it.
    pub open spec fn rest_spec(self) -> Bitboard {
        if self.p0 != 0 {
            Bitboard { p0: self.p0 & ((self.p0 - 1u64) as u64), p1: self.p1 }
        } else if self.p1 != 0 {
            Bitboard { p0: self.p0, p1: self.p1 & ((self.p1 - 1u64) as u64) }
        } else {
            self
        }
    }

    /// The number of set bits, as `count` computes it.
    pub open spec fn count_spec(self) -> nat {
        popcount(self.p0) + popcount(self.p1)
    }

    /// A well-formed bitboard is determined by its squares.
    pub proof fn lemma_ext(a: Bitboard, b: Bitboard)
        requires
            a.wf(),
            b.wf(),
            a@ == b@,
        ensures
            a == b,
    {
        assert forall|i: int| 0 <= i < 64 implies bit_of(a.p0, i) == bit_of(b.p0, i) by {
            if i < 63 {
                assert(a@.contains(i) == (0 <= i < 81 && a.has(i)));
                assert(b@.contains(i) == (0 <= i < 81 && b.has(i)));
                assert(a@.contains(i) == b@.contains(i));
            } else {
                lemma_word_constants();
                lemma_bit_high_clear(a.p0, 63, i);
                lemma_bit_high_clear(b.p0, 63, i);
            }
        }
        assert forall|i: int| 0 <= i < 64 implies bit_of(a.p1, i) == bit_of(b.p1, i) by {
            if i < 18 {
                assert(a@.contains(i + 63) == (0 <= i + 63 < 81 && a.has(i + 63)));
                assert(b@.contains(i + 63) == (0 <= i + 63 < 81 && b.has(i + 63)));
                assert(a@.contains(i + 63) == b@.contains(i + 63));
            } else {
                lemma_word_constants();
                lemma_bit_high_clear(a.p1, 18, i);
                lemma_bit_high_clear(b.p1, 18, i);
            }
        }
        lemma_bits_ext(a.p0, b.p0);
        lemma_bits_ext(a.p1, b.p1);
    }

    pub proof fn lemma_and(a: Bitboard, b: Bitboard)
        ensures
            forall|s: int| #![trigger and_spec(a, b).has(s)] and_spec(a, b).has(s) == (a.has(s) && b.has(s)),
            and_spec(a, b)@ == a@.intersect(b@),
            a.wf() || b.wf() ==> and_spec(a, b).wf(),
    {
        let r = and_spec(a, b);
        assert forall|s: int| #![trigger r.has(s)] r.has(s) == (a.has(s) && b.has(s)) by {
            lemma_bit_and(a.p0, b.p0, s);
            lemma_bit_and(a.p1, b.p1, s - 63);
        }
        assert(r@ =~= a@.intersect(b@));
        let (x, y, u, v) = (a.p0, b.p0, a.p1, b.p1);
        lemma_and_below(x, y);
        lemma_and_below(u, v);
    }

    pub proof fn lemma_or(a: Bitboard, b: Bitboard)
        ensures
            forall|s: int| #![trigger or_spec(a, b).has(s)] or_spec(a, b).has(s) == (a.has(s) || b.has(s)),
            or_spec(a, b)@ == a@.union(b@),
            a.wf() && b.wf() ==> or_spec(a, b).wf(),
    {
        let r = or_spec(a, b);
        assert forall|s: int| #![trigger r.has(s)] r.has(s) == (a.has(s) || b.has(s)) by {
            lemma_bit_or(a.p0, b.p0, s);
            lemma_bit_or(a.p1, b.p1, s - 63);
        }
        assert(r@ =~= a@.union(b@));
        let x = a.p0;
        let y = b.p0;
        assert(x < 0x8000_0000_0000_0000u64 && y < 0x8000_0000_0000_0000u64 ==> x | y
            < 0x8000_0000_0000_0000u64) by (bit_vector);
        let u = a.p1;
        let v = b.p1;
        assert(u < 0x40000u64 && v < 0x40000u64 ==> u | v < 0x40000u64) by (bit_vector);
    }

    pub proof fn lemma_xor(a: Bitboard, b: Bitboard)
        ensures
            forall|s: int| #![trigger xor_spec(a, b).has(s)] xor_spec(a, b).has(s) == (a.has(s) != b.has(s)),
            xor_spec(a, b)@ == a@.difference(b@).union(b@.difference(a@)),
            a.wf() && b.wf() ==> xor_spec(a, b).wf(),
    {
        let r = xor_spec(a, b);
        assert forall|s: int| #![trigger r.has(s)] r.has(s) == (a.has(s) != b.has(s)) by {
            lemma_bit_xor(a.p0, b.p0, s);
            lemma_bit_xor(a.p1, b.p1, s - 63);
        }
        assert(r@ =~= a@.difference(b@).union(b@.difference(a@)));
        let x = a.p0;
        let y = b.p0;
        assert(x < 0x8000_0000_0000_0000u64 && y < 0x8000_0000_0000_0000u64 ==> x ^ y
            < 0x8000_0000_0000_0000u64) by (bit_vector);
        let u = a.p1;
        let v = b.p1;
        assert(u < 0x40000u64 && v < 0x40000u64 ==> u ^ v < 0x40000u64) by (bit_vector);
    }

    pub proof fn lemma_not(a: Bitboard)
        ensures
            forall|s: int| 0 <= s < 81 ==> #[trigger] not_spec(a).has(s) == !a.has(s),
            not_spec(a)@ == all_squares().difference(a@),
            not_spec(a).wf(),
    {
        let r = not_spec(a);
        assert forall|s: int| 0 <= s < 81 implies #[trigger] r.has(s) == !a.has(s) by {
            if s < 63 {
                lemma_bit_not_mask(a.p0, 0x7FFF_FFFF_FFFF_FFFFu64, s);
                let j = s as u64;
                assert(j < 63 ==> (0x7FFF_FFFF_FFFF_FFFFu64 >> j) & 1u64 == 1u64) by (bit_vector);
            } else {
                lemma_bit_not_mask(a.p1, 0x3FFFFu64, s - 63);
                let j = (s - 63) as u64;
                assert(j < 18 ==> (0x3FFFFu64 >> j) & 1u64 == 1u64) by (bit_vector);
            }
        }
        assert(r@ =~= all_squares().difference(a@));
        let x = a.p0;
        let y = a.p1;
        assert(!x & 0x7FFF_FFFF_FFFF_FFFFu64 < 0x8000_0000_0000_0000u64) by (bit_vector);
        assert(!y & 0x3FFFFu64 < 0x40000u64) by (bit_vector);
    }

    pub proof fn lemma_mask(s: int)
        requires
            0 <= s < 127,
        ensures
            forall|t: int| #![trigger mask_spec(s).has(t)] 0 <= t < 127 ==> (mask_spec(s).has(t) == (t == s)),
            s < 81 ==> mask_spec(s)@ == set![s],
            s < 81 ==> mask_spec(s).wf(),
    {
        let m = mask_spec(s);
        if s < 63 {
            assert forall|t: int| #![trigger m.has(t)] 0 <= t < 127 implies (m.has(t) == (t == s)) by {
                lemma_bit_single(s as u64, t);
                lemma_bit_zero(t - 63);
            }
            let k = s as u64;
            assert(k < 63 ==> (1u64 << k) < 0x8000_0000_0000_0000u64) by (bit_vector);
        } else {
            assert forall|t: int| #![trigger m.has(t)] 0 <= t < 127 implies (m.has(t) == (t == s)) by {
                lemma_bit_single((s - 63) as u64, t - 63);
                lemma_bit_zero(t);
            }
            let k = (s - 63) as u64;
            assert(k < 18 ==> (1u64 << k) < 0x40000u64) by (bit_vector);
        }
        assert(s < 81 ==> m@ =~= set![s]);
    }

    pub proof fn lemma_zero()
        ensures
            (Bitboard { p0: 0, p1: 0 })@ == Set::<int>::empty(),
            (Bitboard { p0: 0, p1: 0 }).wf(),
            forall|t: int| !#[trigger] (Bitboard { p0: 0, p1: 0 }).has(t),
    {
        assert forall|t: int| !#[trigger] Bitboard { p0: 0, p1: 0 }.has(t) by {
            lemma_bit_zero(t);
            lemma_bit_zero(t - 63);
        }
        assert(Bitboard { p0: 0, p1: 0 }@ =~= Set::<int>::empty());
    }

    /// A bitboard is zero exactly when no square of a well-formed bitboard is set.
    pub proof fn lemma_zero_iff_empty(a: Bitboard)
        requires
            a.wf(),
        ensures
            (a.p0 == 0 && a.p1 == 0) <==> a@ == Set::<int>::empty(),
    {
        Self::lemma_zero();
        if a@ == Set::<int>::empty() {
            Self::lemma_ext(a, Bitboard { p0: 0, p1: 0 });
        }
    }

    /// The lowest set bit and the rest, for a well-formed bitboard.
    pub proof fn lemma_first(a: Bitboard)
        requires
            a.wf(),
        ensures
            a.rest_spec().wf(),
            match a.first_spec() {
                None => a@ == Set::<int>::empty() && a.rest_spec() == a,
                Some(sq) => {
                    &&& sq.on_board()
                    &&& a@.contains(sq.0 as int)
                    &&& a.rest_spec()@ == a@.remove(sq.0 as int)
                    &&& forall|t: int| #[trigger] a@.contains(t) ==> sq.0 <= t
                },
            },
    {
        let r = a.rest_spec();
        if a.p0 != 0 {
            lemma_clear_lowest(a.p0);
            let t = u64_trailing_zeros(a.p0) as int;
            if t >= 63 {
                lemma_word_constants();
                lemma_bit_high_clear(a.p0, 63, t);
            }
            assert(t < 63);
            assert(r@ =~= a@.remove(t));
        } else if a.p1 != 0 {
            lemma_clear_lowest(a.p1);
            let t = u64_trailing_zeros(a.p1) as int;
            if t >= 18 {
                lemma_word_constants();
                lemma_bit_high_clear(a.p1, 18, t);
            }
            assert(t < 18);
            assert forall|s: int| 0 <= s < 63 implies !a.has(s) by {
                lemma_bit_zero(s);
            }
            assert(r@ =~= a@.remove(t + 63));
        } else {
            Self::lemma_zero();
            assert(a@ =~= Set::<int>::empty());
        }
    }

    /// The empty bitboard.
    #[allow(non_snake_case)]
    pub fn ZERO() -> (r: Bitboard)
        ensures
            r.p0 == 0 && r.p1 == 0,
            r@ == Set::<int>::empty(),
            r.wf(),
    {
        proof {
            Self::lemma_zero();
        }
        Bitboard { p0: 0, p1: 0 }
    }

    /// The bitboard of all 81 squares.
    #[allow(non_snake_case)]
    pub fn ALL() -> (r: Bitboard)
        ensures
            r.p0 == 0x7FFF_FFFF_FFFF_FFFFu64 && r.p1 == 0x3FFFFu64,
            r@ == all_squares(),
            r.wf(),
    {
        proof {
            Self::lemma_zero();
            Self::lemma_not(Bitboard { p0: 0, p1: 0 });
            lemma_word_constants();
            
            assert(all_squares().difference(Set::<int>::empty()) =~= all_squares());
        }
        Bitboard { p0: 0x7FFF_FFFF_FFFF_FFFF, p1: 0x3FFFF }
    }

    pub fn new(p0: u64, p1: u64) -> (r: Bitboard)
        ensures
            r.p0 == p0 && r.p1 == p1,
    {
        Bitboard { p0, p1 }
    }

    pub fn is_zero(self) -> (r: bool)
        ensures
            r == (self.p0 == 0 && self.p1 == 0),
            self.wf() ==> r == (self@ == Set::<int>::empty()),
    {
        proof {
            if self.wf() {
                Self::lemma_zero_iff_empty(self);
            }
        }
        let x = self.p0;
        let y = self.p1;
        assert((x | y) == 0 <==> (x == 0 && y == 0)) by (bit_vector);
        (self.p0 | self.p1) == 0
    }

    pub fn is_any(self) -> (r: bool)
        ensures
            r == !(self.p0 == 0 && self.p1 == 0),
            self.wf() ==> r == (self@ != Set::<int>::empty()),
    {
        !self.is_zero()
    }

    pub fn is_set(self, sq: Square) -> (r: bool)
        requires
            sq.0 < 127,
        ensures
            r == self.has(sq.0 as int),
            sq.on_board() ==> r == self@.contains(sq.0 as int),
    {
        let m = Bitboard::square_mask(sq);
        let a = self.bit_and(m);
        proof {
            Self::lemma_and(self, m);
            Self::lemma_mask(sq.0 as int);
            if a.has(sq.0 as int) {
                assert(a.p0 != 0 || a.p1 != 0) by {
                    if a.p0 == 0 && a.p1 == 0 {
                        Self::lemma_zero();
                    }
                };
            } else {
                if sq.0 < 63 {
                    assert forall|i: int| 0 <= i < 64 implies bit_of(a.p0, i) == bit_of(0u64, i) by {
                        lemma_bit_zero(i);
                        lemma_bit_and(self.p0, m.p0, i);
                        lemma_bit_single(sq.0 as u64, i);
                    }
                    lemma_bits_ext(a.p0, 0);
                    let (z, u, v) = (a.p1, self.p1, m.p1);
                    assert(z == 0) by (bit_vector)
                        requires
                            z == u & v,
                            v == 0,
                    ;
                } else {
                    assert forall|i: int| 0 <= i < 64 implies bit_of(a.p1, i) == bit_of(0u64, i) by {
                        lemma_bit_zero(i);
                        lemma_bit_and(self.p1, m.p1, i);
                        lemma_bit_single((sq.0 - 63) as u64, i);
                    }
                    lemma_bits_ext(a.p1, 0);
                    let (z, u, v) = (a.p0, self.p0, m.p0);
                    assert(z == 0) by (bit_vector)
                        requires
                            z == u & v,
                            v == 0,
                    ;
                }
            }
        }
        a.is_any()
    }

    pub fn set(&mut self, sq: Square)
        requires
            sq.0 < 127,
        ensures
            *final(self) == or_spec(*old(self), mask_spec(sq.0 as int)),
            forall|t: int| 0 <= t < 127 ==> #[trigger] final(self).has(t) == (t == sq.0 || old(self).has(t)),
            sq.on_board() ==> final(self)@ == old(self)@.insert(sq.0 as int),
            sq.on_board() && old(self).wf() ==> final(self).wf(),
    {
        let m = Bitboard::square_mask(sq);
        proof {
            Self::lemma_or(*self, m);
            Self::lemma_mask(sq.0 as int);
            assert(sq.on_board() ==> or_spec(*self, m)@ =~= self@.insert(sq.0 as int));
        }
        *self = self.bit_or(m);
    }

    pub fn clear(&mut self, sq: Square)
        requires
            sq.0 < 127,
        ensures
            *final(self) == and_spec(*old(self), not_spec(mask_spec(sq.0 as int))),
            forall|t: int| 0 <= t < 81 ==> #[trigger] final(self).has(t) == (t != sq.0 && old(self).has(t)),
            final(self)@ == old(self)@.remove(sq.0 as int),
            final(self).wf(),
    {
        let m = Bitboard::square_mask(sq);
        let nm = m.complement();
        proof {
            Self::lemma_mask(sq.0 as int);
            Self::lemma_not(m);
            Self::lemma_and(*self, nm);
            assert(and_spec(*self, nm)@ =~= self@.remove(sq.0 as int));
        }
        *self = self.bit_and(nm);
    }

    pub fn toggle(&mut self, sq: Square)
        requires
            sq.0 < 127,
        ensures
            *final(self) == xor_spec(*old(self), mask_spec(sq.0 as int)),
            forall|t: int| 0 <= t < 127 ==> #[trigger] final(self).has(t) == ((t == sq.0) != old(self).has(t)),
            sq.on_board() && old(self)@.contains(sq.0 as int) ==> final(self)@ == old(self)@.remove(sq.0 as int),
            sq.on_board() && !old(self)@.contains(sq.0 as int) ==> final(self)@ == old(self)@.insert(sq.0 as int),
            sq.on_board() && old(self).wf() ==> final(self).wf(),
    {
        let m = Bitboard::square_mask(sq);
        proof {
            Self::lemma_xor(*self, m);
            Self::lemma_mask(sq.0 as int);
            assert(sq.on_board() && self@.contains(sq.0 as int) ==> xor_spec(*self, m)@ =~= self@.remove(sq.0 as int));
            assert(sq.on_board() && !self@.contains(sq.0 as int) ==> xor_spec(*self, m)@ =~= self@.insert(sq.0 as int));
        }
        *self = self.bit_xor(m);
    }

    /// Removes and returns the lowest set square.
    pub fn pop_first(&mut self) -> (r: Option<Square>)
        ensures
            r == old(self).first_spec(),
            *final(self) == old(self).rest_spec(),
            old(self).wf() ==> final(self).wf() && match r {
                None => old(self)@ == Set::<int>::empty(),
                Some(sq) => {
                    &&& sq.on_board()
                    &&& old(self)@.contains(sq.0 as int)
                    &&& final(self)@ == old(self)@.remove(sq.0 as int)
                    &&& forall|t: int| #[trigger] old(self)@.contains(t) ==> sq.0 <= t
                },
            },
    {
        proof {
            if self.wf() {
                Self::lemma_first(*self);
            }
            axiom_u64_trailing_zeros(self.p0);
            axiom_u64_trailing_zeros(self.p1);
        }
        if self.p0 != 0 {
            let sq = Square(self.p0.trailing_zeros() as u8);
            self.p0 = self.p0 & (self.p0 - 1);
            Some(sq)
        } else if self.p1 != 0 {
            let sq = Square(63 + self.p1.trailing_zeros() as u8);
            self.p1 = self.p1 & (self.p1 - 1);
            Some(sq)
        } else {
            None
        }
    }

    /// The lowest set square, without removing it.
    pub fn first(self) -> (r: Option<Square>)
        ensures
            r == self.first_spec(),
            self.wf() ==> match r {
                None => self@ == Set::<int>::empty(),
                Some(sq) => {
                    &&& sq.on_board()
                    &&& self@.contains(sq.0 as int)
                    &&& forall|t: int| #[trigger] self@.contains(t) ==> sq.0 <= t
                },
            },
    {
        proof {
            if self.wf() {
                Self::lemma_first(self);
            }
            axiom_u64_trailing_zeros(self.p0);
            axiom_u64_trailing_zeros(self.p1);
        }
        if self.p0 != 0 {
            Some(Square(self.p0.trailing_zeros() as u8))
        } else if self.p1 != 0 {
            Some(Square(63 + self.p1.trailing_zeros() as u8))
        } else {
            None
        }
    }

    /// The number of set bits.
    pub fn count(self) -> (r: u32)
        ensures
            r == self.count_spec(),
    {
        let a = count_ones_u64(self.p0);
        let b = count_ones_u64(self.p1);
        proof {
            lemma_popcount_le(self.p0);
            lemma_popcount_le(self.p1);
        }
        a + b
    }

    /// The bitboard of a single square.
    pub fn square_mask(sq: Square) -> (r: Bitboard)
        requires
            sq.0 < 127,
        ensures
            r == mask_spec(sq.0 as int),
            forall|t: int| #![trigger r.has(t)] 0 <= t < 127 ==> (r.has(t) == (t == sq.0)),
            sq.on_board() ==> r@ == set![sq.0 as int],
            sq.on_board() ==> r.wf(),
    {
        proof {
            Self::lemma_mask(sq.0 as int);
        }
        if sq.0 < 63 {
            Bitboard::new(1u64 << sq.0, 0)
        } else {
            Bitboard::new(0, 1u64 << (sq.0 - 63))
        }
    }

    /// The squares of one file.
    pub fn file_mask(f: File) -> (r: Bitboard)
        ensures
            r.wf(),
            r@ == Set::new(|s: int| 0 <= s < 81 && sq_file(s) == f.value()),
    {
        let mut bb = Bitboard::ZERO();
        let mut r: u8 = 0;
        while r < 9
            invariant
                r <= 9,
                bb.wf(),
                bb@ == Set::new(|s: int| 0 <= s < 81 && sq_file(s) == f.value() && sq_rank(s) < r),
            decreases 9 - r,
        {
            let sq = Square::new(f, Rank::from_u8(r).unwrap());
            bb.set(sq);
            r = r + 1;
            assert(bb@ =~= Set::new(|s: int| 0 <= s < 81 && sq_file(s) == f.value() && sq_rank(s) < r));
        }
        assert(bb@ =~= Set::new(|s: int| 0 <= s < 81 && sq_file(s) == f.value()));
        bb
    }

    /// The squares of one rank.
    pub fn rank_mask(r: Rank) -> (res: Bitboard)
        ensures
            res.wf(),
            res@ == Set::new(|s: int| 0 <= s < 81 && sq_rank(s) == r.value()),
    {
        let mut bb = Bitboard::ZERO();
        let mut f: u8 = 0;
        while f < 9
            invariant
                f <= 9,
                bb.wf(),
                bb@ == Set::new(|s: int| 0 <= s < 81 && sq_rank(s) == r.value() && sq_file(s) < f),
            decreases 9 - f,
        {
            let sq = Square::new(File::from_u8(f).unwrap(), r);
            bb.set(sq);
            f = f + 1;
            assert(bb@ =~= Set::new(|s: int| 0 <= s < 81 && sq_rank(s) == r.value() && sq_file(s) < f));
        }
        assert(bb@ =~= Set::new(|s: int| 0 <= s < 81 && sq_rank(s) == r.value()));
        bb
    }

    /// The squares on ranks in front of `r` from Black's side (ranks nearer rank 1).
    pub fn in_front_mask_black(r: Rank) -> (res: Bitboard)
        ensures
            res.wf(),
            res@ == Set::new(|s: int| 0 <= s < 81 && sq_rank(s) < r.value()),
    {
        let mut bb = Bitboard::ZERO();
        let mut rank: u8 = 0;
        let end = r.to_u8();
        while rank < end
            invariant
                rank <= end,
                end == r.value(),
                bb.wf(),
                bb@ == Set::new(|s: int| 0 <= s < 81 && sq_rank(s) < rank),
            decreases end - rank,
        {
            let m = Bitboard::rank_mask(Rank::from_u8(rank).unwrap());
            proof {
                Self::lemma_or(bb, m);
            }
            bb = bb.bit_or(m);
            rank = rank + 1;
            assert(bb@ =~= Set::new(|s: int| 0 <= s < 81 && sq_rank(s) < rank));
        }
        bb
    }

    /// The squares on ranks in front of `r` from White's side (ranks nearer rank 9).
    pub fn in_front_mask_white(r: Rank) -> (res: Bitboard)
        ensures
            res.wf(),
            res@ == Set::new(|s: int| 0 <= s < 81 && sq_rank(s) > r.value()),
    {
        let mut bb = Bitboard::ZERO();
        let mut rank: u8 = r.to_u8() + 1;
        while rank < 9
            invariant
                r.value() + 1 <= rank <= 9,
                bb.wf(),
                bb@ == Set::new(|s: int| 0 <= s < 81 && r.value() < sq_rank(s) < rank),
            decreases 9 - rank,
        {
            let m = Bitboard::rank_mask(Rank::from_u8(rank).unwrap());
            proof {
                Self::lemma_or(bb, m);
            }
            bb = bb.bit_or(m);
            rank = rank + 1;
            assert(bb@ =~= Set::new(|s: int| 0 <= s < 81 && r.value() < sq_rank(s) < rank));
        }
        assert(bb@ =~= Set::new(|s: int| 0 <= s < 81 && sq_rank(s) > r.value()));
        bb
    }

    /// The squares set in both.
    pub fn bit_and(self, rhs: Bitboard) -> (r: Bitboard)
        ensures
            r == and_spec(self, rhs),
            r@ == self@.intersect(rhs@),
            self.wf() || rhs.wf() ==> r.wf(),
    {
        proof {
            Self::lemma_and(self, rhs);
        }
        Bitboard { p0: self.p0 & rhs.p0, p1: self.p1 & rhs.p1 }
    }

    /// The squares set in either.
    pub fn bit_or(self, rhs: Bitboard) -> (r: Bitboard)
        ensures
            r == or_spec(self, rhs),
            r@ == self@.union(rhs@),
            self.wf() && rhs.wf() ==> r.wf(),
    {
        proof {
            Self::lemma_or(self, rhs);
        }
        Bitboard { p0: self.p0 | rhs.p0, p1: self.p1 | rhs.p1 }
    }

    /// The squares set in exactly one.
    pub fn bit_xor(self, rhs: Bitboard) -> (r: Bitboard)
        ensures
            r == xor_spec(self, rhs),
            r@ == self@.difference(rhs@).union(rhs@.difference(self@)),
            self.wf() && rhs.wf() ==> r.wf(),
    {
        proof {
            Self::lemma_xor(self, rhs);
        }
        Bitboard { p0: self.p0 ^ rhs.p0, p1: self.p1 ^ rhs.p1 }
    }

    /// The squares of the board that are not set.
    pub fn complement(self) -> (r: Bitboard)
        ensures
            r == not_spec(self),
            r@ == all_squares().difference(self@),
            r.wf(),
    {
        proof {
            Self::lemma_not(self);
        }
        Bitboard { p0: !self.p0 & 0x7FFF_FFFF_FFFF_FFFF, p1: !self.p1 & 0x3FFFF }
    }

    /// An iterator over the set squares, lowest first.
    pub fn iter(self) -> (r: BitboardIter)
        ensures
            r.bb == self,
    {
        BitboardIter { bb: self }
    }

    /// The lowest set square (the same as `first`).
    pub fn lsb(self) -> (r: Option<Square>)
        ensures
            r == self.first_spec(),
    {
        self.first()
    }

    /// Removes and returns the lowest set square of a bitboard that is not empty.
    pub fn pop_lsb(&mut self) -> (r: Square)
        requires
            !(old(self).p0 == 0 && old(self).p1 == 0),
        ensures
            Some(r) == old(self).first_spec(),
            *final(self) == old(self).rest_spec(),
    {
        self.pop_first().unwrap()
    }
}

/// Removing the lowest set bit makes the pair of words smaller (lexicographically).
pub proof fn lemma_rest_decreases(b: Bitboard)
    requires
        !(b.p0 == 0 && b.p1 == 0),
    ensures
        b.rest_spec().p0 < b.p0 || (b.rest_spec().p0 == b.p0 && b.rest_spec().p1 < b.p1),
{
    if b.p0 != 0 {
        lemma_clear_lowest(b.p0);
    } else {
        lemma_clear_lowest(b.p1);
    }
}

/// A word has set bits exactly when it is not zero.
pub proof fn lemma_popcount_pos(x: u64)
    ensures
        (popcount(x) > 0) == (x != 0),
    decreases x,
{
    if x != 0 {
        if x % 2 == 0 {
            assert(x / 2 != 0);
            lemma_popcount_pos(x / 2);
        }
    }
}

/// The positions of the set bits of `x`.
pub open spec fn bits_set(x: u64) -> Set<int> {
    Set::new(|i: int| bit_of(x, i))
}

proof fn lemma_bits_shift(x: u64, i: int)
    requires
        0 <= i < 64,
    ensures
        bit_of(x, 0) == (x % 2 == 1),
        i < 63 ==> bit_of(x, i + 1) == bit_of(x / 2, i),
        !bit_of(x / 2, 63),
{
    let j = i as u64;
    assert(((x >> 0u64) & 1u64 == 1u64) == (x % 2 == 1)) by (bit_vector);
    assert(j < 63 ==> (((x >> ((j + 1u64) as u64)) & 1u64 == 1u64) == (((x / 2) >> j) & 1u64 == 1u64))) by (bit_vector);
    assert(((x / 2) >> 63u64) & 1u64 != 1u64) by (bit_vector);
}

/// The number of set bits of `x` is the size of the set of their positions.
pub proof fn lemma_bits_card(x: u64)
    ensures
        bits_set(x).finite(),
        bits_set(x).len() == popcount(x),
    decreases x,
{
    vstd::set_lib::lemma_int_range(0, 64);
    assert(bits_set(x).subset_of(vstd::set_lib::set_int_range(0, 64)));
    vstd::set_lib::lemma_len_subset(bits_set(x), vstd::set_lib::set_int_range(0, 64));
    if x == 0 {
        assert forall|i: int| !bits_set(x).contains(i) by {
            lemma_bit_zero(i);
        }
        assert(bits_set(x) =~= Set::<int>::empty());
    } else {
        let y = x / 2;
        lemma_bits_card(y);
        let f = |i: int| i + 1;
        let sh = bits_set(y).map(f);
        let low: Set<int> = if x % 2 == 1 {
            set![0]
        } else {
            Set::empty()
        };
        assert forall|i: int| #[trigger] bits_set(x).contains(i) == (low.contains(i) || sh.contains(i)) by {
            if 0 <= i < 64 {
                lemma_bits_shift(x, i);
                if i >= 1 {
                    lemma_bits_shift(x, i - 1);
                    if bits_set(y).contains(i - 1) {
                        assert(f(i - 1) == i);
                        assert(sh.contains(i));
                    }
                    if sh.contains(i) {
                        let w = choose|w: int| bits_set(y).contains(w) && f(w) == i;
                        assert(w == i - 1);
                    }
                } else {
                    if sh.contains(i) {
                        let w = choose|w: int| bits_set(y).contains(w) && f(w) == i;
                        assert(bit_of(y, w));
                        assert(false);
                    }
                }
            } else {
                if sh.contains(i) {
                    let w = choose|w: int| bits_set(y).contains(w) && f(w) == i;
                    assert(bit_of(y, w));
                    if w == 63 {
                        lemma_bits_shift(x, 0);
                    }
                    assert(false);
                }
            }
        }
        assert(bits_set(x) =~= low + sh);
        assert(vstd::relations::injective_on(f, bits_set(y)));
        vstd::set_lib::lemma_map_size(bits_set(y), sh, f);
        assert(low.disjoint(sh)) by {
            if x % 2 == 1 {
                if sh.contains(0) {
                    let w = choose|w: int| bits_set(y).contains(w) && f(w) == 0;
                    assert(bit_of(y, w));
                }
            }
        }
        vstd::set_lib::lemma_set_disjoint_lens(low, sh);
        lemma_bits_shift(x, 0);
    }
}

impl Bitboard {
    /// For a well-formed bitboard, `count` is the number of squares.
    pub proof fn lemma_count_is_len(b: Bitboard)
        requires
            b.wf(),
        ensures
            b@.finite(),
            b.count_spec() == b@.len(),
    {
        lemma_bits_card(b.p0);
        lemma_bits_card(b.p1);
        let f = |i: int| i + 63;
        let hi = bits_set(b.p1).map(f);
        lemma_word_constants();
        lemma_word_constants();
        assert forall|s: int| #[trigger] b@.contains(s) == (bits_set(b.p0).contains(s) || hi.contains(s)) by {
            if 0 <= s < 63 {
                if hi.contains(s) {
                    let w = choose|w: int| bits_set(b.p1).contains(w) && f(w) == s;
                    assert(false);
                }
            } else if 63 <= s < 81 {
                if bits_set(b.p1).contains(s - 63) {
                    assert(f(s - 63) == s);
                }
                if bits_set(b.p0).contains(s) {
                    lemma_bit_high_clear(b.p0, 63, s);
                }
            } else {
                if bits_set(b.p0).contains(s) && s >= 63 {
                    lemma_bit_high_clear(b.p0, 63, s);
                }
                if hi.contains(s) {
                    let w = choose|w: int| bits_set(b.p1).contains(w) && f(w) == s;
                    if w >= 18 {
                        lemma_bit_high_clear(b.p1, 18, w);
                    }
                }
            }
        }
        assert(b@ =~= bits_set(b.p0) + hi);
        assert(vstd::relations::injective_on(f, bits_set(b.p1)));
        vstd::set_lib::lemma_map_size(bits_set(b.p1), hi, f);
        assert(bits_set(b.p0).disjoint(hi)) by {
            assert forall|s: int| bits_set(b.p0).contains(s) implies !hi.contains(s) by {
                if hi.contains(s) {
                    let w = choose|w: int| bits_set(b.p1).contains(w) && f(w) == s;
                    lemma_bit_high_clear(b.p0, 63, s);
                }
            }
        }
        vstd::set_lib::lemma_set_disjoint_lens(bits_set(b.p0), hi);
    }
}

pub proof fn lemma_popcount_le(x: u64)
    ensures
        popcount(x) <= 64,
{
    lemma_popcount_bits(x, 64);
}

proof fn lemma_popcount_bits(x: u64, k: nat)
    requires
        k <= 64,
        k < 64 ==> x < pow2_u64(k),
    ensures
        popcount(x) <= k,
    decreases k,
{
    if x == 0 {
    } else {
        assert(k > 0) by {
            if k == 0 {
                assert(pow2_u64(0) == 1);
            }
        }
        let y = x / 2;
        if k - 1 < 64 {
            assert(y < pow2_u64((k - 1) as nat)) by {
                if k < 64 {
                    assert(pow2_u64(k) == 2 * pow2_u64((k - 1) as nat));
                } else {
                    assert(pow2_u64(63) == 0x8000_0000_0000_0000u64) by {
                        lemma_pow2_u64_63();
                    }
                }
            }
        }
        lemma_popcount_bits(y, (k - 1) as nat);
    }
}

spec fn pow2_u64(k: nat) -> nat
    decreases k,
{
    if k == 0 {
        1
    } else {
        2 * pow2_u64((k - 1) as nat)
    }
}

proof fn lemma_pow2_u64_63()
    ensures
        pow2_u64(63) == 0x8000_0000_0000_0000u64,
{
    reveal_with_fuel(pow2_u64, 64);
}

impl core::ops::Not for Bitboard {
    type Output = Bitboard;

    fn not(self) -> (r: Bitboard) {
        self.complement()
    }
}

impl vstd::std_specs::ops::NotSpecImpl for Bitboard {
    open spec fn obeys_not_spec() -> bool {
        true
    }

    open spec fn not_req(self) -> bool {
        true
    }

    open spec fn not_spec(self) -> Bitboard {
        not_spec(self)
    }
}

impl core::ops::BitAnd for Bitboard {
    type Output = Bitboard;

    fn bitand(self, rhs: Bitboard) -> (r: Bitboard) {
        self.bit_and(rhs)
    }
}

impl vstd::std_specs::ops::BitAndSpecImpl for Bitboard {
    open spec fn obeys_bitand_spec() -> bool {
        true
    }

    open spec fn bitand_req(self, rhs: Bitboard) -> bool {
        true
    }

    open spec fn bitand_spec(self, rhs: Bitboard) -> Bitboard {
        and_spec(self, rhs)
    }
}

impl core::ops::BitOr for Bitboard {
    type Output = Bitboard;

    fn bitor(self, rhs: Bitboard) -> (r: Bitboard) {
        self.bit_or(rhs)
    }
}

impl vstd::std_specs::ops::BitOrSpecImpl for Bitboard {
    open spec fn obeys_bitor_spec() -> bool {
        true
    }

    open spec fn bitor_req(self, rhs: Bitboard) -> bool {
        true
    }

    open spec fn bitor_spec(self, rhs: Bitboard) -> Bitboard {
        or_spec(self, rhs)
    }
}

impl core::ops::BitXor for Bitboard {
    type Output = Bitboard;

    fn bitxor(self, rhs: Bitboard) -> (r: Bitboard) {
        self.bit_xor(rhs)
    }
}

impl vstd::std_specs::ops::BitXorSpecImpl for Bitboard {
    open spec fn obeys_bitxor_spec() -> bool {
        true
    }

    open spec fn bitxor_req(self, rhs: Bitboard) -> bool {
        true
    }

    open spec fn bitxor_spec(self, rhs: Bitboard) -> Bitboard {
        xor_spec(self, rhs)
    }
}

/// Walks the set squares of a bitboard, lowest first.
pub struct BitboardIter {
    pub bb: Bitboard,
}

impl BitboardIter {
    /// The next square, removed from what is left to walk.
    pub fn next(&mut self) -> (r: Option<Square>)
        ensures
            r == old(self).bb.first_spec(),
            final(self).bb == old(self).bb.rest_spec(),
    {
        self.bb.pop_first()
    }
}

/// One rank of a bitboard's picture, from file index `file` down to the
/// first file: "1 " for a set square, ". " for a clear one, then a new line.
pub open spec fn picture_row(b: Set<int>, rank: int, file: int) -> Seq<char>
    decreases file + 1,
{
    if file < 0 {
        seq!['\n']
    } else {
        (if b.contains(file * 9 + rank) {
            seq!['1', ' ']
        } else {
            seq!['.', ' ']
        }) + picture_row(b, rank, file - 1)
    }
}

/// The picture of a bitboard: a heading line, then its first `n` ranks.
pub open spec fn picture(b: Set<int>, n: int) -> Seq<char>
    decreases n,
{
    if n <= 0 {
        seq!['B', 'i', 't', 'b', 'o', 'a', 'r', 'd', ':', '\n']
    } else {
        picture(b, n - 1) + picture_row(b, n - 1, 8)
    }
}

impl Bitboard {
    /// A picture of the board for debugging: "Bitboard:" on a line, then
    /// each rank from the first, the ninth file first, "1 " for a set square
    /// and ". " for a clear one.
    pub fn to_picture(self) -> (r: String)
        ensures
            r@ == picture(self@, 9),
    {
        proof {
            reveal_strlit("Bitboard:\n");
        }
        let mut s = String::from_str("Bitboard:\n");
        assert(s@ =~= picture(self@, 0));
        let mut rank: u8 = 0;
        while rank < 9
            invariant
                rank <= 9,
                s@ == picture(self@, rank as int),
            decreases 9 - rank,
        {
            let ghost before = s@;
            let mut file: i8 = 8;
            while file >= 0
                invariant
                    -1 <= file <= 8,
                    rank < 9,
                    before == picture(self@, rank as int),
                    s@ + picture_row(self@, rank as int, file as int) == before + picture_row(self@, rank as int, 8),
                decreases file + 1,
            {
                let sq = Square(file as u8 * 9 + rank);
                let cell = if self.is_set(sq) {
                    '1'
                } else {
                    '.'
                };
                let ghost mid = s@;
                push_char(&mut s, cell);
                push_char(&mut s, ' ');
                assert(s@ =~= mid + seq![cell, ' ']);
                assert(seq![cell, ' '] + picture_row(self@, rank as int, file - 1) == picture_row(self@, rank as int, file as int));
                assert(s@ + picture_row(self@, rank as int, file - 1) =~= mid + picture_row(self@, rank as int, file as int));
                file = file - 1;
            }
            push_char(&mut s, '\n');
            assert(s@ =~= before + picture_row(self@, rank as int, 8));
            rank = rank + 1;
        }
        s
    }
}

/// The top bits and full masks of the two words.
proof fn lemma_word_constants()
    by (bit_vector)
    ensures
        1u64 << 63u64 == 0x8000_0000_0000_0000u64,
        1u64 << 18u64 == 0x40000u64,
        !0u64 & 0x7FFF_FFFF_FFFF_FFFFu64 == 0x7FFF_FFFF_FFFF_FFFFu64,
        !0u64 & 0x3FFFFu64 == 0x3FFFFu64,
{
}

/// A conjunction of words is below each of them.
proof fn lemma_and_below(x: u64, y: u64)
    by (bit_vector)
    ensures
        x & y <= x && x & y <= y,
{
}

} // verus!
