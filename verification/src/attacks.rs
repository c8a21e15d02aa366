//! The squares that each kind of piece attacks.
use vstd::prelude::*;
use crate::types::{Square, Rank, Color, SquareDelta, step, sq_file, sq_rank, file_of_index, rank_of_index};
use crate::bitboard::Bitboard;
use crate::piece::PieceType;

verus! {

/// The square of an optional step, as a set.
pub open spec fn opt_set(o: Option<int>) -> Set<int> {
    match o {
        Some(t) => set![t],
        None => Set::empty(),
    }
}

/// Black's forward direction is towards rank 1 (-1); White's towards rank 9 (+1).
pub open spec fn fwd(c: Color) -> int {
    match c {
        Color::Black => -1,
        Color::White => 1,
    }
}

/// The squares reached from `s` by sliding in direction `d`, up to and
/// including the first square in `occ`.
pub open spec fn ray(s: int, d: int, occ: Set<int>) -> Set<int>
    decreases (if d < 0 {
        s
    } else {
        81 - s
    }),
{
    if d == 0 || !(0 <= s < 81) {
        Set::empty()
    } else {
        match step(s, d) {
            None => Set::empty(),
            Some(n) => if occ.contains(n) {
                set![n]
            } else {
                set![n].union(ray(n, d, occ))
            },
        }
    }
}

pub open spec fn king_set(s: int) -> Set<int> {
    opt_set(step(s, -1)).union(opt_set(step(s, 1))).union(opt_set(step(s, -9))).union(
        opt_set(step(s, 9)),
    ).union(opt_set(step(s, -10))).union(opt_set(step(s, 8))).union(opt_set(step(s, -8))).union(
        opt_set(step(s, 10)),
    )
}

pub open spec fn pawn_set(c: Color, s: int) -> Set<int> {
    opt_set(step(s, fwd(c)))
}

pub open spec fn knight_set(c: Color, s: int) -> Set<int> {
    match step(s, fwd(c)) {
        None => Set::empty(),
        Some(a) => match step(a, fwd(c)) {
            None => Set::empty(),
            Some(b) => opt_set(step(b, 9)).union(opt_set(step(b, -9))),
        },
    }
}

pub open spec fn silver_set(c: Color, s: int) -> Set<int> {
    match c {
        Color::Black => opt_set(step(s, -1)).union(opt_set(step(s, -10))).union(
            opt_set(step(s, 8)),
        ).union(opt_set(step(s, -8))).union(opt_set(step(s, 10))),
        Color::White => opt_set(step(s, 1)).union(opt_set(step(s, -8))).union(
            opt_set(step(s, 10)),
        ).union(opt_set(step(s, -10))).union(opt_set(step(s, 8))),
    }
}

pub open spec fn gold_set(c: Color, s: int) -> Set<int> {
    match c {
        Color::Black => opt_set(step(s, -1)).union(opt_set(step(s, -10))).union(
            opt_set(step(s, 8)),
        ).union(opt_set(step(s, -9))).union(opt_set(step(s, 9))).union(opt_set(step(s, 1))),
        Color::White => opt_set(step(s, 1)).union(opt_set(step(s, -8))).union(
            opt_set(step(s, 10)),
        ).union(opt_set(step(s, -9))).union(opt_set(step(s, 9))).union(opt_set(step(s, -1))),
    }
}

/// A lance's squares: straight forward along its file up to and including
/// the first square in `occ`.
pub open spec fn lance_set(c: Color, s: int, occ: Set<int>) -> Set<int> {
    Set::new(
        |t: int|
            0 <= t < 81 && sq_file(t) == sq_file(s) && (match c {
                Color::Black => sq_rank(t) < sq_rank(s),
                Color::White => sq_rank(t) > sq_rank(s),
            }) && (forall|u: int|
                #![trigger occ.contains(u)]
                0 <= u < 81 && sq_file(u) == sq_file(s) && (match c {
                    Color::Black => sq_rank(t) < sq_rank(u) < sq_rank(s),
                    Color::White => sq_rank(s) < sq_rank(u) < sq_rank(t),
                }) ==> !occ.contains(u)),
    )
}

pub open spec fn bishop_set(s: int, occ: Set<int>) -> Set<int> {
    ray(s, -10, occ).union(ray(s, 8, occ)).union(ray(s, -8, occ)).union(ray(s, 10, occ))
}

pub open spec fn rook_set(s: int, occ: Set<int>) -> Set<int> {
    ray(s, -1, occ).union(ray(s, 1, occ)).union(ray(s, -9, occ)).union(ray(s, 9, occ))
}

/// The squares that a piece of kind `pt` and colour `c` on square `s`
/// attacks when the occupied squares are `occ`.
pub open spec fn attack_spec(pt: PieceType, c: Color, s: int, occ: Set<int>) -> Set<int> {
    match pt {
        PieceType::Pawn => pawn_set(c, s),
        PieceType::Lance => lance_set(c, s, occ),
        PieceType::Knight => knight_set(c, s),
        PieceType::Silver => silver_set(c, s),
        PieceType::Gold | PieceType::ProPawn | PieceType::ProLance | PieceType::ProKnight
        | PieceType::ProSilver => gold_set(c, s),
        PieceType::King => king_set(s),
        PieceType::Bishop => bishop_set(s, occ),
        PieceType::Rook => rook_set(s, occ),
        PieceType::Horse => bishop_set(s, occ).union(king_set(s)),
        PieceType::Dragon => rook_set(s, occ).union(king_set(s)),
        PieceType::Occupied => Set::empty(),
    }
}

/// The squares of a ray are on the board.
pub proof fn lemma_ray_on_board(s: int, d: int, occ: Set<int>)
    ensures
        forall|t: int| #[trigger] ray(s, d, occ).contains(t) ==> 0 <= t < 81,
    decreases (if d < 0 {
        s
    } else {
        81 - s
    }),
{
    if d != 0 && 0 <= s < 81 {
        match step(s, d) {
            None => {},
            Some(n) => {
                if !occ.contains(n) {
                    lemma_ray_on_board(n, d, occ);
                    assert(ray(s, d, occ) == set![n].union(ray(n, d, occ)));
                } else {
                    assert(ray(s, d, occ) == set![n]);
                }
            },
        }
    } else {
        assert(ray(s, d, occ) == Set::<int>::empty());
    }
}

pub proof fn lemma_attack_on_board(pt: PieceType, c: Color, s: int, occ: Set<int>)
    ensures
        forall|t: int| #[trigger] attack_spec(pt, c, s, occ).contains(t) ==> 0 <= t < 81,
{
    assert forall|t: int| #[trigger] attack_spec(pt, c, s, occ).contains(t) implies 0 <= t < 81 by {
        match pt {
            PieceType::Bishop | PieceType::Horse => {
                lemma_ray_on_board(s, -10, occ);
                lemma_ray_on_board(s, 8, occ);
                lemma_ray_on_board(s, -8, occ);
                lemma_ray_on_board(s, 10, occ);
            },
            PieceType::Rook | PieceType::Dragon => {
                lemma_ray_on_board(s, -1, occ);
                lemma_ray_on_board(s, 1, occ);
                lemma_ray_on_board(s, -9, occ);
                lemma_ray_on_board(s, 9, occ);
            },
            PieceType::Knight => {
                match step(s, fwd(c)) {
                    Some(a) => {
                        match step(a, fwd(c)) {
                            Some(b) => {},
                            None => {},
                        }
                    },
                    None => {},
                }
            },
            _ => {},
        }
    }
}

/// One step of a piece, as `square + delta` computes it.
pub fn step_square(s: Square, d: SquareDelta) -> (r: Option<Square>)
    requires
        s.on_board(),
        -10 <= d.0 <= 10,
    ensures
        r == (match step(s.0 as int, d.0 as int) {
            Some(n) => Some(Square(n as u8)),
            None => None,
        }),
        r matches Some(t) ==> t.on_board(),
{
    let x = s.0;
    assert(x < 81 ==> (x as i8) as int == x as int) by (bit_vector);
    s + d
}

/// Adds the square one step away, if there is one.
fn add_step(bb: &mut Bitboard, s: Square, d: SquareDelta)
    requires
        s.on_board(),
        -10 <= d.0 <= 10,
        old(bb).wf(),
    ensures
        final(bb).wf(),
        final(bb)@ == old(bb)@.union(opt_set(step(s.0 as int, d.0 as int))),
{
    match step_square(s, d) {
        Some(t) => {
            bb.set(t);
            assert(final(bb)@ =~= old(bb)@.union(opt_set(step(s.0 as int, d.0 as int))));
        },
        None => {
            assert(old(bb)@ =~= old(bb)@.union(opt_set(step(s.0 as int, d.0 as int))));
        },
    }
}

/// The squares reached by sliding from `from` in direction `d`, stopping at
/// (and including) the first occupied square.
pub fn ray_attacks(from: Square, d: SquareDelta, occupied: Bitboard) -> (r: Bitboard)
    requires
        from.on_board(),
        d.0 == -1 || d.0 == 1 || d.0 == -9 || d.0 == 9 || d.0 == -10 || d.0 == 8 || d.0 == -8
            || d.0 == 10,
    ensures
        r.wf(),
        r@ == ray(from.0 as int, d.0 as int, occupied@),
{
    let mut bb = Bitboard::ZERO();
    let mut cur = from;
    loop
        invariant_except_break
            cur.on_board(),
            d.0 == -1 || d.0 == 1 || d.0 == -9 || d.0 == 9 || d.0 == -10 || d.0 == 8 || d.0 == -8
                || d.0 == 10,
            bb.wf(),
            bb@.union(ray(cur.0 as int, d.0 as int, occupied@)) == ray(from.0 as int, d.0 as int, occupied@),
        ensures
            bb.wf(),
            bb@ == ray(from.0 as int, d.0 as int, occupied@),
        decreases (if d.0 < 0 {
            cur.0 as int
        } else {
            81 - cur.0
        }),
    {
        match step_square(cur, d) {
            Some(next) => {
                bb.set(next);
                if occupied.is_set(next) {
                    assert(bb@ =~= ray(from.0 as int, d.0 as int, occupied@));
                    break;
                }
                assert(bb@.union(ray(next.0 as int, d.0 as int, occupied@)) =~= ray(from.0 as int, d.0 as int, occupied@));
                cur = next;
            },
            None => {
                assert(bb@ =~= ray(from.0 as int, d.0 as int, occupied@));
                break;
            },
        }
    }
    bb
}

/// Squares a bishop on `sq` attacks with the given occupied squares.
pub fn bishop_ray_attacks(sq: Square, occupied: Bitboard) -> (r: Bitboard)
    requires
        sq.on_board(),
    ensures
        r.wf(),
        r@ == bishop_set(sq.0 as int, occupied@),
{
    let a = ray_attacks(sq, SquareDelta::NE(), occupied);
    let b = ray_attacks(sq, SquareDelta::NW(), occupied);
    let c = ray_attacks(sq, SquareDelta::SE(), occupied);
    let e = ray_attacks(sq, SquareDelta::SW(), occupied);
    a.bit_or(b).bit_or(c).bit_or(e)
}

/// Squares a rook on `sq` attacks with the given occupied squares.
pub fn rook_ray_attacks(sq: Square, occupied: Bitboard) -> (r: Bitboard)
    requires
        sq.on_board(),
    ensures
        r.wf(),
        r@ == rook_set(sq.0 as int, occupied@),
{
    let a = ray_attacks(sq, SquareDelta::N(), occupied);
    let b = ray_attacks(sq, SquareDelta::S(), occupied);
    let c = ray_attacks(sq, SquareDelta::E(), occupied);
    let e = ray_attacks(sq, SquareDelta::W(), occupied);
    a.bit_or(b).bit_or(c).bit_or(e)
}

pub fn king_attacks(sq: Square) -> (r: Bitboard)
    requires
        sq.on_board(),
    ensures
        r.wf(),
        r@ == king_set(sq.0 as int),
{
    let mut bb = Bitboard::ZERO();
    add_step(&mut bb, sq, SquareDelta::N());
    add_step(&mut bb, sq, SquareDelta::S());
    add_step(&mut bb, sq, SquareDelta::E());
    add_step(&mut bb, sq, SquareDelta::W());
    add_step(&mut bb, sq, SquareDelta::NE());
    add_step(&mut bb, sq, SquareDelta::NW());
    add_step(&mut bb, sq, SquareDelta::SE());
    add_step(&mut bb, sq, SquareDelta::SW());
    assert(bb@ =~= king_set(sq.0 as int));
    bb
}

fn forward(c: Color) -> (r: SquareDelta)
    ensures
        r.0 == fwd(c),
{
    match c {
        Color::Black => SquareDelta::N(),
        Color::White => SquareDelta::S(),
    }
}

pub fn pawn_attacks(c: Color, sq: Square) -> (r: Bitboard)
    requires
        sq.on_board(),
    ensures
        r.wf(),
        r@ == pawn_set(c, sq.0 as int),
{
    let mut bb = Bitboard::ZERO();
    add_step(&mut bb, sq, forward(c));
    assert(bb@ =~= pawn_set(c, sq.0 as int));
    bb
}

pub fn knight_attacks(c: Color, sq: Square) -> (r: Bitboard)
    requires
        sq.on_board(),
    ensures
        r.wf(),
        r@ == knight_set(c, sq.0 as int),
{
    let mut bb = Bitboard::ZERO();
    let f = forward(c);
    if let Some(a) = step_square(sq, f) {
        if let Some(b) = step_square(a, f) {
            add_step(&mut bb, b, SquareDelta::W());
            add_step(&mut bb, b, SquareDelta::E());
        }
    }
    assert(bb@ =~= knight_set(c, sq.0 as int));
    bb
}

pub fn silver_attacks(c: Color, sq: Square) -> (r: Bitboard)
    requires
        sq.on_board(),
    ensures
        r.wf(),
        r@ == silver_set(c, sq.0 as int),
{
    let mut bb = Bitboard::ZERO();
    match c {
        Color::Black => {
            add_step(&mut bb, sq, SquareDelta::N());
            add_step(&mut bb, sq, SquareDelta::NE());
            add_step(&mut bb, sq, SquareDelta::NW());
            add_step(&mut bb, sq, SquareDelta::SE());
            add_step(&mut bb, sq, SquareDelta::SW());
        },
        Color::White => {
            add_step(&mut bb, sq, SquareDelta::S());
            add_step(&mut bb, sq, SquareDelta::SE());
            add_step(&mut bb, sq, SquareDelta::SW());
            add_step(&mut bb, sq, SquareDelta::NE());
            add_step(&mut bb, sq, SquareDelta::NW());
        },
    }
    assert(bb@ =~= silver_set(c, sq.0 as int));
    bb
}

pub fn gold_attacks(c: Color, sq: Square) -> (r: Bitboard)
    requires
        sq.on_board(),
    ensures
        r.wf(),
        r@ == gold_set(c, sq.0 as int),
{
    let mut bb = Bitboard::ZERO();
    match c {
        Color::Black => {
            add_step(&mut bb, sq, SquareDelta::N());
            add_step(&mut bb, sq, SquareDelta::NE());
            add_step(&mut bb, sq, SquareDelta::NW());
            add_step(&mut bb, sq, SquareDelta::E());
            add_step(&mut bb, sq, SquareDelta::W());
            add_step(&mut bb, sq, SquareDelta::S());
        },
        Color::White => {
            add_step(&mut bb, sq, SquareDelta::S());
            add_step(&mut bb, sq, SquareDelta::SE());
            add_step(&mut bb, sq, SquareDelta::SW());
            add_step(&mut bb, sq, SquareDelta::E());
            add_step(&mut bb, sq, SquareDelta::W());
            add_step(&mut bb, sq, SquareDelta::N());
        },
    }
    assert(bb@ =~= gold_set(c, sq.0 as int));
    bb
}

/// A lance's squares along its file, stopping at the first occupied square.
pub fn lance_ray_attacks(c: Color, from: Square, occupied: Bitboard) -> (r: Bitboard)
    requires
        from.on_board(),
    ensures
        r.wf(),
        r@ == lance_set(c, from.0 as int, occupied@),
{
    let mut bb = Bitboard::ZERO();
    let file = from.file();
    let start_rank = from.rank().to_u8();
    let ghost s = from.0 as int;
    match c {
        Color::Black => {
            let mut r: u8 = start_rank;
            while r > 0
                invariant_except_break
                    r <= start_rank,
                    start_rank == sq_rank(s),
                    file.value() == sq_file(s),
                    0 <= s < 81,
                    c == Color::Black,
                    bb.wf(),
                    bb@ == Set::new(|t: int| lance_set(c, s, occupied@).contains(t) && sq_rank(t) >= r),
                    forall|u: int| #![trigger occupied@.contains(u)] 0 <= u < 81 && sq_file(u) == sq_file(s) && r <= sq_rank(u) < sq_rank(s) ==> !occupied@.contains(u),
                ensures
                    bb.wf(),
                    bb@ == lance_set(c, s, occupied@),
                decreases r,
            {
                r = r - 1;
                let sq = Square::new(file, Rank::from_u8(r).unwrap());
                bb.set(sq);
                if occupied.is_set(sq) {
                    assert(bb@ =~= lance_set(c, s, occupied@)) by {
                        assert forall|t: int| lance_set(c, s, occupied@).contains(t) implies sq_rank(t) >= r by {
                            if sq_rank(t) < r {
                                assert(occupied@.contains(sq.0 as int));
                            }
                        }
                    }
                    break;
                }
                assert(bb@ =~= Set::new(|t: int| lance_set(c, s, occupied@).contains(t) && sq_rank(t) >= r));
            }
            assert(bb@ =~= lance_set(c, s, occupied@));
        },
        Color::White => {
            let mut r: u8 = start_rank + 1;
            while r < 9
                invariant_except_break
                    start_rank + 1 <= r <= 9,
                    start_rank == sq_rank(s),
                    file.value() == sq_file(s),
                    0 <= s < 81,
                    c == Color::White,
                    bb.wf(),
                    bb@ == Set::new(|t: int| lance_set(c, s, occupied@).contains(t) && sq_rank(t) < r),
                    forall|u: int| #![trigger occupied@.contains(u)] 0 <= u < 81 && sq_file(u) == sq_file(s) && sq_rank(s) < sq_rank(u) < r ==> !occupied@.contains(u),
                ensures
                    bb.wf(),
                    bb@ == lance_set(c, s, occupied@),
                decreases 9 - r,
            {
                let sq = Square::new(file, Rank::from_u8(r).unwrap());
                bb.set(sq);
                r = r + 1;
                if occupied.is_set(sq) {
                    assert(bb@ =~= lance_set(c, s, occupied@)) by {
                        assert forall|t: int| lance_set(c, s, occupied@).contains(t) implies sq_rank(t) < r by {
                            if sq_rank(t) >= r {
                                assert(occupied@.contains(sq.0 as int));
                            }
                        }
                    }
                    break;
                }
                assert(bb@ =~= Set::new(|t: int| lance_set(c, s, occupied@).contains(t) && sq_rank(t) < r));
            }
            assert(bb@ =~= lance_set(c, s, occupied@));
        },
    }
    bb
}

/// The squares a piece attacks on an empty board (for lances, bishops, rooks,
/// horses and dragons, every square in their lines).
pub fn attacks_from(pt: PieceType, c: Color, sq: Square) -> (r: Bitboard)
    requires
        sq.on_board(),
    ensures
        r.wf(),
        r@ == attack_spec(pt, c, sq.0 as int, Set::empty()),
{
    let empty = Bitboard::ZERO();
    match pt {
        PieceType::Pawn => pawn_attacks(c, sq),
        PieceType::Lance => lance_ray_attacks(c, sq, empty),
        PieceType::Knight => knight_attacks(c, sq),
        PieceType::Silver => silver_attacks(c, sq),
        PieceType::Gold | PieceType::ProPawn | PieceType::ProLance | PieceType::ProKnight
        | PieceType::ProSilver => gold_attacks(c, sq),
        PieceType::King => king_attacks(sq),
        PieceType::Bishop => bishop_ray_attacks(sq, empty),
        PieceType::Rook => rook_ray_attacks(sq, empty),
        PieceType::Horse => bishop_ray_attacks(sq, empty).bit_or(king_attacks(sq)),
        PieceType::Dragon => rook_ray_attacks(sq, empty).bit_or(king_attacks(sq)),
        PieceType::Occupied => empty,
    }
}

/// Precomputed attack sets of the pieces that do not slide, and of the
/// lance on an empty board.  Tables are indexed by `colour * 81 + square`;
/// the lance table has 128 entries (one per occupancy pattern, all equal) for
/// each colour and square.
pub struct AttackTables {
    pub pawn: Vec<Bitboard>,
    pub knight: Vec<Bitboard>,
    pub silver: Vec<Bitboard>,
    pub gold: Vec<Bitboard>,
    pub king: Vec<Bitboard>,
    pub lance: Vec<Bitboard>,
}

/// The entry of a per-colour table holds `set`.
pub open spec fn entry_is(t: Seq<Bitboard>, i: int, set: Set<int>) -> bool {
    0 <= i < t.len() && t[i].wf() && t[i]@ == set
}

impl AttackTables {
    /// Every entry holds the attack set it stands for.
    pub open spec fn ok(&self) -> bool {
        &&& self.pawn@.len() == 162
        &&& self.knight@.len() == 162
        &&& self.silver@.len() == 162
        &&& self.gold@.len() == 162
        &&& self.king@.len() == 81
        &&& self.lance@.len() == 20736
        &&& forall|c: Color, s: int|
            #![trigger self.pawn@[c.index() * 81 + s]]
            0 <= s < 81 ==> entry_is(self.pawn@, c.index() * 81 + s, pawn_set(c, s))
        &&& forall|c: Color, s: int|
            #![trigger self.knight@[c.index() * 81 + s]]
            0 <= s < 81 ==> entry_is(self.knight@, c.index() * 81 + s, knight_set(c, s))
        &&& forall|c: Color, s: int|
            #![trigger self.silver@[c.index() * 81 + s]]
            0 <= s < 81 ==> entry_is(self.silver@, c.index() * 81 + s, silver_set(c, s))
        &&& forall|c: Color, s: int|
            #![trigger self.gold@[c.index() * 81 + s]]
            0 <= s < 81 ==> entry_is(self.gold@, c.index() * 81 + s, gold_set(c, s))
        &&& forall|s: int| #![trigger self.king@[s]] 0 <= s < 81 ==> entry_is(self.king@, s, king_set(s))
        &&& forall|c: Color, s: int, o: int|
            #![trigger self.lance@[(c.index() * 81 + s) * 128 + o]]
            0 <= s < 81 && 0 <= o < 128 ==> entry_is(
                self.lance@,
                (c.index() * 81 + s) * 128 + o,
                lance_set(c, s, Set::empty()),
            )
    }

    /// Builds the tables.
    pub fn new() -> (r: AttackTables)
        ensures
            r.ok(),
    {
        let mut tables = AttackTables {
            pawn: Vec::new(),
            knight: Vec::new(),
            silver: Vec::new(),
            gold: Vec::new(),
            king: Vec::new(),
            lance: Vec::new(),
        };
        tables.init_step_attacks();
        tables.init_lance_attacks();
        tables
    }

    /// Fills the tables of pawns, knights, silvers, golds and kings.
    fn init_step_attacks(&mut self)
        ensures
            final(self).lance == old(self).lance,
            final(self).pawn@.len() == 162,
            final(self).knight@.len() == 162,
            final(self).silver@.len() == 162,
            final(self).gold@.len() == 162,
            final(self).king@.len() == 81,
            forall|c: Color, s: int|
                #![trigger final(self).pawn@[c.index() * 81 + s]]
                0 <= s < 81 ==> entry_is(final(self).pawn@, c.index() * 81 + s, pawn_set(c, s)),
            forall|c: Color, s: int|
                #![trigger final(self).knight@[c.index() * 81 + s]]
                0 <= s < 81 ==> entry_is(final(self).knight@, c.index() * 81 + s, knight_set(c, s)),
            forall|c: Color, s: int|
                #![trigger final(self).silver@[c.index() * 81 + s]]
                0 <= s < 81 ==> entry_is(final(self).silver@, c.index() * 81 + s, silver_set(c, s)),
            forall|c: Color, s: int|
                #![trigger final(self).gold@[c.index() * 81 + s]]
                0 <= s < 81 ==> entry_is(final(self).gold@, c.index() * 81 + s, gold_set(c, s)),
            forall|s: int| #![trigger final(self).king@[s]] 0 <= s < 81 ==> entry_is(final(self).king@, s, king_set(s)),
    {
        let mut pawn: Vec<Bitboard> = Vec::new();
        let mut knight: Vec<Bitboard> = Vec::new();
        let mut silver: Vec<Bitboard> = Vec::new();
        let mut gold: Vec<Bitboard> = Vec::new();
        let mut king: Vec<Bitboard> = Vec::new();
        let mut ci: u8 = 0;
        while ci < 2
            invariant
                ci <= 2,
                pawn@.len() == ci * 81,
                knight@.len() == ci * 81,
                silver@.len() == ci * 81,
                gold@.len() == ci * 81,
                forall|c: Color, s: int|
                    #![trigger pawn@[c.index() * 81 + s]]
                    c.index() < ci && 0 <= s < 81 ==> entry_is(pawn@, c.index() * 81 + s, pawn_set(c, s)),
                forall|c: Color, s: int|
                    #![trigger knight@[c.index() * 81 + s]]
                    c.index() < ci && 0 <= s < 81 ==> entry_is(knight@, c.index() * 81 + s, knight_set(c, s)),
                forall|c: Color, s: int|
                    #![trigger silver@[c.index() * 81 + s]]
                    c.index() < ci && 0 <= s < 81 ==> entry_is(silver@, c.index() * 81 + s, silver_set(c, s)),
                forall|c: Color, s: int|
                    #![trigger gold@[c.index() * 81 + s]]
                    c.index() < ci && 0 <= s < 81 ==> entry_is(gold@, c.index() * 81 + s, gold_set(c, s)),
            decreases 2 - ci,
        {
            let c = if ci == 0 {
                Color::Black
            } else {
                Color::White
            };
            let mut sq_idx: u8 = 0;
            while sq_idx < 81
                invariant
                    sq_idx <= 81,
                    ci < 2,
                    c.index() == ci,
                    pawn@.len() == ci * 81 + sq_idx,
                    knight@.len() == ci * 81 + sq_idx,
                    silver@.len() == ci * 81 + sq_idx,
                    gold@.len() == ci * 81 + sq_idx,
                    forall|c2: Color, s: int|
                        #![trigger pawn@[c2.index() * 81 + s]]
                        (c2.index() < ci && 0 <= s < 81 || c2.index() == ci && 0 <= s < sq_idx) ==> entry_is(pawn@, c2.index() * 81 + s, pawn_set(c2, s)),
                    forall|c2: Color, s: int|
                        #![trigger knight@[c2.index() * 81 + s]]
                        (c2.index() < ci && 0 <= s < 81 || c2.index() == ci && 0 <= s < sq_idx) ==> entry_is(knight@, c2.index() * 81 + s, knight_set(c2, s)),
                    forall|c2: Color, s: int|
                        #![trigger silver@[c2.index() * 81 + s]]
                        (c2.index() < ci && 0 <= s < 81 || c2.index() == ci && 0 <= s < sq_idx) ==> entry_is(silver@, c2.index() * 81 + s, silver_set(c2, s)),
                    forall|c2: Color, s: int|
                        #![trigger gold@[c2.index() * 81 + s]]
                        (c2.index() < ci && 0 <= s < 81 || c2.index() == ci && 0 <= s < sq_idx) ==> entry_is(gold@, c2.index() * 81 + s, gold_set(c2, s)),
                decreases 81 - sq_idx,
            {
                let sq = Square(sq_idx);
                pawn.push(pawn_attacks(c, sq));
                knight.push(knight_attacks(c, sq));
                silver.push(silver_attacks(c, sq));
                gold.push(gold_attacks(c, sq));
                sq_idx = sq_idx + 1;
            }
            ci = ci + 1;
        }
        let mut sq_idx: u8 = 0;
        while sq_idx < 81
            invariant
                sq_idx <= 81,
                king@.len() == sq_idx,
                forall|s: int| #![trigger king@[s]] 0 <= s < sq_idx ==> entry_is(king@, s, king_set(s)),
            decreases 81 - sq_idx,
        {
            king.push(king_attacks(Square(sq_idx)));
            sq_idx = sq_idx + 1;
        }
        self.pawn = pawn;
        self.knight = knight;
        self.silver = silver;
        self.gold = gold;
        self.king = king;
    }

    /// Fills the lance table (every occupancy entry holds the empty-board squares).
    fn init_lance_attacks(&mut self)
        ensures
            final(self).pawn == old(self).pawn,
            final(self).knight == old(self).knight,
            final(self).silver == old(self).silver,
            final(self).gold == old(self).gold,
            final(self).king == old(self).king,
            final(self).lance@.len() == 20736,
            forall|c: Color, s: int, o: int|
                #![trigger final(self).lance@[(c.index() * 81 + s) * 128 + o]]
                0 <= s < 81 && 0 <= o < 128 ==> entry_is(
                    final(self).lance@,
                    (c.index() * 81 + s) * 128 + o,
                    lance_set(c, s, Set::empty()),
                ),
    {
        let mut lance: Vec<Bitboard> = Vec::new();
        let empty = Bitboard::ZERO();
        let mut ci: u8 = 0;
        while ci < 2
            invariant
                ci <= 2,
                empty@ == Set::<int>::empty(),
                lance@.len() == ci * 81 * 128,
                forall|c: Color, s: int, o: int|
                    #![trigger lance@[(c.index() * 81 + s) * 128 + o]]
                    c.index() < ci && 0 <= s < 81 && 0 <= o < 128 ==> entry_is(lance@, (c.index() * 81 + s) * 128 + o, lance_set(c, s, Set::empty())),
            decreases 2 - ci,
        {
            let c = if ci == 0 {
                Color::Black
            } else {
                Color::White
            };
            let mut sq_idx: u8 = 0;
            while sq_idx < 81
                invariant
                    sq_idx <= 81,
                    ci < 2,
                    c.index() == ci,
                    empty@ == Set::<int>::empty(),
                    lance@.len() == (ci * 81 + sq_idx) * 128,
                    forall|c2: Color, s: int, o: int|
                        #![trigger lance@[(c2.index() * 81 + s) * 128 + o]]
                        (c2.index() < ci && 0 <= s < 81 || c2.index() == ci && 0 <= s < sq_idx) && 0 <= o < 128 ==> entry_is(lance@, (c2.index() * 81 + s) * 128 + o, lance_set(c2, s, Set::empty())),
                decreases 81 - sq_idx,
            {
                let bb = lance_ray_attacks(c, Square(sq_idx), empty);
                let mut occ: u8 = 0;
                while occ < 128
                    invariant
                        occ <= 128,
                        sq_idx < 81,
                        ci < 2,
                        c.index() == ci,
                        bb.wf(),
                        bb@ == lance_set(c, sq_idx as int, Set::empty()),
                        lance@.len() == (ci * 81 + sq_idx) * 128 + occ,
                        forall|c2: Color, s: int, o: int|
                            #![trigger lance@[(c2.index() * 81 + s) * 128 + o]]
                            ((c2.index() < ci && 0 <= s < 81 || c2.index() == ci && 0 <= s < sq_idx) && 0 <= o < 128
                                || c2.index() == ci && s == sq_idx && 0 <= o < occ) ==> entry_is(lance@, (c2.index() * 81 + s) * 128 + o, lance_set(c2, s, Set::empty())),
                    decreases 128 - occ,
                {
                    proof {
                        assert forall|c2: Color, s: int, o: int|
                            #![trigger lance@[(c2.index() * 81 + s) * 128 + o]]
                            (c2.index() < ci && 0 <= s < 81 || c2.index() == ci && 0 <= s < sq_idx) && 0 <= o < 128
                                || c2.index() == ci && s == sq_idx && 0 <= o < occ implies (c2.index() * 81 + s) * 128 + o < lance@.len() by {
                            assert((c2.index() * 81 + s) * 128 + o < (ci * 81 + sq_idx) * 128 + occ) by (nonlinear_arith)
                                requires
                                    (c2.index() < ci && 0 <= s < 81 || c2.index() == ci && 0 <= s < sq_idx) && 0 <= o < 128
                                        || c2.index() == ci && s == sq_idx && 0 <= o < occ,
                                    0 <= c2.index(),
                            ;
                        }
                    }
                    lance.push(bb);
                    occ = occ + 1;
                }
                sq_idx = sq_idx + 1;
            }
            ci = ci + 1;
        }
        self.lance = lance;
    }

    /// The squares a piece attacks on an empty board, from the tables.
    pub fn attacks(&self, pt: PieceType, c: Color, sq: Square) -> (r: Bitboard)
        requires
            self.ok(),
            sq.on_board(),
        ensures
            r.wf(),
            r@ == attack_spec(pt, c, sq.0 as int, Set::empty()),
    {
        let sq_idx = sq.0 as usize;
        let c_idx = c.to_index();
        let i = c_idx * 81 + sq_idx;
        proof {
            assert(self.pawn@[c.index() * 81 + sq.0 as int] == self.pawn@[i as int]);
        }
        match pt {
            PieceType::Pawn => self.pawn[i],
            PieceType::Lance => {
                let bb = self.lance[i * 128];
                proof {
                    assert(self.lance@[(c.index() * 81 + sq.0 as int) * 128 + 0] == bb);
                }
                bb
            },
            PieceType::Knight => self.knight[i],
            PieceType::Silver => self.silver[i],
            PieceType::Gold | PieceType::ProPawn | PieceType::ProLance | PieceType::ProKnight
            | PieceType::ProSilver => self.gold[i],
            PieceType::King => self.king[sq_idx],
            PieceType::Bishop => self.bishop_attacks(sq, Bitboard::ZERO()),
            PieceType::Rook => self.rook_attacks(sq, Bitboard::ZERO()),
            PieceType::Horse => self.bishop_attacks(sq, Bitboard::ZERO()).bit_or(self.king[sq_idx]),
            PieceType::Dragon => self.rook_attacks(sq, Bitboard::ZERO()).bit_or(self.king[sq_idx]),
            PieceType::Occupied => Bitboard::ZERO(),
        }
    }

    /// A bishop's squares on an empty board (the occupancy argument is not used).
    fn bishop_attacks(&self, sq: Square, _occupied: Bitboard) -> (r: Bitboard)
        requires
            sq.on_board(),
        ensures
            r.wf(),
            r@ == bishop_set(sq.0 as int, Set::empty()),
    {
        let empty = Bitboard::ZERO();
        bishop_ray_attacks(sq, empty)
    }

    /// A rook's squares on an empty board (the occupancy argument is not used).
    fn rook_attacks(&self, sq: Square, _occupied: Bitboard) -> (r: Bitboard)
        requires
            sq.on_board(),
        ensures
            r.wf(),
            r@ == rook_set(sq.0 as int, Set::empty()),
    {
        let empty = Bitboard::ZERO();
        rook_ray_attacks(sq, empty)
    }
}

/// Builds the attack tables.  (The tables are a value that the caller keeps;
/// this library holds no global state.)
pub fn init_attack_tables() -> (r: AttackTables)
    ensures
        r.ok(),
{
    AttackTables::new()
}

/// The attack tables (built anew; see `init_attack_tables`).
pub fn get_attack_tables() -> (r: AttackTables)
    ensures
        r.ok(),
{
    AttackTables::new()
}


/// Turning the board half round maps square `s` to `80 - s`: file and rank
/// indices become `8 -` themselves.
pub(crate) proof fn lemma_turn_square(s: int)
    requires
        0 <= s < 81,
    ensures
        sq_file(80 - s) == 8 - sq_file(s),
        sq_rank(80 - s) == 8 - sq_rank(s),
{
    let f = sq_file(s);
    let r = sq_rank(s);
    assert(s == 9 * f + r && 0 <= f < 9 && 0 <= r < 9);
    assert(80 - s == 9 * (8 - f) + (8 - r));
}

/// A step from the turned square in the opposite direction lands on the
/// turned square of the step.
proof fn lemma_step_turn(s: int, d: int)
    requires
        0 <= s < 81,
    ensures
        step(80 - s, -d) == match step(s, d) {
            Some(n) => Some(80 - n),
            None => None,
        },
{
    lemma_turn_square(s);
    let n = s + d;
    if 0 <= n < 81 {
        lemma_turn_square(n);
    }
}

/// The same for the one-square sets of steps.
proof fn lemma_opt_turn(s: int, d: int, u: int)
    requires
        0 <= s < 81,
        0 <= u < 81,
    ensures
        opt_set(step(s, d)).contains(u) == opt_set(step(80 - s, -d)).contains(80 - u),
{
    lemma_step_turn(s, d);
}

/// A ray on the empty board, turned half round, is the ray from the turned
/// square in the opposite direction.
proof fn lemma_ray_turn(s: int, d: int, u: int)
    requires
        0 <= s < 81,
        0 <= u < 81,
        d != 0,
    ensures
        ray(s, d, Set::empty()).contains(u) == ray(80 - s, -d, Set::empty()).contains(80 - u),
    decreases (if d < 0 {
        s
    } else {
        81 - s
    }),
{
    lemma_step_turn(s, d);
    match step(s, d) {
        None => {},
        Some(n) => {
            assert(0 <= n < 81 && n == s + d);
            lemma_ray_turn(n, d, u);
        },
    }
}

/// The eight one-square steps, turned half round.
proof fn lemma_steps_turn(s: int, u: int)
    requires
        0 <= s < 81,
        0 <= u < 81,
    ensures
        king_set(s).contains(u) == king_set(80 - s).contains(80 - u),
        pawn_set(Color::White, s).contains(u) == pawn_set(Color::Black, 80 - s).contains(80 - u),
        silver_set(Color::White, s).contains(u) == silver_set(Color::Black, 80 - s).contains(80 - u),
        gold_set(Color::White, s).contains(u) == gold_set(Color::Black, 80 - s).contains(80 - u),
{
    lemma_opt_turn(s, 1, u);
    lemma_opt_turn(s, -1, u);
    lemma_opt_turn(s, 9, u);
    lemma_opt_turn(s, -9, u);
    lemma_opt_turn(s, 8, u);
    lemma_opt_turn(s, -8, u);
    lemma_opt_turn(s, 10, u);
    lemma_opt_turn(s, -10, u);
}

/// The knight's squares, turned half round.
proof fn lemma_knight_turn(s: int, u: int)
    requires
        0 <= s < 81,
        0 <= u < 81,
    ensures
        knight_set(Color::White, s).contains(u) == knight_set(Color::Black, 80 - s).contains(80 - u),
{
    lemma_step_turn(s, 1);
    match step(s, 1) {
        None => {},
        Some(a) => {
            lemma_step_turn(a, 1);
            match step(a, 1) {
                None => {},
                Some(b) => {
                    lemma_opt_turn(b, 9, u);
                    lemma_opt_turn(b, -9, u);
                },
            }
        },
    }
}

/// The lance's squares on the empty board, turned half round.
proof fn lemma_lance_turn(s: int, u: int)
    requires
        0 <= s < 81,
        0 <= u < 81,
    ensures
        lance_set(Color::White, s, Set::empty()).contains(u) == lance_set(Color::Black, 80 - s, Set::empty()).contains(
            80 - u,
        ),
{
    lemma_turn_square(s);
    lemma_turn_square(u);
}

/// The bishop's and rook's squares on the empty board, turned half round.
proof fn lemma_sliders_turn(s: int, u: int)
    requires
        0 <= s < 81,
        0 <= u < 81,
    ensures
        bishop_set(s, Set::empty()).contains(u) == bishop_set(80 - s, Set::empty()).contains(80 - u),
        rook_set(s, Set::empty()).contains(u) == rook_set(80 - s, Set::empty()).contains(80 - u),
{
    lemma_ray_turn(s, -10, u);
    lemma_ray_turn(s, 10, u);
    lemma_ray_turn(s, 8, u);
    lemma_ray_turn(s, -8, u);
    lemma_ray_turn(s, -1, u);
    lemma_ray_turn(s, 1, u);
    lemma_ray_turn(s, 9, u);
    lemma_ray_turn(s, -9, u);
}

/// The attacks of a White piece on square `s` of the empty board are those of
/// the Black piece of the same kind on the turned square `80 - s`, turned
/// half round: square `u` is attacked by the one exactly when `80 - u` is by
/// the other.
pub proof fn lemma_attacks_turn(pt: PieceType, s: int, u: int)
    requires
        0 <= s < 81,
        0 <= u < 81,
    ensures
        attack_spec(pt, Color::White, s, Set::empty()).contains(u) == attack_spec(
            pt,
            Color::Black,
            80 - s,
            Set::empty(),
        ).contains(80 - u),
{
    match pt {
        PieceType::Knight => lemma_knight_turn(s, u),
        PieceType::Lance => lemma_lance_turn(s, u),
        PieceType::Bishop | PieceType::Rook => lemma_sliders_turn(s, u),
        PieceType::Horse | PieceType::Dragon => {
            lemma_sliders_turn(s, u);
            lemma_steps_turn(s, u);
        },
        _ => lemma_steps_turn(s, u),
    }
}

} // verus!
