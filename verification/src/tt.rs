//! The transposition table: one entry per slot, indexed by the low bits of a
//! position key, with a replacement rule that favours deeper and exact
//! results of the current search.
use vstd::prelude::*;
use crate::moves::Move;
use crate::position::{Position, PosView};
use crate::sfen::sfen_text;

verus! {

/// Number of index bits of the table.
pub const TT_BITS: usize = 20;

/// Number of slots of the table.
pub const TT_SIZE: usize = 1048576;

/// The evaluation field of an entry that holds no evaluation.
pub const NO_EVAL: i32 = i32::MIN;

/// What a stored score says of the true score.
#[derive(Clone, Copy, PartialEq, Eq, Structural, Debug)]
pub enum Bound {
    /// No score (the entry holds only an evaluation, or nothing).
    NoBound,
    /// The true score is at most the stored one.
    Upper,
    /// The true score is at least the stored one.
    Lower,
    /// The stored score is the true one.
    Exact,
}

/// One slot of the table.
#[derive(Clone, Copy, Debug)]
pub struct TTEntry {
    pub key: u64,
    pub depth: i8,
    pub score: i32,
    pub eval: i32,
    pub mv: u32,
    pub bound: Bound,
    pub gen: u8,
}

/// The table and the generation (search number) it is in.
pub struct TT {
    pub table: Vec<TTEntry>,
    pub gen: u8,
}

/// The slot of a key: its low `TT_BITS` bits.
pub open spec fn slot(key: u64) -> int {
    key as int % TT_SIZE as int
}

/// The entry of a fresh table.
pub open spec fn empty_entry() -> TTEntry {
    TTEntry { key: 0, depth: -99i8, score: 0, eval: NO_EVAL, mv: 0, bound: Bound::NoBound, gen: 0 }
}

/// Whether `store` writes over the entry `e` of the slot: a different key, an
/// older generation, an exact score, or a depth at least the stored one.
pub open spec fn replaces(e: TTEntry, gen: u8, key: u64, depth: i8, bound: Bound) -> bool {
    e.key != key || e.gen != gen || bound == Bound::Exact || depth >= e.depth
}

/// The entry `store` writes over `e`: the given fields, the move of the
/// entry kept when no move is given and the key is the same (else 0).
pub open spec fn stored_entry(e: TTEntry, gen: u8, key: u64, depth: i8, score: i32, eval: i32, mv: Option<Move>, bound: Bound) -> TTEntry {
    let mv_raw = match mv {
        Some(m) => m.0,
        None => if e.key == key {
            e.mv
        } else {
            0
        },
    };
    TTEntry { key, depth, score, eval, mv: mv_raw, bound, gen }
}

/// What `probe` finds in entry `e` for `key`.
pub open spec fn probe_spec(e: TTEntry, key: u64) -> Option<TTEntry> {
    if e.key == key && e.bound != Bound::NoBound {
        Some(e)
    } else {
        None
    }
}

/// The slot of `key` holds an entry for `key` that records `score` at
/// `depth`, or one searched deeper (which a shallower result does not
/// replace).
pub open spec fn holds_result(t: TT, key: u64, depth: i8, score: i32) -> bool {
    let e = t.table@[slot(key)];
    e.key == key && ((e.depth == depth && e.score == score) || e.depth > depth)
}

impl TT {
    /// The table has its full size.
    pub open spec fn wf(&self) -> bool {
        self.table@.len() == TT_SIZE
    }

    /// A table of empty entries in generation 0.
    pub fn new() -> (r: TT)
        ensures
            r.wf(),
            r.gen == 0,
            forall|i: int| 0 <= i < TT_SIZE ==> #[trigger] r.table@[i] == empty_entry(),
    {
        let empty = TTEntry { key: 0, depth: -99, score: 0, eval: NO_EVAL, mv: 0, bound: Bound::NoBound, gen: 0 };
        let mut table: Vec<TTEntry> = Vec::new();
        let mut i: usize = 0;
        while i < TT_SIZE
            invariant
                i <= TT_SIZE,
                table@.len() == i,
                empty == empty_entry(),
                forall|j: int| 0 <= j < i ==> #[trigger] table@[j] == empty_entry(),
            decreases TT_SIZE - i,
        {
            table.push(empty);
            i = i + 1;
        }
        TT { table, gen: 0 }
    }

    /// Empties every slot (no key, no bound) and marks it with the current
    /// generation; the other fields stay.
    pub fn clear(&mut self)
        requires
            old(self).wf(),
        ensures
            final(self).wf(),
            final(self).gen == old(self).gen,
            forall|i: int|
                0 <= i < TT_SIZE ==> #[trigger] final(self).table@[i] == (TTEntry {
                    key: 0,
                    bound: Bound::NoBound,
                    gen: old(self).gen,
                    ..old(self).table@[i]
                }),
    {
        let mut i: usize = 0;
        while i < TT_SIZE
            invariant
                i <= TT_SIZE,
                self.wf(),
                self.gen == old(self).gen,
                forall|j: int|
                    0 <= j < i ==> #[trigger] self.table@[j] == (TTEntry {
                        key: 0,
                        bound: Bound::NoBound,
                        gen: old(self).gen,
                        ..old(self).table@[j]
                    }),
                forall|j: int| i <= j < TT_SIZE ==> #[trigger] self.table@[j] == old(self).table@[j],
            decreases TT_SIZE - i,
        {
            let mut e = self.table[i];
            e.bound = Bound::NoBound;
            e.key = 0;
            e.gen = self.gen;
            self.table.set(i, e);
            i = i + 1;
        }
    }

    /// Starts a new search: the generation advances by one (wrapping).
    pub fn new_search(&mut self)
        ensures
            final(self).table == old(self).table,
            final(self).gen == (if old(self).gen == 255 {
                0
            } else {
                old(self).gen + 1
            }),
    {
        self.gen = self.gen.wrapping_add(1);
    }

    /// Records a result for `key` in its slot when the slot's entry may be
    /// replaced (see `replaces` and `stored_entry`).
    pub fn store(&mut self, key: u64, depth: i8, score: i32, eval: i32, mv: Option<Move>, bound: Bound)
        requires
            old(self).wf(),
        ensures
            final(self).wf(),
            final(self).gen == old(self).gen,
            ({
                let e = old(self).table@[slot(key)];
                final(self).table@ == if replaces(e, old(self).gen, key, depth, bound) {
                    old(self).table@.update(slot(key), stored_entry(e, old(self).gen, key, depth, score, eval, mv, bound))
                } else {
                    old(self).table@
                }
            }),
            holds_result(*final(self), key, depth, score),
    {
        let idx = slot_of(key);
        let e = self.table[idx];
        let replace = e.key != key || e.gen != self.gen || bound == Bound::Exact || depth >= e.depth;
        if replace {
            let mv_raw = match mv {
                Some(m) => m.raw(),
                None => if e.key == key {
                    e.mv
                } else {
                    0
                },
            };
            self.table.set(idx, TTEntry { key, depth, score, eval, mv: mv_raw, bound, gen: self.gen });
        }
    }

    /// The entry of the slot of `key`, if it holds `key` with a bound (see
    /// `probe_spec`).
    pub fn probe(&self, key: u64) -> (r: Option<TTEntry>)
        requires
            self.wf(),
        ensures
            r == probe_spec(self.table@[slot(key)], key),
    {
        let idx = slot_of(key);
        let e = self.table[idx];
        if e.key == key && e.bound != Bound::NoBound {
            Some(e)
        } else {
            None
        }
    }
}

/// The slot index of a key.
fn slot_of(key: u64) -> (r: usize)
    ensures
        r == slot(key),
        r < TT_SIZE,
{
    let low = key & 0xFFFFF;
    assert(key & 0xFFFFF == key % 0x100000) by (bit_vector);
    low as usize
}

/// A write followed by a read of the same key gives back what was written,
/// when the write was allowed and carried a bound.
pub proof fn lemma_store_then_probe(old_tt: TT, new_tt: TT, key: u64, depth: i8, score: i32, eval: i32, mv: Option<Move>, bound: Bound)
    requires
        old_tt.wf(),
        new_tt.wf(),
        new_tt.table@ == old_tt.table@.update(
            slot(key),
            stored_entry(old_tt.table@[slot(key)], old_tt.gen, key, depth, score, eval, mv, bound),
        ),
        bound != Bound::NoBound,
    ensures
        probe_spec(new_tt.table@[slot(key)], key) == Some(
            stored_entry(old_tt.table@[slot(key)], old_tt.gen, key, depth, score, eval, mv, bound),
        ),
{
}

/// A write never disturbs the entries of other slots.
pub proof fn lemma_store_keeps_other_slots(old_tt: TT, new_tt: TT, key: u64, other: u64, depth: i8, score: i32, eval: i32, mv: Option<Move>, bound: Bound)
    requires
        old_tt.wf(),
        new_tt.table@ == (if replaces(old_tt.table@[slot(key)], old_tt.gen, key, depth, bound) {
            old_tt.table@.update(
                slot(key),
                stored_entry(old_tt.table@[slot(key)], old_tt.gen, key, depth, score, eval, mv, bound),
            )
        } else {
            old_tt.table@
        }),
        slot(other) != slot(key),
    ensures
        probe_spec(new_tt.table@[slot(other)], other) == probe_spec(old_tt.table@[slot(other)], other),
{
}

/// The 64-bit FNV-1a hash of the bytes `bs`.
pub open spec fn fnv1a(bs: Seq<u8>) -> u64
    decreases bs.len(),
{
    if bs.len() == 0 {
        0xcbf29ce484222325u64
    } else {
        vstd::wrapping::u64_specs::wrapping_mul(fnv1a(bs.drop_last()) ^ (bs.last() as u64), 0x100000001b3u64)
    }
}

/// The key of a position: the FNV-1a hash of the UTF-8 bytes of its SFEN.
pub open spec fn pos_key_spec(v: PosView) -> u64 {
    fnv1a(vstd::utf8::encode_utf8(sfen_text(v)))
}

/// The key of a position (see `pos_key_spec`).
pub fn pos_key(pos: &Position) -> (r: u64)
    requires
        pos@.pieces_ok(),
    ensures
        r == pos_key_spec(pos@),
{
    let sfen = pos.to_sfen();
    let bytes = sfen.as_str().as_bytes();
    let n = bytes.len();
    let mut h: u64 = 0xcbf29ce484222325;
    let mut i: usize = 0;
    while i < n
        invariant
            i <= n,
            n == bytes@.len(),
            bytes@ == vstd::utf8::encode_utf8(sfen_text(pos@)),
            h == fnv1a(bytes@.subrange(0, i as int)),
        decreases n - i,
    {
        let b = bytes[i];
        assert(bytes@.subrange(0, i + 1).drop_last() =~= bytes@.subrange(0, i as int));
        h = h ^ (b as u64);
        h = h.wrapping_mul(0x100000001b3);
        i = i + 1;
    }
    assert(bytes@.subrange(0, n as int) =~= bytes@);
    h
}

} // verus!
