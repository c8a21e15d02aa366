//! What the search keeps besides the transposition table: history and
//! counter-move tables, the per-ply stack, the pruning tables and margins,
//! and the score by which moves are ordered.
use vstd::prelude::*;
use crate::piece::{PieceType, piece_value, piece_value_spec, piece_type_of_code};
use crate::moves::Move;
use crate::position::{Position, PosView};

verus! {

/// Larger than any score.
pub const INF: i32 = 32001;

/// The score of a mate on the board.
pub const MATE: i32 = 32000;

/// The value of a pawn in the search's margins.
pub const PAWN_VALUE: i32 = 90;

/// Parameters of the null-move reduction.
pub const NULL_MOVE_DYNAMIC_ALPHA: i32 = 823;
pub const NULL_MOVE_DYNAMIC_BETA: i32 = 53;
pub const NULL_MOVE_RETURN_DEPTH: i32 = 12;

/// Kinds and squares of the history and counter-move tables.
pub const HIST_PT: usize = 15;
pub const HIST_SQ: usize = 81;

/// Depths and move counts of the reduction table.
pub const LMR_DEPTH: usize = 64;
pub const LMR_MC: usize = 64;

/// The score of mating in `ply` plies.
pub fn mate_in(ply: i32) -> (r: i32)
    requires
        ply >= 32000 - i32::MAX,
    ensures
        r == 32000 - ply,
{
    MATE - ply
}

/// The score of being mated in `ply` plies.
pub fn mated_in(ply: i32) -> (r: i32)
    requires
        ply >= i32::MIN + 32000,
    ensures
        r == -32000 + ply,
{
    -MATE + ply
}

/// The razoring margin at `depth`.
pub fn razor_margin(depth: i32) -> (r: i32)
    requires
        i32::MIN <= 16 * depth <= i32::MAX,
        i32::MIN <= 512 + 16 * depth <= i32::MAX,
    ensures
        r == 512 + 16 * depth,
{
    512 + 16 * depth
}

/// The futility margin at `depth`.
pub fn futility_margin(depth: i32) -> (r: i32)
    requires
        i32::MIN <= depth * 90 <= i32::MAX,
    ensures
        r == depth * 90,
{
    depth * 90
}

/// The number of moves after which quiet moves are pruned, by whether the
/// evaluation is improving and by depth (0 to 15).
pub struct FutilityMoveCounts {
    pub table: [[i32; 16]; 2],
}

/// The depth index of a table with `n` depths: the depth, or the last index
/// when the depth is negative or beyond it (as `(depth as usize).min(n - 1)`).
pub open spec fn capped_index(depth: i32, n: int) -> int {
    if depth < 0 || depth > n - 1 {
        n - 1
    } else {
        depth as int
    }
}

impl FutilityMoveCounts {
    /// A table with the given entries.
    pub fn from_table(table: [[i32; 16]; 2]) -> (r: FutilityMoveCounts)
        ensures
            r.table == table,
    {
        FutilityMoveCounts { table }
    }

    /// The entry for `improving` and `depth` (see `capped_index`).
    pub fn get(&self, improving: bool, depth: i32) -> (r: i32)
        ensures
            r == self.table[if improving {
                1int
            } else {
                0int
            }][capped_index(depth, 16)],
    {
        let imp: usize = if improving {
            1
        } else {
            0
        };
        let d: usize = if depth < 0 || depth > 15 {
            15
        } else {
            depth as usize
        };
        self.table[imp][d]
    }
}

/// The late-move reductions, by PV node, improving, depth and move count,
/// flattened in that order.
pub struct ReductionTable {
    pub table: Vec<i32>,
}

/// The flat index of an entry of the reduction table.
pub open spec fn lmr_index(is_pv: bool, improving: bool, depth: i32, move_count: i32) -> int {
    let pv = if is_pv {
        0int
    } else {
        1int
    };
    let imp = if improving {
        1int
    } else {
        0int
    };
    ((pv * 2 + imp) * 64 + capped_index(depth, 64)) * 64 + capped_index(move_count, 64)
}

impl ReductionTable {
    /// The table has all its entries, each a reduction from 0 to 64 plies.
    pub open spec fn wf(&self) -> bool {
        &&& self.table@.len() == 2 * 2 * LMR_DEPTH * LMR_MC
        &&& forall|i: int| 0 <= i < 2 * 2 * LMR_DEPTH * LMR_MC ==> 0 <= #[trigger] self.table@[i] <= 64
    }

    /// A table with the given entries.
    pub fn from_table(table: Vec<i32>) -> (r: ReductionTable)
        requires
            table@.len() == 2 * 2 * LMR_DEPTH * LMR_MC,
            forall|i: int| 0 <= i < 2 * 2 * LMR_DEPTH * LMR_MC ==> 0 <= #[trigger] table@[i] <= 64,
        ensures
            r.wf(),
            r.table@ == table@,
    {
        ReductionTable { table }
    }

    /// The reduction for the given node and move (see `lmr_index`).
    pub fn get(&self, is_pv: bool, improving: bool, depth: i32, move_count: i32) -> (r: i32)
        requires
            self.wf(),
        ensures
            r == self.table@[lmr_index(is_pv, improving, depth, move_count)],
            0 <= r <= 64,
    {
        let pv: usize = if is_pv {
            0
        } else {
            1
        };
        let imp: usize = if improving {
            1
        } else {
            0
        };
        let d: usize = if depth < 0 || depth > 63 {
            63
        } else {
            depth as usize
        };
        let mc: usize = if move_count < 0 || move_count > 63 {
            63
        } else {
            move_count as usize
        };
        self.table[((pv * 2 + imp) * 64 + d) * 64 + mc]
    }
}

/// The history score of moving a kind to a square, kept within -30000 to
/// 30000, flattened by kind code then square.
pub struct HistoryTable {
    pub table: Vec<i32>,
}

/// The history entry for kind code `pt` and square `sq` (0 off the table).
pub open spec fn history_at(t: Seq<i32>, pt: int, sq: int) -> int {
    if 0 <= pt < HIST_PT && 0 <= sq < HIST_SQ {
        t[pt * 81 + sq] as int
    } else {
        0
    }
}

/// `x` brought into -30000 to 30000.
pub open spec fn clamp_history(x: int) -> int {
    if x < -30000 {
        -30000
    } else if x > 30000 {
        30000
    } else {
        x
    }
}

impl HistoryTable {
    /// The table has all its entries, each within -30000 to 30000.
    pub open spec fn wf(&self) -> bool {
        &&& self.table@.len() == HIST_PT * HIST_SQ
        &&& forall|i: int| 0 <= i < HIST_PT * HIST_SQ ==> -30000 <= #[trigger] self.table@[i] <= 30000
    }

    /// A table of zeros.
    pub fn new() -> (r: HistoryTable)
        ensures
            r.wf(),
            forall|i: int| 0 <= i < HIST_PT * HIST_SQ ==> #[trigger] r.table@[i] == 0,
    {
        let mut table: Vec<i32> = Vec::new();
        let mut i: usize = 0;
        while i < HIST_PT * HIST_SQ
            invariant
                i <= HIST_PT * HIST_SQ,
                table@.len() == i,
                forall|j: int| 0 <= j < i ==> #[trigger] table@[j] == 0,
            decreases HIST_PT * HIST_SQ - i,
        {
            table.push(0);
            i = i + 1;
        }
        HistoryTable { table }
    }

    /// Sets every entry to zero.
    pub fn clear(&mut self)
        requires
            old(self).wf(),
        ensures
            final(self).wf(),
            forall|i: int| 0 <= i < HIST_PT * HIST_SQ ==> #[trigger] final(self).table@[i] == 0,
    {
        let mut i: usize = 0;
        while i < HIST_PT * HIST_SQ
            invariant
                i <= HIST_PT * HIST_SQ,
                self.table@.len() == HIST_PT * HIST_SQ,
                forall|j: int| 0 <= j < i ==> #[trigger] self.table@[j] == 0,
                forall|j: int| i <= j < HIST_PT * HIST_SQ ==> -30000 <= #[trigger] self.table@[j] <= 30000,
            decreases HIST_PT * HIST_SQ - i,
        {
            self.table.set(i, 0);
            i = i + 1;
        }
    }

    /// The entry for kind code `pt` and square `sq` (0 off the table).
    pub fn get(&self, pt: usize, sq: usize) -> (r: i32)
        requires
            self.wf(),
        ensures
            r == history_at(self.table@, pt as int, sq as int),
            -30000 <= r <= 30000,
    {
        if pt < HIST_PT && sq < HIST_SQ {
            self.table[pt * 81 + sq]
        } else {
            0
        }
    }

    /// Adds `bonus` to the entry for `pt` and `sq`, kept within -30000 to
    /// 30000 (nothing happens off the table).
    pub fn update(&mut self, pt: usize, sq: usize, bonus: i32)
        requires
            old(self).wf(),
            -2147453648 <= bonus <= 2147453647,
        ensures
            final(self).wf(),
            pt < HIST_PT && sq < HIST_SQ ==> final(self).table@ == old(self).table@.update(
                (pt * 81 + sq) as int,
                clamp_history(old(self).table@[(pt * 81 + sq) as int] + bonus) as i32,
            ),
            !(pt < HIST_PT && sq < HIST_SQ) ==> final(self).table@ == old(self).table@,
    {
        if pt < HIST_PT && sq < HIST_SQ {
            let i = pt * 81 + sq;
            let x = self.table[i] + bonus;
            let v = if x < -30000 {
                -30000
            } else if x > 30000 {
                30000
            } else {
                x
            };
            self.table.set(i, v);
        }
    }
}

/// The move that last refuted a move of a kind to a square, flattened by
/// kind code then square (0 for none).
pub struct CounterMoveTable {
    pub table: Vec<u32>,
}

impl CounterMoveTable {
    /// The table has all its entries.
    pub open spec fn wf(&self) -> bool {
        self.table@.len() == HIST_PT * HIST_SQ
    }

    /// A table with no moves.
    pub fn new() -> (r: CounterMoveTable)
        ensures
            r.wf(),
            forall|i: int| 0 <= i < HIST_PT * HIST_SQ ==> #[trigger] r.table@[i] == 0,
    {
        let mut table: Vec<u32> = Vec::new();
        let mut i: usize = 0;
        while i < HIST_PT * HIST_SQ
            invariant
                i <= HIST_PT * HIST_SQ,
                table@.len() == i,
                forall|j: int| 0 <= j < i ==> #[trigger] table@[j] == 0,
            decreases HIST_PT * HIST_SQ - i,
        {
            table.push(0);
            i = i + 1;
        }
        CounterMoveTable { table }
    }

    /// Forgets every move.
    pub fn clear(&mut self)
        requires
            old(self).wf(),
        ensures
            final(self).wf(),
            forall|i: int| 0 <= i < HIST_PT * HIST_SQ ==> #[trigger] final(self).table@[i] == 0,
    {
        let mut i: usize = 0;
        while i < HIST_PT * HIST_SQ
            invariant
                i <= HIST_PT * HIST_SQ,
                self.table@.len() == HIST_PT * HIST_SQ,
                forall|j: int| 0 <= j < i ==> #[trigger] self.table@[j] == 0,
            decreases HIST_PT * HIST_SQ - i,
        {
            self.table.set(i, 0);
            i = i + 1;
        }
    }

    /// The move kept for `pt` and `sq` (`None` off the table or when none).
    pub fn get(&self, pt: usize, sq: usize) -> (r: Option<Move>)
        requires
            self.wf(),
        ensures
            pt < HIST_PT && sq < HIST_SQ && self.table@[(pt * 81 + sq) as int] != 0 ==> r == Some(
                Move(self.table@[(pt * 81 + sq) as int]),
            ),
            !(pt < HIST_PT && sq < HIST_SQ && self.table@[(pt * 81 + sq) as int] != 0) ==> r is None,
    {
        if pt < HIST_PT && sq < HIST_SQ {
            Move::from_raw(self.table[pt * 81 + sq])
        } else {
            None
        }
    }

    /// Keeps `mv` for `pt` and `sq` (nothing happens off the table).
    pub fn set(&mut self, pt: usize, sq: usize, mv: Move)
        requires
            old(self).wf(),
        ensures
            final(self).wf(),
            pt < HIST_PT && sq < HIST_SQ ==> final(self).table@ == old(self).table@.update((pt * 81 + sq) as int, mv.0),
            !(pt < HIST_PT && sq < HIST_SQ) ==> final(self).table@ == old(self).table@,
    {
        if pt < HIST_PT && sq < HIST_SQ {
            self.table.set(pt * 81 + sq, mv.raw());
        }
    }
}

/// What the search keeps for one ply: two killer moves, the static
/// evaluation, and the move left out of a singular-extension search.
#[derive(Clone, Copy)]
pub struct Stack {
    pub killers: [u32; 2],
    pub static_eval: i32,
    pub excluded_move: Option<Move>,
}

impl Default for Stack {
    fn default() -> (r: Stack)
        ensures
            r.killers[0] == 0 && r.killers[1] == 0,
            r.static_eval == 0,
            r.excluded_move is None,
    {
        Stack { killers: [0, 0], static_eval: 0, excluded_move: None }
    }
}

/// The fields of a move can be read against a board: its destination is on
/// the board, and a drop names a kind.
pub open spec fn move_fits(m: Move) -> bool {
    &&& 0 <= m.to_bits() < 81
    &&& m.drop_move() ==> m.dropped_code() < 15
}

/// The value gained by promoting a kind (0 when it cannot promote).
pub open spec fn promo_gain(pt: PieceType) -> int {
    match pt.promoted() {
        Some(p) => piece_value_spec(p) - piece_value_spec(pt),
        None => 0,
    }
}

/// The ordering score of `mv`: the table move first, then captures by most
/// valuable victim and least valuable attacker, quiet promotions by their
/// gain, the killers, the counter move, drops by the dropped kind's value,
/// and the other moves by their history score.
pub open spec fn order_score_spec(
    v: PosView,
    mv: Move,
    tt_mv: Option<Move>,
    killer: [u32; 2],
    counter_mv: Option<Move>,
    hist: Seq<i32>,
) -> int {
    let to = mv.to_bits();
    let from = mv.from_field();
    if tt_mv matches Some(t) && mv.0 == t.0 {
        3_000_000
    } else if mv.capture() {
        let victim = piece_value_spec(v.board[to].kind());
        let attacker = if mv.drop_move() {
            piece_value_spec(piece_type_of_code(mv.dropped_code()))
        } else if from < 81 {
            piece_value_spec(v.board[from].kind())
        } else {
            0
        };
        2_000_000 + victim * 16 - attacker
    } else if mv.promo() && from < 81 && promo_gain(v.board[from].kind()) > 0 {
        500_000 + promo_gain(v.board[from].kind())
    } else if mv.0 == killer[0] {
        900_000
    } else if mv.0 == killer[1] {
        800_000
    } else if counter_mv matches Some(cm) && mv.0 == cm.0 {
        700_000
    } else if mv.drop_move() {
        200 + piece_value_spec(piece_type_of_code(mv.dropped_code()))
    } else if from < 81 {
        history_at(hist, v.board[from].kind().code(), to)
    } else {
        0
    }
}

/// The ordering score of a move (see `order_score_spec`).
pub fn order_score(
    pos: &Position,
    mv: Move,
    tt_mv: Option<Move>,
    killer: [u32; 2],
    counter_mv: Option<Move>,
    history: &HistoryTable,
) -> (r: i32)
    requires
        pos@.pieces_ok(),
        history.wf(),
        move_fits(mv),
    ensures
        r == order_score_spec(pos@, mv, tt_mv, killer, counter_mv, history.table@),
{
    if let Some(t) = tt_mv {
        if mv.raw() == t.raw() {
            return 3_000_000;
        }
    }
    if mv.is_capture() {
        let victim = piece_value(pos.piece_at(mv.to()).piece_type());
        let attacker = if mv.is_drop() {
            piece_value(mv.piece_type_dropped())
        } else if let Some(from) = mv.from() {
            piece_value(pos.piece_at(from).piece_type())
        } else {
            0
        };
        return 2_000_000 + victim * 16 - attacker;
    }
    if mv.is_promotion() && !mv.is_capture() {
        if let Some(from) = mv.from() {
            let pt = pos.piece_at(from).piece_type();
            let promo_gain = match pt.promote() {
                Some(p) => piece_value(p) - piece_value(pt),
                None => 0,
            };
            if promo_gain > 0 {
                return 500_000 + promo_gain;
            }
        }
    }
    if mv.raw() == killer[0] {
        return 900_000;
    }
    if mv.raw() == killer[1] {
        return 800_000;
    }
    if let Some(cm) = counter_mv {
        if mv.raw() == cm.raw() {
            return 700_000;
        }
    }
    if mv.is_drop() {
        return 200 + piece_value(mv.piece_type_dropped());
    }
    if let Some(from) = mv.from() {
        let pt = pos.piece_at(from).piece_type().to_code() as usize;
        let sq = mv.to().0 as usize;
        return history.get(pt, sq);
    }
    0
}

} // verus!
