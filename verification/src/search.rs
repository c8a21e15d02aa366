//! The alpha-beta search of one worker: quiescence search, and the main
//! search with mate-distance pruning, a one-move mate check, transposition
//! cutoffs, singular and check extensions, internal iterative deepening,
//! razoring, futility and null-move pruning, move-count and history pruning
//! and late-move reductions.
//!
//! The search stops when the shared stop flag is seen set; when that happens
//! depends on timing.  Each worker keeps a ghost trace (`Visit`) of every
//! reading of the flag and every finished search with its window and result.
//! The contracts state a node's result in terms of that trace: what a node
//! gives when its own reading is clear, as the fail-soft maximum over the
//! records of its children's searches (`qs_loop_ok`, `moves_loop_ok`,
//! `root_loop_ok`), and what it gives when a reading says stop.  Score and
//! depth arithmetic (negation, window bounds, margins, reductions) wraps in
//! 32-bit two's complement, as the release build computes it.
use vstd::prelude::*;
use std::sync::Arc;
use std::sync::atomic::AtomicBool;
use crate::piece::{PieceType, piece_value, piece_value_spec, piece_type_of_code};
use crate::moves::Move;
use crate::position::{Position, PosView};
use crate::movegen::{pseudo_spec, legal_spec, lemma_pseudo_makeable, checked};
use crate::mate1ply::mate1_spec;
use crate::eval::{score_spec, noise_term, rand_output, lcg_next};
use crate::types::Color;
use crate::eval_params::EvalParams;
use crate::text::{push_char, push_decimal, decimal};
use crate::trace::{Visit, extends, max_of, negated, child_record, children_logged, last_read_set, window_of, lemma_child_logged, lemma_windows_logged, lemma_logged_extends};
use crate::tt::{TT, TTEntry, Bound, NO_EVAL, pos_key, pos_key_spec, probe_spec, slot};
use crate::ordering::{
    INF, MATE, PAWN_VALUE, NULL_MOVE_DYNAMIC_ALPHA, NULL_MOVE_DYNAMIC_BETA, NULL_MOVE_RETURN_DEPTH,
    HistoryTable, CounterMoveTable, ReductionTable, FutilityMoveCounts, Stack, move_fits, order_score,
    mate_in, mated_in, razor_margin, futility_margin, HIST_PT, HIST_SQ, clamp_history,
};

verus! {

/// `-x` in two's complement.
pub fn neg_score(x: i32) -> (r: i32)
    ensures
        r == vstd::wrapping::i32_specs::wrapping_sub(0, x),
{
    0i32.wrapping_sub(x)
}

/// `x + y` in two's complement.
pub fn add_score(x: i32, y: i32) -> (r: i32)
    ensures
        r == vstd::wrapping::i32_specs::wrapping_add(x, y),
{
    x.wrapping_add(y)
}

/// `x - y` in two's complement.
pub fn sub_score(x: i32, y: i32) -> (r: i32)
    ensures
        r == vstd::wrapping::i32_specs::wrapping_sub(x, y),
{
    x.wrapping_sub(y)
}

/// The ordering key of a quiescence move: captures by most valuable victim
/// and least valuable attacker first (lower keys first), then promotions.
pub open spec fn capture_key_spec(v: PosView, mv: Move) -> int {
    if mv.capture() {
        let victim = piece_value_spec(v.board[mv.to_bits()].kind());
        let attacker = if mv.from_field() < 81 {
            piece_value_spec(v.board[mv.from_field()].kind())
        } else {
            0
        };
        -(victim * 16 - attacker)
    } else if mv.promo() {
        -500_000
    } else {
        0
    }
}

/// The ordering key of a quiescence move (see `capture_key_spec`).
pub fn capture_key(pos: &Position, mv: Move) -> (r: i32)
    requires
        pos@.pieces_ok(),
        move_fits(mv),
    ensures
        r == capture_key_spec(pos@, mv),
{
    if mv.is_capture() {
        let victim = piece_value(pos.piece_at(mv.to()).piece_type());
        let attacker = match mv.from() {
            Some(f) => piece_value(pos.piece_at(f).piece_type()),
            None => 0,
        };
        -(victim * 16 - attacker)
    } else if mv.is_promotion() {
        -500_000i32
    } else {
        0i32
    }
}

/// Sorts moves by `capture_key`, lowest first.
///
/// Calls `slice::sort_unstable_by_key` with `capture_key` as the key.  std
/// documents the result as the same moves in order of non-decreasing key;
/// the order of moves with equal keys is left open, and so is it here.
#[verifier::external_body]
fn sort_by_capture_key(pos: &Position, moves: &mut Vec<Move>)
    requires
        pos@.pieces_ok(),
        forall|i: int| 0 <= i < old(moves)@.len() ==> move_fits(#[trigger] old(moves)@[i]),
    ensures
        final(moves)@.to_multiset() == old(moves)@.to_multiset(),
        final(moves)@.len() == old(moves)@.len(),
        forall|i: int| 0 <= i < final(moves)@.len() ==> old(moves)@.contains(#[trigger] final(moves)@[i]),
        forall|i: int, j: int|
            0 <= i < j < final(moves)@.len() ==> capture_key_spec(pos@, #[trigger] final(moves)@[i])
                <= capture_key_spec(pos@, #[trigger] final(moves)@[j]),
{
    moves.sort_unstable_by_key(|mv| capture_key(pos, *mv));
}

/// The order that puts the higher score first.
fn by_score_desc(a: &(Move, i32), b: &(Move, i32)) -> (r: std::cmp::Ordering)
    ensures
        a.1 > b.1 ==> r == std::cmp::Ordering::Less,
        a.1 < b.1 ==> r == std::cmp::Ordering::Greater,
        a.1 == b.1 ==> r == std::cmp::Ordering::Equal,
{
    if a.1 > b.1 {
        std::cmp::Ordering::Less
    } else if a.1 < b.1 {
        std::cmp::Ordering::Greater
    } else {
        std::cmp::Ordering::Equal
    }
}

/// Sorts scored moves by score, highest first.
///
/// Calls `slice::sort_unstable_by` with `by_score_desc` as the order.  std
/// documents the result as the same pairs in order of non-increasing score;
/// the order of pairs with equal scores is left open, and so is it here.
#[verifier::external_body]
fn sort_by_score_desc(scored: &mut Vec<(Move, i32)>)
    ensures
        final(scored)@.to_multiset() == old(scored)@.to_multiset(),
        final(scored)@.len() == old(scored)@.len(),
        forall|i: int| 0 <= i < final(scored)@.len() ==> old(scored)@.contains(#[trigger] final(scored)@[i]),
        forall|i: int, j: int|
            0 <= i < j < final(scored)@.len() ==> (#[trigger] final(scored)@[i]).1 >= (#[trigger] final(scored)@[j]).1,
{
    scored.sort_unstable_by(|a, b| by_score_desc(a, b));
}

/// A move of the legal list of a well-formed position can be played.
proof fn lemma_legal_move_playable(v: PosView, m: Move)
    requires
        v.wf(),
        pseudo_spec(v, m),
    ensures
        v.can_make(m),
        v.sane(m),
        move_fits(m),
        v.after_move(m).wf(),
        !m.drop_move() ==> m.from_field() < 81,
{
    lemma_pseudo_makeable(v, m);
    crate::position::lemma_after_move_wf(v, m);
}

/// What `evaluate_improved` gives for `v` with weights `p` and generator
/// state `s`.
pub open spec fn raw_eval(v: PosView, p: EvalParams, s: u64) -> i32 {
    if p.eval_noise > 0 {
        (score_spec(v, p) + noise_term(p.eval_noise, rand_output(lcg_next(s)))) as i32
    } else {
        score_spec(v, p) as i32
    }
}

/// The generator state after one evaluation with weights `p` from state `s`.
pub open spec fn rng_after(p: EvalParams, s: u64) -> u64 {
    if p.eval_noise > 0 {
        lcg_next(s)
    } else {
        s
    }
}

/// The evaluation of `v` for the side to move: `raw_eval`, negated (in
/// two's complement) when White is to move.
pub open spec fn side_eval(v: PosView, p: EvalParams, s: u64) -> i32 {
    match v.side {
        Color::Black => raw_eval(v, p, s),
        Color::White => vstd::wrapping::i32_specs::wrapping_sub(0, raw_eval(v, p, s)),
    }
}

/// The table entry `e` ends the search of a node with window `alpha`..`beta`:
/// an exact score, a lower bound at or above `beta`, or an upper bound at or
/// below `alpha`.
pub open spec fn tt_cut(e: TTEntry, alpha: int, beta: int) -> bool {
    match e.bound {
        Bound::Exact => true,
        Bound::Lower => e.score >= beta,
        Bound::Upper => e.score <= alpha,
        Bound::NoBound => false,
    }
}

/// The entry that probing the table of `w` for position `v` finds.
pub open spec fn tt_entry_for(w: SearchWorker, v: PosView) -> Option<TTEntry> {
    probe_spec(w.tt.table@[slot(pos_key_spec(v))], pos_key_spec(v))
}

/// The lower end of the window after mate-distance pruning at `ply`.
pub open spec fn mate_floor(alpha: i32, ply: i32) -> int {
    if alpha > -32000 + ply {
        alpha as int
    } else {
        -32000 + ply
    }
}

/// The upper end of the window after mate-distance pruning at `ply`.
pub open spec fn mate_ceiling(beta: i32, ply: i32) -> int {
    if beta < 32000 - (ply + 1) {
        beta as int
    } else {
        32000 - (ply + 1)
    }
}

/// The history table `t` with `b` added (and clamped) at kind code `pt` and
/// square `sq`, when they index it.
pub open spec fn hist_add(t: Seq<i32>, pt: int, sq: int, b: int) -> Seq<i32> {
    if 0 <= pt < HIST_PT && 0 <= sq < HIST_SQ {
        t.update(pt * 81 + sq, clamp_history(t[pt * 81 + sq] + b) as i32)
    } else {
        t
    }
}

/// The history table `t` with `b` added for the normal move `m` of `v` (at
/// the kind that moves and the destination); a drop changes nothing.
pub open spec fn hist_after_move(t: Seq<i32>, v: PosView, m: Move, b: int) -> Seq<i32> {
    if m.from_field() < 81 {
        hist_add(t, v.board[m.from_field()].kind().code(), m.to_bits(), b)
    } else {
        t
    }
}

/// The history table `t` with `-b` added for each of the first `n` moves of `qs`.
pub open spec fn hist_penalised(t: Seq<i32>, v: PosView, qs: Seq<Move>, n: int, b: int) -> Seq<i32>
    decreases n,
{
    if n <= 0 {
        t
    } else {
        hist_after_move(hist_penalised(t, v, qs, n - 1, b), v, qs[n - 1], -b)
    }
}

/// The counter-move table `t` with the normal move `m` of `v` recorded at the
/// kind that moves and the destination; a drop changes nothing.
pub open spec fn counter_after_move(t: Seq<u32>, v: PosView, m: Move) -> Seq<u32> {
    if m.from_field() < 81 && v.board[m.from_field()].kind().code() < HIST_PT && m.to_bits() < HIST_SQ {
        t.update(v.board[m.from_field()].kind().code() * 81 + m.to_bits(), m.0)
    } else {
        t
    }
}

/// The history bonus of a cutoff at `depth`: `depth² + depth + 1`, at most 1000.
pub open spec fn cutoff_bonus(depth: int) -> int {
    if depth * depth + depth + 1 < 1000 {
        depth * depth + depth + 1
    } else {
        1000
    }
}

/// Razoring is tried: a non-PV node out of check below depth 4, without a
/// table move, whose evaluation plus the razoring margin is at most `alpha`.
pub open spec fn razor_cond(depth: i32, alpha: i32, is_pv: bool, in_check: bool, eval: i32, no_tt_move: bool) -> bool {
    !is_pv && !in_check && depth < 4 && vstd::wrapping::i32_specs::wrapping_add(eval, (512 + 16 * depth) as i32) <= alpha
        && no_tt_move
}

/// Razoring drops straight into the quiescence search: at depth 1 or less,
/// with the evaluation at most `alpha` by the depth-3 margin.
pub open spec fn razor_direct(depth: i32, alpha: i32, eval: i32) -> bool {
    depth <= 1 && vstd::wrapping::i32_specs::wrapping_add(eval, 560i32) <= alpha
}

/// The futility cut: a non-PV node out of check below depth 7 whose
/// evaluation less the futility margin reaches `beta`, short of a mate score.
pub open spec fn futility_cond(depth: i32, beta: i32, is_pv: bool, in_check: bool, eval: i32) -> bool {
    !is_pv && !in_check && depth < 7 && vstd::wrapping::i32_specs::wrapping_sub(eval, (depth * 90) as i32) >= beta
        && eval < 32000 - 300
}

/// The null move is tried: a non-PV node out of check from depth 2 whose
/// evaluation reaches `beta`.
pub open spec fn null_cond(depth: i32, beta: i32, is_pv: bool, in_check: bool, eval: i32) -> bool {
    !is_pv && !in_check && depth >= 2 && eval >= beta
}

/// Folds the score of one child into a node's running best score and window
/// lower end: the new best, the new lower end, whether the child improved
/// the best (so it becomes the best move), and whether it cut the node off
/// (it raised the lower end to `beta` or beyond).
pub fn take_score(best: i32, alpha: i32, beta: i32, score: i32) -> (r: (i32, i32, bool, bool))
    ensures
        r.0 == (if score > best { score } else { best }),
        r.1 == (if score > alpha { score } else { alpha }),
        r.2 == (score > best),
        r.3 == (score > alpha && score >= beta),
{
    let improved = score > best;
    let new_best = if improved { score } else { best };
    let raised = score > alpha;
    let new_alpha = if raised { score } else { alpha };
    (new_best, new_alpha, improved, raised && new_alpha >= beta)
}

/// The side to move in `v` has no legal move.
pub open spec fn no_legal_move(v: PosView) -> bool {
    forall|m: Move| !(pseudo_spec(v, m) && legal_spec(v, m))
}

/// No legal move of the side to move in `v` captures.
pub open spec fn no_legal_capture(v: PosView) -> bool {
    forall|m: Move| pseudo_spec(v, m) && legal_spec(v, m) ==> !m.capture()
}

/// The stand-pat score of the quiescence search of `v` with worker `w`: the
/// evaluation kept in the table entry for `v`, or the evaluation itself.
pub open spec fn stand_pat_for(w: SearchWorker, v: PosView) -> int {
    match tt_entry_for(w, v) {
        Some(e) => if e.eval != NO_EVAL {
            e.eval as int
        } else {
            side_eval(v, w.params, w.rng) as int
        },
        None => side_eval(v, w.params, w.rng) as int,
    }
}

/// The table entry for `v` ends the quiescence search of window `alpha`..`beta`.
pub open spec fn qs_tt_cut(w: SearchWorker, v: PosView, alpha: i32, beta: i32) -> bool {
    tt_entry_for(w, v) matches Some(e) && e.depth >= 0 && tt_cut(e, alpha as int, beta as int)
}

/// One root move's result folded into the iteration, once the stop flag has
/// been read as `stopped`: stopped, the iteration keeps what it had and ends;
/// otherwise a score above the best makes `mv` the best move, and the
/// window's lower end rises to the score.
pub fn root_take(best_mv: Move, best_score: i32, alpha: i32, mv: Move, score: i32, stopped: bool) -> (r: (Move, i32, i32, bool))
    ensures
        stopped ==> r == (best_mv, best_score, alpha, true),
        !stopped ==> r == (
            if score > best_score { mv } else { best_mv },
            if score > best_score { score } else { best_score },
            if score > alpha { score } else { alpha },
            false,
        ),
{
    if stopped {
        return (best_mv, best_score, alpha, true);
    }
    let (new_best, new_alpha, improved, _) = take_score(best_score, alpha, INF, score);
    let best = if improved {
        mv
    } else {
        best_mv
    };
    (best, new_best, new_alpha, false)
}

/// `m` is a move the quiescence search of `v` tries: a legal capture, or
/// any legal move when in check.
pub open spec fn tactical_move(v: PosView, in_check: bool, m: Move) -> bool {
    pseudo_spec(v, m) && legal_spec(v, m) && (in_check || m.capture())
}

/// The best score of a quiescence node before any move: the stand-pat
/// score, or the lowest score when in check.
pub open spec fn qs_best(in_check: bool, stand_pat: int) -> int {
    if in_check {
        -32001
    } else {
        stand_pat
    }
}

/// The move loop of a quiescence node of `v` at `ply` with the window
/// `alpha`..`beta` and the score `best` before any move gave `r`, as the
/// trace `t` records it from `lo` on: the distinct moves `tried` (see
/// `tactical_move`) were searched one ply deeper, each with the window
/// `-beta`..`-max(alpha, earlier scores)`, and gave the scores `sc`, all
/// but the last below `beta`.  A stop read after the last gives the window's
/// lower end before it; else a last score reaching `beta` is the result;
/// else every such move was tried and the result is the best of `best` and
/// the scores (in check without a move, the mated score).
pub open spec fn qs_loop_ok(
    t: Seq<Visit>,
    lo: int,
    v: PosView,
    ply: int,
    alpha: int,
    beta: int,
    in_check: bool,
    best: int,
    r: int,
    tried: Seq<Move>,
    sc: Seq<int>,
    ends: Seq<int>,
) -> bool {
    &&& children_logged(t, lo, v, ply, tried, sc, ends)
    &&& tried.no_duplicates()
    &&& forall|j: int| 0 <= j < tried.len() ==> tactical_move(v, in_check, #[trigger] tried[j])
    &&& forall|j: int|
        0 <= j < ends.len() ==> window_of(#[trigger] t[ends[j]], negated(beta), negated(max_of(alpha, sc.take(j))))
    &&& forall|j: int| 0 <= j < sc.len() - 1 ==> #[trigger] sc[j] < beta
    &&& if last_read_set(t, ends) {
        r == max_of(alpha, sc.drop_last())
    } else if sc.len() > 0 && sc.last() >= beta {
        r == sc.last()
    } else {
        &&& forall|m: Move| tactical_move(v, in_check, m) ==> tried.contains(m)
        &&& r == if in_check && tried.len() == 0 {
            -32000 + ply
        } else {
            max_of(best, sc)
        }
    }
}

/// The window's lower end a quiescence node's move loop starts from: out of
/// check, raised to the stand-pat score.
pub open spec fn qs_alpha(in_check: bool, alpha: int, stand_pat: int) -> int {
    if !in_check && stand_pat > alpha {
        stand_pat
    } else {
        alpha
    }
}

/// What a quiescence node of `v` at `ply` with the window `alpha`..`beta`
/// gives, with `w` the worker before it and the stop flag read clear: at ply
/// 16 and beyond, the evaluation; in check without a legal move, the mated
/// score; out of check, the score of a table entry that ends the node, else
/// the stand-pat score when it reaches `beta`; otherwise what its move loop
/// gives (see `qs_loop_ok`), recorded in the trace `t` from `lo` on.
#[verifier::opaque]
pub open spec fn qs_node_ok(w: SearchWorker, v: PosView, ply: int, alpha: i32, beta: i32, t: Seq<Visit>, lo: int, r: int) -> bool {
    let in_check = checked(v, v.side);
    &&& ply >= 16 ==> r == side_eval(v, w.params, w.rng)
    &&& ply < 16 && in_check && no_legal_move(v) ==> r == -32000 + ply
    &&& ply < 16 && !in_check ==> match tt_entry_for(w, v) {
        Some(e) => e.depth >= 0 && tt_cut(e, alpha as int, beta as int) ==> r == e.score,
        None => side_eval(v, w.params, w.rng) >= beta ==> r == side_eval(v, w.params, w.rng),
    }
    &&& ply < 16 && !in_check && !qs_tt_cut(w, v, alpha, beta) ==> r >= stand_pat_for(w, v)
    &&& ply < 16 && !in_check && !qs_tt_cut(w, v, alpha, beta) && no_legal_capture(v) ==> r == stand_pat_for(w, v)
    &&& ply < 16 && !in_check && !qs_tt_cut(w, v, alpha, beta) && stand_pat_for(w, v) >= beta ==> r == stand_pat_for(w, v)
    &&& ply < 16 && (in_check || (!qs_tt_cut(w, v, alpha, beta) && stand_pat_for(w, v) < beta)) ==> exists|
        tried: Seq<Move>,
        sc: Seq<int>,
        ends: Seq<int>,
    |
        #[trigger] qs_loop_ok(
            t,
            lo,
            v,
            ply,
            qs_alpha(in_check, alpha as int, stand_pat_for(w, v)),
            beta as int,
            in_check,
            qs_best(in_check, stand_pat_for(w, v)),
            r,
            tried,
            sc,
            ends,
        )
}

/// What a move loop's records say stays true when the trace goes on.
proof fn lemma_qs_loop_extends(
    t: Seq<Visit>,
    t2: Seq<Visit>,
    lo: int,
    v: PosView,
    ply: int,
    alpha: int,
    beta: int,
    in_check: bool,
    best: int,
    r: int,
    tried: Seq<Move>,
    sc: Seq<int>,
    ends: Seq<int>,
)
    requires
        qs_loop_ok(t, lo, v, ply, alpha, beta, in_check, best, r, tried, sc, ends),
        extends(t, t2),
        0 <= lo,
    ensures
        qs_loop_ok(t2, lo, v, ply, alpha, beta, in_check, best, r, tried, sc, ends),
{
    lemma_logged_extends(t, t2, lo, v, ply, tried, sc, ends);
}

/// What a quiescence node's records say stays true when the trace goes on.
proof fn lemma_qs_node_extends(
    w: SearchWorker,
    w2: SearchWorker,
    v: PosView,
    ply: int,
    alpha: i32,
    beta: i32,
    t: Seq<Visit>,
    t2: Seq<Visit>,
    lo: int,
    r: int,
)
    requires
        qs_node_ok(w, v, ply, alpha, beta, t, lo, r),
        extends(t, t2),
        0 <= lo,
        w2.tt == w.tt,
        w2.params == w.params,
        w2.rng == w.rng,
    ensures
        qs_node_ok(w2, v, ply, alpha, beta, t2, lo, r),
{
    reveal(qs_node_ok);
    assert(tt_entry_for(w2, v) == tt_entry_for(w, v));
    assert(stand_pat_for(w2, v) == stand_pat_for(w, v));
    assert(qs_tt_cut(w2, v, alpha, beta) == qs_tt_cut(w, v, alpha, beta));
    let in_check = checked(v, v.side);
    if ply < 16 && (in_check || (!qs_tt_cut(w, v, alpha, beta) && stand_pat_for(w, v) < beta)) {
        let a = qs_alpha(in_check, alpha as int, stand_pat_for(w, v));
        let b = qs_best(in_check, stand_pat_for(w, v));
        let (tried, sc, ends) = choose|tried: Seq<Move>, sc: Seq<int>, ends: Seq<int>|
            #[trigger] qs_loop_ok(t, lo, v, ply, a, beta as int, in_check, b, r, tried, sc, ends);
        lemma_qs_loop_extends(t, t2, lo, v, ply, a, beta as int, in_check, b, r, tried, sc, ends);
    }
}

/// The move loop of a search node of `v` at `ply` with the upper window
/// end `beta` gave `r`, as the trace `t` records it from `lo` on: the legal
/// moves `tried` (those the pruning kept) were searched one ply deeper and
/// gave the scores `sc`, all but the last below `beta`.  A stop read after
/// the last gives 0; else a last score reaching `beta` is the result; else
/// the result is the best of the scores (the lowest score when none was
/// searched), and when `all` holds (nothing may be pruned), every legal
/// move was tried.
pub open spec fn moves_loop_ok(
    t: Seq<Visit>,
    lo: int,
    v: PosView,
    ply: int,
    beta: int,
    all: bool,
    r: int,
    tried: Seq<Move>,
    sc: Seq<int>,
    ends: Seq<int>,
) -> bool {
    &&& children_logged(t, lo, v, ply, tried, sc, ends)
    &&& forall|j: int| 0 <= j < tried.len() ==> pseudo_spec(v, #[trigger] tried[j]) && legal_spec(v, tried[j])
    &&& forall|j: int| 0 <= j < sc.len() - 1 ==> #[trigger] sc[j] < beta
    &&& if last_read_set(t, ends) {
        r == 0
    } else if sc.len() > 0 && sc.last() >= beta {
        r == sc.last()
    } else {
        &&& r == max_of(-32001, sc)
        &&& all ==> forall|m: Move| pseudo_spec(v, m) && legal_spec(v, m) ==> tried.contains(m)
    }
}

/// The table entry for `v` is as deep as `depth` and ends the node's window.
pub open spec fn tt_cut_deep(w: SearchWorker, v: PosView, ply: i32, depth: i32, alpha: i32, beta: i32) -> bool {
    tt_entry_for(w, v) matches Some(e) && e.depth >= depth as i8 && tt_cut(e, mate_floor(alpha, ply), beta as int)
}

/// The trace `t` holds, from `lo` on, a search of `pos` at `ply` in the
/// window `a`..`b` that gave `score`.
pub open spec fn logged_search(t: Seq<Visit>, lo: int, pos: PosView, ply: int, a: int, b: int, score: int) -> bool {
    exists|k: int| lo <= k < t.len() && #[trigger] t[k] == (Visit::Node { pos, ply, alpha: a, beta: b, score })
}

/// The trace `t` holds, from `lo` on, a search of `pos` at `ply` that gave
/// the mover one ply up the score `s`.
pub open spec fn logged_child(t: Seq<Visit>, lo: int, pos: PosView, ply: int, s: int) -> bool {
    exists|k: int| lo <= k < t.len() && child_record(#[trigger] t[k], pos, ply, s)
}

/// `v` with the other side to move: the position after a null move.
pub open spec fn null_view(v: PosView) -> PosView {
    PosView { side: v.side.opp(), ..v }
}

/// The pruning before the moves of a non-PV node of `v` out of check, with
/// the static evaluation `eval` and the window `alpha`..`beta`, cut it off
/// with the score `x`, as the trace `t` records from `lo` on: razoring
/// straight into the quiescence search of the node's window (at depth 1),
/// or into a quiescence search of the null window under `alpha - margin`
/// that failed low; futility pruning with the evaluation less the margin;
/// or null-move pruning, where the search after the null move gave at least
/// `beta` (short of a mate score).
pub open spec fn prune_cut_ok(
    t: Seq<Visit>,
    lo: int,
    v: PosView,
    ply: i32,
    depth: i32,
    alpha: i32,
    beta: i32,
    eval: i32,
    no_tt: bool,
    x: int,
) -> bool {
    let ralpha = vstd::wrapping::i32_specs::wrapping_sub(alpha, (512 + 16 * depth) as i32);
    ||| razor_cond(depth, alpha, false, false, eval, no_tt) && razor_direct(depth, alpha, eval) && logged_search(
        t,
        lo,
        v,
        ply as int,
        alpha as int,
        beta as int,
        x,
    )
    ||| razor_cond(depth, alpha, false, false, eval, no_tt) && !razor_direct(depth, alpha, eval) && x <= ralpha
        && logged_search(t, lo, v, ply as int, ralpha as int, vstd::wrapping::i32_specs::wrapping_add(ralpha, 1) as int, x)
    ||| futility_cond(depth, beta, false, false, eval) && x == vstd::wrapping::i32_specs::wrapping_sub(
        eval,
        (depth * 90) as i32,
    )
    ||| null_cond(depth, beta, false, false, eval) && beta <= x < 32000 - 300 && logged_child(
        t,
        lo,
        null_view(v),
        ply + 1,
        x,
    )
}

/// The static evaluation `eval` of a node of `v` out of check: the one kept
/// in the table entry for `v` when it has one, the evaluation itself when
/// there is no entry.
pub open spec fn node_eval_ok(w: SearchWorker, v: PosView, eval: i32) -> bool {
    match tt_entry_for(w, v) {
        Some(e) => e.eval != NO_EVAL ==> eval == e.eval,
        None => eval == side_eval(v, w.params, w.rng),
    }
}

/// A non-PV node of `v` out of check with no table cutoff gave `r`: with its
/// static evaluation `eval` and `no_tt` (no table move after internal
/// iterative deepening), a pruning cut (`prune_cut_ok`), else the mated
/// score without a legal move, else what its move loop gives
/// (`moves_loop_ok`, moves may be pruned).
pub open spec fn quiet_node_ok(
    w: SearchWorker,
    t: Seq<Visit>,
    lo: int,
    v: PosView,
    ply: i32,
    depth: i32,
    alpha: i32,
    beta: i32,
    r: int,
    eval: i32,
    no_tt: bool,
) -> bool {
    &&& node_eval_ok(w, v, eval)
    &&& {
        ||| prune_cut_ok(t, lo, v, ply, depth, mate_floor(alpha, ply) as i32, beta, eval, no_tt, r)
        ||| no_legal_move(v) && r == -32000 + ply
        ||| !no_legal_move(v) && exists|tried: Seq<Move>, sc: Seq<int>, ends: Seq<int>|
            #[trigger] moves_loop_ok(t, lo, v, ply as int, beta as int, false, r, tried, sc, ends)
    }
}

/// What a quiet node's records say stays true when the trace goes on.
proof fn lemma_quiet_extends(
    w: SearchWorker,
    w2: SearchWorker,
    t: Seq<Visit>,
    t2: Seq<Visit>,
    lo: int,
    v: PosView,
    ply: i32,
    depth: i32,
    alpha: i32,
    beta: i32,
    r: int,
    eval: i32,
    no_tt: bool,
)
    requires
        quiet_node_ok(w, t, lo, v, ply, depth, alpha, beta, r, eval, no_tt),
        extends(t, t2),
        0 <= lo,
        w2.tt == w.tt,
        w2.params == w.params,
        w2.rng == w.rng,
    ensures
        quiet_node_ok(w2, t2, lo, v, ply, depth, alpha, beta, r, eval, no_tt),
{
    assert(tt_entry_for(w2, v) == tt_entry_for(w, v));
    let a = mate_floor(alpha, ply) as i32;
    if prune_cut_ok(t, lo, v, ply, depth, a, beta, eval, no_tt, r) {
        let ralpha = vstd::wrapping::i32_specs::wrapping_sub(a, (512 + 16 * depth) as i32);
        if logged_search(t, lo, v, ply as int, a as int, beta as int, r) {
            let k = choose|k: int| lo <= k < t.len() && #[trigger] t[k] == (Visit::Node {
                pos: v,
                ply: ply as int,
                alpha: a as int,
                beta: beta as int,
                score: r,
            });
            assert(t2[k] == t[k]);
        }
        let rb = vstd::wrapping::i32_specs::wrapping_add(ralpha, 1) as int;
        if logged_search(t, lo, v, ply as int, ralpha as int, rb, r) {
            let k = choose|k: int| lo <= k < t.len() && #[trigger] t[k] == (Visit::Node {
                pos: v,
                ply: ply as int,
                alpha: ralpha as int,
                beta: rb,
                score: r,
            });
            assert(t2[k] == t[k]);
        }
        if logged_child(t, lo, null_view(v), ply + 1, r) {
            let k = choose|k: int| lo <= k < t.len() && child_record(#[trigger] t[k], null_view(v), ply + 1, r);
            assert(t2[k] == t[k]);
        }
        assert(prune_cut_ok(t2, lo, v, ply, depth, a, beta, eval, no_tt, r));
    } else if !no_legal_move(v) && !(no_legal_move(v) && r == -32000 + ply) {
        let (tried, sc, ends) = choose|tried: Seq<Move>, sc: Seq<int>, ends: Seq<int>|
            #[trigger] moves_loop_ok(t, lo, v, ply as int, beta as int, false, r, tried, sc, ends);
        lemma_logged_extends(t, t2, lo, v, ply as int, tried, sc, ends);
        assert(moves_loop_ok(t2, lo, v, ply as int, beta as int, false, r, tried, sc, ends));
    }
}

/// What a search node of `v` at `ply` to `depth` with the window
/// `alpha`..`beta` gives, with `w` the worker before it and the stop flag
/// read clear, as the trace `t` records it from `lo` on.  At depth 0 or less
/// it is the quiescence search (a reading, then `qs_node_ok`).  Above: when
/// mate-distance pruning closes the window, its lower end; at a PV node out
/// of check from depth 4 on, with a mate in one, the score of mate at the
/// next ply; at another node, the score of a table entry as deep as the node
/// that ends it; without a legal move (at a PV node, or in check without
/// such an entry), the mated score; and at a PV node, or in check without
/// such an entry, what its move loop gives (`moves_loop_ok`), every legal
/// move tried when no move is left out at its ply (`clear`); at a non-PV
/// node out of check with no such entry, a pruning cut or what its move
/// loop gives (`quiet_node_ok`).
#[verifier::opaque]
pub open spec fn search_node_ok(
    w: SearchWorker,
    v: PosView,
    ply: i32,
    depth: i32,
    alpha: i32,
    beta: i32,
    is_pv: bool,
    clear: bool,
    t: Seq<Visit>,
    lo: int,
    r: int,
) -> bool {
    let in_check = checked(v, v.side);
    let open = mate_floor(alpha, ply) < mate_ceiling(beta, ply);
    let mate1 = is_pv && !in_check && depth >= 4 && mate1_spec(v) is Some;
    let searched = (is_pv && !mate1) || (!is_pv && in_check && !tt_cut_deep(w, v, ply, depth, alpha, beta));
    &&& depth <= 0 ==> lo < t.len() && t[lo] is Stop && (t[lo] == Visit::Stop(true) ==> r == alpha) && (t[lo]
        == Visit::Stop(false) ==> qs_node_ok(w, v, ply as int, alpha, beta, t, lo + 1, r))
    &&& depth > 0 && !open ==> r == mate_floor(alpha, ply)
    &&& depth > 0 && open && mate1 ==> r == 32000 - ply
    &&& depth > 0 && open && !is_pv && tt_cut_deep(w, v, ply, depth, alpha, beta) ==> r == tt_entry_for(w, v)->0.score
    &&& depth > 0 && open && searched && no_legal_move(v) ==> r == -32000 + ply
    &&& depth > 0 && open && !is_pv && !in_check && !tt_cut_deep(w, v, ply, depth, alpha, beta) ==> exists|
        eval: i32,
        no_tt: bool,
    | #[trigger] quiet_node_ok(w, t, lo, v, ply, depth, alpha, beta, r, eval, no_tt)
    &&& depth > 0 && open && searched && !no_legal_move(v) ==> exists|tried: Seq<Move>, sc: Seq<int>, ends: Seq<int>|
        #[trigger] moves_loop_ok(t, lo, v, ply as int, beta as int, all_moves(clear, is_pv, in_check), r, tried, sc, ends)
}

/// What a search node's records say stays true when the trace goes on.
proof fn lemma_search_node_extends(
    w: SearchWorker,
    w2: SearchWorker,
    v: PosView,
    ply: i32,
    depth: i32,
    alpha: i32,
    beta: i32,
    is_pv: bool,
    clear: bool,
    t: Seq<Visit>,
    t2: Seq<Visit>,
    lo: int,
    r: int,
)
    requires
        search_node_ok(w, v, ply, depth, alpha, beta, is_pv, clear, t, lo, r),
        extends(t, t2),
        0 <= lo,
        w2.tt == w.tt,
        w2.params == w.params,
        w2.rng == w.rng,
    ensures
        search_node_ok(w2, v, ply, depth, alpha, beta, is_pv, clear, t2, lo, r),
{
    reveal(search_node_ok);
    assert(tt_entry_for(w2, v) == tt_entry_for(w, v));
    assert(tt_cut_deep(w2, v, ply, depth, alpha, beta) == tt_cut_deep(w, v, ply, depth, alpha, beta));
    if depth <= 0 {
        assert(t2[lo] == t[lo]);
        if t[lo] == Visit::Stop(false) {
            lemma_qs_node_extends(w, w2, v, ply as int, alpha, beta, t, t2, lo + 1, r);
        }
    }
    let in_check = checked(v, v.side);
    let open = mate_floor(alpha, ply) < mate_ceiling(beta, ply);
    let mate1 = is_pv && !in_check && depth >= 4 && mate1_spec(v) is Some;
    let searched = (is_pv && !mate1) || (!is_pv && in_check && !tt_cut_deep(w, v, ply, depth, alpha, beta));
    if depth > 0 && open && !is_pv && !in_check && !tt_cut_deep(w, v, ply, depth, alpha, beta) {
        let (eval, no_tt) = choose|eval: i32, no_tt: bool| #[trigger] quiet_node_ok(w, t, lo, v, ply, depth, alpha, beta, r, eval, no_tt);
        lemma_quiet_extends(w, w2, t, t2, lo, v, ply, depth, alpha, beta, r, eval, no_tt);
    }
    if depth > 0 && open && searched && !no_legal_move(v) {
        let (tried, sc, ends) = choose|tried: Seq<Move>, sc: Seq<int>, ends: Seq<int>|
            #[trigger] moves_loop_ok(t, lo, v, ply as int, beta as int, all_moves(clear, is_pv, in_check), r, tried, sc, ends);
        lemma_logged_extends(t, t2, lo, v, ply as int, tried, sc, ends);
        assert(moves_loop_ok(t2, lo, v, ply as int, beta as int, all_moves(clear, is_pv, in_check), r, tried, sc, ends));
    }
}

/// `search_node_ok` at depth 0 or less: the quiescence search's reading and
/// result.
proof fn lemma_sno_shallow(
    w: SearchWorker,
    v: PosView,
    ply: i32,
    depth: i32,
    alpha: i32,
    beta: i32,
    is_pv: bool,
    clear: bool,
    t: Seq<Visit>,
    lo: int,
    r: int,
)
    requires
        depth <= 0,
        lo < t.len(),
        t[lo] is Stop,
        t[lo] == Visit::Stop(true) ==> r == alpha,
        t[lo] == Visit::Stop(false) ==> qs_node_ok(w, v, ply as int, alpha, beta, t, lo + 1, r),
    ensures
        search_node_ok(w, v, ply, depth, alpha, beta, is_pv, clear, t, lo, r),
{
    reveal(search_node_ok);
}

/// `search_node_ok` when the node returns before its move loop: the window
/// closed by mate-distance pruning, a mate in one at a PV node, a table
/// cutoff.
proof fn lemma_sno_early(
    w: SearchWorker,
    v: PosView,
    ply: i32,
    depth: i32,
    alpha: i32,
    beta: i32,
    is_pv: bool,
    clear: bool,
    t: Seq<Visit>,
    lo: int,
    r: int,
)
    requires
        depth > 0,
        mate_floor(alpha, ply) >= mate_ceiling(beta, ply) ==> r == mate_floor(alpha, ply),
        mate_floor(alpha, ply) < mate_ceiling(beta, ply) ==> {
            ||| is_pv && !checked(v, v.side) && depth >= 4 && mate1_spec(v) is Some && r == 32000 - ply
            ||| !is_pv && tt_cut_deep(w, v, ply, depth, alpha, beta) && r == tt_entry_for(w, v)->0.score
        },
    ensures
        search_node_ok(w, v, ply, depth, alpha, beta, is_pv, clear, t, lo, r),
{
    reveal(search_node_ok);
}

/// `search_node_ok` when the node's move loop gave the result.
proof fn lemma_sno_moves(
    w: SearchWorker,
    v: PosView,
    ply: i32,
    depth: i32,
    alpha: i32,
    beta: i32,
    is_pv: bool,
    clear: bool,
    t: Seq<Visit>,
    lo: int,
    r: int,
    eval: i32,
    no_tt: bool,
)
    requires
        depth > 0,
        mate_floor(alpha, ply) < mate_ceiling(beta, ply),
        !is_pv && !checked(v, v.side) ==> node_eval_ok(w, v, eval),
        !(is_pv && !checked(v, v.side) && depth >= 4 && mate1_spec(v) is Some),
        !is_pv ==> !tt_cut_deep(w, v, ply, depth, alpha, beta),
        no_legal_move(v) ==> r == -32000 + ply,
        !no_legal_move(v) ==> exists|tried: Seq<Move>, sc: Seq<int>, ends: Seq<int>|
            #[trigger] moves_loop_ok(t, lo, v, ply as int, beta as int, all_moves(clear, is_pv, checked(v, v.side)), r, tried, sc, ends),
    ensures
        search_node_ok(w, v, ply, depth, alpha, beta, is_pv, clear, t, lo, r),
{
    reveal(search_node_ok);
    if !is_pv && !checked(v, v.side) {
        assert(all_moves(clear, is_pv, checked(v, v.side)) == false);
        assert(quiet_node_ok(w, t, lo, v, ply, depth, alpha, beta, r, eval, no_tt));
    }
}

/// `search_node_ok` when the pruning before the moves cut a non-PV node out
/// of check off.
proof fn lemma_sno_quiet(
    w: SearchWorker,
    v: PosView,
    ply: i32,
    depth: i32,
    alpha: i32,
    beta: i32,
    is_pv: bool,
    clear: bool,
    t: Seq<Visit>,
    lo: int,
    r: int,
    eval: i32,
    no_tt: bool,
)
    requires
        depth > 0,
        mate_floor(alpha, ply) < mate_ceiling(beta, ply),
        !is_pv,
        !checked(v, v.side),
        !tt_cut_deep(w, v, ply, depth, alpha, beta),
        node_eval_ok(w, v, eval),
        prune_cut_ok(t, lo, v, ply, depth, mate_floor(alpha, ply) as i32, beta, eval, no_tt, r),
    ensures
        search_node_ok(w, v, ply, depth, alpha, beta, is_pv, clear, t, lo, r),
{
    reveal(search_node_ok);
    assert(quiet_node_ok(w, t, lo, v, ply, depth, alpha, beta, r, eval, no_tt));
}

/// The move the root search keeps after the scores `sc` of the moves
/// `tried`: the first move whose score beats every earlier one and the
/// lowest score, else `best_move`.
pub open spec fn root_choice(best_move: Move, tried: Seq<Move>, sc: Seq<int>) -> Move
    decreases sc.len(),
{
    if sc.len() == 0 || tried.len() == 0 {
        best_move
    } else if sc.last() > max_of(-32001, sc.drop_last()) {
        tried.last()
    } else {
        root_choice(best_move, tried.drop_last(), sc.drop_last())
    }
}

/// An iteration of the root search of `v` over `root_moves` gave the move
/// `mv` and score `score`, as the trace `t` records it from `lo` on: the
/// root moves `tried` were searched at ply 1, each followed by a clear
/// reading of the flag, and gave the scores `sc`; the score is the best of
/// them (the lowest score when there is none) and the move the first that
/// reached it (`root_choice`).  Every root move was tried unless a reading
/// of the flag recorded from `lo` on gave "stop".
pub open spec fn root_loop_ok(
    t: Seq<Visit>,
    lo: int,
    v: PosView,
    root_moves: Seq<Move>,
    best_move: Move,
    mv: Move,
    score: int,
    tried: Seq<Move>,
    sc: Seq<int>,
    ends: Seq<int>,
) -> bool {
    &&& children_logged(t, lo, v, 0, tried, sc, ends)
    &&& forall|j: int| 0 <= j < ends.len() ==> t[#[trigger] ends[j] + 1] == Visit::Stop(false)
    &&& forall|j: int| 0 <= j < tried.len() ==> root_moves.contains(#[trigger] tried[j])
    &&& score == max_of(-32001, sc)
    &&& mv == root_choice(best_move, tried, sc)
    &&& (exists|k: int| lo <= k < t.len() && t[k] == Visit::Stop(true)) || (forall|m: Move|
        root_moves.contains(m) ==> tried.contains(m))
}

/// No move of a node may be pruned: none is left out at its ply (`clear`)
/// and it is a PV node or in check.
pub open spec fn all_moves(clear: bool, is_pv: bool, in_check: bool) -> bool {
    clear && (is_pv || in_check)
}

/// The stack `b` keeps the entries of `a` below index `p`.
pub open spec fn keeps_below(a: Seq<Stack>, b: Seq<Stack>, p: int) -> bool {
    forall|j: int| 0 <= j < p && j < a.len() ==> #[trigger] b[j] == a[j]
}

/// No move is left out at index `p` of the stack `s`.
pub open spec fn excl_clear(s: Seq<Stack>, p: int) -> bool {
    p >= s.len() || s[p].excluded_move is None
}

/// One search thread's state: its transposition table, ordering tables,
/// pruning tables, node count, the shared stop flag, the evaluation weights,
/// the noise generator state and the trace of what it has searched.
pub struct SearchWorker {
    pub tt: TT,
    pub history: HistoryTable,
    pub counter: CounterMoveTable,
    pub lmr: ReductionTable,
    pub fmc: FutilityMoveCounts,
    pub nodes: u64,
    pub stop: Arc<AtomicBool>,
    pub params: EvalParams,
    pub rng: u64,
    pub trace: Ghost<Seq<Visit>>,
}

impl SearchWorker {
    /// The tables have their sizes and the history its bounds.
    pub open spec fn wf(&self) -> bool {
        &&& self.tt.wf()
        &&& self.history.wf()
        &&& self.counter.wf()
        &&& self.lmr.wf()
    }

    /// A worker with the given table, stop flag, pruning tables and weights,
    /// empty ordering tables, no nodes and the initial noise state.
    pub fn new(
        tt: TT,
        stop: Arc<AtomicBool>,
        lmr: ReductionTable,
        fmc: FutilityMoveCounts,
        params: EvalParams,
    ) -> (r: SearchWorker)
        requires
            tt.wf(),
            lmr.wf(),
        ensures
            r.wf(),
            r.tt == tt,
            r.lmr == lmr,
            r.fmc == fmc,
            r.params == params,
            r.nodes == 0,
            r.rng == 12345,
            forall|i: int| 0 <= i < crate::ordering::HIST_PT * crate::ordering::HIST_SQ ==> #[trigger] r.history.table@[i] == 0,
            forall|i: int| 0 <= i < crate::ordering::HIST_PT * crate::ordering::HIST_SQ ==> #[trigger] r.counter.table@[i] == 0,
            r.stop == stop,
    {
        SearchWorker {
            tt,
            history: HistoryTable::new(),
            counter: CounterMoveTable::new(),
            lmr,
            fmc,
            nodes: 0,
            stop,
            params,
            rng: 12345,
            trace: Ghost(Seq::empty()),
        }
    }

    /// Whether the stop flag is set.  It is set by another thread when time
    /// runs out, so nothing is stated of what it reads; the reading is
    /// added to the trace.
    pub fn time_over(&mut self) -> (r: bool)
        ensures
            final(self).trace@ == old(self).trace@.push(Visit::Stop(r)),
            final(self).tt == old(self).tt,
            final(self).history == old(self).history,
            final(self).counter == old(self).counter,
            final(self).lmr == old(self).lmr,
            final(self).fmc == old(self).fmc,
            final(self).params == old(self).params,
            final(self).nodes == old(self).nodes,
            final(self).stop == old(self).stop,
            final(self).rng == old(self).rng,
    {
        let r = self.stop.load(std::sync::atomic::Ordering::Relaxed);
        proof {
            self.trace@ = self.trace@.push(Visit::Stop(r));
        }
        r
    }

    /// The evaluation of `pos` for the side to move (`evaluate_improved`
    /// with this worker's weights and noise state, negated for White).
    pub fn material(&mut self, pos: &Position) -> (r: i32)
        requires
            pos@.wf(),
        ensures
            final(self).tt == old(self).tt,
            final(self).history == old(self).history,
            final(self).counter == old(self).counter,
            final(self).lmr == old(self).lmr,
            final(self).fmc == old(self).fmc,
            final(self).params == old(self).params,
            final(self).nodes == old(self).nodes,
            final(self).stop == old(self).stop,
            final(self).rng == rng_after(old(self).params, old(self).rng),
            final(self).trace == old(self).trace,
            r == side_eval(pos@, old(self).params, old(self).rng),
    {
        let raw = pos.evaluate_improved(&self.params, &mut self.rng);
        match pos.side_to_move() {
            crate::types::Color::Black => raw,
            crate::types::Color::White => neg_score(raw),
        }
    }

    /// Quiescence search of `pos` at `ply` within the window `alpha`..`beta`:
    /// stand pat on the evaluation (not in check), then try captures (all
    /// moves in check), best first, to a depth of 16 plies; mate when in
    /// check without moves.  Results are kept in the table; the trace
    /// records the reading of the stop flag first and the result last (see
    /// `qs_node_ok`).
    pub fn qsearch(&mut self, pos: &mut Position, stack: &mut Vec<Stack>, ply: i32, alpha: i32, beta: i32) -> (r: i32)
        requires
            old(self).wf(),
            old(pos)@.wf(),
            0 <= ply <= 32001,
        ensures
            final(self).wf(),
            *final(pos) == *old(pos),
            final(stack)@.len() >= old(stack)@.len(),
            final(self).tt.gen == old(self).tt.gen,
            extends(old(self).trace@, final(self).trace@),
            keeps_below(old(stack)@, final(stack)@, old(stack)@.len() as int),
            final(self).trace@.len() > old(self).trace@.len(),
            final(self).trace@.last() == (Visit::Node {
                pos: old(pos)@,
                ply: ply as int,
                alpha: alpha as int,
                beta: beta as int,
                score: r as int,
            }),
            final(self).trace@[old(self).trace@.len() as int] is Stop,
            final(self).trace@[old(self).trace@.len() as int] == Visit::Stop(true) ==> r == alpha,
            final(self).trace@[old(self).trace@.len() as int] == Visit::Stop(false) ==> qs_node_ok(
                *old(self),
                old(pos)@,
                ply as int,
                alpha,
                beta,
                final(self).trace@,
                (old(self).trace@.len() + 1) as int,
                r as int,
            ),
        decreases 16 - ply, 2int,
    {
        self.nodes = self.nodes.wrapping_add(1);
        let stopped = self.time_over();
        let ghost t_read = self.trace@;
        let ghost w1 = *self;
        let r = self.qsearch_node(pos, stack, ply, alpha, beta, stopped);
        let ghost t_mid = self.trace@;
        proof {
            self.trace@ = self.trace@.push(
                Visit::Node { pos: old(pos)@, ply: ply as int, alpha: alpha as int, beta: beta as int, score: r as int },
            );
            assert(self.trace@[old(self).trace@.len() as int] == t_read.last());
            if !stopped {
                lemma_qs_node_extends(w1, *old(self), old(pos)@, ply as int, alpha, beta, t_mid, self.trace@, t_read.len() as int, r as int);
            }
        }
        r
    }

    /// The quiescence search of one node once the stop flag has been read as
    /// `stopped` (see `qsearch`).  Stopped, it gives `alpha`; otherwise what
    /// `qs_node_ok` describes.
    pub fn qsearch_node(
        &mut self,
        pos: &mut Position,
        stack: &mut Vec<Stack>,
        ply: i32,
        alpha: i32,
        beta: i32,
        stopped: bool,
    ) -> (r: i32)
        requires
            old(self).wf(),
            old(pos)@.wf(),
            0 <= ply <= 32001,
        ensures
            final(self).wf(),
            *final(pos) == *old(pos),
            final(stack)@.len() >= old(stack)@.len(),
            final(self).tt.gen == old(self).tt.gen,
            extends(old(self).trace@, final(self).trace@),
            keeps_below(old(stack)@, final(stack)@, old(stack)@.len() as int),
            stopped ==> r == alpha,
            !stopped ==> qs_node_ok(
                *old(self),
                old(pos)@,
                ply as int,
                alpha,
                beta,
                final(self).trace@,
                old(self).trace@.len() as int,
                r as int,
            ),
        decreases 16 - ply, 1int,
    {
        let ghost alpha_in = alpha;
        proof {
            reveal(qs_node_ok);
        }
        if stopped {
            return alpha;
        }
        if ply >= 16 {
            return self.material(pos);
        }
        let mut alpha = alpha;
        let in_check = pos.in_check();
        let key = pos_key(pos);
        let tte = self.tt.probe(key);
        let mut stand_pat: i32 = 0 - INF;
        if !in_check {
            match tte {
                Some(e) => {
                    stand_pat = if e.eval != NO_EVAL {
                        e.eval
                    } else {
                        self.material(pos)
                    };
                    let tt_score = e.score;
                    if e.depth >= 0 {
                        match e.bound {
                            Bound::Exact => {
                                return tt_score;
                            },
                            Bound::Lower => {
                                if tt_score >= beta {
                                    return tt_score;
                                }
                            },
                            Bound::Upper => {
                                if tt_score <= alpha {
                                    return tt_score;
                                }
                            },
                            Bound::NoBound => {},
                        }
                    }
                },
                None => {
                    stand_pat = self.material(pos);
                    self.tt.store(key, -1, 0, stand_pat, None, Bound::NoBound);
                },
            }
            if stand_pat >= beta {
                return stand_pat;
            }
            if stand_pat > alpha {
                alpha = stand_pat;
            }
        }
        let ghost lo = self.trace@.len() as int;
        let r = self.qsearch_moves(pos, stack, ply, alpha, beta, in_check, stand_pat, key);
        proof {
            reveal(qs_node_ok);
            let v = old(pos)@;
            let w = *old(self);
            assert(lo == old(self).trace@.len());
            if !in_check {
                assert(stand_pat == stand_pat_for(w, v));
                assert(!qs_tt_cut(w, v, alpha_in, beta));
            }
            assert(alpha == qs_alpha(in_check, alpha_in as int, stand_pat_for(w, v)));
            assert(qs_best(in_check, stand_pat as int) == qs_best(in_check, stand_pat_for(w, v)));
            let (tr, sc, en) = choose|tr: Seq<Move>, sc: Seq<int>, en: Seq<int>|
                #[trigger] qs_loop_ok(
                    self.trace@,
                    lo,
                    v,
                    ply as int,
                    alpha as int,
                    beta as int,
                    in_check,
                    qs_best(in_check, stand_pat as int),
                    r as int,
                    tr,
                    sc,
                    en,
                );
            assert(qs_loop_ok(
                self.trace@,
                lo,
                v,
                ply as int,
                qs_alpha(in_check, alpha_in as int, stand_pat_for(w, v)),
                beta as int,
                in_check,
                qs_best(in_check, stand_pat_for(w, v)),
                r as int,
                tr,
                sc,
                en,
            ));
        }
        r
    }

    /// The move loop of the quiescence search: the captures (every legal move
    /// in check), best first, each searched one ply deeper; in check without
    /// a legal move, the mated score.
    #[verifier::rlimit(30)]
    fn qsearch_moves(
        &mut self,
        pos: &mut Position,
        stack: &mut Vec<Stack>,
        ply: i32,
        alpha: i32,
        beta: i32,
        in_check: bool,
        stand_pat: i32,
        key: u64,
    ) -> (r: i32)
        requires
            old(self).wf(),
            old(pos)@.wf(),
            0 <= ply < 16,
            in_check == checked(old(pos)@, old(pos)@.side),
            !in_check ==> stand_pat <= alpha && stand_pat < beta,
        ensures
            final(self).wf(),
            *final(pos) == *old(pos),
            final(stack)@.len() >= old(stack)@.len(),
            final(self).tt.gen == old(self).tt.gen,
            extends(old(self).trace@, final(self).trace@),
            keeps_below(old(stack)@, final(stack)@, old(stack)@.len() as int),
            in_check && (forall|m: Move| !(pseudo_spec(old(pos)@, m) && legal_spec(old(pos)@, m))) ==> r == -32000 + ply,
            !in_check ==> r >= stand_pat,
            !in_check && no_legal_capture(old(pos)@) ==> r == stand_pat,
            exists|tried: Seq<Move>, sc: Seq<int>, ends: Seq<int>|
                #[trigger] qs_loop_ok(
                    final(self).trace@,
                    old(self).trace@.len() as int,
                    old(pos)@,
                    ply as int,
                    alpha as int,
                    beta as int,
                    in_check,
                    qs_best(in_check, stand_pat as int),
                    r as int,
                    tried,
                    sc,
                    ends,
                ),
        decreases 16 - ply, 0int,
    {
        let mut cur_alpha = alpha;
        let ghost alpha0 = alpha as int;
        let ghost lo = self.trace@.len() as int;
        let moves = pos.generate_legal_moves();
        let ghost v = pos@;
        proof {
            assert forall|i: int| 0 <= i < moves@.len() implies pseudo_spec(v, #[trigger] moves@[i]) by {
                assert(moves@.contains(moves@[i]));
            }
            if moves@.len() > 0 {
                assert(moves@.contains(moves@[0]));
            }
        }
        let mut tactical: Vec<Move> = if in_check {
            moves
        } else {
            let mut kept: Vec<Move> = Vec::new();
            let ghost mut idx: Seq<int> = Seq::empty();
            let mut i: usize = 0;
            while i < moves.len()
                invariant
                    i <= moves@.len(),
                    forall|j: int| 0 <= j < moves@.len() ==> pseudo_spec(v, #[trigger] moves@[j]),
                    forall|j: int| 0 <= j < kept@.len() ==> pseudo_spec(v, #[trigger] kept@[j]),
                    forall|j: int| 0 <= j < kept@.len() ==> (#[trigger] kept@[j]).capture() && moves@.contains(kept@[j]),
                    idx.len() == kept@.len(),
                    forall|j: int| 0 <= j < kept@.len() ==> 0 <= #[trigger] idx[j] < i && moves@[idx[j]] == kept@[j],
                    forall|l: int| 0 <= l < i && (#[trigger] moves@[l]).capture() ==> kept@.contains(moves@[l]),
                    kept@.no_duplicates(),
                    moves@.no_duplicates(),
                    v == old(pos)@,
                decreases moves@.len() - i,
            {
                let m = moves[i];
                if m.is_capture() {
                    proof {
                        assert forall|j: int| 0 <= j < kept@.len() implies kept@[j] != m by {
                            assert(moves@[idx[j]] == kept@[j]);
                        }
                    }
                    let ghost kept0 = kept@;
                    kept.push(m);
                    proof {
                        idx = idx.push(i as int);
                        assert(kept@[kept@.len() - 1] == moves@[i as int]);
                        assert forall|l: int| 0 <= l < i && (#[trigger] moves@[l]).capture() implies kept@.contains(moves@[l]) by {
                            let w = choose|w: int| 0 <= w < kept0.len() && kept0[w] == moves@[l];
                            assert(kept@[w] == moves@[l]);
                        }
                    }
                }
                i = i + 1;
            }
            kept
        };
        proof {
            assert forall|i: int| 0 <= i < tactical@.len() implies move_fits(#[trigger] tactical@[i]) by {
                lemma_legal_move_playable(v, tactical@[i]);
            }
        }
        let ghost unsorted = tactical@;
        proof {
            assert(unsorted.no_duplicates());
            assert forall|m: Move| tactical_move(v, in_check, m) implies unsorted.contains(m) by {
                assert(moves@.contains(m));
                if !in_check {
                    let l = choose|l: int| 0 <= l < moves@.len() && moves@[l] == m;
                    assert(moves@[l].capture());
                }
            }
            assert forall|j: int| 0 <= j < unsorted.len() implies tactical_move(v, in_check, #[trigger] unsorted[j]) by {
                assert(moves@.contains(unsorted[j]));
            }
        }
        sort_by_capture_key(pos, &mut tactical);
        proof {
            broadcast use vstd::seq_lib::group_to_multiset_ensures;
            unsorted.lemma_multiset_has_no_duplicates();
            assert forall|x: Move| tactical@.to_multiset().contains(x) implies tactical@.to_multiset().count(x) == 1 by {
                assert(unsorted.to_multiset().contains(x));
            }
            tactical@.lemma_multiset_has_no_duplicates_conv();
            assert forall|m: Move| tactical_move(v, in_check, m) implies tactical@.contains(m) by {
                assert(unsorted.to_multiset().count(m) > 0);
            }
            assert forall|j: int| 0 <= j < tactical@.len() implies tactical_move(v, in_check, #[trigger] tactical@[j]) by {
                assert(unsorted.contains(tactical@[j]));
            }
        }
        proof {
            assert forall|i: int| 0 <= i < tactical@.len() implies pseudo_spec(v, #[trigger] tactical@[i]) by {
                assert(unsorted.contains(tactical@[i]));
                let j = choose|j: int| 0 <= j < unsorted.len() && unsorted[j] == tactical@[i];
                assert(pseudo_spec(v, unsorted[j]));
            }
        }
        let ghost mated: bool = in_check && (forall|m: Move| !(pseudo_spec(v, m) && legal_spec(v, m)));
        assert(mated ==> tactical@.len() == 0);
        let ghost quiet: bool = !in_check && no_legal_capture(v);
        proof {
            if quiet && unsorted.len() > 0 {
                let m0 = unsorted[0];
                assert(m0.capture() && moves@.contains(m0));
            }
        }
        assert(quiet ==> tactical@.len() == 0);
        let mut best_score = if in_check {
            0 - INF
        } else {
            stand_pat
        };
        let mut best_mv: Option<Move> = None;
        let n = tactical.len();
        let mut i: usize = 0;
        let ghost best0: int = if in_check {
            -32001
        } else {
            stand_pat as int
        };
        let ghost mut sc_g: Seq<int> = Seq::empty();
        let ghost mut ends_g: Seq<int> = Seq::empty();
        while i < n
            invariant
                i <= n,
                lo == old(self).trace@.len(),
                alpha0 == alpha,
                keeps_below(old(stack)@, stack@, old(stack)@.len() as int),
                best0 == qs_best(in_check, stand_pat as int),
                sc_g.len() == i,
                children_logged(self.trace@, lo, v, ply as int, tactical@.take(i as int), sc_g, ends_g),
                forall|j: int| 0 <= j < ends_g.len() ==> self.trace@[#[trigger] ends_g[j] + 1] == Visit::Stop(false),
                forall|j: int|
                    0 <= j < ends_g.len() ==> window_of(
                        #[trigger] self.trace@[ends_g[j]],
                        negated(beta as int),
                        negated(max_of(alpha0, sc_g.take(j))),
                    ),
                forall|j: int| 0 <= j < sc_g.len() ==> #[trigger] sc_g[j] < beta,
                cur_alpha == max_of(alpha0, sc_g),
                best_score == max_of(best0, sc_g),
                tactical@.no_duplicates(),
                forall|j: int| 0 <= j < tactical@.len() ==> tactical_move(v, in_check, #[trigger] tactical@[j]),
                forall|m: Move| tactical_move(v, in_check, m) ==> tactical@.contains(m),
                n == tactical@.len(),
                mated ==> n == 0,
                mated == (in_check && (forall|m: Move| !(pseudo_spec(old(pos)@, m) && legal_spec(old(pos)@, m)))),
                quiet ==> n == 0 && best_score == stand_pat,
                quiet == (!in_check && no_legal_capture(old(pos)@)),
                !in_check ==> best_score >= stand_pat && cur_alpha >= stand_pat && stand_pat < beta,
                self.wf(),
                pos@ == v,
                v.wf(),
                0 <= ply < 16,
                self.tt.gen == old(self).tt.gen,
                extends(old(self).trace@, self.trace@),
                stack@.len() >= old(stack)@.len(),
                forall|j: int| 0 <= j < tactical@.len() ==> pseudo_spec(v, #[trigger] tactical@[j]),
            decreases n - i,
        {
            let mv = tactical[i];
            proof {
                lemma_legal_move_playable(v, mv);
            }
            let mut child = *pos;
            child.do_move(mv);
            while stack.len() <= ply as usize + 1
                invariant
                    0 <= ply < 16,
                    stack@.len() >= old(stack)@.len(),
                    keeps_below(old(stack)@, stack@, old(stack)@.len() as int),
                decreases ply as usize + 2 - stack@.len(),
            {
                stack.push(Stack::default());
            }
            let ghost t0 = self.trace@;
            let child_score = self.qsearch(&mut child, stack, ply + 1, neg_score(beta), neg_score(cur_alpha));
            let score = neg_score(child_score);
            let ghost t1 = self.trace@;
            let ghost sc1 = sc_g.push(score as int);
            let ghost ends1 = ends_g.push(t1.len() - 1);
            let ghost tried1 = tactical@.take(i + 1);
            let stopped = self.time_over();
            proof {
                lemma_child_logged(
                    t0,
                    t1,
                    self.trace@,
                    lo,
                    v,
                    ply as int,
                    tactical@.take(i as int),
                    mv,
                    sc_g,
                    ends_g,
                    score as int,
                    stopped,
                );
                lemma_windows_logged(t0, self.trace@, t1.len() - 1, sc_g, ends_g, score as int, alpha0, negated(beta as int));
                assert(tried1 =~= tactical@.take(i as int).push(mv));
                assert(tried1.no_duplicates()) by {
                    assert forall|a: int, b: int| 0 <= a < b < tried1.len() implies tried1[a] != tried1[b] by {
                        assert(tried1[a] == tactical@[a] && tried1[b] == tactical@[b]);
                    }
                }
            }
            if stopped {
                proof {
                    assert(last_read_set(self.trace@, ends1));
                    assert(qs_loop_ok(self.trace@, lo, v, ply as int, alpha0, beta as int, in_check, best0, cur_alpha as int, tried1, sc1, ends1));
                }
                return cur_alpha;
            }
            if score > best_score {
                best_score = score;
                best_mv = Some(mv);
            }
            if score >= beta {
                self.tt.store(key, 0, score, stand_pat, best_mv, Bound::Lower);
                proof {
                    assert(qs_loop_ok(self.trace@, lo, v, ply as int, alpha0, beta as int, in_check, best0, score as int, tried1, sc1, ends1));
                }
                return score;
            }
            if score > cur_alpha {
                cur_alpha = score;
            }
            proof {
                sc_g = sc1;
                ends_g = ends1;
            }
            i = i + 1;
        }
        proof {
            assert(tactical@.take(n as int) =~= tactical@);
        }
        if in_check && tactical.len() == 0 {
            let val = mated_in(ply);
            self.tt.store(key, 30, val, NO_EVAL, None, Bound::Exact);
            proof {
                assert(qs_loop_ok(self.trace@, lo, v, ply as int, alpha0, beta as int, in_check, best0, val as int, tactical@, sc_g, ends_g));
            }
            return val;
        }
        let bound = if best_score <= cur_alpha {
            Bound::Upper
        } else {
            Bound::Exact
        };
        self.tt.store(
            key,
            0,
            best_score,
            if in_check {
                NO_EVAL
            } else {
                stand_pat
            },
            best_mv,
            bound,
        );
        proof {
            assert(qs_loop_ok(self.trace@, lo, v, ply as int, alpha0, beta as int, in_check, best0, best_score as int, tactical@, sc_g, ends_g));
        }
        best_score
    }

    /// The search of `pos` at `ply` to `depth` within `alpha`..`beta` (a PV
    /// node when `is_pv`); at depth 0 or less, the quiescence search.  It
    /// keeps its results, killers, history and counter moves in the tables,
    /// and records its reading of the stop flag first and its own result
    /// last in the trace (see `search_node_ok`).
    pub fn search(
        &mut self,
        pos: &mut Position,
        stack: &mut Vec<Stack>,
        ply: i32,
        depth: i32,
        alpha: i32,
        beta: i32,
        is_pv: bool,
    ) -> (r: i32)
        requires
            old(self).wf(),
            old(pos)@.wf(),
            0 <= ply <= 32000,
        ensures
            final(self).wf(),
            *final(pos) == *old(pos),
            final(stack)@.len() >= old(stack)@.len(),
            final(self).tt.gen == old(self).tt.gen,
            extends(old(self).trace@, final(self).trace@),
            keeps_below(old(stack)@, final(stack)@, ply as int),
            ply < old(stack)@.len() && old(stack)@[ply as int].excluded_move is None ==> final(stack)@[ply as int].excluded_move is None,
            final(self).trace@.len() > old(self).trace@.len(),
            final(self).trace@.last() == (Visit::Node {
                pos: old(pos)@,
                ply: ply as int,
                alpha: alpha as int,
                beta: beta as int,
                score: r as int,
            }),
            final(self).trace@[old(self).trace@.len() as int] is Stop,
            final(self).trace@[old(self).trace@.len() as int] == Visit::Stop(true) ==> r == alpha,
            final(self).trace@[old(self).trace@.len() as int] == Visit::Stop(false) ==> search_node_ok(
                *old(self),
                old(pos)@,
                ply,
                depth,
                alpha,
                beta,
                is_pv,
                excl_clear(old(stack)@, ply as int),
                final(self).trace@,
                (old(self).trace@.len() + 1) as int,
                r as int,
            ),
        decreases 32000 - ply, depth, 3int,
    {
        self.nodes = self.nodes.wrapping_add(1);
        let stopped = self.time_over();
        let ghost t_read = self.trace@;
        let ghost w1 = *self;
        let r = self.search_node(pos, stack, ply, depth, alpha, beta, is_pv, stopped);
        let ghost t_mid = self.trace@;
        proof {
            self.trace@ = self.trace@.push(
                Visit::Node { pos: old(pos)@, ply: ply as int, alpha: alpha as int, beta: beta as int, score: r as int },
            );
            assert(self.trace@[old(self).trace@.len() as int] == t_read.last());
            if !stopped {
                lemma_search_node_extends(
                    w1,
                    *old(self),
                    old(pos)@,
                    ply,
                    depth,
                    alpha,
                    beta,
                    is_pv,
                    excl_clear(old(stack)@, ply as int),
                    t_mid,
                    self.trace@,
                    t_read.len() as int,
                    r as int,
                );
            }
        }
        r
    }

    /// The search of one node once the stop flag has been read as `stopped`
    /// (see `search`).  Stopped, it gives `alpha`; otherwise what
    /// `search_node_ok` describes.
    #[verifier::spinoff_prover]
    #[verifier::rlimit(30)]
    pub fn search_node(
        &mut self,
        pos: &mut Position,
        stack: &mut Vec<Stack>,
        ply: i32,
        depth: i32,
        alpha: i32,
        beta: i32,
        is_pv: bool,
        stopped: bool,
    ) -> (r: i32)
        requires
            old(self).wf(),
            old(pos)@.wf(),
            0 <= ply <= 32000,
        ensures
            final(self).wf(),
            *final(pos) == *old(pos),
            final(stack)@.len() >= old(stack)@.len(),
            final(self).tt.gen == old(self).tt.gen,
            extends(old(self).trace@, final(self).trace@),
            keeps_below(old(stack)@, final(stack)@, ply as int),
            ply < old(stack)@.len() && old(stack)@[ply as int].excluded_move is None ==> final(stack)@[ply as int].excluded_move is None,
            stopped ==> r == alpha,
            !stopped ==> search_node_ok(
                *old(self),
                old(pos)@,
                ply,
                depth,
                alpha,
                beta,
                is_pv,
                excl_clear(old(stack)@, ply as int),
                final(self).trace@,
                old(self).trace@.len() as int,
                r as int,
            ),
        decreases 32000 - ply, depth, 2int,
    {
        let ghost alpha_in = alpha;
        let ghost w = *old(self);
        let ghost v = old(pos)@;
        let ghost clear = excl_clear(old(stack)@, ply as int);
        if stopped {
            return alpha;
        }
        if depth <= 0 {
            let r = self.qsearch(pos, stack, ply, alpha, beta);
            proof {
                lemma_sno_shallow(w, v, ply, depth, alpha, beta, is_pv, clear, self.trace@, old(self).trace@.len() as int, r as int);
            }
            return r;
        }
        let a = if alpha > mated_in(ply) {
            alpha
        } else {
            mated_in(ply)
        };
        let b = if beta < mate_in(ply + 1) {
            beta
        } else {
            mate_in(ply + 1)
        };
        if a >= b {
            proof {
                lemma_sno_early(w, v, ply, depth, alpha, beta, is_pv, clear, self.trace@, old(self).trace@.len() as int, a as int);
            }
            return a;
        }
        let alpha = a;
        let key = pos_key(pos);
        let tte = self.tt.probe(key);
        let mut tt_mv: Option<Move> = match tte {
            Some(e) => Move::from_raw(e.mv),
            None => None,
        };
        let tt_score = match tte {
            Some(e) => e.score,
            None => 0,
        };
        let tt_depth: i8 = match tte {
            Some(e) => e.depth,
            None => 0,
        };
        if is_pv && !pos.in_check() && depth >= 4 {
            if let Some(mate_mv) = pos.mate1ply() {
                let mate_score = mate_in(ply);
                self.tt.store(key, depth as i8, mate_score, NO_EVAL, Some(mate_mv), Bound::Exact);
                proof {
                    lemma_sno_early(w, v, ply, depth, alpha_in, beta, is_pv, clear, self.trace@, old(self).trace@.len() as int, mate_score as int);
                }
                return mate_score;
            }
        }
        if !is_pv {
            if let Some(e) = tte {
                if e.depth >= depth as i8 {
                    match e.bound {
                        Bound::Exact => {
                            proof {
                                assert(tt_cut_deep(w, v, ply, depth, alpha_in, beta));
                                lemma_sno_early(w, v, ply, depth, alpha_in, beta, is_pv, clear, self.trace@, old(self).trace@.len() as int, e.score as int);
                            }
                            return e.score;
                        },
                        Bound::Lower => {
                            if e.score >= beta {
                                proof {
                                    assert(tt_cut_deep(w, v, ply, depth, alpha_in, beta));
                                    lemma_sno_early(w, v, ply, depth, alpha_in, beta, is_pv, clear, self.trace@, old(self).trace@.len() as int, e.score as int);
                                }
                                return e.score;
                            }
                        },
                        Bound::Upper => {
                            if e.score <= alpha {
                                proof {
                                    assert(tt_cut_deep(w, v, ply, depth, alpha_in, beta));
                                    lemma_sno_early(w, v, ply, depth, alpha_in, beta, is_pv, clear, self.trace@, old(self).trace@.len() as int, e.score as int);
                                }
                                return e.score;
                            }
                        },
                        Bound::NoBound => {},
                    }
                }
            }
        }
        let in_check = pos.in_check();
        let mut extension: i32 = 0;
        let singular_node = !is_pv && depth >= 8 && tt_mv.is_some() && tt_depth >= (depth - 3) as i8 && !in_check;
        if singular_node {
            extension = self.singular_extension(pos, stack, ply, depth, tt_mv.unwrap(), tt_score);
        }
        let eval: i32 = if in_check {
            0 - INF
        } else {
            match tte {
                Some(e) => if e.eval != NO_EVAL {
                    e.eval
                } else {
                    self.material(pos)
                },
                None => {
                    let ev = self.material(pos);
                    self.tt.store(key, -1, 0, ev, None, Bound::NoBound);
                    ev
                },
            }
        };
        while stack.len() <= ply as usize + 2
            invariant
                0 <= ply <= 32000,
                stack@.len() >= old(stack)@.len(),
                keeps_below(old(stack)@, stack@, ply as int),
                ply < old(stack)@.len() && old(stack)@[ply as int].excluded_move is None ==> stack@[ply as int].excluded_move is None,
                excl_clear(old(stack)@, ply as int) ==> excl_clear(stack@, ply as int),
            decreases ply as usize + 3 - stack@.len(),
        {
            stack.push(Stack::default());
        }
        let mut st = stack[ply as usize];
        st.static_eval = eval;
        stack.set(ply as usize, st);
        let improving = if in_check {
            true
        } else if ply >= 2 {
            let prev2 = stack[(ply - 2) as usize].static_eval;
            prev2 == NO_EVAL || eval >= prev2
        } else {
            true
        };
        if tt_mv.is_none() && depth >= 6 && (is_pv || (!in_check && eval >= beta)) {
            let iid_depth = if is_pv {
                depth / 2
            } else {
                depth / 2 - 1
            };
            if iid_depth > 0 {
                let _iid_score = self.search(pos, stack, ply, iid_depth, alpha, beta, is_pv);
                let tte_after_iid = self.tt.probe(key);
                tt_mv = match tte_after_iid {
                    Some(e) => Move::from_raw(e.mv),
                    None => None,
                };
            }
        }
        let no_tt = tt_mv.is_none();
        proof {
            if !in_check {
                assert(node_eval_ok(w, v, eval));
            }
        }
        if let Some(cut) = self.prune(pos, stack, ply, depth, alpha, beta, is_pv, in_check, eval, no_tt) {
            proof {
                assert(alpha == mate_floor(alpha_in, ply) as i32);
                lemma_sno_quiet(w, v, ply, depth, alpha_in, beta, is_pv, clear, self.trace@, old(self).trace@.len() as int, cut as int, eval, no_tt);
            }
            return cut;
        }
        let ghost lo_m = self.trace@.len() as int;
        let ghost stack_m = stack@;
        assert(clear ==> stack_m[ply as int].excluded_move is None);
        let r = self.search_moves(pos, stack, ply, depth, alpha, beta, is_pv, in_check, extension, improving, eval, key, tt_mv);
        proof {
            let all_m = all_moves(excl_clear(stack_m, ply as int), is_pv, in_check);
            if !no_legal_move(v) {
                let (tr, sc, en) = choose|tr: Seq<Move>, sc: Seq<int>, en: Seq<int>|
                    #[trigger] moves_loop_ok(self.trace@, lo_m, v, ply as int, beta as int, all_m, r as int, tr, sc, en);
                assert(moves_loop_ok(
                    self.trace@,
                    old(self).trace@.len() as int,
                    v,
                    ply as int,
                    beta as int,
                    all_moves(clear, is_pv, checked(v, v.side)),
                    r as int,
                    tr,
                    sc,
                    en,
                ));
            }
            lemma_sno_moves(w, v, ply, depth, alpha_in, beta, is_pv, clear, self.trace@, old(self).trace@.len() as int, r as int, eval, no_tt);
        }
        r
    }

    /// The singular extension: 1 when every move but the table move `tt_move`
    /// fails low against a bound a little under the table score `tt_score`
    /// (searched at half depth with that move left out), else 0.
    fn singular_extension(
        &mut self,
        pos: &mut Position,
        stack: &mut Vec<Stack>,
        ply: i32,
        depth: i32,
        tt_move: Move,
        tt_score: i32,
    ) -> (r: i32)
        requires
            old(self).wf(),
            old(pos)@.wf(),
            0 <= ply <= 32000,
            8 <= depth,
        ensures
            final(self).wf(),
            *final(pos) == *old(pos),
            final(stack)@.len() >= old(stack)@.len(),
            final(self).tt.gen == old(self).tt.gen,
            extends(old(self).trace@, final(self).trace@),
            keeps_below(old(stack)@, final(stack)@, ply as int),
            ply < old(stack)@.len() && old(stack)@[ply as int].excluded_move is None ==> final(stack)@[ply as int].excluded_move is None,
            0 <= r <= 1,
            excl_clear(final(stack)@, ply as int),
        decreases 32000 - ply, depth, 1int,
    {
        let singular_beta = sub_score(tt_score, 16i32.wrapping_mul(depth) / 8);
        if (ply as usize) < stack.len() {
            let mut st = stack[ply as usize];
            st.excluded_move = Some(tt_move);
            stack.set(ply as usize, st);
        }
        let singular_value = self.search(pos, stack, ply, depth / 2, sub_score(singular_beta, 1), singular_beta, false);
        if (ply as usize) < stack.len() {
            let mut st = stack[ply as usize];
            st.excluded_move = None;
            stack.set(ply as usize, st);
        }
        if singular_value < singular_beta {
            1
        } else {
            0
        }
    }

    /// Razoring, futility pruning and null-move pruning before the moves are
    /// tried: the score to return when one of them cuts the node off.
    fn prune(
        &mut self,
        pos: &mut Position,
        stack: &mut Vec<Stack>,
        ply: i32,
        depth: i32,
        alpha: i32,
        beta: i32,
        is_pv: bool,
        in_check: bool,
        eval: i32,
        no_tt_move: bool,
    ) -> (r: Option<i32>)
        requires
            old(self).wf(),
            old(pos)@.wf(),
            0 <= ply <= 31999,
            1 <= depth,
        ensures
            final(self).wf(),
            *final(pos) == *old(pos),
            final(stack)@.len() >= old(stack)@.len(),
            final(self).tt.gen == old(self).tt.gen,
            extends(old(self).trace@, final(self).trace@),
            keeps_below(old(stack)@, final(stack)@, ply as int),
            ply < old(stack)@.len() && old(stack)@[ply as int].excluded_move is None ==> final(stack)@[ply as int].excluded_move is None,
            razor_cond(depth, alpha, is_pv, in_check, eval, no_tt_move) && razor_direct(depth, alpha, eval) ==> r is Some,
            !razor_cond(depth, alpha, is_pv, in_check, eval, no_tt_move) && futility_cond(depth, beta, is_pv, in_check, eval)
                ==> r == Some(vstd::wrapping::i32_specs::wrapping_sub(eval, (depth * 90) as i32)),
            !razor_cond(depth, alpha, is_pv, in_check, eval, no_tt_move) && !futility_cond(depth, beta, is_pv, in_check, eval)
                && !null_cond(depth, beta, is_pv, in_check, eval) ==> r is None && *final(self) == *old(self) && *final(stack)
                == *old(stack),
            r matches Some(x) ==> !is_pv && !in_check && prune_cut_ok(
                final(self).trace@,
                old(self).trace@.len() as int,
                old(pos)@,
                ply,
                depth,
                alpha,
                beta,
                eval,
                no_tt_move,
                x as int,
            ),
        decreases 32000 - ply, depth, 1int,
    {
        if !is_pv && !in_check && depth < 4 && add_score(eval, razor_margin(depth)) <= alpha && no_tt_move {
            if depth <= 1 && add_score(eval, razor_margin(3)) <= alpha {
                let x = self.qsearch(pos, stack, ply, alpha, beta);
                proof {
                    let k = self.trace@.len() - 1;
                    assert(self.trace@[k] == (Visit::Node {
                        pos: old(pos)@,
                        ply: ply as int,
                        alpha: alpha as int,
                        beta: beta as int,
                        score: x as int,
                    }));
                }
                return Some(x);
            }
            let ralpha = sub_score(alpha, razor_margin(depth));
            let mut child = *pos;
            let v = self.qsearch(&mut child, stack, ply, ralpha, add_score(ralpha, 1));
            if v <= ralpha {
                proof {
                    let k = self.trace@.len() - 1;
                    assert(self.trace@[k] == (Visit::Node {
                        pos: old(pos)@,
                        ply: ply as int,
                        alpha: ralpha as int,
                        beta: vstd::wrapping::i32_specs::wrapping_add(ralpha, 1) as int,
                        score: v as int,
                    }));
                }
                return Some(v);
            }
        }
        if !is_pv && !in_check && depth < 7 && sub_score(eval, futility_margin(depth)) >= beta && eval < MATE - 300 {
            return Some(sub_score(eval, futility_margin(depth)));
        }
        if !is_pv && !in_check && depth >= 2 && eval >= beta {
            let gain = sub_score(eval, beta) / PAWN_VALUE;
            let gain = if gain < 3 {
                gain
            } else {
                3
            };
            let r0 = NULL_MOVE_DYNAMIC_ALPHA.wrapping_add(NULL_MOVE_DYNAMIC_BETA.wrapping_mul(depth)) / 256 + gain;
            let r = if r0 > 1 {
                r0
            } else {
                1
            };
            let mut null_pos = pos.make_null_move();
            assert(null_pos@.wf());
            let null_value = if depth - r <= 0 {
                neg_score(self.qsearch(&mut null_pos, stack, ply + 1, neg_score(beta), add_score(neg_score(beta), 1)))
            } else {
                neg_score(
                    self.search(&mut null_pos, stack, ply + 1, depth - r, neg_score(beta), add_score(neg_score(beta), 1), false),
                )
            };
            let ghost kn = self.trace@.len() - 1;
            assert(child_record(self.trace@[kn], null_view(old(pos)@), ply + 1, null_value as int));
            if null_value >= beta {
                let abs_beta = if beta < 0 {
                    neg_score(beta)
                } else {
                    beta
                };
                if null_value >= MATE - 300 {
                } else if depth < NULL_MOVE_RETURN_DEPTH && abs_beta < MATE - 300 {
                    assert(logged_child(self.trace@, old(self).trace@.len() as int, null_view(old(pos)@), ply + 1, null_value as int));
                    return Some(null_value);
                } else {
                    let ghost t_null = self.trace@;
                    let v = if depth - r <= 0 {
                        self.qsearch(pos, stack, ply, sub_score(beta, 1), beta)
                    } else {
                        self.search(pos, stack, ply, depth - r, sub_score(beta, 1), beta, false)
                    };
                    if v >= beta {
                        proof {
                            assert(self.trace@[kn] == t_null[kn]);
                            assert(logged_child(self.trace@, old(self).trace@.len() as int, null_view(old(pos)@), ply + 1, null_value as int));
                        }
                        return Some(null_value);
                    }
                }
            }
        }
        None
    }

    /// The search of one child after the move that led to it: a reduced
    /// null-window search for late quiet moves (searched again at full depth
    /// when it fails high), the full window for the first move, a null window
    /// for the others.  The score is from the mover's side.
    fn search_child(
        &mut self,
        child: &mut Position,
        stack: &mut Vec<Stack>,
        ply: i32,
        depth: i32,
        new_depth: i32,
        alpha: i32,
        beta: i32,
        is_pv: bool,
        improving: bool,
        move_count: i32,
        capture_or_promo: bool,
    ) -> (r: i32)
        requires
            old(self).wf(),
            old(child)@.wf(),
            0 <= ply <= 31999,
            1 <= depth,
            alpha < beta,
        ensures
            final(self).wf(),
            *final(child) == *old(child),
            final(stack)@.len() >= old(stack)@.len(),
            final(self).tt.gen == old(self).tt.gen,
            extends(old(self).trace@, final(self).trace@),
            keeps_below(old(stack)@, final(stack)@, ply + 1),
            final(self).trace@.len() > old(self).trace@.len(),
            child_record(final(self).trace@.last(), old(child)@, ply + 1, r as int),
        decreases 32000 - ply, depth, 0int,
    {
        if depth >= 3 && move_count > 1 && !capture_or_promo {
            let r = self.lmr.get(is_pv, improving, depth, move_count);
            let reduced = new_depth.wrapping_sub(r);
            let d = if reduced > 1 {
                reduced
            } else {
                1
            };
            let s = neg_score(self.search(child, stack, ply + 1, d, neg_score(alpha + 1), neg_score(alpha), false));
            if s > alpha && r > 0 {
                neg_score(self.search(child, stack, ply + 1, new_depth, neg_score(alpha + 1), neg_score(alpha), false))
            } else {
                s
            }
        } else if move_count == 1 {
            neg_score(self.search(child, stack, ply + 1, new_depth, neg_score(beta), neg_score(alpha), is_pv))
        } else {
            neg_score(self.search(child, stack, ply + 1, new_depth, neg_score(alpha + 1), neg_score(alpha), false))
        }
    }

    /// After a quiet move `mv` caused a beta cutoff: make it the first killer
    /// of the ply, reward its history and record it as the counter move, and
    /// penalise the history of the quiet moves tried before it.
    fn record_cutoff(&mut self, pos: &Position, stack: &mut Vec<Stack>, ply: i32, depth: i32, mv: Move, quiets: &Vec<Move>)
        requires
            old(self).wf(),
            pos@.wf(),
            0 <= ply,
            old(stack)@.len() > ply,
            1 <= depth,
            pseudo_spec(pos@, mv),
            forall|j: int| 0 <= j < quiets@.len() ==> pseudo_spec(pos@, #[trigger] quiets@[j]),
        ensures
            final(self).wf(),
            final(self).tt == old(self).tt,
            final(self).lmr == old(self).lmr,
            final(self).fmc == old(self).fmc,
            final(self).params == old(self).params,
            final(self).nodes == old(self).nodes,
            final(self).rng == old(self).rng,
            final(self).stop == old(self).stop,
            final(self).trace == old(self).trace,
            final(self).history.table@ == hist_penalised(
                hist_after_move(old(self).history.table@, pos@, mv, cutoff_bonus(depth as int)),
                pos@,
                quiets@,
                quiets@.len() as int,
                cutoff_bonus(depth as int),
            ),
            final(self).counter.table@ == counter_after_move(old(self).counter.table@, pos@, mv),
            final(stack)@.len() == old(stack)@.len(),
            forall|j: int| 0 <= j < old(stack)@.len() && j != ply ==> #[trigger] final(stack)@[j] == old(stack)@[j],
            final(stack)@[ply as int].killers[0] == mv.0,
            final(stack)@[ply as int].killers[1] == if old(stack)@[ply as int].killers[0] != mv.0 {
                old(stack)@[ply as int].killers[0]
            } else {
                old(stack)@[ply as int].killers[1]
            },
            final(stack)@[ply as int].static_eval == old(stack)@[ply as int].static_eval,
            final(stack)@[ply as int].excluded_move == old(stack)@[ply as int].excluded_move,
    {
        let mut st = stack[ply as usize];
        if st.killers[0] != mv.raw() {
            st.killers[1] = st.killers[0];
            st.killers[0] = mv.raw();
        }
        stack.set(ply as usize, st);
        let bonus = if depth > 31 {
            assert(depth * depth + depth + 1 >= 1000) by (nonlinear_arith)
                requires
                    depth > 31,
            ;
            1000
        } else {
            assert(depth * depth <= 31 * 31) by (nonlinear_arith)
                requires
                    1 <= depth <= 31,
            ;
            depth * depth + depth + 1
        };
        proof {
            lemma_legal_move_playable(pos@, mv);
        }
        if let Some(from) = mv.from() {
            let pt = pos.piece_at(from).piece_type().to_code() as usize;
            let sq = mv.to().0 as usize;
            self.history.update(pt, sq, bonus);
            self.counter.set(pt, sq, mv);
        }
        let ghost h1 = self.history.table@;
        assert(h1 == hist_after_move(old(self).history.table@, pos@, mv, cutoff_bonus(depth as int)));
        assert(self.counter.table@ == counter_after_move(old(self).counter.table@, pos@, mv));
        let mut q: usize = 0;
        while q < quiets.len()
            invariant
                q <= quiets@.len(),
                self.wf(),
                self.tt == old(self).tt,
                self.lmr == old(self).lmr,
                self.fmc == old(self).fmc,
                self.params == old(self).params,
                self.nodes == old(self).nodes,
                self.rng == old(self).rng,
                self.stop == old(self).stop,
                self.trace == old(self).trace,
                self.counter.table@ == counter_after_move(old(self).counter.table@, pos@, mv),
                self.history.table@ == hist_penalised(h1, pos@, quiets@, q as int, bonus as int),
                bonus == cutoff_bonus(depth as int),
                pos@.wf(),
                1 <= bonus <= 1000,
                forall|j: int| 0 <= j < quiets@.len() ==> pseudo_spec(pos@, #[trigger] quiets@[j]),
            decreases quiets@.len() - q,
        {
            let qm = quiets[q];
            proof {
                lemma_legal_move_playable(pos@, qm);
            }
            if let Some(from) = qm.from() {
                let pt = pos.piece_at(from).piece_type().to_code() as usize;
                let sq = qm.to().0 as usize;
                self.history.update(pt, sq, -bonus);
            }
            q = q + 1;
        }
    }

    /// The move loop of `search`: the legal moves in order of `order_score`,
    /// each pruned, extended and searched; a beta cutoff is recorded and
    /// returned; at the end the best score is kept in the table and returned
    /// (mated when there is no legal move).
    fn search_moves(
        &mut self,
        pos: &mut Position,
        stack: &mut Vec<Stack>,
        ply: i32,
        depth: i32,
        alpha: i32,
        beta: i32,
        is_pv: bool,
        in_check: bool,
        extension: i32,
        improving: bool,
        eval: i32,
        key: u64,
        tt_mv: Option<Move>,
    ) -> (r: i32)
        requires
            old(self).wf(),
            old(pos)@.wf(),
            0 <= ply <= 31999,
            1 <= depth,
            0 <= extension <= 1,
            alpha < beta,
            old(stack)@.len() > ply + 2,
        ensures
            final(self).wf(),
            *final(pos) == *old(pos),
            final(stack)@.len() >= old(stack)@.len(),
            final(self).tt.gen == old(self).tt.gen,
            extends(old(self).trace@, final(self).trace@),
            keeps_below(old(stack)@, final(stack)@, ply as int),
            ply < old(stack)@.len() && old(stack)@[ply as int].excluded_move is None ==> final(stack)@[ply as int].excluded_move is None,
            (forall|m: Move| !(pseudo_spec(old(pos)@, m) && legal_spec(old(pos)@, m))) ==> r == -32000 + ply
                && *final(self) == *old(self) && *final(stack) == *old(stack),
            !no_legal_move(old(pos)@) ==> exists|tried: Seq<Move>, sc: Seq<int>, ends: Seq<int>|
                #[trigger] moves_loop_ok(
                    final(self).trace@,
                    old(self).trace@.len() as int,
                    old(pos)@,
                    ply as int,
                    beta as int,
                    all_moves(excl_clear(old(stack)@, ply as int), is_pv, in_check),
                    r as int,
                    tried,
                    sc,
                    ends,
                ),
        decreases 32000 - ply, depth, 1int,
    {
        let moves = pos.generate_legal_moves();
        proof {
            if moves@.len() > 0 {
                assert(moves@.contains(moves@[0]));
            }
        }
        if moves.len() == 0 {
            proof {
                assert forall|m: Move| !(pseudo_spec(old(pos)@, m) && legal_spec(old(pos)@, m)) by {
                    if pseudo_spec(old(pos)@, m) && legal_spec(old(pos)@, m) {
                        assert(moves@.contains(m));
                    }
                }
            }
            return mated_in(ply);
        }
        let ghost v = pos@;
        let ghost m0 = moves@[0];
        assert(moves@.contains(m0));
        assert(pseudo_spec(v, m0) && legal_spec(v, m0));
        proof {
            assert forall|i: int| 0 <= i < moves@.len() implies pseudo_spec(v, #[trigger] moves@[i]) && legal_spec(v, moves@[i]) by {
                assert(moves@.contains(moves@[i]));
            }
        }
        let killer = stack[ply as usize].killers;
        let counter_mv: Option<Move> = None;
        let mut scored: Vec<(Move, i32)> = Vec::new();
        let mut k: usize = 0;
        while k < moves.len()
            invariant
                k <= moves@.len(),
                v.wf(),
                pos@ == v,
                v == old(pos)@,
                pseudo_spec(v, m0) && legal_spec(v, m0),
                self.history.wf(),
                forall|j: int| 0 <= j < moves@.len() ==> pseudo_spec(v, #[trigger] moves@[j]),
                forall|j: int| 0 <= j < scored@.len() ==> pseudo_spec(v, (#[trigger] scored@[j]).0) && legal_spec(v, scored@[j].0),
                forall|j: int| 0 <= j < moves@.len() ==> legal_spec(v, #[trigger] moves@[j]),
                scored@.len() == k,
                forall|j: int| 0 <= j < scored@.len() ==> (#[trigger] scored@[j]).0 == moves@[j],
            decreases moves@.len() - k,
        {
            let mv = moves[k];
            proof {
                lemma_legal_move_playable(v, mv);
            }
            let sc = order_score(pos, mv, tt_mv, killer, counter_mv, &self.history);
            scored.push((mv, sc));
            k = k + 1;
        }
        let ghost unsorted = scored@;
        sort_by_score_desc(&mut scored);
        proof {
            assert forall|i: int| 0 <= i < scored@.len() implies pseudo_spec(v, (#[trigger] scored@[i]).0) && legal_spec(v, scored@[i].0) by {
                assert(unsorted.contains(scored@[i]));
                let j = choose|j: int| 0 <= j < unsorted.len() && unsorted[j] == scored@[i];
                assert(pseudo_spec(v, unsorted[j].0) && legal_spec(v, unsorted[j].0));
            }
            broadcast use vstd::seq_lib::group_to_multiset_ensures;
            assert forall|m: Move| pseudo_spec(v, m) && legal_spec(v, m) implies exists|j: int| 0 <= j < scored@.len() && (#[trigger] scored@[j]).0 == m by {
                assert(moves@.contains(m));
                let k = choose|k: int| 0 <= k < moves@.len() && moves@[k] == m;
                assert(unsorted[k].0 == m);
                assert(unsorted.contains(unsorted[k]));
                assert(scored@.to_multiset().count(unsorted[k]) > 0);
                assert(scored@.contains(unsorted[k]));
            }
        }
        let mut alpha = alpha;
        let orig_alpha = alpha;
        let mut best_score: i32 = 0 - INF;
        let mut best_mv: Option<Move> = None;
        let mut move_count: i32 = 0;
        let mut quiets: Vec<Move> = Vec::new();
        let futility_move_count = self.fmc.get(improving, depth);
        let n = scored.len();
        let mut i: usize = 0;
        let ghost lo = self.trace@.len() as int;
        let ghost mut tried_g: Seq<Move> = Seq::empty();
        let ghost mut sc_g: Seq<int> = Seq::empty();
        let ghost mut ends_g: Seq<int> = Seq::empty();
        let ghost all_g = all_moves(excl_clear(old(stack)@, ply as int), is_pv, in_check);
        while i < n
            invariant
                i <= n,
                n == scored@.len(),
                lo == old(self).trace@.len(),
                all_g == all_moves(excl_clear(old(stack)@, ply as int), is_pv, in_check),
                all_g ==> old(stack)@[ply as int].excluded_move is None && (is_pv || in_check),
                old(stack)@.len() > ply + 2,
                all_g ==> tried_g.len() == i && forall|j: int| 0 <= j < i ==> #[trigger] tried_g[j] == scored@[j].0,
                forall|m: Move|
                    pseudo_spec(v, m) && legal_spec(v, m) ==> exists|j: int| 0 <= j < scored@.len() && (#[trigger] scored@[j]).0 == m,
                keeps_below(old(stack)@, stack@, ply as int),
                ply < old(stack)@.len() && old(stack)@[ply as int].excluded_move is None ==> stack@[ply as int].excluded_move is None,
                children_logged(self.trace@, lo, v, ply as int, tried_g, sc_g, ends_g),
                forall|j: int| 0 <= j < ends_g.len() ==> self.trace@[#[trigger] ends_g[j] + 1] == Visit::Stop(false),
                forall|j: int| 0 <= j < tried_g.len() ==> pseudo_spec(v, #[trigger] tried_g[j]) && legal_spec(v, tried_g[j]),
                forall|j: int| 0 <= j < sc_g.len() ==> #[trigger] sc_g[j] < beta,
                best_score == max_of(-32001, sc_g),
                forall|j: int| 0 <= j < scored@.len() ==> legal_spec(v, (#[trigger] scored@[j]).0),
                self.wf(),
                *pos == *old(pos),
                pos@ == v,
                v == old(pos)@,
                pseudo_spec(v, m0) && legal_spec(v, m0),
                v.wf(),
                0 <= ply <= 31999,
                1 <= depth,
                0 <= extension <= 1,
                alpha < beta,
                self.tt.gen == old(self).tt.gen,
                extends(old(self).trace@, self.trace@),
                stack@.len() >= old(stack)@.len(),
                stack@.len() > ply + 2,
                forall|j: int| 0 <= j < scored@.len() ==> pseudo_spec(v, (#[trigger] scored@[j]).0),
                forall|j: int| 0 <= j < quiets@.len() ==> pseudo_spec(v, #[trigger] quiets@[j]),
            decreases n - i,
        {
            let mv = scored[i].0;
            proof {
                lemma_legal_move_playable(v, mv);
            }
            i = i + 1;
            if let Some(excluded) = stack[ply as usize].excluded_move {
                if mv.raw() == excluded.raw() {
                    continue;
                }
            }
            let capture_or_promo = mv.is_capture() || mv.is_promotion();
            move_count = move_count.wrapping_add(1);
            if !is_pv && !in_check && best_score > -MATE + 300 && move_count >= futility_move_count && !capture_or_promo {
                continue;
            }
            if !is_pv && !in_check && !capture_or_promo && move_count >= 2 {
                let reduction = if depth >= 3 && move_count > 1 {
                    self.lmr.get(is_pv, improving, depth, move_count)
                } else {
                    0
                };
                let lmr_depth = if depth - 1 - reduction > 0 {
                    depth - 1 - reduction
                } else {
                    0
                };
                if lmr_depth < 9 {
                    let history_value = match mv.from() {
                        Some(from) => {
                            let pt = pos.piece_at(from).piece_type().to_code() as usize;
                            let sq = mv.to().0 as usize;
                            self.history.get(pt, sq)
                        },
                        None => 0,
                    };
                    if history_value < -8000 {
                        continue;
                    }
                }
            }
            let gives_check = {
                let mut test_pos = *pos;
                test_pos.do_move(mv);
                test_pos.in_check()
            };
            let check_extension: i32 = if gives_check {
                1
            } else {
                0
            };
            let total_extension = extension + check_extension;
            let new_depth = (depth - 1).wrapping_add(total_extension);
            let mut child = *pos;
            child.do_move(mv);
            let ghost t0 = self.trace@;
            let score = self.search_child(
                &mut child,
                stack,
                ply,
                depth,
                new_depth,
                alpha,
                beta,
                is_pv,
                improving,
                move_count,
                capture_or_promo,
            );
            let ghost t1 = self.trace@;
            let ghost tried1 = tried_g.push(mv);
            let ghost sc1 = sc_g.push(score as int);
            let ghost ends1 = ends_g.push(t1.len() - 1);
            let stopped = self.time_over();
            proof {
                lemma_child_logged(t0, t1, self.trace@, lo, v, ply as int, tried_g, mv, sc_g, ends_g, score as int, stopped);
            }
            if stopped {
                proof {
                    assert(moves_loop_ok(self.trace@, lo, v, ply as int, beta as int, all_g, 0, tried1, sc1, ends1));
                }
                return 0;
            }
            let (new_best, new_alpha, improved, cutoff) = take_score(best_score, alpha, beta, score);
            if improved {
                best_mv = Some(mv);
            }
            best_score = new_best;
            alpha = new_alpha;
            if cutoff {
                if !capture_or_promo {
                    self.record_cutoff(pos, stack, ply, depth, mv, &quiets);
                }
                self.tt.store(key, depth as i8, score, eval, best_mv, Bound::Lower);
                proof {
                    assert(moves_loop_ok(self.trace@, lo, v, ply as int, beta as int, all_g, score as int, tried1, sc1, ends1));
                }
                return score;
            }
            if !capture_or_promo && quiets.len() < 64 {
                quiets.push(mv);
            }
            proof {
                tried_g = tried1;
                sc_g = sc1;
                ends_g = ends1;
            }
        }
        let bound = if best_score <= orig_alpha {
            Bound::Upper
        } else {
            Bound::Exact
        };
        self.tt.store(key, depth as i8, best_score, eval, best_mv, bound);
        proof {
            if all_g {
                assert forall|m: Move| pseudo_spec(v, m) && legal_spec(v, m) implies tried_g.contains(m) by {
                    let j = choose|j: int| 0 <= j < scored@.len() && (#[trigger] scored@[j]).0 == m;
                    assert(tried_g[j] == m);
                }
            }
            assert(moves_loop_ok(self.trace@, lo, v, ply as int, beta as int, all_g, best_score as int, tried_g, sc_g, ends_g));
        }
        best_score
    }

    /// One iteration of the root search at `depth`: the root moves ordered
    /// with the previous best move first, the first searched with the full
    /// window and the others with a null window (again with the full window
    /// when they beat the best so far); it stops early when the flag is set.
    /// Returns the best move and score found (the previous best move and
    /// `-INF` when no move was finished); see `root_loop_ok`.
    #[verifier::rlimit(30)]
    pub fn search_root(
        &mut self,
        pos: &Position,
        root_moves: &Vec<Move>,
        stack: &mut Vec<Stack>,
        depth: i32,
        best_move: Move,
    ) -> (r: (Move, i32))
        requires
            old(self).wf(),
            pos@.wf(),
            1 <= depth,
            forall|i: int| 0 <= i < root_moves@.len() ==> pseudo_spec(pos@, #[trigger] root_moves@[i]),
        ensures
            final(self).wf(),
            final(stack)@.len() >= old(stack)@.len(),
            final(self).tt.gen == old(self).tt.gen,
            extends(old(self).trace@, final(self).trace@),
            r.0 == best_move || root_moves@.contains(r.0),
            r.1 >= -32001,
            r.1 == -32001 ==> r.0 == best_move,
            r.1 > -32001 ==> root_moves@.contains(r.0),
            root_moves@.len() == 0 ==> r == (best_move, -32001i32),
            exists|tried: Seq<Move>, sc: Seq<int>, ends: Seq<int>|
                #[trigger] root_loop_ok(
                    final(self).trace@,
                    old(self).trace@.len() as int,
                    pos@,
                    root_moves@,
                    best_move,
                    r.0,
                    r.1 as int,
                    tried,
                    sc,
                    ends,
                ),
    {
        let ghost v = pos@;
        let mut scored: Vec<(Move, i32)> = Vec::new();
        let mut k: usize = 0;
        while k < root_moves.len()
            invariant
                k <= root_moves@.len(),
                v.wf(),
                pos@ == v,
                self.history.wf(),
                forall|j: int| 0 <= j < root_moves@.len() ==> pseudo_spec(v, #[trigger] root_moves@[j]),
                forall|j: int| 0 <= j < scored@.len() ==> pseudo_spec(v, (#[trigger] scored@[j]).0) && root_moves@.contains(scored@[j].0),
                scored@.len() == k,
                forall|j: int| 0 <= j < scored@.len() ==> (#[trigger] scored@[j]).0 == root_moves@[j],
            decreases root_moves@.len() - k,
        {
            let mv = root_moves[k];
            proof {
                lemma_legal_move_playable(v, mv);
            }
            let sc = order_score(pos, mv, Some(best_move), [0, 0], None, &self.history);
            scored.push((mv, sc));
            k = k + 1;
        }
        let ghost unsorted = scored@;
        assert(root_moves@.len() == 0 ==> scored@.len() == 0);
        sort_by_score_desc(&mut scored);
        proof {
            assert forall|i: int| 0 <= i < scored@.len() implies pseudo_spec(v, (#[trigger] scored@[i]).0) && root_moves@.contains(scored@[i].0) by {
                assert(unsorted.contains(scored@[i]));
                let j = choose|j: int| 0 <= j < unsorted.len() && unsorted[j] == scored@[i];
                assert(pseudo_spec(v, unsorted[j].0) && root_moves@.contains(unsorted[j].0));
            }
            broadcast use vstd::seq_lib::group_to_multiset_ensures;
            assert forall|m: Move| root_moves@.contains(m) implies exists|j: int| 0 <= j < scored@.len() && (#[trigger] scored@[j]).0 == m by {
                let k = choose|k: int| 0 <= k < root_moves@.len() && root_moves@[k] == m;
                assert(unsorted[k].0 == m);
                assert(unsorted.contains(unsorted[k]));
                assert(scored@.to_multiset().count(unsorted[k]) > 0);
                assert(scored@.contains(unsorted[k]));
            }
        }
        let mut iter_best = best_move;
        let mut iter_score: i32 = 0 - INF;
        let mut alpha: i32 = 0 - INF;
        let n = scored.len();
        let mut i: usize = 0;
        let ghost lo = self.trace@.len() as int;
        let ghost mut tried_g: Seq<Move> = Seq::empty();
        let ghost mut sc_g: Seq<int> = Seq::empty();
        let ghost mut ends_g: Seq<int> = Seq::empty();
        let ghost mut stopped_g = false;
        while i < n
            invariant_except_break
                !stopped_g,
            invariant
                i <= n,
                n == scored@.len(),
                lo == old(self).trace@.len(),
                children_logged(self.trace@, lo, v, 0, tried_g, sc_g, ends_g),
                forall|j: int| 0 <= j < ends_g.len() ==> self.trace@[#[trigger] ends_g[j] + 1] == Visit::Stop(false),
                tried_g.len() == i,
                forall|j: int| 0 <= j < i ==> #[trigger] tried_g[j] == scored@[j].0,
                iter_score == max_of(-32001, sc_g),
                iter_best == root_choice(best_move, tried_g, sc_g),
                stopped_g ==> exists|k: int| lo <= k < self.trace@.len() && self.trace@[k] == Visit::Stop(true),
                forall|m: Move| root_moves@.contains(m) ==> exists|j: int| 0 <= j < scored@.len() && (#[trigger] scored@[j]).0 == m,
                self.wf(),
                pos@ == v,
                v.wf(),
                1 <= depth,
                self.tt.gen == old(self).tt.gen,
                extends(old(self).trace@, self.trace@),
                stack@.len() >= old(stack)@.len(),
                iter_best == best_move || root_moves@.contains(iter_best),
                iter_score >= -32001,
                iter_score == -32001 ==> iter_best == best_move,
                iter_score > -32001 ==> root_moves@.contains(iter_best),
                root_moves@.len() == 0 ==> n == 0,
                n == 0 ==> iter_score == -32001,
                forall|j: int| 0 <= j < scored@.len() ==> pseudo_spec(v, (#[trigger] scored@[j]).0) && root_moves@.contains(scored@[j].0),
            ensures
                stopped_g || i == n,
            decreases n - i,
        {
            let ghost t_top = self.trace@;
            if self.time_over() {
                proof {
                    stopped_g = true;
                    assert(self.trace@[t_top.len() as int] == Visit::Stop(true));
                }
                break;
            }
            let mv = scored[i].0;
            proof {
                lemma_legal_move_playable(v, mv);
            }
            let mut child = *pos;
            child.do_move(mv);
            let score = if alpha == 0 - INF {
                neg_score(self.search(&mut child, stack, 1, depth - 1, 0 - INF, INF, true))
            } else {
                let s = neg_score(self.search(&mut child, stack, 1, depth - 1, neg_score(add_score(alpha, 1)), neg_score(alpha), false));
                if s > alpha {
                    neg_score(self.search(&mut child, stack, 1, depth - 1, 0 - INF, neg_score(alpha), true))
                } else {
                    s
                }
            };
            let ghost t1 = self.trace@;
            let stopped = self.time_over();
            let (next_best, next_score, next_alpha, stop) = root_take(iter_best, iter_score, alpha, mv, score, stopped);
            if stop {
                proof {
                    stopped_g = true;
                    assert(self.trace@[t1.len() as int] == Visit::Stop(true));
                }
                break;
            }
            proof {
                lemma_child_logged(t_top, t1, self.trace@, lo, v, 0, tried_g, mv, sc_g, ends_g, score as int, false);
                let tried1 = tried_g.push(mv);
                let sc1 = sc_g.push(score as int);
                assert(tried1.drop_last() =~= tried_g);
                assert(sc1.drop_last() =~= sc_g);
                tried_g = tried1;
                sc_g = sc1;
                ends_g = ends_g.push(t1.len() - 1);
            }
            iter_best = next_best;
            iter_score = next_score;
            alpha = next_alpha;
            i = i + 1;
        }
        proof {
            if !stopped_g {
                assert forall|m: Move| root_moves@.contains(m) implies tried_g.contains(m) by {
                    let j = choose|j: int| 0 <= j < scored@.len() && (#[trigger] scored@[j]).0 == m;
                    assert(tried_g[j] == m);
                }
            }
            assert(root_loop_ok(self.trace@, lo, v, root_moves@, best_move, iter_best, iter_score as int, tried_g, sc_g, ends_g));
            assert(lo == old(self).trace@.len() as int);
            assert(v == pos@);
        }
        let r = (iter_best, iter_score);
        proof {
            assert(root_loop_ok(self.trace@, old(self).trace@.len() as int, pos@, root_moves@, best_move, r.0, r.1 as int, tried_g, sc_g, ends_g));
        }
        r
    }
}


/// What one thread knows between iterations: the best move and score of
/// the deepest finished iteration, and that depth.
#[derive(Clone, Copy)]
pub struct RootProgress {
    pub best_move: Move,
    pub best_score: i32,
    pub completed_depth: i32,
}

/// After the iteration at `depth` returned `iter_best` and `iter_score`:
/// the new progress (the iteration's result unless the search was stopped
/// during it), whether to report it, and whether to stop deepening (a mate
/// score was found).
pub fn root_step(p: RootProgress, iter_best: Move, iter_score: i32, depth: i32, stopped: bool) -> (r: (
    RootProgress,
    bool,
    bool,
))
    ensures
        r.0 == (if stopped {
            p
        } else {
            RootProgress { best_move: iter_best, best_score: iter_score, completed_depth: depth }
        }),
        r.1 == !stopped,
        r.2 == (r.0.best_score > MATE - 300 || r.0.best_score < -MATE + 300),
{
    let q = if stopped {
        p
    } else {
        RootProgress { best_move: iter_best, best_score: iter_score, completed_depth: depth }
    };
    let finish = q.best_score > MATE - 300 || q.best_score < -MATE + 300;
    (q, !stopped, finish)
}

/// What a search thread hands back.
#[derive(Clone, Copy)]
pub struct ThreadResult {
    pub best_move: Move,
    pub best_score: i32,
    pub completed_depth: i32,
    pub nodes: u64,
}

/// The result chosen among the threads': the last one of greatest finished
/// depth (`None` when there are none).
pub fn best_result(results: &Vec<ThreadResult>) -> (r: Option<usize>)
    ensures
        results@.len() == 0 <==> r is None,
        r matches Some(i) ==> {
            &&& i < results@.len()
            &&& forall|j: int| 0 <= j < results@.len() ==> results@[j].completed_depth <= results@[i as int].completed_depth
            &&& forall|j: int| i < j < results@.len() ==> results@[j].completed_depth < results@[i as int].completed_depth
        },
{
    if results.len() == 0 {
        return None;
    }
    let mut best: usize = 0;
    let mut i: usize = 1;
    while i < results.len()
        invariant
            1 <= i <= results@.len(),
            best < i,
            forall|j: int| 0 <= j < i ==> results@[j].completed_depth <= results@[best as int].completed_depth,
            forall|j: int| best < j < i ==> results@[j].completed_depth < results@[best as int].completed_depth,
        decreases results@.len() - i,
    {
        if results[i].completed_depth >= results[best].completed_depth {
            best = i;
        }
        i = i + 1;
    }
    Some(best)
}

/// The decimal text of an integer, with a minus sign when negative.
pub open spec fn int_text(x: int) -> Seq<char> {
    if x < 0 {
        seq!['-'] + decimal((-x) as nat)
    } else {
        decimal(x as nat)
    }
}

/// `x / 2` rounded toward zero.
pub open spec fn half_toward_zero(x: int) -> int {
    if x >= 0 {
        x / 2
    } else {
        -((-x) / 2)
    }
}

/// The score as USI reports it: "mate N" with the moves to mate for a
/// winning mate score, "mate -N" for a losing one, else "cp" and the score.
pub open spec fn score_text_spec(s: i32) -> Seq<char> {
    if s > MATE - 300 {
        seq!['m', 'a', 't', 'e', ' '] + int_text(half_toward_zero(MATE - s + 1))
    } else if s < -MATE + 300 {
        seq!['m', 'a', 't', 'e', ' ', '-'] + int_text(half_toward_zero(MATE + s + 1))
    } else {
        seq!['c', 'p', ' '] + int_text(s as int)
    }
}

/// Appends the decimal text of an integer.
fn push_int(s: &mut String, x: i32)
    ensures
        final(s)@ == old(s)@ + int_text(x as int),
{
    if x < 0 {
        push_char(s, '-');
        let m: u32 = if x == i32::MIN {
            2147483648
        } else {
            (0 - x) as u32
        };
        let ghost mid = s@;
        push_decimal(s, m);
        assert(final(s)@ =~= old(s)@ + int_text(x as int));
    } else {
        push_decimal(s, x as u32);
    }
}

/// `x / 2` rounded toward zero.
fn half_toward_zero_exec(x: i32) -> (r: i32)
    ensures
        r == half_toward_zero(x as int),
{
    if x >= 0 {
        x / 2
    } else if x == i32::MIN {
        -1073741824
    } else {
        -((0 - x) / 2)
    }
}

/// The score as USI reports it (see `score_text_spec`).
pub fn score_text(best_score: i32) -> (r: String)
    ensures
        r@ == score_text_spec(best_score),
{
    let mut out = String::new();
    if best_score > MATE - 300 {
        push_char(&mut out, 'm');
        push_char(&mut out, 'a');
        push_char(&mut out, 't');
        push_char(&mut out, 'e');
        push_char(&mut out, ' ');
        let ply_to_mate = half_toward_zero_exec(MATE - best_score + 1);
        push_int(&mut out, ply_to_mate);
    } else if best_score < -MATE + 300 {
        push_char(&mut out, 'm');
        push_char(&mut out, 'a');
        push_char(&mut out, 't');
        push_char(&mut out, 'e');
        push_char(&mut out, ' ');
        push_char(&mut out, '-');
        let ply_to_mated = half_toward_zero_exec(MATE + best_score + 1);
        push_int(&mut out, ply_to_mated);
    } else {
        push_char(&mut out, 'c');
        push_char(&mut out, 'p');
        push_char(&mut out, ' ');
        push_int(&mut out, best_score);
    }
    out
}

} // verus!
