//! The trace of a search worker: what it read of the stop flag and which
//! searches it finished with what result, in order.  The search contracts
//! state a node's result in terms of the records of its children's searches.
use vstd::prelude::*;
use crate::moves::Move;
use crate::position::PosView;

verus! {

/// One step of a worker's search, as its trace records it.
pub enum Visit {
    /// A reading of the stop flag, with what it gave.
    Stop(bool),
    /// A finished search of `pos` at `ply` in the window `alpha`..`beta`,
    /// which gave `score`.
    Node { pos: PosView, ply: int, alpha: int, beta: int, score: int },
}

/// The trace `b` continues the trace `a`.
pub open spec fn extends(a: Seq<Visit>, b: Seq<Visit>) -> bool {
    a.len() <= b.len() && forall|i: int| 0 <= i < a.len() ==> #[trigger] b[i] == a[i]
}

/// The largest of `b` and the scores `s`.
pub open spec fn max_of(b: int, s: Seq<int>) -> int
    decreases s.len(),
{
    if s.len() == 0 {
        b
    } else {
        let m = max_of(b, s.drop_last());
        if s.last() > m {
            s.last()
        } else {
            m
        }
    }
}

/// A child's result `x` seen from the mover's side (negated in two's
/// complement).
pub open spec fn negated(x: int) -> int {
    vstd::wrapping::i32_specs::wrapping_sub(0, x as i32) as int
}

/// `x` records a search of `pos` at `ply` that gave the mover (one ply up)
/// the score `s`.
pub open spec fn child_record(x: Visit, pos: PosView, ply: int, s: int) -> bool {
    match x {
        Visit::Node { pos: p, ply: q, score, .. } => p == pos && q == ply && s == negated(score),
        Visit::Stop(_) => false,
    }
}

/// The searches of the children of `v` (at `ply`) after the moves `tried`
/// are recorded in the trace `t` from index `lo` on: the one after
/// `tried[j]` is the record at `ends[j]`, gave the mover the score `sc[j]`,
/// and was followed by a reading of the stop flag, clear for all but the
/// last.
pub open spec fn children_logged(
    t: Seq<Visit>,
    lo: int,
    v: PosView,
    ply: int,
    tried: Seq<Move>,
    sc: Seq<int>,
    ends: Seq<int>,
) -> bool {
    &&& tried.len() == sc.len() && sc.len() == ends.len()
    &&& forall|j: int| 0 <= j < ends.len() ==> lo <= #[trigger] ends[j] && ends[j] + 1 < t.len()
    &&& forall|j: int, l: int| 0 <= j < l < ends.len() ==> #[trigger] ends[j] < #[trigger] ends[l]
    &&& forall|j: int| 0 <= j < ends.len() ==> child_record(#[trigger] t[ends[j]], v.after_move(tried[j]), ply + 1, sc[j])
    &&& forall|j: int| 0 <= j < ends.len() - 1 ==> t[#[trigger] ends[j] + 1] == Visit::Stop(false)
}

/// The last reading recorded after a child's search gave "stop".
pub open spec fn last_read_set(t: Seq<Visit>, ends: Seq<int>) -> bool {
    ends.len() > 0 && t[ends.last() + 1] == Visit::Stop(true)
}

/// `x` records a search in the window `alpha`..`beta`.
pub open spec fn window_of(x: Visit, alpha: int, beta: int) -> bool {
    match x {
        Visit::Node { alpha: a, beta: b, .. } => a == alpha && b == beta,
        Visit::Stop(_) => false,
    }
}


/// One more child search recorded: the child after `mv` ended at the last
/// record of `t1` (which continues `t0`), and a reading `b` of the flag
/// followed, giving `t`.  The records of the earlier children carry over.
pub proof fn lemma_child_logged(
    t0: Seq<Visit>,
    t1: Seq<Visit>,
    t: Seq<Visit>,
    lo: int,
    v: PosView,
    ply: int,
    tried: Seq<Move>,
    mv: Move,
    sc: Seq<int>,
    ends: Seq<int>,
    score: int,
    b: bool,
)
    requires
        children_logged(t0, lo, v, ply, tried, sc, ends),
        forall|j: int| 0 <= j < ends.len() ==> t0[#[trigger] ends[j] + 1] == Visit::Stop(false),
        0 <= lo <= t0.len(),
        extends(t0, t1),
        t1.len() > t0.len(),
        child_record(t1.last(), v.after_move(mv), ply + 1, score),
        t == t1.push(Visit::Stop(b)),
    ensures
        children_logged(t, lo, v, ply, tried.push(mv), sc.push(score), ends.push(t1.len() - 1)),
        forall|j: int| 0 <= j < ends.len() ==> t[#[trigger] ends[j] + 1] == Visit::Stop(false),
        forall|j: int| 0 <= j < ends.len() ==> #[trigger] t[ends[j]] == t0[ends[j]],
        t[t1.len() as int] == Visit::Stop(b),
        sc.push(score).drop_last() == sc,
        ends.push(t1.len() - 1).drop_last() == ends,
        ends.push(t1.len() - 1).last() + 1 == t1.len(),
        extends(t0, t),
{
    let e = t1.len() - 1;
    let sc1 = sc.push(score);
    let ends1 = ends.push(e);
    let tr1 = tried.push(mv);
    assert(sc1.drop_last() =~= sc);
    assert(ends1.drop_last() =~= ends);
    assert forall|j: int| 0 <= j < ends.len() implies t[#[trigger] ends[j]] == t0[ends[j]] && t[ends[j] + 1] == t0[ends[j] + 1] by {
        assert(lo <= ends[j] && ends[j] + 1 < t0.len());
        assert(t1[ends[j]] == t0[ends[j]]);
        assert(t1[ends[j] + 1] == t0[ends[j] + 1]);
    }
    assert(t[e] == t1.last());
    assert forall|j: int| 0 <= j < ends1.len() implies child_record(#[trigger] t[ends1[j]], v.after_move(tr1[j]), ply + 1, sc1[j]) by {
        if j < ends.len() {
            assert(tried[j] == tr1[j]);
        }
    }
    assert forall|i: int| 0 <= i < t0.len() implies #[trigger] t[i] == t0[i] by {
        assert(t1[i] == t0[i]);
    }
}

/// The windows of the recorded children carry over when one more child,
/// searched with the window `nb`..`-max(a0, earlier scores)`, is recorded
/// (see `lemma_child_logged`).
pub proof fn lemma_windows_logged(
    t0: Seq<Visit>,
    t: Seq<Visit>,
    e: int,
    sc: Seq<int>,
    ends: Seq<int>,
    score: int,
    a0: int,
    nb: int,
)
    requires
        forall|j: int| 0 <= j < ends.len() ==> window_of(#[trigger] t0[ends[j]], nb, negated(max_of(a0, sc.take(j)))),
        forall|j: int| 0 <= j < ends.len() ==> #[trigger] t[ends[j]] == t0[ends[j]],
        ends.len() == sc.len(),
        0 <= e < t.len(),
        window_of(t[e], nb, negated(max_of(a0, sc))),
    ensures
        forall|j: int|
            0 <= j < ends.len() + 1 ==> window_of(#[trigger] t[ends.push(e)[j]], nb, negated(max_of(a0, sc.push(score).take(j)))),
{
    let sc1 = sc.push(score);
    let ends1 = ends.push(e);
    assert forall|j: int| 0 <= j < ends1.len() implies window_of(#[trigger] t[ends1[j]], nb, negated(max_of(a0, sc1.take(j)))) by {
        if j < ends.len() {
            assert(sc1.take(j) =~= sc.take(j));
            assert(t[ends1[j]] == t0[ends[j]]);
        } else {
            assert(sc1.take(j) =~= sc);
        }
    }
}

/// A record that lies in a trace lies in every trace that continues it.
pub proof fn lemma_logged_extends(t: Seq<Visit>, t2: Seq<Visit>, lo: int, v: PosView, ply: int, tried: Seq<Move>, sc: Seq<int>, ends: Seq<int>)
    requires
        children_logged(t, lo, v, ply, tried, sc, ends),
        extends(t, t2),
        0 <= lo,
    ensures
        children_logged(t2, lo, v, ply, tried, sc, ends),
        forall|j: int| 0 <= j < ends.len() ==> t2[#[trigger] ends[j]] == t[ends[j]] && t2[ends[j] + 1] == t[ends[j] + 1],
        last_read_set(t2, ends) == last_read_set(t, ends),
{
    assert forall|j: int| 0 <= j < ends.len() implies t2[#[trigger] ends[j]] == t[ends[j]] && t2[ends[j] + 1] == t[ends[j] + 1] by {
        assert(lo <= ends[j] && ends[j] + 1 < t.len());
        assert(t2[ends[j]] == t[ends[j]]);
        assert(t2[ends[j] + 1] == t[ends[j] + 1]);
    }
    if ends.len() > 0 {
        assert(t2[ends.last() + 1] == t[ends.last() + 1]);
    }
}

} // verus!
