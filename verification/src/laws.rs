use vstd::prelude::*;

verus! {

use crate::vector_clock::{
    ClockV,
    MAX_PEERS,
    clock_eq,
    clock_lt,
    lemma_lex_antisymmetric,
    lemma_lex_range,
    lemma_lex_transitive_lt,
};
use crate::payload::{MsgV, MSG_ENQ_REQ, MSG_DEQ_REQ, MSG_DEQ_ACK};
use crate::process::{
    best_index_from,
    ClV,
    EntryV,
    PdV,
    cl_new_v,
    cl_set_flag,
    contains_ts,
    dequeue_v,
    find_ts_from,
    first_gt_from,
    flag_earlier,
    lemma_best_index_bounds,
    lemma_find_ts_bounds,
    lemma_first_gt_bounds,
    lemma_pending_pos_bounds,
    lemma_sweep_down_fields,
    pending_add,
    pending_insert_pos_from,
    pending_monotone_v,
    pending_sorted_v,
    propagated,
    queue_insert,
    queue_sorted_v,
    row_or,
    settle_from,
    step,
    step_enabled,
    sweep_down,
};

/// Law: inserting an entry at the first strictly-greater position keeps the
/// queue strictly ascending, provided the new timestamp matches no stored
/// one and all live sizes agree.
pub proof fn lemma_queue_insert_sorted(q: Seq<EntryV>, e: EntryV, n: nat)
    requires
        queue_sorted_v(q),
        forall|i: int| 0 <= i < q.len() ==> (#[trigger] q[i]).2.size == n,
        e.2.size == n,
        forall|i: int| 0 <= i < q.len() ==> !clock_eq(e.2, (#[trigger] q[i]).2),
    ensures
        queue_sorted_v(queue_insert(q, e)),
{
    let pos = first_gt_from(q, e.2, 0);
    lemma_first_gt_bounds(q, e.2, 0);
    assert forall|j: int| 0 <= j < pos implies clock_lt((#[trigger] q[j]).2, e.2) by {
        lemma_lex_range(e.2.vals, q[j].2.vals, 0, n as int);
        lemma_lex_antisymmetric(e.2.vals, q[j].2.vals, 0, n as int);
    }
    let r = queue_insert(q, e);
    assert forall|i: int, j: int| 0 <= i < j < r.len() implies clock_lt(
        (#[trigger] r[i]).2,
        (#[trigger] r[j]).2,
    ) by {
        if i < pos {
            assert(r[i] == q[i]);
        } else if i == pos {
            assert(r[i] == e);
        } else {
            assert(r[i] == q[i - 1]);
        }
        if j < pos {
            assert(r[j] == q[j]);
        } else if j == pos {
            assert(r[j] == e);
        } else {
            assert(r[j] == q[j - 1]);
        }
        if i == pos && j > pos && j - 1 > pos {
            assert(clock_lt(e.2, q[pos].2));
            assert(clock_lt(q[pos].2, q[j - 1].2));
            lemma_lex_transitive_lt(e.2.vals, q[pos].2.vals, q[j - 1].2.vals, 0, n as int);
        }
    }
}

/// Law: opening a confirmation list for an unseen timestamp keeps the
/// pending dequeues strictly ascending and distinct.
pub proof fn lemma_pending_add_sorted(p: Seq<ClV>, ws: nat, ts: ClockV, invoker: i32, n: nat)
    requires
        pending_sorted_v(p),
        forall|i: int| 0 <= i < p.len() ==> (#[trigger] p[i]).ts.size == n,
        ts.size == n,
    ensures
        pending_sorted_v(pending_add(p, ws, ts, invoker)),
{
    if !contains_ts(p, ts) {
        let pos = pending_insert_pos_from(p, ts, 0);
        lemma_pending_pos_bounds(p, ts, 0);
        assert forall|j: int| pos <= j < p.len() implies clock_lt(ts, (#[trigger] p[j]).ts) by {
            if j == pos {
                lemma_lex_range(p[j].ts.vals, ts.vals, 0, n as int);
                lemma_lex_antisymmetric(p[j].ts.vals, ts.vals, 0, n as int);
            } else {
                lemma_lex_range(p[pos].ts.vals, ts.vals, 0, n as int);
                lemma_lex_antisymmetric(p[pos].ts.vals, ts.vals, 0, n as int);
                lemma_lex_transitive_lt(ts.vals, p[pos].ts.vals, p[j].ts.vals, 0, n as int);
            }
        }
        let r = pending_add(p, ws, ts, invoker);
        assert forall|i: int, j: int| 0 <= i < j < r.len() implies clock_lt(
            (#[trigger] r[i]).ts,
            (#[trigger] r[j]).ts,
        ) by {
            if i < pos {
                assert(r[i] == p[i]);
            } else if i == pos {
                assert(r[i] == cl_new_v(ws, ts, invoker));
            } else {
                assert(r[i] == p[i - 1]);
            }
            if j < pos {
                assert(r[j] == p[j]);
            } else if j == pos {
                assert(r[j] == cl_new_v(ws, ts, invoker));
            } else {
                assert(r[j] == p[j - 1]);
            }
        }
    }
}

/// Law: after the backward sweep, an entry's flag is set exactly when the
/// same flag was set at its position or later; every other field is kept.
pub proof fn lemma_sweep_charact(p: Seq<ClV>, row: int)
    requires
        row < p.len(),
        forall|i: int| 0 <= i < p.len() ==> (#[trigger] p[i]).flags.len() == MAX_PEERS,
        forall|i: int, c: int|
            0 <= i < p.len() && 0 <= c < MAX_PEERS ==> ((#[trigger] p[i].flags[c]) == 0
                || p[i].flags[c] == 1),
    ensures
        sweep_down(p, row).len() == p.len(),
        forall|i: int| row <= i < p.len() ==> (#[trigger] sweep_down(p, row)[i]) == p[i],
        forall|i: int, c: int|
            0 <= i < row && 0 <= c < MAX_PEERS ==> ((#[trigger] sweep_down(p, row)[i].flags[c]) == 1
                <==> exists|j: int| i <= j <= row && (#[trigger] p[j].flags[c]) == 1),
    decreases row,
{
    if row <= 0 {
    } else {
        let up = row_or(p[row - 1], p[row]);
        let p1 = p.update(row - 1, up);
        assert forall|i: int| 0 <= i < p1.len() implies (#[trigger] p1[i]).flags.len()
            == MAX_PEERS by {
            if i != row - 1 {
                assert(p1[i] == p[i]);
            }
        }
        assert forall|i: int, c: int|
            0 <= i < p1.len() && 0 <= c < MAX_PEERS implies ((#[trigger] p1[i].flags[c]) == 0
            || p1[i].flags[c] == 1) by {
            if i != row - 1 {
                assert(p1[i] == p[i]);
            }
        }
        lemma_sweep_charact(p1, row - 1);
        let r = sweep_down(p, row);
        assert(r == sweep_down(p1, row - 1));
        assert forall|i: int, c: int|
            0 <= i < row && 0 <= c < MAX_PEERS implies ((#[trigger] r[i].flags[c]) == 1 <==> exists|
            j: int,
        | i <= j <= row && (#[trigger] p[j].flags[c]) == 1) by {
            if i == row - 1 {
                assert(r[i] == p1[i]);
                assert(p1[i] == up);
                if up.flags[c] == 1 {
                    if p[row - 1].flags[c] == 1 {
                        assert(i <= row - 1 <= row && p[row - 1].flags[c] == 1);
                    } else {
                        assert(p[row].flags[c] == 1);
                        assert(i <= row <= row && p[row].flags[c] == 1);
                    }
                }
                if exists|j: int| i <= j <= row && (#[trigger] p[j].flags[c]) == 1 {
                    let j = choose|j: int| i <= j <= row && (#[trigger] p[j].flags[c]) == 1;
                    assert(up.flags[c] == 1);
                }
            } else {
                // i < row - 1: use the recursive characterisation over p1.
                if r[i].flags[c] == 1 {
                    let j = choose|j: int| i <= j <= row - 1 && (#[trigger] p1[j].flags[c]) == 1;
                    if j == row - 1 {
                        if p[row - 1].flags[c] == 1 {
                            assert(i <= row - 1 <= row && p[row - 1].flags[c] == 1);
                        } else {
                            assert(p[row].flags[c] == 1);
                            assert(i <= row <= row && p[row].flags[c] == 1);
                        }
                    } else {
                        assert(p1[j] == p[j]);
                        assert(i <= j <= row && p[j].flags[c] == 1);
                    }
                }
                if exists|j: int| i <= j <= row && (#[trigger] p[j].flags[c]) == 1 {
                    let j = choose|j: int| i <= j <= row && (#[trigger] p[j].flags[c]) == 1;
                    if j >= row - 1 {
                        assert(up.flags[c] == 1);
                        assert(p1[row - 1].flags[c] == 1);
                        assert(i <= row - 1 <= row - 1 && p1[row - 1].flags[c] == 1);
                    } else {
                        assert(p1[j] == p[j]);
                        assert(i <= j <= row - 1 && p1[j].flags[c] == 1);
                    }
                    assert(r[i].flags[c] == 1);
                }
            }
        }
    }
}

/// Law: the backward sweep establishes column-monotonicity outright; in
/// particular a flag set only on a later entry reaches every earlier one.
pub proof fn lemma_propagated_monotone(p: Seq<ClV>)
    requires
        forall|i: int| 0 <= i < p.len() ==> (#[trigger] p[i]).flags.len() == MAX_PEERS,
        forall|i: int, c: int|
            0 <= i < p.len() && 0 <= c < MAX_PEERS ==> ((#[trigger] p[i].flags[c]) == 0
                || p[i].flags[c] == 1),
    ensures
        pending_monotone_v(propagated(p)),
        forall|i: int, c: int|
            0 <= i < p.len() && 0 <= c < MAX_PEERS && (#[trigger] p[i].flags[c]) == 1
                ==> propagated(p)[i].flags[c] == 1,
{
    let r = propagated(p);
    if p.len() == 0 {
    } else {
        let row = p.len() - 1;
        lemma_sweep_charact(p, row);
        assert forall|i: int, c: int|
            0 <= i < p.len() && 0 <= c < MAX_PEERS && (#[trigger] p[i].flags[c]) == 1 implies
            r[i].flags[c] == 1 by {
            if i < row {
                assert(i <= i <= row && p[i].flags[c] == 1);
            } else {
                assert(r[i] == p[i]);
            }
        }
        assert forall|i: int, j: int, c: int|
            0 <= j < i < r.len() && 0 <= c < MAX_PEERS && (#[trigger] r[i].flags[c]) == 1 implies (
        #[trigger] r[j].flags[c]) == 1 by {
            if i < row {
                let w = choose|w: int| i <= w <= row && (#[trigger] p[w].flags[c]) == 1;
                assert(j <= w <= row && p[w].flags[c] == 1);
            } else {
                assert(r[i] == p[i]);
                assert(j <= i <= row && p[i].flags[c] == 1);
            }
        }
    }
}

/// Fields the commit loop keeps: timestamps, flags, sizes and invokers are
/// untouched; a list ends handled exactly when it was handled or full.
pub proof fn lemma_settle_fields(q: Seq<EntryV>, p: Seq<ClV>, bound: ClockV, i: int)
    requires
        0 <= i,
    ensures
        settle_from(q, p, bound, i).pending.len() == p.len(),
        forall|j: int|
            0 <= j < p.len() ==> (#[trigger] settle_from(q, p, bound, i).pending[j]).ts == p[j].ts
                && settle_from(q, p, bound, i).pending[j].flags == p[j].flags && settle_from(
                q,
                p,
                bound,
                i,
            ).pending[j].size == p[j].size && settle_from(q, p, bound, i).pending[j].invoker
                == p[j].invoker && settle_from(q, p, bound, i).pending[j].handled == (p[j].handled
                || (i <= j && p[j].is_full_v())),
    decreases p.len() - i,
{
    if 0 <= i < p.len() {
        if p[i].is_full_v() && !p[i].handled {
            let dq = dequeue_v(q, bound);
            let p1 = p.update(i, (ClV { handled: true, ..p[i] }));
            lemma_settle_fields(dq.1, p1, bound, i + 1);
            assert forall|j: int| 0 <= j < p.len() implies (#[trigger] settle_from(
                q,
                p,
                bound,
                i,
            ).pending[j]).ts == p[j].ts && settle_from(q, p, bound, i).pending[j].flags
                == p[j].flags && settle_from(q, p, bound, i).pending[j].size == p[j].size
                && settle_from(q, p, bound, i).pending[j].invoker == p[j].invoker && settle_from(
                q,
                p,
                bound,
                i,
            ).pending[j].handled == (p[j].handled || (i <= j && p[j].is_full_v())) by {
                if j != i {
                    assert(p1[j] == p[j]);
                    assert(p1[j].is_full_v() == p[j].is_full_v());
                } else {
                    assert(p1[j] == (ClV { handled: true, ..p[i] }));
                    assert(p1[j].is_full_v() == p[j].is_full_v());
                }
            }
        } else {
            lemma_settle_fields(q, p, bound, i + 1);
        }
    }
}

/// The commit loop only removes queue entries, so order and live sizes are
/// kept.
pub proof fn lemma_settle_queue_sorted(q: Seq<EntryV>, p: Seq<ClV>, bound: ClockV, i: int, n: nat)
    requires
        queue_sorted_v(q),
        forall|j: int| 0 <= j < q.len() ==> (#[trigger] q[j]).2.size == n && q[j].2.wf(),
    ensures
        queue_sorted_v(settle_from(q, p, bound, i).queue),
        forall|j: int|
            0 <= j < settle_from(q, p, bound, i).queue.len() ==> (#[trigger] settle_from(
                q,
                p,
                bound,
                i,
            ).queue[j]).2.size == n && settle_from(q, p, bound, i).queue[j].2.wf(),
    decreases p.len() - i,
{
    if 0 <= i < p.len() {
        if p[i].is_full_v() && !p[i].handled {
            let dq = dequeue_v(q, bound);
            let p1 = p.update(i, (ClV { handled: true, ..p[i] }));
            match crate::process::best_index_from(q, bound, 0, Option::<int>::None) {
                Option::Some(k) => {
                    lemma_best_index_bounds(q, bound, 0, Option::None);
                    assert forall|a: int, b: int| 0 <= a < b < dq.1.len() implies clock_lt(
                        (#[trigger] dq.1[a]).2,
                        (#[trigger] dq.1[b]).2,
                    ) by {
                        if a < k {
                            assert(dq.1[a] == q[a]);
                        } else {
                            assert(dq.1[a] == q[a + 1]);
                        }
                        if b < k {
                            assert(dq.1[b] == q[b]);
                        } else {
                            assert(dq.1[b] == q[b + 1]);
                        }
                    }
                    assert forall|a: int| 0 <= a < dq.1.len() implies (#[trigger] dq.1[a]).2.size
                        == n && dq.1[a].2.wf() by {
                        if a < k {
                            assert(dq.1[a] == q[a]);
                        } else {
                            assert(dq.1[a] == q[a + 1]);
                        }
                    }
                },
                Option::None => {},
            }
            lemma_settle_queue_sorted(dq.1, p1, bound, i + 1, n);
        } else {
            lemma_settle_queue_sorted(q, p, bound, i + 1, n);
        }
    }
}

/// Law: one step preserves a peer's well-formedness and the two ordering
/// invariants: the local queue stays strictly ascending (for an EnqReq,
/// provided its timestamp is fresh), and the pending dequeues stay strictly
/// ascending and distinct.
pub proof fn lemma_step_preserves_invariants(s: PdV, m: MsgV)
    requires
        s.wf(),
        s.queue_sorted(),
        s.pending_sorted(),
        step_enabled(s, m),
        m.message == MSG_ENQ_REQ ==> forall|i: int|
            0 <= i < s.queue.len() ==> !clock_eq(m.ts, (#[trigger] s.queue[i]).2),
    ensures
        step(s, m).state.wf(),
        step(s, m).state.queue_sorted(),
        step(s, m).state.pending_sorted(),
{
    let s1 = PdV { history: s.history.push(m), ..s };
    let ws = s.world_size as nat;
    let r = step(s, m).state;
    if m.message == MSG_ENQ_REQ {
        lemma_queue_insert_sorted(s.queue, (m.value, m.invoker, m.ts), ws);
        lemma_first_gt_bounds(s.queue, m.ts, 0);
        let pos = first_gt_from(s.queue, m.ts, 0);
        assert forall|i: int| 0 <= i < r.queue.len() implies (#[trigger] r.queue[i]).2.wf()
            && r.queue[i].2.size == s.world_size by {
            if i < pos {
                assert(r.queue[i] == s.queue[i]);
            } else if i == pos {
                assert(r.queue[i] == (m.value, m.invoker, m.ts));
            } else {
                assert(r.queue[i] == s.queue[i - 1]);
            }
        }
        let p1 = flag_earlier(s.pending, m.ts, m.invoker as int);
        assert forall|i: int, j: int| 0 <= i < j < p1.len() implies clock_lt(
            (#[trigger] p1[i]).ts,
            (#[trigger] p1[j]).ts,
        ) by {
            assert(p1[i].ts == s.pending[i].ts);
            assert(p1[j].ts == s.pending[j].ts);
        }
        assert forall|i: int| 0 <= i < p1.len() implies (#[trigger] p1[i]).wf(
            s.world_size as int,
        ) by {
            assert(s.pending[i].wf(s.world_size as int));
            if clock_lt(s.pending[i].ts, m.ts) {
                assert(p1[i] == cl_set_flag(s.pending[i], m.invoker as int));
            } else {
                assert(p1[i] == s.pending[i]);
            }
        }
    } else if m.message == MSG_DEQ_REQ {
        lemma_pending_add_sorted(s.pending, ws, m.ts, m.invoker, ws);
        let pos = pending_insert_pos_from(s.pending, m.ts, 0);
        lemma_pending_pos_bounds(s.pending, m.ts, 0);
        let p1 = pending_add(s.pending, ws, m.ts, m.invoker);
        assert forall|i: int| 0 <= i < p1.len() implies (#[trigger] p1[i]).wf(
            s.world_size as int,
        ) by {
            if contains_ts(s.pending, m.ts) {
                assert(p1[i] == s.pending[i]);
            } else {
                if i < pos {
                    assert(p1[i] == s.pending[i]);
                } else if i == pos {
                    assert(p1[i] == cl_new_v(ws, m.ts, m.invoker));
                } else {
                    assert(p1[i] == s.pending[i - 1]);
                }
            }
        }
    } else if m.message == MSG_DEQ_ACK {
        lemma_pending_add_sorted(s.pending, ws, m.ts, m.invoker, ws);
        let pos = pending_insert_pos_from(s.pending, m.ts, 0);
        lemma_pending_pos_bounds(s.pending, m.ts, 0);
        let p1 = pending_add(s.pending, ws, m.ts, m.invoker);
        assert forall|i: int| 0 <= i < p1.len() implies (#[trigger] p1[i]).wf(
            s.world_size as int,
        ) by {
            if contains_ts(s.pending, m.ts) {
                assert(p1[i] == s.pending[i]);
            } else {
                if i < pos {
                    assert(p1[i] == s.pending[i]);
                } else if i == pos {
                    assert(p1[i] == cl_new_v(ws, m.ts, m.invoker));
                } else {
                    assert(p1[i] == s.pending[i - 1]);
                }
            }
        }
        let k = find_ts_from(p1, m.ts, 0);
        lemma_find_ts_bounds(p1, m.ts, 0);
        assert(contains_ts(p1, m.ts)) by {
            if contains_ts(s.pending, m.ts) {
                let w = choose|w: int|
                    0 <= w < s.pending.len() && clock_eq((#[trigger] s.pending[w]).ts, m.ts);
                assert(p1[w] == s.pending[w]);
                assert(clock_eq(p1[w].ts, m.ts));
            } else {
                assert(p1[pos] == cl_new_v(ws, m.ts, m.invoker));
                crate::vector_clock::lemma_lex_reflexive(m.ts.vals, 0, m.ts.size as int);
                assert(clock_eq(p1[pos].ts, m.ts));
            }
        }
        assert(k < p1.len()) by {
            let w = choose|w: int| 0 <= w < p1.len() && clock_eq((#[trigger] p1[w]).ts, m.ts);
            if k >= p1.len() {
                assert(!clock_eq(p1[w].ts, m.ts));
            }
        }
        let p2 = p1.update(k, cl_set_flag(p1[k], m.sender as int));
        assert forall|i: int| 0 <= i < p2.len() implies (#[trigger] p2[i]).wf(
            s.world_size as int,
        ) by {
            if i == k {
                assert(p2[i] == cl_set_flag(p1[k], m.sender as int));
                assert(p1[k].wf(s.world_size as int));
            } else {
                assert(p2[i] == p1[i]);
            }
        }
        assert forall|i: int| 0 <= i < p2.len() implies (#[trigger] p2[i]).flags.len()
            == MAX_PEERS by {
            assert(p2[i].wf(s.world_size as int));
        }
        lemma_sweep_down_fields(p2, p2.len() - 1);
        let p3 = propagated(p2);
        assert forall|i: int| 0 <= i < p3.len() implies (#[trigger] p3[i]).wf(
            s.world_size as int,
        ) by {
            assert(p2[i].wf(s.world_size as int));
        }
        assert forall|i: int, j: int| 0 <= i < j < p3.len() implies clock_lt(
            (#[trigger] p3[i]).ts,
            (#[trigger] p3[j]).ts,
        ) by {
            assert(p3[i].ts == p2[i].ts && p3[j].ts == p2[j].ts);
            assert(p2[i].ts == p1[i].ts && p2[j].ts == p1[j].ts);
        }
        lemma_settle_fields(s.queue, p3, m.ts, 0);
        lemma_settle_queue_sorted(s.queue, p3, m.ts, 0, ws);
        let done = settle_from(s.queue, p3, m.ts, 0);
        assert forall|i: int| 0 <= i < done.pending.len() implies (#[trigger] done.pending[i]).wf(
            s.world_size as int,
        ) by {
            assert(p3[i].wf(s.world_size as int));
        }
        assert forall|i: int, j: int| 0 <= i < j < done.pending.len() implies clock_lt(
            (#[trigger] done.pending[i]).ts,
            (#[trigger] done.pending[j]).ts,
        ) by {
            assert(done.pending[i].ts == p3[i].ts && done.pending[j].ts == p3[j].ts);
        }
    }
}

/// Law: every step but a DeqReq preserves column-monotonicity of the
/// pending dequeues; a DeqAck even establishes it outright. (A DeqReq may
/// open a fresh all-zero list below an already-flagged one, which the next
/// DeqAck's sweep repairs.)
pub proof fn lemma_step_preserves_monotone(s: PdV, m: MsgV)
    requires
        s.wf(),
        s.pending_sorted(),
        step_enabled(s, m),
        m.message != MSG_DEQ_REQ,
        m.message == MSG_DEQ_ACK || s.pending_monotone(),
    ensures
        step(s, m).state.pending_monotone(),
{
    let r = step(s, m).state;
    let ws = s.world_size as nat;
    if m.message == MSG_ENQ_REQ {
        let p1 = flag_earlier(s.pending, m.ts, m.invoker as int);
        assert forall|i: int, j: int, c: int|
            0 <= j < i < p1.len() && 0 <= c < MAX_PEERS && (#[trigger] p1[i].flags[c]) == 1 implies
            (#[trigger] p1[j].flags[c]) == 1 by {
            assert(s.pending[i].wf(s.world_size as int));
            assert(s.pending[j].wf(s.world_size as int));
            if clock_lt(s.pending[i].ts, m.ts) && c == m.invoker as int {
                assert(clock_lt(s.pending[j].ts, s.pending[i].ts));
                lemma_lex_transitive_lt(
                    s.pending[j].ts.vals,
                    s.pending[i].ts.vals,
                    m.ts.vals,
                    0,
                    s.world_size as int,
                );
                assert(clock_lt(s.pending[j].ts, m.ts));
                assert(p1[j] == cl_set_flag(s.pending[j], m.invoker as int));
            } else {
                if p1[i] == cl_set_flag(s.pending[i], m.invoker as int) {
                    assert(s.pending[i].flags[c] == 1);
                } else {
                    assert(s.pending[i].flags[c] == 1);
                }
                assert(s.pending[j].flags[c] == 1);
                if clock_lt(s.pending[j].ts, m.ts) {
                    assert(p1[j] == cl_set_flag(s.pending[j], m.invoker as int));
                    assert(p1[j].flags[c] == 1);
                } else {
                    assert(p1[j] == s.pending[j]);
                }
            }
        }
    } else if m.message == MSG_DEQ_ACK {
        let p1 = pending_add(s.pending, ws, m.ts, m.invoker);
        let pos = pending_insert_pos_from(s.pending, m.ts, 0);
        lemma_pending_pos_bounds(s.pending, m.ts, 0);
        assert forall|i: int| 0 <= i < p1.len() implies (#[trigger] p1[i]).wf(
            s.world_size as int,
        ) by {
            if contains_ts(s.pending, m.ts) {
                assert(p1[i] == s.pending[i]);
            } else {
                if i < pos {
                    assert(p1[i] == s.pending[i]);
                } else if i == pos {
                    assert(p1[i] == cl_new_v(ws, m.ts, m.invoker));
                } else {
                    assert(p1[i] == s.pending[i - 1]);
                }
            }
        }
        let k = find_ts_from(p1, m.ts, 0);
        lemma_find_ts_bounds(p1, m.ts, 0);
        assert(contains_ts(p1, m.ts)) by {
            if contains_ts(s.pending, m.ts) {
                let w = choose|w: int|
                    0 <= w < s.pending.len() && clock_eq((#[trigger] s.pending[w]).ts, m.ts);
                assert(p1[w] == s.pending[w]);
                assert(clock_eq(p1[w].ts, m.ts));
            } else {
                assert(p1[pos] == cl_new_v(ws, m.ts, m.invoker));
                crate::vector_clock::lemma_lex_reflexive(m.ts.vals, 0, m.ts.size as int);
                assert(clock_eq(p1[pos].ts, m.ts));
            }
        }
        assert(k < p1.len()) by {
            let w = choose|w: int| 0 <= w < p1.len() && clock_eq((#[trigger] p1[w]).ts, m.ts);
            if k >= p1.len() {
                assert(!clock_eq(p1[w].ts, m.ts));
            }
        }
        let p2 = p1.update(k, cl_set_flag(p1[k], m.sender as int));
        assert forall|i: int| 0 <= i < p2.len() implies (#[trigger] p2[i]).flags.len() == MAX_PEERS
            && forall|c: int|
            0 <= c < MAX_PEERS ==> ((#[trigger] p2[i].flags[c]) == 0 || p2[i].flags[c] == 1) by {
            if k < p1.len() && i == k {
                assert(p2[i] == cl_set_flag(p1[k], m.sender as int));
                assert(p1[k].wf(s.world_size as int));
            } else {
                assert(p2[i] == p1[i]);
                assert(p1[i].wf(s.world_size as int));
            }
        }
        lemma_propagated_monotone(p2);
        let p3 = propagated(p2);
        lemma_settle_fields(s.queue, p3, m.ts, 0);
        let done = settle_from(s.queue, p3, m.ts, 0);
        assert forall|i: int, j: int, c: int|
            0 <= j < i < done.pending.len() && 0 <= c < MAX_PEERS && (
            #[trigger] done.pending[i].flags[c]) == 1 implies (#[trigger] done.pending[j].flags[c])
            == 1 by {
            assert(done.pending[i].flags == p3[i].flags);
            assert(done.pending[j].flags == p3[j].flags);
        }
    }
}

/// Law: agreement of replicas. Two strictly-ascending queues that hold the
/// same set of entries are identical, so peers that have inserted the same
/// enqueues — in whatever order the transport delivered them — hold the
/// same local queue.
pub proof fn lemma_sorted_queues_agree(q1: Seq<EntryV>, q2: Seq<EntryV>, n: nat)
    requires
        queue_sorted_v(q1),
        queue_sorted_v(q2),
        forall|i: int| 0 <= i < q1.len() ==> (#[trigger] q1[i]).2.size == n,
        forall|i: int| 0 <= i < q2.len() ==> (#[trigger] q2[i]).2.size == n,
        forall|e: EntryV| q1.contains(e) <==> q2.contains(e),
    ensures
        q1 == q2,
    decreases q1.len(),
{
    if q1.len() == 0 {
        if q2.len() > 0 {
            assert(q2.contains(q2[0]));
            assert(q1.contains(q2[0]));
        }
        assert(q1 =~= q2);
    } else {
        assert(q1.contains(q1[0]));
        assert(q2.contains(q1[0]));
        let j = choose|j: int| 0 <= j < q2.len() && q2[j] == q1[0];
        if j > 0 {
            assert(q2.contains(q2[0]));
            assert(q1.contains(q2[0]));
            let k = choose|k: int| 0 <= k < q1.len() && q1[k] == q2[0];
            assert(clock_lt(q2[0].2, q2[j].2));
            if k > 0 {
                assert(clock_lt(q1[0].2, q1[k].2));
                lemma_lex_antisymmetric(q1[0].2.vals, q2[0].2.vals, 0, n as int);
            } else {
                crate::vector_clock::lemma_lex_reflexive(q1[0].2.vals, 0, n as int);
            }
        }
        assert(q2.len() > 0 && q2[0] == q1[0]);
        let t1 = q1.skip(1);
        let t2 = q2.skip(1);
        assert forall|e: EntryV| t1.contains(e) implies t2.contains(e) by {
            let i = choose|i: int| 0 <= i < t1.len() && t1[i] == e;
            assert(q1[i + 1] == e);
            assert(q1.contains(e));
            assert(q2.contains(e));
            let m = choose|m: int| 0 <= m < q2.len() && q2[m] == e;
            if m == 0 {
                assert(clock_lt(q1[0].2, q1[i + 1].2));
                crate::vector_clock::lemma_lex_reflexive(q1[0].2.vals, 0, n as int);
            } else {
                assert(t2[m - 1] == e);
                assert(t2.contains(e));
            }
        }
        assert forall|e: EntryV| t2.contains(e) implies t1.contains(e) by {
            let i = choose|i: int| 0 <= i < t2.len() && t2[i] == e;
            assert(q2[i + 1] == e);
            assert(q2.contains(e));
            assert(q1.contains(e));
            let m = choose|m: int| 0 <= m < q1.len() && q1[m] == e;
            if m == 0 {
                assert(clock_lt(q2[0].2, q2[i + 1].2));
                crate::vector_clock::lemma_lex_reflexive(q2[0].2.vals, 0, n as int);
            } else {
                assert(t1[m - 1] == e);
                assert(t1.contains(e));
            }
        }
        assert forall|i: int, j2: int| 0 <= i < j2 < t1.len() implies clock_lt(
            (#[trigger] t1[i]).2,
            (#[trigger] t1[j2]).2,
        ) by {
            assert(t1[i] == q1[i + 1] && t1[j2] == q1[j2 + 1]);
        }
        assert forall|i: int, j2: int| 0 <= i < j2 < t2.len() implies clock_lt(
            (#[trigger] t2[i]).2,
            (#[trigger] t2[j2]).2,
        ) by {
            assert(t2[i] == q2[i + 1] && t2[j2] == q2[j2 + 1]);
        }
        assert forall|i: int| 0 <= i < t1.len() implies (#[trigger] t1[i]).2.size == n by {
            assert(t1[i] == q1[i + 1]);
        }
        assert forall|i: int| 0 <= i < t2.len() implies (#[trigger] t2[i]).2.size == n by {
            assert(t2[i] == q2[i + 1]);
        }
        lemma_sorted_queues_agree(t1, t2, n);
        assert(q1.len() == t1.len() + 1);
        assert(q2.len() == t2.len() + 1);
        assert forall|i: int| 0 <= i < q1.len() implies q1[i] == q2[i] by {
            if i > 0 {
                assert(q1[i] == t1[i - 1]);
                assert(q2[i] == t2[i - 1]);
            }
        }
        assert(q1 =~= q2);
    }
}

proof fn lemma_best_index_charact(q: Seq<EntryV>, bound: ClockV, i: int, best: Option<int>, n: nat)
    requires
        forall|j: int| 0 <= j < q.len() ==> (#[trigger] q[j]).2.size == n,
        0 <= i <= q.len(),
        match best {
            Option::Some(k) => 0 <= k < i && clock_lt(q[k].2, bound) && (forall|j: int|
                0 <= j < i && clock_lt((#[trigger] q[j]).2, bound) ==> !clock_lt(q[j].2, q[k].2)),
            Option::None => forall|j: int| 0 <= j < i ==> !clock_lt((#[trigger] q[j]).2, bound),
        },
    ensures
        match best_index_from(q, bound, i, best) {
            Option::Some(k) => 0 <= k < q.len() && clock_lt(q[k].2, bound) && (forall|j: int|
                0 <= j < q.len() && clock_lt((#[trigger] q[j]).2, bound) ==> !clock_lt(
                    q[j].2,
                    q[k].2,
                )),
            Option::None => forall|j: int| 0 <= j < q.len() ==> !clock_lt((#[trigger] q[j]).2, bound),
        },
    decreases q.len() - i,
{
    if i < q.len() {
        let better = match best {
            Option::Some(k) => clock_lt(q[i].2, bound) && clock_lt(q[i].2, q[k].2),
            Option::None => clock_lt(q[i].2, bound),
        };
        let next = if better {
            Option::Some(i)
        } else {
            best
        };
        match next {
            Option::Some(k2) => {
                assert forall|j: int|
                    0 <= j < i + 1 && clock_lt((#[trigger] q[j]).2, bound) implies !clock_lt(
                    q[j].2,
                    q[k2].2,
                ) by {
                    crate::vector_clock::lemma_lex_reflexive(q[j].2.vals, 0, n as int);
                    if better {
                        match best {
                            Option::Some(k) => {
                                if j < i && clock_lt(q[j].2, q[i].2) {
                                    lemma_lex_transitive_lt(
                                        q[j].2.vals,
                                        q[i].2.vals,
                                        q[k].2.vals,
                                        0,
                                        n as int,
                                    );
                                }
                            },
                            Option::None => {},
                        }
                    }
                }
            },
            Option::None => {},
        }
        lemma_best_index_charact(q, bound, i + 1, next, n);
    }
}

/// Law: what `dequeue` commits. A returned entry lies below the bound and
/// no queued entry below the bound beats it; nothing is returned exactly
/// when no entry lies below the bound, and then the queue is unchanged.
pub proof fn lemma_dequeue_min(q: Seq<EntryV>, bound: ClockV, n: nat)
    requires
        forall|j: int| 0 <= j < q.len() ==> (#[trigger] q[j]).2.size == n,
    ensures
        match dequeue_v(q, bound).0 {
            Option::Some(e) => q.contains(e) && clock_lt(e.2, bound) && dequeue_v(q, bound).1.len()
                + 1 == q.len() && (forall|j: int|
                0 <= j < q.len() && clock_lt((#[trigger] q[j]).2, bound) ==> !clock_lt(
                    q[j].2,
                    e.2,
                )),
            Option::None => dequeue_v(q, bound).1 == q && (forall|j: int|
                0 <= j < q.len() ==> !clock_lt((#[trigger] q[j]).2, bound)),
        },
{
    lemma_best_index_charact(q, bound, 0, Option::None, n);
    match best_index_from(q, bound, 0, Option::<int>::None) {
        Option::Some(k) => {
            assert(q[k] == dequeue_v(q, bound).0->Some_0);
            assert(q.contains(q[k]));
        },
        Option::None => {},
    }
}

/// Law: what an insert adds. The queue after `ordered_insert` holds exactly
/// the old entries plus the new one; with the agreement law this makes the
/// local queue a function of the set of enqueues a peer has received.
pub proof fn lemma_queue_insert_contents(q: Seq<EntryV>, e: EntryV)
    ensures
        queue_insert(q, e).len() == q.len() + 1,
        forall|x: EntryV| queue_insert(q, e).contains(x) <==> (q.contains(x) || x == e),
{
    let pos = first_gt_from(q, e.2, 0);
    lemma_first_gt_bounds(q, e.2, 0);
    let r = queue_insert(q, e);
    assert forall|x: EntryV| r.contains(x) implies (q.contains(x) || x == e) by {
        let i = choose|i: int| 0 <= i < r.len() && r[i] == x;
        if i < pos {
            assert(q[i] == x);
            assert(q.contains(x));
        } else if i == pos {
            assert(r[i] == e);
        } else {
            assert(q[i - 1] == x);
            assert(q.contains(x));
        }
    }
    assert forall|x: EntryV| (q.contains(x) || x == e) implies r.contains(x) by {
        if x == e {
            assert(r[pos] == e);
            assert(r.contains(x));
        } else {
            let i = choose|i: int| 0 <= i < q.len() && q[i] == x;
            if i < pos {
                assert(r[i] == x);
            } else {
                assert(r[i + 1] == x);
            }
            assert(r.contains(x));
        }
    }
}

} // verus!
