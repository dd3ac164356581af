use vstd::prelude::*;

verus! {

use core::cmp::Ordering;
use vstd::pervasive::VecAdditionalExecFns;
use crate::vector_clock::{
    ClockV,
    VectorClock,
    MAX_PEERS,
    clock_eq,
    clock_inc,
    clock_lt,
    clock_merge,
    zero_clock_vals,
    lemma_lex_reflexive,
};
use crate::payload::{
    placeholder_msg_v,
    MessagePayload,
    MsgV,
    MSG_ENQ_INVOKE,
    MSG_ENQ_REQ,
    MSG_ENQ_ACK,
    MSG_DEQ_INVOKE,
    MSG_DEQ_REQ,
    MSG_DEQ_ACK,
};

/// One local-queue entry: the enqueued value, the invoking rank and the
/// enqueue timestamp.
pub type Entry = (i32, i32, VectorClock);

/// Model of an entry.
pub type EntryV = (i32, i32, ClockV);

pub open spec fn entry_view(e: Entry) -> EntryV {
    (e.0, e.1, e.2@)
}

/// Per-dequeue record tracking which peers have acknowledged. The flag
/// array has fixed capacity; only the prefix `[0, size)` is live.
#[derive(Clone, Copy)]
pub struct ConfirmationList {
    pub response_buffer: [i32; MAX_PEERS],
    pub size: usize,
    pub ts: VectorClock,
    pub invoker: i32,
    pub handled: bool,
}

/// Mathematical model of a confirmation list.
#[verifier::ext_equal]
pub ghost struct ClV {
    pub flags: Seq<i32>,
    pub size: nat,
    pub ts: ClockV,
    pub invoker: i32,
    pub handled: bool,
}

impl View for ConfirmationList {
    type V = ClV;

    open spec fn view(&self) -> ClV {
        ClV {
            flags: self.response_buffer@,
            size: self.size as nat,
            ts: self.ts@,
            invoker: self.invoker,
            handled: self.handled,
        }
    }
}

impl ClV {
    pub open spec fn wf(self, n: int) -> bool {
        &&& self.flags.len() == MAX_PEERS
        &&& self.size == n
        &&& self.ts.wf()
        &&& self.ts.size == n
        &&& forall|c: int|
            0 <= c < MAX_PEERS ==> (#[trigger] self.flags[c] == 0 || self.flags[c] == 1)
    }

    /// Full: every live flag is set.
    pub open spec fn is_full_v(self) -> bool {
        forall|c: int| 0 <= c < self.size ==> #[trigger] self.flags[c] == 1
    }
}

/// A fresh confirmation list: all flags clear, not yet handled.
pub open spec fn cl_new_v(size: nat, ts: ClockV, invoker: i32) -> ClV {
    ClV { flags: zero_clock_vals(), size: size, ts: ts, invoker: invoker, handled: false }
}

/// The same list with one flag set.
pub open spec fn cl_set_flag(cl: ClV, c: int) -> ClV {
    ClV { flags: cl.flags.update(c, 1), ..cl }
}

impl ConfirmationList {
    /// A fresh list for a dequeue at `deq_ts` invoked by `deq_invoker`.
    pub fn new(size: i32, deq_ts: VectorClock, deq_invoker: i32) -> (r: Self)
        requires
            0 <= size <= MAX_PEERS,
        ensures
            r@ == cl_new_v(size as nat, deq_ts@, deq_invoker),
    {
        let r = ConfirmationList {
            response_buffer: [0; MAX_PEERS],
            size: size as usize,
            ts: deq_ts,
            invoker: deq_invoker,
            handled: false,
        };
        proof {
            assert(r@.flags =~= zero_clock_vals());
            assert(r@ =~= cl_new_v(size as nat, deq_ts@, deq_invoker));
        }
        r
    }

    /// Whether every live flag is set.
    pub fn is_full(&self) -> (r: bool)
        requires
            self@.size <= MAX_PEERS,
        ensures
            r == self@.is_full_v(),
    {
        let mut c: usize = 0;
        while c < self.size
            invariant
                c <= self.size <= MAX_PEERS,
                forall|j: int| 0 <= j < c ==> #[trigger] self.response_buffer@[j] == 1,
            decreases self.size - c,
        {
            if self.response_buffer[c] != 1 {
                assert(self@.flags[c as int] != 1);
                return false;
            }
            c = c + 1;
        }
        true
    }
}

/// Views of the collections a peer owns.
pub open spec fn cls_view(v: Seq<ConfirmationList>) -> Seq<ClV> {
    Seq::new(v.len(), |i: int| v[i]@)
}

pub open spec fn msgs_view(v: Seq<MessagePayload>) -> Seq<MsgV> {
    Seq::new(v.len(), |i: int| v[i]@)
}

pub open spec fn entries_view(v: Seq<Entry>) -> Seq<EntryV> {
    Seq::new(v.len(), |i: int| entry_view(v[i]))
}

/// Mathematical model of a peer's state.
#[verifier::ext_equal]
pub ghost struct PdV {
    pub rank: i32,
    pub world_size: i32,
    pub timestamp: ClockV,
    pub enq_count: i32,
    pub pending: Seq<ClV>,
    pub buffer: Seq<MsgV>,
    pub history: Seq<MsgV>,
    pub queue: Seq<EntryV>,
    pub locked: bool,
}

/// The state a peer holds for the replicated queue.
pub struct ProcessData {
    pub rank: i32,
    pub world_size: i32,
    pub timestamp: VectorClock,
    pub enq_count: i32,
    pub pending_dequeues: Vec<ConfirmationList>,
    pub message_buffer: Vec<MessagePayload>,
    pub message_history: Vec<MessagePayload>,
    pub local_queue: Vec<Entry>,
    pub locked: bool,
}

impl View for ProcessData {
    type V = PdV;

    open spec fn view(&self) -> PdV {
        PdV {
            rank: self.rank,
            world_size: self.world_size,
            timestamp: self.timestamp@,
            enq_count: self.enq_count,
            pending: cls_view(self.pending_dequeues@),
            buffer: msgs_view(self.message_buffer@),
            history: msgs_view(self.message_history@),
            queue: entries_view(self.local_queue@),
            locked: self.locked,
        }
    }
}

/// Queue timestamps strictly ascending.
pub open spec fn queue_sorted_v(q: Seq<EntryV>) -> bool {
    forall|i: int, j: int|
        0 <= i < j < q.len() ==> clock_lt((#[trigger] q[i]).2, (#[trigger] q[j]).2)
}

/// Pending timestamps strictly ascending, hence distinct.
pub open spec fn pending_sorted_v(p: Seq<ClV>) -> bool {
    forall|i: int, j: int|
        0 <= i < j < p.len() ==> clock_lt((#[trigger] p[i]).ts, (#[trigger] p[j]).ts)
}

/// Column-monotone: a flag set in an entry is set in every earlier entry.
pub open spec fn pending_monotone_v(p: Seq<ClV>) -> bool {
    forall|i: int, j: int, c: int|
        0 <= j < i < p.len() && 0 <= c < MAX_PEERS && (#[trigger] p[i].flags[c]) == 1 ==> (
        #[trigger] p[j].flags[c]) == 1
}

impl PdV {
    pub open spec fn wf(self) -> bool {
        &&& 0 <= self.rank < self.world_size <= MAX_PEERS
        &&& self.timestamp.wf()
        &&& self.timestamp.size == self.world_size
        &&& forall|i: int|
            0 <= i < self.queue.len() ==> (#[trigger] self.queue[i].2).wf() && self.queue[i].2.size
                == self.world_size
        &&& forall|i: int|
            0 <= i < self.pending.len() ==> (#[trigger] self.pending[i]).wf(self.world_size as int)
    }

    /// Local-queue timestamps strictly ascending.
    pub open spec fn queue_sorted(self) -> bool {
        queue_sorted_v(self.queue)
    }

    /// Pending-dequeue timestamps strictly ascending, hence distinct.
    pub open spec fn pending_sorted(self) -> bool {
        pending_sorted_v(self.pending)
    }

    /// Column-monotone: a flag set in an entry is set in every earlier entry.
    pub open spec fn pending_monotone(self) -> bool {
        pending_monotone_v(self.pending)
    }
}

/// First queue position whose stored timestamp is strictly greater than
/// `ts`, scanning from `i`; the length if none is.
pub open spec fn first_gt_from(q: Seq<EntryV>, ts: ClockV, i: int) -> int
    decreases q.len() - i,
{
    if i < 0 || i >= q.len() {
        i
    } else if clock_lt(ts, q[i].2) {
        i
    } else {
        first_gt_from(q, ts, i + 1)
    }
}

/// The queue with an entry placed at the first strictly-greater position.
pub open spec fn queue_insert(q: Seq<EntryV>, e: EntryV) -> Seq<EntryV> {
    q.insert(first_gt_from(q, e.2, 0), e)
}

/// First pending position whose timestamp is not below `ts`, scanning from
/// `i`; the length if none is.
pub open spec fn pending_insert_pos_from(p: Seq<ClV>, ts: ClockV, i: int) -> int
    decreases p.len() - i,
{
    if i < 0 || i >= p.len() {
        i
    } else if clock_lt(p[i].ts, ts) {
        pending_insert_pos_from(p, ts, i + 1)
    } else {
        i
    }
}

/// Whether some pending entry has this timestamp.
pub open spec fn contains_ts(p: Seq<ClV>, ts: ClockV) -> bool {
    exists|i: int| 0 <= i < p.len() && clock_eq((#[trigger] p[i]).ts, ts)
}

/// Index of the first pending entry with this timestamp, scanning from `i`.
pub open spec fn find_ts_from(p: Seq<ClV>, ts: ClockV, i: int) -> int
    decreases p.len() - i,
{
    if i < 0 || i >= p.len() {
        i
    } else if clock_eq(p[i].ts, ts) {
        i
    } else {
        find_ts_from(p, ts, i + 1)
    }
}

/// The pending list after a request at `ts`: unchanged when the timestamp
/// is already present, else a fresh list inserted in timestamp order.
pub open spec fn pending_add(p: Seq<ClV>, ws: nat, ts: ClockV, invoker: i32) -> Seq<ClV> {
    if contains_ts(p, ts) {
        p
    } else {
        p.insert(pending_insert_pos_from(p, ts, 0), cl_new_v(ws, ts, invoker))
    }
}

pub proof fn lemma_first_gt_bounds(q: Seq<EntryV>, ts: ClockV, i: int)
    requires
        0 <= i <= q.len(),
    ensures
        i <= first_gt_from(q, ts, i) <= q.len(),
        forall|j: int| i <= j < first_gt_from(q, ts, i) ==> !clock_lt(ts, (#[trigger] q[j]).2),
        first_gt_from(q, ts, i) < q.len() ==> clock_lt(ts, q[first_gt_from(q, ts, i)].2),
    decreases q.len() - i,
{
    if i < q.len() && !clock_lt(ts, q[i].2) {
        lemma_first_gt_bounds(q, ts, i + 1);
    }
}

pub proof fn lemma_pending_pos_bounds(p: Seq<ClV>, ts: ClockV, i: int)
    requires
        0 <= i <= p.len(),
    ensures
        i <= pending_insert_pos_from(p, ts, i) <= p.len(),
        forall|j: int|
            i <= j < pending_insert_pos_from(p, ts, i) ==> clock_lt((#[trigger] p[j]).ts, ts),
        pending_insert_pos_from(p, ts, i) < p.len() ==> !clock_lt(
            p[pending_insert_pos_from(p, ts, i)].ts,
            ts,
        ),
    decreases p.len() - i,
{
    if i < p.len() && clock_lt(p[i].ts, ts) {
        lemma_pending_pos_bounds(p, ts, i + 1);
    }
}

pub proof fn lemma_find_ts_bounds(p: Seq<ClV>, ts: ClockV, i: int)
    requires
        0 <= i <= p.len(),
    ensures
        i <= find_ts_from(p, ts, i) <= p.len(),
        forall|j: int| i <= j < find_ts_from(p, ts, i) ==> !clock_eq((#[trigger] p[j]).ts, ts),
        find_ts_from(p, ts, i) < p.len() ==> clock_eq(p[find_ts_from(p, ts, i)].ts, ts),
    decreases p.len() - i,
{
    if i < p.len() && !clock_eq(p[i].ts, ts) {
        lemma_find_ts_bounds(p, ts, i + 1);
    }
}

impl ProcessData {
    /// A peer at startup: zeroed clock of the world's size, empty
    /// collections, unlocked.
    pub fn new(rank: i32, size: i32) -> (r: Self)
        requires
            0 <= rank < size <= MAX_PEERS,
        ensures
            r@ == (PdV {
                rank: rank,
                world_size: size,
                timestamp: ClockV { vals: zero_clock_vals(), size: size as nat },
                enq_count: 0,
                pending: Seq::empty(),
                buffer: Seq::new(size as nat, |i: int| placeholder_msg_v(-1i32)),
                history: Seq::empty(),
                queue: Seq::empty(),
                locked: false,
            }),
            r@.wf(),
            r@.queue_sorted(),
            r@.pending_sorted(),
            r@.pending_monotone(),
    {
        let mut buffer: Vec<MessagePayload> = Vec::new();
        let mut i: i32 = 0;
        while i < size
            invariant
                0 <= i <= size,
                buffer@.len() == i as nat,
                forall|j: int| 0 <= j < i ==> (#[trigger] buffer@[j])@ == placeholder_msg_v(-1i32),
            decreases size - i,
        {
            buffer.push(MessagePayload::with_msg(-1));
            i = i + 1;
        }
        proof {
            assert(msgs_view(buffer@) =~= Seq::new(size as nat, |j: int| placeholder_msg_v(-1i32)));
        }
        let r = ProcessData {
            rank,
            world_size: size,
            timestamp: VectorClock::new(size),
            enq_count: 0,
            pending_dequeues: Vec::new(),
            message_buffer: buffer,
            message_history: Vec::new(),
            local_queue: Vec::new(),
            locked: false,
        };
        proof {
            assert(cls_view(r.pending_dequeues@) =~= Seq::<ClV>::empty());
            assert(msgs_view(r.message_history@) =~= Seq::<MsgV>::empty());
            assert(entries_view(r.local_queue@) =~= Seq::<EntryV>::empty());
            assert(r@ =~= (PdV {
                rank: rank,
                world_size: size,
                timestamp: ClockV { vals: zero_clock_vals(), size: size as nat },
                enq_count: 0,
                pending: Seq::empty(),
                buffer: Seq::new(size as nat, |i: int| placeholder_msg_v(-1i32)),
                history: Seq::empty(),
                queue: Seq::empty(),
                locked: false,
            }));
        }
        r
    }

    /// Advance this peer's own counter in its clock.
    pub fn increment_ts(&mut self)
        requires
            old(self)@.wf(),
            old(self)@.timestamp.vals[old(self)@.rank as int] < i32::MAX,
        ensures
            final(self)@ == (PdV {
                timestamp: clock_inc(old(self)@.timestamp, old(self)@.rank as int),
                ..old(self)@
            }),
    {
        let rank = self.rank;
        self.timestamp.increment(rank as usize);
        proof {
            assert(final(self)@ =~= (PdV {
                timestamp: clock_inc(old(self)@.timestamp, old(self)@.rank as int),
                ..old(self)@
            }));
        }
    }

    /// Merge an inbound clock into this peer's clock.
    pub fn update_ts(&mut self, v_j: &VectorClock)
        requires
            old(self)@.wf(),
            v_j@.size == old(self)@.world_size,
        ensures
            final(self)@ == (PdV {
                timestamp: clock_merge(old(self)@.timestamp, v_j@),
                ..old(self)@
            }),
    {
        self.timestamp.merge(v_j);
        proof {
            assert(final(self)@ =~= (PdV {
                timestamp: clock_merge(old(self)@.timestamp, v_j@),
                ..old(self)@
            }));
        }
    }

    /// Whether some pending dequeue carries this timestamp.
    pub fn contains_timestamp(&self, target: &VectorClock) -> (r: bool)
        requires
            self@.wf(),
        ensures
            r == contains_ts(self@.pending, target@),
    {
        let mut i: usize = 0;
        while i < self.pending_dequeues.len()
            invariant
                self@.wf(),
                i <= self.pending_dequeues.len(),
                forall|j: int| 0 <= j < i ==> !clock_eq((#[trigger] self@.pending[j]).ts, target@),
            decreases self.pending_dequeues.len() - i,
        {
            let cl = self.pending_dequeues[i];
            proof {
                assert(cl@ == self@.pending[i as int]);
                assert(self@.pending[i as int].wf(self@.world_size as int));
            }
            if matches!(cl.ts.compare(target), Ordering::Equal) {
                assert(clock_eq(self@.pending[i as int].ts, target@));
                return true;
            }
            i = i + 1;
        }
        false
    }

    /// Insert an entry into the local queue at the first position whose
    /// stored timestamp is strictly greater.
    /// First local-queue position holding a timestamp strictly greater
    /// than `value`.
    fn find_insert_position(&self, value: &VectorClock) -> (pos: usize)
        requires
            self@.wf(),
            value@.wf(),
        ensures
            pos as int == first_gt_from(self@.queue, value@, 0),
            pos <= self.local_queue.len(),
    {
        let ghost qv = self@.queue;
        let mut pos: usize = 0;
        while pos < self.local_queue.len()
            invariant
                self@.wf(),
                value@.wf(),
                pos <= self.local_queue.len(),
                qv == self@.queue,
                first_gt_from(qv, value@, 0) == first_gt_from(qv, value@, pos as int),
            decreases self.local_queue.len() - pos,
        {
            let stored = self.local_queue[pos];
            proof {
                assert(entry_view(stored) == self@.queue[pos as int]);
            }
            if matches!(value.compare(&stored.2), Ordering::Less) {
                return pos;
            }
            pos = pos + 1;
        }
        pos
    }

    /// First pending position whose timestamp is not below `ts`.
    fn find_pending_position(&self, ts: &VectorClock) -> (pos: usize)
        requires
            self@.wf(),
        ensures
            pos as int == pending_insert_pos_from(self@.pending, ts@, 0),
            pos <= self.pending_dequeues.len(),
    {
        let ghost pv = self@.pending;
        let mut pos: usize = 0;
        while pos < self.pending_dequeues.len()
            invariant
                self@.wf(),
                pos <= self.pending_dequeues.len(),
                pv == self@.pending,
                pending_insert_pos_from(pv, ts@, 0) == pending_insert_pos_from(
                    pv,
                    ts@,
                    pos as int,
                ),
            decreases self.pending_dequeues.len() - pos,
        {
            let cl = self.pending_dequeues[pos];
            proof {
                assert(cl@ == self@.pending[pos as int]);
                assert(self@.pending[pos as int].wf(self@.world_size as int));
            }
            if !matches!(cl.ts.compare(ts), Ordering::Less) {
                return pos;
            }
            pos = pos + 1;
        }
        pos
    }

    pub fn ordered_insert(&mut self, value: Entry)
        requires
            old(self)@.wf(),
            value.2@.wf(),
        ensures
            final(self)@ == (PdV {
                queue: queue_insert(old(self)@.queue, entry_view(value)),
                ..old(self)@
            }),
    {
        let ghost qv = self@.queue;
        let pos = self.find_insert_position(&value.2);
        self.local_queue.insert(pos, value);
        proof {
            assert(entries_view(self.local_queue@) =~= qv.insert(pos as int, entry_view(value)));
            assert(final(self)@ =~= (PdV {
                queue: queue_insert(old(self)@.queue, entry_view(value)),
                ..old(self)@
            }));
        }
    }

    /// Insert a confirmation list into the pending dequeues, keyed by its
    /// timestamp.
    pub fn insert_by_ts(&mut self, new_cl: ConfirmationList)
        requires
            old(self)@.wf(),
        ensures
            final(self)@ == (PdV {
                pending: old(self)@.pending.insert(
                    pending_insert_pos_from(old(self)@.pending, new_cl@.ts, 0),
                    new_cl@,
                ),
                ..old(self)@
            }),
    {
        let ghost pv = self@.pending;
        let pos = self.find_pending_position(&new_cl.ts);
        self.pending_dequeues.insert(pos, new_cl);
        proof {
            assert(cls_view(self.pending_dequeues@) =~= pv.insert(pos as int, new_cl@));
            assert(final(self)@ =~= (PdV {
                pending: old(self)@.pending.insert(
                    pending_insert_pos_from(old(self)@.pending, new_cl@.ts, 0),
                    new_cl@,
                ),
                ..old(self)@
            }));
        }
    }
}

/// One backward-sweep row: every flag set in `upper` is copied into
/// `lower`.
pub open spec fn row_or(lower: ClV, upper: ClV) -> ClV {
    ClV {
        flags: Seq::new(
            lower.flags.len(),
            |c: int| if upper.flags[c] != 0 && lower.flags[c] == 0 {
                upper.flags[c]
            } else {
                lower.flags[c]
            },
        ),
        ..lower
    }
}

/// The backward sweep from `row` down to 1, each step folding row `r` into
/// row `r - 1`.
pub open spec fn sweep_down(p: Seq<ClV>, row: int) -> Seq<ClV>
    decreases row,
{
    if row <= 0 || row >= p.len() {
        p
    } else {
        sweep_down(p.update(row - 1, row_or(p[row - 1], p[row])), row - 1)
    }
}

/// The pending list after `propagate_earlier_responses`.
pub open spec fn propagated(p: Seq<ClV>) -> Seq<ClV> {
    sweep_down(p, p.len() - 1)
}

/// The index of the best candidate for `dequeue`: scanning from `i` with
/// current best `best`, the first entry below `bound` that every later
/// candidate must strictly beat.
pub open spec fn best_index_from(q: Seq<EntryV>, bound: ClockV, i: int, best: Option<int>) -> Option<
    int,
>
    decreases q.len() - i,
{
    if i < 0 || i >= q.len() {
        best
    } else {
        let better = match best {
            Option::Some(k) => clock_lt(q[i].2, bound) && clock_lt(q[i].2, q[k].2),
            Option::None => clock_lt(q[i].2, bound),
        };
        best_index_from(q, bound, i + 1, if better {
            Option::Some(i)
        } else {
            best
        })
    }
}

/// Remove and return the entry with the smallest timestamp strictly below
/// `bound`; the queue is unchanged when no entry qualifies.
pub open spec fn dequeue_v(q: Seq<EntryV>, bound: ClockV) -> (Option<EntryV>, Seq<EntryV>) {
    match best_index_from(q, bound, 0, Option::None) {
        Option::Some(k) => (Option::Some(q[k]), q.remove(k)),
        Option::None => (Option::None, q),
    }
}

pub proof fn lemma_best_index_bounds(q: Seq<EntryV>, bound: ClockV, i: int, best: Option<int>)
    requires
        0 <= i <= q.len(),
        match best {
            Option::Some(k) => 0 <= k < i,
            Option::None => true,
        },
    ensures
        match best_index_from(q, bound, i, best) {
            Option::Some(k) => 0 <= k < q.len(),
            Option::None => best is None,
        },
    decreases q.len() - i,
{
    if i < q.len() {
        let better = match best {
            Option::Some(k) => clock_lt(q[i].2, bound) && clock_lt(q[i].2, q[k].2),
            Option::None => clock_lt(q[i].2, bound),
        };
        lemma_best_index_bounds(q, bound, i + 1, if better {
            Option::Some(i)
        } else {
            best
        });
    }
}

impl ProcessData {
    /// Remove and return the entry with the smallest timestamp strictly
    /// below `ts`; nothing if no entry qualifies.
    pub fn dequeue(&mut self, ts: VectorClock) -> (r: Option<Entry>)
        requires
            old(self)@.wf(),
        ensures
            final(self)@ == (PdV { queue: dequeue_v(old(self)@.queue, ts@).1, ..old(self)@ }),
            match r {
                Option::Some(e) => dequeue_v(old(self)@.queue, ts@).0 == Option::Some(
                    entry_view(e),
                ),
                Option::None => dequeue_v(old(self)@.queue, ts@).0 is None,
            },
    {
        let ghost qv = self@.queue;
        let mut oldest: Option<usize> = None;
        let mut index: usize = 0;
        while index < self.local_queue.len()
            invariant
                self@.wf(),
                qv == self@.queue,
                index <= self.local_queue.len(),
                match oldest {
                    Option::Some(k) => k < index && best_index_from(qv, ts@, 0, Option::None)
                        == best_index_from(qv, ts@, index as int, Option::Some(k as int)),
                    Option::None => best_index_from(qv, ts@, 0, Option::None) == best_index_from(
                        qv,
                        ts@,
                        index as int,
                        Option::None,
                    ),
                },
            decreases self.local_queue.len() - index,
        {
            let element = self.local_queue[index];
            proof {
                assert(entry_view(element) == qv[index as int]);
                assert(qv[index as int].2.wf());
            }
            let qualifies = matches!(element.2.compare(&ts), Ordering::Less);
            let better = match oldest {
                Option::Some(k) => {
                    if qualifies {
                        let b = self.local_queue[k];
                        proof {
                            assert(entry_view(b) == qv[k as int]);
                        }
                        matches!(element.2.compare(&b.2), Ordering::Less)
                    } else {
                        false
                    }
                },
                Option::None => qualifies,
            };
            if better {
                oldest = Some(index);
            }
            index = index + 1;
        }
        match oldest {
            Option::Some(k) => {
                proof {
                    lemma_best_index_bounds(qv, ts@, 0, Option::None);
                }
                let e = self.local_queue.remove(k);
                proof {
                    assert(entries_view(self.local_queue@) =~= qv.remove(k as int));
                    assert(final(self)@ =~= (PdV {
                        queue: dequeue_v(old(self)@.queue, ts@).1,
                        ..old(self)@
                    }));
                }
                Some(e)
            },
            Option::None => {
                proof {
                    assert(final(self)@ =~= (PdV {
                        queue: dequeue_v(old(self)@.queue, ts@).1,
                        ..old(self)@
                    }));
                }
                None
            },
        }
    }

    /// Backward sweep enforcing column-monotonicity: every flag set in an
    /// entry is also set in all entries before it.
    pub fn propagate_earlier_responses(&mut self)
        ensures
            final(self)@ == (PdV { pending: propagated(old(self)@.pending), ..old(self)@ }),
    {
        let ghost pv0 = self@.pending;
        let n = self.pending_dequeues.len();
        if n == 0 {
            proof {
                assert(final(self)@ =~= (PdV {
                    pending: propagated(old(self)@.pending),
                    ..old(self)@
                }));
            }
            return ;
        }
        let mut row = n - 1;
        while row >= 1
            invariant
                row <= n - 1,
                n == self.pending_dequeues.len(),
                sweep_down(pv0, n - 1) == sweep_down(self@.pending, row as int),
                self@ =~= (PdV { pending: self@.pending, ..old(self)@ }),
            decreases row,
        {
            let ghost pv = self@.pending;
            let upper = self.pending_dequeues[row];
            let mut lower = self.pending_dequeues[row - 1];
            proof {
                assert(upper@ == pv[row as int]);
                assert(lower@ == pv[row as int - 1]);
            }
            let ghost lower0 = lower@;
            proof {
                assert(lower0.flags.len() == MAX_PEERS);
            }
            let mut col: usize = 0;
            while col < MAX_PEERS
                invariant
                    col <= MAX_PEERS,
                    lower0.flags.len() == MAX_PEERS,
                    lower.response_buffer@.len() == MAX_PEERS,
                    lower@.size == lower0.size,
                    lower@.ts == lower0.ts,
                    lower@.invoker == lower0.invoker,
                    lower@.handled == lower0.handled,
                    upper@.flags.len() == MAX_PEERS,
                    forall|j: int|
                        0 <= j < col ==> lower.response_buffer@[j] == row_or(
                            lower0,
                            upper@,
                        ).flags[j],
                    forall|j: int|
                        col <= j < MAX_PEERS ==> lower.response_buffer@[j] == lower0.flags[j],
                decreases MAX_PEERS - col,
            {
                if upper.response_buffer[col] != 0 && lower.response_buffer[col] == 0 {
                    lower.response_buffer[col] = upper.response_buffer[col];
                }
                col = col + 1;
            }
            proof {
                assert(lower@.flags =~= row_or(lower0, upper@).flags);
                assert(lower@ =~= row_or(lower0, upper@));
            }
            self.pending_dequeues.set(row - 1, lower);
            proof {
                assert(cls_view(self.pending_dequeues@) =~= pv.update(
                    row as int - 1,
                    row_or(pv[row as int - 1], pv[row as int]),
                ));
                assert(sweep_down(pv, row as int) == sweep_down(self@.pending, row as int - 1));
            }
            row = row - 1;
        }
        proof {
            assert(sweep_down(self@.pending, 0) == self@.pending);
            assert(final(self)@ =~= (PdV { pending: propagated(old(self)@.pending), ..old(self)@ }));
        }
    }

    /// Index of the confirmation list carrying `ts`.
    fn find_ts_index(&self, ts: &VectorClock) -> (k: usize)
        requires
            self@.wf(),
            contains_ts(self@.pending, ts@),
        ensures
            k as int == find_ts_from(self@.pending, ts@, 0),
            k < self.pending_dequeues.len(),
            clock_eq(self@.pending[k as int].ts, ts@),
    {
        let ghost pv = self@.pending;
        let mut k: usize = 0;
        while k < self.pending_dequeues.len()
            invariant
                self@.wf(),
                contains_ts(pv, ts@),
                pv == self@.pending,
                k <= self.pending_dequeues.len(),
                find_ts_from(pv, ts@, 0) == find_ts_from(pv, ts@, k as int),
                forall|j: int| 0 <= j < k ==> !clock_eq((#[trigger] pv[j]).ts, ts@),
            decreases self.pending_dequeues.len() - k,
        {
            let cl = self.pending_dequeues[k];
            proof {
                assert(cl@ == pv[k as int]);
                assert(pv[k as int].wf(self@.world_size as int));
            }
            if matches!(cl.ts.compare(ts), Ordering::Equal) {
                return k;
            }
            k = k + 1;
        }
        proof {
            let i = choose|i: int| 0 <= i < pv.len() && clock_eq(pv[i].ts, ts@);
            assert(false);
        }
        0
    }

    /// Set one response flag in one pending entry.
    fn set_flag_at(&mut self, i: usize, c: usize)
        requires
            i < old(self).pending_dequeues.len(),
            c < MAX_PEERS,
        ensures
            final(self)@ == (PdV {
                pending: old(self)@.pending.update(
                    i as int,
                    cl_set_flag(old(self)@.pending[i as int], c as int),
                ),
                ..old(self)@
            }),
            final(self).pending_dequeues@.len() == old(self).pending_dequeues@.len(),
    {
        let mut cl = self.pending_dequeues[i];
        proof {
            assert(cl@ == old(self)@.pending[i as int]);
        }
        cl.response_buffer[c] = 1;
        self.pending_dequeues.set(i, cl);
        proof {
            assert(cl@ =~= cl_set_flag(old(self)@.pending[i as int], c as int));
            assert(cls_view(self.pending_dequeues@) =~= old(self)@.pending.update(
                i as int,
                cl_set_flag(old(self)@.pending[i as int], c as int),
            ));
            assert(final(self)@ =~= (PdV {
                pending: old(self)@.pending.update(
                    i as int,
                    cl_set_flag(old(self)@.pending[i as int], c as int),
                ),
                ..old(self)@
            }));
        }
    }

    /// Mark one pending entry handled.
    fn mark_handled_at(&mut self, i: usize)
        requires
            i < old(self).pending_dequeues.len(),
        ensures
            final(self)@ == (PdV {
                pending: old(self)@.pending.update(
                    i as int,
                    (ClV { handled: true, ..old(self)@.pending[i as int] }),
                ),
                ..old(self)@
            }),
            final(self).pending_dequeues@.len() == old(self).pending_dequeues@.len(),
    {
        let mut cl = self.pending_dequeues[i];
        proof {
            assert(cl@ == old(self)@.pending[i as int]);
        }
        cl.handled = true;
        self.pending_dequeues.set(i, cl);
        proof {
            assert(cl@ =~= (ClV { handled: true, ..old(self)@.pending[i as int] }));
            assert(cls_view(self.pending_dequeues@) =~= old(self)@.pending.update(
                i as int,
                (ClV { handled: true, ..old(self)@.pending[i as int] }),
            ));
            assert(final(self)@ =~= (PdV {
                pending: old(self)@.pending.update(
                    i as int,
                    (ClV { handled: true, ..old(self)@.pending[i as int] }),
                ),
                ..old(self)@
            }));
        }
    }
}

/// What a peer reports to its environment while applying a payload.
#[derive(Clone, Copy, PartialEq, Eq, Structural, Debug)]
pub enum Report {
    /// Every peer acknowledged the enqueue in flight; the peer unlocked.
    EnqueueComplete,
    /// A dequeue this peer invoked committed with this value (-1 when the
    /// queue held nothing eligible).
    DequeueReturned(i32),
}

/// What applying one payload hands back: payloads to dispatch and
/// operations to report.
pub struct StepOutput {
    pub to_send: Vec<MessagePayload>,
    pub reports: Vec<Report>,
}

/// Model of a whole step: the successor state, the outbound payloads and
/// the reports.
#[verifier::ext_equal]
pub ghost struct StepV {
    pub state: PdV,
    pub out: Seq<MsgV>,
    pub reports: Seq<Report>,
}

/// The pending list with the `invoker` flag set on every entry whose
/// timestamp is below `ts`.
pub open spec fn flag_earlier(p: Seq<ClV>, ts: ClockV, invoker: int) -> Seq<ClV> {
    Seq::new(
        p.len(),
        |i: int| if clock_lt(p[i].ts, ts) {
            cl_set_flag(p[i], invoker)
        } else {
            p[i]
        },
    )
}

/// Commit every full, unhandled confirmation list from position `i` on:
/// each commits one dequeue bounded by `bound` and is marked handled; the
/// dequeued values (or -1 each) are collected in order.
#[verifier::ext_equal]
pub ghost struct SettleV {
    pub queue: Seq<EntryV>,
    pub pending: Seq<ClV>,
    pub returns: Seq<i32>,
}

pub open spec fn settle_from(q: Seq<EntryV>, p: Seq<ClV>, bound: ClockV, i: int) -> SettleV
    decreases p.len() - i,
{
    if i < 0 || i >= p.len() {
        SettleV { queue: q, pending: p, returns: Seq::empty() }
    } else if p[i].is_full_v() && !p[i].handled {
        let dq = dequeue_v(q, bound);
        let ret = match dq.0 {
            Option::Some(e) => e.0,
            Option::None => -1i32,
        };
        let rest = settle_from(dq.1, p.update(i, (ClV { handled: true, ..p[i] })), bound, i + 1);
        SettleV {
            queue: rest.queue,
            pending: rest.pending,
            returns: seq![ret] + rest.returns,
        }
    } else {
        settle_from(q, p, bound, i + 1)
    }
}

/// The reports an invoker makes of committed dequeues.
pub open spec fn reports_of(rets: Seq<i32>) -> Seq<Report> {
    Seq::new(rets.len(), |i: int| Report::DequeueReturned(rets[i]))
}

/// A broadcast: one payload per rank, identical but for the receiver.
pub open spec fn broadcast_v(ws: nat, msg: i32, val: i32, inv: i32, sender: i32, ts: ClockV) -> Seq<
    MsgV,
> {
    Seq::new(
        ws,
        |r: int| MsgV {
            message: msg,
            value: val,
            invoker: inv,
            sender: sender,
            receiver: r as i32,
            ts: ts,
        },
    )
}

/// EnqInvoke: reset the acknowledgement count, advance the local clock and
/// broadcast an EnqReq stamped with it.
pub open spec fn step_enq_invoke(s: PdV, m: MsgV) -> StepV {
    let ts1 = clock_inc(s.timestamp, s.rank as int);
    StepV {
        state: PdV { enq_count: 0, timestamp: ts1, ..s },
        out: broadcast_v(s.world_size as nat, MSG_ENQ_REQ, m.value, m.invoker, s.rank, ts1),
        reports: Seq::empty(),
    }
}

/// EnqReq: merge the clock, insert the entry in timestamp order, flag the
/// invoker in every earlier pending dequeue, and acknowledge.
pub open spec fn step_enq_req(s: PdV, m: MsgV) -> StepV {
    let ts1 = clock_merge(s.timestamp, m.ts);
    StepV {
        state: PdV {
            timestamp: ts1,
            queue: queue_insert(s.queue, (m.value, m.invoker, m.ts)),
            pending: flag_earlier(s.pending, m.ts, m.invoker as int),
            ..s
        },
        out: seq![
            MsgV {
                message: MSG_ENQ_ACK,
                value: m.value,
                invoker: m.invoker,
                sender: s.rank,
                receiver: m.invoker,
                ts: ts1,
            },
        ],
        reports: Seq::empty(),
    }
}

/// EnqAck: count the acknowledgement; on the last one report completion
/// and unlock.
pub open spec fn step_enq_ack(s: PdV, m: MsgV) -> StepV {
    let n1 = (s.enq_count + 1) as i32;
    let done = n1 == s.world_size;
    StepV {
        state: PdV {
            enq_count: n1,
            locked: if done {
                false
            } else {
                s.locked
            },
            ..s
        },
        out: Seq::empty(),
        reports: if done {
            seq![Report::EnqueueComplete]
        } else {
            Seq::empty()
        },
    }
}

/// DeqInvoke: advance the local clock and broadcast a DeqReq stamped with
/// it, this peer being the invoker.
pub open spec fn step_deq_invoke(s: PdV, m: MsgV) -> StepV {
    let ts1 = clock_inc(s.timestamp, s.rank as int);
    StepV {
        state: PdV { timestamp: ts1, ..s },
        out: broadcast_v(s.world_size as nat, MSG_DEQ_REQ, 0, s.rank, s.rank, ts1),
        reports: Seq::empty(),
    }
}

/// DeqReq: merge the clock, open a confirmation list for the timestamp if
/// none exists, and broadcast a DeqAck carrying the request's timestamp.
pub open spec fn step_deq_req(s: PdV, m: MsgV) -> StepV {
    StepV {
        state: PdV {
            timestamp: clock_merge(s.timestamp, m.ts),
            pending: pending_add(s.pending, s.world_size as nat, m.ts, m.invoker),
            ..s
        },
        out: broadcast_v(s.world_size as nat, MSG_DEQ_ACK, 0, m.invoker, s.rank, m.ts),
        reports: Seq::empty(),
    }
}

/// DeqAck: record the sender's flag on the matching confirmation list,
/// propagate flags to earlier lists, commit every full unhandled list, and
/// unlock. Only the invoking peer reports the committed values.
pub open spec fn step_deq_ack(s: PdV, m: MsgV) -> StepV {
    let p1 = pending_add(s.pending, s.world_size as nat, m.ts, m.invoker);
    let k = find_ts_from(p1, m.ts, 0);
    let p2 = p1.update(k, cl_set_flag(p1[k], m.sender as int));
    let p3 = propagated(p2);
    let done = settle_from(s.queue, p3, m.ts, 0);
    StepV {
        state: PdV { pending: done.pending, queue: done.queue, locked: false, ..s },
        out: Seq::empty(),
        reports: if s.rank == m.invoker {
            reports_of(done.returns)
        } else {
            Seq::empty()
        },
    }
}

/// The transition function of a peer: every inbound payload is appended to
/// the audit history, then dispatched on its kind; unknown kinds change
/// nothing else.
pub open spec fn step(s: PdV, m: MsgV) -> StepV {
    let s1 = PdV { history: s.history.push(m), ..s };
    if m.message == MSG_ENQ_INVOKE {
        step_enq_invoke(s1, m)
    } else if m.message == MSG_ENQ_REQ {
        step_enq_req(s1, m)
    } else if m.message == MSG_ENQ_ACK {
        step_enq_ack(s1, m)
    } else if m.message == MSG_DEQ_INVOKE {
        step_deq_invoke(s1, m)
    } else if m.message == MSG_DEQ_REQ {
        step_deq_req(s1, m)
    } else if m.message == MSG_DEQ_ACK {
        step_deq_ack(s1, m)
    } else {
        StepV { state: s1, out: Seq::empty(), reports: Seq::empty() }
    }
}

/// What a payload must satisfy for the step to be executable: counters may
/// not overflow, indexes must be in range, and inter-peer timestamps must
/// carry the world's size.
pub open spec fn step_enabled(s: PdV, m: MsgV) -> bool {
    &&& ((m.message == MSG_ENQ_INVOKE || m.message == MSG_DEQ_INVOKE)
        ==> s.timestamp.vals[s.rank as int] < i32::MAX)
    &&& (m.message == MSG_ENQ_ACK ==> s.enq_count < i32::MAX)
    &&& (m.message == MSG_ENQ_REQ ==> m.ts.wf() && m.ts.size == s.world_size && 0 <= m.invoker
        < s.world_size)
    &&& (m.message == MSG_DEQ_REQ ==> m.ts.wf() && m.ts.size == s.world_size)
    &&& (m.message == MSG_DEQ_ACK ==> m.ts.wf() && m.ts.size == s.world_size && 0 <= m.sender
        < s.world_size)
}

/// Push one payload per rank, identical but for the receiver.
fn push_to_all(
    to_send: &mut Vec<MessagePayload>,
    world_size: i32,
    msg: i32,
    val: i32,
    inv: i32,
    sender: i32,
    ts: VectorClock,
)
    requires
        old(to_send)@.len() == 0,
        0 <= world_size,
    ensures
        msgs_view(final(to_send)@) == broadcast_v(world_size as nat, msg, val, inv, sender, ts@),
{
    let mut r: i32 = 0;
    while r < world_size
        invariant
            0 <= r <= world_size,
            to_send@.len() == r as nat,
            forall|j: int|
                0 <= j < r ==> (#[trigger] to_send@[j])@ == (MsgV {
                    message: msg,
                    value: val,
                    invoker: inv,
                    sender: sender,
                    receiver: j as i32,
                    ts: ts@,
                }),
        decreases world_size - r,
    {
        to_send.push(MessagePayload::new(msg, val, inv, sender, r, ts));
        r = r + 1;
    }
    proof {
        assert(msgs_view(to_send@) =~= broadcast_v(world_size as nat, msg, val, inv, sender, ts@));
    }
}

pub proof fn lemma_sweep_down_fields(p: Seq<ClV>, row: int)
    requires
        forall|i: int| 0 <= i < p.len() ==> (#[trigger] p[i]).flags.len() == MAX_PEERS,
        forall|i: int, c: int|
            0 <= i < p.len() && 0 <= c < p[i].flags.len() ==> ((#[trigger] p[i].flags[c]) == 0
                || p[i].flags[c] == 1),
    ensures
        sweep_down(p, row).len() == p.len(),
        forall|i: int|
            0 <= i < p.len() ==> (#[trigger] sweep_down(p, row)[i]).ts == p[i].ts && sweep_down(
                p,
                row,
            )[i].size == p[i].size && sweep_down(p, row)[i].invoker == p[i].invoker && sweep_down(
                p,
                row,
            )[i].handled == p[i].handled && sweep_down(p, row)[i].flags.len() == p[i].flags.len(),
        forall|i: int, c: int|
            0 <= i < p.len() && 0 <= c < p[i].flags.len() ==> ((#[trigger] sweep_down(
                p,
                row,
            )[i].flags[c]) == 0 || sweep_down(p, row)[i].flags[c] == 1),
    decreases row,
{
    if 0 < row < p.len() {
        let p1 = p.update(row - 1, row_or(p[row - 1], p[row]));
        assert forall|i: int| 0 <= i < p1.len() implies (#[trigger] p1[i]).flags.len()
            == MAX_PEERS by {
            if i == row - 1 {
                assert(p1[i] == row_or(p[row - 1], p[row]));
            } else {
                assert(p1[i] == p[i]);
            }
        }
        assert forall|i: int, c: int|
            0 <= i < p1.len() && 0 <= c < p1[i].flags.len() implies ((#[trigger] p1[i].flags[c])
            == 0 || p1[i].flags[c] == 1) by {
            if i == row - 1 {
                assert(p1[i] == row_or(p[row - 1], p[row]));
            } else {
                assert(p1[i] == p[i]);
            }
        }
        lemma_sweep_down_fields(p1, row - 1);
        assert forall|i: int| 0 <= i < p.len() implies (#[trigger] sweep_down(p, row)[i]).ts
            == p[i].ts && sweep_down(p, row)[i].size == p[i].size && sweep_down(p, row)[i].invoker
            == p[i].invoker && sweep_down(p, row)[i].handled == p[i].handled && sweep_down(
            p,
            row,
        )[i].flags.len() == p[i].flags.len() by {
            if i == row - 1 {
                assert(p1[i] == row_or(p[row - 1], p[row]));
            } else {
                assert(p1[i] == p[i]);
            }
        }
    }
}

impl ProcessData {
    /// Whether a payload may be applied: the runtime-checkable side of
    /// `step_enabled`.
    pub fn step_allowed(&self, payload: &MessagePayload) -> (b: bool)
        requires
            self@.wf(),
        ensures
            b == step_enabled(self@, payload@),
    {
        let msg = payload.message;
        if msg == MSG_ENQ_INVOKE || msg == MSG_DEQ_INVOKE {
            self.timestamp.clock[self.rank as usize] < i32::MAX
        } else if msg == MSG_ENQ_ACK {
            self.enq_count < i32::MAX
        } else if msg == MSG_ENQ_REQ {
            payload.time_stamp.size == self.world_size as usize && 0 <= payload.invoker
                && payload.invoker < self.world_size
        } else if msg == MSG_DEQ_REQ {
            payload.time_stamp.size == self.world_size as usize
        } else if msg == MSG_DEQ_ACK {
            payload.time_stamp.size == self.world_size as usize && 0 <= payload.sender
                && payload.sender < self.world_size
        } else {
            true
        }
    }

    /// Apply one inbound payload: record it in the audit history, dispatch
    /// on its kind, and hand back the payloads to send plus the operations
    /// to report. The whole effect equals the `step` transition function.
    pub fn execute_locally(&mut self, message_payload: MessagePayload) -> (out: StepOutput)
        requires
            old(self)@.wf(),
            step_enabled(old(self)@, message_payload@),
        ensures
            (StepV {
                state: final(self)@,
                out: msgs_view(out.to_send@),
                reports: out.reports@,
            }) == step(old(self)@, message_payload@),
    {
        let ghost mv = message_payload@;
        self.message_history.push(message_payload);
        proof {
            assert(msgs_view(self.message_history@) =~= old(self)@.history.push(mv));
            assert(self@ =~= (PdV { history: old(self)@.history.push(mv), ..old(self)@ }));
            assert(self@.wf());
        }
        let ghost s1 = self@;
        let mut to_send: Vec<MessagePayload> = Vec::new();
        let mut reports: Vec<Report> = Vec::new();

        if message_payload.message == MSG_ENQ_INVOKE {
            self.enq_count = 0;
            proof {
                assert(self@ =~= (PdV { enq_count: 0, ..s1 }));
                assert(self@.wf());
            }
            self.increment_ts();
            push_to_all(
                &mut to_send,
                self.world_size,
                MSG_ENQ_REQ,
                message_payload.value,
                message_payload.invoker,
                self.rank,
                self.timestamp,
            );
            proof {
                assert((StepV {
                    state: self@,
                    out: msgs_view(to_send@),
                    reports: reports@,
                }) =~~= step(old(self)@, mv));
            }
        } else if message_payload.message == MSG_ENQ_REQ {
            self.update_ts(&message_payload.time_stamp);
            proof {
                assert(self@.wf());
            }
            self.ordered_insert(
                (message_payload.value, message_payload.invoker, message_payload.time_stamp),
            );
            let ghost s2 = self@;
            let ghost p1 = flag_earlier(s2.pending, mv.ts, mv.invoker as int);
            let mut i: usize = 0;
            while i < self.pending_dequeues.len()
                invariant
                    i <= s2.pending.len(),
                    self@.pending.len() == s2.pending.len(),
                    self.pending_dequeues@.len() == s2.pending.len(),
                    p1 == flag_earlier(s2.pending, mv.ts, mv.invoker as int),
                    0 <= mv.invoker < s2.world_size <= MAX_PEERS,
                    mv.invoker == message_payload.invoker,
                    mv.ts == message_payload.time_stamp@,
                    forall|j: int| 0 <= j < i ==> self@.pending[j] == p1[j],
                    forall|j: int|
                        i <= j < s2.pending.len() ==> self@.pending[j] == s2.pending[j],
                    self@ =~= (PdV { pending: self@.pending, ..s2 }),
                    forall|j: int|
                        0 <= j < s2.pending.len() ==> (#[trigger] s2.pending[j]).ts.wf(),
                decreases s2.pending.len() - i,
            {
                let cl = self.pending_dequeues[i];
                proof {
                    assert(cl@ == self@.pending[i as int]);
                    assert(cl@.ts == s2.pending[i as int].ts);
                }
                if matches!(cl.ts.compare(&message_payload.time_stamp), Ordering::Less) {
                    self.set_flag_at(i, message_payload.invoker as usize);
                    proof {
                        assert(self@.pending[i as int] == p1[i as int]);
                    }
                } else {
                    proof {
                        assert(self@.pending[i as int] == p1[i as int]);
                    }
                }
                i = i + 1;
            }
            proof {
                assert(self@.pending =~= p1);
            }
            to_send.push(
                MessagePayload::new(
                    MSG_ENQ_ACK,
                    message_payload.value,
                    message_payload.invoker,
                    self.rank,
                    message_payload.invoker,
                    self.timestamp,
                ),
            );
            proof {
                assert(msgs_view(to_send@) =~= step(old(self)@, mv).out);
                assert((StepV {
                    state: self@,
                    out: msgs_view(to_send@),
                    reports: reports@,
                }) =~~= step(old(self)@, mv));
            }
        } else if message_payload.message == MSG_ENQ_ACK {
            let c = self.enq_count;
            self.enq_count = c + 1;
            if self.enq_count == self.world_size {
                reports.push(Report::EnqueueComplete);
                self.locked = false;
            }
            proof {
                assert((StepV {
                    state: self@,
                    out: msgs_view(to_send@),
                    reports: reports@,
                }) =~~= step(old(self)@, mv));
            }
        } else if message_payload.message == MSG_DEQ_INVOKE {
            self.increment_ts();
            push_to_all(
                &mut to_send,
                self.world_size,
                MSG_DEQ_REQ,
                0,
                self.rank,
                self.rank,
                self.timestamp,
            );
            proof {
                assert((StepV {
                    state: self@,
                    out: msgs_view(to_send@),
                    reports: reports@,
                }) =~~= step(old(self)@, mv));
            }
        } else if message_payload.message == MSG_DEQ_REQ {
            self.update_ts(&message_payload.time_stamp);
            proof {
                assert(self@.wf());
            }
            if !self.contains_timestamp(&message_payload.time_stamp) {
                let cl = ConfirmationList::new(
                    self.world_size,
                    message_payload.time_stamp,
                    message_payload.invoker,
                );
                self.insert_by_ts(cl);
            }
            proof {
                assert(self@.pending =~= pending_add(
                    s1.pending,
                    s1.world_size as nat,
                    mv.ts,
                    mv.invoker,
                ));
            }
            push_to_all(
                &mut to_send,
                self.world_size,
                MSG_DEQ_ACK,
                0,
                message_payload.invoker,
                self.rank,
                message_payload.time_stamp,
            );
            proof {
                assert((StepV {
                    state: self@,
                    out: msgs_view(to_send@),
                    reports: reports@,
                }) =~~= step(old(self)@, mv));
            }
        } else if message_payload.message == MSG_DEQ_ACK {
            if !self.contains_timestamp(&message_payload.time_stamp) {
                let cl = ConfirmationList::new(
                    self.world_size,
                    message_payload.time_stamp,
                    message_payload.invoker,
                );
                self.insert_by_ts(cl);
                proof {
                    crate::vector_clock::lemma_lex_reflexive(mv.ts.vals, 0, mv.ts.size as int);
                    lemma_pending_pos_bounds(s1.pending, mv.ts, 0);
                    let pos = pending_insert_pos_from(s1.pending, mv.ts, 0);
                    assert(self@.pending[pos] == cl_new_v(s1.world_size as nat, mv.ts, mv.invoker));
                    assert(clock_eq(self@.pending[pos].ts, mv.ts));
                    assert(0 <= pos < self@.pending.len());
                    assert(contains_ts(self@.pending, mv.ts));
                }
            }
            let ghost p1 = pending_add(s1.pending, s1.world_size as nat, mv.ts, mv.invoker);
            proof {
                assert(self@.pending =~= p1);
                assert forall|j: int| 0 <= j < p1.len() implies (#[trigger] p1[j]).wf(
                    s1.world_size as int,
                ) by {
                    if !contains_ts(s1.pending, mv.ts) {
                        let pos = pending_insert_pos_from(s1.pending, mv.ts, 0);
                        lemma_pending_pos_bounds(s1.pending, mv.ts, 0);
                        if j < pos {
                            assert(p1[j] == s1.pending[j]);
                        } else if j == pos {
                            assert(p1[j] == cl_new_v(s1.world_size as nat, mv.ts, mv.invoker));
                        } else {
                            assert(p1[j] == s1.pending[j - 1]);
                        }
                    }
                }
                assert(self@.wf());
            }
            let k = self.find_ts_index(&message_payload.time_stamp);
            self.set_flag_at(k, message_payload.sender as usize);
            let ghost p2 = p1.update(k as int, cl_set_flag(p1[k as int], mv.sender as int));
            proof {
                assert(self@.pending =~= p2);
            }
            self.propagate_earlier_responses();
            let ghost p3 = propagated(p2);
            proof {
                assert(self@.pending == p3);
                assert forall|i2: int, c: int|
                    0 <= i2 < p2.len() && 0 <= c < p2[i2].flags.len() implies ((
                #[trigger] p2[i2].flags[c]) == 0 || p2[i2].flags[c] == 1) by {
                    if i2 == k as int {
                        assert(p2[i2] == cl_set_flag(p1[k as int], mv.sender as int));
                        assert(p1[k as int].wf(s1.world_size as int));
                    } else {
                        assert(p2[i2] == p1[i2]);
                        assert(p1[i2].wf(s1.world_size as int));
                    }
                }
                assert forall|i2: int| 0 <= i2 < p2.len() implies (#[trigger] p2[i2]).flags.len()
                    == MAX_PEERS by {
                    if i2 == k as int {
                        assert(p2[i2] == cl_set_flag(p1[k as int], mv.sender as int));
                        assert(p1[k as int].wf(s1.world_size as int));
                    } else {
                        assert(p2[i2] == p1[i2]);
                        assert(p1[i2].wf(s1.world_size as int));
                    }
                }
                lemma_sweep_down_fields(p2, p2.len() - 1);
                assert forall|j: int| 0 <= j < p3.len() implies (#[trigger] p3[j]).wf(
                    s1.world_size as int,
                ) by {
                    assert(p2[j].wf(s1.world_size as int));
                    assert(p3[j].ts == p2[j].ts && p3[j].size == p2[j].size && p3[j].flags.len()
                        == p2[j].flags.len());
                }
                assert(self@.wf());
            }
            let ghost q0 = self@.queue;
            let ghost bound = mv.ts;
            let ghost total = settle_from(q0, p3, bound, 0);
            let ghost mut rets: Seq<i32> = Seq::empty();
            proof {
                assert(total == (SettleV {
                    queue: settle_from(self@.queue, self@.pending, bound, 0).queue,
                    pending: settle_from(self@.queue, self@.pending, bound, 0).pending,
                    returns: rets + settle_from(self@.queue, self@.pending, bound, 0).returns,
                })) by {
                    assert(rets + settle_from(self@.queue, self@.pending, bound, 0).returns
                        =~= settle_from(self@.queue, self@.pending, bound, 0).returns);
                }
            }
            let mut i: usize = 0;
            while i < self.pending_dequeues.len()
                invariant
                    i <= p3.len(),
                    self@.wf(),
                    self@.pending.len() == p3.len(),
                    self.pending_dequeues@.len() == p3.len(),
                    bound == mv.ts,
                    mv == message_payload@,
                    s1.rank == self.rank,
                    total == (SettleV {
                        queue: settle_from(self@.queue, self@.pending, bound, i as int).queue,
                        pending: settle_from(self@.queue, self@.pending, bound, i as int).pending,
                        returns: rets + settle_from(
                            self@.queue,
                            self@.pending,
                            bound,
                            i as int,
                        ).returns,
                    }),
                    reports@ == (if s1.rank == mv.invoker {
                        reports_of(rets)
                    } else {
                        Seq::<Report>::empty()
                    }),
                    to_send@.len() == 0,
                    self@ =~= (PdV { pending: self@.pending, queue: self@.queue, ..s1 }),
                decreases p3.len() - i,
            {
                let ghost qc = self@.queue;
                let ghost pc = self@.pending;
                let cl = self.pending_dequeues[i];
                proof {
                    assert(cl@ == self@.pending[i as int]);
                    assert(cl@.wf(self@.world_size as int));
                }
                if cl.is_full() && !cl.handled {
                    let r = self.dequeue(message_payload.time_stamp);
                    let ret: i32 = match r {
                        Option::Some(e) => e.0,
                        Option::None => -1,
                    };
                    self.mark_handled_at(i);
                    if self.rank == message_payload.invoker {
                        reports.push(Report::DequeueReturned(ret));
                    }
                    proof {
                        let dq = dequeue_v(qc, bound);
                        assert(self@.queue == dq.1);
                        assert(self@.pending == pc.update(
                            i as int,
                            (ClV { handled: true, ..pc[i as int] }),
                        ));
                        let rest = settle_from(self@.queue, self@.pending, bound, i as int + 1);
                        assert(settle_from(qc, pc, bound, i as int) == (SettleV {
                            queue: rest.queue,
                            pending: rest.pending,
                            returns: seq![ret] + rest.returns,
                        }));
                        assert((rets + (seq![ret] + rest.returns)) =~= (rets.push(ret)
                            + rest.returns));
                        if s1.rank == mv.invoker {
                            assert(reports@ =~= reports_of(rets.push(ret)));
                        }
                        rets = rets.push(ret);
                        assert forall|j: int| 0 <= j < self@.queue.len() implies (
                        #[trigger] self@.queue[j]).2.wf() && self@.queue[j].2.size
                            == self@.world_size by {
                            match best_index_from(qc, bound, 0, Option::<int>::None) {
                                Option::Some(b) => {
                                    lemma_best_index_bounds(qc, bound, 0, Option::None);
                                    if j < b {
                                        assert(self@.queue[j] == qc[j]);
                                    } else {
                                        assert(self@.queue[j] == qc[j + 1]);
                                    }
                                },
                                Option::None => {
                                    assert(self@.queue[j] == qc[j]);
                                },
                            }
                        }
                        assert forall|j: int| 0 <= j < self@.pending.len() implies (
                        #[trigger] self@.pending[j]).wf(self@.world_size as int) by {
                            if j == i as int {
                                assert(self@.pending[j] == (ClV {
                                    handled: true,
                                    ..pc[i as int]
                                }));
                            } else {
                                assert(self@.pending[j] == pc[j]);
                            }
                        }
                        assert(self@.wf());
                    }
                } else {
                    proof {
                        assert(settle_from(qc, pc, bound, i as int) == settle_from(
                            qc,
                            pc,
                            bound,
                            i as int + 1,
                        ));
                    }
                }
                i = i + 1;
            }
            self.locked = false;
            proof {
                assert(settle_from(self@.queue, self@.pending, bound, p3.len() as int).returns
                    =~= Seq::<i32>::empty());
                assert(rets + Seq::<i32>::empty() =~= rets);
                assert(total.queue == self@.queue);
                assert(total.pending == self@.pending);
                assert(total.returns == rets);
                assert((StepV {
                    state: self@,
                    out: msgs_view(to_send@),
                    reports: reports@,
                }) =~~= step(old(self)@, mv));
            }
        } else {
            proof {
                assert((StepV {
                    state: self@,
                    out: msgs_view(to_send@),
                    reports: reports@,
                }) =~~= step(old(self)@, mv));
            }
        }
        StepOutput { to_send, reports }
    }
}

/// Model of one pass over a peer's outbox: which payloads are kept, which
/// are dispatched in order, and how the lock ends up. A payload is
/// dispatched when this peer is its sender, except that a fresh enqueue
/// invocation is suppressed while the peer is locked; dispatching either
/// invocation kind locks the peer.
#[verifier::ext_equal]
pub ghost struct DrainV {
    pub kept: Seq<MsgV>,
    pub sent: Seq<MsgV>,
    pub locked: bool,
}

pub open spec fn drain_v(msgs: Seq<MsgV>, rank: i32, locked: bool) -> DrainV
    decreases msgs.len(),
{
    if msgs.len() == 0 {
        DrainV { kept: Seq::empty(), sent: Seq::empty(), locked: locked }
    } else {
        let m = msgs[0];
        if m.sender == rank && !(m.message == MSG_ENQ_INVOKE && locked) {
            let locked1 = if m.message == MSG_ENQ_INVOKE || m.message == MSG_DEQ_INVOKE {
                true
            } else {
                locked
            };
            let rest = drain_v(msgs.skip(1), rank, locked1);
            DrainV { kept: rest.kept, sent: seq![m] + rest.sent, locked: rest.locked }
        } else {
            let rest = drain_v(msgs.skip(1), rank, locked);
            DrainV { kept: seq![m] + rest.kept, sent: rest.sent, locked: rest.locked }
        }
    }
}

impl ProcessData {
    /// One pass of the event loop's dispatch step: remove from the outbox
    /// every payload this peer may send now, in order, locking the peer
    /// when an invocation goes out.
    pub fn drain_outbox(&mut self, msgs: &mut Vec<MessagePayload>) -> (sent: Vec<MessagePayload>)
        ensures
            msgs_view(final(msgs)@) == drain_v(
                msgs_view(old(msgs)@),
                old(self)@.rank,
                old(self)@.locked,
            ).kept,
            msgs_view(sent@) == drain_v(
                msgs_view(old(msgs)@),
                old(self)@.rank,
                old(self)@.locked,
            ).sent,
            final(self)@ == (PdV {
                locked: drain_v(msgs_view(old(msgs)@), old(self)@.rank, old(self)@.locked).locked,
                ..old(self)@
            }),
    {
        let ghost mv0 = msgs_view(msgs@);
        let ghost d = drain_v(mv0, self.rank, self.locked);
        let mut kept: Vec<MessagePayload> = Vec::new();
        let mut sent: Vec<MessagePayload> = Vec::new();
        proof {
            assert(msgs_view(kept@) =~= Seq::<MsgV>::empty());
            assert(msgs_view(sent@) =~= Seq::<MsgV>::empty());
            assert(mv0.skip(0) =~= mv0);
            assert(Seq::<MsgV>::empty() + d.kept =~= d.kept);
            assert(Seq::<MsgV>::empty() + d.sent =~= d.sent);
            assert(d =~= (DrainV { kept: d.kept, sent: d.sent, locked: d.locked }));
        }
        let mut i: usize = 0;
        while i < msgs.len()
            invariant
                i <= msgs@.len(),
                mv0 == msgs_view(msgs@),
                self.rank == old(self).rank,
                d == (DrainV {
                    kept: msgs_view(kept@) + drain_v(
                        mv0.skip(i as int),
                        self.rank,
                        self.locked,
                    ).kept,
                    sent: msgs_view(sent@) + drain_v(
                        mv0.skip(i as int),
                        self.rank,
                        self.locked,
                    ).sent,
                    locked: drain_v(mv0.skip(i as int), self.rank, self.locked).locked,
                }),
                self@ =~= (PdV { locked: self.locked, ..old(self)@ }),
            decreases msgs@.len() - i,
        {
            let m = msgs[i];
            proof {
                assert(m@ == mv0[i as int]);
                assert(mv0.skip(i as int)[0] == mv0[i as int]);
                assert(mv0.skip(i as int).skip(1) =~= mv0.skip(i as int + 1));
            }
            let ghost rem = mv0.skip(i as int);
            if m.sender == self.rank && !(m.message == MSG_ENQ_INVOKE && self.locked) {
                if m.message == MSG_ENQ_INVOKE || m.message == MSG_DEQ_INVOKE {
                    self.locked = true;
                }
                let ghost sent0 = msgs_view(sent@);
                sent.push(m);
                proof {
                    assert(msgs_view(sent@) =~= sent0.push(m@));
                    assert(msgs_view(sent@) + drain_v(mv0.skip(i as int + 1), self.rank, self.locked).sent
                        =~= sent0 + (seq![m@] + drain_v(
                        mv0.skip(i as int + 1),
                        self.rank,
                        self.locked,
                    ).sent));
                }
            } else {
                let ghost kept0 = msgs_view(kept@);
                kept.push(m);
                proof {
                    assert(msgs_view(kept@) =~= kept0.push(m@));
                    assert(msgs_view(kept@) + drain_v(mv0.skip(i as int + 1), self.rank, self.locked).kept
                        =~= kept0 + (seq![m@] + drain_v(
                        mv0.skip(i as int + 1),
                        self.rank,
                        self.locked,
                    ).kept));
                }
            }
            i = i + 1;
        }
        proof {
            assert(mv0.skip(mv0.len() as int) =~= Seq::<MsgV>::empty());
            assert(msgs_view(kept@) + Seq::<MsgV>::empty() =~= msgs_view(kept@));
            assert(msgs_view(sent@) + Seq::<MsgV>::empty() =~= msgs_view(sent@));
        }
        *msgs = kept;
        proof {
            assert(final(self)@ =~= (PdV { locked: d.locked, ..old(self)@ }));
        }
        sent
    }
}

} // verus!
