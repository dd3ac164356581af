use replicated_queue::payload::MessagePayload;
use replicated_queue::process::{ConfirmationList, ProcessData, Report};
use replicated_queue::vector_clock::VectorClock;

/// Deliver every pending payload to its receiver, collecting the reports
/// each peer makes, until no payload is in flight. Delivery is FIFO over
/// the single queue, which refines the per-link FIFO the transport gives.
fn pump(peers: &mut Vec<ProcessData>, inflight: &mut Vec<MessagePayload>) -> Vec<(i32, Report)> {
    let mut reports = Vec::new();
    while !inflight.is_empty() {
        let m = inflight.remove(0);
        let rank = m.receiver as usize;
        assert!(peers[rank].step_allowed(&m));
        let out = peers[rank].execute_locally(m);
        for r in out.reports {
            reports.push((m.receiver, r));
        }
        for msg in out.to_send {
            inflight.push(msg);
        }
    }
    reports
}

fn invoke(kind: i32, value: i32, rank: i32) -> MessagePayload {
    MessagePayload::new(kind, value, rank, rank, rank, VectorClock::default())
}

fn three_peers() -> Vec<ProcessData> {
    vec![ProcessData::new(0, 3), ProcessData::new(1, 3), ProcessData::new(2, 3)]
}

fn live_clock(p: &ProcessData) -> Vec<i32> {
    p.timestamp.clock[0..p.timestamp.size].to_vec()
}

fn queue_of(p: &ProcessData) -> Vec<(i32, i32, Vec<i32>)> {
    p.local_queue
        .iter()
        .map(|e| (e.0, e.1, e.2.clock[0..e.2.size].to_vec()))
        .collect()
}

#[test]
fn single_enqueue_from_rank_0() {
    let mut peers = three_peers();
    let mut inflight = vec![invoke(0, 69, 0)];
    let reports = pump(&mut peers, &mut inflight);
    for p in &peers {
        assert_eq!(queue_of(p), vec![(69, 0, vec![1, 0, 0])]);
        assert_eq!(live_clock(p), vec![1, 0, 0]);
    }
    assert_eq!(peers[0].enq_count, 3);
    assert!(!peers[0].locked);
    assert_eq!(reports, vec![(0, Report::EnqueueComplete)]);
}

#[test]
fn two_enqueues_from_rank_0() {
    // Both invocations sit in peer 0's outbox. The outbox dispatches the
    // first and suppresses the second while the peer is locked; completion
    // of the first round releases the lock and the second may go out.
    let mut peers = three_peers();
    let mut outbox = vec![invoke(0, 69, 0), invoke(0, 420, 0)];
    let mut first = peers[0].drain_outbox(&mut outbox);
    assert_eq!(first.len(), 1);
    assert_eq!(first[0].value, 69);
    assert!(peers[0].locked);
    assert_eq!(outbox.len(), 1);
    // While locked, the second invocation stays put.
    let held = peers[0].drain_outbox(&mut outbox);
    assert!(held.is_empty());
    assert_eq!(outbox.len(), 1);
    pump(&mut peers, &mut first);
    assert!(!peers[0].locked);
    let mut second = peers[0].drain_outbox(&mut outbox);
    assert_eq!(second.len(), 1);
    assert!(outbox.is_empty());
    pump(&mut peers, &mut second);
    for p in &peers {
        assert_eq!(queue_of(p), vec![(69, 0, vec![1, 0, 0]), (420, 0, vec![2, 0, 0])]);
        assert_eq!(live_clock(p), vec![2, 0, 0]);
    }
}

#[test]
fn concurrent_enqueue_and_dequeue_agree() {
    // Enqueue(70) and Dequeue() both from rank 1, their rounds in flight
    // together. All peers must end with identical queues, every
    // confirmation list handled, and one decision reported at the invoker.
    let mut peers = three_peers();
    let mut inflight = vec![invoke(0, 70, 1), invoke(3, 0, 1)];
    let reports = pump(&mut peers, &mut inflight);
    let q0 = queue_of(&peers[0]);
    let c0 = live_clock(&peers[0]);
    for p in &peers {
        assert_eq!(queue_of(p), q0);
        assert_eq!(live_clock(p), c0);
        assert!(p.pending_dequeues.iter().all(|cl| cl.handled));
    }
    let returned: Vec<i32> = reports
        .iter()
        .filter_map(|(rank, r)| match r {
            Report::DequeueReturned(v) if *rank == 1 => Some(*v),
            _ => None,
        })
        .collect();
    assert_eq!(returned.len(), 1);
    assert!(returned[0] == 70 || returned[0] == -1);
    if returned[0] == 70 {
        assert!(q0.is_empty());
    } else {
        assert_eq!(q0, vec![(70, 1, vec![0, 1, 0])]);
    }
}

#[test]
fn dequeue_on_empty_queue_returns_minus_one() {
    let mut peers = three_peers();
    let mut inflight = vec![invoke(3, 0, 1)];
    let reports = pump(&mut peers, &mut inflight);
    assert!(reports.contains(&(1, Report::DequeueReturned(-1))));
    for p in &peers {
        assert!(queue_of(p).is_empty());
        assert_eq!(p.pending_dequeues.len(), 1);
        let cl = &p.pending_dequeues[0];
        assert!(cl.handled);
        assert_eq!(&cl.ts.clock[0..3], &[0, 1, 0]);
        assert!(cl.response_buffer[0..3].iter().all(|&f| f == 1));
    }
}

#[test]
fn enqueue_then_dequeue_returns_the_value() {
    // The enqueue round finishes before the dequeue is invoked, so the
    // dequeue commits the enqueued 69 on every peer.
    let mut peers = three_peers();
    let mut first = vec![invoke(0, 69, 0)];
    pump(&mut peers, &mut first);
    let mut second = vec![invoke(3, 0, 1)];
    let reports = pump(&mut peers, &mut second);
    assert!(reports.contains(&(1, Report::DequeueReturned(69))));
    for p in &peers {
        assert!(queue_of(p).is_empty());
        assert_eq!(live_clock(p), vec![1, 1, 0]);
        assert!(p.pending_dequeues.iter().all(|cl| cl.handled));
    }
}

#[test]
fn propagate_fills_earlier_lists() {
    // Two pending entries with timestamps T1 < T2 and a flag set only on
    // the T2 entry: after the sweep the T1 entry carries it too.
    let mut pd = ProcessData::new(0, 3);
    let mut t1 = VectorClock::new(3);
    t1.clock[0] = 1;
    let mut t2 = VectorClock::new(3);
    t2.clock[0] = 2;
    pd.insert_by_ts(ConfirmationList::new(3, t1, 1));
    pd.insert_by_ts(ConfirmationList::new(3, t2, 2));
    let mut flagged = pd.pending_dequeues[1];
    flagged.response_buffer[2] = 1;
    pd.pending_dequeues[1] = flagged;
    pd.propagate_earlier_responses();
    assert_eq!(pd.pending_dequeues[0].response_buffer[2], 1);
    assert_eq!(pd.pending_dequeues[1].response_buffer[2], 1);
    assert_eq!(pd.pending_dequeues[0].response_buffer[1], 0);
}

#[test]
fn ordered_insert_keeps_timestamp_order() {
    let mut pd = ProcessData::new(0, 3);
    let mut ta = VectorClock::new(3);
    ta.clock[0] = 2;
    let mut tb = VectorClock::new(3);
    tb.clock[0] = 1;
    let mut tc = VectorClock::new(3);
    tc.clock[0] = 1;
    tc.clock[1] = 5;
    pd.ordered_insert((20, 0, ta));
    pd.ordered_insert((10, 1, tb));
    pd.ordered_insert((15, 2, tc));
    assert_eq!(
        queue_of(&pd),
        vec![(10, 1, vec![1, 0, 0]), (15, 2, vec![1, 5, 0]), (20, 0, vec![2, 0, 0])]
    );
}

#[test]
fn dequeue_takes_smallest_below_bound() {
    let mut pd = ProcessData::new(0, 3);
    let mut ta = VectorClock::new(3);
    ta.clock[0] = 1;
    let mut tb = VectorClock::new(3);
    tb.clock[0] = 2;
    let mut bound = VectorClock::new(3);
    bound.clock[0] = 2;
    pd.ordered_insert((10, 0, ta));
    pd.ordered_insert((20, 0, tb));
    let got = pd.dequeue(bound);
    assert_eq!(got.map(|e| e.0), Some(10));
    assert_eq!(queue_of(&pd), vec![(20, 0, vec![2, 0, 0])]);
    // Nothing below the bound is left.
    assert!(pd.dequeue(bound).is_none());
}

#[test]
fn drain_outbox_follows_lock_discipline() {
    let mut pd = ProcessData::new(0, 3);
    let other = MessagePayload::new(1, 5, 1, 1, 0, VectorClock::new(3));
    let enq = invoke(0, 7, 0);
    let enq2 = invoke(0, 8, 0);
    let mut msgs = vec![other, enq, enq2];
    let sent = pd.drain_outbox(&mut msgs);
    // The foreign payload stays; the first invocation goes out and locks
    // the peer; the second is suppressed while locked.
    assert_eq!(sent.len(), 1);
    assert_eq!(sent[0].value, 7);
    assert!(pd.locked);
    assert_eq!(msgs.len(), 2);
    assert_eq!(msgs[0].sender, 1);
    assert_eq!(msgs[1].value, 8);
}

#[test]
fn unknown_message_kind_is_ignored() {
    let mut pd = ProcessData::new(0, 3);
    let stray = MessagePayload::new(9, 1, 0, 0, 0, VectorClock::new(3));
    assert!(pd.step_allowed(&stray));
    let out = pd.execute_locally(stray);
    assert!(out.to_send.is_empty());
    assert!(out.reports.is_empty());
    assert!(pd.local_queue.is_empty());
    assert_eq!(pd.message_history.len(), 1);
}
