//! The worker's state and the decision it takes on every iteration.

use crate::entry::{TrackedEntry, DEFAULT_POLL_MS, DEFAULT_TTL_MS};
use crate::table::{
    aged, ascending, lemma_aged_empty, lemma_aged_push, lemma_aged_same_answers,
    lemma_aged_shape, ports_of, settled, survives, tracks,
};
use vstd::prelude::*;

verus! {

/// What a non-blocking look at the shutdown channel found.
#[derive(Clone, Copy, Debug, PartialEq, Eq, Structural)]
pub enum Signal {
    /// Nothing is waiting and the owner still holds the sending end.
    Idle,
    /// A message was waiting; it carries no meaning and is ignored.
    Message,
    /// The owner dropped the sending end.
    Disconnected,
}

/// The worker's life cycle. `Terminated` is final.
#[derive(Clone, Copy, Debug, PartialEq, Eq, Structural)]
pub enum Phase {
    Running,
    Terminated,
}

/// What the caller has to do after an iteration.
#[derive(Debug, PartialEq, Eq)]
pub enum Action {
    /// Leave the loop: the worker has terminated.
    Stop,
    /// Nothing to publish; pause for `millis` milliseconds, then iterate again.
    Wait { millis: u64 },
    /// Replace the published list by `ports`, pause for `millis`
    /// milliseconds, then iterate again.
    Publish { ports: Vec<u16>, millis: u64 },
}

/// An action as a mathematical value.
pub enum ActionView {
    Stop,
    Wait { millis: u64 },
    Publish { ports: Seq<u16>, millis: u64 },
}

impl View for Action {
    type V = ActionView;

    open spec fn view(&self) -> ActionView {
        match *self {
            Action::Stop => ActionView::Stop,
            Action::Wait { millis } => ActionView::Wait { millis },
            Action::Publish { ports, millis } => ActionView::Publish { ports: ports@, millis },
        }
    }
}

impl ActionView {
    /// The published list once the action has been carried out on a list
    /// that read `before`.
    pub open spec fn published(self, before: Seq<u16>) -> Seq<u16> {
        match self {
            ActionView::Publish { ports, .. } => ports,
            _ => before,
        }
    }
}

/// The action that ends an iteration of a running worker: a new list goes out
/// exactly when the membership changed.
pub open spec fn closing_action(before: Seq<u16>, after: Seq<u16>, poll_ms: u64) -> ActionView {
    if after == before {
        ActionView::Wait { millis: poll_ms }
    } else {
        ActionView::Publish { ports: after, millis: poll_ms }
    }
}

/// `reached` tells, for every due entry of `table`, what `probe` answered
/// for its port.
pub open spec fn answered<F: Fn(u16) -> bool>(
    probe: F,
    table: Seq<TrackedEntry>,
    now: u64,
    ttl_ms: u64,
    reached: Set<u16>,
) -> bool {
    forall|i: int|
        0 <= i < table.len() && (#[trigger] table[i]).is_due(now, ttl_ms) ==> probe.ensures(
            (table[i].port,),
            reached.contains(table[i].port),
        )
}

/// `after` is `before` aged at `now` by what `probe` answered for the due
/// entries.
pub open spec fn aged_by<F: Fn(u16) -> bool>(
    probe: F,
    before: Seq<TrackedEntry>,
    after: Seq<TrackedEntry>,
    now: u64,
    ttl_ms: u64,
) -> bool {
    exists|reached: Set<u16>|
        answered(probe, before, now, ttl_ms, reached) && after == #[trigger] aged(
            before,
            now,
            ttl_ms,
            reached,
        )
}

/// Every entry of the table was last confirmed at `now`.
pub open spec fn confirmed_at(table: Seq<TrackedEntry>, now: u64) -> bool {
    forall|i: int| 0 <= i < table.len() ==> (#[trigger] table[i]).last_confirmed == now
}

/// Gives `port` an entry confirmed at `now`, at its place in the order,
/// unless the table tracks the port already.
fn enroll(entries: &mut Vec<TrackedEntry>, port: u16, now: u64)
    requires
        ascending(old(entries)@),
        confirmed_at(old(entries)@, now),
    ensures
        ascending(final(entries)@),
        confirmed_at(final(entries)@, now),
        forall|p: u16| tracks(final(entries)@, p) <==> tracks(old(entries)@, p) || p == port,
{
    let ghost before = entries@;
    let mut k: usize = 0;
    while k < entries.len() && entries[k].port < port
        invariant
            k <= entries.len(),
            entries@ == before,
            forall|j: int| 0 <= j < k ==> (#[trigger] before[j]).port < port,
        decreases entries.len() - k,
    {
        k += 1;
    }
    if k < entries.len() && entries[k].port == port {
        proof {
            assert(before[k as int].port == port);
        }
        return ;
    }
    let e = TrackedEntry { port, last_confirmed: now };
    entries.insert(k, e);
    proof {
        let after = entries@;
        assert(after.len() == before.len() + 1);
        assert(after[k as int] == e);
        assert forall|j: int| 0 <= j < k implies after[j] == before[j] by {}
        assert forall|j: int| k < j < after.len() implies after[j] == before[j - 1] by {}
        assert forall|i: int, j: int| 0 <= i < j < after.len() implies after[i].port
            < after[j].port by {
            if j < k {
                assert(after[i] == before[i] && after[j] == before[j]);
            } else if j == k {
                assert(after[i] == before[i]);
            } else if i < k {
                assert(after[i] == before[i] && after[j] == before[j - 1]);
            } else if i == k {
                assert(after[j] == before[j - 1]);
                assert(before[j - 1].port >= before[k as int].port);
            } else {
                assert(after[i] == before[i - 1] && after[j] == before[j - 1]);
            }
        }
        assert forall|i: int| 0 <= i < after.len() implies (#[trigger] after[i]).last_confirmed
            == now by {
            if i < k {
                assert(after[i] == before[i]);
            } else if i > k {
                assert(after[i] == before[i - 1]);
            }
        }
        assert forall|p: u16| tracks(after, p) <==> tracks(before, p) || p == port by {
            if tracks(after, p) {
                let i = choose|i: int| 0 <= i < after.len() && after[i].port == p;
                if i < k {
                    assert(before[i].port == p);
                } else if i > k {
                    assert(before[i - 1].port == p);
                }
            }
            if tracks(before, p) {
                let i = choose|i: int| 0 <= i < before.len() && before[i].port == p;
                if i < k {
                    assert(after[i].port == p);
                } else {
                    assert(after[i + 1] == before[i]);
                    assert(after[i + 1].port == p);
                }
            }
            if p == port {
                assert(after[k as int].port == p);
            }
        }
    }
}

/// The worker: the table of tracked entries, the policy, and the phase.
pub struct Worker {
    entries: Vec<TrackedEntry>,
    ttl_ms: u64,
    poll_ms: u64,
    phase: Phase,
}

impl Worker {
    /// The tracked entries, in table order.
    pub closed spec fn table(&self) -> Seq<TrackedEntry> {
        self.entries@
    }

    /// The time-to-live, in milliseconds.
    pub closed spec fn ttl(&self) -> u64 {
        self.ttl_ms
    }

    /// The pause between iterations, in milliseconds.
    pub closed spec fn poll(&self) -> u64 {
        self.poll_ms
    }

    /// The current phase.
    pub closed spec fn life(&self) -> Phase {
        self.phase
    }

    /// The table is ordered by port and holds no port twice.
    pub open spec fn wf(&self) -> bool {
        ascending(self.table())
    }

    /// A running worker that tracks every candidate, each once, ordered by
    /// port and confirmed at `now`, under the given policy.
    pub fn with_policy(candidates: &Vec<u16>, now: u64, ttl_ms: u64, poll_ms: u64) -> (w: Worker)
        ensures
            w.wf(),
            w.ttl() == ttl_ms,
            w.poll() == poll_ms,
            w.life() == Phase::Running,
            confirmed_at(w.table(), now),
            forall|p: u16| tracks(w.table(), p) <==> candidates@.contains(p),
    {
        let mut entries: Vec<TrackedEntry> = Vec::new();
        let mut i: usize = 0;
        while i < candidates.len()
            invariant
                i <= candidates.len(),
                ascending(entries@),
                confirmed_at(entries@, now),
                forall|p: u16| tracks(entries@, p) <==> candidates@.take(i as int).contains(p),
            decreases candidates.len() - i,
        {
            let ghost seen = candidates@.take(i as int);
            let ghost held = entries@;
            enroll(&mut entries, candidates[i], now);
            proof {
                let more = candidates@.take(i + 1);
                assert(more =~= seen.push(candidates@[i as int]));
                assert forall|p: u16| tracks(entries@, p) <==> more.contains(p) by {
                    if more.contains(p) {
                        let j = choose|j: int| 0 <= j < more.len() && more[j] == p;
                        if j < i {
                            assert(seen[j] == p);
                        }
                    }
                    if seen.contains(p) {
                        let j = choose|j: int| 0 <= j < seen.len() && seen[j] == p;
                        assert(more[j] == p);
                    }
                    if p == candidates@[i as int] {
                        assert(more[i as int] == p);
                    }
                    assert(tracks(entries@, p) <==> tracks(held, p) || p == candidates@[i as int]);
                }
            }
            i += 1;
        }
        proof {
            assert(candidates@.take(i as int) =~= candidates@);
        }
        Worker { entries, ttl_ms, poll_ms, phase: Phase::Running }
    }

    /// A running worker on the candidates with the default policy.
    pub fn new(candidates: &Vec<u16>, now: u64) -> (w: Worker)
        ensures
            w.wf(),
            w.ttl() == DEFAULT_TTL_MS,
            w.poll() == DEFAULT_POLL_MS,
            w.life() == Phase::Running,
            confirmed_at(w.table(), now),
            forall|p: u16| tracks(w.table(), p) <==> candidates@.contains(p),
    {
        Worker::with_policy(candidates, now, DEFAULT_TTL_MS, DEFAULT_POLL_MS)
    }

    /// The tracked ports in ascending order: the list to publish.
    pub fn ports(&self) -> (r: Vec<u16>)
        ensures
            r@ == ports_of(self.table()),
    {
        let mut r: Vec<u16> = Vec::new();
        let mut i: usize = 0;
        while i < self.entries.len()
            invariant
                i <= self.entries.len(),
                r@ == ports_of(self.entries@.take(i as int)),
            decreases self.entries.len() - i,
        {
            r.push(self.entries[i].port);
            proof {
                assert(r@ =~= ports_of(self.entries@.take(i + 1)));
            }
            i += 1;
        }
        proof {
            assert(self.entries@.take(i as int) =~= self.entries@);
        }
        r
    }

    /// A copy of the tracked entries, in table order.
    pub fn entries(&self) -> (r: Vec<TrackedEntry>)
        ensures
            r@ == self.table(),
    {
        let mut r: Vec<TrackedEntry> = Vec::new();
        let mut i: usize = 0;
        while i < self.entries.len()
            invariant
                i <= self.entries.len(),
                r@ == self.entries@.take(i as int),
            decreases self.entries.len() - i,
        {
            r.push(self.entries[i]);
            proof {
                assert(r@ =~= self.entries@.take(i + 1));
            }
            i += 1;
        }
        proof {
            assert(self.entries@.take(i as int) =~= self.entries@);
        }
        r
    }

    /// The time-to-live, in milliseconds.
    pub fn ttl_ms(&self) -> (r: u64)
        ensures
            r == self.ttl(),
    {
        self.ttl_ms
    }

    /// The pause between iterations, in milliseconds.
    pub fn poll_ms(&self) -> (r: u64)
        ensures
            r == self.poll(),
    {
        self.poll_ms
    }

    /// The current phase.
    pub fn phase(&self) -> (r: Phase)
        ensures
            r == self.life(),
    {
        self.phase
    }

    /// One iteration. A terminated worker, or one that finds the shutdown
    /// channel disconnected, stops and leaves its table alone. A running one
    /// asks `probe` about every due entry, once each and in table order, ages
    /// the table by the answers, and closes with the action for the caller.
    pub fn step<F: Fn(u16) -> bool>(&mut self, signal: Signal, now: u64, probe: F) -> (action:
        Action)
        requires
            old(self).wf(),
            forall|port: u16| probe.requires((port,)),
        ensures
            final(self).wf(),
            final(self).ttl() == old(self).ttl(),
            final(self).poll() == old(self).poll(),
            old(self).life() == Phase::Terminated || signal == Signal::Disconnected ==> {
                &&& action@ == ActionView::Stop
                &&& final(self).life() == Phase::Terminated
                &&& final(self).table() == old(self).table()
            },
            old(self).life() == Phase::Running && signal != Signal::Disconnected ==> {
                &&& final(self).life() == Phase::Running
                &&& aged_by(probe, old(self).table(), final(self).table(), now, old(self).ttl())
                &&& action@ == closing_action(
                    ports_of(old(self).table()),
                    ports_of(final(self).table()),
                    old(self).poll(),
                )
            },
    {
        let stop = match self.phase {
            Phase::Terminated => true,
            Phase::Running => match signal {
                Signal::Disconnected => true,
                _ => false,
            },
        };
        if stop {
            self.phase = Phase::Terminated;
            return Action::Stop;
        }
        let ghost before = self.entries@;
        let ttl_ms = self.ttl_ms;
        let mut next: Vec<TrackedEntry> = Vec::new();
        let mut live: Vec<u16> = Vec::new();
        let ghost mut reached: Set<u16> = Set::empty();
        let mut i: usize = 0;
        proof {
            assert(before.take(0) =~= Seq::<TrackedEntry>::empty());
            lemma_aged_empty(now, ttl_ms, reached);
            assert(live@ =~= ports_of(next@));
        }
        while i < self.entries.len()
            invariant
                i <= before.len(),
                self.entries@ == before,
                ascending(before),
                forall|port: u16| probe.requires((port,)),
                next@ == aged(before.take(i as int), now, ttl_ms, reached),
                live@ == ports_of(next@),
                answered(probe, before.take(i as int), now, ttl_ms, reached),
                forall|j: int| i <= j < before.len() ==> !reached.contains(#[trigger] before[j].port),
            decreases before.len() - i,
        {
            let e = self.entries[i];
            let ghost seen = before.take(i as int);
            let ghost earlier = reached;
            let mut stays: Option<TrackedEntry> = Some(e);
            if e.due(now, ttl_ms) {
                let reachable = probe(e.port);
                stays = e.settle(now, reachable);
                proof {
                    if reachable {
                        reached = reached.insert(e.port);
                    }
                }
            }
            proof {
                assert(before.take(i + 1) =~= seen.push(e));
                assert forall|j: int| 0 <= j < seen.len() implies earlier.contains(seen[j].port)
                    == reached.contains(#[trigger] seen[j].port) by {
                    assert(seen[j] == before[j]);
                    assert(before[j].port < before[i as int].port);
                }
                lemma_aged_same_answers(seen, now, ttl_ms, earlier, reached);
                lemma_aged_push(seen, e, now, ttl_ms, reached);
                assert(!earlier.contains(before[i as int].port));
                assert(answered(probe, seen.push(e), now, ttl_ms, reached)) by {
                    assert forall|j: int|
                        0 <= j < seen.push(e).len() && (#[trigger] seen.push(e)[j]).is_due(
                            now,
                            ttl_ms,
                        ) implies probe.ensures(
                        (seen.push(e)[j].port,),
                        reached.contains(seen.push(e)[j].port),
                    ) by {
                        if j < seen.len() {
                            assert(seen.push(e)[j] == seen[j]);
                            assert(seen[j].is_due(now, ttl_ms));
                        }
                    }
                }
                assert forall|j: int| i + 1 <= j < before.len() implies !reached.contains(
                    #[trigger] before[j].port,
                ) by {
                    assert(before[i as int].port < before[j].port);
                }
            }
            match stays {
                Some(f) => {
                    next.push(f);
                    live.push(f.port);
                    proof {
                        assert(survives(e, now, ttl_ms, reached));
                        assert(f == settled(e, now, ttl_ms));
                        assert(live@ =~= ports_of(next@));
                    }
                },
                None => {
                    proof {
                        assert(!survives(e, now, ttl_ms, reached));
                    }
                },
            }
            i += 1;
        }
        proof {
            assert(before.take(i as int) =~= before);
            lemma_aged_shape(before, now, ttl_ms, reached);
            if next@.len() != before.len() {
                assert(ports_of(next@).len() != ports_of(before).len());
            }
        }
        let changed = next.len() != self.entries.len();
        self.entries = next;
        proof {
            assert(self.entries@ == aged(before, now, ttl_ms, reached));
            assert(aged_by(probe, before, self.entries@, now, ttl_ms));
        }
        if changed {
            Action::Publish { ports: live, millis: self.poll_ms }
        } else {
            Action::Wait { millis: self.poll_ms }
        }
    }
}

} // verus!
