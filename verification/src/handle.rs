//! The owner's side: the published list of live ports.

use crate::table::{ports_of, strictly_ascending, tracks};
use crate::worker::{confirmed_at, Phase, Worker};
use crate::entry::{DEFAULT_POLL_MS, DEFAULT_TTL_MS};
use vstd::prelude::*;

verus! {

/// The published list of live ports. The worker replaces it as a whole; the
/// owner reads snapshots of it.
pub struct MinecraftScanner {
    ports: Vec<u16>,
}

impl View for MinecraftScanner {
    type V = Seq<u16>;

    closed spec fn view(&self) -> Seq<u16> {
        self.ports@
    }
}

/// Whether the ports are in ascending order with no port twice.
pub fn is_strictly_ascending(ports: &Vec<u16>) -> (r: bool)
    ensures
        r == strictly_ascending(ports@),
{
    let mut i: usize = 1;
    while i < ports.len()
        invariant
            1 <= i,
            forall|a: int, b: int| 0 <= a < b < i && b < ports@.len() ==> ports@[a] < ports@[b],
        decreases ports.len() - i,
    {
        if ports[i - 1] >= ports[i] {
            return false;
        }
        proof {
            assert forall|a: int, b: int| 0 <= a < b < i + 1 && b < ports@.len() implies ports@[a]
                < ports@[b] by {
                if b == i && a < i - 1 {
                    assert(ports@[a] < ports@[i - 1]);
                }
            }
        }
        i += 1;
    }
    true
}

impl MinecraftScanner {
    /// The published list is in ascending order and names no port twice.
    pub open spec fn wf(&self) -> bool {
        strictly_ascending(self@)
    }

    /// The two halves of a tracker at time `now`: the published list, and a
    /// running worker with the default policy that tracks every candidate.
    /// The list names exactly the candidates, each once, in ascending order.
    pub fn create(candidates: &Vec<u16>, now: u64) -> (r: (MinecraftScanner, Worker))
        ensures
            r.0.wf(),
            r.0@ == ports_of(r.1.table()),
            forall|p: u16| r.0@.contains(p) <==> candidates@.contains(p),
            candidates@.len() == 0 ==> r.0@.len() == 0,
            r.1.wf(),
            forall|p: u16| tracks(r.1.table(), p) <==> candidates@.contains(p),
            r.1.ttl() == DEFAULT_TTL_MS,
            r.1.poll() == DEFAULT_POLL_MS,
            r.1.life() == Phase::Running,
            confirmed_at(r.1.table(), now),
    {
        let worker = Worker::new(candidates, now);
        let ports = worker.ports();
        proof {
            let table = worker.table();
            assert forall|p: u16| ports@.contains(p) <==> candidates@.contains(p) by {
                if ports@.contains(p) {
                    let i = choose|i: int| 0 <= i < ports@.len() && ports@[i] == p;
                    assert(table[i].port == p);
                    assert(tracks(table, p));
                }
                if tracks(table, p) {
                    let i = choose|i: int| 0 <= i < table.len() && table[i].port == p;
                    assert(ports@[i] == p);
                }
            }
            if candidates@.len() == 0 && ports@.len() > 0 {
                assert(ports@.contains(ports@[0]));
            }
        }
        (MinecraftScanner { ports }, worker)
    }

    /// A snapshot of the published list.
    pub fn get_ports(&self) -> (r: Vec<u16>)
        ensures
            r@ == self@,
    {
        let mut r: Vec<u16> = Vec::new();
        let mut i: usize = 0;
        while i < self.ports.len()
            invariant
                i <= self.ports.len(),
                r@ == self.ports@.take(i as int),
            decreases self.ports.len() - i,
        {
            r.push(self.ports[i]);
            proof {
                assert(r@ =~= self.ports@.take(i + 1));
            }
            i += 1;
        }
        proof {
            assert(self.ports@.take(i as int) =~= self.ports@);
        }
        r
    }

    /// Replaces the published list as a whole by `ports`, if they are in
    /// ascending order with no port twice; any other list is turned down and
    /// the published one stays.
    pub fn publish(&mut self, ports: Vec<u16>) -> (accepted: bool)
        requires
            old(self).wf(),
        ensures
            accepted == strictly_ascending(ports@),
            final(self)@ == if accepted { ports@ } else { old(self)@ },
            final(self).wf(),
    {
        if is_strictly_ascending(&ports) {
            self.ports = ports;
            true
        } else {
            false
        }
    }
}

} // verus!
