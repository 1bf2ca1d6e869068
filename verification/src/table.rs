//! The table of tracked entries as a mathematical sequence, and the aging
//! rule on it.

use crate::entry::TrackedEntry;
use vstd::prelude::*;

verus! {

/// The ports of a table, in the table's order.
pub open spec fn ports_of(table: Seq<TrackedEntry>) -> Seq<u16> {
    table.map_values(|e: TrackedEntry| e.port)
}

/// A list of ports in ascending order, none twice.
pub open spec fn strictly_ascending(ports: Seq<u16>) -> bool {
    forall|i: int, j: int| 0 <= i < j < ports.len() ==> ports[i] < ports[j]
}

/// A table ordered by port, each port at most once.
pub open spec fn ascending(table: Seq<TrackedEntry>) -> bool {
    forall|i: int, j: int| 0 <= i < j < table.len() ==> table[i].port < table[j].port
}

/// The table holds an entry for `port`.
pub open spec fn tracks(table: Seq<TrackedEntry>, port: u16) -> bool {
    exists|i: int| 0 <= i < table.len() && table[i].port == port
}

/// An entry stays in the table through an iteration at `now` unless it was
/// due and its probe failed. `reached` holds the ports whose probe succeeded.
pub open spec fn survives(e: TrackedEntry, now: u64, ttl_ms: u64, reached: Set<u16>) -> bool {
    !e.is_due(now, ttl_ms) || reached.contains(e.port)
}

/// A surviving entry after the iteration: confirmed at `now` if it was due,
/// untouched if it was not.
pub open spec fn settled(e: TrackedEntry, now: u64, ttl_ms: u64) -> TrackedEntry {
    if e.is_due(now, ttl_ms) {
        e.refreshed(now)
    } else {
        e
    }
}

/// `f` is what the iteration left of some entry of `table`.
pub open spec fn left_by(
    f: TrackedEntry,
    table: Seq<TrackedEntry>,
    now: u64,
    ttl_ms: u64,
    reached: Set<u16>,
) -> bool {
    exists|i: int|
        0 <= i < table.len() && survives(#[trigger] table[i], now, ttl_ms, reached) && f == settled(
            table[i],
            now,
            ttl_ms,
        )
}

/// The entries that stay, as they were before the iteration.
pub open spec fn kept(table: Seq<TrackedEntry>, now: u64, ttl_ms: u64, reached: Set<u16>) -> Seq<
    TrackedEntry,
> {
    table.filter(|e: TrackedEntry| survives(e, now, ttl_ms, reached))
}

/// The table after one iteration at `now`: due entries whose probe failed are
/// gone, due entries whose probe succeeded are confirmed at `now`, the others
/// are unchanged, and the order is kept.
pub open spec fn aged(table: Seq<TrackedEntry>, now: u64, ttl_ms: u64, reached: Set<u16>) -> Seq<
    TrackedEntry,
> {
    kept(table, now, ttl_ms, reached).map_values(|e: TrackedEntry| settled(e, now, ttl_ms))
}

/// Aging an empty table leaves it empty.
pub proof fn lemma_aged_empty(now: u64, ttl_ms: u64, reached: Set<u16>)
    ensures
        aged(Seq::<TrackedEntry>::empty(), now, ttl_ms, reached) == Seq::<TrackedEntry>::empty(),
{
    let pred = |e: TrackedEntry| survives(e, now, ttl_ms, reached);
    Seq::<TrackedEntry>::empty().lemma_filter_len(pred);
    assert(aged(Seq::<TrackedEntry>::empty(), now, ttl_ms, reached) =~= Seq::<
        TrackedEntry,
    >::empty());
}

/// Aging goes entry by entry: the last entry's fate does not touch the rest.
pub proof fn lemma_aged_push(
    table: Seq<TrackedEntry>,
    e: TrackedEntry,
    now: u64,
    ttl_ms: u64,
    reached: Set<u16>,
)
    ensures
        aged(table.push(e), now, ttl_ms, reached) == if survives(e, now, ttl_ms, reached) {
            aged(table, now, ttl_ms, reached).push(settled(e, now, ttl_ms))
        } else {
            aged(table, now, ttl_ms, reached)
        },
{
    let pred = |e: TrackedEntry| survives(e, now, ttl_ms, reached);
    table.lemma_filter_push(e, pred);
    if survives(e, now, ttl_ms, reached) {
        assert(aged(table.push(e), now, ttl_ms, reached) =~= aged(
            table,
            now,
            ttl_ms,
            reached,
        ).push(settled(e, now, ttl_ms)));
    }
}

/// Only the probes of the table's own ports matter to its aging.
pub proof fn lemma_aged_same_answers(
    table: Seq<TrackedEntry>,
    now: u64,
    ttl_ms: u64,
    a: Set<u16>,
    b: Set<u16>,
)
    requires
        forall|i: int| 0 <= i < table.len() ==> a.contains(table[i].port) == b.contains(#[trigger] table[i].port),
    ensures
        aged(table, now, ttl_ms, a) == aged(table, now, ttl_ms, b),
    decreases table.len(),
{
    if table.len() == 0 {
        assert(table =~= Seq::<TrackedEntry>::empty());
        lemma_aged_empty(now, ttl_ms, a);
        lemma_aged_empty(now, ttl_ms, b);
    } else {
        let rest = table.drop_last();
        let e = table.last();
        assert(table =~= rest.push(e));
        assert forall|i: int| 0 <= i < rest.len() implies a.contains(rest[i].port) == b.contains(#[trigger] rest[i].port) by {
            assert(rest[i] == table[i]);
        }
        lemma_aged_same_answers(rest, now, ttl_ms, a, b);
        lemma_aged_push(rest, e, now, ttl_ms, a);
        lemma_aged_push(rest, e, now, ttl_ms, b);
    }
}

/// Where every aged entry comes from, which entries are still there, and
/// that aging keeps the order by port.
pub proof fn lemma_aged_shape(table: Seq<TrackedEntry>, now: u64, ttl_ms: u64, reached: Set<u16>)
    ensures
        aged(table, now, ttl_ms, reached).len() <= table.len(),
        forall|k: int|
            0 <= k < aged(table, now, ttl_ms, reached).len() ==> left_by(
                #[trigger] aged(table, now, ttl_ms, reached)[k],
                table,
                now,
                ttl_ms,
                reached,
            ),
        forall|i: int|
            0 <= i < table.len() && survives(#[trigger] table[i], now, ttl_ms, reached) ==> aged(
                table,
                now,
                ttl_ms,
                reached,
            ).contains(settled(table[i], now, ttl_ms)),
        ascending(table) ==> ascending(aged(table, now, ttl_ms, reached)),
        aged(table, now, ttl_ms, reached).len() == table.len() ==> ports_of(
            aged(table, now, ttl_ms, reached),
        ) == ports_of(table),
    decreases table.len(),
{
    let out = aged(table, now, ttl_ms, reached);
    if table.len() == 0 {
        assert(table =~= Seq::<TrackedEntry>::empty());
        lemma_aged_empty(now, ttl_ms, reached);
        assert(ports_of(out) =~= ports_of(table));
    } else {
        let rest = table.drop_last();
        let e = table.last();
        let head = aged(rest, now, ttl_ms, reached);
        assert(table =~= rest.push(e));
        lemma_aged_shape(rest, now, ttl_ms, reached);
        lemma_aged_push(rest, e, now, ttl_ms, reached);
        assert forall|k: int| 0 <= k < out.len() implies left_by(
            #[trigger] out[k],
            table,
            now,
            ttl_ms,
            reached,
        ) by {
            if k < head.len() {
                assert(left_by(head[k], rest, now, ttl_ms, reached));
                let i = choose|i: int|
                    0 <= i < rest.len() && survives(#[trigger] rest[i], now, ttl_ms, reached)
                        && head[k] == settled(rest[i], now, ttl_ms);
                assert(rest[i] == table[i]);
            } else {
                assert(out[k] == settled(table[table.len() - 1], now, ttl_ms));
            }
        }
        assert forall|i: int|
            0 <= i < table.len() && survives(
                #[trigger] table[i],
                now,
                ttl_ms,
                reached,
            ) implies out.contains(settled(table[i], now, ttl_ms)) by {
            if i < rest.len() {
                assert(rest[i] == table[i]);
                let k = choose|k: int| 0 <= k < head.len() && head[k] == settled(rest[i], now, ttl_ms);
                assert(out[k] == settled(table[i], now, ttl_ms));
            } else {
                assert(out[out.len() - 1] == settled(table[i], now, ttl_ms));
            }
        }
        if ascending(table) {
            assert(ascending(rest)) by {
                assert forall|i: int, j: int| 0 <= i < j < rest.len() implies rest[i].port
                    < rest[j].port by {
                    assert(rest[i] == table[i] && rest[j] == table[j]);
                }
            }
            assert forall|i: int, j: int| 0 <= i < j < out.len() implies out[i].port
                < out[j].port by {
                if j < head.len() {
                    assert(out[i] == head[i] && out[j] == head[j]);
                } else {
                    assert(left_by(head[i], rest, now, ttl_ms, reached));
                    let s = choose|s: int|
                        0 <= s < rest.len() && survives(#[trigger] rest[s], now, ttl_ms, reached)
                            && head[i] == settled(rest[s], now, ttl_ms);
                    assert(rest[s] == table[s]);
                    assert(out[i] == head[i]);
                    assert(out[j] == settled(e, now, ttl_ms));
                    assert(table[s].port < table[table.len() - 1].port);
                }
            }
        }
        if out.len() == table.len() {
            assert(head.len() == rest.len());
            assert(ports_of(out) =~= ports_of(head).push(e.port));
            assert(ports_of(table) =~= ports_of(rest).push(e.port));
        }
    }
}

} // verus!
