//! What holds of the aging rule over one iteration and over many.

use crate::entry::TrackedEntry;
use crate::table::{
    aged, ascending, left_by, lemma_aged_empty, lemma_aged_push, lemma_aged_shape, ports_of,
    settled, strictly_ascending, survives, tracks,
};
use crate::worker::{closing_action, ActionView};
use vstd::prelude::*;

verus! {

/// The table after a run of iterations, each given by its time and by the
/// set of ports whose probe succeeded in it.
pub open spec fn after_rounds(
    table: Seq<TrackedEntry>,
    ttl_ms: u64,
    rounds: Seq<(u64, Set<u16>)>,
) -> Seq<TrackedEntry>
    decreases rounds.len(),
{
    if rounds.len() == 0 {
        table
    } else {
        aged(after_rounds(table, ttl_ms, rounds.drop_last()), rounds.last().0, ttl_ms, rounds.last().1)
    }
}

/// A table and its list of ports name the same ports.
pub proof fn lemma_ports_of_tracks(table: Seq<TrackedEntry>, port: u16)
    ensures
        ports_of(table).contains(port) <==> tracks(table, port),
{
    let ports = ports_of(table);
    if ports.contains(port) {
        let i = choose|i: int| 0 <= i < ports.len() && ports[i] == port;
        assert(table[i].port == port);
    }
    if tracks(table, port) {
        let i = choose|i: int| 0 <= i < table.len() && table[i].port == port;
        assert(ports[i] == port);
    }
}

/// An iteration adds no port: what the aged table tracks, the table tracked.
pub proof fn law_no_port_appears(
    table: Seq<TrackedEntry>,
    now: u64,
    ttl_ms: u64,
    reached: Set<u16>,
    port: u16,
)
    requires
        tracks(aged(table, now, ttl_ms, reached), port),
    ensures
        tracks(table, port),
{
    let out = aged(table, now, ttl_ms, reached);
    lemma_aged_shape(table, now, ttl_ms, reached);
    let k = choose|k: int| 0 <= k < out.len() && out[k].port == port;
    assert(left_by(out[k], table, now, ttl_ms, reached));
}

/// An entry that has reached the time-to-live and whose probe fails is gone
/// after the iteration, and the iteration closes by publishing a list that
/// does not name its port.
pub proof fn law_expired_entry_is_evicted(
    table: Seq<TrackedEntry>,
    now: u64,
    ttl_ms: u64,
    poll_ms: u64,
    reached: Set<u16>,
    i: int,
)
    requires
        ascending(table),
        0 <= i < table.len(),
        table[i].is_due(now, ttl_ms),
        !reached.contains(table[i].port),
    ensures
        !tracks(aged(table, now, ttl_ms, reached), table[i].port),
        !ports_of(aged(table, now, ttl_ms, reached)).contains(table[i].port),
        closing_action(ports_of(table), ports_of(aged(table, now, ttl_ms, reached)), poll_ms)
            == (ActionView::Publish {
            ports: ports_of(aged(table, now, ttl_ms, reached)),
            millis: poll_ms,
        }),
{
    let out = aged(table, now, ttl_ms, reached);
    let port = table[i].port;
    lemma_aged_shape(table, now, ttl_ms, reached);
    if tracks(out, port) {
        let k = choose|k: int| 0 <= k < out.len() && out[k].port == port;
        assert(left_by(out[k], table, now, ttl_ms, reached));
        let j = choose|j: int|
            0 <= j < table.len() && survives(#[trigger] table[j], now, ttl_ms, reached) && out[k]
                == settled(table[j], now, ttl_ms);
        if j < i {
            assert(table[j].port < table[i].port);
        } else if i < j {
            assert(table[i].port < table[j].port);
        }
        assert(false);
    }
    lemma_ports_of_tracks(out, port);
    lemma_ports_of_tracks(table, port);
    assert(tracks(table, port));
}

/// An entry that is not yet due, or whose probe succeeds, is still tracked
/// after the iteration.
pub proof fn law_confirmed_entry_stays(
    table: Seq<TrackedEntry>,
    now: u64,
    ttl_ms: u64,
    reached: Set<u16>,
    i: int,
)
    requires
        0 <= i < table.len(),
        survives(table[i], now, ttl_ms, reached),
    ensures
        tracks(aged(table, now, ttl_ms, reached), table[i].port),
        ports_of(aged(table, now, ttl_ms, reached)).contains(table[i].port),
{
    let out = aged(table, now, ttl_ms, reached);
    lemma_aged_shape(table, now, ttl_ms, reached);
    let f = settled(table[i], now, ttl_ms);
    assert(out.contains(f));
    let k = choose|k: int| 0 <= k < out.len() && out[k] == f;
    assert(out[k].port == table[i].port);
    lemma_ports_of_tracks(out, table[i].port);
}

/// Whatever entry `table` holds for `port` is not yet due at `now`, or the
/// port's probe succeeded.
pub open spec fn confirmed_in(
    table: Seq<TrackedEntry>,
    port: u16,
    now: u64,
    ttl_ms: u64,
    reached: Set<u16>,
) -> bool {
    forall|i: int|
        0 <= i < table.len() && (#[trigger] table[i]).port == port ==> survives(
            table[i],
            now,
            ttl_ms,
            reached,
        )
}

/// A tracked port whose probe succeeds every time its entry is due stays
/// tracked however many iterations pass.
pub proof fn law_refreshed_entry_stays_forever(
    table: Seq<TrackedEntry>,
    ttl_ms: u64,
    rounds: Seq<(u64, Set<u16>)>,
    port: u16,
)
    requires
        tracks(table, port),
        forall|k: int|
            0 <= k < rounds.len() ==> confirmed_in(
                after_rounds(table, ttl_ms, #[trigger] rounds.take(k)),
                port,
                rounds[k].0,
                ttl_ms,
                rounds[k].1,
            ),
    ensures
        tracks(after_rounds(table, ttl_ms, rounds), port),
        ports_of(after_rounds(table, ttl_ms, rounds)).contains(port),
    decreases rounds.len(),
{
    if rounds.len() > 0 {
        let earlier = rounds.drop_last();
        assert forall|k: int| 0 <= k < earlier.len() implies confirmed_in(
            after_rounds(table, ttl_ms, #[trigger] earlier.take(k)),
            port,
            earlier[k].0,
            ttl_ms,
            earlier[k].1,
        ) by {
            assert(earlier.take(k) =~= rounds.take(k));
            assert(earlier[k] == rounds[k]);
        }
        law_refreshed_entry_stays_forever(table, ttl_ms, earlier, port);
        let mid = after_rounds(table, ttl_ms, earlier);
        let last = rounds.len() - 1;
        assert(rounds.take(last) =~= earlier);
        assert(confirmed_in(mid, port, rounds[last].0, ttl_ms, rounds[last].1));
        let i = choose|i: int| 0 <= i < mid.len() && mid[i].port == port;
        law_confirmed_entry_stays(mid, rounds.last().0, ttl_ms, rounds.last().1, i);
    }
    lemma_ports_of_tracks(after_rounds(table, ttl_ms, rounds), port);
}

/// With a time-to-live above zero, no entry of the aged table is due at the
/// time of the iteration: every port that can be published has an entry
/// younger than the time-to-live.
pub proof fn law_aged_entries_are_fresh(
    table: Seq<TrackedEntry>,
    now: u64,
    ttl_ms: u64,
    reached: Set<u16>,
    k: int,
)
    requires
        ttl_ms > 0,
        0 <= k < aged(table, now, ttl_ms, reached).len(),
    ensures
        !aged(table, now, ttl_ms, reached)[k].is_due(now, ttl_ms),
{
    let out = aged(table, now, ttl_ms, reached);
    lemma_aged_shape(table, now, ttl_ms, reached);
    assert(left_by(out[k], table, now, ttl_ms, reached));
}

/// The list of an aged table is in ascending order with no port twice, so no
/// published list is.
pub proof fn law_published_list_is_ordered(
    table: Seq<TrackedEntry>,
    now: u64,
    ttl_ms: u64,
    reached: Set<u16>,
)
    requires
        ascending(table),
    ensures
        ascending(aged(table, now, ttl_ms, reached)),
        strictly_ascending(ports_of(aged(table, now, ttl_ms, reached))),
{
    lemma_aged_shape(table, now, ttl_ms, reached);
}

/// The order of a published list is fixed by what it names: two lists in
/// ascending order that name the same ports are the same list.
pub proof fn law_order_is_fixed_by_membership(a: Seq<u16>, b: Seq<u16>)
    requires
        strictly_ascending(a),
        strictly_ascending(b),
        forall|p: u16| a.contains(p) <==> b.contains(p),
    ensures
        a == b,
    decreases a.len(),
{
    if a.len() == 0 {
        if b.len() > 0 {
            assert(b.contains(b[0]));
        }
        assert(a =~= b);
    } else {
        let top = a.last();
        assert(a.contains(top));
        let at = choose|j: int| 0 <= j < b.len() && b[j] == top;
        if at < b.len() - 1 {
            assert(b.contains(b[b.len() - 1]));
            let back = choose|i: int| 0 <= i < a.len() && a[i] == b[b.len() - 1];
            assert(b[at] < b[b.len() - 1]);
            if back < a.len() - 1 {
                assert(a[back] < a[a.len() - 1]);
            }
            assert(false);
        }
        let a0 = a.drop_last();
        let b0 = b.drop_last();
        assert forall|p: u16| a0.contains(p) <==> b0.contains(p) by {
            if a0.contains(p) {
                let i = choose|i: int| 0 <= i < a0.len() && a0[i] == p;
                assert(a[i] == p);
                assert(a[i] < a[a.len() - 1]);
                assert(a.contains(p));
                let j = choose|j: int| 0 <= j < b.len() && b[j] == p;
                assert(b0[j] == p);
            }
            if b0.contains(p) {
                let j = choose|j: int| 0 <= j < b0.len() && b0[j] == p;
                assert(b[j] == p);
                assert(b[j] < b[b.len() - 1]);
                assert(b.contains(p));
                let i = choose|i: int| 0 <= i < a.len() && a[i] == p;
                assert(a0[i] == p);
            }
        }
        assert(strictly_ascending(a0)) by {
            assert forall|i: int, j: int| 0 <= i < j < a0.len() implies a0[i] < a0[j] by {
                assert(a0[i] == a[i] && a0[j] == a[j]);
            }
        }
        assert(strictly_ascending(b0)) by {
            assert forall|i: int, j: int| 0 <= i < j < b0.len() implies b0[i] < b0[j] by {
                assert(b0[i] == b[i] && b0[j] == b[j]);
            }
        }
        law_order_is_fixed_by_membership(a0, b0);
        assert(a =~= a0.push(top));
        assert(b =~= b0.push(top));
    }
}

/// Aging keeps every entry when none of the due ones fails its probe.
pub proof fn lemma_all_survive(table: Seq<TrackedEntry>, now: u64, ttl_ms: u64, reached: Set<u16>)
    requires
        forall|i: int| 0 <= i < table.len() ==> survives(#[trigger] table[i], now, ttl_ms, reached),
    ensures
        aged(table, now, ttl_ms, reached).len() == table.len(),
    decreases table.len(),
{
    if table.len() == 0 {
        assert(table =~= Seq::<TrackedEntry>::empty());
        lemma_aged_empty(now, ttl_ms, reached);
    } else {
        let rest = table.drop_last();
        assert(table =~= rest.push(table.last()));
        assert forall|i: int| 0 <= i < rest.len() implies survives(
            #[trigger] rest[i],
            now,
            ttl_ms,
            reached,
        ) by {
            assert(rest[i] == table[i]);
        }
        assert(survives(table[table.len() - 1], now, ttl_ms, reached));
        lemma_all_survive(rest, now, ttl_ms, reached);
        lemma_aged_push(rest, table.last(), now, ttl_ms, reached);
    }
}

/// An iteration in which no due entry fails its probe leaves the membership
/// as it was, and closes without publishing.
pub proof fn law_unchanged_membership_publishes_nothing(
    table: Seq<TrackedEntry>,
    now: u64,
    ttl_ms: u64,
    poll_ms: u64,
    reached: Set<u16>,
)
    requires
        forall|i: int| 0 <= i < table.len() ==> survives(#[trigger] table[i], now, ttl_ms, reached),
    ensures
        ports_of(aged(table, now, ttl_ms, reached)) == ports_of(table),
        closing_action(ports_of(table), ports_of(aged(table, now, ttl_ms, reached)), poll_ms)
            == (ActionView::Wait { millis: poll_ms }),
{
    lemma_all_survive(table, now, ttl_ms, reached);
    lemma_aged_shape(table, now, ttl_ms, reached);
}

/// Carrying out the closing action on a published list that named the
/// table's ports gives a list that names the aged table's ports, and the same
/// list as before where the membership did not change.
pub proof fn law_published_list_follows_table(before: Seq<u16>, after: Seq<u16>, poll_ms: u64)
    ensures
        closing_action(before, after, poll_ms).published(before) == after,
        after == before ==> closing_action(before, after, poll_ms) == (ActionView::Wait {
            millis: poll_ms,
        }),
{
}

/// An empty table stays empty through any run of iterations, and none of
/// them publishes.
pub proof fn law_empty_table_stays_empty(ttl_ms: u64, poll_ms: u64, rounds: Seq<(u64, Set<u16>)>)
    ensures
        after_rounds(Seq::<TrackedEntry>::empty(), ttl_ms, rounds) == Seq::<TrackedEntry>::empty(),
        forall|now: u64, reached: Set<u16>|
            #[trigger] closing_action(
                ports_of(Seq::<TrackedEntry>::empty()),
                ports_of(aged(Seq::<TrackedEntry>::empty(), now, ttl_ms, reached)),
                poll_ms,
            ) == (ActionView::Wait { millis: poll_ms }),
    decreases rounds.len(),
{
    if rounds.len() > 0 {
        law_empty_table_stays_empty(ttl_ms, poll_ms, rounds.drop_last());
        lemma_aged_empty(rounds.last().0, ttl_ms, rounds.last().1);
    }
    assert forall|now: u64, reached: Set<u16>|
        #[trigger] closing_action(
            ports_of(Seq::<TrackedEntry>::empty()),
            ports_of(aged(Seq::<TrackedEntry>::empty(), now, ttl_ms, reached)),
            poll_ms,
        ) == (ActionView::Wait { millis: poll_ms }) by {
        lemma_aged_empty(now, ttl_ms, reached);
    }
}

} // verus!
