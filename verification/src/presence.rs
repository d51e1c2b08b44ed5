//! What holds of the tracker, over one poll and over a run of polls.

use crate::device::{DeviceKey, DeviceView, EventView};
use crate::snapshot::{distinct_keys, has_key, lemma_distinct_front};
use crate::tracker::{
    connected, distinct_entries, evicted, ingest_events, ingest_state, is_expired, is_tracked,
    lemma_distinct_entries_front, lemma_observe, lemma_retained_distinct, lemma_retained_subset,
    observe, retained, TrackedEntryView,
};
use vstd::prelude::*;

verus! {

/// How many of `events` report that a device with the identity `key` connected.
pub open spec fn connections_of(events: Seq<EventView>, key: DeviceKey) -> nat
    decreases events.len(),
{
    if events.len() == 0 {
        0
    } else {
        let earlier = connections_of(events.drop_last(), key);
        match events.last() {
            EventView::Connected(device) if device.key() == key => earlier + 1,
            _ => earlier,
        }
    }
}

/// How many of `events` report that a device with the identity `key`
/// disconnected.
pub open spec fn disconnections_of(events: Seq<EventView>, key: DeviceKey) -> nat
    decreases events.len(),
{
    if events.len() == 0 {
        0
    } else {
        let earlier = disconnections_of(events.drop_last(), key);
        match events.last() {
            EventView::Disconnected(device) if device.key() == key => earlier + 1,
            _ => earlier,
        }
    }
}

/// Whether the entry that tracks `key` is given up.
pub open spec fn is_given_up(
    entries: Seq<TrackedEntryView>,
    devices: Seq<DeviceView>,
    now: u64,
    timeout: u64,
    key: DeviceKey,
) -> bool {
    exists|m: int|
        0 <= m < entries.len() && (#[trigger] entries[m]).device.key() == key && is_expired(
            entries[m],
            devices,
            now,
            timeout,
        )
}

/// Events are counted part by part.
pub proof fn lemma_counts_concat(front: Seq<EventView>, back: Seq<EventView>, key: DeviceKey)
    ensures
        connections_of(front + back, key) == connections_of(front, key) + connections_of(
            back,
            key,
        ),
        disconnections_of(front + back, key) == disconnections_of(front, key) + disconnections_of(
            back,
            key,
        ),
    decreases back.len(),
{
    if back.len() == 0 {
        assert(front + back == front);
    } else {
        assert((front + back).drop_last() == front + back.drop_last());
        assert((front + back).last() == back.last());
        lemma_counts_concat(front, back.drop_last(), key);
    }
}

/// Of the connections reported, one is that of `key` where a device with
/// that identity was seen and not tracked, and none otherwise. No
/// disconnection is among them.
pub proof fn lemma_counts_connected(
    entries: Seq<TrackedEntryView>,
    devices: Seq<DeviceView>,
    key: DeviceKey,
)
    requires
        distinct_keys(devices),
    ensures
        connections_of(connected(entries, devices), key) == if has_key(devices, key)
            && !is_tracked(entries, key) {
            1nat
        } else {
            0nat
        },
        disconnections_of(connected(entries, devices), key) == 0,
    decreases devices.len(),
{
    if devices.len() > 0 {
        let front = devices.drop_last();
        let last = devices.last();
        lemma_distinct_front(devices);
        lemma_counts_connected(entries, front, key);
        if !is_tracked(entries, last.key()) {
            assert(connected(entries, devices).drop_last() == connected(entries, front));
        }
        if has_key(front, key) {
            let m = choose|m: int| 0 <= m < front.len() && (#[trigger] front[m]).key() == key;
            assert(devices[m].key() == key);
            assert(devices[devices.len() - 1].key() == last.key());
        }
        if has_key(devices, key) && last.key() != key {
            let m = choose|m: int| 0 <= m < devices.len() && (#[trigger] devices[m]).key() == key;
            assert(front[m].key() == key);
        }
        if last.key() == key {
            assert(devices[devices.len() - 1].key() == key);
        }
    } else {
        assert(!has_key(devices, key));
    }
}

/// Of the disconnections reported, one is that of `key` where its entry is
/// given up, and none otherwise. No connection is among them.
pub proof fn lemma_counts_evicted(
    entries: Seq<TrackedEntryView>,
    devices: Seq<DeviceView>,
    now: u64,
    timeout: u64,
    key: DeviceKey,
)
    requires
        distinct_entries(entries),
    ensures
        disconnections_of(evicted(entries, devices, now, timeout), key) == if is_given_up(
            entries,
            devices,
            now,
            timeout,
            key,
        ) {
            1nat
        } else {
            0nat
        },
        connections_of(evicted(entries, devices, now, timeout), key) == 0,
    decreases entries.len(),
{
    if entries.len() > 0 {
        let front = entries.drop_last();
        let last = entries.last();
        lemma_distinct_entries_front(entries);
        lemma_counts_evicted(front, devices, now, timeout, key);
        if is_expired(last, devices, now, timeout) {
            assert(evicted(entries, devices, now, timeout).drop_last() == evicted(
                front,
                devices,
                now,
                timeout,
            ));
        }
        if is_given_up(front, devices, now, timeout, key) {
            let m = choose|m: int|
                0 <= m < front.len() && (#[trigger] front[m]).device.key() == key && is_expired(
                    front[m],
                    devices,
                    now,
                    timeout,
                );
            assert(entries[m] == front[m]);
            assert(entries[entries.len() - 1] == last);
        }
        if is_given_up(entries, devices, now, timeout, key) {
            let m = choose|m: int|
                0 <= m < entries.len() && (#[trigger] entries[m]).device.key() == key
                    && is_expired(entries[m], devices, now, timeout);
            if m < front.len() {
                assert(front[m] == entries[m]);
            }
        }
        if last.device.key() == key && is_expired(last, devices, now, timeout) {
            assert(entries[entries.len() - 1] == last);
        }
    } else {
        assert(!is_given_up(entries, devices, now, timeout, key));
    }
}

/// A device that was seen and not tracked is among the connections.
pub proof fn lemma_connected_holds(
    entries: Seq<TrackedEntryView>,
    devices: Seq<DeviceView>,
    i: int,
)
    requires
        0 <= i < devices.len(),
        !is_tracked(entries, devices[i].key()),
    ensures
        connected(entries, devices).contains(EventView::Connected(devices[i])),
    decreases devices.len(),
{
    let all = connected(entries, devices);
    if i == devices.len() - 1 {
        assert(all[all.len() - 1] == EventView::Connected(devices[i]));
    } else {
        let front = devices.drop_last();
        lemma_connected_holds(entries, front, i);
        let k = choose|k: int|
            0 <= k < connected(entries, front).len() && connected(entries, front)[k]
                == EventView::Connected(front[i]);
        assert(all[k] == EventView::Connected(devices[i]));
    }
}

/// An entry that is given up is among the disconnections.
pub proof fn lemma_evicted_holds(
    entries: Seq<TrackedEntryView>,
    devices: Seq<DeviceView>,
    now: u64,
    timeout: u64,
    i: int,
)
    requires
        0 <= i < entries.len(),
        is_expired(entries[i], devices, now, timeout),
    ensures
        evicted(entries, devices, now, timeout).contains(
            EventView::Disconnected(entries[i].device),
        ),
    decreases entries.len(),
{
    let all = evicted(entries, devices, now, timeout);
    if i == entries.len() - 1 {
        assert(all[all.len() - 1] == EventView::Disconnected(entries[i].device));
    } else {
        let front = entries.drop_last();
        lemma_evicted_holds(front, devices, now, timeout, i);
        let k = choose|k: int|
            0 <= k < evicted(front, devices, now, timeout).len() && evicted(
                front,
                devices,
                now,
                timeout,
            )[k] == EventView::Disconnected(front[i].device);
        assert(all[k] == EventView::Disconnected(entries[i].device));
    }
}

/// An entry that is not given up is retained.
pub proof fn lemma_retained_keeps(
    entries: Seq<TrackedEntryView>,
    devices: Seq<DeviceView>,
    now: u64,
    timeout: u64,
    i: int,
)
    requires
        0 <= i < entries.len(),
        !is_expired(entries[i], devices, now, timeout),
    ensures
        retained(entries, devices, now, timeout).contains(entries[i]),
    decreases entries.len(),
{
    let front = entries.drop_last();
    let kept = retained(entries, devices, now, timeout);
    if i == entries.len() - 1 {
        assert(kept[kept.len() - 1] == entries[i]);
    } else {
        lemma_retained_keeps(front, devices, now, timeout, i);
        assert(front[i] == entries[i]);
        let k = choose|k: int|
            0 <= k < retained(front, devices, now, timeout).len() && retained(
                front,
                devices,
                now,
                timeout,
            )[k] == entries[i];
        assert(kept[k] == entries[i]);
    }
}

/// What seeing devices does to the entries: those tracked before keep
/// their places and identities, those whose device was not seen are left as
/// they were, and what comes after them tracks devices that were seen.
pub proof fn lemma_observe_shape(
    entries: Seq<TrackedEntryView>,
    devices: Seq<DeviceView>,
    now: u64,
)
    ensures
        observe(entries, devices, now).len() >= entries.len(),
        forall|i: int|
            0 <= i < entries.len() ==> (#[trigger] observe(entries, devices, now)[i]).device.key()
                == entries[i].device.key(),
        forall|i: int|
            0 <= i < entries.len() && !has_key(devices, entries[i].device.key()) ==> (
            #[trigger] observe(entries, devices, now)[i]) == entries[i],
        forall|i: int|
            entries.len() <= i < observe(entries, devices, now).len() ==> has_key(
                devices,
                (#[trigger] observe(entries, devices, now)[i]).device.key(),
            ),
    decreases devices.len(),
{
    if devices.len() > 0 {
        let front = devices.drop_last();
        let last = devices.last();
        let before = observe(entries, front, now);
        let after = observe(entries, devices, now);
        lemma_observe_shape(entries, front, now);
        assert(devices[devices.len() - 1].key() == last.key());
        assert forall|i: int| 0 <= i < entries.len() implies (#[trigger] after[i]).device.key()
            == entries[i].device.key() by {
            assert(before[i].device.key() == entries[i].device.key());
        }
        assert forall|i: int|
            0 <= i < entries.len() && !has_key(devices, entries[i].device.key()) implies (
        #[trigger] after[i]) == entries[i] by {
            assert(before[i].device.key() == entries[i].device.key());
            if has_key(front, entries[i].device.key()) {
                let m = choose|m: int|
                    0 <= m < front.len() && (#[trigger] front[m]).key()
                        == entries[i].device.key();
                assert(devices[m].key() == entries[i].device.key());
            }
            assert(before[i] == entries[i]);
        }
        assert forall|i: int| entries.len() <= i < after.len() implies has_key(
            devices,
            (#[trigger] after[i]).device.key(),
        ) by {
            if i < before.len() {
                assert(has_key(front, before[i].device.key()));
                let m = choose|m: int|
                    0 <= m < front.len() && (#[trigger] front[m]).key()
                        == before[i].device.key();
                assert(devices[m].key() == before[i].device.key());
                assert(after[i].device.key() == before[i].device.key());
            }
        }
    }
}

/// Seeing devices gives no entry up that was not given up already, and
/// saves none but those of the devices seen: an identity is given up after
/// the devices were seen just when it was before.
pub proof fn lemma_given_up_after_observe(
    entries: Seq<TrackedEntryView>,
    devices: Seq<DeviceView>,
    now: u64,
    timeout: u64,
    key: DeviceKey,
)
    ensures
        is_given_up(observe(entries, devices, now), devices, now, timeout, key) == is_given_up(
            entries,
            devices,
            now,
            timeout,
            key,
        ),
{
    let after = observe(entries, devices, now);
    lemma_observe_shape(entries, devices, now);
    if is_given_up(after, devices, now, timeout, key) {
        let m = choose|m: int|
            0 <= m < after.len() && (#[trigger] after[m]).device.key() == key && is_expired(
                after[m],
                devices,
                now,
                timeout,
            );
        assert(m < entries.len());
        assert(entries[m].device.key() == key);
        assert(after[m] == entries[m]);
    }
    if is_given_up(entries, devices, now, timeout, key) {
        let m = choose|m: int|
            0 <= m < entries.len() && (#[trigger] entries[m]).device.key() == key && is_expired(
                entries[m],
                devices,
                now,
                timeout,
            );
        assert(after[m] == entries[m]);
    }
}

/// With no identity seen twice, each device seen is tracked afterwards with
/// the record of that sighting and the time of the poll.
pub proof fn lemma_observe_records(
    entries: Seq<TrackedEntryView>,
    devices: Seq<DeviceView>,
    now: u64,
    i: int,
)
    requires
        distinct_keys(devices),
        0 <= i < devices.len(),
    ensures
        observe(entries, devices, now).contains(
            TrackedEntryView { device: devices[i], last_seen: now },
        ),
    decreases devices.len(),
{
    let front = devices.drop_last();
    let last = devices.last();
    let before = observe(entries, front, now);
    let after = observe(entries, devices, now);
    let seen = TrackedEntryView { device: devices[i], last_seen: now };
    if i == devices.len() - 1 {
        if is_tracked(before, last.key()) {
            let k = choose|k: int|
                0 <= k < before.len() && (#[trigger] before[k]).device.key() == last.key();
            assert(after[k] == seen);
        } else {
            assert(after[before.len() as int] == seen);
        }
    } else {
        lemma_distinct_front(devices);
        lemma_observe_records(entries, front, now, i);
        assert(front[i] == devices[i]);
        let k = choose|k: int| 0 <= k < before.len() && before[k] == seen;
        assert(devices[i].key() != devices[devices.len() - 1].key());
        assert(after[k] == seen);
    }
}

/// A poll keeps the tracked identities distinct.
pub proof fn lemma_ingest_distinct(
    entries: Seq<TrackedEntryView>,
    devices: Seq<DeviceView>,
    now: u64,
    timeout: u64,
)
    requires
        distinct_entries(entries),
    ensures
        distinct_entries(ingest_state(entries, devices, now, timeout)),
{
    lemma_observe(entries, devices, now);
    lemma_retained_distinct(observe(entries, devices, now), devices, now, timeout);
}

/// A poll tracks an identity afterwards just when a device with it was
/// seen, or it was tracked before and its entry is not given up.
pub proof fn lemma_ingest_tracks(
    entries: Seq<TrackedEntryView>,
    devices: Seq<DeviceView>,
    now: u64,
    timeout: u64,
    key: DeviceKey,
)
    requires
        distinct_entries(entries),
    ensures
        is_tracked(ingest_state(entries, devices, now, timeout), key) <==> has_key(devices, key)
            || (is_tracked(entries, key) && !is_given_up(entries, devices, now, timeout, key)),
{
    let merged = observe(entries, devices, now);
    let after = ingest_state(entries, devices, now, timeout);
    lemma_observe(entries, devices, now);
    lemma_given_up_after_observe(entries, devices, now, timeout, key);
    lemma_retained_subset(merged, devices, now, timeout);
    if is_tracked(after, key) {
        let k = choose|k: int| 0 <= k < after.len() && (#[trigger] after[k]).device.key() == key;
        assert(merged.contains(after[k]));
        let m = choose|m: int| 0 <= m < merged.len() && merged[m] == after[k];
        assert(merged[m].device.key() == key);
        assert(is_tracked(merged, key));
        if is_given_up(merged, devices, now, timeout, key) {
            let g = choose|g: int|
                0 <= g < merged.len() && (#[trigger] merged[g]).device.key() == key
                    && is_expired(merged[g], devices, now, timeout);
            assert(g == m);
        }
    }
    if is_tracked(merged, key) && !is_given_up(merged, devices, now, timeout, key) {
        let m = choose|m: int|
            0 <= m < merged.len() && (#[trigger] merged[m]).device.key() == key;
        lemma_retained_keeps(merged, devices, now, timeout, m);
        let k = choose|k: int| 0 <= k < after.len() && after[k] == merged[m];
        assert(after[k].device.key() == key);
    }
    if has_key(devices, key) && is_given_up(merged, devices, now, timeout, key) {
        let g = choose|g: int|
            0 <= g < merged.len() && (#[trigger] merged[g]).device.key() == key && is_expired(
                merged[g],
                devices,
                now,
                timeout,
            );
        assert(false);
    }
}

/// A poll reports one connection of an identity where a device with it was
/// seen and it was not tracked, and none otherwise; and one disconnection of
/// an identity where its entry is given up, and none otherwise.
pub proof fn lemma_ingest_counts(
    entries: Seq<TrackedEntryView>,
    devices: Seq<DeviceView>,
    now: u64,
    timeout: u64,
    key: DeviceKey,
)
    requires
        distinct_entries(entries),
        distinct_keys(devices),
    ensures
        connections_of(ingest_events(entries, devices, now, timeout), key) == if has_key(
            devices,
            key,
        ) && !is_tracked(entries, key) {
            1nat
        } else {
            0nat
        },
        disconnections_of(ingest_events(entries, devices, now, timeout), key) == if is_given_up(
            entries,
            devices,
            now,
            timeout,
            key,
        ) {
            1nat
        } else {
            0nat
        },
{
    let merged = observe(entries, devices, now);
    lemma_observe(entries, devices, now);
    lemma_counts_connected(entries, devices, key);
    lemma_counts_evicted(merged, devices, now, timeout, key);
    lemma_given_up_after_observe(entries, devices, now, timeout, key);
    lemma_counts_concat(
        connected(entries, devices),
        evicted(merged, devices, now, timeout),
        key,
    );
}

/// A device that is seen and was not tracked is reported as connected
/// exactly once, and is tracked afterwards, with the record of the snapshot
/// and the time of the poll.
pub proof fn lemma_new_device_connects_once(
    entries: Seq<TrackedEntryView>,
    devices: Seq<DeviceView>,
    now: u64,
    timeout: u64,
    i: int,
)
    requires
        distinct_entries(entries),
        distinct_keys(devices),
        0 <= i < devices.len(),
        !is_tracked(entries, devices[i].key()),
    ensures
        connections_of(ingest_events(entries, devices, now, timeout), devices[i].key()) == 1,
        ingest_events(entries, devices, now, timeout).contains(EventView::Connected(devices[i])),
        is_tracked(ingest_state(entries, devices, now, timeout), devices[i].key()),
        ingest_state(entries, devices, now, timeout).contains(
            TrackedEntryView { device: devices[i], last_seen: now },
        ),
{
    let key = devices[i].key();
    let merged = observe(entries, devices, now);
    let events = ingest_events(entries, devices, now, timeout);
    let seen = TrackedEntryView { device: devices[i], last_seen: now };
    assert(has_key(devices, key));
    lemma_ingest_counts(entries, devices, now, timeout, key);
    lemma_ingest_tracks(entries, devices, now, timeout, key);
    lemma_connected_holds(entries, devices, i);
    let j = choose|j: int|
        0 <= j < connected(entries, devices).len() && connected(entries, devices)[j]
            == EventView::Connected(devices[i]);
    assert(events[j] == EventView::Connected(devices[i]));
    lemma_observe_records(entries, devices, now, i);
    let k = choose|k: int| 0 <= k < merged.len() && merged[k] == seen;
    lemma_retained_keeps(merged, devices, now, timeout, k);
}

/// A poll that does not see a tracked device, no more than the timeout
/// after it was last seen, reports no disconnection of it and leaves its
/// entry as it was.
pub proof fn lemma_absent_within_timeout_stays(
    entries: Seq<TrackedEntryView>,
    devices: Seq<DeviceView>,
    now: u64,
    timeout: u64,
    i: int,
)
    requires
        distinct_entries(entries),
        distinct_keys(devices),
        0 <= i < entries.len(),
        !has_key(devices, entries[i].device.key()),
        now - entries[i].last_seen <= timeout,
    ensures
        disconnections_of(ingest_events(entries, devices, now, timeout), entries[i].device.key())
            == 0,
        ingest_state(entries, devices, now, timeout).contains(entries[i]),
{
    let key = entries[i].device.key();
    let merged = observe(entries, devices, now);
    lemma_ingest_counts(entries, devices, now, timeout, key);
    if is_given_up(entries, devices, now, timeout, key) {
        let m = choose|m: int|
            0 <= m < entries.len() && (#[trigger] entries[m]).device.key() == key && is_expired(
                entries[m],
                devices,
                now,
                timeout,
            );
        assert(m == i);
    }
    lemma_observe_shape(entries, devices, now);
    assert(merged[i] == entries[i]);
    lemma_retained_keeps(merged, devices, now, timeout, i);
}

/// A poll that does not see a tracked device, more than the timeout after
/// it was last seen, reports its disconnection exactly once, with the
/// record that was tracked, and tracks it no longer.
pub proof fn lemma_absent_beyond_timeout_goes(
    entries: Seq<TrackedEntryView>,
    devices: Seq<DeviceView>,
    now: u64,
    timeout: u64,
    i: int,
)
    requires
        distinct_entries(entries),
        distinct_keys(devices),
        0 <= i < entries.len(),
        !has_key(devices, entries[i].device.key()),
        now - entries[i].last_seen > timeout,
    ensures
        disconnections_of(ingest_events(entries, devices, now, timeout), entries[i].device.key())
            == 1,
        ingest_events(entries, devices, now, timeout).contains(
            EventView::Disconnected(entries[i].device),
        ),
        !is_tracked(ingest_state(entries, devices, now, timeout), entries[i].device.key()),
{
    let key = entries[i].device.key();
    let merged = observe(entries, devices, now);
    let events = ingest_events(entries, devices, now, timeout);
    assert(is_given_up(entries, devices, now, timeout, key));
    lemma_ingest_counts(entries, devices, now, timeout, key);
    lemma_ingest_tracks(entries, devices, now, timeout, key);
    lemma_observe_shape(entries, devices, now);
    assert(merged[i] == entries[i]);
    lemma_evicted_holds(merged, devices, now, timeout, i);
    let gone = evicted(merged, devices, now, timeout);
    let j = choose|j: int|
        0 <= j < gone.len() && gone[j] == EventView::Disconnected(entries[i].device);
    assert(events[connected(entries, devices).len() + j] == EventView::Disconnected(
        entries[i].device,
    ));
}

/// One poll of a run: what was seen, and when.
pub struct Poll {
    pub devices: Seq<DeviceView>,
    pub now: u64,
}

/// What is tracked before poll number `n` of a run that starts from
/// `entries`; polls are numbered from 0.
pub open spec fn state_before(
    entries: Seq<TrackedEntryView>,
    polls: Seq<Poll>,
    timeout: u64,
    n: int,
) -> Seq<TrackedEntryView>
    decreases n,
{
    if n <= 0 {
        entries
    } else {
        ingest_state(
            state_before(entries, polls, timeout, n - 1),
            polls[n - 1].devices,
            polls[n - 1].now,
            timeout,
        )
    }
}

/// What poll number `n` of the run reports.
pub open spec fn events_at(
    entries: Seq<TrackedEntryView>,
    polls: Seq<Poll>,
    timeout: u64,
    n: int,
) -> Seq<EventView> {
    ingest_events(state_before(entries, polls, timeout, n), polls[n].devices, polls[n].now, timeout)
}

/// A run keeps the tracked identities distinct.
pub proof fn lemma_run_distinct(
    entries: Seq<TrackedEntryView>,
    polls: Seq<Poll>,
    timeout: u64,
    n: int,
)
    requires
        distinct_entries(entries),
    ensures
        distinct_entries(state_before(entries, polls, timeout, n)),
    decreases n,
{
    if n > 0 {
        lemma_run_distinct(entries, polls, timeout, n - 1);
        lemma_ingest_distinct(
            state_before(entries, polls, timeout, n - 1),
            polls[n - 1].devices,
            polls[n - 1].now,
            timeout,
        );
    }
}

/// While a tracked device is absent and no poll comes later than the
/// timeout after it was last seen, no poll reports its disconnection, and
/// its entry stays as it was.
pub proof fn lemma_absence_within_timeout(
    entries: Seq<TrackedEntryView>,
    polls: Seq<Poll>,
    timeout: u64,
    entry: TrackedEntryView,
    n: int,
)
    requires
        distinct_entries(entries),
        entries.contains(entry),
        0 <= n <= polls.len(),
        forall|m: int|
            0 <= m < n ==> distinct_keys((#[trigger] polls[m]).devices) && !has_key(
                polls[m].devices,
                entry.device.key(),
            ) && polls[m].now - entry.last_seen <= timeout,
    ensures
        state_before(entries, polls, timeout, n).contains(entry),
        forall|m: int|
            0 <= m < n ==> disconnections_of(
                #[trigger] events_at(entries, polls, timeout, m),
                entry.device.key(),
            ) == 0,
    decreases n,
{
    if n > 0 {
        lemma_absence_within_timeout(entries, polls, timeout, entry, n - 1);
        lemma_run_distinct(entries, polls, timeout, n - 1);
        let state = state_before(entries, polls, timeout, n - 1);
        let i = choose|i: int| 0 <= i < state.len() && state[i] == entry;
        assert(distinct_keys(polls[n - 1].devices));
        lemma_absent_within_timeout_stays(
            state,
            polls[n - 1].devices,
            polls[n - 1].now,
            timeout,
            i,
        );
    }
}

/// An identity that is not tracked and is not seen stays out of the
/// tracker, and nothing is reported about it.
pub proof fn lemma_absence_of_untracked(
    entries: Seq<TrackedEntryView>,
    polls: Seq<Poll>,
    timeout: u64,
    key: DeviceKey,
    n: int,
)
    requires
        distinct_entries(entries),
        !is_tracked(entries, key),
        0 <= n <= polls.len(),
        forall|m: int|
            0 <= m < n ==> distinct_keys((#[trigger] polls[m]).devices) && !has_key(
                polls[m].devices,
                key,
            ),
    ensures
        !is_tracked(state_before(entries, polls, timeout, n), key),
        forall|m: int|
            0 <= m < n ==> connections_of(#[trigger] events_at(entries, polls, timeout, m), key)
                == 0 && disconnections_of(events_at(entries, polls, timeout, m), key) == 0,
    decreases n,
{
    if n > 0 {
        lemma_absence_of_untracked(entries, polls, timeout, key, n - 1);
        lemma_run_distinct(entries, polls, timeout, n - 1);
        let state = state_before(entries, polls, timeout, n - 1);
        assert(distinct_keys(polls[n - 1].devices));
        lemma_ingest_tracks(state, polls[n - 1].devices, polls[n - 1].now, timeout, key);
        lemma_ingest_counts(state, polls[n - 1].devices, polls[n - 1].now, timeout, key);
        assert(!is_given_up(state, polls[n - 1].devices, polls[n - 1].now, timeout, key)) by {
            if is_given_up(state, polls[n - 1].devices, polls[n - 1].now, timeout, key) {
                let g = choose|g: int|
                    0 <= g < state.len() && (#[trigger] state[g]).device.key() == key
                        && is_expired(state[g], polls[n - 1].devices, polls[n - 1].now, timeout);
                assert(is_tracked(state, key));
            }
        }
    }
}

/// A tracked device that stays absent is reported as disconnected by the
/// first poll that comes later than the timeout after it was last seen:
/// not by a poll before it, exactly once by that poll, with the record that
/// was tracked, and it is not tracked from then on.
pub proof fn lemma_absence_beyond_timeout(
    entries: Seq<TrackedEntryView>,
    polls: Seq<Poll>,
    timeout: u64,
    entry: TrackedEntryView,
    first: int,
)
    requires
        distinct_entries(entries),
        entries.contains(entry),
        0 <= first < polls.len(),
        forall|m: int|
            0 <= m < polls.len() ==> distinct_keys((#[trigger] polls[m]).devices) && !has_key(
                polls[m].devices,
                entry.device.key(),
            ),
        forall|m: int| 0 <= m < first ==> (#[trigger] polls[m]).now - entry.last_seen <= timeout,
        polls[first].now - entry.last_seen > timeout,
    ensures
        forall|m: int|
            0 <= m < first ==> disconnections_of(
                #[trigger] events_at(entries, polls, timeout, m),
                entry.device.key(),
            ) == 0,
        disconnections_of(events_at(entries, polls, timeout, first), entry.device.key()) == 1,
        events_at(entries, polls, timeout, first).contains(EventView::Disconnected(entry.device)),
        forall|n: int|
            first < n <= polls.len() ==> !is_tracked(
                #[trigger] state_before(entries, polls, timeout, n),
                entry.device.key(),
            ),
{
    let key = entry.device.key();
    lemma_absence_within_timeout(entries, polls, timeout, entry, first);
    lemma_run_distinct(entries, polls, timeout, first);
    let state = state_before(entries, polls, timeout, first);
    let i = choose|i: int| 0 <= i < state.len() && state[i] == entry;
    assert(distinct_keys(polls[first].devices));
    lemma_absent_beyond_timeout_goes(state, polls[first].devices, polls[first].now, timeout, i);
    let after = state_before(entries, polls, timeout, first + 1);
    lemma_run_distinct(entries, polls, timeout, first + 1);
    let rest = polls.skip(first + 1);
    assert forall|n: int| first < n <= polls.len() implies !is_tracked(
        #[trigger] state_before(entries, polls, timeout, n),
        key,
    ) by {
        assert forall|m: int| 0 <= m < n - first - 1 implies distinct_keys(
            (#[trigger] rest[m]).devices,
        ) && !has_key(rest[m].devices, key) by {
            assert(rest[m] == polls[first + 1 + m]);
        }
        lemma_absence_of_untracked(after, rest, timeout, key, n - first - 1);
        lemma_run_splits(entries, polls, timeout, first + 1, n - first - 1);
    }
}

/// A run may be taken in two parts.
pub proof fn lemma_run_splits(
    entries: Seq<TrackedEntryView>,
    polls: Seq<Poll>,
    timeout: u64,
    done: int,
    n: int,
)
    requires
        0 <= done,
        0 <= n,
        done + n <= polls.len(),
    ensures
        state_before(state_before(entries, polls, timeout, done), polls.skip(done), timeout, n)
            == state_before(entries, polls, timeout, done + n),
    decreases n,
{
    if n > 0 {
        lemma_run_splits(entries, polls, timeout, done, n - 1);
        assert(polls.skip(done)[n - 1] == polls[done + n - 1]);
    }
}

/// Polls that see the same devices again and again report no connection
/// after the first of them, and none of them reports the disconnection of a
/// device that is seen.
pub proof fn lemma_same_snapshot_again(
    entries: Seq<TrackedEntryView>,
    polls: Seq<Poll>,
    timeout: u64,
    devices: Seq<DeviceView>,
    n: int,
)
    requires
        distinct_entries(entries),
        distinct_keys(devices),
        0 <= n < polls.len(),
        forall|m: int| 0 <= m <= n ==> (#[trigger] polls[m]).devices == devices,
    ensures
        n >= 1 ==> connected(state_before(entries, polls, timeout, n), devices) == Seq::<
            EventView,
        >::empty(),
        n >= 1 ==> forall|key: DeviceKey|
            connections_of(#[trigger] events_at(entries, polls, timeout, n), key) == 0,
        forall|i: int|
            0 <= i < devices.len() ==> disconnections_of(
                events_at(entries, polls, timeout, n),
                (#[trigger] devices[i]).key(),
            ) == 0,
{
    let state = state_before(entries, polls, timeout, n);
    lemma_run_distinct(entries, polls, timeout, n);
    assert(polls[n].devices == devices);
    assert forall|i: int| 0 <= i < devices.len() implies disconnections_of(
        events_at(entries, polls, timeout, n),
        (#[trigger] devices[i]).key(),
    ) == 0 by {
        let key = devices[i].key();
        lemma_ingest_counts(state, devices, polls[n].now, timeout, key);
        if is_given_up(state, devices, polls[n].now, timeout, key) {
            let g = choose|g: int|
                0 <= g < state.len() && (#[trigger] state[g]).device.key() == key && is_expired(
                    state[g],
                    devices,
                    polls[n].now,
                    timeout,
                );
            assert(has_key(devices, key));
        }
    }
    if n >= 1 {
        let earlier = state_before(entries, polls, timeout, n - 1);
        lemma_run_distinct(entries, polls, timeout, n - 1);
        assert(polls[n - 1].devices == devices);
        assert forall|i: int| 0 <= i < devices.len() implies is_tracked(
            state,
            (#[trigger] devices[i]).key(),
        ) by {
            assert(has_key(devices, devices[i].key()));
            lemma_ingest_tracks(earlier, devices, polls[n - 1].now, timeout, devices[i].key());
        }
        lemma_connected_of_known(state, devices);
        assert forall|key: DeviceKey|
            connections_of(#[trigger] events_at(entries, polls, timeout, n), key) == 0 by {
            lemma_ingest_counts(state, devices, polls[n].now, timeout, key);
            if has_key(devices, key) {
                let m = choose|m: int|
                    0 <= m < devices.len() && (#[trigger] devices[m]).key() == key;
                assert(is_tracked(state, devices[m].key()));
            }
        }
    }
}

/// Where every device seen is tracked, no connection is reported.
pub proof fn lemma_connected_of_known(entries: Seq<TrackedEntryView>, devices: Seq<DeviceView>)
    requires
        forall|i: int|
            0 <= i < devices.len() ==> is_tracked(entries, (#[trigger] devices[i]).key()),
    ensures
        connected(entries, devices) == Seq::<EventView>::empty(),
    decreases devices.len(),
{
    if devices.len() > 0 {
        let front = devices.drop_last();
        assert forall|i: int| 0 <= i < front.len() implies is_tracked(
            entries,
            (#[trigger] front[i]).key(),
        ) by {
            assert(front[i] == devices[i]);
        }
        lemma_connected_of_known(entries, front);
        assert(is_tracked(entries, devices[devices.len() - 1].key()));
    }
}

} // verus!
