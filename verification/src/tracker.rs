//! The presence tracker: which devices are taken to be present, and what
//! each poll changes about that.

use crate::device::{Device, DeviceKey, DeviceView, Event, EventView};
use crate::snapshot::{distinct_keys, has_key, Snapshot};
use vstd::prelude::*;

verus! {

/// The text of a tracked entry.
pub struct TrackedEntryView {
    pub device: DeviceView,
    pub last_seen: u64,
}

/// Whether a device with the identity `key` is tracked.
pub open spec fn is_tracked(entries: Seq<TrackedEntryView>, key: DeviceKey) -> bool {
    exists|i: int| 0 <= i < entries.len() && (#[trigger] entries[i]).device.key() == key
}

/// Whether no two entries track the same identity.
pub open spec fn distinct_entries(entries: Seq<TrackedEntryView>) -> bool {
    forall|i: int, j: int|
        0 <= i < j < entries.len() ==> (#[trigger] entries[i]).device.key() != (
        #[trigger] entries[j]).device.key()
}

/// `entries` after `device` was seen at `now`: its entry holds the new
/// record and the new time, and comes last where the device was not tracked.
pub open spec fn refresh(entries: Seq<TrackedEntryView>, device: DeviceView, now: u64) -> Seq<
    TrackedEntryView,
> {
    let seen = TrackedEntryView { device, last_seen: now };
    if is_tracked(entries, device.key()) {
        Seq::new(
            entries.len(),
            |i: int|
                if entries[i].device.key() == device.key() {
                    seen
                } else {
                    entries[i]
                },
        )
    } else {
        entries.push(seen)
    }
}

/// `entries` after each of `devices` was seen at `now`, in order.
pub open spec fn observe(entries: Seq<TrackedEntryView>, devices: Seq<DeviceView>, now: u64) -> Seq<
    TrackedEntryView,
>
    decreases devices.len(),
{
    if devices.len() == 0 {
        entries
    } else {
        refresh(observe(entries, devices.drop_last(), now), devices.last(), now)
    }
}

/// One `Connected` event for each of `devices` that `entries` does not
/// track, in the order of `devices`.
pub open spec fn connected(entries: Seq<TrackedEntryView>, devices: Seq<DeviceView>) -> Seq<
    EventView,
>
    decreases devices.len(),
{
    if devices.len() == 0 {
        Seq::empty()
    } else {
        let earlier = connected(entries, devices.drop_last());
        if is_tracked(entries, devices.last().key()) {
            earlier
        } else {
            earlier.push(EventView::Connected(devices.last()))
        }
    }
}

/// Whether `entry` is given up: its device is not among `devices`, and more
/// than `timeout` has passed since it was last seen. A device at exactly
/// `timeout` is still present.
pub open spec fn is_expired(
    entry: TrackedEntryView,
    devices: Seq<DeviceView>,
    now: u64,
    timeout: u64,
) -> bool {
    !has_key(devices, entry.device.key()) && now - entry.last_seen > timeout
}

/// One `Disconnected` event for each entry that is given up, in the order
/// of `entries`, with the record that the entry holds.
pub open spec fn evicted(
    entries: Seq<TrackedEntryView>,
    devices: Seq<DeviceView>,
    now: u64,
    timeout: u64,
) -> Seq<EventView>
    decreases entries.len(),
{
    if entries.len() == 0 {
        Seq::empty()
    } else {
        let earlier = evicted(entries.drop_last(), devices, now, timeout);
        if is_expired(entries.last(), devices, now, timeout) {
            earlier.push(EventView::Disconnected(entries.last().device))
        } else {
            earlier
        }
    }
}

/// The entries that are not given up, in the order of `entries`.
pub open spec fn retained(
    entries: Seq<TrackedEntryView>,
    devices: Seq<DeviceView>,
    now: u64,
    timeout: u64,
) -> Seq<TrackedEntryView>
    decreases entries.len(),
{
    if entries.len() == 0 {
        Seq::empty()
    } else {
        let earlier = retained(entries.drop_last(), devices, now, timeout);
        if is_expired(entries.last(), devices, now, timeout) {
            earlier
        } else {
            earlier.push(entries.last())
        }
    }
}

/// What is tracked after a poll at `now` that saw `devices`.
pub open spec fn ingest_state(
    entries: Seq<TrackedEntryView>,
    devices: Seq<DeviceView>,
    now: u64,
    timeout: u64,
) -> Seq<TrackedEntryView> {
    retained(observe(entries, devices, now), devices, now, timeout)
}

/// What a poll at `now` that saw `devices` reports: the connections, then
/// the disconnections.
pub open spec fn ingest_events(
    entries: Seq<TrackedEntryView>,
    devices: Seq<DeviceView>,
    now: u64,
    timeout: u64,
) -> Seq<EventView> {
    connected(entries, devices) + evicted(observe(entries, devices, now), devices, now, timeout)
}

/// Without their last, entries with distinct identities still have
/// distinct identities.
pub proof fn lemma_distinct_entries_front(entries: Seq<TrackedEntryView>)
    requires
        distinct_entries(entries),
        entries.len() > 0,
    ensures
        distinct_entries(entries.drop_last()),
{
    let front = entries.drop_last();
    assert forall|i: int, j: int| 0 <= i < j < front.len() implies (
    #[trigger] front[i]).device.key() != (#[trigger] front[j]).device.key() by {
        assert(front[i] == entries[i]);
        assert(front[j] == entries[j]);
    }
}

/// Seeing a device keeps the tracked identities distinct, and tracks its
/// identity besides those tracked before.
pub proof fn lemma_refresh(entries: Seq<TrackedEntryView>, device: DeviceView, now: u64)
    requires
        distinct_entries(entries),
    ensures
        distinct_entries(refresh(entries, device, now)),
        forall|key: DeviceKey|
            is_tracked(refresh(entries, device, now), key) <==> is_tracked(entries, key) || key
                == device.key(),
{
    let after = refresh(entries, device, now);
    assert forall|key: DeviceKey| is_tracked(after, key) implies is_tracked(entries, key) || key
        == device.key() by {
        let i = choose|i: int| 0 <= i < after.len() && (#[trigger] after[i]).device.key() == key;
        if i < entries.len() {
            assert(entries[i].device.key() == key || key == device.key());
        }
    }
    assert forall|key: DeviceKey|
        is_tracked(entries, key) || key == device.key() implies is_tracked(after, key) by {
        if key == device.key() {
            if is_tracked(entries, key) {
                let i = choose|i: int|
                    0 <= i < entries.len() && (#[trigger] entries[i]).device.key() == key;
                assert(after[i].device.key() == key);
            } else {
                assert(after[entries.len() as int].device.key() == key);
            }
        } else {
            let i = choose|i: int|
                0 <= i < entries.len() && (#[trigger] entries[i]).device.key() == key;
            assert(after[i].device.key() == key);
        }
    }
    assert forall|i: int, j: int| 0 <= i < j < after.len() implies (
    #[trigger] after[i]).device.key() != (#[trigger] after[j]).device.key() by {
        if is_tracked(entries, device.key()) {
            assert(after[i].device.key() == entries[i].device.key());
            assert(after[j].device.key() == entries[j].device.key());
        } else if j < entries.len() {
            assert(after[i] == entries[i]);
            assert(after[j] == entries[j]);
        } else {
            assert(after[i] == entries[i]);
        }
    }
}

/// Whether `key` is the identity of one of `devices`, said of a prefix.
proof fn lemma_has_key_push(devices: Seq<DeviceView>, key: DeviceKey)
    requires
        devices.len() > 0,
    ensures
        has_key(devices, key) <==> has_key(devices.drop_last(), key) || devices.last().key() == key,
{
    let front = devices.drop_last();
    if has_key(devices, key) {
        let i = choose|i: int| 0 <= i < devices.len() && (#[trigger] devices[i]).key() == key;
        if i < front.len() {
            assert(front[i].key() == key);
        }
    }
    if has_key(front, key) {
        let i = choose|i: int| 0 <= i < front.len() && (#[trigger] front[i]).key() == key;
        assert(devices[i].key() == key);
    }
    if devices.last().key() == key {
        assert(devices[devices.len() - 1].key() == key);
    }
}

/// Seeing devices keeps the tracked identities distinct, and tracks their
/// identities besides those tracked before.
pub proof fn lemma_observe(entries: Seq<TrackedEntryView>, devices: Seq<DeviceView>, now: u64)
    requires
        distinct_entries(entries),
    ensures
        distinct_entries(observe(entries, devices, now)),
        forall|key: DeviceKey|
            is_tracked(observe(entries, devices, now), key) <==> is_tracked(entries, key)
                || has_key(devices, key),
    decreases devices.len(),
{
    if devices.len() > 0 {
        let front = devices.drop_last();
        lemma_observe(entries, front, now);
        lemma_refresh(observe(entries, front, now), devices.last(), now);
        assert forall|key: DeviceKey|
            is_tracked(observe(entries, devices, now), key) <==> is_tracked(entries, key)
                || has_key(devices, key) by {
            lemma_has_key_push(devices, key);
        }
    } else {
        assert forall|key: DeviceKey| !has_key(devices, key) by {}
    }
}

/// What is retained was there before.
pub proof fn lemma_retained_subset(
    entries: Seq<TrackedEntryView>,
    devices: Seq<DeviceView>,
    now: u64,
    timeout: u64,
)
    ensures
        forall|i: int|
            0 <= i < retained(entries, devices, now, timeout).len() ==> entries.contains(
                #[trigger] retained(entries, devices, now, timeout)[i],
            ) && !is_expired(retained(entries, devices, now, timeout)[i], devices, now, timeout),
    decreases entries.len(),
{
    if entries.len() > 0 {
        let front = entries.drop_last();
        lemma_retained_subset(front, devices, now, timeout);
        let kept = retained(entries, devices, now, timeout);
        assert forall|i: int| 0 <= i < kept.len() implies entries.contains(#[trigger] kept[i])
            && !is_expired(kept[i], devices, now, timeout) by {
            if i < retained(front, devices, now, timeout).len() {
                let entry = retained(front, devices, now, timeout)[i];
                assert(front.contains(entry));
                let k = choose|k: int| 0 <= k < front.len() && front[k] == entry;
                assert(entries[k] == entry);
            } else {
                assert(kept[i] == entries[entries.len() - 1]);
            }
        }
    }
}

/// Giving entries up keeps the tracked identities distinct.
pub proof fn lemma_retained_distinct(
    entries: Seq<TrackedEntryView>,
    devices: Seq<DeviceView>,
    now: u64,
    timeout: u64,
)
    requires
        distinct_entries(entries),
    ensures
        distinct_entries(retained(entries, devices, now, timeout)),
    decreases entries.len(),
{
    if entries.len() > 0 {
        let front = entries.drop_last();
        lemma_distinct_entries_front(entries);
        lemma_retained_distinct(front, devices, now, timeout);
        lemma_retained_subset(front, devices, now, timeout);
        let kept = retained(entries, devices, now, timeout);
        let kept_front = retained(front, devices, now, timeout);
        assert forall|i: int, j: int| 0 <= i < j < kept.len() implies (
        #[trigger] kept[i]).device.key() != (#[trigger] kept[j]).device.key() by {
            if j < kept_front.len() {
                assert(kept[i] == kept_front[i]);
                assert(kept[j] == kept_front[j]);
            } else {
                assert(kept[i] == kept_front[i]);
                assert(front.contains(kept_front[i]));
                let k = choose|k: int| 0 <= k < front.len() && front[k] == kept_front[i];
                assert(entries[k] == kept[i]);
                assert(entries[entries.len() - 1] == kept[j]);
            }
        }
    }
}

/// What the tracker holds about one device.
#[derive(Debug)]
pub struct TrackedEntry {
    device: Device,
    last_seen: u64,
}

impl View for TrackedEntry {
    type V = TrackedEntryView;

    closed spec fn view(&self) -> TrackedEntryView {
        TrackedEntryView { device: self.device@, last_seen: self.last_seen }
    }
}

impl DeepView for TrackedEntry {
    type V = TrackedEntryView;

    open spec fn deep_view(&self) -> TrackedEntryView {
        self@
    }
}

impl TrackedEntry {
    /// The record of the device as it was last seen.
    pub fn device(&self) -> (device: &Device)
        ensures
            device@ == self@.device,
    {
        &self.device
    }

    /// The time of the last poll that saw the device.
    pub fn last_seen(&self) -> (time: u64)
        ensures
            time == self@.last_seen,
    {
        self.last_seen
    }

    /// Whether the entry is given up by a poll at `now` that saw `snapshot`.
    pub fn is_expired(&self, snapshot: &Snapshot, now: u64, timeout: u64) -> (expired: bool)
        ensures
            expired == is_expired(self@, snapshot@, now, timeout),
    {
        !snapshot.contains_key(&self.device) && now > self.last_seen && now - self.last_seen
            > timeout
    }
}

/// The devices taken to be present, each with the time at which it was last
/// seen. No identity is tracked twice.
#[derive(Debug)]
pub struct Tracker {
    entries: Vec<TrackedEntry>,
}

impl View for Tracker {
    type V = Seq<TrackedEntryView>;

    closed spec fn view(&self) -> Seq<TrackedEntryView> {
        self.entries.deep_view()
    }
}

impl Tracker {
    #[verifier::type_invariant]
    pub open spec fn well_formed(self) -> bool {
        distinct_entries(self@)
    }

    /// A tracker that tracks nothing.
    pub fn new() -> (tracker: Tracker)
        ensures
            tracker@ == Seq::<TrackedEntryView>::empty(),
    {
        let tracker = Tracker { entries: Vec::new() };
        assert(tracker.entries.deep_view() == Seq::<TrackedEntryView>::empty());
        tracker
    }

    pub fn len(&self) -> (len: usize)
        ensures
            len == self@.len(),
    {
        self.entries.len()
    }

    pub fn is_empty(&self) -> (empty: bool)
        ensures
            empty == (self@.len() == 0),
    {
        self.entries.len() == 0
    }

    /// The entries, in the order in which their devices connected.
    pub fn entries(&self) -> (entries: &Vec<TrackedEntry>)
        ensures
            entries.deep_view() == self@,
            distinct_entries(self@),
    {
        proof {
            use_type_invariant(self);
        }
        &self.entries
    }

    /// Whether the device is taken to be present.
    pub fn is_tracked(&self, device: &Device) -> (known: bool)
        ensures
            known == is_tracked(self@, device@.key()),
    {
        find_entry(&self.entries, device).is_some()
    }

    /// Takes in the snapshot of a poll at `now`.
    ///
    /// Every device of the snapshot is tracked from now on, with its record
    /// and `now` as the time it was last seen; one that was not tracked is
    /// reported as connected. Then every entry whose device the snapshot
    /// lacks, and which was last seen more than `disconnect_timeout` before
    /// `now`, is reported as disconnected and dropped. Times and the timeout
    /// are in one unit, which the caller chooses.
    pub fn ingest(&mut self, snapshot: &Snapshot, now: u64, disconnect_timeout: u64) -> (events:
        Vec<Event>)
        ensures
            final(self)@ == ingest_state(old(self)@, snapshot@, now, disconnect_timeout),
            events.deep_view() == ingest_events(old(self)@, snapshot@, now, disconnect_timeout),
    {
        proof {
            use_type_invariant(&*self);
            lemma_observe(self@, snapshot@, now);
            lemma_retained_distinct(
                observe(self@, snapshot@, now),
                snapshot@,
                now,
                disconnect_timeout,
            );
        }
        let mut entries: Vec<TrackedEntry> = Vec::new();
        core::mem::swap(&mut self.entries, &mut entries);
        let mut events = take_in(&mut entries, snapshot, now);
        give_up(&mut entries, &mut events, snapshot, now, disconnect_timeout);
        self.entries = entries;
        events
    }
}

/// Sees every device of the snapshot at `now`, and reports those that were
/// not tracked.
fn take_in(entries: &mut Vec<TrackedEntry>, snapshot: &Snapshot, now: u64) -> (events: Vec<Event>)
    requires
        distinct_entries(old(entries).deep_view()),
    ensures
        final(entries).deep_view() == observe(old(entries).deep_view(), snapshot@, now),
        events.deep_view() == connected(old(entries).deep_view(), snapshot@),
{
    let ghost before = entries.deep_view();
    let ghost seen = snapshot@;
    let mut events: Vec<Event> = Vec::new();
    let devices = snapshot.devices();
    let mut i: usize = 0;
    proof {
        assert(seen.take(0) == Seq::<DeviceView>::empty());
        assert(events.deep_view() == Seq::<EventView>::empty());
    }
    while i < devices.len()
        invariant
            i <= devices.len(),
            devices.deep_view() == seen,
            distinct_keys(seen),
            distinct_entries(before),
            entries.deep_view() == observe(before, seen.take(i as int), now),
            events.deep_view() == connected(before, seen.take(i as int)),
        decreases devices.len() - i,
    {
        let device = &devices[i];
        proof {
            let earlier = seen.take(i as int);
            assert(seen.take(i + 1).drop_last() == earlier);
            assert(seen.take(i + 1).last() == device@);
            lemma_observe(before, earlier, now);
            assert(!has_key(earlier, device@.key())) by {
                if has_key(earlier, device@.key()) {
                    let k = choose|k: int|
                        0 <= k < earlier.len() && (#[trigger] earlier[k]).key() == device@.key();
                    assert(seen[k].key() == seen[i as int].key());
                }
            }
        }
        let ghost entries_before = entries.deep_view();
        let ghost events_before = events.deep_view();
        let entry = TrackedEntry { device: device.clone(), last_seen: now };
        match find_entry(entries, device) {
            Some(at) => {
                entries.set(at, entry);
                assert(entries.deep_view() == refresh(entries_before, device@, now));
            },
            None => {
                events.push(Event::Connected(device.clone()));
                entries.push(entry);
                assert(entries.deep_view() == refresh(entries_before, device@, now));
                assert(events.deep_view() == events_before.push(EventView::Connected(device@)));
            },
        }
        i += 1;
    }
    assert(seen.take(seen.len() as int) == seen);
    events
}

/// Drops every entry that is given up by a poll at `now` that saw the
/// snapshot, and reports it behind the events reported so far.
fn give_up(
    entries: &mut Vec<TrackedEntry>,
    events: &mut Vec<Event>,
    snapshot: &Snapshot,
    now: u64,
    timeout: u64,
)
    ensures
        final(entries).deep_view() == retained(old(entries).deep_view(), snapshot@, now, timeout),
        final(events).deep_view() == old(events).deep_view() + evicted(
            old(entries).deep_view(),
            snapshot@,
            now,
            timeout,
        ),
{
    let ghost all = entries.deep_view();
    let ghost earlier = events.deep_view();
    let ghost seen = snapshot@;
    let ghost done: int = 0;
    let mut at: usize = 0;
    proof {
        assert(all.take(0) == Seq::<TrackedEntryView>::empty());
        assert(all.skip(0) == all);
        assert(Seq::<TrackedEntryView>::empty() + all == all);
        assert(earlier + Seq::<EventView>::empty() == earlier);
    }
    while at < entries.len()
        invariant
            0 <= done <= all.len(),
            seen == snapshot@,
            at == retained(all.take(done), seen, now, timeout).len(),
            entries.deep_view() == retained(all.take(done), seen, now, timeout) + all.skip(done),
            events.deep_view() == earlier + evicted(all.take(done), seen, now, timeout),
        decreases all.len() - done,
    {
        let ghost kept = retained(all.take(done), seen, now, timeout);
        let ghost gone = evicted(all.take(done), seen, now, timeout);
        let ghost entries_before = entries.deep_view();
        let ghost events_before = events.deep_view();
        proof {
            assert(all.take(done + 1).drop_last() == all.take(done));
            assert(all.take(done + 1).last() == all[done]);
            assert(entries_before[at as int] == all.skip(done)[0]);
            assert(all.skip(done + 1) == all.skip(done).drop_first());
        }
        if entries[at].is_expired(snapshot, now, timeout) {
            let entry = entries.remove(at);
            events.push(Event::Disconnected(entry.device));
            proof {
                assert(entries.deep_view() == entries_before.remove(at as int));
                assert(entries_before.remove(at as int) == kept + all.skip(done + 1));
                assert(events.deep_view() == events_before.push(
                    EventView::Disconnected(all[done].device),
                ));
                assert(events_before.push(EventView::Disconnected(all[done].device)) == earlier
                    + gone.push(EventView::Disconnected(all[done].device)));
            }
        } else {
            proof {
                assert(kept + all.skip(done) == kept.push(all[done]) + all.skip(done + 1));
            }
            at += 1;
        }
        proof {
            done = done + 1;
        }
    }
    proof {
        assert(all.skip(done) == Seq::<TrackedEntryView>::empty());
        assert(all.take(done) == all);
        assert(retained(all, seen, now, timeout) + Seq::<TrackedEntryView>::empty() == retained(
            all,
            seen,
            now,
            timeout,
        ));
    }
}

/// Where the entry of `device` stands.
fn find_entry(entries: &Vec<TrackedEntry>, device: &Device) -> (found: Option<usize>)
    ensures
        match found {
            Some(i) => i < entries.len() && entries.deep_view()[i as int].device.key()
                == device@.key(),
            None => !is_tracked(entries.deep_view(), device@.key()),
        },
{
    let mut i: usize = 0;
    while i < entries.len()
        invariant
            i <= entries.len(),
            forall|j: int|
                0 <= j < i ==> (#[trigger] entries.deep_view()[j]).device.key() != device@.key(),
        decreases entries.len() - i,
    {
        if entries[i].device.same_key(device) {
            return Some(i);
        }
        i += 1;
    }
    None
}

} // verus!
