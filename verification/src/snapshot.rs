//! The devices seen in one poll.

use crate::device::{Device, DeviceKey, DeviceView};
use vstd::prelude::*;

verus! {

/// Whether one of `devices` has the identity `key`.
pub open spec fn has_key(devices: Seq<DeviceView>, key: DeviceKey) -> bool {
    exists|i: int| 0 <= i < devices.len() && (#[trigger] devices[i]).key() == key
}

/// Whether no two of `devices` have the same identity.
pub open spec fn distinct_keys(devices: Seq<DeviceView>) -> bool {
    forall|i: int, j: int|
        0 <= i < j < devices.len() ==> (#[trigger] devices[i]).key() != (
        #[trigger] devices[j]).key()
}

/// `devices` after `device` was seen: it takes the place of the record with
/// its identity, or comes last where there was none.
pub open spec fn upsert(devices: Seq<DeviceView>, device: DeviceView) -> Seq<DeviceView> {
    if has_key(devices, device.key()) {
        Seq::new(
            devices.len(),
            |i: int|
                if devices[i].key() == device.key() {
                    device
                } else {
                    devices[i]
                },
        )
    } else {
        devices.push(device)
    }
}

/// `devices` after each of `later` was seen, in order.
pub open spec fn merge(devices: Seq<DeviceView>, later: Seq<DeviceView>) -> Seq<DeviceView>
    decreases later.len(),
{
    if later.len() == 0 {
        devices
    } else {
        upsert(merge(devices, later.drop_last()), later.last())
    }
}

/// Without their last, devices with distinct identities still have
/// distinct identities.
pub proof fn lemma_distinct_front(devices: Seq<DeviceView>)
    requires
        distinct_keys(devices),
        devices.len() > 0,
    ensures
        distinct_keys(devices.drop_last()),
{
    let front = devices.drop_last();
    assert forall|i: int, j: int| 0 <= i < j < front.len() implies (#[trigger] front[i]).key() != (
    #[trigger] front[j]).key() by {
        assert(front[i] == devices[i]);
        assert(front[j] == devices[j]);
    }
}

/// Seeing a device keeps identities distinct.
pub proof fn lemma_upsert_distinct(devices: Seq<DeviceView>, device: DeviceView)
    requires
        distinct_keys(devices),
    ensures
        distinct_keys(upsert(devices, device)),
        forall|key: DeviceKey|
            has_key(upsert(devices, device), key) <==> has_key(devices, key) || key
                == device.key(),
{
    let after = upsert(devices, device);
    assert forall|key: DeviceKey| has_key(after, key) implies has_key(devices, key) || key
        == device.key() by {
        let i = choose|i: int| 0 <= i < after.len() && (#[trigger] after[i]).key() == key;
        if i < devices.len() {
            assert(devices[i].key() == key || key == device.key());
        }
    }
    assert forall|key: DeviceKey| has_key(devices, key) || key == device.key() implies has_key(
        after,
        key,
    ) by {
        if key == device.key() {
            if has_key(devices, key) {
                let i = choose|i: int| 0 <= i < devices.len() && (#[trigger] devices[i]).key()
                    == key;
                assert(after[i].key() == key);
            } else {
                assert(after[devices.len() as int].key() == key);
            }
        } else {
            let i = choose|i: int| 0 <= i < devices.len() && (#[trigger] devices[i]).key() == key;
            assert(after[i].key() == key);
        }
    }
    assert forall|i: int, j: int| 0 <= i < j < after.len() implies (#[trigger] after[i]).key() != (
    #[trigger] after[j]).key() by {
        if has_key(devices, device.key()) {
            assert(after[i].key() == devices[i].key());
            assert(after[j].key() == devices[j].key());
        } else if j < devices.len() {
            assert(after[i] == devices[i]);
            assert(after[j] == devices[j]);
        } else {
            assert(after[i] == devices[i]);
        }
    }
}

/// The devices seen in one poll: an ordered collection in which no identity
/// occurs twice. A device seen again replaces its earlier record.
#[derive(Debug)]
pub struct Snapshot {
    devices: Vec<Device>,
}

impl View for Snapshot {
    type V = Seq<DeviceView>;

    closed spec fn view(&self) -> Seq<DeviceView> {
        self.devices.deep_view()
    }
}

impl Snapshot {
    #[verifier::type_invariant]
    pub open spec fn well_formed(self) -> bool {
        distinct_keys(self@)
    }

    pub fn new() -> (snapshot: Snapshot)
        ensures
            snapshot@ == Seq::<DeviceView>::empty(),
    {
        let snapshot = Snapshot { devices: Vec::new() };
        assert(snapshot.devices.deep_view() == Seq::<DeviceView>::empty());
        snapshot
    }

    pub fn len(&self) -> (len: usize)
        ensures
            len == self@.len(),
    {
        self.devices.len()
    }

    pub fn is_empty(&self) -> (empty: bool)
        ensures
            empty == (self@.len() == 0),
    {
        self.devices.len() == 0
    }

    /// The records, in the order in which their identities were first seen.
    pub fn devices(&self) -> (devices: &Vec<Device>)
        ensures
            devices.deep_view() == self@,
            distinct_keys(self@),
    {
        proof {
            use_type_invariant(self);
        }
        &self.devices
    }

    /// Where the record with the identity of `device` stands.
    pub fn position(&self, device: &Device) -> (found: Option<usize>)
        ensures
            match found {
                Some(i) => i < self@.len() && self@[i as int].key() == device@.key(),
                None => !has_key(self@, device@.key()),
            },
    {
        let mut i: usize = 0;
        while i < self.devices.len()
            invariant
                i <= self.devices.len(),
                forall|j: int| 0 <= j < i ==> (#[trigger] self@[j]).key() != device@.key(),
            decreases self.devices.len() - i,
        {
            if self.devices[i].same_key(device) {
                return Some(i);
            }
            i += 1;
        }
        None
    }

    /// Whether a record with the identity of `device` is held.
    pub fn contains_key(&self, device: &Device) -> (held: bool)
        ensures
            held == has_key(self@, device@.key()),
    {
        self.position(device).is_some()
    }

    /// Records `device`. Where its identity is held already, the new record
    /// takes the place of the old one.
    pub fn insert(&mut self, device: Device)
        ensures
            final(self)@ == upsert(old(self)@, device@),
    {
        proof {
            use_type_invariant(&*self);
            lemma_upsert_distinct(self@, device@);
        }
        let found = self.position(&device);
        let mut devices: Vec<Device> = Vec::new();
        core::mem::swap(&mut self.devices, &mut devices);
        match found {
            Some(i) => {
                devices.set(i, device);
            },
            None => {
                devices.push(device);
            },
        }
        assert(devices.deep_view() == upsert(old(self)@, device@));
        self.devices = devices;
    }

    /// Records every device of `later`, in order.
    pub fn absorb(&mut self, later: Snapshot)
        ensures
            final(self)@ == merge(old(self)@, later@),
    {
        let Snapshot { devices } = later;
        let ghost all = devices.deep_view();
        assert(all.take(0) == Seq::<DeviceView>::empty());
        for device in it: devices
            invariant
                it.seq().len() == all.len(),
                forall|k: int| 0 <= k < all.len() ==> (#[trigger] it.seq()[k])@ == all[k],
                self@ == merge(old(self)@, all.take(it.index() as int)),
        {
            assert(all.take(it.index() + 1).drop_last() == all.take(it.index() as int));
            self.insert(device);
        }
        assert(all.take(all.len() as int) == all);
    }
}

} // verus!
