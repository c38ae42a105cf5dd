//! The devices of one identity.

use crate::account::{
    lemma_other_than_absent, lemma_other_than_present, other_than, public_key_of, without_secret,
};
use crate::ordered_map::{distinct_keys, has_key, position_of, OrderedMap};
use crate::secret_record::SecretRecord;
use vstd::prelude::*;

verus! {

/// The devices of `entries` as contracts speak of them: each alias with
/// the text of its public key.
pub open spec fn device_views(entries: Seq<(Seq<char>, String)>) -> Seq<(Seq<char>, Seq<char>)> {
    entries.map_values(|entry: (Seq<char>, String)| (entry.0, entry.1@))
}

/// Distinct aliases stay distinct when the public keys are read as text.
pub proof fn lemma_device_views(entries: Seq<(Seq<char>, String)>)
    ensures
        device_views(entries).len() == entries.len(),
        distinct_keys(entries) ==> distinct_keys(device_views(entries)),
        forall|alias: Seq<char>| has_key(device_views(entries), alias) == has_key(entries, alias),
{
    let views = device_views(entries);
    assert forall|alias: Seq<char>| has_key(views, alias) == has_key(entries, alias) by {
        if has_key(views, alias) {
            let i = position_of(views, alias);
            assert(entries[i].0 == alias);
        }
        if has_key(entries, alias) {
            let i = position_of(entries, alias);
            assert(views[i].0 == alias);
        }
    }
    if distinct_keys(entries) {
        assert forall|i: int, j: int| 0 <= i < j < views.len() implies (#[trigger] views[i]).0 != (
        #[trigger] views[j]).0 by {
            assert(entries[i].0 != entries[j].0);
        }
    }
}

/// The devices that one identity has registered: at least one, no two under
/// the same alias, in the order in which they were registered.
pub struct DeviceSet {
    devices: OrderedMap<String, String>,
}

impl View for DeviceSet {
    type V = Seq<(Seq<char>, Seq<char>)>;

    closed spec fn view(&self) -> Seq<(Seq<char>, Seq<char>)> {
        device_views(self.devices.entries())
    }
}

impl DeviceSet {
    /// A set holds at least one device, and no two under the same alias.
    #[verifier::type_invariant]
    pub open spec fn holds_distinct_devices(&self) -> bool {
        self@.len() > 0 && distinct_keys(self@)
    }

    /// The set of an identity's first device.
    pub fn first(alias: String, public_key: String) -> (set: DeviceSet)
        ensures
            set@ == seq![(alias@, public_key@)],
    {
        let mut devices: OrderedMap<String, String> = OrderedMap::new();
        devices.insert(alias, public_key);
        proof {
            use_type_invariant(&devices);
            lemma_device_views(devices.entries());
        }
        let set = DeviceSet { devices };
        assert(set@ =~= seq![(alias@, public_key@)]);
        set
    }

    /// The number of devices, which is never zero.
    pub fn len(&self) -> (n: usize)
        ensures
            n == self@.len(),
            n > 0,
    {
        proof {
            use_type_invariant(self);
        }
        self.devices.len()
    }

    /// The set with the device added as the newest, and `true`; or, where
    /// the alias is taken, the set as it was, and `false`.
    pub fn register(self, alias: String, public_key: String) -> (r: (DeviceSet, bool))
        ensures
            r.1 == !has_key(self@, alias@),
            r.0@ == (if r.1 {
                self@.push((alias@, public_key@))
            } else {
                self@
            }),
    {
        proof {
            use_type_invariant(&self);
            lemma_device_views(self.devices.entries());
        }
        let ghost before = self.devices.entries();
        let mut devices = self.devices;
        let added = devices.insert_new(alias, public_key);
        proof {
            use_type_invariant(&devices);
            lemma_device_views(devices.entries());
            if added {
                assert(device_views(devices.entries()) =~= device_views(before).push(
                    (alias@, public_key@),
                ));
            }
        }
        (DeviceSet { devices }, added)
    }

    /// The set without the device that goes by `alias`, if there is one.
    pub fn delete(self, alias: &String) -> (set: DeviceSet)
        requires
            self@.len() > 1,
        ensures
            set@ == self@.filter(other_than(alias@)),
    {
        proof {
            use_type_invariant(&self);
            use_type_invariant(&self.devices);
            lemma_device_views(self.devices.entries());
        }
        let ghost before = self.devices.entries();
        let mut devices = self.devices;
        let removed = devices.remove(alias);
        proof {
            use_type_invariant(&devices);
            lemma_device_views(devices.entries());
            if removed is Some {
                let i = position_of(before, alias@);
                assert(0 <= i < before.len() && before[i].0 == alias@);
                assert(device_views(devices.entries()) =~= device_views(before).remove(i));
                lemma_other_than_present(device_views(before), alias@, i);
            } else {
                lemma_other_than_absent(device_views(before), alias@);
            }
        }
        DeviceSet { devices }
    }

    /// Whether one of the devices has the public key `public_key`.
    pub fn has_public_key(&self, public_key: &String) -> (r: bool)
        ensures
            r == (exists|i: int|
                0 <= i < self@.len() && (#[trigger] self@[i]).1 == public_key@),
    {
        let n = self.devices.len();
        let mut i: usize = 0;
        while i < n
            invariant
                i <= n,
                n == self@.len(),
                n == self.devices.entries().len(),
                forall|j: int| 0 <= j < i ==> (#[trigger] self@[j]).1 != public_key@,
            decreases n - i,
        {
            let (_, key) = self.devices.slot(i);
            if *key == *public_key {
                assert(self@[i as int].1 == public_key@);
                return true;
            }
            i += 1;
        }
        false
    }

    /// The devices, each an alias with its public key, oldest first.
    pub fn to_vec(&self) -> (list: Vec<(String, String)>)
        ensures
            list.deep_view() == self@,
    {
        let n = self.devices.len();
        let mut list: Vec<(String, String)> = Vec::new();
        let mut i: usize = 0;
        while i < n
            invariant
                i <= n,
                n == self@.len(),
                n == self.devices.entries().len(),
                list.deep_view() == self@.take(i as int),
            decreases n - i,
        {
            let (alias, key) = self.devices.slot(i);
            let ghost before = list.deep_view();
            list.push((alias.clone(), key.clone()));
            assert(list.deep_view() =~= before.push(self@[i as int]));
            assert(self@.take(i + 1) =~= self@.take(i as int).push(self@[i as int]));
            i += 1;
        }
        assert(self@.take(n as int) =~= self@);
        list
    }

    /// The public keys of the devices for which `secrets` holds nothing,
    /// in the order of their devices.
    pub fn unsynced_keys(&self, secrets: &SecretRecord) -> (keys: Vec<String>)
        ensures
            keys.deep_view() == self@.filter(without_secret(secrets@)).map_values(public_key_of()),
    {
        let n = self.devices.len();
        let mut keys: Vec<String> = Vec::new();
        let mut i: usize = 0;
        assert(self@.take(0) =~= Seq::<(Seq<char>, Seq<char>)>::empty());
        proof {
            reveal(Seq::filter);
        }
        assert(keys.deep_view() =~= self@.take(0).filter(without_secret(secrets@)).map_values(
            public_key_of(),
        ));
        while i < n
            invariant
                i <= n,
                n == self@.len(),
                n == self.devices.entries().len(),
                keys.deep_view() == self@.take(i as int).filter(
                    without_secret(secrets@),
                ).map_values(public_key_of()),
            decreases n - i,
        {
            let (_, key) = self.devices.slot(i);
            let ghost before = keys.deep_view();
            let ghost seen = self@.take(i as int);
            proof {
                assert(self@.take(i + 1) =~= seen.push(self@[i as int]));
                seen.lemma_filter_push(self@[i as int], without_secret(secrets@));
            }
            if !secrets.contains(key) {
                keys.push(key.clone());
                assert(keys.deep_view() =~= before.push(key@));
                assert(seen.filter(without_secret(secrets@)).push(self@[i as int]).map_values(
                    public_key_of(),
                ) =~= before.push(key@));
            }
            i += 1;
        }
        assert(self@.take(n as int) =~= self@);
        keys
    }
}

} // verus!
