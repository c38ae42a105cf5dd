//! The device registry: which devices each identity has registered, and for
//! which of them the shared secret has been stored.

use crate::account::AccountView;
use crate::device_set::DeviceSet;
use crate::error::{Fault, SecretError};
use crate::identity::Identity;
use crate::notes_store::{NoteView, NotesStore};
use crate::ordered_map::OrderedMap;
use crate::secret_record::SecretRecord;
use vstd::prelude::*;

verus! {

/// The name that a device goes by within its identity.
pub type DeviceAlias = String;

/// The public key of a device.
pub type PublicKey = String;

/// The shared secret, encrypted for one device.
pub type EncryptedSecret = String;

/// What a request for a secret answers.
pub type SecretResult = Result<EncryptedSecret, SecretError>;

/// The devices and the stored secrets of every identity.
pub struct DevicesStore {
    device_sets: OrderedMap<Identity, DeviceSet>,
    secrets: OrderedMap<Identity, SecretRecord>,
}

impl DevicesStore {
    /// What the store holds for `id`.
    pub closed spec fn account(&self, id: Seq<u8>) -> AccountView {
        AccountView {
            devices: if self.device_sets.map().dom().contains(id) {
                self.device_sets.map()[id]@
            } else {
                Seq::empty()
            },
            secrets: if self.secrets.map().dom().contains(id) {
                self.secrets.map()[id]@
            } else {
                Map::empty()
            },
        }
    }

    /// Whether the two stores hold the same for every identity but `id`.
    pub open spec fn agrees_except(&self, other: &DevicesStore, id: Seq<u8>) -> bool {
        forall|x: Seq<u8>| x != id ==> self.account(x) == other.account(x)
    }

    /// A registry that has heard of no identity.
    pub fn new() -> (store: DevicesStore)
        ensures
            forall|id: Seq<u8>| store.account(id) == AccountView::empty(),
    {
        let store = DevicesStore { device_sets: OrderedMap::new(), secrets: OrderedMap::new() };
        assert forall|id: Seq<u8>| store.account(id) == AccountView::empty() by {
            assert(store.account(id) =~= AccountView::empty());
        }
        store
    }

    /// The devices of `caller`, each an alias with its public key, in the
    /// order in which they were registered.
    pub fn get_devices(&self, caller: Identity) -> (devices: Vec<(DeviceAlias, PublicKey)>)
        ensures
            devices.deep_view() == self.account(caller@).devices,
            self.account(caller@).wf(),
    {
        match self.device_sets.get(&caller) {
            Some(set) => {
                proof {
                    use_type_invariant(set);
                }
                set.to_vec()
            },
            None => {
                let devices: Vec<(DeviceAlias, PublicKey)> = Vec::new();
                assert(devices.deep_view() =~= Seq::<(Seq<char>, Seq<char>)>::empty());
                devices
            },
        }
    }

    /// Registers a device of `caller` under `device_alias`, and answers
    /// whether it did: `false`, with nothing changed, where `caller` has a
    /// device of that alias already.
    ///
    /// The first device of an identity brings the identity its empty note
    /// list in `notes`. Should `notes` hold a list for an identity without
    /// devices, the call is refused and nothing changes.
    pub fn register_device(
        &mut self,
        notes: &mut NotesStore,
        caller: Identity,
        device_alias: DeviceAlias,
        public_key: PublicKey,
    ) -> (r: Result<bool, Fault>)
        ensures
            final(self).agrees_except(old(self), caller@),
            final(self).account(caller@).wf(),
            final(notes).agrees_except(old(notes), caller@),
            final(notes).next_id() == old(notes).next_id(),
            if old(self).account(caller@).devices.len() > 0 {
                &&& r == Ok::<bool, Fault>(!old(self).account(caller@).has_alias(device_alias@))
                &&& final(self).account(caller@) == old(self).account(caller@).register_device(
                    device_alias@,
                    public_key@,
                )
                &&& final(notes).agrees(old(notes))
            } else if old(notes).has_list(caller@) {
                &&& r == Err::<bool, Fault>(Fault::NoteListWithoutDevice)
                &&& final(self).account(caller@) == old(self).account(caller@)
                &&& final(notes).agrees(old(notes))
            } else {
                &&& r == Ok::<bool, Fault>(true)
                &&& final(self).account(caller@) == old(self).account(caller@).register_device(
                    device_alias@,
                    public_key@,
                )
                &&& final(notes).has_list(caller@)
                &&& final(notes).notes(caller@) == Seq::<NoteView>::empty()
            },
    {
        match self.device_sets.remove(&caller) {
            Some((owner, set)) => {
                proof {
                    use_type_invariant(&set);
                }
                let (set, added) = set.register(device_alias, public_key);
                proof {
                    use_type_invariant(&set);
                }
                self.device_sets.insert(owner, set);
                assert(self.account(caller@) =~= old(self).account(caller@).register_device(
                    device_alias@,
                    public_key@,
                ));
                Ok(added)
            },
            None => {
                if notes.has_note(caller) {
                    return Err(Fault::NoteListWithoutDevice);
                }
                let set = DeviceSet::first(device_alias, public_key);
                proof {
                    use_type_invariant(&set);
                }
                self.device_sets.insert(caller, set);
                notes.assign_note(caller);
                assert(self.account(caller@) =~= old(self).account(caller@).register_device(
                    device_alias@,
                    public_key@,
                ));
                Ok(true)
            },
        }
    }

    /// Deletes the device of `caller` that goes by `device_alias`; changes
    /// nothing where `caller` has no device of that alias. The secret
    /// stored for the device's public key stays.
    ///
    /// Refused, with nothing changed, where `caller` has no device at all,
    /// and where `caller` has just one: the last device of an identity
    /// cannot be deleted.
    pub fn delete_device(&mut self, caller: Identity, device_alias: DeviceAlias) -> (r: Result<
        (),
        Fault,
    >)
        ensures
            final(self).agrees_except(old(self), caller@),
            final(self).account(caller@).wf(),
            (final(self).account(caller@).devices.len() > 0) == (old(self).account(
                caller@,
            ).devices.len() > 0),
            match old(self).account(caller@).delete_device(device_alias@) {
                Ok(after) => r == Ok::<(), Fault>(()) && final(self).account(caller@) == after,
                Err(fault) => r == Err::<(), Fault>(fault) && final(self).account(caller@)
                    == old(self).account(caller@),
            },
    {
        match self.device_sets.get(&caller) {
            Some(set) => {
                proof {
                    use_type_invariant(set);
                }
                if set.len() == 1 {
                    return Err(Fault::LastDevice);
                }
            },
            None => {
                return Err(Fault::NoSuchIdentity);
            },
        }
        match self.device_sets.remove(&caller) {
            Some((owner, set)) => {
                let set = set.delete(&device_alias);
                proof {
                    use_type_invariant(&set);
                }
                self.device_sets.insert(owner, set);
                assert(self.account(caller@) =~= old(self).account(caller@).delete_device(
                    device_alias@,
                ).unwrap());
                Ok(())
            },
            None => Err(Fault::NoSuchIdentity),
        }
    }

    /// Whether no secret was ever stored for `caller`: the device that
    /// finds this has to make the shared secret itself.
    pub fn is_seed(&self, caller: Identity) -> (r: bool)
        ensures
            r == self.account(caller@).is_seed(),
    {
        match self.secrets.get(&caller) {
            Some(record) => {
                assert(self.account(caller@).secrets == record@);
                record.is_empty()
            },
            None => {
                assert(self.account(caller@).secrets == Map::<Seq<char>, Seq<char>>::empty());
                true
            },
        }
    }

    /// Whether `caller` has a device with the public key `public_key`.
    fn is_registered(&self, caller: Identity, public_key: &PublicKey) -> (r: bool)
        ensures
            r == self.account(caller@).has_public_key(public_key@),
    {
        match self.device_sets.get(&caller) {
            Some(set) => set.has_public_key(public_key),
            None => false,
        }
    }

    /// The secret record of `caller`, taken out of the store.
    fn take_record(&mut self, caller: Identity) -> (record: SecretRecord)
        ensures
            record@ == old(self).account(caller@).secrets,
            final(self).agrees_except(old(self), caller@),
            final(self).account(caller@).devices == old(self).account(caller@).devices,
    {
        match self.secrets.remove(&caller) {
            Some((_, record)) => record,
            None => SecretRecord::new(),
        }
    }

    /// Puts the secret record of `caller` into the store.
    fn put_record(&mut self, caller: Identity, record: SecretRecord)
        ensures
            final(self).agrees_except(old(self), caller@),
            final(self).account(caller@) == (AccountView {
                devices: old(self).account(caller@).devices,
                secrets: record@,
            }),
    {
        self.secrets.insert(caller, record);
        assert(self.account(caller@) =~= (AccountView {
            devices: old(self).account(caller@).devices,
            secrets: record@,
        }));
    }

    /// Stores `encrypted_secret` for the device of `caller` that has the
    /// public key `public_key`, in the place of what was stored for it
    /// before, and answers `"Uploaded"`.
    ///
    /// Fails with [`SecretError::Unknown`], and changes nothing, where
    /// `caller` has no device with that public key.
    pub fn upload_seed_secret(
        &mut self,
        caller: Identity,
        public_key: PublicKey,
        encrypted_secret: EncryptedSecret,
    ) -> (r: SecretResult)
        ensures
            final(self).agrees_except(old(self), caller@),
            match old(self).account(caller@).upload_seed_secret(public_key@, encrypted_secret@) {
                Ok(after) => r is Ok && r->Ok_0@ == "Uploaded"@ && final(self).account(caller@)
                    == after,
                Err(error) => r == Err::<EncryptedSecret, SecretError>(error) && final(
                    self
                ).account(caller@) == old(self).account(caller@),
            },
    {
        if !self.is_registered(caller, &public_key) {
            return Err(SecretError::Unknown);
        }
        let mut record = self.take_record(caller);
        record.insert(public_key, encrypted_secret);
        self.put_record(caller, record);
        assert(self.account(caller@) =~= old(self).account(caller@).with_secret(
            public_key@,
            encrypted_secret@,
        ));
        Ok("Uploaded".to_owned())
    }

    /// Stores each secret of `keys`, a public key with the secret encrypted
    /// for it, for `caller`, one after the other. Nothing asks whether a
    /// public key belongs to a device of `caller`.
    pub fn upload_encrypted_secrets(
        &mut self,
        caller: Identity,
        keys: Vec<(PublicKey, EncryptedSecret)>,
    )
        ensures
            final(self).agrees_except(old(self), caller@),
            final(self).account(caller@) == old(self).account(caller@).upload_encrypted_secrets(
                keys.deep_view(),
            ),
    {
        let ghost before = self.account(caller@);
        let ghost entries = keys.deep_view();
        let mut record = self.take_record(caller);
        assert(entries.take(0) =~= Seq::<(Seq<char>, Seq<char>)>::empty());
        assert((AccountView { devices: before.devices, secrets: record@ }) =~= before);
        for entry in it: keys.into_iter()
            invariant
                it.seq() == keys@,
                entries == keys.deep_view(),
                (AccountView { devices: before.devices, secrets: record@ })
                    == before.upload_encrypted_secrets(entries.take(it.index() as int)),
        {
            proof {
                let seen = entries.take(it.index() + 1);
                assert(seen.drop_last() =~= entries.take(it.index() as int));
                assert(seen.last() == (entry.0@, entry.1@));
            }
            let ghost stored = record@;
            record.insert(entry.0, entry.1);
            assert((AccountView { devices: before.devices, secrets: record@ }) =~= (AccountView {
                devices: before.devices,
                secrets: stored,
            }).with_secret(entry.0@, entry.1@));
        }
        assert(entries.take(entries.len() as int) =~= entries);
        self.put_record(caller, record);
    }

    /// The public keys of the devices of `caller` for which no secret is
    /// stored yet, in the order of their devices.
    pub fn get_unsynced_public_keys(&self, caller: Identity) -> (keys: Vec<PublicKey>)
        ensures
            keys.deep_view() == self.account(caller@).unsynced_public_keys(),
    {
        match self.device_sets.get(&caller) {
            Some(set) => match self.secrets.get(&caller) {
                Some(record) => set.unsynced_keys(record),
                None => {
                    let record = SecretRecord::new();
                    set.unsynced_keys(&record)
                },
            },
            None => {
                let keys: Vec<PublicKey> = Vec::new();
                proof {
                    reveal(Seq::filter);
                    assert(keys.deep_view() =~= self.account(caller@).unsynced_public_keys());
                }
                keys
            },
        }
    }

    /// The secret stored for the device of `caller` that has the public key
    /// `public_key`.
    ///
    /// Fails with [`SecretError::Unknown`] where `caller` has no device with
    /// that public key, and with [`SecretError::NotSynced`] where it has one
    /// but no secret is stored for it.
    pub fn get_encrypted_secrets(&self, caller: Identity, public_key: PublicKey) -> (r:
        SecretResult)
        ensures
            match self.account(caller@).encrypted_secret(public_key@) {
                Ok(ciphertext) => r is Ok && r->Ok_0@ == ciphertext,
                Err(error) => r == Err::<EncryptedSecret, SecretError>(error),
            },
    {
        if !self.is_registered(caller, &public_key) {
            return Err(SecretError::Unknown);
        }
        let stored = match self.secrets.get(&caller) {
            Some(record) => record.get(&public_key),
            None => None,
        };
        match stored {
            Some(ciphertext) => Ok(ciphertext),
            None => Err(SecretError::NotSynced),
        }
    }
}

impl Default for DevicesStore {
    /// A registry that has heard of no identity.
    fn default() -> (store: DevicesStore)
        ensures
            forall|id: Seq<u8>| store.account(id) == AccountView::empty(),
    {
        DevicesStore::new()
    }
}

} // verus!
