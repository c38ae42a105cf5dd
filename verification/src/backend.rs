//! The whole service: the device registry together with the note ledger,
//! and the one invariant that ties them.

use crate::account::AccountView;
use crate::devices_store::{DeviceAlias, DevicesStore, EncryptedSecret, PublicKey, SecretResult};
use crate::error::{Fault, SecretError};
use crate::identity::Identity;
use crate::notes_store::{other_than_id, with_text, EncryptedNote, NoteView, NotesStore};
use vstd::prelude::*;

verus! {

/// The state of the service. Every operation is scoped to the identity
/// that calls it.
///
/// An identity has a note list exactly when it has a device: the two come
/// into being together, with the first device, and neither goes away.
pub struct Backend {
    devices: DevicesStore,
    notes: NotesStore,
}

impl Backend {
    /// The device registry.
    pub closed spec fn registry(&self) -> DevicesStore {
        self.devices
    }

    /// The note ledger.
    pub closed spec fn ledger(&self) -> NotesStore {
        self.notes
    }

    /// An identity has a note list exactly when it has a device.
    #[verifier::type_invariant]
    pub open spec fn paired(&self) -> bool {
        forall|id: Seq<u8>| #[trigger]
            self.ledger().has_list(id) == (self.registry().account(id).devices.len() > 0)
    }

    /// A service that has heard of no identity.
    pub fn new() -> (backend: Backend)
        ensures
            backend.paired(),
            backend.ledger().next_id() == 0,
            forall|id: Seq<u8>|
                backend.registry().account(id) == AccountView::empty()
                    && !backend.ledger().has_list(id),
    {
        Backend { devices: DevicesStore::new(), notes: NotesStore::new() }
    }

    /// The device registry, to read.
    pub fn devices(&self) -> (devices: &DevicesStore)
        ensures
            *devices == self.registry(),
            self.paired(),
    {
        proof {
            use_type_invariant(self);
        }
        &self.devices
    }

    /// The note ledger, to read.
    pub fn notes(&self) -> (notes: &NotesStore)
        ensures
            *notes == self.ledger(),
            self.paired(),
    {
        proof {
            use_type_invariant(self);
        }
        &self.notes
    }

    /// Registers a device of `caller` under `device_alias`, and answers
    /// whether it did: `false`, with nothing changed, where `caller` has a
    /// device of that alias already. With its first device an identity gets
    /// its empty note list.
    pub fn register_device(
        &mut self,
        caller: Identity,
        device_alias: DeviceAlias,
        public_key: PublicKey,
    ) -> (added: bool)
        ensures
            final(self).paired(),
            added == !old(self).registry().account(caller@).has_alias(device_alias@),
            final(self).registry().account(caller@) == old(self).registry().account(
                caller@,
            ).register_device(device_alias@, public_key@),
            final(self).registry().agrees_except(&old(self).registry(), caller@),
            final(self).ledger().has_list(caller@),
            final(self).ledger().agrees_except(&old(self).ledger(), caller@),
            final(self).ledger().notes(caller@) == old(self).ledger().notes(caller@),
            final(self).ledger().next_id() == old(self).ledger().next_id(),
    {
        proof {
            use_type_invariant(&*self);
        }
        let mut state = Backend::new();
        std::mem::swap(self, &mut state);
        let Backend { mut devices, mut notes } = state;
        proof {
            assert(devices == old(self).registry());
            assert(notes == old(self).ledger());
            assert(old(self).ledger().has_list(caller@) == (old(self).registry().account(
                caller@,
            ).devices.len() > 0));
            notes.lemma_no_list_no_notes(caller@);
        }
        let outcome = devices.register_device(&mut notes, caller, device_alias, public_key);
        proof {
            lemma_still_paired(*old(self), devices, notes, caller@);
        }
        *self = Backend { devices, notes };
        match outcome {
            Ok(added) => added,
            // The registry refuses only where a note list stands in the way
            // of a first device, and an identity without devices has none.
            Err(_) => false,
        }
    }

    /// The devices of `caller`, each an alias with its public key, in the
    /// order in which they were registered.
    pub fn get_devices(&self, caller: Identity) -> (devices: Vec<(DeviceAlias, PublicKey)>)
        ensures
            devices.deep_view() == self.registry().account(caller@).devices,
    {
        self.devices.get_devices(caller)
    }

    /// Deletes the device of `caller` that goes by `device_alias`; changes
    /// nothing where `caller` has no device of that alias.
    ///
    /// Refused, with nothing changed, where `caller` has no device at all,
    /// and where `caller` has just one.
    pub fn delete_device(&mut self, caller: Identity, device_alias: DeviceAlias) -> (r: Result<
        (),
        Fault,
    >)
        ensures
            final(self).paired(),
            final(self).ledger() == old(self).ledger(),
            final(self).registry().agrees_except(&old(self).registry(), caller@),
            match old(self).registry().account(caller@).delete_device(device_alias@) {
                Ok(after) => r == Ok::<(), Fault>(()) && final(self).registry().account(caller@)
                    == after,
                Err(fault) => r == Err::<(), Fault>(fault) && final(self).registry().account(
                    caller@,
                ) == old(self).registry().account(caller@),
            },
    {
        proof {
            use_type_invariant(&*self);
            assert(self.ledger().has_list(caller@) == (self.registry().account(
                caller@,
            ).devices.len() > 0));
        }
        let mut state = Backend::new();
        std::mem::swap(self, &mut state);
        let Backend { mut devices, notes } = state;
        let outcome = devices.delete_device(caller, device_alias);
        proof {
            lemma_still_paired(*old(self), devices, notes, caller@);
        }
        *self = Backend { devices, notes };
        outcome
    }

    /// Whether no secret was ever stored for `caller`.
    pub fn is_seed(&self, caller: Identity) -> (r: bool)
        ensures
            r == self.registry().account(caller@).is_seed(),
    {
        self.devices.is_seed(caller)
    }

    /// Stores `encrypted_secret` for the device of `caller` that has the
    /// public key `public_key`, and answers `"Uploaded"`.
    ///
    /// Fails with [`SecretError::Unknown`], and changes nothing, where
    /// `caller` has no device with that public key.
    pub fn upload_seed_secret(
        &mut self,
        caller: Identity,
        public_key: PublicKey,
        encrypted_secret: EncryptedSecret,
    ) -> (r: SecretResult)
        ensures
            final(self).paired(),
            final(self).ledger() == old(self).ledger(),
            final(self).registry().agrees_except(&old(self).registry(), caller@),
            match old(self).registry().account(caller@).upload_seed_secret(
                public_key@,
                encrypted_secret@,
            ) {
                Ok(after) => r is Ok && r->Ok_0@ == "Uploaded"@ && final(self).registry().account(
                    caller@,
                ) == after,
                Err(error) => r == Err::<EncryptedSecret, SecretError>(error)
                    && final(self).registry().account(caller@) == old(self).registry().account(
                    caller@,
                ),
            },
    {
        proof {
            use_type_invariant(&*self);
            assert(self.ledger().has_list(caller@) == (self.registry().account(
                caller@,
            ).devices.len() > 0));
        }
        let mut state = Backend::new();
        std::mem::swap(self, &mut state);
        let Backend { mut devices, notes } = state;
        let outcome = devices.upload_seed_secret(caller, public_key, encrypted_secret);
        proof {
            lemma_still_paired(*old(self), devices, notes, caller@);
        }
        *self = Backend { devices, notes };
        outcome
    }

    /// Stores each secret of `keys`, a public key with the secret encrypted
    /// for it, for `caller`, one after the other. Nothing asks whether a
    /// public key belongs to a device of `caller`.
    pub fn upload_encrypted_secrets(
        &mut self,
        caller: Identity,
        keys: Vec<(PublicKey, EncryptedSecret)>,
    )
        ensures
            final(self).paired(),
            final(self).ledger() == old(self).ledger(),
            final(self).registry().agrees_except(&old(self).registry(), caller@),
            final(self).registry().account(caller@) == old(self).registry().account(
                caller@,
            ).upload_encrypted_secrets(keys.deep_view()),
    {
        proof {
            use_type_invariant(&*self);
            assert(self.ledger().has_list(caller@) == (self.registry().account(
                caller@,
            ).devices.len() > 0));
            crate::account::lemma_upload_encrypted_secrets(
                self.registry().account(caller@),
                keys.deep_view(),
            );
        }
        let mut state = Backend::new();
        std::mem::swap(self, &mut state);
        let Backend { mut devices, notes } = state;
        devices.upload_encrypted_secrets(caller, keys);
        proof {
            lemma_still_paired(*old(self), devices, notes, caller@);
        }
        *self = Backend { devices, notes };
    }

    /// The public keys of the devices of `caller` for which no secret is
    /// stored yet, in the order of their devices.
    pub fn get_unsynced_public_keys(&self, caller: Identity) -> (keys: Vec<PublicKey>)
        ensures
            keys.deep_view() == self.registry().account(caller@).unsynced_public_keys(),
    {
        self.devices.get_unsynced_public_keys(caller)
    }

    /// The secret stored for the device of `caller` that has the public key
    /// `public_key`.
    ///
    /// Fails with [`SecretError::Unknown`] where `caller` has no device with
    /// that public key, and with [`SecretError::NotSynced`] where it has one
    /// but no secret is stored for it.
    pub fn get_encrypted_secrets(&self, caller: Identity, public_key: PublicKey) -> (r:
        SecretResult)
        ensures
            match self.registry().account(caller@).encrypted_secret(public_key@) {
                Ok(ciphertext) => r is Ok && r->Ok_0@ == ciphertext,
                Err(error) => r == Err::<EncryptedSecret, SecretError>(error),
            },
    {
        self.devices.get_encrypted_secrets(caller, public_key)
    }

    /// The notes of `caller`, oldest first; none where `caller` has no
    /// device.
    pub fn get_notes(&self, caller: Identity) -> (notes: Vec<EncryptedNote>)
        ensures
            notes.deep_view() == self.ledger().notes(caller@),
    {
        self.notes.get_notes(caller)
    }

    /// Adds a note with the text `encrypted_text` to the end of `caller`'s
    /// list and returns its number: the next number of the ledger, which
    /// then goes up by one.
    ///
    /// Refused, with nothing changed, where `caller` has no device, and
    /// where the numbers have run out.
    pub fn add_note(&mut self, caller: Identity, encrypted_text: String) -> (r: Result<u128, Fault>)
        ensures
            final(self).paired(),
            final(self).registry() == old(self).registry(),
            final(self).ledger().agrees_except(&old(self).ledger(), caller@),
            match r {
                Ok(id) => {
                    &&& old(self).registry().account(caller@).devices.len() > 0
                    &&& id == old(self).ledger().next_id()
                    &&& final(self).ledger().next_id() == id + 1
                    &&& final(self).ledger().notes(caller@) == old(self).ledger().notes(
                        caller@,
                    ).push(NoteView { id, encrypted_text: encrypted_text@ })
                },
                Err(fault) => {
                    &&& final(self).ledger().agrees(&old(self).ledger())
                    &&& fault == (if old(self).registry().account(caller@).devices.len() == 0 {
                        Fault::NoSuchIdentity
                    } else {
                        Fault::NoteIdsExhausted
                    })
                    &&& old(self).registry().account(caller@).devices.len() > 0
                        ==> old(self).ledger().next_id() == u128::MAX
                },
            },
    {
        proof {
            use_type_invariant(&*self);
            assert(self.ledger().has_list(caller@) == (self.registry().account(
                caller@,
            ).devices.len() > 0));
        }
        let mut state = Backend::new();
        std::mem::swap(self, &mut state);
        let Backend { devices, mut notes } = state;
        let outcome = notes.add_note(caller, encrypted_text);
        proof {
            lemma_still_paired(*old(self), devices, notes, caller@);
        }
        *self = Backend { devices, notes };
        outcome
    }

    /// Replaces the text of the first note of `caller` numbered `update_id`;
    /// changes nothing where `caller` has no such note.
    ///
    /// Refused where `caller` has no device.
    pub fn update_note(&mut self, caller: Identity, update_id: u128, update_text: String) -> (r:
        Result<(), Fault>)
        ensures
            final(self).paired(),
            final(self).registry() == old(self).registry(),
            final(self).ledger().agrees_except(&old(self).ledger(), caller@),
            final(self).ledger().next_id() == old(self).ledger().next_id(),
            r == (if old(self).registry().account(caller@).devices.len() > 0 {
                Ok::<(), Fault>(())
            } else {
                Err::<(), Fault>(Fault::NoSuchIdentity)
            }),
            final(self).ledger().notes(caller@) == with_text(
                old(self).ledger().notes(caller@),
                update_id,
                update_text@,
            ),
    {
        proof {
            use_type_invariant(&*self);
            assert(self.ledger().has_list(caller@) == (self.registry().account(
                caller@,
            ).devices.len() > 0));
        }
        let mut state = Backend::new();
        std::mem::swap(self, &mut state);
        let Backend { devices, mut notes } = state;
        let outcome = notes.update_note(caller, update_id, update_text);
        proof {
            lemma_still_paired(*old(self), devices, notes, caller@);
        }
        *self = Backend { devices, notes };
        outcome
    }

    /// Deletes every note of `caller` numbered `delete_id`, leaving the
    /// others in their order.
    ///
    /// Refused where `caller` has no device.
    pub fn delete_note(&mut self, caller: Identity, delete_id: u128) -> (r: Result<(), Fault>)
        ensures
            final(self).paired(),
            final(self).registry() == old(self).registry(),
            final(self).ledger().agrees_except(&old(self).ledger(), caller@),
            final(self).ledger().next_id() == old(self).ledger().next_id(),
            r == (if old(self).registry().account(caller@).devices.len() > 0 {
                Ok::<(), Fault>(())
            } else {
                Err::<(), Fault>(Fault::NoSuchIdentity)
            }),
            final(self).ledger().notes(caller@) == old(self).ledger().notes(caller@).filter(
                other_than_id(delete_id),
            ),
    {
        proof {
            use_type_invariant(&*self);
            assert(self.ledger().has_list(caller@) == (self.registry().account(
                caller@,
            ).devices.len() > 0));
        }
        let mut state = Backend::new();
        std::mem::swap(self, &mut state);
        let Backend { devices, mut notes } = state;
        let outcome = notes.delete_note(caller, delete_id);
        proof {
            lemma_still_paired(*old(self), devices, notes, caller@);
        }
        *self = Backend { devices, notes };
        outcome
    }
}

impl Default for Backend {
    /// A service that has heard of no identity.
    fn default() -> (backend: Backend)
        ensures
            backend.paired(),
            backend.ledger().next_id() == 0,
            forall|id: Seq<u8>|
                backend.registry().account(id) == AccountView::empty()
                    && !backend.ledger().has_list(id),
    {
        Backend::new()
    }
}

/// A change that touches one identity keeps the pairing, if it leaves that
/// identity with a note list exactly when it has a device.
proof fn lemma_still_paired(
    before: Backend,
    devices: DevicesStore,
    notes: NotesStore,
    caller: Seq<u8>,
)
    requires
        before.paired(),
        devices.agrees_except(&before.registry(), caller),
        notes.agrees_except(&before.ledger(), caller),
        notes.has_list(caller) == (devices.account(caller).devices.len() > 0),
    ensures
        forall|id: Seq<u8>| #[trigger]
            notes.has_list(id) == (devices.account(id).devices.len() > 0),
{
    assert forall|id: Seq<u8>| #[trigger]
        notes.has_list(id) == (devices.account(id).devices.len() > 0) by {
        assert(before.ledger().has_list(id) == (before.registry().account(id).devices.len() > 0));
    }
}

} // verus!
