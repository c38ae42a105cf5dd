//! What the service holds for one identity, and how each operation changes
//! it, as mathematics.
//!
//! The stores state their contracts over [`AccountView`]; the lemmas below
//! say what follows for every account.

use crate::error::{Fault, SecretError};
use crate::ordered_map::{distinct_keys, has_key};
use vstd::prelude::*;

verus! {

/// The devices and secrets of one identity.
#[verifier::ext_equal]
pub struct AccountView {
    /// The registered devices, each an alias with its public key, in the
    /// order in which they were registered. Empty for an identity that never
    /// registered one.
    pub devices: Seq<(Seq<char>, Seq<char>)>,
    /// The ciphertext of the shared secret stored for a public key.
    pub secrets: Map<Seq<char>, Seq<char>>,
}

/// The devices that go by another alias than `alias`.
pub open spec fn other_than(alias: Seq<char>) -> spec_fn((Seq<char>, Seq<char>)) -> bool {
    |device: (Seq<char>, Seq<char>)| device.0 != alias
}

/// The devices whose public key has no secret in `secrets`.
pub open spec fn without_secret(secrets: Map<Seq<char>, Seq<char>>) -> spec_fn(
    (Seq<char>, Seq<char>),
) -> bool {
    |device: (Seq<char>, Seq<char>)| !secrets.dom().contains(device.1)
}

/// The public key of a device.
pub open spec fn public_key_of() -> spec_fn((Seq<char>, Seq<char>)) -> Seq<char> {
    |device: (Seq<char>, Seq<char>)| device.1
}

impl AccountView {
    /// The account of an identity that the service has never heard of.
    pub open spec fn empty() -> AccountView {
        AccountView { devices: Seq::empty(), secrets: Map::empty() }
    }

    /// No two devices share an alias.
    pub open spec fn wf(self) -> bool {
        distinct_keys(self.devices)
    }

    /// Whether a device is registered under `alias`.
    pub open spec fn has_alias(self, alias: Seq<char>) -> bool {
        has_key(self.devices, alias)
    }

    /// Whether some registered device has the public key `public_key`.
    pub open spec fn has_public_key(self, public_key: Seq<char>) -> bool {
        exists|i: int|
            0 <= i < self.devices.len() && (#[trigger] self.devices[i]).1 == public_key
    }

    /// The public keys of the registered devices.
    pub open spec fn registered_keys(self) -> Set<Seq<char>> {
        Set::new(|public_key: Seq<char>| self.has_public_key(public_key))
    }

    /// The public keys for which a secret is stored.
    pub open spec fn synced_keys(self) -> Set<Seq<char>> {
        self.secrets.dom()
    }

    /// Whether no secret was ever stored for this identity.
    pub open spec fn is_seed(self) -> bool {
        forall|public_key: Seq<char>| !self.secrets.dom().contains(public_key)
    }

    /// The account after an attempt to register a device: unchanged where
    /// the alias is taken, else with the device added as the newest.
    pub open spec fn register_device(self, alias: Seq<char>, public_key: Seq<char>) -> AccountView {
        if self.has_alias(alias) {
            self
        } else {
            AccountView { devices: self.devices.push((alias, public_key)), secrets: self.secrets }
        }
    }

    /// The account after the device `alias` was deleted, or why it cannot be.
    /// The secret stored for the device's public key stays.
    pub open spec fn delete_device(self, alias: Seq<char>) -> Result<AccountView, Fault> {
        if self.devices.len() == 0 {
            Err(Fault::NoSuchIdentity)
        } else if self.devices.len() == 1 {
            Err(Fault::LastDevice)
        } else {
            Ok(
                AccountView {
                    devices: self.devices.filter(other_than(alias)),
                    secrets: self.secrets,
                },
            )
        }
    }

    /// The account with `ciphertext` stored for `public_key`, in the place of
    /// what was stored for it before.
    pub open spec fn with_secret(
        self,
        public_key: Seq<char>,
        ciphertext: Seq<char>,
    ) -> AccountView {
        AccountView { devices: self.devices, secrets: self.secrets.insert(public_key, ciphertext) }
    }

    /// The account after a device stored the secret for its own public key,
    /// or why it cannot.
    pub open spec fn upload_seed_secret(
        self,
        public_key: Seq<char>,
        ciphertext: Seq<char>,
    ) -> Result<AccountView, SecretError> {
        if self.has_public_key(public_key) {
            Ok(self.with_secret(public_key, ciphertext))
        } else {
            Err(SecretError::Unknown)
        }
    }

    /// The account after the secrets of `entries`, each a public key with its
    /// ciphertext, were stored one after the other. Nothing asks whether a
    /// public key is registered.
    pub open spec fn upload_encrypted_secrets(
        self,
        entries: Seq<(Seq<char>, Seq<char>)>,
    ) -> AccountView
        decreases entries.len(),
    {
        if entries.len() == 0 {
            self
        } else {
            self.upload_encrypted_secrets(entries.drop_last()).with_secret(
                entries.last().0,
                entries.last().1,
            )
        }
    }

    /// The public keys of the devices that still wait for the secret, in the
    /// order of their devices.
    pub open spec fn unsynced_public_keys(self) -> Seq<Seq<char>> {
        self.devices.filter(without_secret(self.secrets)).map_values(public_key_of())
    }

    /// The ciphertext stored for `public_key`, or why there is none to give.
    pub open spec fn encrypted_secret(self, public_key: Seq<char>) -> Result<
        Seq<char>,
        SecretError,
    > {
        if !self.has_public_key(public_key) {
            Err(SecretError::Unknown)
        } else if !self.secrets.dom().contains(public_key) {
            Err(SecretError::NotSynced)
        } else {
            Ok(self.secrets[public_key])
        }
    }
}

/// Where no device goes by `alias`, taking the devices of that alias away
/// changes nothing.
pub proof fn lemma_other_than_absent(devices: Seq<(Seq<char>, Seq<char>)>, alias: Seq<char>)
    requires
        !has_key(devices, alias),
    ensures
        devices.filter(other_than(alias)) == devices,
    decreases devices.len(),
{
    reveal(Seq::filter);
    if devices.len() > 0 {
        let rest = devices.drop_last();
        assert forall|i: int| 0 <= i < rest.len() implies (#[trigger] rest[i]).0 != alias by {
            assert(devices[i].0 != alias);
        }
        lemma_other_than_absent(rest, alias);
        assert(devices.last() == devices[devices.len() - 1]);
        assert(devices.last().0 != alias);
        assert(rest.push(devices.last()) =~= devices);
    }
}

/// Where aliases are distinct, taking the devices of an alias away removes
/// the one device that goes by it and leaves the others in their order.
pub proof fn lemma_other_than_present(
    devices: Seq<(Seq<char>, Seq<char>)>,
    alias: Seq<char>,
    i: int,
)
    requires
        distinct_keys(devices),
        0 <= i < devices.len(),
        devices[i].0 == alias,
    ensures
        devices.filter(other_than(alias)) == devices.remove(i),
    decreases devices.len(),
{
    reveal(Seq::filter);
    let rest = devices.drop_last();
    let last = devices.last();
    assert(last == devices[devices.len() - 1]);
    if i == devices.len() - 1 {
        assert forall|j: int| 0 <= j < rest.len() implies (#[trigger] rest[j]).0 != alias by {
            assert(devices[j].0 != devices[i].0);
        }
        lemma_other_than_absent(rest, alias);
        assert(devices.remove(i) =~= rest);
    } else {
        assert(devices[i].0 != devices[devices.len() - 1].0);
        assert forall|a: int, b: int| 0 <= a < b < rest.len() implies (#[trigger] rest[a]).0 != (
        #[trigger] rest[b]).0 by {
            assert(devices[a].0 != devices[b].0);
        }
        lemma_other_than_present(rest, alias, i);
        assert(rest.remove(i).push(last) =~= devices.remove(i));
    }
}


/// An alias that was registered is taken: registering it again is refused
/// and changes nothing, whatever public key comes with it. A registration
/// that is not refused adds exactly one device.
pub proof fn lemma_duplicate_alias_is_refused(
    account: AccountView,
    alias: Seq<char>,
    public_key: Seq<char>,
    other_key: Seq<char>,
)
    ensures
        account.register_device(alias, public_key).has_alias(alias),
        account.register_device(alias, public_key).register_device(alias, other_key)
            == account.register_device(alias, public_key),
        !account.has_alias(alias) ==> account.register_device(alias, public_key).devices.len()
            == account.devices.len() + 1,
        account.has_alias(alias) ==> account.register_device(alias, public_key) == account,
{
    let after = account.register_device(alias, public_key);
    if !account.has_alias(alias) {
        assert(after.devices[account.devices.len() as int].0 == alias);
    }
}

/// Registering a device keeps the aliases distinct, leaves the account with
/// a device, and touches no secret.
pub proof fn lemma_register_device(account: AccountView, alias: Seq<char>, public_key: Seq<char>)
    requires
        account.wf(),
    ensures
        account.register_device(alias, public_key).wf(),
        account.register_device(alias, public_key).devices.len() > 0,
        account.register_device(alias, public_key).secrets == account.secrets,
{
    let after = account.register_device(alias, public_key);
    if !account.has_alias(alias) {
        assert forall|i: int, j: int| 0 <= i < j < after.devices.len() implies (
        #[trigger] after.devices[i]).0 != (#[trigger] after.devices[j]).0 by {
            assert(after.devices[i] == account.devices[i]);
            if j < account.devices.len() {
                assert(after.devices[j] == account.devices[j]);
            }
        }
    } else {
        let i = choose|i: int|
            0 <= i < account.devices.len() && (#[trigger] account.devices[i]).0 == alias;
        assert(account.devices.len() > 0);
    }
}

/// A deletion that is not refused keeps the aliases distinct, removes the
/// device of that alias and no other, never removes the last device, and
/// touches no secret.
pub proof fn lemma_delete_device(account: AccountView, alias: Seq<char>)
    requires
        account.wf(),
        account.delete_device(alias) is Ok,
    ensures
        account.delete_device(alias)->Ok_0.wf(),
        !account.delete_device(alias)->Ok_0.has_alias(alias),
        account.delete_device(alias)->Ok_0.devices.len() == (if account.has_alias(alias) {
            account.devices.len() - 1
        } else {
            account.devices.len() as int
        }),
        account.delete_device(alias)->Ok_0.devices.len() > 0,
        account.delete_device(alias)->Ok_0.secrets == account.secrets,
{
    let after = account.delete_device(alias)->Ok_0;
    if account.has_alias(alias) {
        let i = choose|i: int|
            0 <= i < account.devices.len() && (#[trigger] account.devices[i]).0 == alias;
        lemma_other_than_present(account.devices, alias, i);
        crate::ordered_map::lemma_remove_entry(account.devices, i);
    } else {
        lemma_other_than_absent(account.devices, alias);
    }
}

/// The last device of an identity cannot be deleted: the request is
/// refused, whatever alias it names.
pub proof fn lemma_last_device_is_protected(account: AccountView, alias: Seq<char>)
    requires
        account.devices.len() == 1,
    ensures
        account.delete_device(alias) == Err::<AccountView, Fault>(Fault::LastDevice),
{
}

/// Storing secrets in bulk touches no device, stores a secret for every
/// public key that `entries` names and for no other, and stores for each
/// what the last entry that names it holds.
pub proof fn lemma_upload_encrypted_secrets(
    account: AccountView,
    entries: Seq<(Seq<char>, Seq<char>)>,
)
    ensures
        account.upload_encrypted_secrets(entries).devices == account.devices,
        forall|public_key: Seq<char>|
            #![trigger account.upload_encrypted_secrets(entries).secrets.dom().contains(public_key)]
            account.upload_encrypted_secrets(entries).secrets.dom().contains(public_key) == (
            has_key(entries, public_key) || account.secrets.dom().contains(public_key)),
        forall|public_key: Seq<char>|
            #![trigger account.upload_encrypted_secrets(entries).secrets[public_key]]
            !has_key(entries, public_key) ==> account.upload_encrypted_secrets(
                entries,
            ).secrets[public_key] == account.secrets[public_key],
        forall|i: int|
            0 <= i < entries.len() && (forall|j: int|
                i < j < entries.len() ==> (#[trigger] entries[j]).0 != entries[i].0)
                ==> account.upload_encrypted_secrets(entries).secrets[(#[trigger] entries[i]).0]
                == entries[i].1,
    decreases entries.len(),
{
    let after = account.upload_encrypted_secrets(entries);
    if entries.len() > 0 {
        let rest = entries.drop_last();
        let last = entries.last();
        let middle = account.upload_encrypted_secrets(rest);
        lemma_upload_encrypted_secrets(account, rest);
        assert(last == entries[entries.len() - 1]);
        assert forall|public_key: Seq<char>| has_key(entries, public_key) == (public_key == last.0
            || has_key(rest, public_key)) by {
            if has_key(entries, public_key) {
                let i = choose|i: int|
                    0 <= i < entries.len() && (#[trigger] entries[i]).0 == public_key;
                if i < rest.len() {
                    assert(rest[i].0 == public_key);
                }
            }
            if has_key(rest, public_key) {
                let i = choose|i: int| 0 <= i < rest.len() && (#[trigger] rest[i]).0 == public_key;
                assert(entries[i].0 == public_key);
            }
        }
        assert forall|i: int|
            0 <= i < entries.len() && (forall|j: int|
                i < j < entries.len() ==> (#[trigger] entries[j]).0 != entries[i].0)
            implies after.secrets[(#[trigger] entries[i]).0] == entries[i].1 by {
            if i < rest.len() {
                assert(entries[entries.len() - 1].0 != entries[i].0);
                assert(rest[i] == entries[i]);
                assert forall|j: int| i < j < rest.len() implies (#[trigger] rest[j]).0
                    != rest[i].0 by {
                    assert(entries[j].0 != entries[i].0);
                }
            }
        }
    }
}

/// Whether an identity is a seed depends on its secrets alone: registering
/// and deleting devices never changes it, and neither does a bulk upload of
/// nothing. So an identity for which no secret was stored is a seed right
/// after its first registration, and stays one until a secret is stored.
pub proof fn lemma_seed_changes_only_by_upload(
    account: AccountView,
    alias: Seq<char>,
    public_key: Seq<char>,
)
    ensures
        AccountView::empty().register_device(alias, public_key).is_seed(),
        account.register_device(alias, public_key).is_seed() == account.is_seed(),
        account.delete_device(alias) is Ok ==> account.delete_device(alias)->Ok_0.is_seed()
            == account.is_seed(),
        account.upload_encrypted_secrets(Seq::empty()) == account,
{
    assert(AccountView::empty().register_device(alias, public_key).secrets == Map::<
        Seq<char>,
        Seq<char>,
    >::empty());
    assert(account.register_device(alias, public_key).secrets == account.secrets);
    if account.delete_device(alias) is Ok {
        assert(account.delete_device(alias)->Ok_0.secrets == account.secrets);
    }
}

/// Once a secret is stored, the identity is a seed no more: a successful
/// upload ends it, and so does every bulk upload that holds an entry.
pub proof fn lemma_upload_ends_seed(
    account: AccountView,
    public_key: Seq<char>,
    ciphertext: Seq<char>,
    entries: Seq<(Seq<char>, Seq<char>)>,
)
    ensures
        account.upload_seed_secret(public_key, ciphertext) is Ok ==> !account.upload_seed_secret(
            public_key,
            ciphertext,
        )->Ok_0.is_seed(),
        entries.len() > 0 ==> !account.upload_encrypted_secrets(entries).is_seed(),
{
    if account.upload_seed_secret(public_key, ciphertext) is Ok {
        let after = account.upload_seed_secret(public_key, ciphertext)->Ok_0;
        assert(after.secrets.dom().contains(public_key));
    }
    if entries.len() > 0 {
        lemma_upload_encrypted_secrets(account, entries);
        assert(has_key(entries, entries[0].0));
        assert(account.upload_encrypted_secrets(entries).secrets.dom().contains(entries[0].0));
    }
}

/// An identity that is no seed never becomes one again, whatever is done.
pub proof fn lemma_seed_never_returns(
    account: AccountView,
    alias: Seq<char>,
    public_key: Seq<char>,
    ciphertext: Seq<char>,
    entries: Seq<(Seq<char>, Seq<char>)>,
)
    requires
        !account.is_seed(),
    ensures
        !account.register_device(alias, public_key).is_seed(),
        account.delete_device(alias) is Ok ==> !account.delete_device(alias)->Ok_0.is_seed(),
        account.upload_seed_secret(public_key, ciphertext) is Ok ==> !account.upload_seed_secret(
            public_key,
            ciphertext,
        )->Ok_0.is_seed(),
        !account.upload_encrypted_secrets(entries).is_seed(),
{
    let stored = choose|stored: Seq<char>| account.secrets.dom().contains(stored);
    assert(account.secrets.dom().contains(stored));
    assert(account.register_device(alias, public_key).secrets.dom().contains(stored));
    if account.delete_device(alias) is Ok {
        assert(account.delete_device(alias)->Ok_0.secrets.dom().contains(stored));
    }
    assert(account.with_secret(public_key, ciphertext).secrets.dom().contains(stored));
    lemma_upload_encrypted_secrets(account, entries);
    assert(account.upload_encrypted_secrets(entries).secrets.dom().contains(stored));
}

/// The public keys that wait for the secret are the registered public keys
/// without those for which a secret is stored.
pub proof fn lemma_unsynced_public_keys(account: AccountView)
    ensures
        account.unsynced_public_keys().to_set() == account.registered_keys().difference(
            account.synced_keys(),
        ),
{
    let waiting = account.devices.filter(without_secret(account.secrets));
    let keys = account.unsynced_public_keys();
    let expected = account.registered_keys().difference(account.synced_keys());
    #[allow(deprecated)]
    account.devices.filter_lemma(without_secret(account.secrets));
    assert forall|key: Seq<char>| keys.to_set().contains(key) == expected.contains(key) by {
        if keys.to_set().contains(key) {
            let i = choose|i: int| 0 <= i < keys.len() && keys[i] == key;
            assert(keys[i] == waiting[i].1);
            assert(without_secret(account.secrets)(waiting[i]));
            assert(waiting.contains(waiting[i]));
            account.devices.lemma_filter_contains_rev(without_secret(account.secrets), waiting[i]);
            let j = choose|j: int|
                0 <= j < account.devices.len() && account.devices[j] == waiting[i];
            assert(account.devices[j].1 == key);
        }
        if expected.contains(key) {
            let j = choose|j: int|
                0 <= j < account.devices.len() && (#[trigger] account.devices[j]).1 == key;
            assert(without_secret(account.secrets)(account.devices[j]));
            assert(waiting.contains(account.devices[j]));
            let i = choose|i: int| 0 <= i < waiting.len() && waiting[i] == account.devices[j];
            assert(keys[i] == key);
        }
    }
    assert(keys.to_set() =~= expected);
}

/// What a device stored for its public key is what a request for that
/// public key answers.
pub proof fn lemma_seed_secret_round_trip(
    account: AccountView,
    public_key: Seq<char>,
    ciphertext: Seq<char>,
)
    requires
        account.has_public_key(public_key),
    ensures
        account.upload_seed_secret(public_key, ciphertext) is Ok,
        account.upload_seed_secret(public_key, ciphertext)->Ok_0.encrypted_secret(public_key)
            == Ok::<Seq<char>, SecretError>(ciphertext),
{
    let after = account.with_secret(public_key, ciphertext);
    let i = choose|i: int|
        0 <= i < account.devices.len() && (#[trigger] account.devices[i]).1 == public_key;
    assert(after.devices[i].1 == public_key);
    assert(after.secrets.dom().contains(public_key));
}

/// What a bulk upload stored for the public key of a registered device is
/// what a request for that public key answers: the ciphertext of the last
/// entry that names the public key.
pub proof fn lemma_bulk_secret_round_trip(
    account: AccountView,
    entries: Seq<(Seq<char>, Seq<char>)>,
    i: int,
)
    requires
        0 <= i < entries.len(),
        forall|j: int| i < j < entries.len() ==> (#[trigger] entries[j]).0 != entries[i].0,
        account.has_public_key(entries[i].0),
    ensures
        account.upload_encrypted_secrets(entries).encrypted_secret(entries[i].0) == Ok::<
            Seq<char>,
            SecretError,
        >(entries[i].1),
{
    lemma_upload_encrypted_secrets(account, entries);
    let after = account.upload_encrypted_secrets(entries);
    assert(has_key(entries, entries[i].0));
    assert(after.secrets.dom().contains(entries[i].0));
    assert(after.secrets[entries[i].0] == entries[i].1);
}

/// A stored secret stays as it is until a secret is stored for the same
/// public key again: no registration, no deletion and no upload for other
/// public keys changes it.
pub proof fn lemma_secret_stays_until_overwritten(
    account: AccountView,
    stored_key: Seq<char>,
    alias: Seq<char>,
    public_key: Seq<char>,
    ciphertext: Seq<char>,
    entries: Seq<(Seq<char>, Seq<char>)>,
)
    requires
        account.secrets.dom().contains(stored_key),
    ensures
        account.register_device(alias, public_key).secrets.dom().contains(stored_key),
        account.register_device(alias, public_key).secrets[stored_key]
            == account.secrets[stored_key],
        account.delete_device(alias) is Ok ==> account.delete_device(
            alias,
        )->Ok_0.secrets.dom().contains(stored_key) && account.delete_device(
            alias,
        )->Ok_0.secrets[stored_key] == account.secrets[stored_key],
        account.upload_seed_secret(public_key, ciphertext) is Ok && public_key != stored_key
            ==> account.upload_seed_secret(public_key, ciphertext)->Ok_0.secrets.dom().contains(
            stored_key,
        ) && account.upload_seed_secret(public_key, ciphertext)->Ok_0.secrets[stored_key]
            == account.secrets[stored_key],
        !has_key(entries, stored_key) ==> account.upload_encrypted_secrets(
            entries,
        ).secrets.dom().contains(stored_key) && account.upload_encrypted_secrets(
            entries,
        ).secrets[stored_key] == account.secrets[stored_key],
{
    lemma_upload_encrypted_secrets(account, entries);
    assert(account.upload_encrypted_secrets(entries).secrets.dom().contains(stored_key));
}


} // verus!
