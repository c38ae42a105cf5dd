//! The secrets stored for one identity.

use crate::ordered_map::{has_key, OrderedMap};
use vstd::prelude::*;

verus! {

/// The secrets of `record` as contracts speak of them: the text of the
/// ciphertext stored for each public key.
pub open spec fn secret_views(record: Map<Seq<char>, String>) -> Map<Seq<char>, Seq<char>> {
    record.map_values(|ciphertext: String| ciphertext@)
}

/// For each public key of one identity, the shared secret as encrypted for
/// the device that holds that key.
pub struct SecretRecord {
    secrets: OrderedMap<String, String>,
}

impl View for SecretRecord {
    type V = Map<Seq<char>, Seq<char>>;

    closed spec fn view(&self) -> Map<Seq<char>, Seq<char>> {
        secret_views(self.secrets.map())
    }
}

impl SecretRecord {
    /// A record that holds no secret.
    pub fn new() -> (record: SecretRecord)
        ensures
            record@ == Map::<Seq<char>, Seq<char>>::empty(),
    {
        let record = SecretRecord { secrets: OrderedMap::new() };
        assert(record@ =~= Map::<Seq<char>, Seq<char>>::empty());
        record
    }

    /// Whether the record holds no secret.
    pub fn is_empty(&self) -> (r: bool)
        ensures
            r == (forall|public_key: Seq<char>| !self@.dom().contains(public_key)),
    {
        let n = self.secrets.len();
        proof {
            if n > 0 {
                let first = self.secrets.entries()[0];
                assert(has_key(self.secrets.entries(), first.0));
                assert(self@.dom().contains(first.0));
            }
        }
        n == 0
    }

    /// Whether a secret is stored for `public_key`.
    pub fn contains(&self, public_key: &String) -> (r: bool)
        ensures
            r == self@.dom().contains(public_key@),
    {
        self.secrets.contains(public_key)
    }

    /// The ciphertext stored for `public_key`.
    pub fn get(&self, public_key: &String) -> (r: Option<String>)
        ensures
            match r {
                Some(ciphertext) => self@.dom().contains(public_key@) && ciphertext@
                    == self@[public_key@],
                None => !self@.dom().contains(public_key@),
            },
    {
        match self.secrets.get(public_key) {
            Some(ciphertext) => Some(ciphertext.clone()),
            None => None,
        }
    }

    /// Stores `ciphertext` for `public_key`, in the place of what was stored
    /// for it before.
    pub fn insert(&mut self, public_key: String, ciphertext: String)
        ensures
            final(self)@ == old(self)@.insert(public_key@, ciphertext@),
    {
        self.secrets.insert(public_key, ciphertext);
        assert(self@ =~= old(self)@.insert(public_key@, ciphertext@));
    }
}

} // verus!
