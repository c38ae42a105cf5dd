//! Caller identities.

use vstd::prelude::*;

verus! {

/// The longest byte string that names an account.
pub const MAX_IDENTITY_BYTES: usize = 29;

/// An opaque caller token: the byte string, of at most
/// [`MAX_IDENTITY_BYTES`] bytes, that names an account.
///
/// Two identities name the same account exactly when their bytes agree, and
/// that byte string is what contracts mean by `id@`.
#[derive(Clone, Copy, Debug)]
pub struct Identity {
    len: u8,
    bytes: [u8; 29],
}

impl View for Identity {
    type V = Seq<u8>;

    closed spec fn view(&self) -> Seq<u8> {
        self.bytes@.take(self.len as int)
    }
}

impl Identity {
    #[verifier::type_invariant]
    spec fn within_bounds(&self) -> bool {
        self.len as int <= MAX_IDENTITY_BYTES
    }

    /// The identity named by `bytes`, if they are few enough to name one.
    pub fn from_slice(bytes: &[u8]) -> (id: Option<Identity>)
        ensures
            bytes@.len() <= MAX_IDENTITY_BYTES ==> id.is_some() && id.unwrap()@ == bytes@,
            bytes@.len() > MAX_IDENTITY_BYTES ==> id.is_none(),
    {
        if bytes.len() > MAX_IDENTITY_BYTES {
            return None;
        }
        let mut buffer = [0u8; 29];
        let mut i: usize = 0;
        while i < bytes.len()
            invariant
                i <= bytes@.len() <= MAX_IDENTITY_BYTES,
                forall|j: int| 0 <= j < i ==> buffer@[j] == bytes@[j],
            decreases bytes@.len() - i,
        {
            buffer[i] = bytes[i];
            i += 1;
        }
        let id = Identity { len: bytes.len() as u8, bytes: buffer };
        assert(id@ =~= bytes@);
        Some(id)
    }

    /// The bytes that name this identity.
    pub fn to_vec(&self) -> (bytes: Vec<u8>)
        ensures
            bytes@ == self@,
    {
        proof {
            use_type_invariant(self);
        }
        let mut out: Vec<u8> = Vec::new();
        let mut i: u8 = 0;
        while i < self.len
            invariant
                i <= self.len <= MAX_IDENTITY_BYTES,
                out@ == self.bytes@.take(i as int),
            decreases self.len - i,
        {
            out.push(self.bytes[i as usize]);
            assert(self.bytes@.take(i + 1) =~= self.bytes@.take(i as int).push(
                self.bytes@[i as int],
            ));
            i += 1;
        }
        out
    }

    /// Whether `self` and `other` name the same account.
    pub fn same(&self, other: &Identity) -> (r: bool)
        ensures
            r == (self@ == other@),
    {
        proof {
            use_type_invariant(self);
            use_type_invariant(other);
        }
        if self.len != other.len {
            assert(self@.len() != other@.len());
            return false;
        }
        let mut i: u8 = 0;
        while i < self.len
            invariant
                i <= self.len <= MAX_IDENTITY_BYTES,
                self.len == other.len,
                forall|j: int| 0 <= j < i ==> self.bytes@[j] == other.bytes@[j],
            decreases self.len - i,
        {
            if self.bytes[i as usize] != other.bytes[i as usize] {
                assert(self@[i as int] != other@[i as int]);
                return false;
            }
            i += 1;
        }
        assert(self@ =~= other@);
        true
    }
}

} // verus!
