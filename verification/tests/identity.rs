use candid::Principal;
use encrypted_notes_backend::identity::{Identity, MAX_IDENTITY_BYTES};

#[test]
fn an_identity_holds_the_bytes_it_was_made_of() {
    let id = Identity::from_slice(&[1, 2, 3]).unwrap();
    assert_eq!(id.to_vec(), vec![1, 2, 3]);

    let empty = Identity::from_slice(&[]).unwrap();
    assert!(empty.to_vec().is_empty());
}

#[test]
fn an_identity_has_at_most_twenty_nine_bytes() {
    assert_eq!(MAX_IDENTITY_BYTES, 29);

    let longest = [9u8; 29];
    let id = Identity::from_slice(&longest).unwrap();
    assert_eq!(id.to_vec(), longest.to_vec());

    assert!(Identity::from_slice(&[9u8; 30]).is_none());
}

#[test]
fn identities_are_the_same_when_their_bytes_agree() {
    let a = Identity::from_slice(&[1, 2, 3]).unwrap();
    let b = Identity::from_slice(&[1, 2, 3]).unwrap();
    let shorter = Identity::from_slice(&[1, 2]).unwrap();
    let other = Identity::from_slice(&[1, 2, 4]).unwrap();
    let padded = Identity::from_slice(&[1, 2, 0]).unwrap();

    assert!(a.same(&b));
    assert!(a.same(&a));
    assert!(!a.same(&shorter));
    assert!(!shorter.same(&a));
    assert!(!a.same(&other));
    assert!(!shorter.same(&padded));
}

#[test]
fn every_principal_is_an_identity() {
    let anonymous = Principal::anonymous();
    let id = Identity::from_slice(anonymous.as_slice()).unwrap();
    assert_eq!(id.to_vec(), anonymous.as_slice().to_vec());

    let user = Principal::self_authenticating([7u8; 32]);
    assert_eq!(user.as_slice().len(), 29);
    let id = Identity::from_slice(user.as_slice()).unwrap();
    assert_eq!(Principal::from_slice(&id.to_vec()), user);
}
