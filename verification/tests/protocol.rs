use encrypted_notes_backend::backend::Backend;
use encrypted_notes_backend::devices_store::DevicesStore;
use encrypted_notes_backend::error::{Fault, SecretError};
use encrypted_notes_backend::identity::Identity;
use encrypted_notes_backend::notes_store::NotesStore;

fn text(s: &str) -> String {
    s.to_string()
}

fn alice() -> Identity {
    Identity::from_slice(&[1, 2, 3]).unwrap()
}

fn bob() -> Identity {
    Identity::from_slice(&[4, 5]).unwrap()
}

#[test]
fn scenario_first_device_uploads_the_seed_secret() {
    let mut backend = Backend::new();
    assert!(backend.register_device(alice(), text("Brave"), text("PK1")));
    assert!(backend.is_seed(alice()));

    assert_eq!(
        backend.upload_seed_secret(alice(), text("PK1"), text("ENC1")),
        Ok(text("Uploaded"))
    );
    assert!(!backend.is_seed(alice()));
}

#[test]
fn scenario_second_device_receives_the_secret() {
    let mut backend = Backend::new();
    backend.register_device(alice(), text("Brave"), text("PK1"));
    backend
        .upload_seed_secret(alice(), text("PK1"), text("ENC1"))
        .unwrap();

    assert!(backend.register_device(alice(), text("Chrome"), text("PK2")));
    assert_eq!(backend.get_unsynced_public_keys(alice()), vec![text("PK2")]);

    backend.upload_encrypted_secrets(
        alice(),
        vec![(text("PK1"), text("ENC1")), (text("PK2"), text("ENC2"))],
    );

    assert_eq!(
        backend.get_encrypted_secrets(alice(), text("PK2")),
        Ok(text("ENC2"))
    );
    assert!(backend.get_unsynced_public_keys(alice()).is_empty());
}

#[test]
fn scenario_secret_of_an_unknown_key() {
    let mut backend = Backend::new();
    backend.register_device(alice(), text("Brave"), text("PK1"));
    assert_eq!(
        backend.get_encrypted_secrets(alice(), text("UNKNOWN_KEY")),
        Err(SecretError::Unknown)
    );
}

#[test]
fn scenario_secret_before_any_upload() {
    let mut backend = Backend::new();
    backend.register_device(alice(), text("PK1"), text("PK1"));
    assert_eq!(
        backend.get_encrypted_secrets(alice(), text("PK1")),
        Err(SecretError::NotSynced)
    );
}

#[test]
fn scenario_the_last_device_stays() {
    let mut backend = Backend::new();
    backend.register_device(alice(), text("Brave"), text("PK1"));
    assert_eq!(
        backend.delete_device(alice(), text("Brave")),
        Err(Fault::LastDevice)
    );
    assert_eq!(backend.get_devices(alice()).len(), 1);
    // Whatever alias the request names.
    assert_eq!(
        backend.delete_device(alice(), text("Chrome")),
        Err(Fault::LastDevice)
    );
    assert_eq!(
        backend.get_devices(alice()),
        vec![(text("Brave"), text("PK1"))]
    );
}

#[test]
fn a_taken_alias_is_refused_whatever_the_public_key() {
    let mut backend = Backend::new();
    assert!(backend.register_device(alice(), text("Brave"), text("PK1")));
    assert!(!backend.register_device(alice(), text("Brave"), text("PK1")));
    assert!(!backend.register_device(alice(), text("Brave"), text("PK9")));
    assert_eq!(
        backend.get_devices(alice()),
        vec![(text("Brave"), text("PK1"))]
    );
    // The alias is taken within its identity only.
    assert!(backend.register_device(bob(), text("Brave"), text("PK1")));
}

#[test]
fn devices_come_in_the_order_of_their_registration() {
    let mut backend = Backend::new();
    for (alias, key) in [("c", "K3"), ("a", "K1"), ("b", "K2")] {
        assert!(backend.register_device(alice(), text(alias), text(key)));
    }
    assert_eq!(
        backend.get_devices(alice()),
        vec![
            (text("c"), text("K3")),
            (text("a"), text("K1")),
            (text("b"), text("K2"))
        ]
    );
    assert_eq!(backend.delete_device(alice(), text("a")), Ok(()));
    assert_eq!(
        backend.get_devices(alice()),
        vec![(text("c"), text("K3")), (text("b"), text("K2"))]
    );
    assert_eq!(backend.delete_device(alice(), text("missing")), Ok(()));
    assert_eq!(backend.get_devices(alice()).len(), 2);
}

#[test]
fn an_identity_without_devices() {
    let mut backend = Backend::new();
    assert!(backend.get_devices(alice()).is_empty());
    assert!(backend.get_unsynced_public_keys(alice()).is_empty());
    assert!(backend.is_seed(alice()));
    assert_eq!(
        backend.delete_device(alice(), text("Brave")),
        Err(Fault::NoSuchIdentity)
    );
    assert_eq!(
        backend.upload_seed_secret(alice(), text("PK1"), text("ENC1")),
        Err(SecretError::Unknown)
    );
    assert_eq!(
        backend.get_encrypted_secrets(alice(), text("PK1")),
        Err(SecretError::Unknown)
    );
    assert!(backend.is_seed(alice()));
}

#[test]
fn a_note_list_exists_exactly_with_a_device() {
    let mut backend = Backend::new();
    let paired = |backend: &Backend, id: Identity| {
        backend.notes().has_note(id) == !backend.devices().get_devices(id).is_empty()
    };
    assert!(paired(&backend, alice()) && paired(&backend, bob()));
    assert!(!backend.notes().has_note(alice()));

    backend.register_device(alice(), text("Brave"), text("PK1"));
    assert!(backend.notes().has_note(alice()));
    assert!(paired(&backend, alice()) && paired(&backend, bob()));

    backend.register_device(alice(), text("Chrome"), text("PK2"));
    backend.add_note(alice(), text("note")).unwrap();
    backend.delete_device(alice(), text("Brave")).unwrap();
    let _ = backend.delete_device(alice(), text("Chrome"));
    backend.upload_encrypted_secrets(bob(), vec![(text("PK7"), text("E"))]);
    let _ = backend.upload_seed_secret(alice(), text("PK2"), text("E"));
    backend.delete_note(alice(), 0).unwrap();
    assert!(paired(&backend, alice()) && paired(&backend, bob()));
    assert!(backend.notes().has_note(alice()));
    assert!(!backend.notes().has_note(bob()));
}

#[test]
fn a_second_device_keeps_the_notes() {
    let mut backend = Backend::new();
    backend.register_device(alice(), text("Brave"), text("PK1"));
    backend.add_note(alice(), text("note")).unwrap();
    backend.register_device(alice(), text("Chrome"), text("PK2"));
    assert_eq!(backend.get_notes(alice()).len(), 1);
}

#[test]
fn a_note_list_without_a_device_stops_the_first_registration() {
    let mut devices = DevicesStore::new();
    let mut notes = NotesStore::new();
    notes.assign_note(alice());
    notes.add_note(alice(), text("kept")).unwrap();

    assert_eq!(
        devices.register_device(&mut notes, alice(), text("Brave"), text("PK1")),
        Err(Fault::NoteListWithoutDevice)
    );
    assert!(devices.get_devices(alice()).is_empty());
    assert_eq!(notes.get_notes(alice()).len(), 1);
}

#[test]
fn the_default_stores_are_empty() {
    let backend = Backend::default();
    assert!(backend.get_devices(alice()).is_empty());
    assert!(!backend.notes().has_note(alice()));

    let devices = DevicesStore::default();
    assert!(devices.get_devices(alice()).is_empty());
    assert!(devices.is_seed(alice()));

    let mut notes = NotesStore::default();
    assert!(!notes.has_note(alice()));
    notes.assign_note(alice());
    assert_eq!(notes.add_note(alice(), text("first")), Ok(0));
}
