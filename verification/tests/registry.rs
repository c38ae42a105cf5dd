use candid::Principal;
use encrypted_notes_backend::backend::Backend;
use encrypted_notes_backend::devices_store::{DevicesStore, EncryptedSecret, PublicKey};
use encrypted_notes_backend::error::{Fault, SecretError};
use encrypted_notes_backend::identity::Identity;
use encrypted_notes_backend::notes_store::NotesStore;
use std::str::FromStr;

const TEST_ACCOUNT_1: &str = "h4a5i-5vcfo-5rusv-fmb6m-vrkia-mjnkc-jpoow-h5mam-nthnm-ldqlr-bqe";

fn test_identity() -> Identity {
    let principal = Principal::from_str(TEST_ACCOUNT_1).unwrap();
    Identity::from_slice(principal.as_slice()).unwrap()
}

#[test]
fn lib_test_register_and_get_devices() {
    let mut devices = DevicesStore::new();
    let mut notes = NotesStore::new();
    let device_info = ("Brave".to_string(), "TEST_KEY".to_string());

    let principal = test_identity();
    let res = devices.register_device(
        &mut notes,
        principal,
        device_info.0.clone(),
        device_info.1.clone(),
    );

    assert_eq!(res, Ok(true));

    let device_list = devices.get_devices(principal);

    assert_eq!(device_list.len(), 1);
    assert_eq!(device_list[0], device_info);
}

#[test]
fn lib_test_register_and_delete_device() {
    let mut devices = DevicesStore::new();
    let mut notes = NotesStore::new();
    let device_info_1 = ("Brave".to_string(), "TEST_KEY".to_string());
    let device_info_2 = ("Chrome".to_string(), "TEST_KEY".to_string());

    let principal = test_identity();
    let res = devices.register_device(
        &mut notes,
        principal,
        device_info_1.0.clone(),
        device_info_1.1.clone(),
    );
    assert_eq!(res, Ok(true));

    let principal = test_identity();
    let res = devices.register_device(
        &mut notes,
        principal,
        device_info_2.0.clone(),
        device_info_2.1.clone(),
    );
    assert_eq!(res, Ok(true));

    let device_list = devices.get_devices(principal);
    assert_eq!(device_list.len(), 2);

    assert_eq!(devices.delete_device(principal, device_info_1.0), Ok(()));

    let device_list = devices.get_devices(principal);
    assert_eq!(device_list.len(), 1);
    assert_eq!(device_list[0], device_info_2);
}

#[test]
fn lib_test_register_device_duplication_err() {
    let mut devices = DevicesStore::new();
    let mut notes = NotesStore::new();
    let device_info = ("Brave".to_string(), "TEST_KEY".to_string());

    let principal = test_identity();
    let res = devices.register_device(
        &mut notes,
        principal,
        device_info.0.clone(),
        device_info.1.clone(),
    );
    assert_eq!(res, Ok(true));

    let principal = test_identity();
    let res = devices.register_device(
        &mut notes,
        principal,
        device_info.0.clone(),
        device_info.1.clone(),
    );

    assert_eq!(res, Ok(false));
    assert_eq!(devices.get_devices(principal).len(), 1);
}

#[test]
fn lib_test_delete_device_err() {
    let mut devices = DevicesStore::new();
    let mut notes = NotesStore::new();
    let device_info = ("Brave".to_string(), "TEST_KEY".to_string());

    let principal = test_identity();
    let _res = devices.register_device(
        &mut notes,
        principal,
        device_info.0.clone(),
        device_info.1.clone(),
    );

    assert_eq!(
        devices.delete_device(principal, device_info.0.clone()),
        Err(Fault::LastDevice)
    );
    assert_eq!(devices.get_devices(principal), vec![device_info]);
}

#[test]
fn main_test_register_and_get_devices() {
    let mut backend = Backend::new();
    let device_info = ("Brave".to_string(), "PUBLIC_KEY".to_string());

    let principal = test_identity();
    let res = backend.register_device(principal, device_info.0.clone(), device_info.1.clone());

    assert!(res);

    let device_list = backend.get_devices(principal);

    assert_eq!(device_list.len(), 1);
    assert_eq!(device_list[0], device_info);
}

#[test]
fn main_test_register_and_delete_device() {
    let mut backend = Backend::new();
    let device_info_1 = ("Brave".to_string(), "PUBLIC_KEY".to_string());
    let device_info_2 = ("Chrome".to_string(), "PUBLIC_KEY_2".to_string());

    let principal = test_identity();
    let res = backend.register_device(principal, device_info_1.0.clone(), device_info_1.1.clone());
    assert!(res);

    let principal = test_identity();
    let res = backend.register_device(principal, device_info_2.0.clone(), device_info_2.1.clone());
    assert!(res);

    let device_list = backend.get_devices(principal);
    assert_eq!(device_list.len(), 2);

    assert_eq!(backend.delete_device(principal, device_info_1.0), Ok(()));

    let device_list = backend.get_devices(principal);
    assert_eq!(device_list.len(), 1);
    assert_eq!(device_list[0], device_info_2);
}

#[test]
fn main_test_register_device_duplication_err() {
    let mut backend = Backend::new();
    let device_info = ("Brave".to_string(), "PUBLIC_KEY".to_string());

    let principal = test_identity();
    let res = backend.register_device(principal, device_info.0.clone(), device_info.1.clone());
    assert!(res);

    let principal = test_identity();
    let res = backend.register_device(principal, device_info.0.clone(), device_info.1.clone());

    assert!(!res);
    assert_eq!(backend.get_devices(principal).len(), 1);
}

#[test]
fn main_test_delete_device_err() {
    let mut backend = Backend::new();
    let device_info = ("Brave".to_string(), "PUBLIC_KEY".to_string());

    let principal = test_identity();
    let _res = backend.register_device(principal, device_info.0.clone(), device_info.1.clone());

    assert_eq!(
        backend.delete_device(principal, device_info.0.clone()),
        Err(Fault::LastDevice)
    );
    assert_eq!(backend.get_devices(principal), vec![device_info]);
}

#[test]
fn upload_seed_secret_duplication_err() {
    let mut backend = Backend::new();
    let device_info = ("Brave".to_string(), "PUBLIC_KEY".to_string());

    let principal = test_identity();
    let res = backend.register_device(principal, device_info.0.clone(), device_info.1.clone());
    assert!(res);

    let is_seed_res = backend.is_seed(principal);
    assert!(is_seed_res);

    let secret_res = backend.upload_seed_secret(
        principal,
        "PUBLIC_KEY".to_string(),
        "TEST_SECRET".to_string(),
    );
    let expected_ok = Ok("Uploaded".to_string());
    assert_eq!(secret_res, expected_ok);

    let is_seed_res = backend.is_seed(principal);
    assert!(!is_seed_res);
}

#[test]
fn get_encrypted_secrets_unknown_err() {
    let mut backend = Backend::new();
    let device_info = ("Brave".to_string(), "PUBLIC_KEY".to_string());

    let principal = test_identity();
    let res = backend.register_device(principal, device_info.0.clone(), device_info.1.clone());
    assert!(res);

    let secret_res_err = backend.upload_seed_secret(
        principal,
        "TEST_ERR_KEY".to_string(),
        "TEST_SECRET".to_string(),
    );
    let expected = Err(SecretError::Unknown);
    assert_eq!(secret_res_err, expected);
}

#[test]
fn get_encrypted_secrets_notsynced_err() {
    let mut backend = Backend::new();
    let device_info = ("Brave".to_string(), "PUBLIC_KEY".to_string());

    let principal = test_identity();
    let res = backend.register_device(principal, device_info.0.clone(), device_info.1.clone());
    assert!(res);

    let secret_res_err = backend.get_encrypted_secrets(principal, device_info.1.clone());
    let expected = Err(SecretError::NotSynced);
    assert_eq!(secret_res_err, expected);
}

#[test]
fn test_upload_and_get_secret() {
    let mut backend = Backend::new();
    let device_info_1 = ("Brave".to_string(), "PUBLIC_KEY".to_string());
    let device_info_2 = ("Chrome".to_string(), "PUBLIC_KEY_2".to_string());

    let principal = test_identity();
    let res = backend.register_device(principal, device_info_1.0.clone(), device_info_1.1.clone());
    assert!(res);

    let principal = test_identity();
    let res = backend.register_device(principal, device_info_2.0.clone(), device_info_2.1.clone());
    assert!(res);

    let is_seed = backend.is_seed(principal);
    assert!(is_seed);

    let unsynced_keys = backend.get_unsynced_public_keys(principal);
    assert_eq!(unsynced_keys.len(), 2);

    let keys: Vec<(PublicKey, EncryptedSecret)> = [
        (device_info_1.1, "Encrypted1".to_string()),
        (device_info_2.1.clone(), "Encrypted2".to_string()),
    ]
    .to_vec();
    backend.upload_encrypted_secrets(principal, keys);

    let encrypted_secret = backend.get_encrypted_secrets(principal, device_info_2.1);

    let expected = Ok("Encrypted2".to_string());
    assert_eq!(encrypted_secret, expected);
}
