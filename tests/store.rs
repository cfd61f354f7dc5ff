use aes_gcm_siv::aead::{Aead, NewAead};
use aes_gcm_siv::{Aes256GcmSiv, Key, Nonce};
use std::path::PathBuf;
use totp_store::codec::{deserialize_profiles, serialize_profiles};
use totp_store::{ProfileStore, StoreLoadError, StoreSaveError, TotpProfile};

const KEY: [u8; 32] = [7u8; 32];
const NONCE: [u8; 12] = [3u8; 12];

fn profile(name: &str, secret: &[u8], time_step: u64, digits: u32) -> TotpProfile {
    TotpProfile { name: name.to_string(), secret: secret.to_vec(), time_step, digits }
}

fn same(a: &TotpProfile, b: &TotpProfile) -> bool {
    a.name == b.name && a.secret == b.secret && a.time_step == b.time_step && a.digits == b.digits
}

fn seal(plain: &[u8]) -> Vec<u8> {
    let cipher = Aes256GcmSiv::new(Key::from_slice(&KEY));
    let mut out = NONCE.to_vec();
    out.extend(cipher.encrypt(Nonce::from_slice(&NONCE), plain).unwrap());
    out
}

fn sample_store() -> ProfileStore {
    let mut store = ProfileStore::new(PathBuf::from("profiles.bin"), KEY).unwrap();
    store.add(profile("mail", &[0, 159, 146, 150, 255], 30, 6)).unwrap();
    store.add(profile("bank", b"12345678901234567890", 60, 8)).unwrap();
    store.add(profile("ünïcode ✓", &[], 1, 9)).unwrap();
    store
}

#[test]
fn new_store_is_empty() {
    let store = ProfileStore::new(PathBuf::from("p.bin"), KEY).unwrap();
    assert!(store.get("anything").is_none());
    assert_eq!(store.path(), &PathBuf::from("p.bin"));
}

#[test]
fn add_then_get() {
    let store = sample_store();
    let p = store.get("bank").unwrap();
    assert!(same(p, &profile("bank", b"12345678901234567890", 60, 8)));
    assert!(store.get("ünïcode ✓").is_some());
}

#[test]
fn add_duplicate_keeps_existing() {
    let mut store = sample_store();
    let err = store.add(profile("mail", &[1, 2, 3], 15, 7)).unwrap_err();
    assert_eq!(err.0, "mail");
    assert!(same(store.get("mail").unwrap(), &profile("mail", &[0, 159, 146, 150, 255], 30, 6)));
}

#[test]
fn remove_present_and_absent() {
    let mut store = sample_store();
    let removed = store.remove("mail").unwrap();
    assert!(same(&removed, &profile("mail", &[0, 159, 146, 150, 255], 30, 6)));
    assert!(store.get("mail").is_none());
    assert!(store.remove("mail").is_none());
    assert!(store.get("bank").is_some());
    assert!(store.get("ünïcode ✓").is_some());
}

#[test]
fn get_absent_is_none() {
    let store = sample_store();
    assert!(store.get("nope").is_none());
    assert!(store.get("Mail").is_none());
    assert!(store.get("").is_none());
}

#[test]
fn file_round_trip() {
    let store = sample_store();
    let bytes = store.to_file_bytes().unwrap();
    let loaded = ProfileStore::load(PathBuf::from("profiles.bin"), KEY, &bytes).unwrap();
    for name in ["mail", "bank", "ünïcode ✓"] {
        assert!(same(loaded.get(name).unwrap(), store.get(name).unwrap()));
    }
    assert!(loaded.get("other").is_none());
}

#[test]
fn empty_store_round_trip() {
    let store = ProfileStore::new(PathBuf::from("e.bin"), KEY).unwrap();
    let bytes = store.to_file_bytes().unwrap();
    assert_eq!(bytes.len(), 12 + 16);
    let loaded = ProfileStore::load(PathBuf::from("e.bin"), KEY, &bytes).unwrap();
    assert!(loaded.get("mail").is_none());
}

#[test]
fn file_is_nonce_then_aead_of_records() {
    let store = sample_store();
    let bytes = store.encrypt_with_nonce(&NONCE).unwrap();
    let mut profiles = Vec::new();
    profiles.push(profile("mail", &[0, 159, 146, 150, 255], 30, 6));
    profiles.push(profile("bank", b"12345678901234567890", 60, 8));
    profiles.push(profile("ünïcode ✓", &[], 1, 9));
    assert_eq!(bytes, seal(&serialize_profiles(&profiles)));
    assert_ne!(&bytes[12..], serialize_profiles(&profiles).as_slice());
}

#[test]
fn fresh_nonce_each_write() {
    let store = sample_store();
    let a = store.to_file_bytes().unwrap();
    let b = store.to_file_bytes().unwrap();
    assert_ne!(a[..12], b[..12]);
}

#[test]
fn tamper_any_bit_fails_decrypt() {
    let store = sample_store();
    let bytes = store.encrypt_with_nonce(&NONCE).unwrap();
    for i in 0..bytes.len() {
        for bit in 0..8 {
            let mut t = bytes.clone();
            t[i] ^= 1 << bit;
            let r = ProfileStore::load(PathBuf::from("x"), KEY, &t);
            assert!(matches!(r, Err(StoreLoadError::CannotDecrypt)));
        }
    }
}

#[test]
fn truncated_file_fails_decrypt() {
    let store = sample_store();
    let bytes = store.encrypt_with_nonce(&NONCE).unwrap();
    for len in [0, 5, 11, 12, 27, bytes.len() - 1] {
        let r = ProfileStore::load(PathBuf::from("x"), KEY, &bytes[..len]);
        assert!(matches!(r, Err(StoreLoadError::CannotDecrypt)));
    }
}

#[test]
fn wrong_key_fails_decrypt() {
    let store = sample_store();
    let bytes = store.to_file_bytes().unwrap();
    let r = ProfileStore::load(PathBuf::from("x"), [8u8; 32], &bytes);
    assert!(matches!(r, Err(StoreLoadError::CannotDecrypt)));
}

#[test]
fn malformed_plaintext_fails_deserialize() {
    let r = ProfileStore::load(PathBuf::from("x"), KEY, &seal(b"not a record"));
    assert!(matches!(r, Err(StoreLoadError::CannotDeserialize)));
}

#[test]
fn duplicate_names_fail_deserialize() {
    let mut profiles = Vec::new();
    profiles.push(profile("same", &[1], 30, 6));
    profiles.push(profile("same", &[2], 30, 6));
    let r = ProfileStore::load(PathBuf::from("x"), KEY, &seal(&serialize_profiles(&profiles)));
    assert!(matches!(r, Err(StoreLoadError::CannotDeserialize)));
}

#[test]
fn save_error_variant_exists() {
    let e = StoreSaveError::CannotEncrypt;
    assert!(matches!(e, StoreSaveError::CannotEncrypt));
}

#[test]
fn codec_round_trip_binary_secrets() {
    let mut profiles = Vec::new();
    profiles.push(profile("Test", &[152, 8, 22, 45, 66, 87, 253], 140, 15));
    profiles.push(profile("", &[0xff, 0xfe, 0x00, 0x80], u64::MAX, u32::MAX));
    let bytes = serialize_profiles(&profiles);
    let back = deserialize_profiles(&bytes).unwrap();
    assert_eq!(back.len(), 2);
    assert!(same(&back[0], &profiles[0]));
    assert!(same(&back[1], &profiles[1]));
}

#[test]
fn codec_record_layout() {
    let mut profiles = Vec::new();
    profiles.push(profile("ab", &[9], 30, 6));
    let bytes = serialize_profiles(&profiles);
    let expected: Vec<u8> = vec![
        2, 0, 0, 0, 0, 0, 0, 0, b'a', b'b', 1, 0, 0, 0, 0, 0, 0, 0, 9, 30, 0, 0, 0, 0, 0, 0, 0,
        6, 0, 0, 0,
    ];
    assert_eq!(bytes, expected);
}

#[test]
fn codec_rejects_bad_input() {
    assert_eq!(deserialize_profiles(&[]).unwrap().len(), 0);
    assert!(deserialize_profiles(&[1, 2, 3]).is_none());
    let mut profiles = Vec::new();
    profiles.push(profile("ab", &[9], 30, 6));
    let bytes = serialize_profiles(&profiles);
    assert!(deserialize_profiles(&bytes[..bytes.len() - 1]).is_none());
    let mut bad_utf8 = bytes.clone();
    bad_utf8[8] = 0xff;
    assert!(deserialize_profiles(&bad_utf8).is_none());
}
