use easyenv::crypto::{decrypt, encrypt, generate_key};
use easyenv::error::EnvError;

#[test]
fn roundtrips_payloads() {
    let key = generate_key().unwrap();
    let encrypted = encrypt(key.as_ref(), b"super-secret").unwrap();
    let decrypted = decrypt(key.as_ref(), &encrypted).unwrap();
    assert_eq!(decrypted.as_slice(), b"super-secret");
}

#[test]
fn payloads_are_framed_and_checked() {
    let key = generate_key().unwrap();
    assert_eq!(key.len(), 32);
    let blob = encrypt(&key, b"value").unwrap();
    assert_eq!(&blob[..4], b"EENV");
    assert_eq!(blob[4], 1);
    assert_eq!(blob.len(), 17 + 5 + 16);

    assert_eq!(encrypt(&key[..31], b"x").unwrap_err(), EnvError::BadKeyLength);
    assert_eq!(decrypt(&key, &blob[..10]).unwrap_err(), EnvError::PayloadTruncated);
    let mut bad = blob.clone();
    bad[0] = b'X';
    assert_eq!(decrypt(&key, &bad).unwrap_err(), EnvError::PayloadBadHeader);
    let mut bad = blob.clone();
    bad[4] = 2;
    assert_eq!(decrypt(&key, &bad).unwrap_err(), EnvError::PayloadBadVersion);
    let mut bad = blob.clone();
    let last = bad.len() - 1;
    bad[last] ^= 1;
    assert_eq!(decrypt(&key, &bad).unwrap_err(), EnvError::DecryptFailed);
    let other = generate_key().unwrap();
    assert_eq!(decrypt(&other, &blob).unwrap_err(), EnvError::DecryptFailed);
}
