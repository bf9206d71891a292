use idcard_detect::auth::{
    hash_password, hash_password_with_salt, token_expiry, verify_password, HashError, SALT_LEN, TOKEN_LIFETIME_SECS,
};

#[test]
fn hashed_password_verifies() {
    let h = hash_password("hunter2").unwrap();
    assert_ne!(h, "hunter2");
    assert!(h.starts_with("$argon2"));
    assert!(verify_password("hunter2", &h));
    assert!(!verify_password("hunter3", &h));
}

#[test]
fn two_hashes_of_one_password_differ() {
    let a = hash_password("pw").unwrap();
    let b = hash_password("pw").unwrap();
    assert_ne!(a, b);
}

#[test]
fn unparsable_hash_matches_nothing() {
    assert!(!verify_password("pw", ""));
    assert!(!verify_password("pw", "not a phc string"));
}

#[test]
fn token_expires_after_an_hour() {
    assert_eq!(TOKEN_LIFETIME_SECS, 3600);
    assert_eq!(token_expiry(1_700_000_000), Some(1_700_003_600));
    assert_eq!(token_expiry(u64::MAX - 3599), None);
    assert_eq!(token_expiry(u64::MAX - 3600), Some(u64::MAX));
}

#[test]
fn salted_hash_is_argon2id_phc_string() {
    let salt = [7u8; 16];
    let h = hash_password_with_salt("hunter2", &salt).unwrap();
    assert!(h.starts_with("$argon2id$v=19$m=19456,t=2,p=1$"));
    assert!(verify_password("hunter2", &h));
    assert!(!verify_password("hunter3", &h));
}

#[test]
fn same_salt_gives_same_hash() {
    let a = hash_password_with_salt("pw", &[1u8; 16]).unwrap();
    let b = hash_password_with_salt("pw", &[1u8; 16]).unwrap();
    let c = hash_password_with_salt("pw", &[2u8; 16]).unwrap();
    assert_eq!(a, b);
    assert_ne!(a, c);
}

#[test]
fn salt_of_wrong_length_is_refused() {
    assert_eq!(hash_password_with_salt("pw", &[]), Err(HashError::Hashing));
    assert_eq!(hash_password_with_salt("pw", &[1u8; 2]), Err(HashError::Hashing));
    assert_eq!(hash_password_with_salt("pw", &[1u8; 17]), Err(HashError::Hashing));
    assert_eq!(SALT_LEN, 16);
}
