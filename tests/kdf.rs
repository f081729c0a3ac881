use base64::{engine::general_purpose, Engine as _};
use polygraphia::{
    constant_time_compare, derive_key, derive_key_raw, derive_key_with_iterations, generate_salt,
    verify_password,
};

#[test]
fn test_generate_salt() {
    let salt1 = generate_salt();
    let salt2 = generate_salt();

    // Should be 16 bytes
    assert_eq!(salt1.len(), 16);
    assert_eq!(salt2.len(), 16);

    // Should be different (probabilistically)
    assert_ne!(salt1, salt2);
}

#[test]
fn test_derive_key() {
    let password = "my_secure_password";
    let salt = generate_salt();

    let key = derive_key(password, &salt);

    // Should be base64 encoded (44 chars for 32 bytes)
    assert!(!key.is_empty());

    // Same password and salt should produce same key
    let key2 = derive_key(password, &salt);
    assert_eq!(key, key2);
}

#[test]
fn test_derive_key_different_salts() {
    let password = "password123";
    let salt1 = generate_salt();
    let salt2 = generate_salt();

    let key1 = derive_key(password, &salt1);
    let key2 = derive_key(password, &salt2);

    // Different salts should produce different keys
    assert_ne!(key1, key2);
}

#[test]
fn test_derive_key_different_passwords() {
    let salt = generate_salt();

    let key1 = derive_key("password1", &salt);
    let key2 = derive_key("password2", &salt);

    // Different passwords should produce different keys
    assert_ne!(key1, key2);
}

#[test]
fn test_derive_key_with_iterations() {
    let password = "test_password";
    let salt = generate_salt();

    let key1 = derive_key_with_iterations(password, &salt, 10_000);
    let key2 = derive_key_with_iterations(password, &salt, 10_000);

    // Same parameters should produce same key
    assert_eq!(key1, key2);

    // Different iterations should produce different keys
    let key3 = derive_key_with_iterations(password, &salt, 20_000);
    assert_ne!(key1, key3);
}

#[test]
fn test_derive_key_raw() {
    let password = "raw_key_test";
    let salt = generate_salt();

    let raw_key = derive_key_raw(password, &salt, 100_000);

    // Should be 32 bytes
    assert_eq!(raw_key.len(), 32);

    // Should be consistent
    let raw_key2 = derive_key_raw(password, &salt, 100_000);
    assert_eq!(raw_key, raw_key2);
}

#[test]
fn test_verify_password() {
    let password = "correct_password";
    let salt = generate_salt();
    let derived_key = derive_key(password, &salt);

    // Correct password should verify
    assert!(verify_password(password, &salt, &derived_key, 100_000));

    // Wrong password should not verify
    assert!(!verify_password(
        "wrong_password",
        &salt,
        &derived_key,
        100_000
    ));

    // Empty password should not verify
    assert!(!verify_password("", &salt, &derived_key, 100_000));
}

#[test]
fn test_constant_time_compare() {
    let a = b"hello";
    let b = b"hello";
    let c = b"world";
    let d = b"helloworld";

    assert!(constant_time_compare(a, b));
    assert!(!constant_time_compare(a, c));
    assert!(!constant_time_compare(a, d)); // Different lengths
}

#[test]
fn test_key_derivation_deterministic() {
    // Test that key derivation is deterministic
    let password = "deterministic_test";
    let salt = [42u8; 16]; // Fixed salt

    let key1 = derive_key(password, &salt);
    let key2 = derive_key(password, &salt);
    let key3 = derive_key(password, &salt);

    assert_eq!(key1, key2);
    assert_eq!(key2, key3);
}

#[test]
fn test_base64_encoding() {
    let password = "test";
    let salt = [0u8; 16];
    let key = derive_key(password, &salt);

    // Should be valid base64
    assert!(general_purpose::URL_SAFE.decode(&key).is_ok());

    // Decoded should be 32 bytes
    let decoded = general_purpose::URL_SAFE.decode(&key).unwrap();
    assert_eq!(decoded.len(), 32);
}

#[test]
fn encoded_key_is_the_raw_key_in_base64() {
    let salt = [7u8; 16];
    let raw = derive_key_raw("pw", &salt, 1_000);
    let encoded = derive_key_with_iterations("pw", &salt, 1_000);
    assert_eq!(encoded.len(), 44);
    assert!(encoded.ends_with('='));
    assert_eq!(general_purpose::URL_SAFE.decode(&encoded).unwrap(), raw.to_vec());
    assert!(verify_password("pw", &salt, &encoded, 1_000));
    assert!(!verify_password("pw", &salt, &encoded, 1_001));
    assert!(!verify_password("pw", &salt, "", 1_000));
}

#[test]
fn constant_time_compare_edge_cases() {
    assert!(constant_time_compare(b"", b""));
    assert!(!constant_time_compare(b"a", b""));
    assert!(!constant_time_compare(b"abcd", b"abce"));
    assert!(!constant_time_compare(b"xbcd", b"abcd"));
}
