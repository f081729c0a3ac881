use polygraphia::{Caesar, Cipher, PolygraphiaError, TextMode};

#[test]
fn test_caesar_new() {
    let cipher = Caesar::new(3).unwrap();
    assert_eq!(cipher.shift(), 3);
    assert_eq!(cipher.mode(), TextMode::PreserveAll);
}

#[test]
fn test_caesar_with_mode() {
    let cipher = Caesar::with_mode(3, TextMode::AlphaOnly).unwrap();
    assert_eq!(cipher.mode(), TextMode::AlphaOnly);
}

#[test]
fn test_caesar_new_with_modulo() {
    let cipher = Caesar::new(29).unwrap();
    assert_eq!(cipher.shift(), 3); // 29 % 26 = 3
}

#[test]
fn test_caesar_zero_shift() {
    let cipher = Caesar::new(0).unwrap();
    assert_eq!(cipher.shift(), 0);
    // Zero shift means no encryption
    assert_eq!(cipher.encrypt("hello").unwrap(), "hello");
}

#[test]
fn test_caesar_encrypt_preserve_all() {
    let cipher = Caesar::new(3).unwrap();
    assert_eq!(cipher.encrypt("hello").unwrap(), "khoor");
    assert_eq!(cipher.encrypt("HELLO").unwrap(), "KHOOR");
    assert_eq!(cipher.encrypt("Hello World!").unwrap(), "Khoor Zruog!");
    assert_eq!(cipher.encrypt("hello123").unwrap(), "khoor123");
    assert_eq!(cipher.encrypt("Test123!@#").unwrap(), "Whvw123!@#");
}

#[test]
fn test_caesar_encrypt_alpha_only() {
    let cipher = Caesar::with_mode(3, TextMode::AlphaOnly).unwrap();
    assert_eq!(cipher.encrypt("hello").unwrap(), "khoor");
    assert_eq!(cipher.encrypt("Hello World!").unwrap(), "KhoorZruog");
    assert_eq!(cipher.encrypt("hello123").unwrap(), "khoor");
    assert_eq!(cipher.encrypt("Test123!@#").unwrap(), "Whvw");
}

#[test]
fn test_caesar_decrypt_preserve_all() {
    let cipher = Caesar::new(3).unwrap();
    assert_eq!(cipher.decrypt("khoor").unwrap(), "hello");
    assert_eq!(cipher.decrypt("KHOOR").unwrap(), "HELLO");
    assert_eq!(cipher.decrypt("Khoor Zruog!").unwrap(), "Hello World!");
    assert_eq!(cipher.decrypt("khoor123").unwrap(), "hello123");
}

#[test]
fn test_caesar_decrypt_alpha_only() {
    let cipher = Caesar::with_mode(3, TextMode::AlphaOnly).unwrap();
    assert_eq!(cipher.decrypt("khoor").unwrap(), "hello");
    assert_eq!(cipher.decrypt("KhoorZruog").unwrap(), "HelloWorld");
}

#[test]
fn test_caesar_encrypt_decrypt_roundtrip_preserve_all() {
    let cipher = Caesar::new(7).unwrap();
    let plaintext = "The Quick Brown Fox Jumps Over The Lazy Dog 123!";
    let encrypted = cipher.encrypt(plaintext).unwrap();
    let decrypted = cipher.decrypt(&encrypted).unwrap();
    assert_eq!(
        decrypted,
        "The Quick Brown Fox Jumps Over The Lazy Dog 123!"
    );

    // Verify roundtrip
    let cipher2 = Caesar::new(7).unwrap();
    assert_eq!(
        cipher2.decrypt(&encrypted).unwrap(),
        "The Quick Brown Fox Jumps Over The Lazy Dog 123!"
    );
}

#[test]
fn test_caesar_encrypt_decrypt_roundtrip_alpha_only() {
    let cipher = Caesar::with_mode(7, TextMode::AlphaOnly).unwrap();
    let plaintext = "The Quick Brown Fox 123!";
    let encrypted = cipher.encrypt(plaintext).unwrap();
    let decrypted = cipher.decrypt(&encrypted).unwrap();
    assert_eq!(encrypted, "AolXbpjrIyvduMve");
    assert_eq!(decrypted, "TheQuickBrownFox");
}

#[test]
fn test_caesar_wrap_around() {
    let cipher = Caesar::new(3).unwrap();
    assert_eq!(cipher.encrypt("xyz").unwrap(), "abc");
    assert_eq!(cipher.decrypt("abc").unwrap(), "xyz");
    assert_eq!(cipher.encrypt("XYZ").unwrap(), "ABC");
}

#[test]
fn test_caesar_case_preservation() {
    let cipher = Caesar::new(3).unwrap();
    assert_eq!(cipher.encrypt("HeLLo").unwrap(), "KhOOr");
    assert_eq!(cipher.decrypt("KhOOr").unwrap(), "HeLLo");
}

#[test]
fn test_caesar_set_shift() {
    let mut cipher = Caesar::new(3).unwrap();
    assert_eq!(cipher.encrypt("hello").unwrap(), "khoor");

    let _ = cipher.set_shift(5);
    assert_eq!(cipher.encrypt("hello").unwrap(), "mjqqt");
}

#[test]
fn test_caesar_set_mode() {
    let mut cipher = Caesar::new(3).unwrap();
    assert_eq!(cipher.encrypt("hello123").unwrap(), "khoor123");

    cipher.set_mode(TextMode::AlphaOnly);
    assert_eq!(cipher.encrypt("hello123").unwrap(), "khoor");
}

#[test]
fn test_caesar_empty_input() {
    let cipher = Caesar::new(3).unwrap();
    assert!(cipher.encrypt("").is_err());
    assert!(cipher.decrypt("").is_err());
}

#[test]
fn test_caesar_no_alpha_characters_alpha_only() {
    let cipher = Caesar::with_mode(3, TextMode::AlphaOnly).unwrap();
    assert!(cipher.encrypt("123!@#").is_err());
}

#[test]
fn test_caesar_no_alpha_characters_preserve_all() {
    let cipher = Caesar::new(3).unwrap();
    assert_eq!(cipher.encrypt("123!@#").unwrap(), "123!@#");
}

#[test]
fn test_cipher_trait() {
    let cipher: Caesar = Box::new(Caesar::new(3)).unwrap();
    assert_eq!(cipher.name(), "caesar");
    assert_eq!(cipher.encrypt("hello").unwrap(), "khoor");
}

#[test]
fn test_numbers_and_symbols() {
    let cipher = Caesar::new(5).unwrap();

    // Test various number combinations
    assert_eq!(cipher.encrypt("abc123def").unwrap(), "fgh123ijk");
    assert_eq!(cipher.decrypt("fgh123ijk").unwrap(), "abc123def");

    // Test symbols
    assert_eq!(
        cipher.encrypt("hello@world.com").unwrap(),
        "mjqqt@btwqi.htr"
    );

    // Test mixed content
    assert_eq!(cipher.encrypt("Password123!").unwrap(), "Ufxxbtwi123!");
}

#[test]
fn caesar_round_trip_every_shift_and_mode() {
    let text = "Attack at Dawn, 0600!";
    for shift in 0u8..=255 {
        let plain = Caesar::new(shift).unwrap();
        let e = plain.encrypt(text).unwrap();
        assert_eq!(plain.decrypt(&e).unwrap(), text);
        let alpha = Caesar::with_mode(shift, TextMode::AlphaOnly).unwrap();
        let e = alpha.encrypt(text).unwrap();
        assert_eq!(alpha.decrypt(&e).unwrap(), "AttackatDawn");
    }
}

#[test]
fn caesar_shift_is_reduced_everywhere() {
    assert_eq!(Caesar::new(255).unwrap().shift(), 255 % 26);
    let mut c = Caesar::new(1).unwrap();
    assert!(c.set_shift(52).is_ok());
    assert_eq!(c.shift(), 0);
    assert_eq!(c.encrypt("abc").unwrap(), "abc");
}

#[test]
fn caesar_refusals_are_invalid_input() {
    let c = Caesar::with_mode(4, TextMode::AlphaOnly).unwrap();
    assert!(matches!(c.encrypt(""), Err(PolygraphiaError::InvalidInput(_))));
    assert!(matches!(c.decrypt("42 !"), Err(PolygraphiaError::InvalidInput(_))));
    let p = Caesar::new(4).unwrap();
    assert!(matches!(p.decrypt(""), Err(PolygraphiaError::InvalidInput(_))));
    assert_eq!(p.decrypt("42 !").unwrap(), "42 !");
}

#[test]
fn caesar_leaves_non_ascii_untouched() {
    let c = Caesar::new(1).unwrap();
    assert_eq!(c.encrypt("zé!").unwrap(), "aé!");
    let a = Caesar::with_mode(1, TextMode::AlphaOnly).unwrap();
    assert_eq!(a.encrypt("zé!").unwrap(), "a");
}
