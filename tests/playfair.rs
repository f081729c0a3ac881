use polygraphia::{Cipher, Playfair, PolygraphiaError, TextMode};

#[test]
fn test_playfair_new() {
    let cipher = Playfair::new("secret").unwrap();
    assert_eq!(cipher.key().len(), 25); // 5x5 matrix = 25 chars
}

#[test]
fn test_playfair_empty_key() {
    assert!(Playfair::new("").is_err());
}

#[test]
fn test_playfair_prepare_key() {
    let key = Playfair::prepare_key("secret");

    // Should start with unique letters from "secret"
    assert!(key.starts_with("secrt"));

    // Should be 25 characters (no 'j')
    assert_eq!(key.len(), 25);

    // Should not contain 'j'
    assert!(!key.contains('j'));

    // Should contain 'i' (j is replaced with i)
    assert!(key.contains('i'));
}

#[test]
fn test_playfair_prepare_key_with_j() {
    let key = Playfair::prepare_key("jump");

    // 'j' should be replaced with 'i'
    assert!(key.starts_with("iu") || key.starts_with("i")); // 'j' becomes 'i', 'u', 'm', 'p'
    assert!(!key.contains('j'));
}

#[test]
fn test_playfair_prepare_text() {
    // Basic text
    assert_eq!(Playfair::prepare_text("hello"), "helxlo");

    // Duplicate letters
    assert_eq!(Playfair::prepare_text("balloon"), "balxloxonx");

    // Odd length (adds 'x')
    assert_eq!(Playfair::prepare_text("cat"), "catx");

    // Replace 'j' with 'i'
    assert_eq!(Playfair::prepare_text("jump"), "iump");

    // Filter non-alphabetic
    assert_eq!(Playfair::prepare_text("he11o!"), "heox");
}

#[test]
fn test_playfair_encrypt_basic() {
    let cipher = Playfair::new("playfair example").unwrap();
    let encrypted = cipher.encrypt("hide the gold in the tree stump").unwrap();

    // Should produce some encrypted text
    assert!(!encrypted.is_empty());
    assert_eq!(encrypted.len() % 2, 0); // Should be even length (pairs)
}

#[test]
fn test_playfair_encrypt_decrypt_roundtrip() {
    let cipher = Playfair::new("secret").unwrap();

    let plaintext = "hello world";
    let encrypted = cipher.encrypt(plaintext).unwrap();
    let decrypted = cipher.decrypt(&encrypted).unwrap();

    // Note: decrypted might have 'x' padding and 'j' replaced with 'i'
    // So we check that the core message is preserved
    assert!(decrypted.starts_with("helxlo"));
}

#[test]
fn test_playfair_same_row() {
    let cipher = Playfair::new("playfairexample").unwrap();

    // Test characters in the same row
    let result = cipher.process_pair("ar", true).unwrap();
    assert_eq!(result.len(), 2);
}

#[test]
fn test_playfair_same_column() {
    let cipher = Playfair::new("playfairexample").unwrap();

    // Test characters in the same column
    let result = cipher.process_pair("mu", true).unwrap();
    assert_eq!(result.len(), 2);
}

#[test]
fn test_playfair_rectangle() {
    let cipher = Playfair::new("playfairexample").unwrap();

    // Test characters forming a rectangle
    let result = cipher.process_pair("hi", true).unwrap();
    assert_eq!(result.len(), 2);
}

#[test]
fn test_playfair_case_handling() {
    let cipher = Playfair::new("secret").unwrap();

    // Uppercase and lowercase should produce same result
    let enc1 = cipher.encrypt("HELLO").unwrap();
    let enc2 = cipher.encrypt("hello").unwrap();

    assert_eq!(enc1, enc2);
}

#[test]
fn test_playfair_filters_numbers() {
    let cipher = Playfair::new("secret").unwrap();

    let encrypted = cipher.encrypt("hello123world").unwrap();

    // Numbers should be filtered out
    assert!(!encrypted.contains('1'));
    assert!(!encrypted.contains('2'));
    assert!(!encrypted.contains('3'));
}

#[test]
fn test_playfair_set_key() {
    let mut cipher = Playfair::new("secret").unwrap();

    let enc1 = cipher.encrypt("hello").unwrap();

    cipher.set_key("keyword").unwrap();
    let enc2 = cipher.encrypt("hello").unwrap();

    assert_ne!(enc1, enc2);
}

#[test]
fn test_playfair_empty_input() {
    let cipher = Playfair::new("secret").unwrap();

    assert!(cipher.encrypt("").is_err());
    assert!(cipher.decrypt("").is_err());
}

#[test]
fn test_playfair_no_alpha_chars() {
    let cipher = Playfair::new("secret").unwrap();

    assert!(cipher.encrypt("12345").is_err());
}

#[test]
fn test_playfair_cipher_trait() {
    let cipher: Box<dyn Cipher> = Box::new(Playfair::new("secret").unwrap());
    assert_eq!(cipher.name(), "playfair");
}

#[test]
fn test_playfair_matrix_generation() {
    let cipher = Playfair::new("keyword").unwrap();
    let matrix = cipher.matrix();

    // Matrix should be 5x5
    assert_eq!(matrix.len(), 5);
    assert_eq!(matrix[0].len(), 5);

    // All values should be in range 0-25 (excluding 'j')
    for row in matrix {
        for &val in row {
            assert!(val < 26);
        }
    }
}

#[test]
fn test_playfair_get_coordinates() {
    let cipher = Playfair::new("abcdefghiklmnopqrstuvwxyz").unwrap();

    // 'a' should be at (0, 0)
    let (row, col) = cipher.get_coordinates(0).unwrap();
    assert_eq!((row, col), (0, 0));

    // 'e' should be at (0, 4)
    let (row, col) = cipher.get_coordinates(4).unwrap();
    assert_eq!((row, col), (0, 4));
}

#[test]
fn playfair_square_from_keyword() {
    assert_eq!(Playfair::prepare_key("Playfair Example"), "playfirexmbcdghknoqstuvwz");
    assert_eq!(Playfair::prepare_key("123"), "abcdefghiklmnopqrstuvwxyz");
    let cipher = Playfair::new("Playfair Example").unwrap();
    assert_eq!(cipher.key(), "playfirexmbcdghknoqstuvwz");
    assert_eq!(cipher.matrix()[0], [15, 11, 0, 24, 5]);
}

#[test]
fn playfair_known_ciphertext() {
    let cipher = Playfair::new("playfair example").unwrap();
    assert_eq!(
        cipher.encrypt("hide the gold in the tree stump").unwrap(),
        "bmodzbxdnabekudmuixmmouvif"
    );
    let secret = Playfair::new("secret").unwrap();
    assert_eq!(secret.encrypt("hello world").unwrap(), "iskyiqewfqkc");
}

#[test]
fn playfair_pair_rules() {
    let cipher = Playfair::new("playfair example").unwrap();
    // row: p l a y f
    assert_eq!(cipher.process_pair("pl", true).unwrap(), "la");
    assert_eq!(cipher.process_pair("la", false).unwrap(), "pl");
    assert_eq!(cipher.process_pair("fp", true).unwrap(), "pl");
    // column: p i b h q
    assert_eq!(cipher.process_pair("pi", true).unwrap(), "ib");
    assert_eq!(cipher.process_pair("ib", false).unwrap(), "pi");
    // rectangle
    assert_eq!(cipher.process_pair("hi", true).unwrap(), "bm");
    assert_eq!(cipher.process_pair("bm", false).unwrap(), "hi");
}

#[test]
fn playfair_malformed_pairs_are_invalid_input() {
    let cipher = Playfair::new("secret").unwrap();
    assert!(matches!(cipher.process_pair("abc", true), Err(PolygraphiaError::InvalidInput(_))));
    assert!(matches!(cipher.process_pair("a", true), Err(PolygraphiaError::InvalidInput(_))));
    assert!(matches!(cipher.process_pair("aj", true), Err(PolygraphiaError::InvalidInput(_))));
    assert!(matches!(cipher.process_pair("A1", true), Err(PolygraphiaError::InvalidInput(_))));
    assert!(matches!(cipher.get_coordinates(9), Err(PolygraphiaError::InvalidInput(_))));
    assert!(matches!(cipher.get_coordinates(200), Err(PolygraphiaError::InvalidInput(_))));
}

#[test]
fn playfair_prepare_text_edge_cases() {
    assert_eq!(Playfair::prepare_text(""), "");
    assert_eq!(Playfair::prepare_text("xx"), "xx");
    assert_eq!(Playfair::prepare_text("axxb"), "axxb");
    assert_eq!(Playfair::prepare_text("xxx"), "xxxx");
    assert_eq!(Playfair::prepare_text("xxoo"), "xxoxox");
    assert_eq!(Playfair::prepare_text("J!j"), "ixix");
}

#[test]
fn playfair_errors() {
    assert!(matches!(Playfair::new(""), Err(PolygraphiaError::InvalidKey(_))));
    let mut cipher = Playfair::with_mode("secret", TextMode::AlphaOnly).unwrap();
    assert_eq!(cipher.mode(), TextMode::AlphaOnly);
    assert!(matches!(cipher.set_key(""), Err(PolygraphiaError::InvalidKey(_))));
    assert!(cipher.key().starts_with("secrt"));
    assert!(matches!(cipher.encrypt(""), Err(PolygraphiaError::InvalidInput(_))));
    assert!(matches!(cipher.decrypt("!!"), Err(PolygraphiaError::InvalidInput(_))));
}
