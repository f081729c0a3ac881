use polygraphia::{Affine, Caesar, Cipher, PolygraphiaError, TextMode};

#[test]
fn error_messages_name_their_kind() {
    let e = PolygraphiaError::InvalidInput("x".to_string());
    assert_eq!(e.message(), "Invalid Input: x");
    let e = PolygraphiaError::InvalidKey("k".to_string());
    assert_eq!(e.message(), "Invalid Key: k");
    let e = PolygraphiaError::EncryptionError("e".to_string());
    assert_eq!(e.message(), "Encryption Error: e");
    let e = PolygraphiaError::DecryptionError("d".to_string());
    assert_eq!(e.message(), "Decryption Error: d");
}

#[test]
fn invalid_multiplier_message_lists_valid_values() {
    match Affine::new(0, 4) {
        Err(PolygraphiaError::InvalidKey(msg)) => {
            assert!(msg.contains("1, 3, 5, 7, 9, 11, 15, 17, 19, 21, 23, 25"));
        }
        _ => panic!("multiplier 4 must be refused"),
    }
}

#[test]
fn default_mode_preserves_everything() {
    assert_eq!(TextMode::default(), TextMode::PreserveAll);
    let c = Caesar::new(1).unwrap();
    assert_eq!(c.encrypt("a b").unwrap(), "b c");
}
