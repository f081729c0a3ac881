use polygraphia::{Cipher, Hill, Matrix, PolygraphiaError, TextMode};

#[test]
fn test_hill_new_2x2() {
    let cipher = Hill::new("hill").unwrap();
    assert_eq!(cipher.key_size(), 2);
}

#[test]
fn test_hill_new_3x3() {
    let cipher = Hill::new("gybnqkurp").unwrap();
    assert_eq!(cipher.key_size(), 3);
}

#[test]
fn test_hill_invalid_key_length() {
    // Length 5 is not a perfect square
    assert!(Hill::new("hello").is_err());

    // Length 7 is not a perfect square
    assert!(Hill::new("invalid").is_err());
}

#[test]
fn test_hill_non_invertible_matrix() {
    // This matrix is not invertible mod 26
    let result = Hill::new("aaaa"); // All zeros -> det = 0
    assert!(result.is_err());
}

#[test]
fn test_hill_encrypt_decrypt_2x2() {
    let cipher = Hill::new("hill").unwrap();

    let plaintext = "help";
    let encrypted = cipher.encrypt(plaintext).unwrap();
    let decrypted = cipher.decrypt(&encrypted).unwrap();

    assert_eq!(decrypted, plaintext);
}

#[test]
fn test_hill_encrypt_decrypt_3x3() {
    let cipher = Hill::new("gybnqkurp").unwrap();

    let plaintext = "act";
    let encrypted = cipher.encrypt(plaintext).unwrap();
    let decrypted = cipher.decrypt(&encrypted).unwrap();

    assert_eq!(decrypted, plaintext);
}

#[test]
fn test_hill_padding() {
    let cipher = Hill::new("hill").unwrap(); // 2x2 matrix

    // "cat" has 3 chars, needs 1 padding 'x' to make 4
    let encrypted = cipher.encrypt("cat").unwrap();
    assert_eq!(encrypted.len(), 4);

    let decrypted = cipher.decrypt(&encrypted).unwrap();
    assert_eq!(decrypted, "catx");
}

#[test]
fn test_hill_filters_non_alpha() {
    let cipher = Hill::new("hill").unwrap();

    let plaintext = "he11o!";
    let encrypted = cipher.encrypt(plaintext).unwrap();

    // Should only process "heo" -> "heox" (with padding)
    assert_eq!(encrypted.len(), 4);
}

#[test]
fn test_hill_case_handling() {
    let cipher = Hill::new("hill").unwrap();

    // Uppercase should be converted to lowercase
    let enc1 = cipher.encrypt("HELP").unwrap();
    let enc2 = cipher.encrypt("help").unwrap();

    assert_eq!(enc1, enc2);
}

#[test]
fn test_hill_longer_text() {
    let cipher = Hill::new("hill").unwrap();

    let plaintext = "thequickbrownfox";
    let encrypted = cipher.encrypt(plaintext).unwrap();
    let decrypted = cipher.decrypt(&encrypted).unwrap();

    assert_eq!(decrypted, plaintext);
}

#[test]
fn test_hill_empty_input() {
    let cipher = Hill::new("hill").unwrap();

    assert!(cipher.encrypt("").is_err());
    assert!(cipher.decrypt("").is_err());
}

#[test]
fn test_hill_no_alpha_chars() {
    let cipher = Hill::new("hill").unwrap();

    assert!(cipher.encrypt("123!@#").is_err());
}

#[test]
fn test_hill_set_key() {
    let mut cipher = Hill::new("hill").unwrap();

    let enc1 = cipher.encrypt("help").unwrap();

    cipher.set_key("ddcf").unwrap();
    let enc2 = cipher.encrypt("help").unwrap();

    assert_ne!(enc1, enc2);
}

#[test]
fn test_hill_cipher_trait() {
    let cipher: Box<dyn Cipher> = Box::new(Hill::new("hill").unwrap());
    assert_eq!(cipher.name(), "hill");
}

#[test]
fn test_matrix_determinant_2x2() {
    let matrix = Matrix::new(2, vec![7, 8, 11, 11]).unwrap();
    let det = matrix.determinant();
    assert_eq!(det, 7 * 11 - 8 * 11);
}

#[test]
fn test_matrix_determinant_3x3() {
    let matrix = Matrix::new(3, vec![6, 24, 1, 13, 16, 10, 20, 17, 15]).unwrap();
    let det = matrix.determinant();
    // Verify it's invertible mod 26
    assert_ne!(det % 26, 0);
}

#[test]
fn test_matrix_mod_inverse() {
    let matrix = Matrix::new(2, vec![7, 8, 11, 11]).unwrap();
    let inv = matrix.mod_inverse(26).unwrap();

    // Verify that matrix * inv ≡ I (mod 26)
    // This is a basic sanity check
    assert_eq!(inv.size(), 2);
}

#[test]
fn hill_known_ciphertexts() {
    let cipher = Hill::new("hill").unwrap();
    assert_eq!(cipher.encrypt("help").unwrap(), "drpa");
    assert_eq!(cipher.decrypt("drpa").unwrap(), "help");
    assert_eq!(cipher.encrypt("cat").unwrap(), "owfu");
    assert_eq!(cipher.decrypt("owfu").unwrap(), "catx");
    assert_eq!(cipher.encrypt("He-lp!").unwrap(), "drpa");
}

#[test]
fn hill_key_matrix_and_inverse() {
    let cipher = Hill::with_mode("HI ll", TextMode::AlphaOnly).unwrap();
    assert_eq!(cipher.mode(), TextMode::AlphaOnly);
    let key = cipher.key();
    let inv = cipher.inv_key();
    assert_eq!(key, &Matrix::new(2, vec![7, 8, 11, 11]).unwrap());
    assert_eq!(inv, &Matrix::new(2, vec![25, 22, 1, 23]).unwrap());
}

#[test]
fn matrix_mod_inverse_times_key_is_identity() {
    let key = Matrix::new(2, vec![7, 8, 11, 11]).unwrap();
    let inv = key.mod_inverse(26).unwrap();
    for col in 0..2 {
        let column = vec![inv.get(0, col), inv.get(1, col)];
        let product = key.multiply_vector(&column);
        for row in 0..2 {
            let expected = if row == col { 1 } else { 0 };
            assert_eq!(product[row].rem_euclid(26), expected);
        }
    }
}

#[test]
fn matrix_mod_inverse_three_by_three() {
    let key = Matrix::new(3, vec![6, 24, 1, 13, 16, 10, 20, 17, 15]).unwrap();
    assert_eq!(key.determinant(), 441);
    let inv = key.mod_inverse(26).unwrap();
    for col in 0..3 {
        let column = vec![inv.get(0, col), inv.get(1, col), inv.get(2, col)];
        let product = key.multiply_vector(&column);
        for row in 0..3 {
            let expected = if row == col { 1 } else { 0 };
            assert_eq!(product[row].rem_euclid(26), expected);
        }
    }
}

#[test]
fn matrix_determinant_by_expansion() {
    let m = Matrix::new(4, vec![1, 2, 3, 4, 5, 6, 7, 8, 2, 6, 4, 8, 3, 1, 1, 2]).unwrap();
    assert_eq!(m.determinant(), 72);
    assert_eq!(Matrix::new(1, vec![-9]).unwrap().determinant(), -9);
    assert_eq!(Matrix::new(0, vec![]).unwrap().determinant(), 1);
}

#[test]
fn matrix_construction_and_access() {
    assert!(matches!(Matrix::new(2, vec![1, 2, 3]), Err(PolygraphiaError::InvalidInput(_))));
    let mut m = Matrix::new(2, vec![1, 2, 3, 4]).unwrap();
    assert_eq!(m.size(), 2);
    assert_eq!(m.get(1, 0), 3);
    m.set(1, 0, -5);
    assert_eq!(m.get(1, 0), -5);
    assert_eq!(m.multiply_vector(&[2, 3]), vec![8, 2]);
}

#[test]
fn matrix_without_inverse_is_invalid_key() {
    let m = Matrix::new(2, vec![2, 4, 6, 8]).unwrap();
    assert!(matches!(m.mod_inverse(26), Err(PolygraphiaError::InvalidKey(_))));
}

#[test]
fn hill_key_errors_are_invalid_key() {
    assert!(matches!(Hill::new("abc"), Err(PolygraphiaError::InvalidKey(_))));
    assert!(matches!(Hill::new(""), Err(PolygraphiaError::InvalidKey(_))));
    assert!(matches!(Hill::new("aaaa"), Err(PolygraphiaError::InvalidKey(_))));
    let long: String = std::iter::repeat("b").take(100).collect();
    assert!(matches!(Hill::new(&long), Err(PolygraphiaError::InvalidKey(_))));
    let mut h = Hill::new("hill").unwrap();
    assert!(h.set_key("aaaa").is_err());
    assert_eq!(h.key_size(), 2);
    assert_eq!(h.encrypt("help").unwrap(), "drpa");
}

#[test]
fn hill_refusals_are_invalid_input() {
    let cipher = Hill::with_mode("hill", TextMode::AlphaOnly).unwrap();
    assert!(matches!(cipher.encrypt(""), Err(PolygraphiaError::InvalidInput(_))));
    assert!(matches!(cipher.decrypt("2024"), Err(PolygraphiaError::InvalidInput(_))));
}

#[test]
fn hill_one_by_one_key_round_trips() {
    let b = Hill::new("b").unwrap();
    assert_eq!(b.key_size(), 1);
    assert_eq!(b.inv_key(), &Matrix::new(1, vec![1]).unwrap());
    let e = b.encrypt("b").unwrap();
    assert_eq!(e, "b");
    assert_eq!(b.decrypt(&e).unwrap(), "b");

    let d = Hill::new("D").unwrap();
    assert_eq!(d.inv_key(), &Matrix::new(1, vec![9]).unwrap());
    assert_eq!(d.encrypt("b").unwrap(), "d");
    assert_eq!(d.decrypt("d").unwrap(), "b");
    assert!(matches!(Hill::new("c"), Err(PolygraphiaError::InvalidKey(_))));
}

#[test]
fn hill_four_by_four_key_round_trips() {
    let cipher = Hill::new("cryptographyrock").unwrap();
    assert_eq!(cipher.key_size(), 4);
    assert_eq!(cipher.encrypt("attack at dawn").unwrap(), "zqcsrhiabuyr");
    assert_eq!(cipher.decrypt("zqcsrhiabuyr").unwrap(), "attackatdawn");
}

#[test]
fn matrix_small_inverses() {
    let one = Matrix::new(1, vec![1]).unwrap();
    assert_eq!(one.mod_inverse(26).unwrap(), Matrix::new(1, vec![1]).unwrap());
    let seven = Matrix::new(1, vec![7]).unwrap();
    assert_eq!(seven.mod_inverse(26).unwrap(), Matrix::new(1, vec![15]).unwrap());
    let empty = Matrix::new(0, vec![]).unwrap();
    assert_eq!(empty.mod_inverse(26).unwrap().size(), 0);
}
