use polygraphia::{are_coprime, gcd, mod_inverse, PolygraphiaError};

#[test]
fn test_gcd() {
    assert_eq!(gcd(12, 8), 4);
    assert_eq!(gcd(17, 26), 1);
    assert_eq!(gcd(26, 13), 13);
    assert_eq!(gcd(5, 26), 1);
    assert_eq!(gcd(2, 26), 2);
}

#[test]
fn test_mod_inverse() {
    assert_eq!(mod_inverse(3, 26).unwrap(), 9);
    assert_eq!(mod_inverse(5, 26).unwrap(), 21);
    assert_eq!(mod_inverse(7, 26).unwrap(), 15);
    assert_eq!(mod_inverse(9, 26).unwrap(), 3);

    // Verify the inverse property
    for a in [1, 3, 5, 7, 9, 11, 15, 17, 19, 21, 23, 25] {
        let inv = mod_inverse(a, 26).unwrap() as u16;
        assert_eq!((a as u16 * inv) % 26, 1);
    }
}

#[test]
fn test_mod_inverse_no_inverse() {
    // Even numbers (except 1) don't have inverse mod 26
    assert!(mod_inverse(2, 26).is_err());
    assert!(mod_inverse(4, 26).is_err());
    assert!(mod_inverse(13, 26).is_err());
}

#[test]
fn test_are_coprime() {
    assert!(are_coprime(5, 26));
    assert!(are_coprime(3, 26));
    assert!(!are_coprime(2, 26));
    assert!(!are_coprime(13, 26));
}

#[test]
fn gcd_edge_cases() {
    assert_eq!(gcd(7, 0), 7);
    assert_eq!(gcd(0, 7), 7);
    assert_eq!(gcd(0, 0), 0);
    assert_eq!(gcd(255, 85), 85);
}

#[test]
fn mod_inverse_edge_cases() {
    assert!(matches!(mod_inverse(0, 1), Err(PolygraphiaError::InvalidInput(_))));
    assert!(matches!(mod_inverse(1, 0), Err(PolygraphiaError::InvalidInput(_))));
    assert!(matches!(mod_inverse(6, 9), Err(PolygraphiaError::InvalidInput(_))));
    assert_eq!(mod_inverse(27, 26).unwrap(), 1);
    assert_eq!(mod_inverse(200, 253).unwrap(), 105);
    for m in 2u8..=255 {
        for a in 0u8..=255 {
            match mod_inverse(a, m) {
                Ok(i) => {
                    assert!(1 <= i && i < m);
                    assert_eq!((a as u32 * i as u32) % m as u32, 1);
                    assert!(are_coprime(a, m));
                }
                Err(_) => assert!(!are_coprime(a, m)),
            }
        }
    }
}
