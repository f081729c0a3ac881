// Classical ciphers (Caesar, affine, Playfair, Hill) over a verified modular-arithmetic
// and matrix engine, with password-based key derivation.

pub mod affine;
pub mod caesar;
pub mod cipher;
pub mod error;
pub mod hill;
pub mod kdf;
pub mod math;
pub mod matrix;
pub mod mode;
pub mod playfair;
pub mod text;

pub use affine::Affine;
pub use caesar::Caesar;
pub use cipher::Cipher;
pub use error::PolygraphiaError;
pub use hill::Hill;
pub use kdf::{
    constant_time_compare, derive_key, derive_key_raw, derive_key_with_iterations, generate_salt,
    verify_password,
};
pub use math::{are_coprime, gcd, mod_inverse};
pub use matrix::Matrix;
pub use mode::TextMode;
pub use playfair::Playfair;
