use vstd::prelude::*;

verus! {

/// The ways an operation of this library can fail; each carries a message.
#[derive(Debug, Clone, PartialEq)]
pub enum PolygraphiaError {
    /// The text is unusable: empty, or without the letters that the operation needs.
    InvalidInput(String),
    /// The key material fails a structural or mathematical check.
    InvalidKey(String),
    /// Reserved for a failure during encryption.
    EncryptionError(String),
    /// Reserved for a failure during decryption.
    DecryptionError(String),
}

impl PolygraphiaError {
    /// The message shown for this error, prefixed by its kind.
    pub fn message(&self) -> (r: String)
        ensures
            r@ == match self {
                PolygraphiaError::InvalidInput(m) => "Invalid Input: "@ + m@,
                PolygraphiaError::InvalidKey(m) => "Invalid Key: "@ + m@,
                PolygraphiaError::EncryptionError(m) => "Encryption Error: "@ + m@,
                PolygraphiaError::DecryptionError(m) => "Decryption Error: "@ + m@,
            },
    {
        match self {
            PolygraphiaError::InvalidInput(msg) => {
                let mut s = String::from_str("Invalid Input: ");
                s.append(msg.as_str());
                s
            },
            PolygraphiaError::InvalidKey(msg) => {
                let mut s = String::from_str("Invalid Key: ");
                s.append(msg.as_str());
                s
            },
            PolygraphiaError::EncryptionError(msg) => {
                let mut s = String::from_str("Encryption Error: ");
                s.append(msg.as_str());
                s
            },
            PolygraphiaError::DecryptionError(msg) => {
                let mut s = String::from_str("Decryption Error: ");
                s.append(msg.as_str());
                s
            },
        }
    }
}

} // verus!
