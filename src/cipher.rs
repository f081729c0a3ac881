use vstd::prelude::*;

use crate::error::PolygraphiaError;

verus! {

/// Whether an operation failed because its text was unusable.
pub open spec fn is_invalid_input(e: PolygraphiaError) -> bool {
    e is InvalidInput
}

/// Whether an operation failed because of its key material.
pub open spec fn is_invalid_key(e: PolygraphiaError) -> bool {
    e is InvalidKey
}

/// The capability that every cipher scheme of this library offers.
///
/// Each scheme says in `encrypt_spec` / `decrypt_spec` what the transformation gives,
/// `None` standing for a text that is refused as invalid input.
pub trait Cipher {
    spec fn well_formed(&self) -> bool;

    spec fn encrypt_spec(&self, text: Seq<char>) -> Option<Seq<char>>;

    spec fn decrypt_spec(&self, text: Seq<char>) -> Option<Seq<char>>;

    spec fn name_spec(&self) -> Seq<char>;

    fn encrypt(&self, plaintext: &str) -> (r: Result<String, PolygraphiaError>)
        requires
            self.well_formed(),
        ensures
            match r {
                Ok(s) => self.encrypt_spec(plaintext@) == Some(s@),
                Err(e) => self.encrypt_spec(plaintext@) is None && is_invalid_input(e),
            },
    ;

    fn decrypt(&self, ciphertext: &str) -> (r: Result<String, PolygraphiaError>)
        requires
            self.well_formed(),
        ensures
            match r {
                Ok(s) => self.decrypt_spec(ciphertext@) == Some(s@),
                Err(e) => self.decrypt_spec(ciphertext@) is None && is_invalid_input(e),
            },
    ;

    fn name(&self) -> (r: &str)
        ensures
            r@ == self.name_spec(),
    ;
}

} // verus!
