use vstd::prelude::*;

verus! {

broadcast use vstd::utf8::encode_utf8_decode_utf8;

/// The number of rounds used by `derive_key`.
pub const DEFAULT_ITERATIONS: u32 = 100_000;

/// The 32 bytes that PBKDF2 with HMAC-SHA-512/256 derives from the UTF-8 bytes of a
/// password, a salt and a round count.
pub uninterp spec fn pbkdf2_sha512_256(password: Seq<char>, salt: Seq<u8>, rounds: u32) -> Seq<u8>;

/// The URL-safe base64 encoding of `bytes`, with `=` padding.
pub uninterp spec fn base64_url(bytes: Seq<u8>) -> Seq<char>;

/// Sixteen random bytes.
/// Relies on `rand::rng` and `rand::RngCore::fill_bytes` of the thread-local generator;
/// nothing is promised of the bytes.
#[verifier::external_body]
pub fn generate_salt() -> [u8; 16] {
    let mut salt = [0u8; 16];
    rand::RngCore::fill_bytes(&mut rand::rng(), &mut salt);
    salt
}

/// The 32-byte key derived from `password`, `salt` and `iterations`.
/// Relies on `pbkdf2::pbkdf2_hmac::<sha2::Sha512_256>`, which fills the buffer from the
/// password's bytes, the salt and the round count alone, and never fails: HMAC accepts
/// keys of any length.
#[verifier::external_body]
pub fn derive_key_raw(password: &str, salt: &[u8], iterations: u32) -> (r: [u8; 32])
    ensures
        r@ == pbkdf2_sha512_256(password@, salt@, iterations),
{
    let mut key = [0u8; 32];
    pbkdf2::pbkdf2_hmac::<sha2::Sha512_256>(password.as_bytes(), salt, iterations, &mut key);
    key
}

/// Relies on `base64::Engine::encode` with `general_purpose::URL_SAFE`: padded URL-safe
/// base64, four characters for each started group of three bytes.
#[verifier::external_body]
fn encode_url_safe(bytes: &[u8; 32]) -> (r: String)
    ensures
        r@ == base64_url(bytes@),
        r@.len() == 4 * ((bytes@.len() + 2) / 3),
{
    base64::Engine::encode(&base64::engine::general_purpose::URL_SAFE, bytes)
}

/// The key derived with `iterations` rounds, base64-encoded (44 characters).
pub fn derive_key_with_iterations(password: &str, salt: &[u8], iterations: u32) -> (r: String)
    ensures
        r@ == base64_url(pbkdf2_sha512_256(password@, salt@, iterations)),
        r@.len() == 44,
{
    let key = derive_key_raw(password, salt, iterations);
    encode_url_safe(&key)
}

/// The key derived with the default number of rounds, base64-encoded.
pub fn derive_key(password: &str, salt: &[u8]) -> (r: String)
    ensures
        r@ == base64_url(pbkdf2_sha512_256(password@, salt@, DEFAULT_ITERATIONS)),
        r@.len() == 44,
{
    derive_key_with_iterations(password, salt, DEFAULT_ITERATIONS)
}

/// Whether the key derived from `password` equals `expected_key`, compared in time that
/// does not depend on where they differ.
pub fn verify_password(password: &str, salt: &[u8], expected_key: &str, iterations: u32) -> (r:
    bool)
    ensures
        r == (base64_url(pbkdf2_sha512_256(password@, salt@, iterations)) == expected_key@),
{
    let derived = derive_key_with_iterations(password, salt, iterations);
    let derived_str = derived.as_str();
    let r = constant_time_compare(derived_str.as_bytes(), expected_key.as_bytes());
    proof {
        if r {
            assert(vstd::utf8::decode_utf8(vstd::utf8::encode_utf8(derived_str@)) == derived@);
            assert(vstd::utf8::decode_utf8(vstd::utf8::encode_utf8(expected_key@))
                == expected_key@);
        }
    }
    r
}

/// Whether `a` and `b` are equal, looking at every byte whatever the first difference.
pub fn constant_time_compare(a: &[u8], b: &[u8]) -> (r: bool)
    ensures
        r == (a@ == b@),
{
    if a.len() != b.len() {
        return false;
    }
    let mut result: u8 = 0;
    let mut i: usize = 0;
    while i < a.len()
        invariant
            a@.len() == b@.len(),
            i <= a@.len(),
            (result == 0) == (a@.subrange(0, i as int) =~= b@.subrange(0, i as int)),
        decreases a@.len() - i,
    {
        let x = a[i];
        let y = b[i];
        let next = result | (x ^ y);
        assert((next == 0) == (result == 0 && x == y)) by (bit_vector)
            requires
                next == result | (x ^ y),
        ;
        proof {
            if !(a@.subrange(0, i as int) =~= b@.subrange(0, i as int)) {
                let k = choose|k: int|
                    0 <= k < i && a@.subrange(0, i as int)[k] != b@.subrange(0, i as int)[k];
                assert(a@.subrange(0, i + 1)[k] != b@.subrange(0, i + 1)[k]);
            }
            if x != y {
                assert(a@.subrange(0, i + 1)[i as int] != b@.subrange(0, i + 1)[i as int]);
            }
        }
        result = next;
        i += 1;
    }
    proof {
        assert(a@.subrange(0, a@.len() as int) =~= a@);
        assert(b@.subrange(0, b@.len() as int) =~= b@);
    }
    result == 0
}

} // verus!
