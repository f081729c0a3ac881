use vstd::prelude::*;

use vstd::arithmetic::div_mod::{lemma_mul_mod_noop_left, lemma_mul_mod_noop_right};
use vstd::arithmetic::mul::lemma_mul_is_associative;

use crate::cipher::Cipher;
use crate::error::PolygraphiaError;
use crate::math::{are_coprime, gcd_spec, mod_inverse};
use crate::mode::TextMode;
use crate::text::{
    filter_text, has_letter, index_of_letter, is_ascii_letter, is_letter, is_upper, letter_at,
    letter_from_index, letter_index, lemma_letterwise_round_trip, lemma_map_letters_empty,
    lemma_map_letters_step, map_letters, push_char, refused,
};

verus! {

/// The image of letter `c` under `x ↦ a·x + b (mod 26)`, in the case of `c`.
pub open spec fn affine_letter(c: char, a: int, b: int) -> char {
    letter_at((a * letter_index(c) + b) % 26, is_upper(c))
}

/// The preimage of letter `c`: `x ↦ inv·(x − b) (mod 26)`, in the case of `c`.
pub open spec fn affine_unletter(c: char, inv: int, b: int) -> char {
    letter_at((inv * ((letter_index(c) - b) % 26)) % 26, is_upper(c))
}

pub open spec fn affine_text(s: Seq<char>, a: int, b: int, mode: TextMode) -> Seq<char> {
    map_letters(s, mode, |c: char| affine_letter(c, a, b))
}

pub open spec fn affine_untext(s: Seq<char>, inv: int, b: int, mode: TextMode) -> Seq<char> {
    map_letters(s, mode, |c: char| affine_unletter(c, inv, b))
}

/// Whether `m` is accepted as a multiplier: it must be coprime with 26.
pub open spec fn valid_multiplier(m: u8) -> bool {
    gcd_spec(m as nat, 26) == 1
}

/// The message of the error for a multiplier that is not coprime with 26; it lists the
/// valid multipliers.
pub open spec fn multiplier_error_message() -> Seq<char> {
    "Multiplier must be coprime with 26. Valid values: 1, 3, 5, 7, 9, 11, 15, 17, 19, 21, 23, 25"@
}

/// `e` is the `InvalidKey` error for a multiplier not coprime with 26.
pub open spec fn is_multiplier_error(e: PolygraphiaError) -> bool {
    e matches PolygraphiaError::InvalidKey(msg) && msg@ == multiplier_error_message()
}

/// The affine cipher: letter index `x` becomes `multiplier·x + shift (mod 26)`.
#[derive(Debug, Clone)]
pub struct Affine {
    shift: u8,
    multiplier: u8,
    inv_multiplier: u8,
    mode: TextMode,
}

impl Affine {
    pub closed spec fn key_shift(&self) -> int {
        self.shift as int
    }

    pub closed spec fn key_multiplier(&self) -> u8 {
        self.multiplier
    }

    /// The inverse of the multiplier modulo 26.
    pub closed spec fn key_inverse(&self) -> int {
        self.inv_multiplier as int
    }

    pub closed spec fn text_mode(&self) -> TextMode {
        self.mode
    }

    pub closed spec fn wf(&self) -> bool {
        &&& self.shift < 26
        &&& valid_multiplier(self.multiplier)
        &&& self.inv_multiplier < 26
        &&& (self.multiplier as int * self.inv_multiplier as int) % 26 == 1
    }

    /// The inverse of a valid multiplier modulo 26.
    fn inverse_of(multiplier: u8) -> (r: u8)
        requires
            valid_multiplier(multiplier),
        ensures
            r < 26,
            (multiplier as int * r as int) % 26 == 1,
    {
        match mod_inverse(multiplier, 26) {
            Ok(i) => i,
            Err(_) => 1,
        }
    }

    /// A cipher with `shift` reduced modulo 26 and `multiplier`, in the default mode;
    /// `InvalidKey` where the multiplier is not coprime with 26.
    pub fn new(shift: u8, multiplier: u8) -> (r: Result<Affine, PolygraphiaError>)
        ensures
            match r {
                Ok(c) => {
                    &&& valid_multiplier(multiplier)
                    &&& c.wf()
                    &&& c.key_shift() == shift % 26
                    &&& c.key_multiplier() == multiplier
                    &&& c.text_mode() == TextMode::PreserveAll
                },
                Err(e) => !valid_multiplier(multiplier) && is_multiplier_error(e),
            },
    {
        Self::with_mode(shift, multiplier, TextMode::PreserveAll)
    }

    /// As `new`, in `mode`.
    pub fn with_mode(shift: u8, multiplier: u8, mode: TextMode) -> (r: Result<
        Affine,
        PolygraphiaError,
    >)
        ensures
            match r {
                Ok(c) => {
                    &&& valid_multiplier(multiplier)
                    &&& c.wf()
                    &&& c.key_shift() == shift % 26
                    &&& c.key_multiplier() == multiplier
                    &&& c.text_mode() == mode
                },
                Err(e) => !valid_multiplier(multiplier) && is_multiplier_error(e),
            },
    {
        Self::validate_multiplier(multiplier)?;
        let inv_multiplier = Self::inverse_of(multiplier);
        Ok(Affine { shift: shift % 26, multiplier, inv_multiplier, mode })
    }

    fn validate_multiplier(multiplier: u8) -> (r: Result<(), PolygraphiaError>)
        ensures
            match r {
                Ok(_) => valid_multiplier(multiplier),
                Err(e) => !valid_multiplier(multiplier) && is_multiplier_error(e),
            },
    {
        if !are_coprime(multiplier, 26) {
            return Err(
                PolygraphiaError::InvalidKey(
                    String::from_str(
                        "Multiplier must be coprime with 26. Valid values: 1, 3, 5, 7, 9, 11, 15, 17, 19, 21, 23, 25",
                    ),
                ),
            );
        }
        Ok(())
    }

    pub fn shift(&self) -> (r: u8)
        ensures
            r == self.key_shift(),
    {
        self.shift
    }

    pub fn multiplier(&self) -> (r: u8)
        ensures
            r == self.key_multiplier(),
    {
        self.multiplier
    }

    pub fn mode(&self) -> (r: TextMode)
        ensures
            r == self.text_mode(),
    {
        self.mode
    }

    /// Replaces the shift by `shift` reduced modulo 26; never fails.
    pub fn set_shift(&mut self, shift: u8) -> (r: Result<(), PolygraphiaError>)
        ensures
            r is Ok,
            old(self).wf() ==> final(self).wf(),
            final(self).key_shift() == shift % 26,
            final(self).key_multiplier() == old(self).key_multiplier(),
            final(self).key_inverse() == old(self).key_inverse(),
            final(self).text_mode() == old(self).text_mode(),
    {
        self.shift = shift % 26;
        Ok(())
    }

    /// Replaces the multiplier and its inverse; `InvalidKey`, with the cipher unchanged,
    /// where the multiplier is not coprime with 26.
    pub fn set_multiplier(&mut self, multiplier: u8) -> (r: Result<(), PolygraphiaError>)
        ensures
            match r {
                Ok(_) => {
                    &&& valid_multiplier(multiplier)
                    &&& (old(self).wf() ==> final(self).wf())
                    &&& final(self).key_multiplier() == multiplier
                    &&& final(self).key_shift() == old(self).key_shift()
                    &&& final(self).text_mode() == old(self).text_mode()
                },
                Err(e) => {
                    &&& !valid_multiplier(multiplier)
                    &&& is_multiplier_error(e)
                    &&& *final(self) == *old(self)
                },
            },
    {
        Self::validate_multiplier(multiplier)?;
        self.inv_multiplier = Self::inverse_of(multiplier);
        self.multiplier = multiplier;
        Ok(())
    }

    pub fn set_mode(&mut self, mode: TextMode)
        ensures
            old(self).wf() ==> final(self).wf(),
            final(self).key_shift() == old(self).key_shift(),
            final(self).key_multiplier() == old(self).key_multiplier(),
            final(self).key_inverse() == old(self).key_inverse(),
            final(self).text_mode() == mode,
    {
        self.mode = mode;
    }

    fn process_char(&self, c: char, encrypt: bool) -> (r: char)
        requires
            self.wf(),
            is_letter(c),
        ensures
            r == (if encrypt {
                affine_letter(c, self.key_multiplier() as int, self.key_shift())
            } else {
                affine_unletter(c, self.key_inverse(), self.key_shift())
            }),
    {
        let upper = 'A' <= c && c <= 'Z';
        let idx = index_of_letter(c);
        let processed: u8 = if encrypt {
            assert((self.multiplier as u16) * (idx as u16) <= 255 * 25) by (nonlinear_arith)
                requires
                    self.multiplier <= 255,
                    idx < 26,
            ;
            (((self.multiplier as u16) * (idx as u16) + self.shift as u16) % 26) as u8
        } else {
            let shifted: u8 = (idx + 26 - self.shift) % 26;
            assert((idx as int - self.shift as int) % 26 == shifted as int);
            assert((self.inv_multiplier as u16) * (shifted as u16) <= 25 * 25) by (nonlinear_arith)
                requires
                    self.inv_multiplier < 26,
                    shifted < 26,
            ;
            (((self.inv_multiplier as u16) * (shifted as u16)) % 26) as u8
        };
        letter_from_index(processed, upper)
    }

    fn process_text(&self, text: &str, encrypt: bool) -> (r: String)
        requires
            self.wf(),
        ensures
            r@ == (if encrypt {
                affine_text(text@, self.key_multiplier() as int, self.key_shift(), self.text_mode())
            } else {
                affine_untext(text@, self.key_inverse(), self.key_shift(), self.text_mode())
            }),
    {
        let ghost a = self.key_multiplier() as int;
        let ghost b = self.key_shift();
        let ghost inv = self.key_inverse();
        let ghost f = if encrypt {
            |c: char| affine_letter(c, a, b)
        } else {
            |c: char| affine_unletter(c, inv, b)
        };
        let n = text.unicode_len();
        let mut out = String::new();
        let mut i: usize = 0;
        while i < n
            invariant
                self.wf(),
                n == text@.len(),
                i <= n,
                a == self.key_multiplier() as int,
                b == self.key_shift(),
                inv == self.key_inverse(),
                f == (if encrypt {
                    |c: char| affine_letter(c, a, b)
                } else {
                    |c: char| affine_unletter(c, inv, b)
                }),
                out@ == map_letters(text@.subrange(0, i as int), self.text_mode(), f),
            decreases n - i,
        {
            let c = text.get_char(i);
            proof {
                lemma_map_letters_step(text@, i as int, self.text_mode(), f);
            }
            if is_ascii_letter(c) {
                let d = self.process_char(c, encrypt);
                push_char(&mut out, d);
            } else if self.mode == TextMode::PreserveAll {
                push_char(&mut out, c);
            }
            i += 1;
        }
        proof {
            assert(text@.subrange(0, n as int) =~= text@);
        }
        out
    }

    fn run(&self, text: &str, encrypt: bool) -> (r: Result<String, PolygraphiaError>)
        requires
            self.wf(),
        ensures
            match r {
                Ok(s) => !refused(text@, self.text_mode()) && s@ == (if encrypt {
                    affine_text(
                        text@,
                        self.key_multiplier() as int,
                        self.key_shift(),
                        self.text_mode(),
                    )
                } else {
                    affine_untext(text@, self.key_inverse(), self.key_shift(), self.text_mode())
                }),
                Err(e) => refused(text@, self.text_mode()) && e is InvalidInput,
            },
    {
        if text.is_empty() {
            return Err(PolygraphiaError::InvalidInput(String::from_str("Empty text")));
        }
        let result = self.process_text(text, encrypt);
        proof {
            let a = self.key_multiplier() as int;
            let b = self.key_shift();
            let inv = self.key_inverse();
            if encrypt {
                lemma_map_letters_empty(text@, self.text_mode(), |c: char| affine_letter(c, a, b));
            } else {
                lemma_map_letters_empty(
                    text@,
                    self.text_mode(),
                    |c: char| affine_unletter(c, inv, b),
                );
            }
        }
        if self.mode == TextMode::AlphaOnly && result.as_str().is_empty() {
            return Err(
                PolygraphiaError::InvalidInput(
                    String::from_str("Text must contain at least one alphabetic character"),
                ),
            );
        }
        Ok(result)
    }
}

impl Drop for Affine {
    /// Overwrites the key material before the memory is released.
    fn drop(&mut self)
        opens_invariants none
        no_unwind
    {
        self.shift = 0;
        self.multiplier = 0;
        self.inv_multiplier = 0;
    }
}

impl Cipher for Affine {
    open spec fn well_formed(&self) -> bool {
        self.wf()
    }

    open spec fn encrypt_spec(&self, text: Seq<char>) -> Option<Seq<char>> {
        if refused(text, self.text_mode()) {
            None
        } else {
            Some(
                affine_text(text, self.key_multiplier() as int, self.key_shift(), self.text_mode()),
            )
        }
    }

    open spec fn decrypt_spec(&self, text: Seq<char>) -> Option<Seq<char>> {
        if refused(text, self.text_mode()) {
            None
        } else {
            Some(affine_untext(text, self.key_inverse(), self.key_shift(), self.text_mode()))
        }
    }

    open spec fn name_spec(&self) -> Seq<char> {
        "affine"@
    }

    fn encrypt(&self, plaintext: &str) -> (r: Result<String, PolygraphiaError>) {
        self.run(plaintext, true)
    }

    fn decrypt(&self, ciphertext: &str) -> (r: Result<String, PolygraphiaError>) {
        self.run(ciphertext, false)
    }

    fn name(&self) -> (r: &str) {
        "affine"
    }
}

/// With a multiplier `a` and an inverse `inv` (`a·inv ≡ 1 mod 26`), the decryption map
/// undoes the encryption map on every letter.
pub proof fn lemma_affine_letter_inverse(c: char, a: int, inv: int, b: int)
    requires
        is_letter(c),
        (a * inv) % 26 == 1,
        a >= 0,
        inv >= 0,
    ensures
        is_letter(affine_letter(c, a, b)),
        affine_unletter(affine_letter(c, a, b), inv, b) == c,
{
    let x = letter_index(c);
    let ax = a * x;
    let y = (ax + b) % 26;
    assert(letter_index(affine_letter(c, a, b)) == y);
    assert((y - b) % 26 == ax % 26);
    lemma_mul_mod_noop_right(inv, ax, 26);
    lemma_mul_is_associative(inv, a, x);
    lemma_mul_mod_noop_left(inv * a, x, 26);
    assert(inv * a == a * inv) by (nonlinear_arith);
    assert((inv * a) % 26 == 1);
    assert((inv * (ax % 26)) % 26 == x);
}

/// Both directions refuse an empty text, and under `AlphaOnly` a text without letters.
pub proof fn lemma_affine_refuses(c: &Affine, t: Seq<char>)
    requires
        t.len() == 0 || (c.text_mode() == TextMode::AlphaOnly && !has_letter(t)),
    ensures
        c.encrypt_spec(t) is None,
        c.decrypt_spec(t) is None,
{
}

/// Decrypting what encryption gave, with the same cipher, gives back any text that has a
/// letter, with its other characters treated per the cipher's mode.
pub proof fn lemma_affine_round_trip(c: &Affine, t: Seq<char>)
    requires
        c.wf(),
        has_letter(t),
    ensures
        c.encrypt_spec(t) matches Some(e) && c.decrypt_spec(e) == Some(
            filter_text(t, c.text_mode()),
        ),
{
    let a = c.key_multiplier() as int;
    let b = c.key_shift();
    let inv = c.key_inverse();
    let f = |x: char| affine_letter(x, a, b);
    let g = |x: char| affine_unletter(x, inv, b);
    assert forall|x: char| is_letter(x) implies is_letter(#[trigger] f(x)) && g(f(x)) == x by {
        lemma_affine_letter_inverse(x, a, inv, b);
    }
    lemma_letterwise_round_trip(t, c.text_mode(), f, g);
}

} // verus!
