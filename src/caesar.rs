use vstd::prelude::*;

use crate::cipher::Cipher;
use crate::error::PolygraphiaError;
use crate::mode::TextMode;
use crate::text::{
    filter_text, has_letter, index_of_letter, is_ascii_letter, is_letter, is_upper, letter_at,
    letter_from_index, letter_index, lemma_letterwise_round_trip, lemma_map_letters_empty,
    lemma_map_letters_step, refused, map_letters, push_char,
};

verus! {

/// The letter `k` places after `c` in the alphabet, wrapping round, in the case of `c`.
pub open spec fn shift_letter(c: char, k: int) -> char {
    letter_at((letter_index(c) + k) % 26, is_upper(c))
}

/// `s` with each letter moved `k` places on, under `mode`.
pub open spec fn caesar_text(s: Seq<char>, k: int, mode: TextMode) -> Seq<char> {
    map_letters(s, mode, |c: char| shift_letter(c, k))
}

/// What a Caesar transformation by `k` gives on `s`: `None` for an empty text, and under
/// `AlphaOnly` for a text without letters.
pub open spec fn caesar_result(s: Seq<char>, k: int, mode: TextMode) -> Option<Seq<char>> {
    if refused(s, mode) {
        None
    } else {
        Some(caesar_text(s, k, mode))
    }
}

/// The shift cipher: each letter moves a fixed number of places along the alphabet.
#[derive(Debug, Clone)]
pub struct Caesar {
    shift: u8,
    mode: TextMode,
}

impl Caesar {
    /// The shift in force, in `0..26`.
    pub closed spec fn key_shift(&self) -> int {
        self.shift as int
    }

    pub closed spec fn text_mode(&self) -> TextMode {
        self.mode
    }

    pub closed spec fn wf(&self) -> bool {
        self.shift < 26
    }

    /// A cipher shifting by `shift` reduced modulo 26, in the default mode.
    pub fn new(shift: u8) -> (r: Result<Caesar, PolygraphiaError>)
        ensures
            r matches Ok(c) && c.wf() && c.key_shift() == shift % 26
                && c.text_mode() == TextMode::PreserveAll,
    {
        Self::with_mode(shift, TextMode::PreserveAll)
    }

    /// A cipher shifting by `shift` reduced modulo 26, in `mode`.
    pub fn with_mode(shift: u8, mode: TextMode) -> (r: Result<Caesar, PolygraphiaError>)
        ensures
            r matches Ok(c) && c.wf() && c.key_shift() == shift % 26 && c.text_mode() == mode,
    {
        Ok(Caesar { shift: shift % 26, mode })
    }

    pub fn shift(&self) -> (r: u8)
        ensures
            r == self.key_shift(),
            self.wf() ==> r < 26,
    {
        self.shift
    }

    pub fn mode(&self) -> (r: TextMode)
        ensures
            r == self.text_mode(),
    {
        self.mode
    }

    /// Replaces the shift by `shift` reduced modulo 26; never fails.
    pub fn set_shift(&mut self, shift: u8) -> (r: Result<(), PolygraphiaError>)
        ensures
            r is Ok,
            final(self).wf(),
            final(self).key_shift() == shift % 26,
            final(self).text_mode() == old(self).text_mode(),
    {
        self.shift = shift % 26;
        Ok(())
    }

    pub fn set_mode(&mut self, mode: TextMode)
        ensures
            final(self).wf() == old(self).wf(),
            final(self).key_shift() == old(self).key_shift(),
            final(self).text_mode() == mode,
    {
        self.mode = mode;
    }

    /// The letter `c` moved by the shift, forwards to encrypt and backwards to decrypt.
    fn shift_char(&self, c: char, encrypt: bool) -> (r: char)
        requires
            self.wf(),
            is_letter(c),
        ensures
            r == shift_letter(c, if encrypt { self.key_shift() } else { -self.key_shift() }),
            is_letter(r),
    {
        let upper = 'A' <= c && c <= 'Z';
        let idx = index_of_letter(c);
        let shifted: u8 = if encrypt {
            (idx + self.shift) % 26
        } else {
            (idx + 26 - self.shift) % 26
        };
        letter_from_index(shifted, upper)
    }

    fn process_text(&self, text: &str, encrypt: bool) -> (r: String)
        requires
            self.wf(),
        ensures
            r@ == caesar_text(
                text@,
                if encrypt { self.key_shift() } else { -self.key_shift() },
                self.text_mode(),
            ),
    {
        let ghost k = if encrypt { self.key_shift() } else { -self.key_shift() };
        let ghost f = |c: char| shift_letter(c, k);
        let n = text.unicode_len();
        let mut out = String::new();
        let mut i: usize = 0;
        while i < n
            invariant
                self.wf(),
                n == text@.len(),
                i <= n,
                k == (if encrypt { self.key_shift() } else { -self.key_shift() }),
                f == (|c: char| shift_letter(c, k)),
                out@ == map_letters(text@.subrange(0, i as int), self.text_mode(), f),
            decreases n - i,
        {
            let c = text.get_char(i);
            proof {
                lemma_map_letters_step(text@, i as int, self.text_mode(), f);
            }
            if is_ascii_letter(c) {
                let d = self.shift_char(c, encrypt);
                push_char(&mut out, d);
            } else if self.mode == TextMode::PreserveAll {
                push_char(&mut out, c);
            }
            i += 1;
        }
        proof {
            assert(text@.subrange(0, n as int) =~= text@);
        }
        out
    }

    fn run(&self, text: &str, encrypt: bool) -> (r: Result<String, PolygraphiaError>)
        requires
            self.wf(),
        ensures
            match r {
                Ok(s) => caesar_result(
                    text@,
                    if encrypt { self.key_shift() } else { -self.key_shift() },
                    self.text_mode(),
                ) == Some(s@),
                Err(e) => caesar_result(
                    text@,
                    if encrypt { self.key_shift() } else { -self.key_shift() },
                    self.text_mode(),
                ) is None && e is InvalidInput,
            },
    {
        if text.is_empty() {
            return Err(PolygraphiaError::InvalidInput(String::from_str("Empty text")));
        }
        let result = self.process_text(text, encrypt);
        proof {
            let k = if encrypt { self.key_shift() } else { -self.key_shift() };
            lemma_map_letters_empty(text@, self.text_mode(), |c: char| shift_letter(c, k));
        }
        if self.mode == TextMode::AlphaOnly && result.as_str().is_empty() {
            return Err(
                PolygraphiaError::InvalidInput(
                    String::from_str("Text must contain at least one alphabetic character"),
                ),
            );
        }
        Ok(result)
    }
}

impl Drop for Caesar {
    /// Overwrites the key material before the memory is released.
    fn drop(&mut self)
        opens_invariants none
        no_unwind
    {
        self.shift = 0;
    }
}

impl Cipher for Caesar {
    open spec fn well_formed(&self) -> bool {
        self.wf()
    }

    open spec fn encrypt_spec(&self, text: Seq<char>) -> Option<Seq<char>> {
        caesar_result(text, self.key_shift(), self.text_mode())
    }

    open spec fn decrypt_spec(&self, text: Seq<char>) -> Option<Seq<char>> {
        caesar_result(text, -self.key_shift(), self.text_mode())
    }

    open spec fn name_spec(&self) -> Seq<char> {
        "caesar"@
    }

    fn encrypt(&self, plaintext: &str) -> (r: Result<String, PolygraphiaError>) {
        self.run(plaintext, true)
    }

    fn decrypt(&self, ciphertext: &str) -> (r: Result<String, PolygraphiaError>) {
        self.run(ciphertext, false)
    }

    fn name(&self) -> (r: &str) {
        "caesar"
    }
}

/// Both directions refuse an empty text, and under `AlphaOnly` a text without letters.
pub proof fn lemma_caesar_refuses(c: &Caesar, t: Seq<char>)
    requires
        t.len() == 0 || (c.text_mode() == TextMode::AlphaOnly && !has_letter(t)),
    ensures
        c.encrypt_spec(t) is None,
        c.decrypt_spec(t) is None,
{
}

/// Decrypting what encryption gave, with the same cipher, gives back any text that has a
/// letter, with its other characters treated per the cipher's mode.
pub proof fn lemma_caesar_round_trip(c: &Caesar, t: Seq<char>)
    requires
        c.wf(),
        has_letter(t),
    ensures
        c.encrypt_spec(t) matches Some(e) && c.decrypt_spec(e) == Some(
            filter_text(t, c.text_mode()),
        ),
{
    let k = c.key_shift();
    let f = |x: char| shift_letter(x, k);
    let g = |x: char| shift_letter(x, -k);
    assert forall|x: char| is_letter(x) implies is_letter(#[trigger] f(x)) && g(f(x)) == x by {
        let j = (letter_index(x) + k) % 26;
        assert(letter_index(f(x)) == j);
        assert((j - k) % 26 == letter_index(x));
    }
    lemma_letterwise_round_trip(t, c.text_mode(), f, g);
}

} // verus!
