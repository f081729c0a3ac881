use vstd::prelude::*;

use crate::mode::TextMode;

verus! {

pub open spec fn is_upper(c: char) -> bool {
    'A' <= c && c <= 'Z'
}

pub open spec fn is_lower(c: char) -> bool {
    'a' <= c && c <= 'z'
}

/// An ASCII letter, of either case.
pub open spec fn is_letter(c: char) -> bool {
    is_upper(c) || is_lower(c)
}

/// Position of a letter in the alphabet, `a` and `A` being 0.
pub open spec fn letter_index(c: char) -> int {
    if is_upper(c) {
        c as int - 'A' as int
    } else {
        c as int - 'a' as int
    }
}

/// The letter at position `i` (in `0..26`) of the alphabet, in the case asked for.
pub open spec fn letter_at(i: int, upper: bool) -> char {
    if upper {
        ('A' as int + i) as char
    } else {
        ('a' as int + i) as char
    }
}

pub fn is_ascii_letter(c: char) -> (r: bool)
    ensures
        r == is_letter(c),
{
    ('A' <= c && c <= 'Z') || ('a' <= c && c <= 'z')
}

pub fn index_of_letter(c: char) -> (r: u8)
    requires
        is_letter(c),
    ensures
        r as int == letter_index(c),
        r < 26,
{
    if 'A' <= c && c <= 'Z' {
        ((c as u32) - ('A' as u32)) as u8
    } else {
        ((c as u32) - ('a' as u32)) as u8
    }
}

pub fn letter_from_index(i: u8, upper: bool) -> (r: char)
    requires
        i < 26,
    ensures
        r == letter_at(i as int, upper),
        is_letter(r),
        letter_index(r) == i,
        is_upper(r) == upper,
{
    if upper {
        (65u8 + i) as char
    } else {
        (97u8 + i) as char
    }
}

/// Whether `s` holds at least one ASCII letter.
pub open spec fn has_letter(s: Seq<char>) -> bool {
    exists|i: int| 0 <= i < s.len() && is_letter(#[trigger] s[i])
}

/// `s` with each letter replaced by `f` of it; any other character is kept under
/// `PreserveAll` and dropped under `AlphaOnly`.
pub open spec fn map_letters(s: Seq<char>, mode: TextMode, f: spec_fn(char) -> char) -> Seq<char>
    decreases s.len(),
{
    if s.len() == 0 {
        Seq::empty()
    } else {
        let prev = map_letters(s.drop_last(), mode, f);
        let c = s.last();
        if is_letter(c) {
            prev.push(f(c))
        } else if mode == TextMode::PreserveAll {
            prev.push(c)
        } else {
            prev
        }
    }
}

/// `s` as a transformation under `mode` leaves it when every letter maps to itself.
pub open spec fn filter_text(s: Seq<char>, mode: TextMode) -> Seq<char> {
    map_letters(s, mode, |c: char| c)
}

/// Extending the input by one character extends the result by at most that character's image.
pub proof fn lemma_map_letters_step(s: Seq<char>, i: int, mode: TextMode, f: spec_fn(char) -> char)
    requires
        0 <= i < s.len(),
    ensures
        map_letters(s.subrange(0, i + 1), mode, f) == (if is_letter(s[i]) {
            map_letters(s.subrange(0, i), mode, f).push(f(s[i]))
        } else if mode == TextMode::PreserveAll {
            map_letters(s.subrange(0, i), mode, f).push(s[i])
        } else {
            map_letters(s.subrange(0, i), mode, f)
        }),
{
    assert(s.subrange(0, i + 1).drop_last() =~= s.subrange(0, i));
}

/// Under `AlphaOnly` the result is empty exactly when the input has no letter.
pub proof fn lemma_map_letters_empty(s: Seq<char>, mode: TextMode, f: spec_fn(char) -> char)
    ensures
        mode == TextMode::AlphaOnly ==> (map_letters(s, mode, f).len() == 0 <==> !has_letter(s)),
        mode == TextMode::PreserveAll ==> map_letters(s, mode, f).len() == s.len(),
    decreases s.len(),
{
    if s.len() > 0 {
        let p = s.drop_last();
        lemma_map_letters_empty(p, mode, f);
        if has_letter(p) {
            let i = choose|i: int| 0 <= i < p.len() && is_letter(#[trigger] p[i]);
            assert(s[i] == p[i]);
        }
        if has_letter(s) && !is_letter(s.last()) {
            let i = choose|i: int| 0 <= i < s.len() && is_letter(#[trigger] s[i]);
            assert(p[i] == s[i]);
        }
        if is_letter(s.last()) {
            assert(is_letter(s[s.len() - 1]));
        }
    }
}

/// A map that sends letters to letters keeps a letter in the text.
pub proof fn lemma_map_letters_has_letter(s: Seq<char>, mode: TextMode, f: spec_fn(char) -> char)
    requires
        forall|c: char| is_letter(c) ==> is_letter(#[trigger] f(c)),
        has_letter(s),
    ensures
        has_letter(map_letters(s, mode, f)),
    decreases s.len(),
{
    let p = s.drop_last();
    let r = map_letters(s, mode, f);
    if is_letter(s.last()) {
        assert(is_letter(r[r.len() - 1]));
    } else {
        let i = choose|i: int| 0 <= i < s.len() && is_letter(#[trigger] s[i]);
        assert(p[i] == s[i]);
        lemma_map_letters_has_letter(p, mode, f);
        let q = map_letters(p, mode, f);
        let j = choose|j: int| 0 <= j < q.len() && is_letter(#[trigger] q[j]);
        assert(r[j] == q[j]);
    }
}

/// Mapping with `g` after `f`, where `g` undoes `f` on letters, filters the text per `mode`.
pub proof fn lemma_map_letters_inverse(
    s: Seq<char>,
    mode: TextMode,
    f: spec_fn(char) -> char,
    g: spec_fn(char) -> char,
)
    requires
        forall|c: char| is_letter(c) ==> is_letter(#[trigger] f(c)) && g(f(c)) == c,
    ensures
        map_letters(map_letters(s, mode, f), mode, g) == filter_text(s, mode),
    decreases s.len(),
{
    if s.len() > 0 {
        let p = s.drop_last();
        lemma_map_letters_inverse(p, mode, f, g);
        let m = map_letters(p, mode, f);
        let c = s.last();
        if is_letter(c) {
            assert(m.push(f(c)).drop_last() =~= m);
        } else if mode == TextMode::PreserveAll {
            assert(m.push(c).drop_last() =~= m);
        }
    }
}

/// Whether a letter-wise cipher refuses `s`: it is empty, or has no letter under `AlphaOnly`.
pub open spec fn refused(s: Seq<char>, mode: TextMode) -> bool {
    s.len() == 0 || (mode == TextMode::AlphaOnly && !has_letter(s))
}

/// A letter-wise map followed by its inverse accepts a text with a letter at both steps
/// and gives back the text filtered per `mode`.
pub proof fn lemma_letterwise_round_trip(
    s: Seq<char>,
    mode: TextMode,
    f: spec_fn(char) -> char,
    g: spec_fn(char) -> char,
)
    requires
        forall|c: char| is_letter(c) ==> is_letter(#[trigger] f(c)) && g(f(c)) == c,
        has_letter(s),
    ensures
        !refused(s, mode),
        !refused(map_letters(s, mode, f), mode),
        map_letters(map_letters(s, mode, f), mode, g) == filter_text(s, mode),
{
    lemma_map_letters_has_letter(s, mode, f);
    lemma_map_letters_inverse(s, mode, f, g);
}

/// The lower-case form of a letter.
pub open spec fn lower_letter(c: char) -> char {
    letter_at(letter_index(c), false)
}

/// The letters of `s`, lower-cased, everything else dropped.
pub open spec fn lower_letters(s: Seq<char>) -> Seq<char> {
    map_letters(s, TextMode::AlphaOnly, |c: char| lower_letter(c))
}

/// Whether every character of `s` is a lower-case letter.
pub open spec fn all_lower(s: Seq<char>) -> bool {
    forall|i: int| 0 <= i < s.len() ==> is_lower(#[trigger] s[i])
}

/// Under `AlphaOnly`, every character of the result is the image of a letter, so it has
/// any property that all such images have.
pub proof fn lemma_alpha_only_images(s: Seq<char>, f: spec_fn(char) -> char, p: spec_fn(char) -> bool)
    requires
        forall|c: char| is_letter(c) ==> #[trigger] p(f(c)),
    ensures
        forall|i: int|
            0 <= i < map_letters(s, TextMode::AlphaOnly, f).len() ==> #[trigger] p(
                map_letters(s, TextMode::AlphaOnly, f)[i],
            ),
    decreases s.len(),
{
    if s.len() > 0 {
        let prev = map_letters(s.drop_last(), TextMode::AlphaOnly, f);
        lemma_alpha_only_images(s.drop_last(), f, p);
        let c = s.last();
        if is_letter(c) {
            assert(p(f(c)));
            let r = prev.push(f(c));
            assert forall|i: int| 0 <= i < r.len() implies #[trigger] p(r[i]) by {
                if i < prev.len() {
                    assert(r[i] == prev[i]);
                }
            }
        }
    }
}

/// A letter is the letter at its own index, in its own case.
pub proof fn lemma_letter_round_trip(c: char)
    requires
        is_letter(c),
    ensures
        letter_at(letter_index(c), is_upper(c)) == c,
        0 <= letter_index(c) < 26,
{
    vstd::utf8::char_u32_cast(c, c as u32);
}

/// Different positions in the alphabet give different letters.
pub proof fn lemma_letter_at_injective(i: int, j: int, upper: bool)
    requires
        0 <= i < 26,
        0 <= j < 26,
        letter_at(i, upper) == letter_at(j, upper),
    ensures
        i == j,
{
    let a = letter_at(i, upper);
    let b = letter_at(j, upper);
    assert(letter_index(a) == i);
    assert(letter_index(b) == j);
}

pub fn contains_letter(s: &str) -> (r: bool)
    ensures
        r == has_letter(s@),
{
    let n = s.unicode_len();
    let mut i: usize = 0;
    while i < n
        invariant
            n == s@.len(),
            i <= n,
            forall|j: int| 0 <= j < i ==> !is_letter(#[trigger] s@[j]),
        decreases n - i,
    {
        if is_ascii_letter(s.get_char(i)) {
            return true;
        }
        i += 1;
    }
    false
}

/// The lower-case form of the letters of `s`, everything else dropped.
pub fn lowercase_letters(s: &str) -> (r: String)
    ensures
        r@ == lower_letters(s@),
        all_lower(r@),
{
    let ghost f = |c: char| lower_letter(c);
    let n = s.unicode_len();
    let mut out = String::new();
    let mut i: usize = 0;
    while i < n
        invariant
            n == s@.len(),
            i <= n,
            f == (|c: char| lower_letter(c)),
            out@ == map_letters(s@.subrange(0, i as int), TextMode::AlphaOnly, f),
        decreases n - i,
    {
        let c = s.get_char(i);
        proof {
            lemma_map_letters_step(s@, i as int, TextMode::AlphaOnly, f);
        }
        if is_ascii_letter(c) {
            let idx = index_of_letter(c);
            push_char(&mut out, letter_from_index(idx, false));
        }
        i += 1;
    }
    proof {
        assert(s@.subrange(0, n as int) =~= s@);
        let p = |c: char| is_lower(c);
        lemma_alpha_only_images(s@, f, p);
        assert forall|i: int| 0 <= i < out@.len() implies is_lower(#[trigger] out@[i]) by {
            assert(p(out@[i]));
        }
    }
    out
}

/// Appends `c` to `s`.
/// Relies on `String::push`, which appends the given char to the end of the string.
#[verifier::external_body]
pub(crate) fn push_char(s: &mut String, c: char)
    ensures
        final(s)@ == old(s)@.push(c),
{
    s.push(c)
}

} // verus!
