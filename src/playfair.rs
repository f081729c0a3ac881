use vstd::prelude::*;

use crate::cipher::Cipher;
use crate::error::PolygraphiaError;
use crate::mode::TextMode;
use crate::text::{
    contains_letter, has_letter, index_of_letter, is_ascii_letter, is_letter, is_lower, letter_at,
    letter_from_index, letter_index, lemma_alpha_only_images, lemma_letter_at_injective,
    lemma_letter_round_trip, lemma_map_letters_step, lower_letter, map_letters, push_char,
};

verus! {

/// A letter lower-cased, with `j` folded into `i`.
pub open spec fn fold_letter(c: char) -> char {
    if lower_letter(c) == 'j' {
        'i'
    } else {
        lower_letter(c)
    }
}

/// A letter of the 25-letter alphabet of the square: lower case, and not `j`.
pub open spec fn is_square_letter(c: char) -> bool {
    is_lower(c) && c != 'j'
}

/// The letters of `s`, folded, everything else dropped.
pub open spec fn folded_letters(s: Seq<char>) -> Seq<char> {
    map_letters(s, TextMode::AlphaOnly, |c: char| fold_letter(c))
}

/// `a` to `z` without `j`, in order.
pub open spec fn square_alphabet() -> Seq<char> {
    Seq::new(
        25,
        |i: int|
            letter_at(
                if i < 9 {
                    i
                } else {
                    i + 1
                },
                false,
            ),
    )
}

/// `s` with every repeated character after its first occurrence removed.
pub open spec fn dedup(s: Seq<char>) -> Seq<char>
    decreases s.len(),
{
    if s.len() == 0 {
        Seq::empty()
    } else {
        let p = dedup(s.drop_last());
        if p.contains(s.last()) {
            p
        } else {
            p.push(s.last())
        }
    }
}

/// The 25 letters of the square for `key`, row by row: the key's folded letters in order of
/// first occurrence, then the rest of the alphabet.
pub open spec fn key_square(key: Seq<char>) -> Seq<char> {
    dedup(folded_letters(key) + square_alphabet())
}

/// Each letter of the 25-letter alphabet stands exactly once in `sq`, and nothing else does.
pub open spec fn is_square(sq: Seq<char>) -> bool {
    &&& sq.len() == 25
    &&& sq.no_duplicates()
    &&& forall|i: int| 0 <= i < sq.len() ==> is_square_letter(#[trigger] sq[i])
    &&& forall|c: char| is_square_letter(c) ==> #[trigger] sq.contains(c)
}

pub proof fn lemma_dedup(s: Seq<char>)
    ensures
        dedup(s).no_duplicates(),
        forall|c: char| #[trigger] dedup(s).contains(c) <==> s.contains(c),
    decreases s.len(),
{
    if s.len() > 0 {
        let p = s.drop_last();
        lemma_dedup(p);
        let q = dedup(p);
        let x = s.last();
        assert(s.contains(x)) by {
            assert(s[s.len() - 1] == x);
        }
        assert(dedup(s).contains(x)) by {
            if !q.contains(x) {
                assert(q.push(x)[q.len() as int] == x);
            }
        }
        assert forall|c: char| #[trigger] dedup(s).contains(c) <==> s.contains(c) by {
            if c != x {
                if s.contains(c) {
                    let i = choose|i: int| 0 <= i < s.len() && s[i] == c;
                    assert(p[i] == c);
                    assert(q.contains(c));
                    if !q.contains(x) {
                        let j = choose|j: int| 0 <= j < q.len() && q[j] == c;
                        assert(q.push(x)[j] == c);
                    }
                }
                if dedup(s).contains(c) {
                    let i = choose|i: int| 0 <= i < dedup(s).len() && dedup(s)[i] == c;
                    if !q.contains(x) {
                        assert(i < q.len());
                        assert(q[i] == c);
                    }
                    assert(q.contains(c));
                    let j = choose|j: int| 0 <= j < p.len() && p[j] == c;
                    assert(s[j] == c);
                }
            }
        }
    }
}

proof fn lemma_square_alphabet()
    ensures
        square_alphabet().no_duplicates(),
        forall|i: int|
            0 <= i < square_alphabet().len() ==> is_square_letter(#[trigger] square_alphabet()[i]),
        forall|c: char| is_square_letter(c) ==> #[trigger] square_alphabet().contains(c),
{
    let a = square_alphabet();
    assert forall|i: int, j: int| 0 <= i < a.len() && 0 <= j < a.len() && i != j implies a[i]
        != a[j] by {
        let x = if i < 9 {
            i
        } else {
            i + 1
        };
        let y = if j < 9 {
            j
        } else {
            j + 1
        };
        if a[i] == a[j] {
            lemma_letter_at_injective(x, y, false);
        }
    }
    assert forall|i: int| 0 <= i < a.len() implies is_square_letter(#[trigger] a[i]) by {
        let x = if i < 9 {
            i
        } else {
            i + 1
        };
        assert(letter_index(a[i]) == x);
    }
    assert forall|c: char| is_square_letter(c) implies #[trigger] a.contains(c) by {
        lemma_letter_round_trip(c);
        let x = letter_index(c);
        let i = if x < 9 {
            x
        } else {
            x - 1
        };
        assert(x != 9);
        assert(a[i] == c);
    }
}

proof fn lemma_folded_letters(s: Seq<char>)
    ensures
        forall|i: int|
            0 <= i < folded_letters(s).len() ==> is_square_letter(#[trigger] folded_letters(s)[i]),
{
    let f = |c: char| fold_letter(c);
    let p = |c: char| is_square_letter(c);
    assert forall|c: char| is_letter(c) implies #[trigger] p(f(c)) by {
        lemma_letter_round_trip(c);
        assert(letter_index(lower_letter(c)) == letter_index(c));
    }
    lemma_alpha_only_images(s, f, p);
    assert forall|i: int| 0 <= i < folded_letters(s).len() implies is_square_letter(
        #[trigger] folded_letters(s)[i],
    ) by {
        assert(p(folded_letters(s)[i]));
    }
}

/// The square made from any key holds each letter of the 25-letter alphabet exactly once.
pub proof fn lemma_key_square(key: Seq<char>)
    ensures
        is_square(key_square(key)),
{
    let f = folded_letters(key);
    let a = square_alphabet();
    let s = f + a;
    let sq = key_square(key);
    lemma_folded_letters(key);
    lemma_square_alphabet();
    lemma_dedup(s);
    assert forall|c: char| is_square_letter(c) implies #[trigger] sq.contains(c) by {
        assert(a.contains(c));
        let i = choose|i: int| 0 <= i < a.len() && a[i] == c;
        assert(s[f.len() + i] == c);
    }
    assert forall|i: int| 0 <= i < sq.len() implies is_square_letter(#[trigger] sq[i]) by {
        assert(sq.contains(sq[i]));
        assert(s.contains(sq[i]));
        let j = choose|j: int| 0 <= j < s.len() && s[j] == sq[i];
        if j < f.len() {
            assert(s[j] == f[j]);
        } else {
            assert(s[j] == a[j - f.len()]);
        }
    }
    assert(sq.to_set() =~= a.to_set()) by {
        assert forall|c: char| sq.to_set().contains(c) <==> a.to_set().contains(c) by {
            if sq.contains(c) {
                let i = choose|i: int| 0 <= i < sq.len() && sq[i] == c;
                assert(is_square_letter(sq[i]));
            }
            if a.contains(c) {
                let i = choose|i: int| 0 <= i < a.len() && a[i] == c;
                assert(is_square_letter(a[i]));
            }
        }
    }
    sq.unique_seq_to_set();
    a.unique_seq_to_set();
}

/// The piece that character `j` of `f` contributes to the prepared text: itself, then an
/// `x` where the next character repeats it; two adjacent `x`s pass through as they are.
pub open spec fn split_piece(f: Seq<char>, j: int) -> Seq<char> {
    if j + 1 < f.len() && f[j] == f[j + 1] && f[j] != 'x' {
        seq![f[j], 'x']
    } else {
        seq![f[j]]
    }
}

/// The pieces of the first `i` characters of `f`.
pub open spec fn split_doubles(f: Seq<char>, i: nat) -> Seq<char>
    decreases i,
{
    if i == 0 {
        Seq::empty()
    } else {
        split_doubles(f, (i - 1) as nat) + split_piece(f, i - 1)
    }
}

/// The text as it is cut into pairs: folded letters, an `x` between two equal neighbours
/// other than `x`, and a trailing `x` where the length would be odd.
pub open spec fn playfair_prepare(s: Seq<char>) -> Seq<char> {
    let f = folded_letters(s);
    let p = split_doubles(f, f.len());
    if p.len() % 2 == 1 {
        p.push('x')
    } else {
        p
    }
}

/// The position of `c` in the square `sq`, row-major.
pub open spec fn square_pos(sq: Seq<char>, c: char) -> int {
    choose|i: int| 0 <= i < sq.len() && sq[i] == c
}

/// Where the letters at (`r1`, `c1`) and (`r2`, `c2`) go: along a shared row or column one
/// step forward to encrypt and back to decrypt, wrapping round; otherwise each takes the
/// other's column.
pub open spec fn pair_cells(r1: int, c1: int, r2: int, c2: int, encrypt: bool) -> (int, int, int, int) {
    let step = if encrypt {
        1int
    } else {
        4int
    };
    if r1 == r2 {
        (r1, (c1 + step) % 5, r2, (c2 + step) % 5)
    } else if c1 == c2 {
        ((r1 + step) % 5, c1, (r2 + step) % 5, c2)
    } else {
        (r1, c2, r2, c1)
    }
}

/// The image of the pair (`a`, `b`) in the square `sq`.
pub open spec fn pair_image(sq: Seq<char>, a: char, b: char, encrypt: bool) -> Seq<char> {
    let i = square_pos(sq, a);
    let j = square_pos(sq, b);
    let t = pair_cells(i / 5, i % 5, j / 5, j % 5, encrypt);
    seq![sq[t.0 * 5 + t.1], sq[t.2 * 5 + t.3]]
}

/// The images of the first `k` pairs of `p`.
pub open spec fn playfair_pairs(sq: Seq<char>, p: Seq<char>, k: nat, encrypt: bool) -> Seq<char>
    decreases k,
{
    if k == 0 {
        Seq::empty()
    } else {
        playfair_pairs(sq, p, (k - 1) as nat, encrypt) + pair_image(
            sq,
            p[2 * (k - 1)],
            p[2 * (k - 1) + 1],
            encrypt,
        )
    }
}

/// The Playfair transformation of `s` with the square `sq`.
pub open spec fn playfair_text(sq: Seq<char>, s: Seq<char>, encrypt: bool) -> Seq<char> {
    let p = playfair_prepare(s);
    playfair_pairs(sq, p, p.len() / 2, encrypt)
}

/// What a Playfair transformation gives on `s`: `None` for a text without letters.
pub open spec fn playfair_result(sq: Seq<char>, s: Seq<char>, encrypt: bool) -> Option<Seq<char>> {
    if s.len() == 0 || !has_letter(s) {
        None
    } else {
        Some(playfair_text(sq, s, encrypt))
    }
}

proof fn lemma_split_doubles(f: Seq<char>, i: nat)
    requires
        i <= f.len(),
        forall|j: int| 0 <= j < f.len() ==> is_square_letter(#[trigger] f[j]),
    ensures
        forall|j: int|
            0 <= j < split_doubles(f, i).len() ==> is_square_letter(
                #[trigger] split_doubles(f, i)[j],
            ),
    decreases i,
{
    if i > 0 {
        lemma_split_doubles(f, (i - 1) as nat);
        let a = split_doubles(f, (i - 1) as nat);
        let b = split_piece(f, i - 1);
        assert(is_square_letter(f[i - 1]));
        assert forall|j: int| 0 <= j < (a + b).len() implies is_square_letter(
            #[trigger] (a + b)[j],
        ) by {
            if j >= a.len() {
                assert((a + b)[j] == b[j - a.len()]);
            }
        }
    }
}

/// The prepared text has even length and holds letters of the square only.
pub proof fn lemma_playfair_prepare(s: Seq<char>)
    ensures
        playfair_prepare(s).len() % 2 == 0,
        forall|j: int|
            0 <= j < playfair_prepare(s).len() ==> is_square_letter(
                #[trigger] playfair_prepare(s)[j],
            ),
{
    let f = folded_letters(s);
    lemma_folded_letters(s);
    lemma_split_doubles(f, f.len());
    let p = split_doubles(f, f.len());
    if p.len() % 2 == 1 {
        assert forall|j: int| 0 <= j < p.push('x').len() implies is_square_letter(
            #[trigger] p.push('x')[j],
        ) by {
            if j < p.len() {
                assert(p.push('x')[j] == p[j]);
            }
        }
    }
}

/// Whether `v` holds `c`.
fn vec_contains(v: &Vec<char>, c: char) -> (r: bool)
    ensures
        r == v@.contains(c),
{
    let mut i: usize = 0;
    while i < v.len()
        invariant
            i <= v@.len(),
            forall|j: int| 0 <= j < i ==> v@[j] != c,
        decreases v@.len() - i,
    {
        if v[i] == c {
            return true;
        }
        i += 1;
    }
    false
}

/// The cells that the letters at (`row1`, `col1`) and (`row2`, `col2`) move to.
fn move_pair(row1: usize, col1: usize, row2: usize, col2: usize, encrypt: bool) -> (r: (
    usize,
    usize,
    usize,
    usize,
))
    requires
        row1 < 5,
        col1 < 5,
        row2 < 5,
        col2 < 5,
    ensures
        r.0 < 5 && r.1 < 5 && r.2 < 5 && r.3 < 5,
        (r.0 as int, r.1 as int, r.2 as int, r.3 as int) == pair_cells(
            row1 as int,
            col1 as int,
            row2 as int,
            col2 as int,
            encrypt,
        ),
{
    let shift: usize = if encrypt {
        1
    } else {
        4
    };
    if row1 == row2 {
        (row1, (col1 + shift) % 5, row2, (col2 + shift) % 5)
    } else if col1 == col2 {
        ((row1 + shift) % 5, col1, (row2 + shift) % 5, col2)
    } else {
        (row1, col2, row2, col1)
    }
}

proof fn lemma_cell_index(row: int, col: int)
    requires
        0 <= row < 5,
        0 <= col < 5,
    ensures
        (row * 5 + col) / 5 == row,
        (row * 5 + col) % 5 == col,
{
}

/// `c` folded: lower-cased, with `j` becoming `i`.
fn fold_char(c: char) -> (r: char)
    requires
        is_letter(c),
    ensures
        r == fold_letter(c),
{
    let idx = index_of_letter(c);
    proof {
        lemma_letter_round_trip(c);
        if lower_letter(c) == 'j' {
            lemma_letter_at_injective(letter_index(c), 9, false);
        }
    }
    if idx == 9 {
        'i'
    } else {
        letter_from_index(idx, false)
    }
}

/// A string holding the characters of `v`.
fn string_of(v: &Vec<char>) -> (r: String)
    ensures
        r@ == v@,
{
    let mut out = String::new();
    let mut i: usize = 0;
    while i < v.len()
        invariant
            i <= v@.len(),
            out@ =~= v@.subrange(0, i as int),
        decreases v@.len() - i,
    {
        push_char(&mut out, v[i]);
        i += 1;
    }
    out
}

/// One more character run through `dedup` is kept if it is new.
proof fn lemma_dedup_push(s: Seq<char>, c: char)
    ensures
        dedup(s.push(c)) == if dedup(s).contains(c) {
            dedup(s)
        } else {
            dedup(s).push(c)
        },
{
    assert(s.push(c).drop_last() =~= s);
}

/// The Playfair cipher: pairs of letters are substituted by their places in a 5×5 square
/// built from a keyword.
#[derive(Debug, Clone)]
pub struct Playfair {
    key: String,
    matrix: [[u8; 5]; 5],
    mode: TextMode,
}

impl Playfair {
    /// The 25 letters of the square, row by row.
    pub closed spec fn square(&self) -> Seq<char> {
        self.key@
    }

    /// The number (`a` being 0) of the letter in row `r`, column `c` of the square.
    pub closed spec fn cell(&self, r: int, c: int) -> u8 {
        self.matrix[r][c]
    }

    pub closed spec fn text_mode(&self) -> TextMode {
        self.mode
    }

    pub open spec fn wf(&self) -> bool {
        &&& is_square(self.square())
        &&& forall|r: int, c: int|
            0 <= r < 5 && 0 <= c < 5 ==> #[trigger] self.cell(r, c) as int == letter_index(
                self.square()[r * 5 + c],
            )
    }

    /// A cipher whose square is built from `key`, in the default mode; `InvalidKey` where
    /// the key is empty.
    pub fn new(key: &str) -> (r: Result<Playfair, PolygraphiaError>)
        ensures
            match r {
                Ok(p) => {
                    &&& key@.len() > 0
                    &&& p.wf()
                    &&& p.square() == key_square(key@)
                    &&& p.text_mode() == TextMode::PreserveAll
                },
                Err(e) => key@.len() == 0 && e is InvalidKey,
            },
    {
        Self::with_mode(key, TextMode::PreserveAll)
    }

    /// A cipher whose square is built from `key`, in `mode`; `InvalidKey` where the key is
    /// empty.
    pub fn with_mode(key: &str, mode: TextMode) -> (r: Result<Playfair, PolygraphiaError>)
        ensures
            match r {
                Ok(p) => {
                    &&& key@.len() > 0
                    &&& p.wf()
                    &&& p.square() == key_square(key@)
                    &&& p.text_mode() == mode
                },
                Err(e) => key@.len() == 0 && e is InvalidKey,
            },
    {
        if key.is_empty() {
            return Err(PolygraphiaError::InvalidKey(String::from_str("Key cannot be empty")));
        }
        let prepared_key = Self::prepare_key(key);
        let matrix = Self::generate_matrix(prepared_key.as_str());
        Ok(Playfair { key: prepared_key, matrix, mode })
    }

    pub fn key(&self) -> (r: &str)
        ensures
            r@ == self.square(),
    {
        self.key.as_str()
    }

    pub fn matrix(&self) -> (r: &[[u8; 5]; 5])
        ensures
            forall|i: int, j: int| 0 <= i < 5 && 0 <= j < 5 ==> #[trigger] r[i][j] == self.cell(i, j),
    {
        &self.matrix
    }

    pub fn mode(&self) -> (r: TextMode)
        ensures
            r == self.text_mode(),
    {
        self.mode
    }

    /// Rebuilds the square from `key`; `InvalidKey`, with the cipher unchanged, where the key
    /// is empty.
    pub fn set_key(&mut self, key: &str) -> (r: Result<(), PolygraphiaError>)
        ensures
            match r {
                Ok(_) => {
                    &&& key@.len() > 0
                    &&& final(self).wf()
                    &&& final(self).square() == key_square(key@)
                    &&& final(self).text_mode() == old(self).text_mode()
                },
                Err(e) => key@.len() == 0 && e is InvalidKey && *final(self) == *old(self),
            },
    {
        if key.is_empty() {
            return Err(PolygraphiaError::InvalidKey(String::from_str("Key cannot be empty")));
        }
        let prepared_key = Self::prepare_key(key);
        let matrix = Self::generate_matrix(prepared_key.as_str());
        self.key = prepared_key;
        self.matrix = matrix;
        Ok(())
    }

    pub fn set_mode(&mut self, mode: TextMode)
        ensures
            old(self).wf() ==> final(self).wf(),
            final(self).square() == old(self).square(),
            forall|i: int, j: int| #[trigger] final(self).cell(i, j) == old(self).cell(i, j),
            final(self).text_mode() == mode,
    {
        self.mode = mode;
        proof {
            if old(self).wf() {
                assert forall|r: int, c: int| 0 <= r < 5 && 0 <= c < 5 implies #[trigger] self.cell(
                    r,
                    c,
                ) as int == letter_index(self.square()[r * 5 + c]) by {
                    assert(old(self).cell(r, c) == self.cell(r, c));
                }
            }
        }
    }

    /// The 25 letters of the square: the folded letters of `key` in order of first
    /// occurrence, then the rest of the alphabet without `j`.
    pub fn prepare_key(key: &str) -> (r: String)
        ensures
            r@ == key_square(key@),
            is_square(r@),
    {
        let ghost f = |c: char| fold_letter(c);
        let mut unique_chars: Vec<char> = Vec::new();
        let n = key.unicode_len();
        let mut i: usize = 0;
        while i < n
            invariant
                n == key@.len(),
                i <= n,
                f == (|c: char| fold_letter(c)),
                unique_chars@ == dedup(
                    map_letters(key@.subrange(0, i as int), TextMode::AlphaOnly, f),
                ),
            decreases n - i,
        {
            let c = key.get_char(i);
            proof {
                lemma_map_letters_step(key@, i as int, TextMode::AlphaOnly, f);
            }
            if is_ascii_letter(c) {
                let c_normalized = fold_char(c);
                proof {
                    lemma_dedup_push(
                        map_letters(key@.subrange(0, i as int), TextMode::AlphaOnly, f),
                        c_normalized,
                    );
                }
                if !vec_contains(&unique_chars, c_normalized) {
                    unique_chars.push(c_normalized);
                }
            }
            i += 1;
        }
        let ghost folded = folded_letters(key@);
        proof {
            assert(key@.subrange(0, n as int) =~= key@);
        }
        let mut k: usize = 0;
        while k < 25
            invariant
                k <= 25,
                unique_chars@ == dedup(folded + square_alphabet().subrange(0, k as int)),
            decreases 25 - k,
        {
            let idx: u8 = if k < 9 {
                k as u8
            } else {
                (k + 1) as u8
            };
            let c = letter_from_index(idx, false);
            proof {
                assert(c == square_alphabet()[k as int]);
                assert(folded + square_alphabet().subrange(0, k + 1) =~= (folded
                    + square_alphabet().subrange(0, k as int)).push(c));
                lemma_dedup_push(folded + square_alphabet().subrange(0, k as int), c);
            }
            if !vec_contains(&unique_chars, c) {
                unique_chars.push(c);
            }
            k += 1;
        }
        proof {
            assert(square_alphabet().subrange(0, 25) =~= square_alphabet());
            lemma_key_square(key@);
        }
        string_of(&unique_chars)
    }

    /// The text cut ready for pairs: its folded letters, an `x` between two equal
    /// neighbours other than `x`, and an `x` at the end where the length would be odd.
    pub fn prepare_text(text: &str) -> (r: String)
        ensures
            r@ == playfair_prepare(text@),
    {
        let ghost f = |c: char| fold_letter(c);
        let n = text.unicode_len();
        let mut chars: Vec<char> = Vec::new();
        let mut i: usize = 0;
        while i < n
            invariant
                n == text@.len(),
                i <= n,
                f == (|c: char| fold_letter(c)),
                chars@ == map_letters(text@.subrange(0, i as int), TextMode::AlphaOnly, f),
            decreases n - i,
        {
            let c = text.get_char(i);
            proof {
                lemma_map_letters_step(text@, i as int, TextMode::AlphaOnly, f);
            }
            if is_ascii_letter(c) {
                chars.push(fold_char(c));
            }
            i += 1;
        }
        proof {
            assert(text@.subrange(0, n as int) =~= text@);
        }
        let ghost fl = chars@;
        let mut prepared: Vec<char> = Vec::new();
        let mut i: usize = 0;
        while i < chars.len()
            invariant
                fl == chars@,
                i <= chars@.len(),
                prepared@ == split_doubles(fl, i as nat),
            decreases chars@.len() - i,
        {
            let first = chars[i];
            prepared.push(first);
            if i + 1 < chars.len() && first == chars[i + 1] && first != 'x' {
                prepared.push('x');
            }
            proof {
                assert(split_doubles(fl, (i + 1) as nat) =~= split_doubles(fl, i as nat)
                    + split_piece(fl, i as int));
            }
            i += 1;
        }
        if prepared.len() % 2 == 1 {
            prepared.push('x');
        }
        string_of(&prepared)
    }

    /// The row and column where the letter numbered `char_val` stands in the square;
    /// `InvalidInput` where it stands nowhere.
    pub fn get_coordinates(&self, char_val: u8) -> (r: Result<(usize, usize), PolygraphiaError>)
        ensures
            match r {
                Ok((row, col)) => row < 5 && col < 5 && self.cell(row as int, col as int)
                    == char_val,
                Err(e) => {
                    &&& e is InvalidInput
                    &&& forall|row: int, col: int|
                        0 <= row < 5 && 0 <= col < 5 ==> #[trigger] self.cell(row, col)
                            != char_val
                },
            },
    {
        let mut row: usize = 0;
        while row < 5
            invariant
                row <= 5,
                forall|r: int, c: int|
                    0 <= r < row && 0 <= c < 5 ==> #[trigger] self.cell(r, c) != char_val,
            decreases 5 - row,
        {
            let mut col: usize = 0;
            while col < 5
                invariant
                    row < 5,
                    col <= 5,
                    forall|r: int, c: int|
                        0 <= r < row && 0 <= c < 5 ==> #[trigger] self.cell(r, c) != char_val,
                    forall|c: int| 0 <= c < col ==> #[trigger] self.cell(row as int, c) != char_val,
                decreases 5 - col,
            {
                if self.matrix[row][col] == char_val {
                    return Ok((row, col));
                }
                col += 1;
            }
            row += 1;
        }
        Err(PolygraphiaError::InvalidInput(String::from_str("Character not found in matrix")))
    }

    /// Where the letter `c` stands in the square.
    fn locate(&self, c: char) -> (r: Result<(usize, usize), PolygraphiaError>)
        requires
            self.wf(),
        ensures
            match r {
                Ok((row, col)) => {
                    &&& row < 5
                    &&& col < 5
                    &&& self.square().contains(c)
                    &&& square_pos(self.square(), c) == row * 5 + col
                },
                Err(e) => e is InvalidInput && !self.square().contains(c),
            },
    {
        let sq = Ghost(self.square());
        if !('a' <= c && c <= 'z') {
            proof {
                if sq@.contains(c) {
                    let i = choose|i: int| 0 <= i < sq@.len() && sq@[i] == c;
                    assert(is_square_letter(sq@[i]));
                }
            }
            return Err(
                PolygraphiaError::InvalidInput(String::from_str("Character not found in matrix")),
            );
        }
        let v = index_of_letter(c);
        proof {
            lemma_letter_round_trip(c);
        }
        match self.get_coordinates(v) {
            Ok((row, col)) => {
                proof {
                    let i = row * 5 + col;
                    let d = sq@[i as int];
                    assert(self.cell(row as int, col as int) as int == letter_index(d));
                    assert(is_square_letter(d));
                    lemma_letter_round_trip(d);
                    assert(d == c);
                    assert(sq@.contains(c));
                    let w = square_pos(sq@, c);
                    assert(sq@[w] == c);
                    assert(w == i);
                }
                Ok((row, col))
            },
            Err(e) => {
                proof {
                    if sq@.contains(c) {
                        let i = choose|i: int| 0 <= i < sq@.len() && sq@[i] == c;
                        assert(self.cell(i / 5, i % 5) as int == letter_index(sq@[(i / 5) * 5 + i % 5]));
                    }
                }
                Err(e)
            },
        }
    }

    /// The image of a pair of letters; `InvalidInput` where `pair` is not two letters of the
    /// square.
    pub fn process_pair(&self, pair: &str, encrypt: bool) -> (r: Result<String, PolygraphiaError>)
        requires
            self.wf(),
        ensures
            match r {
                Ok(s) => {
                    &&& pair@.len() == 2
                    &&& self.square().contains(pair@[0])
                    &&& self.square().contains(pair@[1])
                    &&& s@ == pair_image(self.square(), pair@[0], pair@[1], encrypt)
                },
                Err(e) => {
                    &&& e is InvalidInput
                    &&& !(pair@.len() == 2 && self.square().contains(pair@[0])
                        && self.square().contains(pair@[1]))
                },
            },
    {
        if pair.unicode_len() != 2 {
            return Err(
                PolygraphiaError::InvalidInput(
                    String::from_str("Pair must contain exactly 2 characters"),
                ),
            );
        }
        let a = pair.get_char(0);
        let b = pair.get_char(1);
        let (row1, col1) = self.locate(a)?;
        let (row2, col2) = self.locate(b)?;
        let (new_row1, new_col1, new_row2, new_col2) = move_pair(row1, col1, row2, col2, encrypt);
        proof {
            lemma_cell_index(row1 as int, col1 as int);
            lemma_cell_index(row2 as int, col2 as int);
        }
        let ghost sq = self.square();
        proof {
            let i = (new_row1 * 5 + new_col1) as int;
            let j = (new_row2 * 5 + new_col2) as int;
            assert(is_square_letter(sq[i]));
            assert(is_square_letter(sq[j]));
            lemma_letter_round_trip(sq[i]);
            lemma_letter_round_trip(sq[j]);
            assert(self.cell(new_row1 as int, new_col1 as int) as int == letter_index(sq[i]));
            assert(self.cell(new_row2 as int, new_col2 as int) as int == letter_index(sq[j]));
        }
        let c1 = letter_from_index(self.matrix[new_row1][new_col1], false);
        let c2 = letter_from_index(self.matrix[new_row2][new_col2], false);
        let mut out = String::new();
        push_char(&mut out, c1);
        push_char(&mut out, c2);
        proof {
            assert(out@ =~= pair_image(sq, a, b, encrypt));
        }
        Ok(out)
    }

    /// The images of the pairs of the prepared text, in order.
    fn process_text(&self, text: &str, encrypt: bool) -> (r: Result<String, PolygraphiaError>)
        requires
            self.wf(),
        ensures
            r matches Ok(s) && s@ == playfair_text(self.square(), text@, encrypt),
    {
        let prepared = Self::prepare_text(text);
        let ghost p = prepared@;
        let ghost sq = self.square();
        proof {
            lemma_playfair_prepare(text@);
        }
        let n = prepared.unicode_len();
        let mut result = String::new();
        let mut i: usize = 0;
        while i < n
            invariant
                self.wf(),
                sq == self.square(),
                p == prepared@,
                p == playfair_prepare(text@),
                n == p.len(),
                n % 2 == 0,
                forall|j: int| 0 <= j < p.len() ==> is_square_letter(#[trigger] p[j]),
                i <= n,
                i % 2 == 0,
                result@ == playfair_pairs(sq, p, (i / 2) as nat, encrypt),
            decreases n - i,
        {
            let a = prepared.get_char(i);
            let b = prepared.get_char(i + 1);
            let mut pair = String::new();
            push_char(&mut pair, a);
            push_char(&mut pair, b);
            proof {
                assert(is_square_letter(a) && is_square_letter(b));
            }
            let out = self.process_pair(pair.as_str(), encrypt)?;
            result.append(out.as_str());
            i += 2;
        }
        Ok(result)
    }

    fn run(&self, text: &str, encrypt: bool) -> (r: Result<String, PolygraphiaError>)
        requires
            self.wf(),
        ensures
            match r {
                Ok(s) => playfair_result(self.square(), text@, encrypt) == Some(s@),
                Err(e) => playfair_result(self.square(), text@, encrypt) is None
                    && e is InvalidInput,
            },
    {
        if text.is_empty() {
            return Err(PolygraphiaError::InvalidInput(String::from_str("Text cannot be empty")));
        }
        if !contains_letter(text) {
            return Err(
                PolygraphiaError::InvalidInput(
                    String::from_str("Text must contain at least one alphabetic character"),
                ),
            );
        }
        self.process_text(text, encrypt)
    }

    /// The square as numbers (`a` being 0), row by row.
    fn generate_matrix(key: &str) -> (r: [[u8; 5]; 5])
        requires
            is_square(key@),
        ensures
            forall|i: int, j: int|
                0 <= i < 5 && 0 <= j < 5 ==> #[trigger] r[i][j] as int == letter_index(
                    key@[i * 5 + j],
                ),
    {
        let mut v: Vec<u8> = Vec::new();
        let mut i: usize = 0;
        while i < 25
            invariant
                is_square(key@),
                i <= 25,
                v@.len() == i,
                forall|j: int| 0 <= j < i ==> #[trigger] v@[j] as int == letter_index(key@[j]),
            decreases 25 - i,
        {
            let c = key.get_char(i);
            assert(is_square_letter(key@[i as int]));
            v.push(index_of_letter(c));
            i += 1;
        }
        [
            [v[0], v[1], v[2], v[3], v[4]],
            [v[5], v[6], v[7], v[8], v[9]],
            [v[10], v[11], v[12], v[13], v[14]],
            [v[15], v[16], v[17], v[18], v[19]],
            [v[20], v[21], v[22], v[23], v[24]],
        ]
    }
}

/// Both directions refuse an empty text and a text without letters, whatever the mode.
pub proof fn lemma_playfair_refuses(p: &Playfair, t: Seq<char>)
    requires
        !has_letter(t),
    ensures
        p.encrypt_spec(t) is None,
        p.decrypt_spec(t) is None,
{
}

impl Drop for Playfair {
    /// Overwrites the key square before the memory is released.
    fn drop(&mut self)
        opens_invariants none
        no_unwind
    {
        self.matrix = [[0, 0, 0, 0, 0], [0, 0, 0, 0, 0], [0, 0, 0, 0, 0], [0, 0, 0, 0, 0], [0, 0, 0, 0, 0]];
    }
}

impl Cipher for Playfair {
    open spec fn well_formed(&self) -> bool {
        self.wf()
    }

    open spec fn encrypt_spec(&self, text: Seq<char>) -> Option<Seq<char>> {
        playfair_result(self.square(), text, true)
    }

    open spec fn decrypt_spec(&self, text: Seq<char>) -> Option<Seq<char>> {
        playfair_result(self.square(), text, false)
    }

    open spec fn name_spec(&self) -> Seq<char> {
        "playfair"@
    }

    fn encrypt(&self, plaintext: &str) -> (r: Result<String, PolygraphiaError>) {
        self.run(plaintext, true)
    }

    fn decrypt(&self, ciphertext: &str) -> (r: Result<String, PolygraphiaError>) {
        self.run(ciphertext, false)
    }

    fn name(&self) -> (r: &str) {
        "playfair"
    }
}

} // verus!
