use vstd::prelude::*;

use vstd::arithmetic::div_mod::{
    lemma_div_by_multiple, lemma_fundamental_div_mod, lemma_mod_bound, lemma_mod_multiples_basic,
};

use crate::cipher::Cipher;
use crate::error::PolygraphiaError;
use crate::math::gcd_spec;
use crate::matrix::{
    column, det_bound, det_fits, det_spec, dot_prefix, entries_within, inverse_entry,
    inverse_seq, is_inverse_mod, product_fits, Matrix,
};
use crate::mode::TextMode;
use crate::text::{
    all_lower, contains_letter, has_letter, index_of_letter, is_lower, letter_at,
    letter_from_index, letter_index, lower_letters, lowercase_letters, push_char,
};

verus! {

/// The largest key matrix accepted. Past it, the exact determinant of a matrix of
/// letter numbers (up to `n! · 25^n`) would no longer fit in 64 bits.
pub const MAX_KEY_SIZE: usize = 9;

/// The numbers of the letters of `s`, `a` being 0.
pub open spec fn letter_numbers(s: Seq<char>) -> Seq<i32> {
    s.map_values(|c: char| letter_index(c) as i32)
}

/// The lower-case letters numbered by `v`, each number reduced modulo 26.
pub open spec fn number_letters(v: Seq<i32>) -> Seq<char> {
    v.map_values(|x: i32| letter_at(x as int % 26, false))
}

/// How many padding letters bring a length of `len` to a multiple of `n`.
pub open spec fn pad_len(len: nat, n: nat) -> nat {
    if len % n == 0 {
        0
    } else {
        (n - len % n) as nat
    }
}

/// The letters of `s`, lower-cased, padded with `x` to a multiple of `n`.
pub open spec fn hill_prepare(s: Seq<char>, n: nat) -> Seq<char> {
    let clean = lower_letters(s);
    clean + Seq::new(pad_len(clean.len(), n), |i: int| 'x')
}

/// The product of the `n`×`n` matrix `d` with the block `v`, reduced modulo 26.
pub open spec fn hill_block(n: nat, d: Seq<i32>, v: Seq<i32>) -> Seq<i32> {
    Seq::new(n, |row: int| (dot_prefix(n, d, v, row as nat, n) % 26) as i32)
}

/// The first `j` blocks of `v`, each transformed by `d`.
pub open spec fn hill_blocks(n: nat, d: Seq<i32>, v: Seq<i32>, j: nat) -> Seq<i32>
    decreases j,
{
    if j == 0 {
        Seq::empty()
    } else {
        hill_blocks(n, d, v, (j - 1) as nat) + hill_block(
            n,
            d,
            v.subrange((j - 1) * n, (j * n) as int),
        )
    }
}

/// The Hill transformation of `s` by the `n`×`n` matrix `d`.
pub open spec fn hill_text(s: Seq<char>, n: nat, d: Seq<i32>) -> Seq<char> {
    let v = letter_numbers(hill_prepare(s, n));
    number_letters(hill_blocks(n, d, v, v.len() / n))
}

/// The entries of the key matrix made from the key string `key`.
pub open spec fn key_entries(key: Seq<char>) -> Seq<i32> {
    letter_numbers(lower_letters(key))
}

/// `n` is an accepted side for a key of `len` letters.
pub open spec fn is_key_side(len: nat, n: nat) -> bool {
    1 <= n <= MAX_KEY_SIZE && n * n == len
}

/// The `n`×`n` key matrix `d` is usable: its determinant is coprime with 26, and the inverse
/// built from its adjugate is a true inverse modulo 26. For sides 1 to 3 the second part
/// follows from the first (`lemma_inverse_seq_is_inverse`).
pub open spec fn key_usable(n: nat, d: Seq<i32>) -> bool {
    &&& gcd_spec((det_spec(n, d) % 26) as nat, 26) == 1
    &&& is_inverse_mod(n, d, inverse_seq(n, d, 26), 26)
}

/// What a Hill transformation by `d` gives on `s`: `None` for a text without letters.
pub open spec fn hill_result(s: Seq<char>, n: nat, d: Seq<i32>) -> Option<Seq<char>> {
    if s.len() == 0 || !has_letter(s) {
        None
    } else {
        Some(hill_text(s, n, d))
    }
}

proof fn lemma_letter_numbers_range(s: Seq<char>)
    requires
        all_lower(s),
    ensures
        forall|i: int|
            0 <= i < s.len() ==> 0 <= #[trigger] letter_numbers(s)[i] < 26,
{
    assert forall|i: int| 0 <= i < s.len() implies 0 <= #[trigger] letter_numbers(s)[i] < 26 by {
        assert(is_lower(s[i]));
    }
}

proof fn lemma_det_bound_up_to(n: nat, m: nat, b: int)
    requires
        n <= m,
        b >= 1,
    ensures
        det_bound(n, b) <= det_bound(m, b),
    decreases m - n,
{
    if n < m {
        lemma_det_bound_up_to(n, (m - 1) as nat, b);
        crate::matrix::lemma_det_bound_grows(m, b);
    }
}

/// A matrix of letter numbers of side at most `MAX_KEY_SIZE` has a determinant that fits.
proof fn lemma_key_det_fits(n: nat, d: Seq<i32>)
    requires
        1 <= n <= MAX_KEY_SIZE,
        d.len() == n * n,
        forall|i: int| 0 <= i < d.len() ==> 0 <= #[trigger] d[i] < 26,
    ensures
        det_fits(n, d),
{
    assert(det_bound(0, 25) == 1);
    assert(det_bound(1, 25) == 25);
    assert(det_bound(2, 25) == 1250);
    assert(det_bound(3, 25) == 93750);
    assert(det_bound(4, 25) == 9375000);
    assert(det_bound(5, 25) == 1171875000);
    assert(det_bound(6, 25) == 175781250000);
    assert(det_bound(7, 25) == 30761718750000);
    assert(det_bound(8, 25) == 6152343750000000);
    assert(det_bound(9, 25) == 1384277343750000000);
    lemma_det_bound_up_to(n, 9, 25);
    assert(entries_within(d, 25));
    assert(det_bound(n, 25) <= i64::MAX);
}

/// Sums of products of numbers below 26 stay below `k · 625`.
proof fn lemma_dot_bound(n: nat, d: Seq<i32>, v: Seq<i32>, row: nat, k: nat)
    requires
        row < n,
        k <= n,
        d.len() == n * n,
        v.len() == n,
        forall|i: int| 0 <= i < d.len() ==> 0 <= #[trigger] d[i] < 26,
        forall|i: int| 0 <= i < v.len() ==> 0 <= #[trigger] v[i] < 26,
    ensures
        0 <= dot_prefix(n, d, v, row, k) <= k * 625,
    decreases k,
{
    if k > 0 {
        lemma_dot_bound(n, d, v, row, (k - 1) as nat);
        assert(row * n + k - 1 < n * n) by (nonlinear_arith)
            requires
                row < n,
                k <= n,
                k >= 1,
        ;
        let x = d[row * n + k - 1];
        let y = v[k - 1];
        assert(0 <= x * y <= 625) by (nonlinear_arith)
            requires
                0 <= x < 26,
                0 <= y < 26,
        ;
    }
}

proof fn lemma_product_fits(n: nat, d: Seq<i32>, v: Seq<i32>)
    requires
        n <= MAX_KEY_SIZE,
        d.len() == n * n,
        v.len() == n,
        forall|i: int| 0 <= i < d.len() ==> 0 <= #[trigger] d[i] < 26,
        forall|i: int| 0 <= i < v.len() ==> 0 <= #[trigger] v[i] < 26,
    ensures
        product_fits(n, d, v),
{
    assert forall|row: nat, k: nat| row < n && k <= n implies i32::MIN <= #[trigger] dot_prefix(
        n,
        d,
        v,
        row,
        k,
    ) <= i32::MAX by {
        lemma_dot_bound(n, d, v, row, k);
    }
}

/// The numbers of the letters of a lower-case text.
fn text_to_vector(text: &str) -> (r: Vec<i32>)
    requires
        all_lower(text@),
    ensures
        r@ == letter_numbers(text@),
        forall|i: int| 0 <= i < r@.len() ==> 0 <= #[trigger] r@[i] < 26,
{
    let n = text.unicode_len();
    let mut v: Vec<i32> = Vec::new();
    let mut i: usize = 0;
    while i < n
        invariant
            n == text@.len(),
            all_lower(text@),
            i <= n,
            v@ =~= letter_numbers(text@).subrange(0, i as int),
        decreases n - i,
    {
        let c = text.get_char(i);
        assert(is_lower(text@[i as int]));
        v.push(index_of_letter(c) as i32);
        i += 1;
    }
    proof {
        lemma_letter_numbers_range(text@);
    }
    v
}

/// The lower-case letters numbered by `vector`, reduced modulo 26.
fn vector_to_text(vector: &[i32]) -> (r: String)
    ensures
        r@ == number_letters(vector@),
{
    let n = vector.len();
    let mut out = String::new();
    let mut i: usize = 0;
    while i < n
        invariant
            n == vector@.len(),
            i <= n,
            out@ =~= number_letters(vector@).subrange(0, i as int),
        decreases n - i,
    {
        let x = vector[i];
        proof {
            lemma_mod_bound(x as int, 26);
        }
        let val: i32 = match x.checked_rem_euclid(26) {
            Some(v) => v,
            None => 0,
        };
        push_char(&mut out, letter_from_index(val as u8, false));
        i += 1;
    }
    out
}

/// Whether `inv` is an inverse of `key` modulo 26, checked entry by entry of the product.
fn is_inverse_mod_26(key: &Matrix, inv: &Matrix) -> (r: bool)
    requires
        key.wf(),
        inv.wf(),
        key.dim() == inv.dim(),
        key.dim() <= MAX_KEY_SIZE,
        forall|i: int| 0 <= i < key.entries().len() ==> 0 <= #[trigger] key.entries()[i] < 26,
        forall|i: int| 0 <= i < inv.entries().len() ==> 0 <= #[trigger] inv.entries()[i] < 26,
    ensures
        r == is_inverse_mod(key.dim(), key.entries(), inv.entries(), 26),
{
    let n = key.size();
    let ghost kd = key.entries();
    let ghost id = inv.entries();
    let mut c: usize = 0;
    while c < n
        invariant
            key.wf(),
            inv.wf(),
            n == key.dim(),
            n == inv.dim(),
            n <= MAX_KEY_SIZE,
            kd == key.entries(),
            id == inv.entries(),
            forall|i: int| 0 <= i < kd.len() ==> 0 <= #[trigger] kd[i] < 26,
            forall|i: int| 0 <= i < id.len() ==> 0 <= #[trigger] id[i] < 26,
            c <= n,
            forall|r2: int, c2: int|
                0 <= r2 < n && 0 <= c2 < c ==> #[trigger] (dot_prefix(
                    n as nat,
                    kd,
                    column(n as nat, id, c2),
                    r2 as nat,
                    n as nat,
                ) % 26) == (if r2 == c2 {
                    1int
                } else {
                    0int
                }),
        decreases n - c,
    {
        let mut col: Vec<i32> = Vec::new();
        let mut j: usize = 0;
        while j < n
            invariant
                inv.wf(),
                n == inv.dim(),
                id == inv.entries(),
                c < n,
                j <= n,
                col@ =~= column(n as nat, id, c as int).subrange(0, j as int),
            decreases n - j,
        {
            col.push(inv.get(j, c));
            j += 1;
        }
        proof {
            assert(col@ =~= column(n as nat, id, c as int));
            assert forall|i: int| 0 <= i < col@.len() implies 0 <= #[trigger] col@[i] < 26 by {
                assert(i * n + c < n * n) by (nonlinear_arith)
                    requires
                        0 <= i < n,
                        c < n,
                ;
                assert(col@[i] == id[i * n + c]);
            }
            lemma_product_fits(n as nat, kd, col@);
        }
        let prod = key.multiply_vector(col.as_slice());
        let mut r: usize = 0;
        while r < n
            invariant
                n == key.dim(),
                n == inv.dim(),
                kd == key.entries(),
                id == inv.entries(),
                c < n,
                r <= n,
                col@ == column(n as nat, id, c as int),
                prod@.len() == n,
                forall|r3: int|
                    0 <= r3 < n ==> #[trigger] prod@[r3] == dot_prefix(
                        n as nat,
                        kd,
                        col@,
                        r3 as nat,
                        n as nat,
                    ),
                forall|r2: int, c2: int|
                    0 <= r2 < n && 0 <= c2 < c ==> #[trigger] (dot_prefix(
                        n as nat,
                        kd,
                        column(n as nat, id, c2),
                        r2 as nat,
                        n as nat,
                    ) % 26) == (if r2 == c2 {
                        1int
                    } else {
                        0int
                    }),
                forall|r2: int|
                    0 <= r2 < r ==> #[trigger] (dot_prefix(
                        n as nat,
                        kd,
                        column(n as nat, id, c as int),
                        r2 as nat,
                        n as nat,
                    ) % 26) == (if r2 == c {
                        1int
                    } else {
                        0int
                    }),
            decreases n - r,
        {
            let x = prod[r];
            proof {
                lemma_mod_bound(x as int, 26);
            }
            let got: i32 = match x.checked_rem_euclid(26) {
                Some(y) => y,
                None => -1,
            };
            let want: i32 = if r == c {
                1
            } else {
                0
            };
            if got != want {
                proof {
                    let ri = r as int;
                    let ci = c as int;
                    assert(x == prod@[ri]);
                    assert(x as int == dot_prefix(n as nat, kd, col@, ri as nat, n as nat));
                    assert(got as int == (x as int) % 26);
                    assert(got as int != (if ri == ci {
                        1int
                    } else {
                        0int
                    }));
                    assert(col@ == column(n as nat, id, ci));
                    assert((dot_prefix(n as nat, kd, column(n as nat, id, ci), ri as nat, n as nat)
                        % 26) != (if ri == ci {
                        1int
                    } else {
                        0int
                    }));
                    assert(0 <= ri < n && 0 <= ci < n);
                    assert(!is_inverse_mod(n as nat, kd, id, 26));
                }
                assert(!is_inverse_mod(key.dim(), key.entries(), inv.entries(), 26));
                return false;
            }
            r += 1;
        }
        c += 1;
    }
    true
}

/// The Hill cipher: blocks of letters are multiplied by a key matrix modulo 26.
#[derive(Debug, Clone)]
pub struct Hill {
    key: Matrix,
    inv_key: Matrix,
    key_size: usize,
    mode: TextMode,
}

impl Hill {
    pub closed spec fn key_matrix(&self) -> Matrix {
        self.key
    }

    pub closed spec fn inv_matrix(&self) -> Matrix {
        self.inv_key
    }

    pub closed spec fn side(&self) -> nat {
        self.key_size as nat
    }

    pub closed spec fn text_mode(&self) -> TextMode {
        self.mode
    }

    /// The key is an invertible matrix of letter numbers, and the inverse matrix is its
    /// inverse modulo 26.
    pub open spec fn wf(&self) -> bool {
        let n = self.side();
        let k = self.key_matrix();
        let inv = self.inv_matrix();
        &&& 1 <= n <= MAX_KEY_SIZE
        &&& k.wf() && inv.wf()
        &&& k.dim() == n && inv.dim() == n
        &&& forall|i: int| 0 <= i < k.entries().len() ==> 0 <= #[trigger] k.entries()[i] < 26
        &&& forall|i: int|
            0 <= i < inv.entries().len() ==> 0 <= #[trigger] inv.entries()[i] < 26
        &&& gcd_spec((det_spec(n, k.entries()) % 26) as nat, 26) == 1
        &&& is_inverse_mod(n, k.entries(), inv.entries(), 26)
        &&& forall|i: int|
            0 <= i < inv.entries().len() ==> #[trigger] inv.entries()[i] == inverse_entry(
                n,
                k.entries(),
                26,
                i,
            )
    }

    /// A cipher keyed by the letters of `key`, in the default mode.
    pub fn new(key: &str) -> (r: Result<Hill, PolygraphiaError>)
        ensures
            match r {
                Ok(h) => {
                    &&& h.wf()
                    &&& h.key_matrix().entries() == key_entries(key@)
                    &&& is_key_side(key_entries(key@).len(), h.side())
                    &&& h.text_mode() == TextMode::PreserveAll
                },
                Err(e) => {
                    &&& e is InvalidKey
                    &&& forall|n: nat|
                        #[trigger] is_key_side(key_entries(key@).len(), n) ==> !key_usable(
                            n,
                            key_entries(key@),
                        )
                },
            },
    {
        Self::with_mode(key, TextMode::PreserveAll)
    }

    /// A cipher keyed by the letters of `key`, lower-cased and read row by row into a
    /// square matrix, in `mode`. `InvalidKey` where their number is not the square of a
    /// side up to `MAX_KEY_SIZE`, or where the matrix is not invertible modulo 26. From
    /// side 4 on, the inverse is checked against the key before it is accepted.
    pub fn with_mode(key: &str, mode: TextMode) -> (r: Result<Hill, PolygraphiaError>)
        ensures
            match r {
                Ok(h) => {
                    &&& h.wf()
                    &&& h.key_matrix().entries() == key_entries(key@)
                    &&& is_key_side(key_entries(key@).len(), h.side())
                    &&& h.text_mode() == mode
                },
                Err(e) => {
                    &&& e is InvalidKey
                    &&& forall|n: nat|
                        #[trigger] is_key_side(key_entries(key@).len(), n) ==> !key_usable(
                            n,
                            key_entries(key@),
                        )
                },
            },
    {
        let (key_matrix, inv_key_matrix, key_size) = Self::prepare_key(key)?;
        Ok(Hill { key: key_matrix, inv_key: inv_key_matrix, key_size, mode })
    }

    pub fn key(&self) -> (r: &Matrix)
        ensures
            *r == self.key_matrix(),
    {
        &self.key
    }

    pub fn inv_key(&self) -> (r: &Matrix)
        ensures
            *r == self.inv_matrix(),
    {
        &self.inv_key
    }

    pub fn key_size(&self) -> (r: usize)
        ensures
            r == self.side(),
    {
        self.key_size
    }

    pub fn mode(&self) -> (r: TextMode)
        ensures
            r == self.text_mode(),
    {
        self.mode
    }

    /// Re-keys the cipher as `with_mode` would; on `InvalidKey` the cipher is unchanged.
    pub fn set_key(&mut self, key: &str) -> (r: Result<(), PolygraphiaError>)
        ensures
            match r {
                Ok(_) => {
                    &&& final(self).wf()
                    &&& final(self).key_matrix().entries() == key_entries(key@)
                    &&& is_key_side(key_entries(key@).len(), final(self).side())
                    &&& final(self).text_mode() == old(self).text_mode()
                },
                Err(e) => {
                    &&& e is InvalidKey
                    &&& *final(self) == *old(self)
                    &&& forall|n: nat|
                        #[trigger] is_key_side(key_entries(key@).len(), n) ==> !key_usable(
                            n,
                            key_entries(key@),
                        )
                },
            },
    {
        let (key_matrix, inv_key_matrix, key_size) = Self::prepare_key(key)?;
        self.key = key_matrix;
        self.inv_key = inv_key_matrix;
        self.key_size = key_size;
        Ok(())
    }

    pub fn set_mode(&mut self, mode: TextMode)
        ensures
            old(self).wf() ==> final(self).wf(),
            final(self).key_matrix() == old(self).key_matrix(),
            final(self).inv_matrix() == old(self).inv_matrix(),
            final(self).side() == old(self).side(),
            final(self).text_mode() == mode,
    {
        self.mode = mode;
    }

    /// The letters of `text`, lower-cased and padded with `x` to a multiple of the side.
    fn prepare_text(&self, text: &str) -> (r: String)
        requires
            self.wf(),
        ensures
            r@ == hill_prepare(text@, self.side()),
            all_lower(r@),
            r@.len() % self.side() == 0,
    {
        let n = self.key_size;
        let mut clean = lowercase_letters(text);
        let len = clean.unicode_len();
        let remainder = len % n;
        let ghost base = clean@;
        let mut padded: usize = 0;
        let padding = if remainder != 0 {
            n - remainder
        } else {
            0
        };
        while padded < padding
            invariant
                padded <= padding,
                padding == pad_len(base.len(), n as nat),
                all_lower(base),
                clean@ =~= base + Seq::new(padded as nat, |i: int| 'x'),
            decreases padding - padded,
        {
            push_char(&mut clean, 'x');
            padded += 1;
        }
        proof {
            assert(clean@ =~= hill_prepare(text@, n as nat));
            let q = len as int / n as int;
            let rr = len as int % n as int;
            lemma_fundamental_div_mod(len as int, n as int);
            if rr == 0 {
                assert(clean@.len() == len);
            } else {
                assert(len + (n - rr) == (q + 1) * n) by (nonlinear_arith)
                    requires
                        len == n * q + rr,
                ;
                lemma_mod_multiples_basic(q + 1, n as int);
            }
        }
        clean
    }

    fn process_text(&self, text: &str, encrypt: bool) -> (r: String)
        requires
            self.wf(),
        ensures
            r@ == hill_text(
                text@,
                self.side(),
                if encrypt {
                    self.key_matrix().entries()
                } else {
                    self.inv_matrix().entries()
                },
            ),
    {
        let n = self.key_size;
        let prepared = self.prepare_text(text);
        let vector = text_to_vector(prepared.as_str());
        let matrix = if encrypt {
            &self.key
        } else {
            &self.inv_key
        };
        let ghost d = matrix.entries();
        let ghost v = vector@;
        let total = vector.len();
        let ghost q = total as int / n as int;
        proof {
            lemma_fundamental_div_mod(total as int, n as int);
            assert(total == n * q);
            vstd::arithmetic::div_mod::lemma_div_pos_is_pos(total as int, n as int);
        }
        let mut result: Vec<i32> = Vec::new();
        let mut start: usize = 0;
        let ghost mut j: nat = 0;
        while start < total
            invariant
                self.wf(),
                n == self.side(),
                matrix.wf(),
                matrix.dim() == n,
                d == matrix.entries(),
                forall|i: int| 0 <= i < d.len() ==> 0 <= #[trigger] d[i] < 26,
                v == vector@,
                total == v.len(),
                forall|i: int| 0 <= i < v.len() ==> 0 <= #[trigger] v[i] < 26,
                total == n * q,
                q >= 0,
                start == j * n,
                j <= q,
                result@ == hill_blocks(n as nat, d, v, j),
            decreases total - start,
        {
            proof {
                assert(j < q) by (nonlinear_arith)
                    requires
                        j * n < n * q,
                        n >= 1,
                ;
                assert(j * n + n <= n * q && (j + 1) * n == j * n + n) by (nonlinear_arith)
                    requires
                        j < q,
                        n >= 1,
                ;
            }
            let mut chunk: Vec<i32> = Vec::new();
            let mut t: usize = 0;
            while t < n
                invariant
                    start + n <= total,
                    total == v.len(),
                    v == vector@,
                    t <= n,
                    chunk@ =~= v.subrange(start as int, start + t),
                decreases n - t,
            {
                chunk.push(vector[start + t]);
                t += 1;
            }
            proof {
                lemma_product_fits(n as nat, d, chunk@);
            }
            let prod = matrix.multiply_vector(chunk.as_slice());
            let ghost before = result@;
            let mut row: usize = 0;
            while row < n
                invariant
                    n == matrix.dim(),
                    d == matrix.entries(),
                    prod@.len() == n,
                    forall|r: int|
                        0 <= r < n ==> #[trigger] prod@[r] == dot_prefix(
                            n as nat,
                            d,
                            chunk@,
                            r as nat,
                            n as nat,
                        ),
                    row <= n,
                    result@ =~= before + hill_block(n as nat, d, chunk@).subrange(0, row as int),
                decreases n - row,
            {
                let x = prod[row];
                proof {
                    lemma_mod_bound(x as int, 26);
                }
                let reduced: i32 = match x.checked_rem_euclid(26) {
                    Some(y) => y,
                    None => 0,
                };
                result.push(reduced);
                row += 1;
            }
            proof {
                assert(chunk@ == v.subrange((j * n) as int, ((j + 1) * n) as int));
                assert(result@ =~= hill_blocks(n as nat, d, v, j + 1));
            }
            start = start + n;
            proof {
                j = j + 1;
            }
        }
        proof {
            assert(j == q) by (nonlinear_arith)
                requires
                    j * n >= n * q,
                    j <= q,
                    n >= 1,
            ;
            lemma_div_by_multiple(q, n as int);
            assert(v.len() / (n as nat) == q) by {
                assert(n * q == q * n) by (nonlinear_arith);
            }
            assert(v == letter_numbers(hill_prepare(text@, n as nat)));
        }
        vector_to_text(result.as_slice())
    }

    fn run(&self, text: &str, encrypt: bool) -> (r: Result<String, PolygraphiaError>)
        requires
            self.wf(),
        ensures
            match r {
                Ok(s) => hill_result(
                    text@,
                    self.side(),
                    if encrypt {
                        self.key_matrix().entries()
                    } else {
                        self.inv_matrix().entries()
                    },
                ) == Some(s@),
                Err(e) => hill_result(
                    text@,
                    self.side(),
                    if encrypt {
                        self.key_matrix().entries()
                    } else {
                        self.inv_matrix().entries()
                    },
                ) is None && e is InvalidInput,
            },
    {
        if text.is_empty() {
            return Err(PolygraphiaError::InvalidInput(String::from_str("Text cannot be empty")));
        }
        if !contains_letter(text) {
            return Err(
                PolygraphiaError::InvalidInput(
                    String::from_str("Text must contain at least one alphabetic character"),
                ),
            );
        }
        Ok(self.process_text(text, encrypt))
    }

    /// The key matrix, its inverse modulo 26 and its side.
    fn prepare_key(key: &str) -> (r: Result<(Matrix, Matrix, usize), PolygraphiaError>)
        ensures
            match r {
                Ok((k, inv, n)) => {
                    let h = Hill { key: k, inv_key: inv, key_size: n, mode: TextMode::AlphaOnly };
                    &&& h.wf()
                    &&& k.entries() == key_entries(key@)
                    &&& is_key_side(key_entries(key@).len(), n as nat)
                },
                Err(e) => {
                    &&& e is InvalidKey
                    &&& forall|n: nat|
                        #[trigger] is_key_side(key_entries(key@).len(), n) ==> !key_usable(
                            n,
                            key_entries(key@),
                        )
                },
            },
    {
        let clean = lowercase_letters(key);
        let len = clean.unicode_len();
        let mut n: usize = 0;
        while n < MAX_KEY_SIZE && n * n < len
            invariant
                n <= MAX_KEY_SIZE,
                n * n <= MAX_KEY_SIZE * MAX_KEY_SIZE,
                forall|j: nat| j < n ==> #[trigger] (j * j) < len,
            decreases MAX_KEY_SIZE - n,
        {
            assert((n + 1) * (n + 1) <= MAX_KEY_SIZE * MAX_KEY_SIZE) by (nonlinear_arith)
                requires
                    n < MAX_KEY_SIZE,
            ;
            n += 1;
        }
        if n == 0 || n * n != len {
            proof {
                assert forall|m: nat| !(#[trigger] is_key_side(len as nat, m)) by {
                    if is_key_side(len as nat, m) {
                        assert(m * m == len);
                        if m < n {
                            assert(m * m < len);
                        } else if m == n {
                            assert(n != 0);
                        } else {
                            assert(n < MAX_KEY_SIZE);
                            assert(n * n >= len);
                            assert(m * m > n * n) by (nonlinear_arith)
                                requires
                                    m > n,
                            ;
                        }
                    }
                }
            }
            return Err(
                PolygraphiaError::InvalidKey(
                    String::from_str(
                        "Key length must be a perfect square (4, 9, 16, 25, ...) of at most 81 letters",
                    ),
                ),
            );
        }
        let data = text_to_vector(clean.as_str());
        let key_matrix = match Matrix::new(n, data) {
            Ok(m) => m,
            Err(e) => {
                return Err(e);
            },
        };
        proof {
            lemma_key_det_fits(n as nat, key_matrix.entries());
            assert forall|m: nat| #[trigger] is_key_side(len as nat, m) implies m == n by {
                if m < n {
                    assert(m * m < n * n) by (nonlinear_arith)
                        requires
                            m < n,
                    ;
                } else if m > n {
                    assert(m * m > n * n) by (nonlinear_arith)
                        requires
                            m > n,
                    ;
                }
            }
        }
        let inv_key_matrix = Self::validate_key(&key_matrix)?;
        proof {
            assert forall|i: int| 0 <= i < inv_key_matrix.entries().len() implies 0
                <= #[trigger] inv_key_matrix.entries()[i] < 26 by {
                assert(inv_key_matrix.entries()[i] == inverse_entry(
                    n as nat,
                    key_matrix.entries(),
                    26,
                    i,
                ));
                let t = inverse_entry(n as nat, key_matrix.entries(), 26, i);
                lemma_mod_bound(
                    crate::matrix::cofactor(
                        n as nat,
                        key_matrix.entries(),
                        (i % n as int) as nat,
                        (i / n as int) as nat,
                    ) * crate::matrix::inverse_mod(det_spec(n as nat, key_matrix.entries()) % 26, 26),
                    26,
                );
            }
        }
        if n >= 4 && !is_inverse_mod_26(&key_matrix, &inv_key_matrix) {
            return Err(
                PolygraphiaError::InvalidKey(String::from_str("Key matrix has no inverse modulo 26")),
            );
        }
        Ok((key_matrix, inv_key_matrix, n))
    }

    /// The inverse modulo 26 of a key matrix; `InvalidKey` where there is none.
    fn validate_key(matrix: &Matrix) -> (r: Result<Matrix, PolygraphiaError>)
        requires
            matrix.wf(),
            det_fits(matrix.dim(), matrix.entries()),
        ensures
            match r {
                Ok(inv) => {
                    &&& gcd_spec((det_spec(matrix.dim(), matrix.entries()) % 26) as nat, 26) == 1
                    &&& inv.wf()
                    &&& inv.dim() == matrix.dim()
                    &&& forall|k: int|
                        0 <= k < inv.entries().len() ==> #[trigger] inv.entries()[k]
                            == inverse_entry(matrix.dim(), matrix.entries(), 26, k)
                    &&& inv.entries() == inverse_seq(matrix.dim(), matrix.entries(), 26)
                    &&& (1 <= matrix.dim() <= 3 ==> is_inverse_mod(
                        matrix.dim(),
                        matrix.entries(),
                        inv.entries(),
                        26,
                    ))
                },
                Err(e) => {
                    &&& gcd_spec((det_spec(matrix.dim(), matrix.entries()) % 26) as nat, 26) != 1
                    &&& e is InvalidKey
                },
            },
    {
        matrix.mod_inverse(26)
    }
}

/// Both directions refuse an empty text and a text without letters, whatever the mode.
pub proof fn lemma_hill_refuses(h: &Hill, t: Seq<char>)
    requires
        !has_letter(t),
    ensures
        h.encrypt_spec(t) is None,
        h.decrypt_spec(t) is None,
{
}

impl Cipher for Hill {
    open spec fn well_formed(&self) -> bool {
        self.wf()
    }

    open spec fn encrypt_spec(&self, text: Seq<char>) -> Option<Seq<char>> {
        hill_result(text, self.side(), self.key_matrix().entries())
    }

    open spec fn decrypt_spec(&self, text: Seq<char>) -> Option<Seq<char>> {
        hill_result(text, self.side(), self.inv_matrix().entries())
    }

    open spec fn name_spec(&self) -> Seq<char> {
        "hill"@
    }

    fn encrypt(&self, plaintext: &str) -> (r: Result<String, PolygraphiaError>) {
        self.run(plaintext, true)
    }

    fn decrypt(&self, ciphertext: &str) -> (r: Result<String, PolygraphiaError>) {
        self.run(ciphertext, false)
    }

    fn name(&self) -> (r: &str) {
        "hill"
    }
}

} // verus!
