use vstd::prelude::*;

use vstd::arithmetic::div_mod::{lemma_fundamental_div_mod, lemma_mul_mod_noop_right};

use crate::error::PolygraphiaError;

verus! {

/// Greatest common divisor by Euclid's recursion; `gcd(a, 0) == a`.
pub open spec fn gcd_spec(a: nat, b: nat) -> nat
    decreases b,
{
    if b == 0 {
        a
    } else {
        gcd_spec(b, a % b)
    }
}

/// `i` is an inverse of `a` modulo `m`.
pub open spec fn is_mod_inverse(a: int, i: int, m: int) -> bool {
    (a * i) % m == 1
}

pub fn gcd(a: u8, b: u8) -> (r: u8)
    ensures
        r as nat == gcd_spec(a as nat, b as nat),
    decreases b,
{
    if b == 0 {
        a
    } else {
        gcd(b, a % b)
    }
}

pub fn are_coprime(a: u8, b: u8) -> (r: bool)
    ensures
        r == (gcd_spec(a as nat, b as nat) == 1),
{
    gcd(a, b) == 1
}

/// Bezout: the gcd is an integer combination of the two numbers.
pub proof fn lemma_bezout(a: nat, b: nat) -> (xy: (int, int))
    ensures
        a * xy.0 + b * xy.1 == gcd_spec(a, b),
    decreases b,
{
    if b == 0 {
        (1, 0)
    } else {
        let (x, y) = lemma_bezout(b, a % b);
        let q = (a / b) as int;
        let r = (a % b) as int;
        lemma_fundamental_div_mod(a as int, b as int);
        assert(a == b * q + r);
        assert(b * x + r * y == gcd_spec(a, b));
        assert(a * y + b * (x - q * y) == b * x + r * y) by (nonlinear_arith)
            requires
                a == b * q + r,
        ;
        (y, x - q * y)
    }
}

/// Where `a` and `m >= 2` are coprime, `a` has an inverse in `1..m`.
pub proof fn lemma_inverse_exists(a: nat, m: nat)
    requires
        m >= 2,
        gcd_spec(a, m) == 1,
    ensures
        exists|i: int| 1 <= i < m && #[trigger] is_mod_inverse(a as int, i, m as int),
{
    let (x, y) = lemma_bezout(a, m);
    let mi = m as int;
    let i = x % mi;
    assert(a * x + m * y == 1);
    vstd::arithmetic::div_mod::lemma_mod_multiples_vanish(y, a * x, mi);
    assert((mi * y + a * x) % mi == (a * x) % mi);
    assert(mi * y + a * x == 1);
    vstd::arithmetic::div_mod::lemma_small_mod(1, m);
    vstd::arithmetic::div_mod::lemma_mod_bound(x, mi);
    lemma_mul_mod_noop_right(a as int, x, mi);
    assert((a * i) % mi == 1);
    if i == 0 {
        assert(a * i == 0) by (nonlinear_arith)
            requires
                i == 0,
        ;
        vstd::arithmetic::div_mod::lemma_small_mod(0, m);
        assert(false);
    }
    assert(is_mod_inverse(a as int, i, m as int));
}

/// The least `i` in `1..m` with `a * i ≡ 1 (mod m)`, which exists exactly when `a` and `m`
/// are coprime and `m >= 2`; otherwise an `InvalidInput` error.
pub fn mod_inverse(a: u8, m: u8) -> (r: Result<u8, PolygraphiaError>)
    ensures
        match r {
            Ok(i) => {
                &&& gcd_spec(a as nat, m as nat) == 1
                &&& 1 <= i < m
                &&& is_mod_inverse(a as int, i as int, m as int)
                &&& forall|j: int| 1 <= j < i ==> !is_mod_inverse(a as int, j, m as int)
            },
            Err(e) => {
                &&& e is InvalidInput
                &&& (gcd_spec(a as nat, m as nat) != 1 || m < 2)
            },
        },
{
    if !are_coprime(a, m) {
        return Err(
            PolygraphiaError::InvalidInput(
                String::from_str("Modular inverse does not exist (not coprime)"),
            ),
        );
    }
    let mut i: u8 = 1;
    while i < m
        invariant
            1 <= i,
            i <= m || m == 0,
            gcd_spec(a as nat, m as nat) == 1,
            forall|j: int| 1 <= j < i ==> !is_mod_inverse(a as int, j, m as int),
        decreases m - i,
    {
        assert((a as u16) * (i as u16) <= 65025) by (nonlinear_arith)
            requires
                a <= 255u8,
                i <= 255u8,
        ;
        if ((a as u16) * (i as u16)) % (m as u16) == 1 {
            return Ok(i);
        }
        i += 1;
    }
    proof {
        if m >= 2 {
            lemma_inverse_exists(a as nat, m as nat);
            let w = choose|w: int| 1 <= w < m && #[trigger] is_mod_inverse(a as int, w, m as int);
            assert(!is_mod_inverse(a as int, w, m as int));
        }
    }
    Err(PolygraphiaError::InvalidInput(String::from_str("Failed to compute modular inverse")))
}

} // verus!
