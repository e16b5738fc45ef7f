use vstd::prelude::*;
use vstd::arithmetic::div_mod::{
    lemma_basic_div, lemma_div_by_self, lemma_div_decreases, lemma_div_nonincreasing, lemma_fundamental_div_mod, lemma_mod_multiples_basic,
    lemma_small_mod,
};

verus! {

pub open spec fn abs(x: int) -> int {
    if x < 0 {
        -x
    } else {
        x
    }
}

/// The remainder of integer division truncated toward zero: its sign is the
/// sign of the dividend.
pub open spec fn rem_trunc(p: int, q: int) -> int {
    if p >= 0 {
        p % abs(q)
    } else {
        -((-p) % abs(q))
    }
}

/// Integer division truncated toward zero.
pub open spec fn div_trunc(x: int, y: int) -> int {
    if (x >= 0) == (y >= 0) {
        abs(x) / abs(y)
    } else {
        -(abs(x) / abs(y))
    }
}

/// Euclid's algorithm on integers, with the truncating remainder.
pub open spec fn euclid(p: int, q: int) -> int
    decreases abs(q),
{
    if q == 0 {
        p
    } else {
        euclid(q, rem_trunc(p, q))
    }
}

/// For non-negative arguments, not both zero, Euclid's algorithm yields a
/// positive common divisor.
pub proof fn lemma_euclid_divides(p: int, q: int)
    requires
        p >= 0,
        q >= 0,
        p > 0 || q > 0,
    ensures
        euclid(p, q) > 0,
        p % euclid(p, q) == 0,
        q % euclid(p, q) == 0,
    decreases q,
{
    if q == 0 {
        lemma_mod_multiples_basic(0, p);
        lemma_mod_multiples_basic(1, p);
    } else {
        let r = p % q;
        lemma_euclid_divides(q, r);
        let g = euclid(q, r);
        lemma_fundamental_div_mod(p, q);
        lemma_fundamental_div_mod(q, g);
        lemma_fundamental_div_mod(r, g);
        let k = (q / g) * (p / q) + r / g;
        assert(p == k * g) by (nonlinear_arith)
            requires
                p == q * (p / q) + r,
                q == g * (q / g) + q % g,
                r == g * (r / g) + r % g,
                q % g == 0,
                r % g == 0,
                k == (q / g) * (p / q) + r / g,
        ;
        lemma_mod_multiples_basic(k, g);
    }
}

/// Euclid's greatest common divisor (GCD) algorithm.
pub fn gcd(p: i64, q: i64) -> (r: i64)
    requires
        !(p == i64::MIN && q == -1),
        !(p == -1 && q == i64::MIN),
    ensures
        r == euclid(p as int, q as int),
{
    let mut a = p;
    let mut b = q;
    while b != 0
        invariant
            euclid(a as int, b as int) == euclid(p as int, q as int),
            !(a == i64::MIN && b == -1),
            !(a == -1 && b == i64::MIN),
        decreases abs(b as int),
    {
        // The remainder takes the sign of the dividend, so dividing by the
        // magnitude of `b` gives the same value as `a % b`.
        let r: i64 = if b > 0 {
            a % b
        } else if b > i64::MIN {
            a % (-b)
        } else if a == i64::MIN {
            0
        } else {
            a
        };
        proof {
            if b == i64::MIN {
                let m: nat = 0x8000_0000_0000_0000;
                if a >= 0 {
                    lemma_small_mod(a as nat, m);
                } else if a > i64::MIN {
                    lemma_small_mod((-a) as nat, m);
                } else {
                    lemma_mod_multiples_basic(1, m as int);
                }
            }
        }
        assert(r as int == rem_trunc(a as int, b as int));
        a = b;
        b = r;
    }
    a
}

/// The product divided by the greatest common divisor.
pub open spec fn lcm_of(p: int, q: int) -> int {
    div_trunc(p * q, euclid(p, q))
}

/// Returns the least common multiple (LCM) of `p` and `q`.
pub fn lcm(p: i64, q: i64) -> (r: i64)
    requires
        !(p == i64::MIN && q == -1),
        !(p == -1 && q == i64::MIN),
        euclid(p as int, q as int) != 0,
        i64::MIN <= p * q <= i64::MAX,
        !(p * q == i64::MIN && euclid(p as int, q as int) == -1),
    ensures
        r == lcm_of(p as int, q as int),
{
    let g = gcd(p, q);
    let m = p * q;
    if g > 0 {
        m / g
    } else if g > i64::MIN {
        proof {
            if m < 0 {
                if g == -1 {
                    lemma_div_nonincreasing(-m, 1);
                } else {
                    lemma_div_decreases(-m, -g);
                }
            }
        }
        -(m / (-g))
    } else if m == i64::MIN {
        proof {
            lemma_div_by_self(0x8000_0000_0000_0000);
        }
        1
    } else {
        proof {
            lemma_basic_div(abs(m as int), 0x8000_0000_0000_0000);
        }
        0
    }
}

/// For positive `a` and `b`, the greatest common divisor times the least
/// common multiple is the product.
pub proof fn lemma_gcd_times_lcm(a: int, b: int)
    requires
        a > 0,
        b > 0,
    ensures
        euclid(a, b) * lcm_of(a, b) == a * b,
{
    lemma_euclid_divides(a, b);
    let g = euclid(a, b);
    lemma_fundamental_div_mod(a, g);
    let k = (a / g) * b;
    assert(a * b == k * g) by (nonlinear_arith)
        requires
            a == g * (a / g) + a % g,
            a % g == 0,
            k == (a / g) * b,
    ;
    assert(a * b > 0) by (nonlinear_arith)
        requires
            a > 0,
            b > 0,
    ;
    vstd::arithmetic::div_mod::lemma_div_multiples_vanish(k, g);
    assert(g * k == k * g) by (nonlinear_arith);
}

} // verus!
