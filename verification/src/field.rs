//! Arithmetic modulo a fixed modulus.
//!
//! Field elements are `u64` values below the modulus. Every operation is
//! specified over mathematical integers.

use vstd::arithmetic::div_mod::*;
use vstd::prelude::*;

verus! {

/// `x` is the multiplicative inverse of `a` modulo `p`.
pub open spec fn is_inverse(a: int, x: int, p: int) -> bool {
    0 <= x < p && (a * x) % p == 1
}

/// `a` has a multiplicative inverse modulo `p`.
pub open spec fn invertible(a: int, p: int) -> bool {
    exists|x: int| is_inverse(a, x, p)
}

/// The multiplicative inverse of `a` modulo `p`, where one exists.
pub open spec fn inverse_of(a: int, p: int) -> int {
    choose|x: int| is_inverse(a, x, p)
}

/// `p` has no divisor strictly between 1 and itself.
pub open spec fn is_prime(p: int) -> bool {
    p >= 2 && forall|d: int| 1 < d < p ==> #[trigger] (p % d) != 0
}

/// An element has at most one inverse.
pub proof fn lemma_inverse_unique(a: int, x: int, y: int, p: int)
    requires
        p >= 2,
        is_inverse(a, x, p),
        is_inverse(a, y, p),
    ensures
        x == y,
{
    // x = x * (a * y) = (x * a) * y = y  (mod p)
    lemma_mul_mod_noop_right(x, a * y, p);
    lemma_mul_mod_noop_left(a * x, y, p);
    assert(x * (a * y) == (a * x) * y) by (nonlinear_arith);
    assert(x * 1 == x && 1 * y == y);
    lemma_small_mod(x as nat, p as nat);
    lemma_small_mod(y as nat, p as nat);
}

/// What `inverse_of` denotes is an inverse whenever one exists.
pub proof fn lemma_inverse_of(a: int, x: int, p: int)
    requires
        p >= 2,
        is_inverse(a, x, p),
    ensures
        invertible(a, p),
        inverse_of(a, p) == x,
{
    let y = inverse_of(a, p);
    lemma_inverse_unique(a, x, y, p);
}

/// The greatest common divisor of two numbers is a combination of the
/// two: the lemma returns a common divisor and the coefficients that
/// combine the numbers to it.
proof fn lemma_bezout(a: int, b: int) -> (r: (int, int, int))
    requires
        0 <= a,
        0 <= b,
        a + b > 0,
    ensures
        r.0 > 0,
        a % r.0 == 0,
        b % r.0 == 0,
        r.1 * a + r.2 * b == r.0,
    decreases b,
{
    if b == 0 {
        lemma_mod_self_0(a);
        (a, 1, 0)
    } else {
        lemma_mod_bound(a, b);
        let (g, x, y) = lemma_bezout(b, a % b);
        let q = a / b;
        lemma_fundamental_div_mod(a, b);
        // g divides b and a % b, hence a
        let kb = b / g;
        let kr = (a % b) / g;
        lemma_fundamental_div_mod(b, g);
        lemma_fundamental_div_mod(a % b, g);
        assert(a == g * (q * kb + kr)) by (nonlinear_arith)
            requires
                a == b * q + a % b,
                b == g * kb,
                a % b == g * kr,
        ;
        lemma_mod_multiples_basic(q * kb + kr, g);
        assert((q * kb + kr) * g == g * (q * kb + kr)) by (nonlinear_arith);
        assert(y * a + (x - q * y) * b == g) by (nonlinear_arith)
            requires
                x * b + y * (a % b) == g,
                a == b * q + a % b,
        ;
        (g, y, x - q * y)
    }
}

/// Over a prime modulus every element but zero has an inverse.
pub proof fn lemma_prime_field(a: int, p: int)
    requires
        is_prime(p),
        0 < a < p,
    ensures
        invertible(a, p),
{
    let (g, x, y) = lemma_bezout(a, p);
    // a common divisor of a prime and a smaller number is one
    if g != 1 {
        if g < p {
            assert(p % g != 0);
        } else {
            lemma_fundamental_div_mod(a, g);
            let k = a / g;
            assert(false) by (nonlinear_arith)
                requires
                    a == g * k,
                    0 < a < p,
                    g >= p,
            ;
        }
    }
    let inverse = x % p;
    lemma_mod_bound(x, p);
    lemma_mul_mod_noop_right(a, x, p);
    assert(a * x == p * (-y) + 1) by (nonlinear_arith)
        requires
            x * a + y * p == 1,
    ;
    lemma_mod_multiples_vanish(-y, 1, p);
    lemma_small_mod(1, p as nat);
    assert(is_inverse(a, inverse, p));
}

/// The integers modulo `modulus`, a field when the modulus is prime.
#[derive(Clone, Copy, Debug)]
pub struct Field {
    pub modulus: u64,
}

impl Field {
    /// A usable modulus leaves room for 0 and 1.
    pub open spec fn wf(&self) -> bool {
        self.modulus >= 2
    }

    /// `x` is a reduced representative.
    pub open spec fn has(&self, x: u64) -> bool {
        x < self.modulus
    }

    pub fn new(modulus: u64) -> (r: Option<Field>)
        ensures
            modulus >= 2 ==> r == Some(Field { modulus }),
            modulus < 2 ==> r.is_none(),
    {
        if modulus >= 2 {
            Some(Field { modulus })
        } else {
            None
        }
    }

    pub fn modulus(&self) -> (r: u64)
        ensures
            r == self.modulus,
    {
        self.modulus
    }

    pub fn contains(&self, x: u64) -> (r: bool)
        ensures
            r == self.has(x),
    {
        x < self.modulus
    }

    /// The representative of `x` below the modulus.
    pub fn reduce(&self, x: u64) -> (r: u64)
        requires
            self.wf(),
        ensures
            r == x as int % self.modulus as int,
            self.has(r),
    {
        x % self.modulus
    }

    pub fn add(&self, a: u64, b: u64) -> (r: u64)
        requires
            self.wf(),
            self.has(a),
            self.has(b),
        ensures
            r == (a + b) % self.modulus as int,
            self.has(r),
    {
        let s: u128 = a as u128 + b as u128;
        (s % (self.modulus as u128)) as u64
    }

    pub fn sub(&self, a: u64, b: u64) -> (r: u64)
        requires
            self.wf(),
            self.has(a),
            self.has(b),
        ensures
            r == (a - b) % self.modulus as int,
            self.has(r),
    {
        if a >= b {
            proof {
                lemma_small_mod((a - b) as nat, self.modulus as nat);
            }
            a - b
        } else {
            proof {
                lemma_mod_add_multiples_vanish(a - b, self.modulus as int);
                lemma_small_mod((self.modulus + a - b) as nat, self.modulus as nat);
            }
            self.modulus - (b - a)
        }
    }

    pub fn neg(&self, a: u64) -> (r: u64)
        requires
            self.wf(),
            self.has(a),
        ensures
            r == (-(a as int)) % self.modulus as int,
            self.has(r),
    {
        self.sub(0, a)
    }

    pub fn mul(&self, a: u64, b: u64) -> (r: u64)
        requires
            self.wf(),
            self.has(a),
            self.has(b),
        ensures
            r == (a * b) % self.modulus as int,
            self.has(r),
    {
        assert(a as u128 * b as u128 <= 0xffff_ffff_ffff_ffff * 0xffff_ffff_ffff_ffff)
            by (nonlinear_arith)
            requires
                a <= 0xffff_ffff_ffff_ffff,
                b <= 0xffff_ffff_ffff_ffff,
        ;
        let m: u128 = (a as u128) * (b as u128);
        (m % (self.modulus as u128)) as u64
    }

    /// The multiplicative inverse, by the extended Euclidean algorithm.
    ///
    /// `None` exactly when `a` shares a factor with the modulus; over a
    /// prime modulus that is the case for zero alone.
    pub fn inverse(&self, a: u64) -> (r: Option<u64>)
        requires
            self.wf(),
            self.has(a),
        ensures
            match r {
                Some(x) => is_inverse(a as int, x as int, self.modulus as int),
                None => !invertible(a as int, self.modulus as int),
            },
            is_prime(self.modulus as int) && a != 0 ==> r is Some,
    {
        proof {
            if is_prime(self.modulus as int) && a != 0 {
                lemma_prime_field(a as int, self.modulus as int);
            }
        }
        let p = self.modulus;
        let mut r0: u64 = p;
        let mut r1: u64 = a;
        let mut s0: u64 = 0;
        let mut s1: u64 = 1;
        // s_i * a = r_i + k_i * p, and a, p are combinations of r0, r1
        let ghost mut k0: int = -1;
        let ghost mut k1: int = 0;
        let ghost mut x0: int = 0;
        let ghost mut x1: int = 1;
        let ghost mut y0: int = 1;
        let ghost mut y1: int = 0;
        while r1 != 0
            invariant
                p == self.modulus,
                p >= 2,
                a < p,
                0 < r0 <= p,
                r1 < p,
                s0 < p,
                s1 < p,
                s0 * a == r0 + k0 * p,
                s1 * a == r1 + k1 * p,
                a == x0 * r0 + x1 * r1,
                p == y0 * r0 + y1 * r1,
            decreases r1,
        {
            let q = r0 / r1;
            let r2 = r0 % r1;
            let qm = q % p;
            let t = self.mul(qm, s1);
            let s2 = self.sub(s0, t);
            proof {
                let pi = p as int;
                let jq = (q as int) / pi;
                let jt = (qm * s1) / pi;
                let js = (s0 - t) / pi;
                lemma_fundamental_div_mod(q as int, pi);
                lemma_fundamental_div_mod(qm * s1, pi);
                lemma_fundamental_div_mod(s0 - t, pi);
                lemma_fundamental_div_mod(r0 as int, r1 as int);
                let j = jq * s1 + jt - js;
                assert(s2 == s0 - q * s1 + j * pi) by (nonlinear_arith)
                    requires
                        q == pi * jq + qm,
                        qm * s1 == pi * jt + t,
                        s0 - t == pi * js + s2,
                        j == jq * s1 + jt - js,
                ;
                let k2 = k0 - q * k1 + j * a;
                assert(s2 * a == r2 + k2 * pi) by (nonlinear_arith)
                    requires
                        s2 == s0 - q * s1 + j * pi,
                        s0 * a == r0 + k0 * pi,
                        s1 * a == r1 + k1 * pi,
                        r0 == r1 * q + r2,
                        k2 == k0 - q * k1 + j * a,
                ;
                let x2 = x0 * q + x1;
                let y2 = y0 * q + y1;
                assert(a == x2 * r1 + x0 * r2) by (nonlinear_arith)
                    requires
                        a == x0 * r0 + x1 * r1,
                        r0 == r1 * q + r2,
                        x2 == x0 * q + x1,
                ;
                assert(p == y2 * r1 + y0 * r2) by (nonlinear_arith)
                    requires
                        p == y0 * r0 + y1 * r1,
                        r0 == r1 * q + r2,
                        y2 == y0 * q + y1,
                ;
                k0 = k1;
                k1 = k2;
                x1 = x0;
                x0 = x2;
                y1 = y0;
                y0 = y2;
            }
            r0 = r1;
            s0 = s1;
            r1 = r2;
            s1 = s2;
        }
        if r0 == 1 {
            proof {
                let pi = p as int;
                lemma_mod_multiples_vanish(k0, 1, pi);
                lemma_small_mod(1, pi as nat);
                assert(a * s0 == pi * k0 + 1) by (nonlinear_arith)
                    requires
                        s0 * a == 1 + k0 * pi,
                ;
            }
            Some(s0)
        } else {
            proof {
                let pi = p as int;
                let g = r0 as int;
                assert(a == x0 * g) by (nonlinear_arith)
                    requires
                        a == x0 * g + x1 * r1,
                        r1 == 0,
                ;
                assert(pi == y0 * g) by (nonlinear_arith)
                    requires
                        pi == y0 * g + y1 * r1,
                        r1 == 0,
                ;
                assert forall|x: int| !is_inverse(a as int, x, pi) by {
                    if is_inverse(a as int, x, pi) {
                        let m = (a * x) / pi;
                        lemma_fundamental_div_mod(a * x, pi);
                        assert(g * (x0 * x - m * y0) == 1) by (nonlinear_arith)
                            requires
                                a * x == pi * m + 1,
                                a == x0 * g,
                                pi == y0 * g,
                        ;
                        assert(false) by (nonlinear_arith)
                            requires
                                g >= 2,
                                g * (x0 * x - m * y0) == 1,
                        ;
                    }
                }
            }
            None
        }
    }

    /// `a / b`, that is `a` times the inverse of `b`.
    pub fn div(&self, a: u64, b: u64) -> (r: Option<u64>)
        requires
            self.wf(),
            self.has(a),
            self.has(b),
        ensures
            match r {
                Some(q) => invertible(b as int, self.modulus as int) && q == (a * inverse_of(
                    b as int,
                    self.modulus as int,
                )) % self.modulus as int,
                None => !invertible(b as int, self.modulus as int),
            },
            is_prime(self.modulus as int) && b != 0 ==> r is Some,
    {
        match self.inverse(b) {
            Some(x) => {
                proof {
                    lemma_inverse_of(b as int, x as int, self.modulus as int);
                }
                Some(self.mul(a, x))
            },
            None => None,
        }
    }
}

} // verus!
