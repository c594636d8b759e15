//! Number-theory kernels: Euclid's GCD, Fibonacci numbers, factorial and
//! modular exponentiation by repeated squaring.

use vstd::prelude::*;
use vstd::arithmetic::power::pow;

verus! {

/// Euclid's greatest common divisor.
pub open spec fn gcd(a: nat, b: nat) -> nat
    decreases b,
{
    if b == 0 {
        a
    } else {
        gcd(b, a % b)
    }
}

/// The Fibonacci numbers: `fib(0) = 0`, `fib(1) = 1`.
pub open spec fn fib(n: nat) -> nat
    decreases n,
{
    if n < 2 {
        n
    } else {
        fib((n - 1) as nat) + fib((n - 2) as nat)
    }
}

/// `n!`.
pub open spec fn factorial_spec(n: nat) -> nat
    decreases n,
{
    if n == 0 {
        1
    } else {
        n * factorial_spec((n - 1) as nat)
    }
}

/// GCD by recursive Euclid.
pub fn gcd_recursive(a: u64, b: u64) -> (r: u64)
    ensures
        r == gcd(a as nat, b as nat),
    decreases b,
{
    if b == 0 {
        a
    } else {
        gcd_recursive(b, a % b)
    }
}

/// GCD by iterative Euclid.
pub fn gcd_iterative(a: u64, b: u64) -> (r: u64)
    ensures
        r == gcd(a as nat, b as nat),
{
    let mut a = a;
    let mut b = b;
    let ghost target = gcd(a as nat, b as nat);
    while b != 0
        invariant
            gcd(a as nat, b as nat) == target,
        decreases b,
    {
        let t = a % b;
        a = b;
        b = t;
    }
    a
}

proof fn lemma_fib_monotone(i: nat, j: nat)
    requires
        i <= j,
    ensures
        fib(i) <= fib(j),
    decreases j - i,
{
    if i < j {
        lemma_fib_monotone(i, (j - 1) as nat);
        if j >= 2 {
            assert(fib(j) == fib((j - 1) as nat) + fib((j - 2) as nat));
        }
    }
}

/// Fibonacci by iteration. The loop also forms `fib(n + 1)`, which must fit.
pub fn fib_iterative(n: u32) -> (r: u64)
    requires
        fib(n as nat + 1) <= u64::MAX,
    ensures
        r == fib(n as nat),
{
    let mut a: u64 = 0;
    let mut b: u64 = 1;
    let mut i: u32 = 0;
    while i < n
        invariant
            i <= n,
            fib(n as nat + 1) <= u64::MAX,
            a == fib(i as nat),
            b == fib(i as nat + 1),
        decreases n - i,
    {
        proof {
            lemma_fib_monotone(i as nat + 2, n as nat + 1);
            assert(fib(i as nat + 2) == fib(i as nat + 1) + fib(i as nat));
        }
        let next = a + b;
        a = b;
        b = next;
        i = i + 1;
    }
    a
}

/// Fibonacci by naive recursion.
pub fn fib_recursive(n: u32) -> (r: u64)
    requires
        fib(n as nat) <= u64::MAX,
    ensures
        r == fib(n as nat),
    decreases n,
{
    if n < 2 {
        n as u64
    } else {
        proof {
            lemma_fib_monotone((n - 1) as nat, n as nat);
            lemma_fib_monotone((n - 2) as nat, n as nat);
        }
        fib_recursive(n - 1) + fib_recursive(n - 2)
    }
}

/// `n!`, the product `1 * 2 * ... * n`.
pub fn factorial(n: u64) -> (r: u64)
    requires
        factorial_spec(n as nat) <= u64::MAX,
    ensures
        r == factorial_spec(n as nat),
{
    let mut acc: u64 = 1;
    let mut k: u64 = 0;
    while k < n
        invariant
            k <= n,
            acc == factorial_spec(k as nat),
            factorial_spec(n as nat) <= u64::MAX,
        decreases n - k,
    {
        proof {
            lemma_factorial_monotone((k + 1) as nat, n as nat);
            assert(factorial_spec((k + 1) as nat) == (k + 1) * factorial_spec(k as nat));
        }
        k = k + 1;
        acc = acc * k;
    }
    acc
}

proof fn lemma_factorial_monotone(i: nat, j: nat)
    requires
        i <= j,
    ensures
        1 <= factorial_spec(i) <= factorial_spec(j),
    decreases j,
{
    if j > 0 {
        if i < j {
            lemma_factorial_monotone(i, (j - 1) as nat);
        } else {
            lemma_factorial_monotone((j - 1) as nat, (j - 1) as nat);
        }
        let f = factorial_spec((j - 1) as nat);
        assert(j * f >= f) by (nonlinear_arith)
            requires
                j >= 1,
                f >= 1,
        ;
    }
}


/// One squaring step: consuming the low bit of `e` keeps
/// `r * b^e (mod m)` unchanged.
proof fn lemma_square_step(r: int, b: int, e: nat, m: int)
    requires
        m > 0,
        e > 0,
    ensures
        e % 2 == 1 ==> ((r * b) % m * pow((b * b) % m, e / 2)) % m == (r * pow(b, e)) % m,
        e % 2 == 0 ==> (r * pow((b * b) % m, e / 2)) % m == (r * pow(b, e)) % m,
{
    let k = e / 2;
    let bb = b * b;
    vstd::arithmetic::power::lemma_pow_multiplies(b, 2, k);
    assert(pow(b, 2) == bb) by {
        vstd::arithmetic::power::lemma_pow1(b);
        vstd::arithmetic::power::lemma_pow_adds(b, 1, 1);
    }
    assert(pow(b, 2 * k) == pow(bb, k));
    vstd::arithmetic::power::lemma_pow_mod_noop(bb, k, m);
    let y = pow(bb, k);
    let ym = pow(bb % m, k);
    assert(ym % m == y % m);
    if e % 2 == 1 {
        assert(e == 2 * k + 1);
        vstd::arithmetic::power::lemma_pow_adds(b, 2 * k, 1);
        vstd::arithmetic::power::lemma_pow1(b);
        assert(pow(b, e) == y * b);
        vstd::arithmetic::div_mod::lemma_mul_mod_noop_general(r * b, ym, m);
        vstd::arithmetic::div_mod::lemma_mul_mod_noop_general(r * b, y, m);
        assert((r * b) * y == r * (y * b)) by (nonlinear_arith);
    } else {
        assert(e == 2 * k);
        vstd::arithmetic::div_mod::lemma_mul_mod_noop_general(r, ym, m);
        vstd::arithmetic::div_mod::lemma_mul_mod_noop_general(r, y, m);
    }
}

/// `base^exp mod modulus` by repeated squaring.
pub fn mod_pow(base: u64, exp: u64, modulus: u64) -> (r: u64)
    requires
        modulus > 0,
        (modulus - 1) * (modulus - 1) <= u64::MAX,
    ensures
        r == pow(base as int, exp as nat) % (modulus as int),
{
    if modulus == 1 {
        return 0;
    }
    let ghost m = modulus as int;
    let mut result: u64 = 1;
    let mut b = base % modulus;
    let mut e = exp;
    proof {
        vstd::arithmetic::power::lemma_pow_mod_noop(base as int, exp as nat, m);
        vstd::arithmetic::div_mod::lemma_small_mod(1, modulus as nat);
        vstd::arithmetic::div_mod::lemma_mul_mod_noop_general(1, pow(b as int, e as nat), m);
    }
    while e > 0
        invariant
            m == modulus as int,
            modulus > 1,
            (modulus - 1) * (modulus - 1) <= u64::MAX,
            result < modulus,
            b < modulus,
            (result * pow(b as int, e as nat)) % m == pow(base as int, exp as nat) % m,
        decreases e,
    {
        proof {
            lemma_square_step(result as int, b as int, e as nat, m);
            assert(e & 1 == 1 <==> e % 2 == 1) by (bit_vector);
            assert(e >> 1 == e / 2) by (bit_vector);
            assert(result * b <= (modulus - 1) * (modulus - 1)) by (nonlinear_arith)
                requires
                    result < modulus,
                    b < modulus,
            ;
            assert(b * b <= (modulus - 1) * (modulus - 1)) by (nonlinear_arith)
                requires
                    b < modulus,
            ;
        }
        if e & 1 == 1 {
            result = (result * b) % modulus;
        }
        e = e >> 1;
        b = (b * b) % modulus;
    }
    proof {
        vstd::arithmetic::power::lemma_pow0(b as int);
        vstd::arithmetic::div_mod::lemma_small_mod(result as nat, modulus as nat);
    }
    result
}


/// `d` times `k`.
pub open spec fn times(d: int, k: int) -> int {
    d * k
}

/// `d` divides `n`.
pub open spec fn divides(d: int, n: int) -> bool {
    exists|k: int| n == #[trigger] times(d, k)
}

proof fn lemma_divides_combination(d: int, x: int, y: int, c: int)
    requires
        divides(d, x),
        divides(d, y),
    ensures
        divides(d, x + c * y),
        divides(d, x - c * y),
{
    let kx = choose|k: int| x == #[trigger] times(d, k);
    let ky = choose|k: int| y == #[trigger] times(d, k);
    assert(x + c * y == d * (kx + c * ky)) by (nonlinear_arith)
        requires
            x == d * kx,
            y == d * ky,
    ;
    assert(x - c * y == d * (kx - c * ky)) by (nonlinear_arith)
        requires
            x == d * kx,
            y == d * ky,
    ;
    assert(x + c * y == times(d, kx + c * ky));
    assert(x - c * y == times(d, kx - c * ky));
}

/// Euclid's recursion computes the greatest common divisor: `gcd(a, b)`
/// divides both `a` and `b`, and every common divisor of `a` and `b`
/// divides it.
pub proof fn lemma_gcd_is_greatest_common_divisor(a: nat, b: nat, d: int)
    ensures
        divides(gcd(a, b) as int, a as int),
        divides(gcd(a, b) as int, b as int),
        divides(d, a as int) && divides(d, b as int) ==> divides(d, gcd(a, b) as int),
    decreases b,
{
    if b == 0 {
        assert(a as int == times(a as int, 1));
        assert(0 == times(a as int, 0));
        if divides(d, a as int) {
            let k = choose|k: int| a as int == #[trigger] times(d, k);
            assert(gcd(a, b) as int == times(d, k));
        }
    } else {
        let r = a % b;
        let q = a / b;
        vstd::arithmetic::div_mod::lemma_fundamental_div_mod(a as int, b as int);
        assert(a as int == b * q + r);
        lemma_gcd_is_greatest_common_divisor(b, r, d);
        let g = gcd(b, r) as int;
        assert(gcd(a, b) == gcd(b, r));
        // g divides a = r + q * b.
        lemma_divides_combination(g, r as int, b as int, q as int);
        assert(r as int + q * b == a as int) by (nonlinear_arith)
            requires
                a as int == b * q + r,
        ;
        if divides(d, a as int) && divides(d, b as int) {
            // d divides r = a - q * b.
            lemma_divides_combination(d, a as int, b as int, q as int);
            assert(a as int - q * b == r as int) by (nonlinear_arith)
                requires
                    a as int == b * q + r,
            ;
        }
    }
}

} // verus!
