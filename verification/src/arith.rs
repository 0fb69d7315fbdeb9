use vstd::prelude::*;

use crate::errors::UndefinedError;

verus! {

/// Whether a mathematical integer fits the machine word the leaves store.
pub open spec fn fits_i32(x: int) -> bool {
    i32::MIN as int <= x <= i32::MAX as int
}

/// Absolute value of a mathematical integer.
pub open spec fn abs_int(x: int) -> nat {
    if x < 0 {
        (-x) as nat
    } else {
        x as nat
    }
}

/// The magnitude of a machine integer, widened so the extreme value fits.
pub fn abs32(x: i32) -> (a: u64)
    ensures
        a as nat == abs_int(x as int),
{
    if x < 0 {
        (-(x as i64)) as u64
    } else {
        x as u64
    }
}

/// The greatest common divisor, by Euclid's algorithm; `gcd_nat(a, 0) == a`.
pub open spec fn gcd_nat(a: nat, b: nat) -> nat
    decreases b,
{
    if b == 0 {
        a
    } else {
        gcd_nat(b, a % b)
    }
}

/// Euclid's algorithm on unsigned words.
pub fn gcd_u64(a: u64, b: u64) -> (g: u64)
    ensures
        g as nat == gcd_nat(a as nat, b as nat),
{
    let mut x = a;
    let mut y = b;
    while y != 0
        invariant
            gcd_nat(x as nat, y as nat) == gcd_nat(a as nat, b as nat),
        decreases y,
    {
        let r = x % y;
        x = y;
        y = r;
    }
    x
}

/// The greatest common divisor of two numbers, not both zero, is positive.
pub proof fn lemma_gcd_pos(a: nat, b: nat)
    requires
        a > 0 || b > 0,
    ensures
        gcd_nat(a, b) >= 1,
    decreases b,
{
    if b > 0 {
        lemma_gcd_pos(b, a % b);
    }
}

/// The greatest common divisor divides both of its arguments.
pub proof fn lemma_gcd_divides(a: nat, b: nat)
    requires
        a > 0 || b > 0,
    ensures
        a % gcd_nat(a, b) == 0,
        b % gcd_nat(a, b) == 0,
    decreases b,
{
    lemma_gcd_pos(a, b);
    if b == 0 {
        vstd::arithmetic::div_mod::lemma_mod_self_0(a as int);
        assert(gcd_nat(a, b) == a);
        assert(a as int % a as int == 0);
    } else {
        let g = gcd_nat(b, a % b);
        lemma_gcd_pos(b, a % b);
        lemma_gcd_divides(b, a % b);
        // a == b * (a / b) + a % b, and g divides both pieces
        vstd::arithmetic::div_mod::lemma_fundamental_div_mod(a as int, b as int);
        let k1 = b as int / g as int;
        let k2 = (a % b) as int / g as int;
        vstd::arithmetic::div_mod::lemma_fundamental_div_mod(b as int, g as int);
        vstd::arithmetic::div_mod::lemma_fundamental_div_mod((a % b) as int, g as int);
        assert(b as int == g * k1);
        assert((a % b) as int == g * k2);
        let quot = a as int / b as int;
        assert(a as int == (g * k1) * quot + g * k2);
        assert((g * k1) * quot + g * k2 == (k1 * quot + k2) * g) by (nonlinear_arith);
        vstd::arithmetic::div_mod::lemma_mod_multiples_basic(k1 * quot + k2, g as int);
    }
}

/// Every common divisor of two numbers divides their greatest common
/// divisor.
pub proof fn lemma_gcd_greatest(a: nat, b: nat, d: nat)
    requires
        d >= 1,
        a % d == 0,
        b % d == 0,
    ensures
        gcd_nat(a, b) % d == 0,
    decreases b,
{
    if b == 0 {
    } else {
        // d divides a % b because a % b == a - b * (a / b)
        vstd::arithmetic::div_mod::lemma_fundamental_div_mod(a as int, b as int);
        vstd::arithmetic::div_mod::lemma_fundamental_div_mod(a as int, d as int);
        vstd::arithmetic::div_mod::lemma_fundamental_div_mod(b as int, d as int);
        let ka = a as int / d as int;
        let kb = b as int / d as int;
        let quot = a as int / b as int;
        assert(a as int == d * ka);
        assert(b as int == d * kb);
        assert((a % b) as int == d * ka - (d * kb) * quot);
        assert(d * ka - (d * kb) * quot == (ka - kb * quot) * d) by (nonlinear_arith);
        vstd::arithmetic::div_mod::lemma_mod_multiples_basic(ka - kb * quot, d as int);
        assert((a % b) as int % d as int == 0);
        lemma_gcd_greatest(b, a % b, d);
    }
}

/// After dividing both numbers by their greatest common divisor, nothing
/// above one divides both: the pair is coprime.
pub proof fn lemma_gcd_coprime(a: nat, b: nat)
    requires
        a > 0 || b > 0,
    ensures
        gcd_nat(a / gcd_nat(a, b), b / gcd_nat(a, b)) == 1,
{
    let g = gcd_nat(a, b);
    lemma_gcd_pos(a, b);
    lemma_gcd_divides(a, b);
    let a2 = a / g;
    let b2 = b / g;
    vstd::arithmetic::div_mod::lemma_fundamental_div_mod(a as int, g as int);
    vstd::arithmetic::div_mod::lemma_fundamental_div_mod(b as int, g as int);
    assert(a as int == g * a2);
    assert(b as int == g * b2);
    if a2 > 0 || b2 > 0 {
        let d = gcd_nat(a2, b2);
        lemma_gcd_pos(a2, b2);
        if d >= 2 {
            lemma_gcd_divides(a2, b2);
            vstd::arithmetic::div_mod::lemma_fundamental_div_mod(a2 as int, d as int);
            vstd::arithmetic::div_mod::lemma_fundamental_div_mod(b2 as int, d as int);
            let ka = a2 as int / d as int;
            let kb = b2 as int / d as int;
            assert(a as int == g * (d * ka));
            assert(b as int == g * (d * kb));
            assert(g * (d * ka) == ka * (d * g)) by (nonlinear_arith);
            assert(g * (d * kb) == kb * (d * g)) by (nonlinear_arith);
            vstd::arithmetic::div_mod::lemma_mod_multiples_basic(ka, (d * g) as int);
            vstd::arithmetic::div_mod::lemma_mod_multiples_basic(kb, (d * g) as int);
            lemma_gcd_greatest(a, b, d * g);
            // g is a positive multiple of d * g >= 2 * g: impossible
            vstd::arithmetic::div_mod::lemma_fundamental_div_mod(g as int, (d * g) as int);
            let kg = g as int / (d * g) as int;
            assert(g as int == (d * g) * kg);
            assert(d * g >= 2 * g) by (nonlinear_arith)
                requires
                    d >= 2,
                    g >= 1,
            ;
            if kg <= 0 {
                assert((d * g) * kg <= 0) by (nonlinear_arith)
                    requires
                        d * g >= 2,
                        kg <= 0,
                ;
            } else {
                assert((d * g) * kg >= d * g) by (nonlinear_arith)
                    requires
                        d * g >= 2,
                        kg >= 1,
                ;
            }
            assert(false);
        }
    } else {
        assert(a as int == g * a2 && a2 == 0 && b2 == 0);
        assert(g * 0 == 0) by (nonlinear_arith);
        assert(a == 0 && b == 0);
        assert(false);
    }
}

/// The greatest common divisor never exceeds the sum of its arguments.
pub proof fn lemma_gcd_bound(a: nat, b: nat)
    ensures
        gcd_nat(a, b) <= a + b,
    decreases b,
{
    if b != 0 {
        lemma_gcd_bound(b, a % b);
        vstd::arithmetic::div_mod::lemma_mod_decreases(a, b);
    }
}

/// An integer power folded step by step, failing where a step leaves the
/// machine-word range; the exact meaning of the simplifier's `n^m` folds.
pub open spec fn pow_step(base: int, k: nat) -> Result<int, UndefinedError>
    decreases k,
{
    if k == 0 {
        Ok(1)
    } else {
        match pow_step(base, (k - 1) as nat) {
            Ok(p) => {
                let v = p * base;
                if fits_i32(v) {
                    Ok(v)
                } else {
                    Err(UndefinedError::Overflow)
                }
            },
            Err(e) => Err(e),
        }
    }
}

/// Once a power fold fails, every longer fold fails the same way.
pub proof fn lemma_pow_step_err(base: int, j: nat, k: nat)
    requires
        j <= k,
        pow_step(base, j) is Err,
    ensures
        pow_step(base, k) == pow_step(base, j),
    decreases k,
{
    if j < k {
        lemma_pow_step_err(base, j, (k - 1) as nat);
    }
}

/// Folds `base^k` exactly as `pow_step` states it. The base may sit one
/// past the machine word, as the extreme magnitude does.
pub fn pow_fold(base: i64, k: u32) -> (r: Result<i32, UndefinedError>)
    requires
        -0x8000_0000 <= base <= 0x8000_0000,
    ensures
        match r {
            Ok(v) => pow_step(base as int, k as nat) == Ok::<int, UndefinedError>(v as int),
            Err(e) => pow_step(base as int, k as nat) == Err::<int, UndefinedError>(e),
        },
{
    let mut acc: i64 = 1;
    let mut i: u32 = 0;
    while i < k
        invariant
            i <= k,
            -0x8000_0000 <= base <= 0x8000_0000,
            fits_i32(acc as int),
            pow_step(base as int, i as nat) == Ok::<int, UndefinedError>(acc as int),
        decreases k - i,
    {
        proof {
            assert(-0x4000_0000_0000_0000 <= (acc as int) * (base as int)
                <= 0x4000_0000_0000_0000) by (nonlinear_arith)
                requires
                    -0x8000_0000 <= acc as int <= 0x7fff_ffff,
                    -0x8000_0000 <= base as int <= 0x8000_0000,
            ;
        }
        let next: i64 = acc * base;
        if next > i32::MAX as i64 || next < i32::MIN as i64 {
            proof {
                lemma_pow_step_err(base as int, (i + 1) as nat, k as nat);
            }
            return Err(UndefinedError::Overflow);
        }
        acc = next;
        i = i + 1;
    }
    Ok(acc as i32)
}

/// The unbounded integer power.
pub open spec fn pow_int(base: int, k: nat) -> int
    decreases k,
{
    if k == 0 {
        1
    } else {
        base * pow_int(base, (k - 1) as nat)
    }
}

/// A power of a base at least one is at least one.
pub proof fn lemma_pow_int_pos(base: int, k: nat)
    requires
        base >= 1,
    ensures
        pow_int(base, k) >= 1,
    decreases k,
{
    if k > 0 {
        lemma_pow_int_pos(base, (k - 1) as nat);
        assert(base * pow_int(base, (k - 1) as nat) >= 1) by (nonlinear_arith)
            requires
                base >= 1,
                pow_int(base, (k - 1) as nat) >= 1,
        ;
    }
}

/// A power of a base at least two, with positive exponent, is at least the base.
pub proof fn lemma_pow_int_ge_base(base: int, k: nat)
    requires
        base >= 2,
        k >= 1,
    ensures
        pow_int(base, k) >= base,
    decreases k,
{
    if k > 1 {
        lemma_pow_int_ge_base(base, (k - 1) as nat);
        assert(base * pow_int(base, (k - 1) as nat) >= base) by (nonlinear_arith)
            requires
                base >= 2,
                pow_int(base, (k - 1) as nat) >= base,
        ;
    } else {
        assert(pow_int(base, 0) == 1);
    }
}

/// Computes `base^k` when it stays within `limit`, and reports only that it
/// exceeds `limit` otherwise.
pub fn pow_within(base: i64, k: u32, limit: i64) -> (r: Option<i64>)
    requires
        2 <= base <= limit,
        limit <= i32::MAX as i64 + 1,
    ensures
        match r {
            Some(v) => v as int == pow_int(base as int, k as nat) && v <= limit,
            None => pow_int(base as int, k as nat) > limit,
        },
{
    let mut acc: i64 = 1;
    let mut i: u32 = 0;
    while i < k
        invariant
            i <= k,
            1 <= acc <= limit,
            acc as int == pow_int(base as int, i as nat),
            2 <= base <= limit,
            limit <= i32::MAX as i64 + 1,
        decreases k - i,
    {
        proof {
            assert(1 <= (acc as int) * (base as int) <= 0x4000_0000_0000_0000) by (nonlinear_arith)
                requires
                    1 <= acc as int <= 0x8000_0000,
                    2 <= base as int <= 0x8000_0000,
            ;
            assert(pow_int(base as int, (i + 1) as nat) == (base as int) * pow_int(
                base as int,
                i as nat,
            ));
            assert((base as int) * (acc as int) == (acc as int) * (base as int)) by (nonlinear_arith);
        }
        let next = acc * base;
        if next > limit {
            proof {
                lemma_pow_int_grows(base as int, (i + 1) as nat, k as nat);
            }
            return None;
        }
        acc = next;
        i = i + 1;
    }
    Some(acc)
}

/// Divisibility is a property of magnitudes: a positive modulus divides an
/// integer exactly when it divides its absolute value.
pub proof fn lemma_abs_mod(x: int, m: int)
    requires
        m > 0,
    ensures
        (x % m == 0) <==> ((abs_int(x) as int) % m == 0),
{
    if x < 0 {
        if x % m == 0 {
            vstd::arithmetic::div_mod::lemma_fundamental_div_mod(x, m);
            let t = x / m;
            assert(-x == (-t) * m) by (nonlinear_arith)
                requires
                    x == m * t,
            ;
            vstd::arithmetic::div_mod::lemma_mod_multiples_basic(-t, m);
        }
        if (-x) % m == 0 {
            vstd::arithmetic::div_mod::lemma_fundamental_div_mod(-x, m);
            let t = (-x) / m;
            assert(x == (-t) * m) by (nonlinear_arith)
                requires
                    -x == m * t,
            ;
            vstd::arithmetic::div_mod::lemma_mod_multiples_basic(-t, m);
        }
    }
}

/// Where a positive modulus divides an integer, the quotient is the signed
/// quotient of the magnitudes.
pub proof fn lemma_abs_div(x: int, m: int)
    requires
        m > 0,
        x % m == 0,
    ensures
        x / m == (if x < 0 {
            -((abs_int(x) as int) / m)
        } else {
            (abs_int(x) as int) / m
        }),
{
    vstd::arithmetic::div_mod::lemma_fundamental_div_mod(x, m);
    let t = x / m;
    assert(x == m * t);
    if x < 0 {
        assert(-x == m * (-t)) by (nonlinear_arith)
            requires
                x == m * t,
        ;
        vstd::arithmetic::div_mod::lemma_div_multiples_vanish(-t, m);
        assert((m * (-t)) / m == -t);
    }
}

/// The scan for a power of ten: multiply by ten until the running power
/// reaches `n`, counting the steps; the result is the final power and count.
pub open spec fn log_scan(n: int, p: int, k: int) -> (int, int)
    decreases (if p < n { (n - p) as nat } else { 0 }),
{
    if 1 <= p && p < n {
        log_scan(n, p * 10, k + 1)
    } else {
        (p, k)
    }
}

/// The trial-division scan of radical extraction: while some divisor's
/// `q`-th power still divides what is inside the root, divide it out and
/// multiply the divisor into what stands outside.
pub open spec fn radical_scan(inside: int, outside: int, d: int, q: nat) -> (int, int)
    decreases abs_int(inside), (if d <= abs_int(inside) + 1 { abs_int(inside) + 1 - d } else { 0 }),
    via radical_scan_decreases
{
    if 1 <= q && 2 <= d && d <= abs_int(inside) && pow_int(d, q) <= abs_int(inside) {
        let e = pow_int(d, q);
        if inside % e == 0 {
            radical_scan(inside / e, outside * d, d, q)
        } else {
            radical_scan(inside, outside, d + 1, q)
        }
    } else {
        (inside, outside)
    }
}

#[via_fn]
proof fn radical_scan_decreases(inside: int, outside: int, d: int, q: nat) {
    if 1 <= q && 2 <= d && d <= abs_int(inside) && pow_int(d, q) <= abs_int(inside) {
        let e = pow_int(d, q);
        lemma_pow_int_ge_base(d, q);
        if inside % e == 0 {
            vstd::arithmetic::div_mod::lemma_fundamental_div_mod(inside, e);
            let t = inside / e;
            assert(inside == e * t);
            assert(t != 0) by {
                if t == 0 {
                    assert(e * t == 0) by (nonlinear_arith)
                        requires
                            t == 0,
                    ;
                }
            }
            if t > 0 {
                assert(e * t > t) by (nonlinear_arith)
                    requires
                        e >= 2,
                        t >= 1,
                ;
                assert(e * t >= 0) by (nonlinear_arith)
                    requires
                        e >= 2,
                        t >= 1,
                ;
            } else {
                assert(e * t < t) by (nonlinear_arith)
                    requires
                        e >= 2,
                        t <= -1,
                ;
                assert(e * t < 0) by (nonlinear_arith)
                    requires
                        e >= 2,
                        t <= -1,
                ;
            }
            assert(abs_int(inside / e) < abs_int(inside));
        }
    }
}

/// One is absorbed by every power.
pub proof fn lemma_pow_int_one(k: nat)
    ensures
        pow_int(1, k) == 1,
    decreases k,
{
    if k > 0 {
        lemma_pow_int_one((k - 1) as nat);
    }
}

/// Powers distribute over a product of bases.
pub proof fn lemma_pow_int_mul(a: int, b: int, k: nat)
    ensures
        pow_int(a * b, k) == pow_int(a, k) * pow_int(b, k),
    decreases k,
{
    if k > 0 {
        lemma_pow_int_mul(a, b, (k - 1) as nat);
        let pa = pow_int(a, (k - 1) as nat);
        let pb = pow_int(b, (k - 1) as nat);
        assert((a * b) * (pa * pb) == (a * pa) * (b * pb)) by (nonlinear_arith);
    }
}

/// Powers with the same exponent respect the order of their bases.
pub proof fn lemma_pow_int_base_le(a: int, b: int, k: nat)
    requires
        1 <= a <= b,
    ensures
        pow_int(a, k) <= pow_int(b, k),
    decreases k,
{
    if k > 0 {
        lemma_pow_int_base_le(a, b, (k - 1) as nat);
        lemma_pow_int_pos(a, (k - 1) as nat);
        assert(a * pow_int(a, (k - 1) as nat) <= b * pow_int(b, (k - 1) as nat))
            by (nonlinear_arith)
            requires
                1 <= a <= b,
                1 <= pow_int(a, (k - 1) as nat) <= pow_int(b, (k - 1) as nat),
        ;
    }
}

/// A divisor of one factor divides the whole product.
pub proof fn lemma_divides_product(a: int, b: int, c: int)
    requires
        a > 0,
        b % a == 0,
    ensures
        (b * c) % a == 0,
{
    vstd::arithmetic::div_mod::lemma_fundamental_div_mod(b, a);
    let k = b / a;
    assert(b * c == (k * c) * a) by (nonlinear_arith)
        requires
            b == a * k,
    ;
    vstd::arithmetic::div_mod::lemma_mod_multiples_basic(k * c, a);
}

/// With a base at least two the powers never shrink as the exponent grows.
pub proof fn lemma_pow_int_grows(base: int, j: nat, k: nat)
    requires
        base >= 2,
        j <= k,
    ensures
        pow_int(base, k) >= pow_int(base, j),
    decreases k,
{
    if j < k {
        lemma_pow_int_grows(base, j, (k - 1) as nat);
        lemma_pow_int_pos(base, (k - 1) as nat);
        assert(base * pow_int(base, (k - 1) as nat) >= pow_int(base, (k - 1) as nat))
            by (nonlinear_arith)
            requires
                base >= 2,
                pow_int(base, (k - 1) as nat) >= 1,
        ;
    }
}

} // verus!
