//! The modulus of the field is prime.
use vstd::arithmetic::div_mod::{
    lemma_fundamental_div_mod, lemma_fundamental_div_mod_converse, lemma_mod_mod,
    lemma_mod_multiples_basic, lemma_mod_multiples_vanish, lemma_mul_mod_noop,
    lemma_mul_mod_noop_left, lemma_small_mod,
};
use vstd::arithmetic::power::{lemma_pow0, lemma_pow1, lemma_pow_adds, pow};
use vstd::arithmetic::power2::{lemma2_to64, lemma_pow2_unfold, pow2};
use vstd::prelude::*;
use vstd::set_lib::{lemma_int_range, lemma_len_subset, set_int_range};

use crate::field::{field, field_mul, MODULUS};

verus! {

/// Whether `n` divides a product only where it divides one of the factors.
pub open spec fn divides_a_factor(n: int) -> bool {
    forall|x: int, y: int|
        #![trigger x * y]
        (x * y) % n == 0 ==> x % n == 0 || y % n == 0
}

/// Two has that property.
proof fn lemma_two()
    ensures
        divides_a_factor(2),
{
    assert forall|x: int, y: int|
        #![trigger x * y]
        (x * y) % 2 == 0 implies x % 2 == 0 || y % 2 == 0 by {
        let (a, b) = (x / 2, y / 2);
        if x % 2 == 1 && y % 2 == 1 {
            assert(x * y == 2 * (2 * (a * b) + a + b) + 1) by (nonlinear_arith)
                requires
                    x == 2 * a + 1,
                    y == 2 * b + 1,
            ;
        }
    }
}

/// A power that is one modulo `n` may be left out of a product.
proof fn lemma_one_drops(b: int, e: nat, f: nat, n: int)
    requires
        n > 1,
        pow(b, e) % n == 1,
    ensures
        pow(b, e + f) % n == pow(b, f) % n,
{
    lemma_pow_adds(b, e, f);
    lemma_mul_mod_noop_left(pow(b, e), pow(b, f), n);
    assert(1 * pow(b, f) == pow(b, f));
}

/// Multiples of an exponent that gives one give one.
proof fn lemma_one_multiple(b: int, e: nat, k: nat, n: int)
    requires
        n > 1,
        pow(b, e) % n == 1,
    ensures
        pow(b, e * k) % n == 1,
    decreases k,
{
    if k == 0 {
        lemma_pow0(b);
        assert(e * 0 == 0);
        lemma_small_mod(1, n as nat);
    } else {
        let j = (k - 1) as nat;
        lemma_one_multiple(b, e, j, n);
        assert(e * k == e + e * j) by (nonlinear_arith)
            requires
                k == j + 1,
        ;
        lemma_one_drops(b, e, e * j, n);
    }
}

/// If two exponents give one, a common divisor of theirs does.
proof fn lemma_common(b: int, e: nat, m: nat, n: int) -> (g: nat)
    requires
        n > 1,
        m > 0,
        pow(b, e) % n == 1,
        pow(b, m) % n == 1,
    ensures
        g > 0,
        e % g == 0,
        m % g == 0,
        pow(b, g) % n == 1,
    decreases e,
{
    if e == 0 {
        lemma_small_mod(0, m);
        assert(m as int == m * 1 + 0);
        lemma_fundamental_div_mod_converse(m as int, m as int, 1, 0);
        m
    } else {
        let (q, r) = (m / e, m % e);
        lemma_fundamental_div_mod(m as int, e as int);
        lemma_one_multiple(b, e, q, n);
        lemma_one_drops(b, e * q, r, n);
        let g = lemma_common(b, r, e, n);
        let (a, c) = (e / g, r / g);
        lemma_fundamental_div_mod(e as int, g as int);
        lemma_fundamental_div_mod(r as int, g as int);
        assert(m == g * (a * q + c)) by (nonlinear_arith)
            requires
                m == e * q + r,
                e == g * a,
                r == g * c,
        ;
        lemma_fundamental_div_mod_converse(m as int, g as int, (a * q + c) as int, 0);
        g
    }
}

/// An odd number that divides a power of two is one.
proof fn lemma_odd_divisor(k: nat, g: nat, s: nat)
    requires
        k % 2 == 1,
        k * g == pow2(s),
    ensures
        k == 1,
    decreases s,
{
    if s == 0 {
        lemma2_to64();
        assert(k == 1) by (nonlinear_arith)
            requires
                k * g == 1,
        ;
    } else {
        lemma_pow2_unfold(s);
        lemma_two();
        assert((k * g) % 2 == 0);
        assert((k as int * g as int) % 2 == 0);
        let h = g / 2;
        assert(g == 2 * h);
        let m = (s - 1) as nat;
        assert(k * h == pow2(m)) by (nonlinear_arith)
            requires
                k * g == 2 * pow2(m),
                g == 2 * h,
        ;
        lemma_odd_divisor(k, h, m);
    }
}

/// If `full` is a power of two times a prime, gives one, and neither half of it nor the prime part
/// of it does, then no smaller exponent does.
proof fn lemma_no_smaller(b: int, s: nat, q: nat, r: int, e: nat)
    requires
        r > 1,
        s > 0,
        q > 1,
        divides_a_factor(q as int),
        pow(b, pow2(s) * q) % r == 1,
        pow(b, (pow2((s - 1) as nat) * q) as nat) % r != 1,
        pow(b, pow2(s)) % r != 1,
        0 < e < pow2(s) * q,
    ensures
        pow(b, e) % r != 1,
{
    if pow(b, e) % r == 1 {
        let full = pow2(s) * q;
        let half = (pow2((s - 1) as nat) * q) as nat;
        lemma_pow2_unfold(s);
        assert(full == 2 * half) by (nonlinear_arith)
            requires
                full == pow2(s) * q,
                half == pow2((s - 1) as nat) * q,
                pow2(s) == 2 * pow2((s - 1) as nat),
        ;
        let g = lemma_common(b, e, full, r);
        let k = full / g;
        lemma_fundamental_div_mod(full as int, g as int);
        lemma_fundamental_div_mod(e as int, g as int);
        assert(full == g * k);
        assert(g <= e) by (nonlinear_arith)
            requires
                e == g * (e / g),
                e > 0,
                g > 0,
        ;
        assert(k > 1) by (nonlinear_arith)
            requires
                full == g * k,
                g < full,
                g > 0,
        ;
        if k % 2 == 0 {
            let j = k / 2;
            assert(half == g * j) by (nonlinear_arith)
                requires
                    2 * half == g * k,
                    k == 2 * j,
            ;
            lemma_one_multiple(b, g, j, r);
        } else if k % q == 0 {
            let j = k / q;
            lemma_fundamental_div_mod(k as int, q as int);
            assert(pow2(s) == g * j) by (nonlinear_arith)
                requires
                    pow2(s) * q == g * k,
                    k == q * j,
                    q > 0,
            ;
            lemma_one_multiple(b, g, j, r);
        } else {
            assert(k as int * g as int == pow2(s) as int * q as int) by (nonlinear_arith)
                requires
                    full == g * k,
                    full == pow2(s) * q,
            ;
            lemma_mod_multiples_basic(pow2(s) as int, q as int);
            assert((k as int * g as int) % (q as int) == 0);
            let h = g / q;
            lemma_fundamental_div_mod(g as int, q as int);
            assert(k * h == pow2(s)) by (nonlinear_arith)
                requires
                    k as int * g as int == pow2(s) as int * q as int,
                    g == q * h,
                    q > 0,
            ;
            lemma_odd_divisor(k, h, s);
        }
    }
}

/// Then all smaller powers are different, so that there are no more of them than residues.
proof fn lemma_powers_distinct(b: int, s: nat, q: nat, r: int)
    requires
        r > 1,
        s > 0,
        q > 1,
        divides_a_factor(q as int),
        pow(b, pow2(s) * q) % r == 1,
        pow(b, (pow2((s - 1) as nat) * q) as nat) % r != 1,
        pow(b, pow2(s)) % r != 1,
    ensures
        pow2(s) * q <= r,
{
    let full = pow2(s) * q;
    let powers = Seq::new(full, |i: int| pow(b, i as nat) % r);
    assert forall|i: int, j: int| 0 <= i < j < full implies powers[i] != powers[j] by {
        if powers[i] == powers[j] {
            let rest = (full - i) as nat;
            let (x, y, z) = (pow(b, i as nat), pow(b, j as nat), pow(b, rest));
            lemma_pow_adds(b, i as nat, rest);
            lemma_pow_adds(b, j as nat, rest);
            lemma_mul_mod_noop_left(x, z, r);
            lemma_mul_mod_noop_left(y, z, r);
            assert(i as nat + rest == full);
            assert(j as nat + rest == full + (j - i) as nat);
            lemma_one_drops(b, full, (j - i) as nat, r);
            lemma_no_smaller(b, s, q, r, (j - i) as nat);
        }
    }
    assert(powers.no_duplicates());
    powers.unique_seq_to_set();
    lemma_int_range(0, r);
    assert forall|x: int| powers.to_set().contains(x) implies set_int_range(0, r).contains(x) by {
        assert(powers.contains(x));
    }
    lemma_len_subset(powers.to_set(), set_int_range(0, r));
}

/// What is known modulo `n` is known modulo a divisor.
proof fn lemma_modulo_divisor(x: int, n: int, r: int)
    requires
        r > 0,
        n > 0,
        n % r == 0,
    ensures
        (x % n) % r == x % r,
{
    let k = n / r;
    lemma_fundamental_div_mod(n, r);
    assert(k > 0) by (nonlinear_arith)
        requires
            n == r * k,
            n > 0,
            r > 0,
    ;
    lemma_mod_mod(x, r, k);
}

/// An exponent whose power differs from one by something invertible does not give one modulo any
/// divisor.
proof fn lemma_not_one(x: int, v: int, n: int, r: int)
    requires
        n > 1,
        r > 1,
        n % r == 0,
        ((x - 1) * v) % n == 1,
    ensures
        x % r != 1,
{
    if x % r == 1 {
        lemma_modulo_divisor((x - 1) * v, n, r);
        lemma_small_mod(1, r as nat);
        let k = x / r;
        lemma_fundamental_div_mod(x, r);
        assert((x - 1) * v == (k * v) * r) by (nonlinear_arith)
            requires
                x == r * k + 1,
        ;
        lemma_mod_multiples_basic(k * v, r);
    }
}

/// A number with such an exponent above its square root has no divisors but one and itself.
proof fn lemma_no_divisors(n: int, b: int, s: nat, q: nat, v_half: int, v_prime: int, r: int)
    requires
        n > 1,
        s > 0,
        q > 1,
        divides_a_factor(q as int),
        pow(b, pow2(s) * q) % n == 1,
        ((pow(b, (pow2((s - 1) as nat) * q) as nat) - 1) * v_half) % n == 1,
        ((pow(b, pow2(s)) - 1) * v_prime) % n == 1,
        (pow2(s) * q) * (pow2(s) * q) > n,
        r > 1,
        n % r == 0,
    ensures
        r == n,
{
    let full = pow2(s) * q;
    let half = (pow2((s - 1) as nat) * q) as nat;
    let k = n / r;
    lemma_fundamental_div_mod(n, r);
    assert(n == r * k);
    lemma_large_divisor(n, b, s, q, v_half, v_prime, r);
    if k > 1 {
        lemma_fundamental_div_mod_converse(n, k, r, 0);
        lemma_large_divisor(n, b, s, q, v_half, v_prime, k);
        assert(full * full <= r * k) by (nonlinear_arith)
            requires
                full <= r,
                full <= k,
                full >= 0,
        ;
    } else {
        assert(k >= 1) by (nonlinear_arith)
            requires
                n == r * k,
                n > 0,
                r > 0,
        ;
        assert(r * 1 == r);
    }
}

/// Every divisor is at least as large as the exponent.
proof fn lemma_large_divisor(n: int, b: int, s: nat, q: nat, v_half: int, v_prime: int, r: int)
    requires
        n > 1,
        s > 0,
        q > 1,
        divides_a_factor(q as int),
        pow(b, pow2(s) * q) % n == 1,
        ((pow(b, (pow2((s - 1) as nat) * q) as nat) - 1) * v_half) % n == 1,
        ((pow(b, pow2(s)) - 1) * v_prime) % n == 1,
        r > 1,
        n % r == 0,
    ensures
        pow2(s) * q <= r,
{
    let half = (pow2((s - 1) as nat) * q) as nat;
    lemma_modulo_divisor(pow(b, pow2(s) * q), n, r);
    lemma_small_mod(1, r as nat);
    lemma_not_one(pow(b, half), v_half, n, r);
    lemma_not_one(pow(b, pow2(s)), v_prime, n, r);
    lemma_powers_distinct(b, s, q, r);
}

/// A common divisor of two numbers that is a combination of them.
proof fn lemma_combination(x: int, n: int) -> (r: (int, int, int))
    requires
        0 <= x,
        0 < n,
    ensures
        r.0 > 0,
        x % r.0 == 0,
        n % r.0 == 0,
        r.0 == r.1 * x + r.2 * n,
    decreases x,
{
    if x == 0 {
        lemma_small_mod(0, n as nat);
        assert(n == n * 1 + 0);
        lemma_fundamental_div_mod_converse(n, n, 1, 0);
        assert(0 * x + 1 * n == n);
        (n, 0, 1)
    } else {
        let (q, m) = (n / x, n % x);
        lemma_fundamental_div_mod(n, x);
        let (g, u, v) = lemma_combination(m, x);
        let (a, c) = (x / g, m / g);
        lemma_fundamental_div_mod(x, g);
        lemma_fundamental_div_mod(m, g);
        assert(n == g * (a * q + c)) by (nonlinear_arith)
            requires
                n == x * q + m,
                x == g * a,
                m == g * c,
        ;
        lemma_fundamental_div_mod_converse(n, g, a * q + c, 0);
        assert(g == (v - u * q) * x + u * n) by (nonlinear_arith)
            requires
                g == u * m + v * x,
                n == x * q + m,
        ;
        (g, v - u * q, u)
    }
}

/// With the powers checked, `n` divides a product only where it divides a factor.
proof fn lemma_divides_a_factor(
    n: int,
    b: int,
    s: nat,
    q: nat,
    v_half: int,
    v_prime: int,
    x_half: int,
    x_prime: int,
)
    requires
        n > 1,
        s > 0,
        q > 1,
        divides_a_factor(q as int),
        pow(b, pow2(s) * q) % n == 1,
        pow(b, (pow2((s - 1) as nat) * q) as nat) % n == x_half,
        pow(b, pow2(s)) % n == x_prime,
        ((x_half - 1) * v_half) % n == 1,
        ((x_prime - 1) * v_prime) % n == 1,
        (pow2(s) * q) * (pow2(s) * q) > n,
    ensures
        divides_a_factor(n),
{
    lemma_inverse_kept(pow(b, (pow2((s - 1) as nat) * q) as nat), v_half, n);
    lemma_inverse_kept(pow(b, pow2(s)), v_prime, n);
    assert forall|x: int, y: int|
        #![trigger x * y]
        (x * y) % n == 0 implies x % n == 0 || y % n == 0 by {
        if x % n != 0 {
            let x0 = x % n;
            let (g, u, v) = lemma_combination(x0, n);
            lemma_fundamental_div_mod(x0, g);
            if g > 1 {
                lemma_no_divisors(n, b, s, q, v_half, v_prime, g);
                lemma_small_mod(x0 as nat, n as nat);
            }
            assert(g == 1);
            lemma_mul_mod_noop_left(x, y, n);
            let k = (x0 * y) / n;
            lemma_fundamental_div_mod(x0 * y, n);
            assert(y == (u * k + v * y) * n) by (nonlinear_arith)
                requires
                    1 == u * x0 + v * n,
                    x0 * y == n * k,
            ;
            lemma_mod_multiples_basic(u * k + v * y, n);
        }
    }
}

/// Being invertible is a matter of the residue.
proof fn lemma_inverse_kept(x: int, v: int, n: int)
    requires
        n > 1,
        ((x % n - 1) * v) % n == 1,
    ensures
        ((x - 1) * v) % n == 1,
{
    let k = x / n;
    lemma_fundamental_div_mod(x, n);
    let a = (x % n - 1) * v;
    assert((x - 1) * v == a + (k * v) * n) by (nonlinear_arith)
        requires
            x == n * k + x % n,
            a == (x % n - 1) * v,
    ;
    lemma_mod_multiples_vanish(k * v, a, n);
    assert(n * (k * v) + a == a + (k * v) * n) by (nonlinear_arith);
}

/// The power with twice the exponent.
proof fn lemma_square(b: int, e: nat, n: int, x: int, y: int)
    requires
        n > 1,
        pow(b, e) % n == x,
        (x * x) % n == y,
    ensures
        pow(b, 2 * e) % n == y,
{
    lemma_pow_adds(b, e, e);
    lemma_mul_mod_noop(pow(b, e), pow(b, e), n);
}

/// The power with the next exponent.
proof fn lemma_times(b: int, e: nat, n: int, x: int, y: int)
    requires
        n > 1,
        pow(b, e) % n == x,
        (x * b) % n == y,
    ensures
        pow(b, e + 1) % n == y,
{
    lemma_pow_adds(b, e, 1);
    lemma_pow1(b);
    lemma_mul_mod_noop_left(pow(b, e), b, n);
}

/// The number 97 is prime. The steps are powers of one element by repeated squaring.
proof fn lemma_97()
    ensures
        divides_a_factor(97),
{
    lemma_two();
    lemma_pow1(28);
    lemma_square(28, 1, 97, 28, 8);
    lemma_square(28, 2, 97, 8, 64);
    lemma_square(28, 4, 97, 64, 22);
    lemma_square(28, 8, 97, 22, 96);
    lemma_square(28, 16, 97, 96, 1);
    lemma2_to64();
    lemma_divides_a_factor(97, 28, 4, 2, 48, 48, 96, 96);
}

/// The number 178481 is prime. The steps are powers of one element by repeated squaring.
proof fn lemma_178481()
    ensures
        divides_a_factor(178481),
{
    lemma_97();
    lemma_pow1(83251);
    lemma_square(83251, 1, 178481, 83251, 133290);
    lemma_times(83251, 2, 178481, 133290, 5058);
    lemma_square(83251, 3, 178481, 5058, 60581);
    lemma_square(83251, 6, 178481, 60581, 131239);
    lemma_square(83251, 12, 178481, 131239, 80140);
    lemma_square(83251, 24, 178481, 80140, 137777);
    lemma_square(83251, 48, 178481, 137777, 154974);
    lemma_times(83251, 96, 178481, 154974, 62908);
    lemma_square(83251, 97, 178481, 62908, 135732);
    lemma_square(83251, 194, 178481, 135732, 10042);
    lemma_square(83251, 388, 178481, 10042, 178480);
    lemma_square(83251, 776, 178481, 178480, 1);
    lemma_square(83251, 2, 178481, 133290, 46879);
    lemma_square(83251, 4, 178481, 46879, 4088);
    lemma_square(83251, 8, 178481, 4088, 113011);
    lemma2_to64();
    lemma_divides_a_factor(178481, 83251, 4, 97, 89240, 123171, 178480, 113011);
}

/// The modulus of the field is prime. The steps are powers of one element by repeated squaring.
proof fn lemma_modulus()
    ensures
        divides_a_factor(4611686018427322369),
{
    lemma_178481();
    lemma_pow1(1043600583382667576);
    lemma_square(1043600583382667576, 1, 4611686018427322369, 1043600583382667576, 1219027404863712241);
    lemma_square(1043600583382667576, 2, 4611686018427322369, 1219027404863712241, 3456440069429206754);
    lemma_times(1043600583382667576, 4, 4611686018427322369, 3456440069429206754, 3765519712542208040);
    lemma_square(1043600583382667576, 5, 4611686018427322369, 3765519712542208040, 2123905963942975486);
    lemma_square(1043600583382667576, 10, 4611686018427322369, 2123905963942975486, 492990125873486129);
    lemma_times(1043600583382667576, 20, 4611686018427322369, 492990125873486129, 1517794331708097754);
    lemma_square(1043600583382667576, 21, 4611686018427322369, 1517794331708097754, 1043027213902576412);
    lemma_times(1043600583382667576, 42, 4611686018427322369, 1043027213902576412, 4497354917319855616);
    lemma_square(1043600583382667576, 43, 4611686018427322369, 4497354917319855616, 4555905169673931402);
    lemma_times(1043600583382667576, 86, 4611686018427322369, 4555905169673931402, 2399924872150175358);
    lemma_square(1043600583382667576, 87, 4611686018427322369, 2399924872150175358, 948178006942024260);
    lemma_square(1043600583382667576, 174, 4611686018427322369, 948178006942024260, 70541052880288913);
    lemma_square(1043600583382667576, 348, 4611686018427322369, 70541052880288913, 3107282724094973374);
    lemma_times(1043600583382667576, 696, 4611686018427322369, 3107282724094973374, 1823365255204400612);
    lemma_square(1043600583382667576, 697, 4611686018427322369, 1823365255204400612, 180558630529256924);
    lemma_square(1043600583382667576, 1394, 4611686018427322369, 180558630529256924, 1311016615344479640);
    lemma_square(1043600583382667576, 2788, 4611686018427322369, 1311016615344479640, 1052894454916467614);
    lemma_times(1043600583382667576, 5576, 4611686018427322369, 1052894454916467614, 4122563533185036670);
    lemma_square(1043600583382667576, 5577, 4611686018427322369, 4122563533185036670, 3473513051702043985);
    lemma_times(1043600583382667576, 11154, 4611686018427322369, 3473513051702043985, 3873142764938462698);
    lemma_square(1043600583382667576, 11155, 4611686018427322369, 3873142764938462698, 2985725045246279118);
    lemma_square(1043600583382667576, 22310, 4611686018427322369, 2985725045246279118, 2236129512371368074);
    lemma_square(1043600583382667576, 44620, 4611686018427322369, 2236129512371368074, 4544830786500420303);
    lemma_square(1043600583382667576, 89240, 4611686018427322369, 4544830786500420303, 1260543400691295227);
    lemma_times(1043600583382667576, 178480, 4611686018427322369, 1260543400691295227, 2170293061235240501);
    lemma_square(1043600583382667576, 178481, 4611686018427322369, 2170293061235240501, 3971270619688269558);
    lemma_square(1043600583382667576, 356962, 4611686018427322369, 3971270619688269558, 1907509961913497309);
    lemma_square(1043600583382667576, 713924, 4611686018427322369, 1907509961913497309, 3391169269051246823);
    lemma_square(1043600583382667576, 1427848, 4611686018427322369, 3391169269051246823, 3710688476054411196);
    lemma_square(1043600583382667576, 2855696, 4611686018427322369, 3710688476054411196, 2953159431647451165);
    lemma_square(1043600583382667576, 5711392, 4611686018427322369, 2953159431647451165, 426977015838982824);
    lemma_square(1043600583382667576, 11422784, 4611686018427322369, 426977015838982824, 3117707069289357666);
    lemma_square(1043600583382667576, 22845568, 4611686018427322369, 3117707069289357666, 1133784386581535406);
    lemma_square(1043600583382667576, 45691136, 4611686018427322369, 1133784386581535406, 4092465458886042489);
    lemma_square(1043600583382667576, 91382272, 4611686018427322369, 4092465458886042489, 2119877744688704266);
    lemma_square(1043600583382667576, 182764544, 4611686018427322369, 2119877744688704266, 37261228364097135);
    lemma_square(1043600583382667576, 365529088, 4611686018427322369, 37261228364097135, 134280192806676741);
    lemma_square(1043600583382667576, 731058176, 4611686018427322369, 134280192806676741, 2236746122413623470);
    lemma_square(1043600583382667576, 1462116352, 4611686018427322369, 2236746122413623470, 18014948273684224);
    lemma_square(1043600583382667576, 2924232704, 4611686018427322369, 18014948273684224, 4611686018427322368);
    lemma_square(1043600583382667576, 5848465408, 4611686018427322369, 4611686018427322368, 1);
    lemma_square(1043600583382667576, 4, 4611686018427322369, 3456440069429206754, 883490855437470218);
    lemma_square(1043600583382667576, 8, 4611686018427322369, 883490855437470218, 4119188288273137904);
    lemma_square(1043600583382667576, 16, 4611686018427322369, 4119188288273137904, 4045586150741541715);
    lemma_square(1043600583382667576, 32, 4611686018427322369, 4045586150741541715, 920604926668715719);
    lemma_square(1043600583382667576, 64, 4611686018427322369, 920604926668715719, 3019312097562218897);
    lemma_square(1043600583382667576, 128, 4611686018427322369, 3019312097562218897, 715833165196202843);
    lemma_square(1043600583382667576, 256, 4611686018427322369, 715833165196202843, 3483087533600554761);
    lemma_square(1043600583382667576, 512, 4611686018427322369, 3483087533600554761, 4495909858062360967);
    lemma_square(1043600583382667576, 1024, 4611686018427322369, 4495909858062360967, 3350289608265124795);
    lemma_square(1043600583382667576, 2048, 4611686018427322369, 3350289608265124795, 2308716568068970135);
    lemma_square(1043600583382667576, 4096, 4611686018427322369, 2308716568068970135, 3260693638791321237);
    lemma_square(1043600583382667576, 8192, 4611686018427322369, 3260693638791321237, 3739041085986162985);
    lemma_square(1043600583382667576, 16384, 4611686018427322369, 3739041085986162985, 1565171023675676955);
    lemma_square(1043600583382667576, 32768, 4611686018427322369, 1565171023675676955, 3986684803571272661);
    lemma2_to64();
    lemma_divides_a_factor(
        4611686018427322369,
        1043600583382667576,
        16,
        178481,
        2305843009213661184,
        3164328303015749362,
        4611686018427322368,
        3986684803571272661,
    );
}

/// A product in the field is zero only where one of the factors is.
pub proof fn law_no_zero_divisors(a: int, b: int)
    requires
        field_mul(a, b) == 0,
    ensures
        field(a) == 0 || field(b) == 0,
{
    lemma_modulus();
    assert(MODULUS == 4611686018427322369);
    assert((a * b) % (MODULUS as int) == 0);
}

} // verus!
