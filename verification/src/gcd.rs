//! Greatest common divisors: Euclid's definition, the facts that binary GCD
//! rests on, and `gcd` of two 64-bit signed integers.
use vstd::prelude::*;
use vstd::arithmetic::power2::{pow2, lemma_pow2_pos, lemma_pow2_adds, lemma2_to64};
use vstd::arithmetic::div_mod::{
    lemma_fundamental_div_mod, lemma_fundamental_div_mod_converse, lemma_mod_multiples_basic,
};
use vstd::std_specs::bits::{u64_trailing_zeros, axiom_u64_trailing_zeros};
use crate::bigint::{lemma_u64_trailing_zeros, lemma_trailing_zeros_or};

verus! {

/// The greatest common divisor, by Euclid's algorithm; `gcd_nat(0, 0)` is 0.
pub open spec fn gcd_nat(a: nat, b: nat) -> nat
    decreases b,
{
    if b == 0 {
        a
    } else {
        gcd_nat(b, a % b)
    }
}

/// `d` divides `x` (for a positive `d`).
pub open spec fn divides(d: nat, x: nat) -> bool {
    x % d == 0
}

/// Multiples of `d` stay multiples under sums and differences.
pub proof fn lemma_divides_combine(d: nat, x: nat, y: nat, k: nat)
    requires
        d > 0,
        divides(d, x),
    ensures
        divides(d, y) == divides(d, x * k + y),
{
    lemma_fundamental_div_mod(x as int, d as int);
    let q = x / d;
    assert(x * k + y == d * (q * k) + y) by (nonlinear_arith)
        requires
            x == d * q,
    ;
    vstd::arithmetic::div_mod::lemma_mod_multiples_vanish((q * k) as int, y as int, d as int);
}

/// The common divisors of `a` and `b` are the divisors of `gcd_nat(a, b)`.
pub proof fn lemma_gcd_divisors(a: nat, b: nat, d: nat)
    requires
        d > 0,
    ensures
        divides(d, gcd_nat(a, b)) == (divides(d, a) && divides(d, b)),
    decreases b,
{
    if b == 0 {
        assert(0nat % d == 0);
    } else {
        lemma_gcd_divisors(b, a % b, d);
        lemma_fundamental_div_mod(a as int, b as int);
        assert(a == b * (a / b) + a % b);
        if divides(d, b) {
            lemma_divides_combine(d, b, a % b, a / b);
        }
    }
}

/// `gcd_nat(a, b)` is zero only when both are.
pub proof fn lemma_gcd_zero(a: nat, b: nat)
    ensures
        (gcd_nat(a, b) == 0) == (a == 0 && b == 0),
    decreases b,
{
    if b != 0 {
        lemma_gcd_zero(b, a % b);
    }
}

/// `gcd_nat(a, b)` divides both; it is no larger than a positive `a`.
pub proof fn lemma_gcd_divides(a: nat, b: nat)
    requires
        a > 0 || b > 0,
    ensures
        gcd_nat(a, b) > 0,
        divides(gcd_nat(a, b), a),
        divides(gcd_nat(a, b), b),
        a > 0 ==> gcd_nat(a, b) <= a,
        b > 0 ==> gcd_nat(a, b) <= b,
{
    let g = gcd_nat(a, b);
    lemma_gcd_zero(a, b);
    lemma_mod_multiples_basic(1, g as int);
    assert(g % g == 0);
    lemma_gcd_divisors(a, b, g);
    if a > 0 {
        lemma_fundamental_div_mod(a as int, g as int);
        assert(a == g * (a / g));
        assert(g <= a) by (nonlinear_arith)
            requires
                a == g * (a / g),
                a > 0,
                g > 0,
        ;
    }
    if b > 0 {
        lemma_fundamental_div_mod(b as int, g as int);
        assert(b == g * (b / g));
        assert(g <= b) by (nonlinear_arith)
            requires
                b == g * (b / g),
                b > 0,
                g > 0,
        ;
    }
}

/// Two numbers that have the same common divisors have the same gcd.
pub proof fn lemma_gcd_same_divisors(a: nat, b: nat, c: nat, e: nat)
    requires
        forall|d: nat| d > 0 ==> ((divides(d, a) && divides(d, b)) == (divides(d, c) && divides(
            d,
            e,
        ))),
    ensures
        gcd_nat(a, b) == gcd_nat(c, e),
{
    let g1 = gcd_nat(a, b);
    let g2 = gcd_nat(c, e);
    lemma_gcd_zero(a, b);
    lemma_gcd_zero(c, e);
    if a == 0 && b == 0 {
        assert(divides((c + 1) as nat, a) && divides((c + 1) as nat, b));
        assert(c % (c + 1) == c) by {
            vstd::arithmetic::div_mod::lemma_small_mod(c, (c + 1) as nat);
        }
        assert(divides((e + 1) as nat, a) && divides((e + 1) as nat, b));
        assert(e % (e + 1) == e) by {
            vstd::arithmetic::div_mod::lemma_small_mod(e, (e + 1) as nat);
        }
    } else if c == 0 && e == 0 {
        assert(divides((a + 1) as nat, c) && divides((a + 1) as nat, e));
        assert(a % (a + 1) == a) by {
            vstd::arithmetic::div_mod::lemma_small_mod(a, (a + 1) as nat);
        }
        assert(divides((b + 1) as nat, c) && divides((b + 1) as nat, e));
        assert(b % (b + 1) == b) by {
            vstd::arithmetic::div_mod::lemma_small_mod(b, (b + 1) as nat);
        }
    } else {
        lemma_gcd_divides(a, b);
        lemma_gcd_divides(c, e);
        assert(divides(g1, c) && divides(g1, e));
        assert(divides(g2, a) && divides(g2, b));
        lemma_gcd_divisors(c, e, g1);
        lemma_gcd_divisors(a, b, g2);
        lemma_mutual_divides(g1, g2);
    }
}

/// Positive numbers that divide each other are equal.
pub proof fn lemma_mutual_divides(x: nat, y: nat)
    requires
        x > 0,
        y > 0,
        divides(x, y),
        divides(y, x),
    ensures
        x == y,
{
    lemma_fundamental_div_mod(x as int, y as int);
    lemma_fundamental_div_mod(y as int, x as int);
    assert(x == y * (x / y));
    assert(y == x * (y / x));
    assert(x >= y) by (nonlinear_arith)
        requires
            x == y * (x / y),
            x > 0,
            y > 0,
    ;
    assert(y >= x) by (nonlinear_arith)
        requires
            y == x * (y / x),
            x > 0,
            y > 0,
    ;
}

/// The gcd does not depend on the order of its arguments.
pub proof fn lemma_gcd_comm(a: nat, b: nat)
    ensures
        gcd_nat(a, b) == gcd_nat(b, a),
{
    lemma_gcd_same_divisors(a, b, b, a);
}

/// Taking the smaller from the larger keeps the gcd.
pub proof fn lemma_gcd_sub(a: nat, b: nat)
    requires
        a <= b,
    ensures
        gcd_nat(a, b) == gcd_nat(a, (b - a) as nat),
{
    assert forall|d: nat| d > 0 implies ((divides(d, a) && divides(d, b)) == (divides(d, a)
        && divides(d, (b - a) as nat))) by {
        if divides(d, a) {
            lemma_divides_combine(d, a, (b - a) as nat, 1);
        }
    }
    lemma_gcd_same_divisors(a, b, a, (b - a) as nat);
}

/// An odd number shares no factor 2 with anything: the gcd of an odd `u`
/// and `v * 2^k` is that of `u` and `v`.
pub proof fn lemma_gcd_odd(u: nat, v: nat, k: nat)
    requires
        u % 2 == 1,
    ensures
        gcd_nat(u, v * pow2(k)) == gcd_nat(u, v),
    decreases k,
{
    if k == 0 {
        lemma2_to64();
        assert(v * pow2(0) == v);
    } else {
        vstd::arithmetic::power2::lemma_pow2_unfold(k);
        let w = v * pow2((k - 1) as nat);
        assert(v * pow2(k) == w * 2) by (nonlinear_arith)
            requires
                pow2(k) == 2 * pow2((k - 1) as nat),
                w == v * pow2((k - 1) as nat),
        ;
        lemma_gcd_odd(u, v, (k - 1) as nat);
        assert forall|d: nat| d > 0 implies ((divides(d, u) && divides(d, w * 2)) == (divides(d, u)
            && divides(d, w))) by {
            if divides(d, u) {
                lemma_odd_divisor(u, d);
                lemma_divides_double(d, w);
            }
        }
        lemma_gcd_same_divisors(u, w * 2, u, w);
    }
}

/// A divisor of an odd number is odd.
pub proof fn lemma_odd_divisor(u: nat, d: nat)
    requires
        u % 2 == 1,
        d > 0,
        divides(d, u),
    ensures
        d % 2 == 1,
{
    lemma_fundamental_div_mod(u as int, d as int);
    let q = u / d;
    assert(u == d * q);
    if d % 2 == 0 {
        lemma_fundamental_div_mod(d as int, 2);
        let h = d / 2;
        assert(u == 2 * (h * q)) by (nonlinear_arith)
            requires
                u == d * q,
                d == 2 * h,
        ;
        lemma_mod_multiples_basic((h * q) as int, 2);
        assert(((h * q) * 2) % 2 == 0);
        assert(u == (h * q) * 2);
    }
}

/// An odd `d` divides `2 w` exactly when it divides `w`.
pub proof fn lemma_divides_double(d: nat, w: nat)
    requires
        d % 2 == 1,
    ensures
        divides(d, w * 2) == divides(d, w),
{
    if divides(d, w) {
        lemma_divides_combine(d, w, 0, 2);
    }
    if divides(d, w * 2) {
        lemma_fundamental_div_mod((w * 2) as int, d as int);
        let k = (w * 2) / d;
        assert(w * 2 == d * k);
        lemma_fundamental_div_mod(k as int, 2);
        lemma_fundamental_div_mod(d as int, 2);
        if k % 2 == 1 {
            let dh = d / 2;
            let kh = k / 2;
            assert(d * k == 2 * (2 * dh * kh + dh + kh) + 1) by (nonlinear_arith)
                requires
                    d == 2 * dh + 1,
                    k == 2 * kh + 1,
            ;
            assert(false) by (nonlinear_arith)
                requires
                    w * 2 == d * k,
                    d * k == 2 * (2 * dh * kh + dh + kh) + 1,
            ;
        }
        let kh = k / 2;
        assert(w == d * kh) by (nonlinear_arith)
            requires
                w * 2 == d * k,
                k == 2 * kh,
        ;
        lemma_mod_multiples_basic(kh as int, d as int);
        assert((kh * d) % d == 0);
        assert(w == kh * d);
    }
}

/// Scaling both arguments scales the gcd.
pub proof fn lemma_gcd_scale(a: nat, b: nat, k: nat)
    requires
        k > 0,
    ensures
        gcd_nat(k * a, k * b) == k * gcd_nat(a, b),
    decreases b,
{
    if b == 0 {
        assert(k * b == 0);
    } else {
        lemma_fundamental_div_mod(a as int, b as int);
        let q = a / b;
        let r = a % b;
        assert(k * a == (k * b) * q + k * r) by (nonlinear_arith)
            requires
                a == b * q + r,
        ;
        assert(0 <= k * r < k * b) by (nonlinear_arith)
            requires
                0 <= r < b,
                k > 0,
        ;
        assert((k * b) * q == q * (k * b)) by (nonlinear_arith);
        lemma_fundamental_div_mod_converse((k * a) as int, (k * b) as int, q as int, (k * r) as int);
        assert((k * a) % (k * b) == k * r);
        lemma_gcd_scale(b, r, k);
    }
}

/// The magnitude of a 64-bit signed integer.
pub open spec fn abs_i64(a: i64) -> nat {
    if a < 0 {
        (-(a as int)) as nat
    } else {
        a as nat
    }
}

/// The magnitude of `a`, as an unsigned number (`i64::MIN` included).
pub fn unsigned_abs(a: i64) -> (r: u64)
    ensures
        r == abs_i64(a),
{
    if a >= 0 {
        a as u64
    } else {
        (-(a + 1)) as u64 + 1
    }
}

/// Binary GCD's start: with `u = 2^tu * ou` and `v = 2^tv * ov` (`ou`, `ov`
/// odd), the gcd is 2^min(tu, tv) times that of `ou` and `v`.
pub proof fn lemma_gcd_strip(u: nat, v: nat, tu: nat, tv: nat)
    requires
        u == pow2(tu) * (u / pow2(tu)),
        v == pow2(tv) * (v / pow2(tv)),
        (u / pow2(tu)) % 2 == 1,
        (v / pow2(tv)) % 2 == 1,
    ensures
        pow2(if tu <= tv {
            tu
        } else {
            tv
        }) * gcd_nat(u / pow2(tu), v) == gcd_nat(u, v),
{
    let ou = u / pow2(tu);
    let ov = v / pow2(tv);
    lemma_pow2_pos(tu);
    lemma_pow2_pos(tv);
    lemma_gcd_odd(ou, ov, tv);
    assert(ov * pow2(tv) == v) by (nonlinear_arith)
        requires
            v == pow2(tv) * ov,
    ;
    if tu <= tv {
        let d = (tv - tu) as nat;
        lemma_pow2_adds(tu, d);
        let w = ov * pow2(d);
        assert(v == pow2(tu) * w) by (nonlinear_arith)
            requires
                v == pow2(tv) * ov,
                pow2(tv) == pow2(tu) * pow2(d),
                w == ov * pow2(d),
        ;
        lemma_gcd_scale(ou, w, pow2(tu));
        lemma_gcd_odd(ou, ov, d);
    } else {
        let d = (tu - tv) as nat;
        lemma_pow2_adds(tv, d);
        let w = ou * pow2(d);
        assert(u == pow2(tv) * w) by (nonlinear_arith)
            requires
                u == pow2(tu) * ou,
                pow2(tu) == pow2(tv) * pow2(d),
                w == ou * pow2(d),
        ;
        lemma_gcd_scale(w, ov, pow2(tv));
        lemma_gcd_comm(w, ov);
        lemma_gcd_odd(ov, ou, d);
        lemma_gcd_comm(ov, ou);
    }
}

/// The greatest common divisor of `|a|` and `|b|`, by binary GCD
/// (`gcd(0, 0)` is 0).
pub fn gcd(a: i64, b: i64) -> (r: u64)
    ensures
        r == gcd_nat(abs_i64(a), abs_i64(b)),
{
    let mut u = unsigned_abs(a);
    let mut v = unsigned_abs(b);
    let ghost g = gcd_nat(u as nat, v as nat);
    if u == 0 {
        proof {
            lemma_gcd_comm(0, v as nat);
        }
        return v;
    }
    if v == 0 {
        return u;
    }
    let common_twos = (u | v).trailing_zeros();
    let tu = u.trailing_zeros();
    proof {
        lemma_trailing_zeros_or(u, v);
        lemma_u64_trailing_zeros(u);
        lemma_u64_trailing_zeros(v);
    }
    u >>= tu;
    let ghost c = common_twos as nat;
    proof {
        let big_u = abs_i64(a);
        let big_v = abs_i64(b);
        let tuu = u64_trailing_zeros(big_u as u64) as nat;
        let tvv = u64_trailing_zeros(big_v as u64) as nat;
        vstd::bits::lemma_u64_shr_is_div(big_u as u64, tu as u64);
        lemma_gcd_strip(big_u, big_v, tuu, tvv);
        lemma_gcd_divides(big_u, big_v);
    }
    while v != 0
        invariant
            u % 2 == 1,
            u > 0,
            c < 64,
            pow2(c) * gcd_nat(u as nat, v as nat) == g,
            g == gcd_nat(abs_i64(a), abs_i64(b)),
            g > 0,
            g <= 0x8000_0000_0000_0000,
        decreases u + v,
    {
        let t = v.trailing_zeros();
        let ghost v_old = v;
        proof {
            lemma_u64_trailing_zeros(v);
            vstd::bits::lemma_u64_shr_is_div(v, t as u64);
        }
        v >>= t;
        proof {
            lemma_gcd_odd(u as nat, v as nat, t as nat);
            assert(v_old == v * pow2(t as nat)) by (nonlinear_arith)
                requires
                    v_old == pow2(t as nat) * (v_old as nat / pow2(t as nat)),
                    v == v_old as nat / pow2(t as nat),
            ;
        }
        if u > v {
            let tmp = u;
            u = v;
            v = tmp;
            proof {
                lemma_gcd_comm(u as nat, v as nat);
            }
        }
        proof {
            lemma_gcd_sub(u as nat, v as nat);
        }
        v -= u;
    }
    proof {
        lemma_pow2_pos(c);
        assert(gcd_nat(u as nat, 0) == u);
        assert(u * pow2(c) == g) by (nonlinear_arith)
            requires
                pow2(c) * u == g,
        ;
        vstd::bits::lemma_u64_pow2_no_overflow(c);
        vstd::bits::lemma_u64_shl_is_mul(u, c as u64);
    }
    u << common_twos
}

/// `gcd` does not depend on the order of its arguments.
pub proof fn law_gcd_symmetric(a: i64, b: i64)
    ensures
        gcd_nat(abs_i64(a), abs_i64(b)) == gcd_nat(abs_i64(b), abs_i64(a)),
{
    lemma_gcd_comm(abs_i64(a), abs_i64(b));
}

/// `gcd` divides both numbers, and every common divisor divides it; it is
/// zero only for two zeros.
pub proof fn law_gcd_is_greatest(a: i64, b: i64, d: nat)
    requires
        d > 0,
    ensures
        (gcd_nat(abs_i64(a), abs_i64(b)) == 0) == (a == 0 && b == 0),
        gcd_nat(abs_i64(a), abs_i64(b)) > 0 ==> divides(gcd_nat(abs_i64(a), abs_i64(b)), abs_i64(a))
            && divides(gcd_nat(abs_i64(a), abs_i64(b)), abs_i64(b)),
        divides(d, abs_i64(a)) && divides(d, abs_i64(b)) ==> divides(
            d,
            gcd_nat(abs_i64(a), abs_i64(b)),
        ),
{
    lemma_gcd_zero(abs_i64(a), abs_i64(b));
    if abs_i64(a) > 0 || abs_i64(b) > 0 {
        lemma_gcd_divides(abs_i64(a), abs_i64(b));
    }
    lemma_gcd_divisors(abs_i64(a), abs_i64(b), d);
}

} // verus!
