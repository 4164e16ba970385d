//! Fractions of 1024-bit integers, reduced by the gcd of numerator and
//! denominator.
//!
//! Reducing divides the magnitude of the numerator and the denominator by
//! their gcd and keeps the numerator's sign; the arithmetic below reduces
//! every result.
use vstd::prelude::*;
use vstd::arithmetic::power2::{pow2, lemma_pow2_pos};
use vstd::arithmetic::div_mod::{lemma_fundamental_div_mod, lemma_fundamental_div_mod_converse};
use crate::bigint::{u1024, modulus, decimal, lemma_val_bound, lemma_limb_tz_or};
use crate::signed::{
    i1024, half, wrap, abs_of, lemma_half, lemma_wrap_sum, lemma_wrap_neg, lemma_signed_bits,
};
use crate::gcd::{gcd_nat, lemma_gcd_strip, lemma_gcd_odd, lemma_gcd_comm, lemma_gcd_sub, lemma_gcd_divides};

verus! {

/// The signed number that `bits` stand for in two's complement.
pub open spec fn signed_of(bits: nat) -> int {
    if bits >= half() {
        bits - modulus()
    } else {
        bits as int
    }
}

/// The numerator bits that reducing leaves: zero stays zero; otherwise the
/// magnitude divided by the gcd, with the numerator's sign.
pub open spec fn reduced_num(num_bits: nat, den: nat) -> nat {
    if num_bits == 0 {
        0
    } else {
        let a = abs_of(signed_of(num_bits));
        let q = a / gcd_nat(a, den);
        if signed_of(num_bits) < 0 {
            wrap(-q)
        } else {
            q
        }
    }
}

/// The denominator that reducing leaves: one for a zero numerator;
/// otherwise the denominator divided by the gcd.
pub open spec fn reduced_den(num_bits: nat, den: nat) -> nat {
    if num_bits == 0 {
        1
    } else {
        let a = abs_of(signed_of(num_bits));
        den / gcd_nat(a, den)
    }
}

/// The numerator bits of `n1/d1 + n2/d2` before reducing: `n1 d2 + n2 d1`,
/// each denominator read as a signed number, modulo 2^1024.
pub open spec fn cross_sum(n1: int, d1: nat, n2: int, d2: nat) -> nat {
    wrap(n1 * signed_of(d2) + n2 * signed_of(d1))
}

/// How a fraction prints: reduced, an optional `-`, then the whole part,
/// the proper part `rem/den`, or both as `whole(rem/den)`.
pub open spec fn fraction_text(num_bits: nat, den: nat) -> Seq<char> {
    let n = reduced_num(num_bits, den);
    let d = reduced_den(num_bits, den);
    let s = signed_of(n);
    let mag = abs_of(s);
    let whole = mag / d;
    let rem = mag % d;
    let sign = if s < 0 {
        seq!['-']
    } else {
        Seq::<char>::empty()
    };
    if rem == 0 {
        sign + decimal(whole)
    } else if whole == 0 {
        sign + decimal(rem) + seq!['/'] + decimal(d)
    } else {
        sign + decimal(whole) + seq!['('] + decimal(rem) + seq!['/'] + decimal(d) + seq![')']
    }
}

/// A fraction `num / den` of 1024-bit integers.
#[allow(non_camel_case_types)]
#[derive(Clone, Copy, PartialEq, Eq, PartialOrd, Ord, Debug)]
pub struct fraction {
    pub num: i1024,
    pub den: u1024,
}

impl fraction {
    /// Divides numerator and denominator by their gcd (binary GCD on the
    /// magnitude of the numerator), keeping the numerator's sign; a zero
    /// numerator makes the denominator one.
    pub fn reduce(&mut self)
        ensures
            final(self).num.0.value() == reduced_num(old(self).num.0.value(), old(self).den.value()),
            final(self).den.value() == reduced_den(old(self).num.0.value(), old(self).den.value()),
    {
        if self.num.0.is_zero() {
            self.den = u1024::one();
            return;
        }
        let mut u = self.num.abs().0;
        let mut v = self.den;
        let ghost a = u.value();
        let ghost d = v.value();
        let ghost g = gcd_nat(a, d);
        let tu = u.trailing_zeros();
        let tv = v.trailing_zeros();
        let both = u.bitor(v);
        let common_twos = both.trailing_zeros();
        proof {
            lemma_limb_tz_or(u.0@, v.0@, both.0@);
            lemma_half();
            lemma_signed_bits(self.num);
            assert(a > 0);
            lemma_pow2_pos(tu as nat);
            lemma_fundamental_div_mod(a as int, pow2(tu as nat) as int);
            if d != 0 {
                lemma_pow2_pos(tv as nat);
                lemma_fundamental_div_mod(d as int, pow2(tv as nat) as int);
                lemma_gcd_strip(a, d, tu as nat, tv as nat);
            } else {
                assert(gcd_nat(a / pow2(tu as nat), 0) == a / pow2(tu as nat));
            }
            lemma_gcd_divides(a, d);
            lemma_val_bound(self.num.0.0@);
        }
        u = u.shr(tu);
        let ghost c = common_twos as nat;
        while !v.is_zero()
            invariant
                u.value() % 2 == 1,
                pow2(c) * gcd_nat(u.value(), v.value()) == g,
                g > 0,
                g < modulus(),
                c < 1024,
            decreases u.value() + v.value(),
        {
            let t = v.trailing_zeros();
            let ghost v_old = v.value();
            proof {
                lemma_pow2_pos(t as nat);
                lemma_fundamental_div_mod(v_old as int, pow2(t as nat) as int);
            }
            v = v.shr(t);
            proof {
                assert(v_old == v.value() * pow2(t as nat)) by (nonlinear_arith)
                    requires
                        v_old == pow2(t as nat) * (v_old / pow2(t as nat)) + v_old % pow2(t as nat),
                        v_old % pow2(t as nat) == 0,
                        v.value() == v_old / pow2(t as nat),
                ;
                lemma_gcd_odd(u.value(), v.value(), t as nat);
            }
            if v.less_than(u) {
                let tmp = u;
                u = v;
                v = tmp;
                proof {
                    lemma_gcd_comm(u.value(), v.value());
                }
            }
            proof {
                lemma_gcd_sub(u.value(), v.value());
            }
            v = v.borrowing_sub(u).0;
            proof {
                lemma_val_bound(v.0@);
            }
        }
        let divisor = u.shl(common_twos);
        proof {
            assert(gcd_nat(u.value(), 0) == u.value());
            assert(u.value() * pow2(c) == g) by (nonlinear_arith)
                requires
                    pow2(c) * u.value() == g,
            ;
            lemma_fundamental_div_mod_converse((u.value() * pow2(c)) as int, modulus() as int, 0, g as int);
        }
        let (magnitude, negative) = self.num.abs();
        let (qn, _) = magnitude.div_rem(divisor);
        let (qd, _) = self.den.div_rem(divisor);
        self.num = if negative {
            i1024(qn).neg()
        } else {
            i1024(qn)
        };
        self.den = qd;
    }

    /// The fraction `num / den`, reduced.
    pub fn new(num: i1024, den: u1024) -> (r: fraction)
        requires
            den.value() != 0,
        ensures
            r.num.0.value() == reduced_num(num.0.value(), den.value()),
            r.den.value() == reduced_den(num.0.value(), den.value()),
    {
        let mut f = fraction { num, den };
        f.reduce();
        f
    }

    /// `self + rhs`: `(n1 d2 + n2 d1) / (d1 d2)`, reduced.
    pub fn plus(self, rhs: fraction) -> (r: fraction)
        ensures
            r.num.0.value() == reduced_num(
                cross_sum(self.num.value(), self.den.value(), rhs.num.value(), rhs.den.value()),
                (self.den.value() * rhs.den.value()) % modulus(),
            ),
            r.den.value() == reduced_den(
                cross_sum(self.num.value(), self.den.value(), rhs.num.value(), rhs.den.value()),
                (self.den.value() * rhs.den.value()) % modulus(),
            ),
    {
        let ad = self.num.wrapping_mul(i1024(rhs.den));
        let bc = rhs.num.wrapping_mul(i1024(self.den));
        let mut res = fraction { num: ad.wrapping_add(bc), den: self.den.full_mul(rhs.den) };
        proof {
            lemma_wrap_sum(
                self.num.value() * signed_of(rhs.den.value()),
                rhs.num.value() * signed_of(self.den.value()),
            );
        }
        res.reduce();
        res
    }

    /// `self - rhs`: `self` plus `rhs` with its numerator negated.
    pub fn minus(self, rhs: fraction) -> (r: fraction)
        ensures
            r.num.0.value() == reduced_num(
                cross_sum(
                    self.num.value(),
                    self.den.value(),
                    signed_of(wrap(-rhs.num.value())),
                    rhs.den.value(),
                ),
                (self.den.value() * rhs.den.value()) % modulus(),
            ),
            r.den.value() == reduced_den(
                cross_sum(
                    self.num.value(),
                    self.den.value(),
                    signed_of(wrap(-rhs.num.value())),
                    rhs.den.value(),
                ),
                (self.den.value() * rhs.den.value()) % modulus(),
            ),
    {
        self.plus(fraction { num: rhs.num.neg(), den: rhs.den })
    }

    /// `self * rhs`: `(n1 n2) / (d1 d2)`, reduced.
    pub fn times(self, rhs: fraction) -> (r: fraction)
        ensures
            r.num.0.value() == reduced_num(
                wrap(self.num.value() * rhs.num.value()),
                (self.den.value() * rhs.den.value()) % modulus(),
            ),
            r.den.value() == reduced_den(
                wrap(self.num.value() * rhs.num.value()),
                (self.den.value() * rhs.den.value()) % modulus(),
            ),
    {
        let mut res = fraction {
            num: self.num.wrapping_mul(rhs.num),
            den: self.den.full_mul(rhs.den),
        };
        res.reduce();
        res
    }

    /// `self / rhs`: `(n1 d2) / (d1 |n2|)`, negated when `n2` is negative,
    /// reduced.
    pub fn div(self, rhs: fraction) -> (r: fraction)
        requires
            rhs.num.0.value() != 0,
        ensures
            r.num.0.value() == reduced_num(
                wrap(
                    if rhs.num.value() < 0 {
                        -(self.num.value() * signed_of(rhs.den.value()))
                    } else {
                        self.num.value() * signed_of(rhs.den.value())
                    },
                ),
                (self.den.value() * abs_of(rhs.num.value())) % modulus(),
            ),
            r.den.value() == reduced_den(
                wrap(
                    if rhs.num.value() < 0 {
                        -(self.num.value() * signed_of(rhs.den.value()))
                    } else {
                        self.num.value() * signed_of(rhs.den.value())
                    },
                ),
                (self.den.value() * abs_of(rhs.num.value())) % modulus(),
            ),
    {
        let (abs_num, is_neg) = rhs.num.abs();
        let mut res = fraction {
            num: self.num.wrapping_mul(i1024(rhs.den)),
            den: self.den.full_mul(abs_num),
        };
        if is_neg {
            res.num = res.num.neg();
            proof {
                lemma_wrap_neg(self.num.value() * signed_of(rhs.den.value()));
            }
        }
        res.reduce();
        res
    }

    /// The fraction, reduced, in text: `-` when negative, then `whole`,
    /// `rem/den` or `whole(rem/den)`.
    pub fn to_string(&self) -> (r: String)
        requires
            self.den.value() != 0 || self.num.0.value() == 0,
        ensures
            r@ == fraction_text(self.num.0.value(), self.den.value()),
    {
        let mut copy = *self;
        copy.reduce();
        proof {
            let nb = self.num.0.value();
            let d = self.den.value();
            if nb != 0 {
                lemma_half();
                lemma_signed_bits(self.num);
                let a = abs_of(signed_of(nb));
                lemma_gcd_divides(a, d);
                let g = gcd_nat(a, d);
                lemma_fundamental_div_mod(d as int, g as int);
                assert(d / g >= 1) by (nonlinear_arith)
                    requires
                        d == g * (d / g),
                        d > 0,
                        g > 0,
                ;
            }
        }
        let (abs_num, is_neg) = copy.num.abs();
        let (whole, rem) = abs_num.div_rem(copy.den);
        let mut out: Vec<char> = Vec::new();
        if is_neg {
            out.push('-');
        }
        let ghost sign = out@;
        if rem.is_zero() {
            crate::text::push_str(&mut out, whole.to_string().as_str());
        } else if whole.is_zero() {
            crate::text::push_str(&mut out, rem.to_string().as_str());
            out.push('/');
            crate::text::push_str(&mut out, copy.den.to_string().as_str());
        } else {
            crate::text::push_str(&mut out, whole.to_string().as_str());
            out.push('(');
            crate::text::push_str(&mut out, rem.to_string().as_str());
            out.push('/');
            crate::text::push_str(&mut out, copy.den.to_string().as_str());
            out.push(')');
        }
        proof {
            let d = copy.den.value();
            assert(sign =~= (if copy.num.value() < 0 {
                seq!['-']
            } else {
                Seq::<char>::empty()
            }));
            assert(out@ =~= fraction_text(self.num.0.value(), self.den.value()));
        }
        crate::text::string_of(&out)
    }
}

/// A reduced fraction is reduced already: reducing twice gives what reducing
/// once gave.
pub proof fn law_reduce_idempotent(num_bits: nat, den: nat)
    requires
        num_bits < modulus(),
    ensures
        reduced_num(reduced_num(num_bits, den), reduced_den(num_bits, den)) == reduced_num(
            num_bits,
            den,
        ),
        reduced_den(reduced_num(num_bits, den), reduced_den(num_bits, den)) == reduced_den(
            num_bits,
            den,
        ),
{
    if num_bits != 0 {
        lemma_half();
        let a = abs_of(signed_of(num_bits));
        assert(0 < a <= half());
        let g = gcd_nat(a, den);
        lemma_gcd_divides(a, den);
        let n1 = a / g;
        let d1 = den / g;
        lemma_fundamental_div_mod(a as int, g as int);
        lemma_fundamental_div_mod(den as int, g as int);
        assert(a == g * n1);
        assert(den == g * d1);
        assert(1 <= n1 <= a) by (nonlinear_arith)
            requires
                a == g * n1,
                a > 0,
                g > 0,
        ;
        if signed_of(num_bits) < 0 {
            let m = modulus() as int;
            lemma_fundamental_div_mod_converse(-(n1 as int), m, -1, m - n1);
            assert(wrap(-(n1 as int)) == m - n1);
            assert(signed_of(wrap(-(n1 as int))) == -(n1 as int));
        } else {
            assert(abs_of(signed_of(n1)) == n1);
        }
        crate::gcd::lemma_gcd_scale(n1, d1, g);
        assert(gcd_nat(n1, d1) == 1) by (nonlinear_arith)
            requires
                g * gcd_nat(n1, d1) == g,
                g > 0,
        ;
        assert(n1 / 1 == n1);
        assert(d1 / 1 == d1);
    }
}

/// Reducing keeps the fraction's value, sign included, and leaves the
/// numerator and the denominator with no common factor.
pub proof fn law_reduce_keeps_value(num_bits: nat, den: nat)
    requires
        0 < num_bits < modulus(),
    ensures
        signed_of(reduced_num(num_bits, den)) * den == signed_of(num_bits) * reduced_den(
            num_bits,
            den,
        ),
        gcd_nat(abs_of(signed_of(reduced_num(num_bits, den))), reduced_den(num_bits, den)) == 1,
{
    lemma_half();
    let s = signed_of(num_bits);
    let a = abs_of(s);
    assert(0 < a <= half());
    let g = gcd_nat(a, den);
    lemma_gcd_divides(a, den);
    let n1 = a / g;
    let d1 = den / g;
    lemma_fundamental_div_mod(a as int, g as int);
    lemma_fundamental_div_mod(den as int, g as int);
    assert(a == g * n1);
    assert(den == g * d1);
    assert(1 <= n1 <= a) by (nonlinear_arith)
        requires
            a == g * n1,
            a > 0,
            g > 0,
    ;
    crate::gcd::lemma_gcd_scale(n1, d1, g);
    assert(gcd_nat(n1, d1) == 1) by (nonlinear_arith)
        requires
            g * gcd_nat(n1, d1) == g,
            g > 0,
    ;
    if s < 0 {
        let m = modulus() as int;
        lemma_fundamental_div_mod_converse(-(n1 as int), m, -1, m - n1);
        assert(signed_of(reduced_num(num_bits, den)) == -(n1 as int));
        assert(s == -(a as int));
        assert((-(n1 as int)) * den == (-(a as int)) * d1) by (nonlinear_arith)
            requires
                a == g * n1,
                den == g * d1,
        ;
    } else {
        assert(signed_of(reduced_num(num_bits, den)) == n1 as int);
        assert(s == a as int);
        assert((n1 as int) * den == (a as int) * d1) by (nonlinear_arith)
            requires
                a == g * n1,
                den == g * d1,
        ;
    }
}

} // verus!
