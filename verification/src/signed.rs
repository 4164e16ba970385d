//! `i1024`: a signed 1024-bit integer in two's complement over a `u1024`.
//!
//! Its bits read as a `u1024` are `self.0.value()`; as a signed number they
//! stand for that value, less 2^1024 when the top bit is set. Arithmetic wraps
//! modulo 2^1024, so each result is stated by the bits it leaves.
use vstd::prelude::*;
use vstd::arithmetic::power2::{pow2, lemma_pow2_adds, lemma_pow2_pos, lemma2_to64};
use vstd::arithmetic::div_mod::{
    lemma_fundamental_div_mod, lemma_fundamental_div_mod_converse, lemma_mod_multiples_vanish,
};
use crate::bigint::{
    u1024, limbs_val, weight, modulus, limb_base, decimal, lemma_val_bound, lemma_weight_succ,
    lemma_bit_of_value,
};

verus! {

/// 2^1023: the weight of the sign bit.
pub open spec fn half() -> nat {
    pow2(1023)
}

/// The bits, read as an unsigned number, that stand for `z` modulo 2^1024.
pub open spec fn wrap(z: int) -> nat {
    (z % (modulus() as int)) as nat
}

/// The magnitude of `z`.
pub open spec fn abs_of(z: int) -> nat {
    if z < 0 {
        (-z) as nat
    } else {
        z as nat
    }
}

/// Limbs that are bitwise complements add up to all ones.
pub proof fn lemma_val_complement(s: Seq<u64>, t: Seq<u64>)
    requires
        s.len() == t.len(),
        forall|i: int| 0 <= i < s.len() ==> s[i] + t[i] == 0xffff_ffff_ffff_ffff,
    ensures
        limbs_val(s) + limbs_val(t) + 1 == weight(s.len()),
    decreases s.len(),
{
    if s.len() == 0 {
        lemma2_to64();
        assert(weight(0) == pow2(0));
    } else {
        let n = (s.len() - 1) as nat;
        lemma_val_complement(s.drop_last(), t.drop_last());
        lemma_weight_succ(n);
        let w = weight(n) as int;
        let a = s.last() as int;
        let b = t.last() as int;
        assert(w * a + w * b == w * (limb_base() - 1)) by (nonlinear_arith)
            requires
                a + b == limb_base() - 1,
        ;
        assert(w * (limb_base() - 1) + w == w * limb_base()) by (nonlinear_arith);
    }
}

/// 2^1024 is twice 2^1023.
pub proof fn lemma_half()
    ensures
        modulus() == 2 * half(),
        half() > 0,
{
    lemma_pow2_adds(1023, 1);
    lemma2_to64();
    lemma_pow2_pos(1023);
    assert(modulus() == pow2(1024));
}

/// `x / y` rounded toward zero, as Rust divides integers.
pub open spec fn trunc_div(x: int, y: int) -> int {
    let q = (abs_of(x) / abs_of(y)) as int;
    if (x < 0) != (y < 0) {
        -q
    } else {
        q
    }
}

/// The remainder of `trunc_div`: it has the sign of `x`.
pub open spec fn trunc_rem(x: int, y: int) -> int {
    let r = (abs_of(x) % abs_of(y)) as int;
    if x < 0 {
        -r
    } else {
        r
    }
}

/// The sign, when negative, and the decimal digits of the magnitude.
pub open spec fn signed_decimal(z: int) -> Seq<char> {
    if z < 0 {
        seq!['-'] + decimal(abs_of(z))
    } else {
        decimal(abs_of(z))
    }
}

/// A signed 1024-bit integer, two's complement over the bits of a `u1024`.
#[allow(non_camel_case_types)]
#[derive(Clone, Copy, PartialEq, Eq, PartialOrd, Ord, Default, Debug)]
pub struct i1024(pub u1024);

impl i1024 {
    /// The signed number these bits stand for.
    pub open spec fn value(self) -> int {
        if self.0.value() >= half() {
            self.0.value() - modulus()
        } else {
            self.0.value() as int
        }
    }

    /// Whether the sign bit is set.
    pub fn is_negative(&self) -> (r: bool)
        ensures
            r == (self.value() < 0),
            r == (self.0.value() >= half()),
    {
        let top = self.0.0[15];
        let sign = top >> 63;
        proof {
            let v = self.0.value() as int;
            lemma_half();
            lemma_val_bound(self.0.0@);
            vstd::bits::lemma_u64_shr_is_div(top, 63);
            lemma_bit_of_value(self.0.0@, 15, 63);
            assert((64 * 15 + 63) as nat == 1023);
            let p63 = pow2(63) as int;
            lemma2_to64();
            vstd::arithmetic::power2::lemma2_to64_rest();
            assert(top as int / p63 < 2) by (nonlinear_arith)
                requires
                    p63 == 0x8000_0000_0000_0000,
                    0 <= top < 0x1_0000_0000_0000_0000,
            ;
            let h = half() as int;
            let k = v / h;
            lemma_fundamental_div_mod(v, h);
            assert(0 <= k < 2) by (nonlinear_arith)
                requires
                    v == h * k + v % h,
                    0 <= v % h < h,
                    0 <= v < 2 * h,
                    h > 0,
            ;
            assert(v >= h <==> k == 1) by (nonlinear_arith)
                requires
                    v == h * k + v % h,
                    0 <= v % h < h,
                    0 <= k < 2,
            ;
        }
        sign == 1
    }

    /// `-self`, modulo 2^1024: the bits inverted, plus one.
    pub fn neg(self) -> (r: i1024)
        ensures
            r.0.value() == wrap(-self.value()),
            r.0.value() == wrap(-(self.0.value() as int)),
    {
        let mut res = [0u64; 16];
        let mut i: usize = 0;
        while i < 16
            invariant
                i <= 16,
                forall|k: int| 0 <= k < i ==> res@[k] + self.0.0@[k] == 0xffff_ffff_ffff_ffff,
            decreases 16 - i,
        {
            let x = self.0.0[i];
            res[i] = !x;
            proof {
                assert(!x + x == 0xffff_ffff_ffff_ffff) by (bit_vector);
            }
            i += 1;
        }
        let (sum, carry) = u1024(res).carrying_add(u1024::one());
        proof {
            let v = self.0.value() as int;
            let m = modulus() as int;
            lemma_val_complement(self.0.0@, res@);
            lemma_val_bound(sum.0@);
            lemma_val_bound(self.0.0@);
            assert(sum.value() + (if carry { m } else { 0 }) == m - v);
            if carry {
                assert(v == 0);
                lemma_fundamental_div_mod_converse(-v, m, 0, 0);
            } else {
                lemma_fundamental_div_mod_converse(-v, m, -1, m - v);
            }
            lemma_signed_bits(self);
            lemma_wrap_eq(-self.value(), -v, if v >= half() { 1 } else { 0 });
        }
        i1024(sum)
    }

    /// `self + rhs`, modulo 2^1024.
    pub fn wrapping_add(self, rhs: i1024) -> (r: i1024)
        ensures
            r.0.value() == wrap(self.value() + rhs.value()),
            r.0.value() == wrap(self.0.value() + rhs.0.value() as int),
    {
        let (sum, carry) = self.0.carrying_add(rhs.0);
        proof {
            let m = modulus() as int;
            let a = self.0.value() as int;
            let b = rhs.0.value() as int;
            lemma_val_bound(sum.0@);
            lemma_fundamental_div_mod_converse(a + b, m, if carry {
                1
            } else {
                0
            }, sum.value() as int);
            lemma_wrap_signed(self, rhs);
        }
        i1024(sum)
    }

    /// `self - rhs`, modulo 2^1024: `self` plus the negation of `rhs`.
    pub fn wrapping_sub(self, rhs: i1024) -> (r: i1024)
        ensures
            r.0.value() == wrap(self.value() - rhs.value()),
    {
        let n = rhs.neg();
        let r = self.wrapping_add(n);
        proof {
            let m = modulus() as int;
            let a = self.value();
            let b = rhs.value();
            lemma_half();
            lemma_fundamental_div_mod(-b, m);
            lemma_signed_bits(self);
            let dx: int = if self.0.value() >= half() { 1 } else { 0 };
            let q = (-b) / m;
            assert(n.0.value() == -b - m * q);
            assert(self.0.value() == a + dx * m);
            assert(self.0.value() + n.0.value() as int == a - b + (dx - q) * m) by (nonlinear_arith)
                requires
                    n.0.value() == -b - m * q,
                    self.0.value() == a + dx * m,
            ;
            lemma_wrap_eq(self.0.value() + n.0.value() as int, a - b, dx - (-b) / m);
        }
        r
    }

    /// The magnitude as a `u1024`, and whether the number is negative.
    pub fn abs(self) -> (r: (u1024, bool))
        ensures
            r.1 == (self.value() < 0),
            r.0.value() == abs_of(self.value()),
    {
        if self.is_negative() {
            let n = self.neg();
            proof {
                let v = self.0.value() as int;
                let m = modulus() as int;
                lemma_half();
                lemma_val_bound(self.0.0@);
                lemma_fundamental_div_mod_converse(-v, m, -1, m - v);
            }
            (n.0, true)
        } else {
            (self.0, false)
        }
    }

    /// `self * rhs`, modulo 2^1024: the magnitudes multiplied, then the sign.
    pub fn wrapping_mul(self, rhs: i1024) -> (r: i1024)
        ensures
            r.0.value() == wrap(self.value() * rhs.value()),
    {
        let (a, s1) = self.abs();
        let (b, s2) = rhs.abs();
        let res = i1024(a.full_mul(b));
        let ghost z = a.value() * b.value();
        let ghost m = modulus() as int;
        proof {
            lemma_half();
            lemma_fundamental_div_mod(z as int, m);
            let x = self.value();
            let y = rhs.value();
            if (x < 0) != (y < 0) {
                assert(x * y == -(a.value() * b.value())) by (nonlinear_arith)
                    requires
                        a.value() == abs_of(x),
                        b.value() == abs_of(y),
                        (x < 0) != (y < 0),
                ;
            } else {
                assert(x * y == a.value() * b.value()) by (nonlinear_arith)
                    requires
                        a.value() == abs_of(x),
                        b.value() == abs_of(y),
                        (x < 0) == (y < 0),
                ;
            }
        }
        if s1 != s2 {
            let n = res.neg();
            proof {
                lemma_wrap_eq(-(res.0.value() as int), -(z as int), z as int / m);
            }
            n
        } else {
            proof {
                lemma_wrap_eq(z as int, res.0.value() as int, z as int / m);
                lemma_val_bound(res.0.0@);
                lemma_fundamental_div_mod_converse(res.0.value() as int, m, 0, res.0.value() as int);
            }
            res
        }
    }

    /// `self / rhs`, rounded toward zero, modulo 2^1024.
    pub fn div(self, rhs: i1024) -> (r: i1024)
        requires
            rhs.value() != 0,
        ensures
            r.0.value() == wrap(trunc_div(self.value(), rhs.value())),
    {
        let (a, s1) = self.abs();
        let (b, s2) = rhs.abs();
        let res = i1024(a.div_rem(b).0);
        proof {
            lemma_half();
            lemma_val_bound(res.0.0@);
        }
        if s1 != s2 {
            let n = res.neg();
            proof {
                lemma_wrap_eq(-(res.0.value() as int), trunc_div(self.value(), rhs.value()), 0);
            }
            n
        } else {
            proof {
                let m = modulus() as int;
                lemma_fundamental_div_mod_converse(res.0.value() as int, m, 0, res.0.value() as int);
            }
            res
        }
    }

    /// The remainder of `self / rhs`; it has the sign of `self`.
    pub fn rem(self, rhs: i1024) -> (r: i1024)
        requires
            rhs.value() != 0,
        ensures
            r.0.value() == wrap(trunc_rem(self.value(), rhs.value())),
    {
        let (a, s1) = self.abs();
        let (b, _) = rhs.abs();
        let res = i1024(a.div_rem(b).1);
        proof {
            lemma_half();
            lemma_val_bound(res.0.0@);
        }
        if s1 {
            let n = res.neg();
            proof {
                lemma_wrap_eq(-(res.0.value() as int), trunc_rem(self.value(), rhs.value()), 0);
            }
            n
        } else {
            proof {
                let m = modulus() as int;
                lemma_fundamental_div_mod_converse(res.0.value() as int, m, 0, res.0.value() as int);
            }
            res
        }
    }

    /// The number in decimal, with a leading `-` when negative.
    pub fn to_string(&self) -> (r: String)
        ensures
            r@ == signed_decimal(self.value()),
    {
        let (abs_val, is_neg) = self.abs();
        let digits = abs_val.to_string();
        if is_neg {
            let mut out: Vec<char> = Vec::new();
            out.push('-');
            crate::text::push_str(&mut out, digits.as_str());
            proof {
                assert(out@ =~= seq!['-'] + decimal(abs_of(self.value())));
            }
            crate::text::string_of(&out)
        } else {
            digits
        }
    }
}

/// Reading bits as signed or unsigned changes nothing modulo 2^1024.
pub proof fn lemma_wrap_signed(x: i1024, y: i1024)
    ensures
        wrap(x.value() + y.value()) == wrap(x.0.value() + y.0.value() as int),
{
    lemma_signed_bits(x);
    lemma_signed_bits(y);
    let dx: int = if x.0.value() >= half() {
        1
    } else {
        0
    };
    let dy: int = if y.0.value() >= half() {
        1
    } else {
        0
    };
    lemma_wrap_eq(x.0.value() + y.0.value() as int, x.value() + y.value(), dx + dy);
}

/// Numbers that differ by a multiple of 2^1024 wrap to the same bits.
pub proof fn lemma_wrap_eq(x: int, y: int, k: int)
    requires
        x == y + k * modulus(),
    ensures
        wrap(x) == wrap(y),
        0 <= wrap(x) < modulus(),
{
    let m = modulus() as int;
    lemma_half();
    assert(x == m * k + y) by (nonlinear_arith)
        requires
            x == y + k * m,
    ;
    lemma_mod_multiples_vanish(k, y, m);
    lemma_fundamental_div_mod(x, m);
}

/// Wrapping the parts of a sum wraps the sum.
pub proof fn lemma_wrap_sum(x: int, y: int)
    ensures
        wrap(wrap(x) + wrap(y) as int) == wrap(x + y),
{
    let m = modulus() as int;
    lemma_half();
    lemma_fundamental_div_mod(x, m);
    lemma_fundamental_div_mod(y, m);
    let qx = x / m;
    let qy = y / m;
    assert(wrap(x) + wrap(y) as int == x + y + (-qx - qy) * m) by (nonlinear_arith)
        requires
            x == m * qx + x % m,
            y == m * qy + y % m,
            wrap(x) == x % m,
            wrap(y) == y % m,
    ;
    lemma_wrap_eq(wrap(x) + wrap(y) as int, x + y, -qx - qy);
}

/// Negating the wrapped bits wraps the negation.
pub proof fn lemma_wrap_neg(x: int)
    ensures
        wrap(-(wrap(x) as int)) == wrap(-x),
{
    let m = modulus() as int;
    lemma_half();
    lemma_fundamental_div_mod(x, m);
    let q = x / m;
    assert(-(wrap(x) as int) == -x + q * m) by (nonlinear_arith)
        requires
            x == m * q + x % m,
            wrap(x) == x % m,
    ;
    lemma_wrap_eq(-(wrap(x) as int), -x, q);
}

/// The signed reading is the unsigned one, less 2^1024 when the sign bit is set.
pub proof fn lemma_signed_bits(x: i1024)
    ensures
        x.0.value() == x.value() + (if x.0.value() >= half() {
            1int
        } else {
            0
        }) * modulus(),
        -(half() as int) <= x.value() < half(),
        x.0.value() < modulus(),
{
    lemma_half();
    lemma_val_bound(x.0.0@);
}

/// Negating twice gives the same bits back, `i1024::MIN` included.
pub proof fn law_double_negation(x: i1024)
    ensures
        wrap(-(wrap(-(x.0.value() as int)) as int)) == x.0.value(),
{
    let v = x.0.value() as int;
    lemma_wrap_neg(-v);
    lemma_signed_bits(x);
    lemma_half();
    vstd::arithmetic::div_mod::lemma_small_mod(v as nat, modulus());
}

} // verus!
