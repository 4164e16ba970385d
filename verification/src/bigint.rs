//! Fixed-width 1024-bit integers: `u1024` (unsigned, sixteen 64-bit limbs,
//! least significant first) and `i1024` (two's complement over a `u1024`).
//!
//! The value of a `u1024` is `sum(limb[i] * 2^(64 i))`; arithmetic wraps
//! modulo 2^1024 where the type cannot hold the exact result.
use vstd::prelude::*;
use vstd::arithmetic::power2::{pow2, lemma_pow2_adds, lemma_pow2_pos, lemma2_to64, lemma_pow2_unfold};
use vstd::arithmetic::div_mod::{
    lemma_fundamental_div_mod, lemma_fundamental_div_mod_converse, lemma_mod_multiples_vanish,
    lemma_div_denominator,
};
use vstd::bits::{lemma_u64_shr_is_div, lemma_u64_shl_is_mul, lemma_u64_pow2_no_overflow};
use vstd::std_specs::bits::{u64_trailing_zeros, axiom_u64_trailing_zeros};

verus! {

// ---------------------------------------------------------------------------
// Values
// ---------------------------------------------------------------------------
/// 2^64, the base of a limb.
pub open spec fn limb_base() -> nat {
    0x1_0000_0000_0000_0000
}

/// 2^(64 i): the weight of limb `i`.
pub open spec fn weight(i: nat) -> nat {
    pow2(64 * i)
}

/// 2^1024: the modulus of `u1024` arithmetic.
pub open spec fn modulus() -> nat {
    weight(16)
}

/// The number whose limbs, least significant first, are `s`.
pub open spec fn limbs_val(s: Seq<u64>) -> nat
    decreases s.len(),
{
    if s.len() == 0 {
        0
    } else {
        limbs_val(s.drop_last()) + weight((s.len() - 1) as nat) * (s.last() as nat)
    }
}

pub proof fn lemma_weight_succ(i: nat)
    ensures
        weight(i + 1) == weight(i) * limb_base(),
        weight(i) > 0,
{
    lemma2_to64();
    lemma_pow2_adds(64 * i, 64);
    assert(64 * (i + 1) == 64 * i + 64) by (nonlinear_arith);
    lemma_pow2_pos(64 * i);
}

pub proof fn lemma_weight_add(i: nat, j: nat)
    ensures
        weight(i + j) == weight(i) * weight(j),
{
    lemma_pow2_adds(64 * i, 64 * j);
    assert(64 * (i + j) == 64 * i + 64 * j) by (nonlinear_arith);
}

/// A number of `n` limbs is below 2^(64 n).
pub proof fn lemma_val_bound(s: Seq<u64>)
    ensures
        limbs_val(s) < weight(s.len()),
    decreases s.len(),
{
    if s.len() == 0 {
        lemma2_to64();
        assert(weight(0) == pow2(0));
    } else {
        let n = (s.len() - 1) as nat;
        lemma_val_bound(s.drop_last());
        lemma_weight_succ(n);
        let w = weight(n);
        let x = s.last() as int;
        assert(w * x <= w * (limb_base() - 1)) by (nonlinear_arith)
            requires
                0 <= x < limb_base(),
                w > 0,
        ;
        assert(w * (limb_base() - 1) + w == w * limb_base()) by (nonlinear_arith);
    }
}

/// The value of the first `i + 1` limbs.
pub proof fn lemma_val_prefix(s: Seq<u64>, i: int)
    requires
        0 <= i < s.len(),
    ensures
        limbs_val(s.take(i + 1)) == limbs_val(s.take(i)) + weight(i as nat) * s[i],
{
    assert(s.take(i + 1).drop_last() =~= s.take(i));
}

/// Changing limb `k` changes the value by its weight times the difference.
pub proof fn lemma_val_update(s: Seq<u64>, k: int, x: u64)
    requires
        0 <= k < s.len(),
    ensures
        limbs_val(s.update(k, x)) + weight(k as nat) * s[k] == limbs_val(s) + weight(k as nat) * x,
    decreases s.len(),
{
    let t = s.update(k, x);
    if k == s.len() - 1 {
        assert(t.drop_last() =~= s.drop_last());
    } else {
        assert(t.drop_last() =~= s.drop_last().update(k, x));
        lemma_val_update(s.drop_last(), k, x);
    }
}

/// The value of the limbs from `k` on, read as a number of their own.
pub proof fn lemma_val_split(s: Seq<u64>, k: int)
    requires
        0 <= k <= s.len(),
    ensures
        limbs_val(s) == limbs_val(s.take(k)) + weight(k as nat) * limbs_val(s.skip(k)),
    decreases s.len(),
{
    if k == s.len() {
        assert(s.take(k) =~= s);
        assert(s.skip(k) =~= Seq::<u64>::empty());
        assert(limbs_val(s.skip(k)) == 0);
        let a = weight(k as nat);
        assert(a * 0 == 0) by (nonlinear_arith);
    } else {
        lemma_val_split(s.drop_last(), k);
        assert(s.drop_last().take(k) =~= s.take(k));
        assert(s.skip(k).drop_last() =~= s.drop_last().skip(k));
        let m = (s.skip(k).len() - 1) as nat;
        assert(s.skip(k).last() == s.last());
        lemma_weight_add(k as nat, m);
        assert((k + m) as nat == (s.len() - 1) as nat);
        let a = weight(k as nat);
        let b = weight(m);
        let r = limbs_val(s.drop_last().skip(k));
        let l = s.last() as nat;
        assert(limbs_val(s.skip(k)) == r + b * l);
        assert(limbs_val(s) == limbs_val(s.drop_last()) + weight((s.len() - 1) as nat) * l);
        assert(a * (r + b * l) == a * r + (a * b) * l) by (nonlinear_arith);
        assert(limbs_val(s.drop_last()) == limbs_val(s.take(k)) + a * r);
        assert(weight((s.len() - 1) as nat) == a * b);
    }
}

/// 2^64 is the limb base, and it splits as 2^b * 2^(64 - b).
pub proof fn lemma_pow2_split64(b: nat)
    requires
        b <= 64,
    ensures
        pow2(b) * pow2((64 - b) as nat) == limb_base(),
        pow2(b) > 0,
        pow2((64 - b) as nat) > 0,
{
    lemma2_to64();
    lemma_pow2_adds(b, (64 - b) as nat);
    lemma_pow2_pos(b);
    lemma_pow2_pos((64 - b) as nat);
}

/// The limbs from `k` on are the first limb there plus 2^64 times the rest.
pub proof fn lemma_val_skip_head(s: Seq<u64>, k: int)
    requires
        0 <= k < s.len(),
    ensures
        limbs_val(s.skip(k)) == s[k] + limb_base() * limbs_val(s.skip(k + 1)),
{
    let t = s.skip(k);
    lemma_val_split(t, 1);
    assert(t.skip(1) =~= s.skip(k + 1));
    assert(t.take(0) =~= Seq::<u64>::empty());
    lemma_val_prefix(t, 0);
    lemma2_to64();
    assert(weight(0) == 1);
    assert(limbs_val(t.take(0)) == 0);
    assert(t[0] == s[k]);
    let w0 = weight(0);
    let h = t[0] as int;
    assert(w0 * h == h) by (nonlinear_arith)
        requires
            w0 == 1,
    ;
    assert(limbs_val(t.take(1)) == s[k]);
}

/// Dividing by the weight of limb `k` drops the limbs below it.
pub proof fn lemma_val_div_weight(s: Seq<u64>, k: int)
    requires
        0 <= k <= s.len(),
    ensures
        limbs_val(s) / weight(k as nat) == limbs_val(s.skip(k)),
{
    lemma_val_split(s, k);
    lemma_val_bound(s.take(k));
    lemma_weight_succ(k as nat);
    let w = weight(k as nat);
    let hi = limbs_val(s.skip(k));
    assert(w * hi == hi * w) by (nonlinear_arith);
    lemma_fundamental_div_mod_converse(
        limbs_val(s) as int,
        weight(k as nat) as int,
        limbs_val(s.skip(k)) as int,
        limbs_val(s.take(k)) as int,
    );
}

/// For `y` of 64 bits, testing its lowest bit is taking it modulo 2.
pub proof fn lemma_low_bit(y: u64)
    ensures
        ((y & 1) == 1) == (y % 2 == 1),
{
    assert(((y & 1) == 1) == (y % 2 == 1)) by (bit_vector);
}

/// Bit `64 k + b` of the number is bit `b` of limb `k`.
pub proof fn lemma_bit_of_value(s: Seq<u64>, k: int, b: nat)
    requires
        0 <= k < s.len(),
        b < 64,
    ensures
        (limbs_val(s) / pow2((64 * k + b) as nat)) % 2 == (s[k] as nat / pow2(b)) % 2,
{
    let v = limbs_val(s) as int;
    let w = weight(k as nat) as int;
    let p = pow2(b) as int;
    let q = pow2((64 - b) as nat) as int;
    let sk = s[k] as int;
    let rest = limbs_val(s.skip(k + 1)) as int;
    lemma_val_div_weight(s, k);
    lemma_weight_succ(k as nat);
    lemma_pow2_adds(64 * k as nat, b);
    assert((64 * k as nat + b) as nat == (64 * k + b) as nat);
    lemma_pow2_split64(b);
    lemma_div_denominator(v, w, p);
    lemma_val_skip_head(s, k);
    let x = limbs_val(s.skip(k)) as int;
    assert(x == sk + limb_base() * rest);
    lemma_fundamental_div_mod(sk, p);
    assert(x == (sk / p + q * rest) * p + sk % p) by (nonlinear_arith)
        requires
            x == sk + limb_base() * rest,
            sk == p * (sk / p) + sk % p,
            p * q == limb_base(),
    ;
    lemma_fundamental_div_mod_converse(x, p, sk / p + q * rest, sk % p);
    lemma_pow2_unfold((64 - b) as nat);
    let h = pow2((63 - b) as nat) as int;
    assert(q * rest == 2 * (h * rest)) by (nonlinear_arith)
        requires
            q == 2 * h,
    ;
    lemma_mod_multiples_vanish(h * rest, sk / p, 2);
}

/// The low `b` bits of limb `k`, or zero past the end.
pub open spec fn low_part(s: Seq<u64>, k: int, p: int) -> int {
    if 0 <= k < s.len() {
        s[k] as int % p
    } else {
        0
    }
}

/// The bits that limb `k` pushes past its top when shifted left by `b`
/// (`q` = 2^(64 - b)), or zero where there is no such limb or no shift.
pub open spec fn high_part(s: Seq<u64>, k: int, q: int, shifting: bool) -> int {
    if shifting && 0 <= k < s.len() {
        s[k] as int / q
    } else {
        0
    }
}

/// A nonzero 64-bit `x` is 2^t times an odd number, `t` its trailing zeros.
pub proof fn lemma_u64_trailing_zeros(x: u64)
    requires
        x != 0,
    ensures
        u64_trailing_zeros(x) < 64,
        x == pow2(u64_trailing_zeros(x) as nat) * (x as nat / pow2(u64_trailing_zeros(x) as nat)),
        (x as nat / pow2(u64_trailing_zeros(x) as nat)) % 2 == 1,
{
    let t = u64_trailing_zeros(x);
    axiom_u64_trailing_zeros(x);
    let tt = t as u64;
    assert(tt < 64);
    assert(x << ((64 - tt) as u64) == 0);
    assert((x << ((64 - tt) as u64) == 0 && tt < 64) ==> ((x >> tt) << tt) == x) by (bit_vector);
    lemma_u64_shr_is_div(x, tt);
    let y = x >> tt;
    let p = pow2(t as nat);
    lemma_pow2_pos(t as nat);
    lemma_fundamental_div_mod(x as int, p as int);
    assert(y * p <= x);
    lemma_u64_shl_is_mul(y, tt);
    lemma_low_bit(y);
}

/// The character of a decimal digit.
pub open spec fn digit_char(d: nat) -> char {
    (d + ('0' as nat)) as char
}

/// The decimal digits of `n`, most significant first, without leading zeros
/// (`"0"` for zero).
pub open spec fn decimal(n: nat) -> Seq<char>
    decreases n,
{
    if n < 10 {
        seq![digit_char(n)]
    } else {
        decimal(n / 10).push(digit_char(n % 10))
    }
}

/// A number of 64 bits or less is its lowest limb.
pub proof fn lemma_val_small(s: Seq<u64>)
    requires
        s.len() > 0,
        limbs_val(s) < limb_base(),
    ensures
        limbs_val(s) == s[0],
{
    lemma_val_skip_head(s, 0);
    assert(s.skip(0) =~= s);
}

/// The character of decimal digit `d`.
fn digit_to_char(d: u64) -> (c: char)
    requires
        d < 10,
    ensures
        c == digit_char(d as nat),
{
    match d {
        0 => '0',
        1 => '1',
        2 => '2',
        3 => '3',
        4 => '4',
        5 => '5',
        6 => '6',
        7 => '7',
        8 => '8',
        _ => '9',
    }
}

/// The trailing zeros of `u | v` are the fewer of the two counts.
pub proof fn lemma_trailing_zeros_or(u: u64, v: u64)
    requires
        u != 0,
        v != 0,
    ensures
        u64_trailing_zeros(u | v) == if u64_trailing_zeros(u) <= u64_trailing_zeros(v) {
            u64_trailing_zeros(u)
        } else {
            u64_trailing_zeros(v)
        },
{
    let w = u | v;
    axiom_u64_trailing_zeros(u);
    axiom_u64_trailing_zeros(v);
    axiom_u64_trailing_zeros(w);
    assert(w != 0) by (bit_vector)
        requires
            u != 0,
            w == u | v,
    ;
    let tu = u64_trailing_zeros(u) as u64;
    let tv = u64_trailing_zeros(v) as u64;
    let tw = u64_trailing_zeros(w) as u64;
    let m = if tu <= tv {
        tu
    } else {
        tv
    };
    assert forall|j: u64| j < 64 implies #[trigger] ((w >> j) & 1u64) == ((u >> j) & 1u64) | ((v
        >> j) & 1u64) by {
        assert(((u | v) >> j) & 1u64 == ((u >> j) & 1u64) | ((v >> j) & 1u64)) by (bit_vector);
    }
    assert forall|x: u64, y: u64| (x == 1u64 || y == 1u64) && x <= 1 && y <= 1 implies (x | y)
        == 1u64 by {
        assert((x == 1u64 || y == 1u64) && x <= 1 && y <= 1 ==> (x | y) == 1u64) by (bit_vector);
    }
    assert forall|j: u64| true implies (#[trigger] ((u >> j) & 1u64)) <= 1 by {
        assert((u >> j) & 1u64 <= 1) by (bit_vector);
    }
    assert forall|j: u64| true implies (#[trigger] ((v >> j) & 1u64)) <= 1 by {
        assert((v >> j) & 1u64 <= 1) by (bit_vector);
    }
    assert((0u64 | 0u64) == 0u64) by (bit_vector);
    if tw < m {
        assert((w >> tw) & 1u64 == 1u64);
        assert((u >> tw) & 1u64 == 0u64);
        assert((v >> tw) & 1u64 == 0u64);
        assert((w >> tw) & 1u64 == ((u >> tw) & 1u64) | ((v >> tw) & 1u64));
    }
    if m < tw {
        assert((w >> m) & 1u64 == 0u64);
        if tu <= tv {
            assert((u >> tu) & 1u64 == 1u64);
        } else {
            assert((v >> tv) & 1u64 == 1u64);
        }
        assert((w >> m) & 1u64 == ((u >> m) & 1u64) | ((v >> m) & 1u64));
    }
}

/// The trailing zero bits of a number given by its limbs, lowest first: the
/// count below the lowest one bit, or 64 per limb when all are zero.
pub open spec fn limb_tz(s: Seq<u64>) -> nat
    decreases s.len(),
{
    if s.len() == 0 {
        0
    } else if s[0] != 0 {
        u64_trailing_zeros(s[0]) as nat
    } else {
        64 + limb_tz(s.skip(1))
    }
}

/// The trailing zeros of a limb-wise `or` are the fewer of the two counts.
pub proof fn lemma_limb_tz_or(s: Seq<u64>, t: Seq<u64>, o: Seq<u64>)
    requires
        s.len() == t.len(),
        o.len() == s.len(),
        forall|i: int| 0 <= i < s.len() ==> o[i] == s[i] | t[i],
    ensures
        limb_tz(o) == if limb_tz(s) <= limb_tz(t) {
            limb_tz(s)
        } else {
            limb_tz(t)
        },
    decreases s.len(),
{
    if s.len() > 0 {
        let a = s[0];
        let b = t[0];
        assert(o[0] == a | b);
        if a != 0 && b != 0 {
            lemma_trailing_zeros_or(a, b);
            assert(a | b != 0) by (bit_vector)
                requires
                    a != 0,
            ;
        } else if a != 0 {
            assert(a | 0u64 == a) by (bit_vector);
            lemma_u64_trailing_zeros(a);
        } else if b != 0 {
            assert(0u64 | b == b) by (bit_vector);
            lemma_u64_trailing_zeros(b);
        } else {
            assert(0u64 | 0u64 == 0u64) by (bit_vector);
            lemma_limb_tz_or(s.skip(1), t.skip(1), o.skip(1));
        }
    }
}

// ---------------------------------------------------------------------------
// u1024
// ---------------------------------------------------------------------------
/// An unsigned 1024-bit integer: sixteen 64-bit limbs, least significant first.
#[allow(non_camel_case_types)]
#[derive(Clone, Copy, PartialEq, Eq, PartialOrd, Ord, Default, Debug)]
pub struct u1024(pub [u64; 16]);

impl u1024 {
    /// The number this value stands for.
    pub open spec fn value(self) -> nat {
        limbs_val(self.0@)
    }

    /// Zero.
    pub fn zero() -> (r: u1024)
        ensures
            r.value() == 0,
    {
        let r = u1024([0u64; 16]);
        assert(r.0@ =~= Seq::new(16, |i: int| 0u64));
        proof {
            lemma_all_zero(r.0@);
        }
        r
    }

    /// One.
    pub fn one() -> (r: u1024)
        ensures
            r.value() == 1,
    {
        let mut d = [0u64; 16];
        d[0] = 1;
        let r = u1024(d);
        proof {
            lemma_all_zero(r.0@.skip(1));
            lemma_val_split(r.0@, 1);
            assert(r.0@.take(0) =~= Seq::<u64>::empty());
            lemma_val_prefix(r.0@, 0);
            lemma2_to64();
            assert(weight(0) == 1);
            assert(limbs_val(r.0@.take(1)) == r.0@[0]);
        }
        r
    }

    /// A `u1024` holding a 64-bit number.
    pub fn from_u64(x: u64) -> (r: u1024)
        ensures
            r.value() == x,
    {
        let mut d = [0u64; 16];
        d[0] = x;
        let r = u1024(d);
        proof {
            lemma_all_zero(r.0@.skip(1));
            lemma_val_split(r.0@, 1);
            assert(r.0@.take(0) =~= Seq::<u64>::empty());
            lemma_val_prefix(r.0@, 0);
            lemma2_to64();
            assert(weight(0) == 1);
            assert(limbs_val(r.0@.take(1)) == r.0@[0]);
        }
        r
    }

    /// Whether the value is zero.
    pub fn is_zero(&self) -> (r: bool)
        ensures
            r == (self.value() == 0),
    {
        let mut i: usize = 0;
        while i < 16
            invariant
                i <= 16,
                forall|k: int| 0 <= k < i ==> self.0@[k] == 0,
            decreases 16 - i,
        {
            if self.0[i] != 0 {
                proof {
                    lemma_val_split(self.0@, i as int);
                    lemma_val_skip_head(self.0@, i as int);
                    let w = weight(i as nat);
                    lemma_weight_succ(i as nat);
                    let rest = limbs_val(self.0@.skip(i as int));
                    assert(rest >= self.0@[i as int]);
                    assert(w * rest >= 1) by (nonlinear_arith)
                        requires
                            w > 0,
                            rest >= 1,
                    ;
                }
                return false;
            }
            i += 1;
        }
        proof {
            assert(self.0@ =~= Seq::new(16, |k: int| 0u64));
            lemma_all_zero(self.0@);
        }
        true
    }

    /// `self + rhs + carry_in`, with the carry out of the top limb.
    pub fn add_with_carry(self, rhs: u1024, carry_in: bool) -> (r: (u1024, bool))
        ensures
            r.0.value() + (if r.1 {
                modulus()
            } else {
                0
            }) == self.value() + rhs.value() + (if carry_in {
                1nat
            } else {
                0
            }),
    {
        let mut res = [0u64; 16];
        let mut carry: u64 = if carry_in {
            1
        } else {
            0
        };
        let mut i: usize = 0;
        proof {
            lemma2_to64();
            assert(self.0@.take(0) =~= Seq::<u64>::empty());
            assert(rhs.0@.take(0) =~= Seq::<u64>::empty());
            assert(res@.take(0) =~= Seq::<u64>::empty());
            assert(weight(0) == 1);
        }
        while i < 16
            invariant
                i <= 16,
                carry <= 1,
                limbs_val(res@.take(i as int)) + carry * weight(i as nat) == limbs_val(
                    self.0@.take(i as int),
                ) + limbs_val(rhs.0@.take(i as int)) + (if carry_in {
                    1nat
                } else {
                    0
                }),
            decreases 16 - i,
        {
            let sum: u128 = self.0[i] as u128 + rhs.0[i] as u128 + carry as u128;
            let lo = (sum % 0x1_0000_0000_0000_0000u128) as u64;
            let hi = (sum / 0x1_0000_0000_0000_0000u128) as u64;
            let ghost old_res = res@;
            res[i] = lo;
            proof {
                assert(res@.take(i as int) =~= old_res.take(i as int));
                lemma_val_prefix(res@, i as int);
                lemma_val_prefix(self.0@, i as int);
                lemma_val_prefix(rhs.0@, i as int);
                lemma_weight_succ(i as nat);
                let w = weight(i as nat);
                assert(sum == lo + hi * limb_base());
                assert(w * lo + hi * (w * limb_base()) == w * (self.0@[i as int] + rhs.0@[
                    i as int
                ] + carry)) by (nonlinear_arith)
                    requires
                        lo + hi * limb_base() == self.0@[i as int] + rhs.0@[i as int] + carry,
                ;
                assert(w * (self.0@[i as int] + rhs.0@[i as int] + carry) == w * self.0@[i as int]
                    + w * rhs.0@[i as int] + carry * w) by (nonlinear_arith);
                assert(weight((i + 1) as nat) == w * limb_base());
                assert(res@[i as int] == lo);
                assert(limbs_val(res@.take(i + 1)) + hi * weight((i + 1) as nat) == limbs_val(
                    self.0@.take(i + 1),
                ) + limbs_val(rhs.0@.take(i + 1)) + (if carry_in {
                    1nat
                } else {
                    0
                }));
            }
            carry = hi;
            i += 1;
        }
        proof {
            assert(res@.take(16) =~= res@);
            assert(self.0@.take(16) =~= self.0@);
            assert(rhs.0@.take(16) =~= rhs.0@);
        }
        (u1024(res), carry == 1)
    }

    /// `self + rhs`, with the carry out of the top limb.
    pub fn carrying_add(self, rhs: u1024) -> (r: (u1024, bool))
        ensures
            r.0.value() + (if r.1 {
                modulus()
            } else {
                0
            }) == self.value() + rhs.value(),
            r.0.value() == (self.value() + rhs.value()) % modulus(),
            r.1 == (self.value() + rhs.value() >= modulus()),
    {
        let r = self.add_with_carry(rhs, false);
        proof {
            lemma_val_bound(r.0.0@);
            lemma_fundamental_div_mod_converse(
                (self.value() + rhs.value()) as int,
                modulus() as int,
                if r.1 {
                    1
                } else {
                    0
                },
                r.0.value() as int,
            );
        }
        r
    }

    /// `self - rhs`, with the borrow out of the top limb.
    pub fn borrowing_sub(self, rhs: u1024) -> (r: (u1024, bool))
        ensures
            r.0.value() - (if r.1 {
                modulus() as int
            } else {
                0
            }) == self.value() - rhs.value(),
            r.0.value() == (self.value() - rhs.value()) % (modulus() as int),
            r.1 == (self.value() < rhs.value()),
    {
        let mut res = [0u64; 16];
        let mut borrow: u64 = 0;
        let mut i: usize = 0;
        proof {
            lemma2_to64();
            assert(self.0@.take(0) =~= Seq::<u64>::empty());
            assert(rhs.0@.take(0) =~= Seq::<u64>::empty());
            assert(res@.take(0) =~= Seq::<u64>::empty());
        }
        while i < 16
            invariant
                i <= 16,
                borrow <= 1,
                limbs_val(res@.take(i as int)) - borrow * weight(i as nat) == limbs_val(
                    self.0@.take(i as int),
                ) - limbs_val(rhs.0@.take(i as int)),
            decreases 16 - i,
        {
            let a = self.0[i];
            let b = rhs.0[i];
            let (lo, hi): (u64, u64) = if a as u128 >= b as u128 + borrow as u128 {
                ((a as u128 - b as u128 - borrow as u128) as u64, 0)
            } else {
                ((a as u128 + 0x1_0000_0000_0000_0000u128 - b as u128 - borrow as u128) as u64, 1)
            };
            let ghost old_res = res@;
            res[i] = lo;
            proof {
                assert(res@.take(i as int) =~= old_res.take(i as int));
                lemma_val_prefix(res@, i as int);
                lemma_val_prefix(self.0@, i as int);
                lemma_val_prefix(rhs.0@, i as int);
                lemma_weight_succ(i as nat);
                let w = weight(i as nat);
                assert(lo - hi * limb_base() == a - b - borrow);
                assert(w * lo - hi * (w * limb_base()) == w * (a - b - borrow)) by (nonlinear_arith)
                    requires
                        lo - hi * limb_base() == a - b - borrow,
                ;
                assert(w * (a - b - borrow) == w * a - w * b - borrow * w) by (nonlinear_arith);
                assert(weight((i + 1) as nat) == w * limb_base());
                assert(res@[i as int] == lo);
                assert(limbs_val(res@.take(i + 1)) - hi * weight((i + 1) as nat) == limbs_val(
                    self.0@.take(i + 1),
                ) - limbs_val(rhs.0@.take(i + 1)));
            }
            borrow = hi;
            i += 1;
        }
        proof {
            assert(res@.take(16) =~= res@);
            assert(self.0@.take(16) =~= self.0@);
            assert(rhs.0@.take(16) =~= rhs.0@);
            lemma_val_bound(res@);
            lemma_val_bound(self.0@);
            lemma_val_bound(rhs.0@);
            lemma_fundamental_div_mod_converse(
                self.value() - rhs.value(),
                modulus() as int,
                -(borrow as int),
                limbs_val(res@) as int,
            );
        }
        (u1024(res), borrow == 1)
    }

    /// `self * rhs` modulo 2^1024, by schoolbook multiplication.
    pub fn full_mul(self, rhs: u1024) -> (r: u1024)
        ensures
            r.value() == (self.value() * rhs.value()) % modulus(),
    {
        let mut res = [0u64; 16];
        let ghost mut k: int = 0;
        proof {
            lemma_all_zero(res@);
            assert(self.0@.take(0) =~= Seq::<u64>::empty());
            assert(limbs_val(self.0@.take(0)) == 0);
            let bv = rhs.value();
            assert(0 * bv == 0) by (nonlinear_arith);
            assert(0 * modulus() == 0) by (nonlinear_arith);
        }
        let mut i: usize = 0;
        while i < 16
            invariant
                i <= 16,
                limbs_val(res@) + k * modulus() == limbs_val(self.0@.take(i as int)) * rhs.value(),
            decreases 16 - i,
        {
            let ai = self.0[i];
            let ghost start = res@;
            let n: usize = 16 - i;
            let mut carry: u128 = 0;
            let mut j: usize = 0;
            proof {
                assert(rhs.0@.take(0) =~= Seq::<u64>::empty());
                assert(limbs_val(rhs.0@.take(0)) == 0);
                let w0 = weight(i as nat);
                assert(ai * 0 * w0 == 0) by (nonlinear_arith);
            }
            while j < n
                invariant
                    i < 16,
                    n == 16 - i,
                    j <= n,
                    carry < limb_base(),
                    ai == self.0@[i as int],
                    limbs_val(res@) + carry * weight((i + j) as nat) == limbs_val(start) + ai
                        * limbs_val(rhs.0@.take(j as int)) * weight(i as nat),
                decreases n - j,
            {
                let bj = rhs.0[j];
                let rv = res[i + j];
                proof {
                    assert(ai * bj <= 0xffff_ffff_ffff_fffe_0000_0000_0000_0001) by (nonlinear_arith)
                        requires
                            ai <= 0xffff_ffff_ffff_ffff,
                            bj <= 0xffff_ffff_ffff_ffff,
                    ;
                }
                let prod: u128 = (ai as u128) * (bj as u128) + (rv as u128) + carry;
                let lo = (prod % 0x1_0000_0000_0000_0000u128) as u64;
                let hi: u128 = prod / 0x1_0000_0000_0000_0000u128;
                let ghost old_res = res@;
                res[i + j] = lo;
                proof {
                    let p = (i + j) as int;
                    assert(res@ == old_res.update(p, lo));
                    lemma_val_update(old_res, p, lo);
                    lemma_val_prefix(rhs.0@, j as int);
                    lemma_weight_succ(p as nat);
                    lemma_weight_add(i as nat, j as nat);
                    let wp = weight(p as nat);
                    let wi = weight(i as nat);
                    let wj = weight(j as nat);
                    let tb = limbs_val(rhs.0@.take(j as int));
                    assert(prod == lo + hi * limb_base());
                    assert(wp == wi * wj);
                    assert(hi * (wp * limb_base()) == wp * (hi * limb_base())) by (nonlinear_arith);
                    assert(wp * prod == wp * lo + wp * (hi * limb_base())) by (nonlinear_arith)
                        requires
                            prod == lo + hi * limb_base(),
                    ;
                    assert(wp * prod == wp * (ai * bj) + wp * rv + wp * carry) by (nonlinear_arith)
                        requires
                            prod == ai * bj + rv + carry,
                    ;
                    assert(wp * (ai * bj) == ai * (wj * bj) * wi) by (nonlinear_arith)
                        requires
                            wp == wi * wj,
                    ;
                    assert(ai * (tb + wj * bj) * wi == ai * tb * wi + ai * (wj * bj) * wi)
                        by (nonlinear_arith);
                    assert(carry * wp == wp * carry) by (nonlinear_arith);
                    assert(limbs_val(rhs.0@.take(j + 1)) == tb + wj * bj);
                    assert(weight((i + j + 1) as nat) == wp * limb_base());
                }
                carry = hi;
                j += 1;
            }
            proof {
                let nn = n as int;
                let tb = limbs_val(rhs.0@.take(nn));
                let ub = limbs_val(rhs.0@.skip(nn));
                let wi = weight(i as nat);
                let wn = weight(n as nat);
                let m = modulus() as int;
                let a0 = limbs_val(self.0@.take(i as int));
                let bv = rhs.value() as int;
                lemma_val_split(rhs.0@, nn);
                lemma_weight_add(i as nat, n as nat);
                lemma_val_prefix(self.0@, i as int);
                assert((i + n) as nat == 16);
                assert(m == wi * wn);
                assert(bv == tb + wn * ub);
                assert(limbs_val(self.0@.take(i + 1)) == a0 + wi * ai);
                assert((a0 + wi * ai) * bv == a0 * bv + ai * tb * wi + (ai * ub) * m)
                    by (nonlinear_arith)
                    requires
                        bv == tb + wn * ub,
                        m == wi * wn,
                ;
                k = k + carry + ai * ub;
                assert(limbs_val(res@) + k * m == (a0 + wi * ai) * bv) by (nonlinear_arith)
                    requires
                        limbs_val(res@) + carry * m == limbs_val(start) + ai * tb * wi,
                        limbs_val(start) + (k - carry - ai * ub) * m == a0 * bv,
                        (a0 + wi * ai) * bv == a0 * bv + ai * tb * wi + (ai * ub) * m,
                ;
            }
            i += 1;
        }
        proof {
            assert(self.0@.take(16) =~= self.0@);
            lemma_val_bound(res@);
            lemma_fundamental_div_mod_converse(
                (self.value() * rhs.value()) as int,
                modulus() as int,
                k,
                limbs_val(res@) as int,
            );
        }
        u1024(res)
    }

    /// Bit `i` of the value.
    fn get_bit(&self, i: u32) -> (r: bool)
        requires
            i < 1024,
        ensures
            r == ((self.value() / pow2(i as nat)) % 2 == 1),
    {
        let w: usize = (i / 64) as usize;
        let b: u64 = (i % 64) as u64;
        let limb = self.0[w];
        let shifted = limb >> b;
        proof {
            lemma_u64_shr_is_div(limb, b);
            lemma_low_bit(shifted);
            lemma_bit_of_value(self.0@, w as int, b as nat);
            assert((64 * w + b) as nat == i as nat);
        }
        shifted & 1 == 1
    }

    /// One for `true`, zero for `false`.
    fn from_bit(bit: bool) -> (r: u1024)
        ensures
            r.value() == (if bit {
                1nat
            } else {
                0
            }),
    {
        if bit {
            u1024::one()
        } else {
            u1024::zero()
        }
    }

    /// Quotient and remainder of `self / rhs`, by binary long division from
    /// the top bit down.
    pub fn div_rem(self, rhs: u1024) -> (r: (u1024, u1024))
        requires
            rhs.value() != 0,
        ensures
            r.0.value() == self.value() / rhs.value(),
            r.1.value() == self.value() % rhs.value(),
    {
        let mut quotient = u1024::zero();
        let mut remainder = u1024::zero();
        let ghost v = self.value() as int;
        let ghost d = rhs.value() as int;
        let ghost m = modulus() as int;
        proof {
            lemma_val_bound(self.0@);
            lemma_val_bound(rhs.0@);
            assert(m == pow2(1024));
            lemma_fundamental_div_mod_converse(v, m, 0, v);
        }
        let mut i: u32 = 1024;
        while i > 0
            invariant
                i <= 1024,
                v == self.value(),
                d == rhs.value(),
                m == modulus(),
                0 < d < m,
                0 <= v < m,
                quotient.value() * d + remainder.value() == v / (pow2(i as nat) as int),
                remainder.value() < d,
            decreases i,
        {
            i -= 1;
            let bit = self.get_bit(i);
            let ghost q = quotient.value() as int;
            let ghost r = remainder.value() as int;
            let ghost p_old = v / (pow2((i + 1) as nat) as int);
            let ghost p_new = v / (pow2(i as nat) as int);
            let ghost b: int = if bit {
                1
            } else {
                0
            };
            proof {
                lemma_pow2_pos(i as nat);
                lemma_pow2_adds(i as nat, 1);
                lemma2_to64();
                lemma_div_denominator(v, pow2(i as nat) as int, 2);
                assert(pow2((i + 1) as nat) == pow2(i as nat) * 2);
                lemma_fundamental_div_mod(p_new, 2);
                assert(p_new == 2 * p_old + b);
                assert(0 <= p_new <= v) by (nonlinear_arith)
                    requires
                        p_new == v / (pow2(i as nat) as int),
                        pow2(i as nat) >= 1,
                        v >= 0,
                {
                    vstd::arithmetic::div_mod::lemma_div_is_ordered_by_denominator(
                        v,
                        1,
                        pow2(i as nat) as int,
                    );
                }
            }
            let (doubled, carry) = remainder.add_with_carry(remainder, bit);
            proof {
                lemma_val_bound(doubled.0@);
            }
            if carry || !doubled.less_than(rhs) {
                let (diff, _) = doubled.borrowing_sub(rhs);
                proof {
                    lemma_val_bound(diff.0@);
                    assert(diff.value() == 2 * r + b - d);
                    assert(2 * q + 1 <= p_new) by (nonlinear_arith)
                        requires
                            q * d + r == p_old,
                            p_new == 2 * p_old + b,
                            2 * r + b >= d,
                            d >= 1,
                            q >= 0,
                    ;
                }
                let (q2, _) = quotient.add_with_carry(quotient, true);
                proof {
                    lemma_val_bound(q2.0@);
                    assert(q2.value() == 2 * q + 1);
                    assert((2 * q + 1) * d + (2 * r + b - d) == p_new) by (nonlinear_arith)
                        requires
                            q * d + r == p_old,
                            p_new == 2 * p_old + b,
                    ;
                }
                remainder = diff;
                quotient = q2;
            } else {
                proof {
                    assert(2 * q <= p_new) by (nonlinear_arith)
                        requires
                            q * d + r == p_old,
                            p_new == 2 * p_old + b,
                            d >= 1,
                            q >= 0,
                            r >= 0,
                            b >= 0,
                    ;
                }
                let (q2, _) = quotient.add_with_carry(quotient, false);
                proof {
                    lemma_val_bound(q2.0@);
                    assert(q2.value() == 2 * q);
                    assert((2 * q) * d + (2 * r + b) == p_new) by (nonlinear_arith)
                        requires
                            q * d + r == p_old,
                            p_new == 2 * p_old + b,
                    ;
                }
                remainder = doubled;
                quotient = q2;
            }
        }
        proof {
            lemma2_to64();
            assert(v / 1 == v);
            lemma_fundamental_div_mod_converse(v, d, quotient.value() as int, remainder.value() as int);
        }
        (quotient, remainder)
    }

    /// `self >> rhs`: the value divided by 2^rhs, rounded down.
    pub fn shr(self, rhs: u32) -> (r: u1024)
        requires
            rhs < 1088,
        ensures
            r.value() == self.value() / pow2(rhs as nat),
    {
        let mut res = [0u64; 16];
        let w: usize = (rhs / 64) as usize;
        let b: u64 = (rhs % 64) as u64;
        let n: usize = 16 - w;
        let ghost a = self.0@;
        let ghost s = a.skip(w as int);
        let ghost p = pow2(b as nat) as int;
        let ghost qq = pow2((64 - b) as nat) as int;
        proof {
            lemma_u64_pow2_no_overflow(b as nat);
            lemma_u64_shl_is_mul(1, b);
            lemma_pow2_split64(b as nat);
            assert(res@.take(0) =~= Seq::<u64>::empty());
            assert(s.take(0) =~= Seq::<u64>::empty());
            lemma2_to64();
            assert(limbs_val(res@.take(0)) == 0);
            assert(0 * p == 0) by (nonlinear_arith);
            assert(limbs_val(s.take(0)) == 0);
            assert(low_part(s, 0, p) * weight(0) == low_part(s, 0, p) * 1);
        }
        let pm: u64 = 1u64 << b;
        let mut i: usize = 0;
        while i < n
            invariant
                w <= 16,
                n == 16 - w,
                i <= n,
                b < 64,
                a == self.0@,
                s == a.skip(w as int),
                p == pow2(b as nat),
                qq == pow2((64 - b) as nat),
                pm == p,
                p * qq == limb_base(),
                p > 0,
                qq > 0,
                b == 0 ==> p == 1,
                forall|k: int| i <= k < 16 ==> res@[k] == 0,
                limbs_val(res@.take(i as int)) * p + low_part(s, 0, p) == limbs_val(s.take(i as int))
                    + low_part(s, i as int, p) * weight(i as nat),
            decreases n - i,
        {
            let cur = self.0[i + w];
            let hi_part = cur >> b;
            let ghost rnext = low_part(s, i + 1, p);
            proof {
                lemma_u64_shr_is_div(cur, b);
                assert(s[i as int] == cur);
                lemma_fundamental_div_mod(cur as int, p);
                assert(hi_part < qq) by (nonlinear_arith)
                    requires
                        hi_part == cur as int / p,
                        cur < p * qq,
                        p > 0,
                {
                    vstd::arithmetic::div_mod::lemma_multiply_divide_lt(cur as int, p, qq);
                }
                assert(0 <= rnext < p);
                if b == 0 {
                    assert(p == 1);
                    assert(rnext == 0);
                }
            }
            let v: u64 = if b > 0 && i + 1 < n {
                let nxt = self.0[i + w + 1];
                let low = nxt % pm;
                proof {
                    assert(low == rnext);
                    assert(low * qq <= p * qq - qq) by (nonlinear_arith)
                        requires
                            low < p,
                            qq > 0,
                    ;
                    lemma_u64_shl_is_mul(low, (64 - b) as u64);
                    assert(hi_part + low * qq < limb_base()) by (nonlinear_arith)
                        requires
                            hi_part < qq,
                            low * qq <= p * qq - qq,
                            p * qq == limb_base(),
                    ;
                }
                hi_part + (low << (64 - b))
            } else {
                proof {
                    assert(rnext == 0);
                }
                hi_part
            };
            let ghost old_res = res@;
            res[i] = v;
            proof {
                assert(v == hi_part + rnext * qq);
                assert(res@.take(i as int) =~= old_res.take(i as int));
                lemma_val_prefix(res@, i as int);
                lemma_val_prefix(s, i as int);
                lemma_weight_succ(i as nat);
                let wi = weight(i as nat) as int;
                let lr = limbs_val(res@.take(i as int)) as int;
                let ls = limbs_val(s.take(i as int)) as int;
                let r0 = low_part(s, 0, p);
                assert(low_part(s, i as int, p) == cur as int % p);
                assert((lr + wi * v) * p + r0 == ls + wi * cur + rnext * (wi * limb_base()))
                    by (nonlinear_arith)
                    requires
                        lr * p + r0 == ls + (cur as int % p) * wi,
                        v == hi_part + rnext * qq,
                        cur as int == p * hi_part + cur as int % p,
                        p * qq == limb_base(),
                ;
            }
            i += 1;
        }
        proof {
            let lr = limbs_val(res@.take(n as int)) as int;
            assert(s.take(n as int) =~= s);
            assert(low_part(s, n as int, p) == 0);
            lemma_val_split(res@, n as int);
            lemma_all_zero(res@.skip(n as int));
            let wn = weight(n as nat) as int;
            assert(wn * 0 == 0) by (nonlinear_arith);
            assert(limbs_val(res@) == lr);
            assert(low_part(s, 0, p) < p);
            assert(lr * p + low_part(s, 0, p) == limbs_val(s));
            lemma_fundamental_div_mod_converse(limbs_val(s) as int, p, lr, low_part(s, 0, p));
            assert(lr == limbs_val(s) as int / p);
            lemma_val_div_weight(a, w as int);
            lemma_weight_succ(w as nat);
            let ww = weight(w as nat) as int;
            lemma_div_denominator(self.value() as int, ww, p);
            assert((self.value() as int / ww) / p == self.value() as int / (ww * p));
            lemma_pow2_adds((64 * w) as nat, b as nat);
            assert((64 * w + b) as nat == rhs as nat);
            assert(pow2(rhs as nat) == ww * p);
            assert(self.value() as int / ww == limbs_val(s));
        }
        u1024(res)
    }

    /// `self << rhs`: the value times 2^rhs, modulo 2^1024.
    pub fn shl(self, rhs: u32) -> (r: u1024)
        ensures
            r.value() == (self.value() * pow2(rhs as nat)) % modulus(),
    {
        let mut res = [0u64; 16];
        let w_full: u32 = rhs / 64;
        let b: u64 = (rhs % 64) as u64;
        let ghost a = self.0@;
        let ghost m = modulus() as int;
        let ghost v = self.value() as int;
        proof {
            lemma_all_zero(res@);
            lemma_val_bound(self.0@);
        }
        if w_full >= 16 {
            proof {
                lemma_pow2_adds(1024, (rhs - 1024) as nat);
                assert(m == pow2(1024));
                let k = pow2((rhs - 1024) as nat) as int;
                assert(v * pow2(rhs as nat) == (v * k) * m) by (nonlinear_arith)
                    requires
                        pow2(rhs as nat) == m * k,
                ;
                lemma_fundamental_div_mod_converse(v * pow2(rhs as nat), m, v * k, 0);
            }
            return u1024(res);
        }
        let w: usize = w_full as usize;
        let ghost p = pow2(b as nat) as int;
        let ghost qq = pow2((64 - b) as nat) as int;
        let ghost shifting = b > 0;
        proof {
            lemma_pow2_split64(b as nat);
            lemma2_to64();
            assert(a.take(0) =~= Seq::<u64>::empty());
            lemma_val_split(res@, w as int);
            lemma_all_zero(res@.take(w as int));
            let ww = weight(w as nat) as int;
            assert(ww * 0 * p == 0) by (nonlinear_arith);
        }
        let qm: u64 = if b > 0 {
            proof {
                lemma_u64_pow2_no_overflow((64 - b) as nat);
                lemma_u64_shl_is_mul(1, (64 - b) as u64);
            }
            1u64 << (64 - b)
        } else {
            0
        };
        let mut i: usize = w;
        while i < 16
            invariant
                w <= i <= 16,
                b < 64,
                a == self.0@,
                p == pow2(b as nat),
                qq == pow2((64 - b) as nat),
                shifting == (b > 0),
                b > 0 ==> qm == qq,
                p * qq == limb_base(),
                p > 0,
                qq > 0,
                b == 0 ==> p == 1 && qq == limb_base(),
                forall|k: int| i <= k < 16 ==> res@[k] == 0,
                limbs_val(res@.take(i as int)) + high_part(a, i - w - 1, qq, shifting) * weight(
                    i as nat,
                ) == weight(w as nat) * limbs_val(a.take(i - w)) * p,
            decreases 16 - i,
        {
            let cur = self.0[i - w];
            let ghost hprev = high_part(a, i - w - 1, qq, shifting);
            let ghost hnext = high_part(a, i - w, qq, shifting);
            proof {
                lemma_fundamental_div_mod(cur as int, qq);
                assert(0 <= hprev < p) by {
                    if shifting && i > w {
                        let prev = a[i - w - 1] as int;
                        vstd::arithmetic::div_mod::lemma_multiply_divide_lt(prev, qq, p);
                        assert(prev < qq * p);
                    }
                }
            }
            let v: u64 = if b == 0 {
                proof {
                    assert(p == 1);
                    assert(hprev == 0 && hnext == 0);
                }
                cur
            } else {
                let low = cur % qm;
                proof {
                    assert(low * p <= qq * p - p) by (nonlinear_arith)
                        requires
                            low < qq,
                            p > 0,
                    ;
                    lemma_u64_shl_is_mul(low, b);
                }
                let lo = low << b;
                if i > w {
                    let prev = self.0[i - w - 1];
                    let hp = prev >> (64 - b);
                    proof {
                        lemma_u64_shr_is_div(prev, (64 - b) as u64);
                        assert(hp == hprev);
                    }
                    lo + hp
                } else {
                    proof {
                        assert(hprev == 0);
                    }
                    lo
                }
            };
            let ghost old_res = res@;
            res[i] = v;
            proof {
                let j = i - w;
                let cv = cur as int;
                assert(a[j] == cur);
                assert(res@.take(i as int) =~= old_res.take(i as int));
                lemma_val_prefix(res@, i as int);
                lemma_val_prefix(a, j);
                lemma_weight_succ(i as nat);
                lemma_weight_add(w as nat, j as nat);
                assert((w + j) as nat == i as nat);
                let wi = weight(i as nat) as int;
                let ww = weight(w as nat) as int;
                let wj = weight(j as nat) as int;
                let lr = limbs_val(res@.take(i as int)) as int;
                let la = limbs_val(a.take(j)) as int;
                let bl = limb_base() as int;
                assert(wi * (cv * p) == ww * (wj * cv) * p) by (nonlinear_arith)
                    requires
                        wi == ww * wj,
                ;
                assert(ww * la * p + ww * (wj * cv) * p == ww * (la + wj * cv) * p)
                    by (nonlinear_arith);
                if b == 0 {
                    assert(hprev == 0 && hnext == 0);
                    assert(v == cv);
                    assert(cv * p == cv) by (nonlinear_arith)
                        requires
                            p == 1,
                    ;
                    assert(wi * 0 == 0) by (nonlinear_arith);
                    assert(lr + wi * v == ww * (la + wj * cv) * p);
                    let wn = weight((i + 1) as nat) as int;
                    assert(hnext * wn == 0) by (nonlinear_arith)
                        requires
                            hnext == 0,
                    ;
                    assert(lr + wi * v + hnext * wn == ww * (la + wj * cv) * p);
                } else {
                    let lo = (cv % qq) * p;
                    assert(v == lo + hprev);
                    assert(hnext == cv / qq);
                    assert(cv * p == lo + hnext * bl) by (nonlinear_arith)
                        requires
                            cv == qq * (cv / qq) + cv % qq,
                            p * qq == bl,
                            lo == (cv % qq) * p,
                            hnext == cv / qq,
                    ;
                    assert(wi * v + hnext * (wi * bl) == wi * hprev + wi * (cv * p))
                        by (nonlinear_arith)
                        requires
                            v == lo + hprev,
                            cv * p == lo + hnext * bl,
                    ;
                    assert(lr + hprev * wi == ww * la * p);
                    assert(hprev * wi == wi * hprev) by (nonlinear_arith);
                    assert(lr + wi * v + hnext * (wi * bl) == ww * (la + wj * cv) * p);
                }
                assert(weight((i + 1) as nat) == wi * bl);
                assert(high_part(a, i + 1 - w - 1, qq, shifting) == hnext);
                assert(limbs_val(res@.take(i + 1)) == lr + wi * v);
                assert(limbs_val(a.take(j + 1)) == la + wj * cv);
            }
            i += 1;
        }
        proof {
            let n = 16 - w;
            let ww = weight(w as nat) as int;
            let wn = weight(n as nat) as int;
            let lt = limbs_val(a.take(n)) as int;
            let ls = limbs_val(a.skip(n)) as int;
            let h = high_part(a, 15 - w, qq, shifting);
            assert(res@.take(16) =~= res@);
            lemma_val_bound(res@);
            lemma_val_split(a, n);
            lemma_weight_add(w as nat, n as nat);
            assert((w + n) as nat == 16);
            lemma_pow2_adds((64 * w) as nat, b as nat);
            assert((64 * w + b) as nat == rhs as nat);
            assert(pow2(rhs as nat) == ww * p);
            assert(0 <= h) by {
                if shifting {
                    vstd::arithmetic::div_mod::lemma_div_pos_is_pos(a[15 - w] as int, qq);
                }
            }
            assert(v * pow2(rhs as nat) == self.value() * (ww * p));
            assert(v * (ww * p) == lt * (ww * p) + ls * (wn * ww * p)) by (nonlinear_arith)
                requires
                    v == lt + wn * ls,
            ;
            assert(ls * (wn * ww * p) == (ls * p) * m) by (nonlinear_arith)
                requires
                    m == ww * wn,
            ;
            assert(lt * (ww * p) == ww * lt * p) by (nonlinear_arith);
            assert((h + ls * p) * m == h * m + (ls * p) * m) by (nonlinear_arith);
            assert(v * (ww * p) == limbs_val(res@) + (h + ls * p) * m);
            lemma_fundamental_div_mod_converse(v * pow2(rhs as nat), m, h + ls * p, limbs_val(res@) as int);
        }
        u1024(res)
    }

    /// The number of zero bits below the lowest one bit; 1024 for zero.
    pub fn trailing_zeros(&self) -> (r: u32)
        ensures
            r == limb_tz(self.0@),
            self.value() == 0 ==> r == 1024,
            self.value() != 0 ==> r < 1024 && self.value() % pow2(r as nat) == 0 && (self.value()
                / pow2(r as nat)) % 2 == 1,
    {
        let mut count: u32 = 0;
        let mut w: usize = 0;
        proof {
            assert(self.0@.skip(0) =~= self.0@);
        }
        while w < 16
            invariant
                w <= 16,
                count == 64 * w,
                forall|k: int| 0 <= k < w ==> self.0@[k] == 0,
                limb_tz(self.0@) == count + limb_tz(self.0@.skip(w as int)),
            decreases 16 - w,
        {
            let word = self.0[w];
            proof {
                assert(self.0@.skip(w as int)[0] == word);
                assert(self.0@.skip(w as int).skip(1) =~= self.0@.skip(w + 1));
            }
            if word == 0 {
                count += 64;
            } else {
                let t = word.trailing_zeros();
                proof {
                    let s = self.0@;
                    lemma_u64_trailing_zeros(word);
                    let p = pow2(t as nat) as int;
                    let o = word as int / p;
                    let ww = weight(w as nat) as int;
                    let rest = limbs_val(s.skip(w + 1)) as int;
                    let q = pow2((64 - t) as nat) as int;
                    let h = pow2((63 - t) as nat) as int;
                    lemma_val_split(s, w as int);
                    lemma_all_zero(s.take(w as int));
                    lemma_val_skip_head(s, w as int);
                    lemma_pow2_split64(t as nat);
                    lemma_pow2_unfold((64 - t) as nat);
                    lemma_pow2_adds((64 * w) as nat, t as nat);
                    lemma_pow2_pos((64 * w + t) as nat);
                    let y = o + q * rest;
                    let pr = pow2((64 * w + t) as nat) as int;
                    assert(pr == ww * p);
                    assert(self.value() == ww * (word + limb_base() * rest));
                    assert(self.value() == pr * y) by (nonlinear_arith)
                        requires
                            self.value() == ww * (word + limb_base() * rest),
                            word == p * o,
                            p * q == limb_base(),
                            pr == ww * p,
                            y == o + q * rest,
                    ;
                    assert(y == 2 * (h * rest) + o) by (nonlinear_arith)
                        requires
                            q == 2 * h,
                            y == o + q * rest,
                    ;
                    lemma_mod_multiples_vanish(h * rest, o, 2);
                    vstd::arithmetic::div_mod::lemma_div_multiples_vanish(y, pr);
                    lemma_fundamental_div_mod_converse(self.value() as int, pr, y, 0);
                    assert((64 * w + t) as nat == (count + t) as nat);
                }
                return count + t;
            }
            w += 1;
        }
        proof {
            assert(self.0@ =~= Seq::new(16, |k: int| 0u64));
            lemma_all_zero(self.0@);
            assert(self.0@.skip(16) =~= Seq::<u64>::empty());
        }
        count
    }

    /// Limb-wise bitwise or.
    pub fn bitor(self, rhs: u1024) -> (r: u1024)
        ensures
            forall|k: int| 0 <= k < 16 ==> r.0@[k] == self.0@[k] | rhs.0@[k],
    {
        let mut res = [0u64; 16];
        let mut i: usize = 0;
        while i < 16
            invariant
                i <= 16,
                forall|k: int| 0 <= k < i ==> res@[k] == self.0@[k] | rhs.0@[k],
            decreases 16 - i,
        {
            res[i] = self.0[i] | rhs.0[i];
            i += 1;
        }
        u1024(res)
    }

    /// The value in decimal.
    pub fn to_string(&self) -> (r: String)
        ensures
            r@ == decimal(self.value()),
    {
        let mut digits: Vec<char> = Vec::new();
        if self.is_zero() {
            digits.push('0');
            proof {
                assert(digits@ =~= decimal(0));
            }
            return crate::text::string_of(&digits);
        }
        let ten = u1024::from_u64(10);
        let mut temp = *self;
        while !temp.is_zero()
            invariant
                ten.value() == 10,
                temp.value() > 0 ==> decimal(self.value()) == decimal(temp.value()) + digits@,
                temp.value() == 0 ==> decimal(self.value()) == digits@,
            decreases temp.value(),
        {
            let (q, r) = temp.div_rem(ten);
            proof {
                lemma_val_small(r.0@);
                lemma_fundamental_div_mod(temp.value() as int, 10);
            }
            let c = digit_to_char(r.0[0]);
            let ghost old_digits = digits@;
            digits.insert(0, c);
            proof {
                let t = temp.value();
                assert(digits@ =~= seq![c] + old_digits);
                if q.value() > 0 {
                    assert(decimal(t) == decimal(q.value()).push(c));
                    assert(decimal(q.value()).push(c) + old_digits =~= decimal(q.value()) + digits@);
                } else {
                    assert(t < 10);
                    assert(decimal(t) =~= seq![c]);
                }
            }
            temp = q;
        }
        crate::text::string_of(&digits)
    }

    /// Whether `self < rhs` as numbers.
    pub fn less_than(self, rhs: u1024) -> (r: bool)
        ensures
            r == (self.value() < rhs.value()),
    {
        let (d, borrow) = self.borrowing_sub(rhs);
        proof {
            lemma_val_bound(d.0@);
            lemma_val_bound(self.0@);
            lemma_val_bound(rhs.0@);
        }
        borrow
    }
}

pub proof fn lemma_all_zero(s: Seq<u64>)
    requires
        forall|i: int| 0 <= i < s.len() ==> s[i] == 0,
    ensures
        limbs_val(s) == 0,
    decreases s.len(),
{
    if s.len() > 0 {
        lemma_all_zero(s.drop_last());
    }
}

// ---------------------------------------------------------------------------
// Laws
// ---------------------------------------------------------------------------
/// Subtraction undoes addition: `(a + b) - b` is `a` again, modulo 2^1024,
/// whatever carry and borrow the two steps produce.
pub proof fn law_sub_undoes_add(a: u1024, b: u1024)
    ensures
        (((a.value() + b.value()) % modulus()) - b.value()) % (modulus() as int) == a.value(),
{
    let m = modulus() as int;
    let x = a.value() as int;
    let y = b.value() as int;
    lemma_val_bound(a.0@);
    lemma_val_bound(b.0@);
    lemma_fundamental_div_mod(x + y, m);
    let q = (x + y) / m;
    assert(0 <= q <= 1) by (nonlinear_arith)
        requires
            x + y == m * q + (x + y) % m,
            0 <= (x + y) % m < m,
            0 <= x < m,
            0 <= y < m,
    ;
    assert((x + y) % m - y == (-q) * m + x) by (nonlinear_arith)
        requires
            x + y == m * q + (x + y) % m,
    ;
    lemma_fundamental_div_mod_converse((x + y) % m - y, m, -q, x);
}

/// Addition undoes subtraction: `(a - b) + b` is `a` again, modulo 2^1024.
pub proof fn law_add_undoes_sub(a: u1024, b: u1024)
    ensures
        (((a.value() - b.value()) % (modulus() as int)) + b.value()) % (modulus() as int) == a.value(),
{
    let m = modulus() as int;
    let x = a.value() as int;
    let y = b.value() as int;
    lemma_val_bound(a.0@);
    lemma_val_bound(b.0@);
    lemma_fundamental_div_mod(x - y, m);
    let q = (x - y) / m;
    assert(-1 <= q <= 0) by (nonlinear_arith)
        requires
            x - y == m * q + (x - y) % m,
            0 <= (x - y) % m < m,
            0 <= x < m,
            0 <= y < m,
    ;
    assert((x - y) % m + y == (-q) * m + x) by (nonlinear_arith)
        requires
            x - y == m * q + (x - y) % m,
    ;
    lemma_fundamental_div_mod_converse((x - y) % m + y, m, -q, x);
}

/// Division and remainder give the number back: `(n / d) * d + n % d == n`,
/// with the remainder below the divisor.
pub proof fn law_div_rem_reconstructs(n: u1024, d: u1024)
    requires
        d.value() != 0,
    ensures
        (n.value() / d.value()) * d.value() + n.value() % d.value() == n.value(),
        n.value() % d.value() < d.value(),
{
    lemma_fundamental_div_mod(n.value() as int, d.value() as int);
}

/// Shifting left and then right by the same amount gives back the value, as
/// long as no bit was pushed past the top.
pub proof fn law_shr_undoes_shl(v: u1024, k: nat)
    requires
        v.value() * pow2(k) < modulus(),
    ensures
        ((v.value() * pow2(k)) % modulus()) / pow2(k) == v.value(),
{
    lemma_pow2_pos(k);
    vstd::arithmetic::div_mod::lemma_small_mod((v.value() * pow2(k)) as nat, modulus());
    vstd::arithmetic::div_mod::lemma_div_multiples_vanish(v.value() as int, pow2(k) as int);
    assert(v.value() * pow2(k) == pow2(k) * v.value()) by (nonlinear_arith);
}

} // verus!
