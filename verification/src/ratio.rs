//! A fraction between zero and one, given as the bits of a binary64 number, and
//! whole shares of whole numbers in binary64 arithmetic.

use vstd::arithmetic::power2;
use vstd::prelude::*;

verus! {

/// The fraction `mantissa / 2^scale`, at most one.
#[derive(Debug, Clone, Copy)]
pub struct Ratio {
    mantissa: u64,
    scale: u32,
}

/// The fraction that a binary64 bit pattern stands for, as mantissa and scale:
/// the number itself between zero and one, one above it, zero below zero and for
/// what is no number.
pub open spec fn decoded(bits: u64) -> (nat, nat) {
    let negative = bits >= 0x8000_0000_0000_0000;
    let exponent = bits as nat / 0x10_0000_0000_0000 % 0x800;
    let fraction = bits as nat % 0x10_0000_0000_0000;
    if negative || (exponent == 0x7ff && fraction != 0) {
        (0, 0)
    } else if exponent >= 0x3ff {
        (1, 0)
    } else if exponent == 0 {
        (fraction, 1074)
    } else {
        ((0x10_0000_0000_0000 + fraction) as nat, (1075 - exponent) as nat)
    }
}

/// How many low bits of `n` lie beyond 53 significant ones.
pub open spec fn excess_bits(n: nat) -> nat
    decreases n,
{
    if n < 0x20_0000_0000_0000 {
        0
    } else {
        excess_bits(n / 2) + 1
    }
}

/// `n` rounded to 53 significant bits: to the nearest, of two equally near to
/// the even one.
pub open spec fn rounded(n: nat) -> nat {
    let unit = power2::pow2(excess_bits(n));
    let kept = n / unit;
    let rest = n % unit;
    if 2 * rest > unit || (2 * rest == unit && kept % 2 == 1) {
        (kept + 1) * unit
    } else {
        kept * unit
    }
}

/// The whole part of the rounded product of `n` and a fraction.
pub open spec fn share(n: nat, fraction: (nat, nat)) -> nat {
    rounded(n * fraction.0) / power2::pow2(fraction.1)
}

/// Whether the item at `index` falls to the share: the whole share of the items
/// up to it is larger than that of the items before it.
pub open spec fn falls_to_share(index: nat, fraction: (nat, nat)) -> bool {
    share(rounded(rounded(index) + 1), fraction) > share(rounded(index), fraction)
}

impl View for Ratio {
    type V = (nat, nat);

    closed spec fn view(&self) -> (nat, nat) {
        (self.mantissa as nat, self.scale as nat)
    }
}

proof fn excess_halves(p: nat, unit: nat, e: nat)
    requires
        unit == power2::pow2(e),
    ensures
        unit > 0,
        power2::pow2(e + 1) == 2 * unit,
        p / unit / 2 == p / (2 * unit),
{
    power2::lemma_pow2_pos(e);
    power2::lemma_pow2_unfold(e + 1);
    vstd::arithmetic::div_mod::lemma_div_denominator(p as int, unit as int, 2);
    assert(unit * 2 == 2 * unit) by (nonlinear_arith);
}

/// `n` rounded to 53 significant bits.
fn round(n: u128) -> (r: u128)
    requires
        n <= 0x100_0000_0000_0000_0000_0000_0000_0000,
    ensures
        r == rounded(n as nat),
        r <= 2 * n,
{
    let mut kept: u128 = n;
    let mut unit: u128 = 1;
    let ghost mut e: nat = 0;
    proof {
        power2::lemma2_to64();
    }
    while kept >= 0x20_0000_0000_0000
        invariant
            n <= 0x100_0000_0000_0000_0000_0000_0000_0000,
            unit == power2::pow2(e),
            unit >= 1,
            kept == n as nat / unit as nat,
            kept * unit <= n,
            excess_bits(n as nat) == excess_bits(kept as nat) + e,
        decreases kept,
    {
        proof {
            excess_halves(n as nat, unit as nat, e);
            assert(2 * unit <= n) by (nonlinear_arith)
                requires
                    kept * unit <= n,
                    kept >= 2,
            ;
            let half = kept / 2;
            assert(half * (2 * unit) <= kept * unit) by (nonlinear_arith)
                requires
                    2 * half <= kept,
                    unit >= 0,
            ;
            e = e + 1;
        }
        kept = kept / 2;
        unit = unit * 2;
    }
    assert(n as nat / unit as nat == kept);
    proof {
        vstd::arithmetic::div_mod::lemma_fundamental_div_mod(n as int, unit as int);
    }
    assert(kept * unit == unit * kept) by (nonlinear_arith);
    let rest: u128 = n - kept * unit;
    assert(rest as nat == n as nat % unit as nat);
    assert((kept + 1) * unit == kept * unit + unit) by (nonlinear_arith);
    if 2 * rest > unit || (2 * rest == unit && kept % 2 == 1) {
        (kept + 1) * unit
    } else {
        kept * unit
    }
}

impl Ratio {
    /// What holds of every value: 53 bits of mantissa, and no more than one.
    #[verifier::type_invariant]
    spec fn in_range(&self) -> bool {
        &&& self.mantissa < 0x20_0000_0000_0000
        &&& self.mantissa <= power2::pow2(self.scale as nat)
    }

    /// The fraction for the bits of a binary64 number.
    pub fn from_bits(bits: u64) -> (r: Self)
        ensures
            r@ == decoded(bits),
    {
        let exponent: u64 = bits / 0x10_0000_0000_0000 % 0x800;
        let fraction: u64 = bits % 0x10_0000_0000_0000;
        proof {
            power2::lemma2_to64();
            power2::lemma2_to64_rest();
            power2::lemma_pow2_pos(0);
        }
        if bits >= 0x8000_0000_0000_0000 || (exponent == 0x7ff && fraction != 0) {
            Ratio { mantissa: 0, scale: 0 }
        } else if exponent >= 0x3ff {
            Ratio { mantissa: 1, scale: 0 }
        } else if exponent == 0 {
            proof {
                power2::lemma_pow2_strictly_increases(53, 1074);
            }
            Ratio { mantissa: fraction, scale: 1074 }
        } else {
            proof {
                if exponent < 0x3fe {
                    power2::lemma_pow2_strictly_increases(53, (1075 - exponent) as nat);
                }
            }
            Ratio {
                mantissa: 0x10_0000_0000_0000 + fraction,
                scale: 1075 - exponent as u32,
            }
        }
    }

    /// The whole part of the rounded product of `n` and this fraction.
    fn share_of(&self, n: u128) -> (r: u128)
        requires
            n <= 0x8_0000_0000_0000_0000,
        ensures
            r == share(n as nat, self@),
    {
        proof {
            use_type_invariant(self);
        }
        let m: u128 = self.mantissa as u128;
        assert(n * m <= 0x100_0000_0000_0000_0000_0000_0000_0000) by (nonlinear_arith)
            requires
                n <= 0x8_0000_0000_0000_0000,
                m < 0x20_0000_0000_0000,
        ;
        assert(n as nat * m as nat == n * m) by (nonlinear_arith);
        let product: u128 = round(n * m);
        let mut rest: u128 = product;
        let mut k: u32 = 0;
        let ghost mut unit: nat = 1;
        proof {
            power2::lemma2_to64();
            assert(product as nat / 1 == product as nat);
        }
        while k < self.scale && rest > 0
            invariant
                k <= self.scale,
                unit == power2::pow2(k as nat),
                rest == product as nat / unit,
            decreases self.scale - k,
        {
            proof {
                excess_halves(product as nat, unit, k as nat);
                unit = 2 * unit;
            }
            rest = rest / 2;
            k += 1;
        }
        proof {
            if k < self.scale {
                power2::lemma_pow2_pos(k as nat);
                power2::lemma_pow2_strictly_increases(k as nat, self.scale as nat);
                let whole = power2::pow2(self.scale as nat);
                vstd::arithmetic::div_mod::lemma_fundamental_div_mod(product as int, unit as int);
                vstd::arithmetic::div_mod::lemma_mod_bound(product as int, unit as int);
                assert(unit * (product as int / unit as int) == 0) by (nonlinear_arith)
                    requires
                        product as int / unit as int == 0,
                ;
                assert(product < whole);
                vstd::arithmetic::div_mod::lemma_basic_div(product as int, whole as int);
            }
        }
        rest
    }

    /// Whether the item at `index` falls to this share of all items.
    pub fn takes(&self, index: usize) -> (r: bool)
        ensures
            r == falls_to_share(index as nat, self@),
    {
        let before: u128 = round(index as u128);
        let upto: u128 = round(before + 1);
        self.share_of(upto) > self.share_of(before)
    }

    /// The whole share of `n`, never more than `n` itself.
    pub fn part_of(&self, n: u64) -> (r: u64)
        ensures
            r as nat == if share(n as nat, self@) < n {
                share(n as nat, self@)
            } else {
                n as nat
            },
    {
        let s: u128 = self.share_of(n as u128);
        if s < n as u128 {
            s as u64
        } else {
            n
        }
    }
}

proof fn kept_bits(n: nat)
    ensures
        power2::pow2(excess_bits(n)) > 0,
        n / power2::pow2(excess_bits(n)) < 0x20_0000_0000_0000,
        n >= 0x20_0000_0000_0000 ==> n / power2::pow2(excess_bits(n)) >= 0x10_0000_0000_0000,
        n < 0x20_0000_0000_0000 ==> power2::pow2(excess_bits(n)) == 1,
    decreases n,
{
    power2::lemma2_to64();
    if n < 0x20_0000_0000_0000 {
        assert(n / 1 == n);
    } else {
        let e = excess_bits(n / 2);
        kept_bits(n / 2);
        power2::lemma_pow2_unfold(e + 1);
        let unit = power2::pow2(e);
        vstd::arithmetic::div_mod::lemma_div_denominator(n as int, 2, unit as int);
        assert(2 * unit == power2::pow2(e + 1));
        if n / 2 < 0x20_0000_0000_0000 {
            assert(n / 2 / 1 == n / 2);
        }
    }
}

/// Rounding keeps 53 significant bits and goes to the nearest such number, of two
/// equally near to the one whose last bit is zero.
pub proof fn rounding_goes_to_the_nearest(n: nat)
    ensures
        n < 0x20_0000_0000_0000 ==> rounded(n) == n,
        n >= 0x20_0000_0000_0000 ==> exists|kept: nat, unit: nat, e: nat|
            unit == #[trigger] power2::pow2(e) && rounded(n) == #[trigger] (kept * unit)
                && 0x10_0000_0000_0000 <= n / unit < 0x20_0000_0000_0000 && 2 * (rounded(n) - n)
                <= unit && 2 * (n - rounded(n)) <= unit && (2 * (rounded(n) - n) == unit || 2 * (n
                - rounded(n)) == unit ==> kept % 2 == 0),
{
    kept_bits(n);
    let e = excess_bits(n);
    let unit = power2::pow2(e);
    let kept = n / unit;
    let rest = n % unit;
    vstd::arithmetic::div_mod::lemma_fundamental_div_mod(n as int, unit as int);
    vstd::arithmetic::div_mod::lemma_mod_bound(n as int, unit as int);
    assert(unit * kept == kept * unit) by (nonlinear_arith);
    assert((kept + 1) * unit == kept * unit + unit) by (nonlinear_arith);
    if n < 0x20_0000_0000_0000 {
        assert(n % 1 == 0);
        assert(n * 1 == n);
    } else if 2 * rest > unit || (2 * rest == unit && kept % 2 == 1) {
        let up = (kept + 1) as nat;
        assert(rounded(n) == up * unit);
        assert(unit == power2::pow2(e));
    } else {
        assert(rounded(n) == kept * unit);
        assert(unit == power2::pow2(e));
    }
}

/// A share is the whole part of the rounded product: the largest number whose
/// multiple by the fraction's denominator the product covers.
pub proof fn share_is_the_whole_part(n: nat, mantissa: nat, scale: nat)
    ensures
        share(n, (mantissa, scale)) * power2::pow2(scale) <= rounded(n * mantissa),
        rounded(n * mantissa) < (share(n, (mantissa, scale)) + 1) * power2::pow2(scale),
{
    let whole = power2::pow2(scale);
    let product = rounded(n * mantissa);
    power2::lemma_pow2_pos(scale);
    vstd::arithmetic::div_mod::lemma_fundamental_div_mod(product as int, whole as int);
    vstd::arithmetic::div_mod::lemma_mod_bound(product as int, whole as int);
    let q = product / whole;
    assert(whole * q == q * whole) by (nonlinear_arith);
    assert((q + 1) * whole == q * whole + whole) by (nonlinear_arith);
}

/// An item falls to the share exactly where the share of the items up to and with
/// it is larger than that of the items before it.
pub proof fn items_fall_where_the_share_grows(index: nat, fraction: (nat, nat))
    requires
        index + 1 < 0x20_0000_0000_0000,
    ensures
        falls_to_share(index, fraction) <==> share(index + 1, fraction) > share(index, fraction),
{
    rounding_goes_to_the_nearest(index);
    rounding_goes_to_the_nearest(index + 1);
}

/// The bits of a binary64 number between zero and one give that number: a sign of
/// zero, an exponent of eleven bits biased by 1023, and 52 bits of fraction behind
/// an unwritten one, which numbers with the smallest exponent lack.
pub proof fn bits_between_zero_and_one(exponent: nat, fraction: nat, bits: u64)
    requires
        exponent < 1023,
        fraction < 0x10_0000_0000_0000,
        bits == exponent * 0x10_0000_0000_0000 + fraction,
    ensures
        exponent == 0 ==> decoded(bits) == (fraction, 1074nat),
        exponent > 0 ==> decoded(bits) == (
            (0x10_0000_0000_0000 + fraction) as nat,
            (1023 + 52 - exponent) as nat,
        ),
{
}

/// The bits of a binary64 number from one on, infinity among them, give one; those
/// of a negative number, and those of what is no number, give zero.
pub proof fn bits_beyond_the_ends(bits: u64)
    ensures
        0x3ff0_0000_0000_0000 <= bits <= 0x7ff0_0000_0000_0000 ==> decoded(bits) == (1nat, 0nat),
        bits > 0x7ff0_0000_0000_0000 ==> decoded(bits).0 == 0,
{
}

} // verus!
