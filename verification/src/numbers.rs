//! Exact arbitrary-precision integers and rationals.
//!
//! [`Int`] is a signed arbitrary-precision integer; [`Ratio`] is an
//! exact rational whose numerator is arbitrary precision and whose
//! denominator is a machine word (every rational this pipeline builds
//! has a denominator of at most 1000, from the decimal approximation
//! step).  Ratios are kept in lowest terms with a positive denominator,
//! so equal values are structurally equal.

use vstd::prelude::*;
use vstd::arithmetic::div_mod::*;
use crate::digits::{
    all_digit_bytes, all_digits, byte_of_digit, bytes_of_digits, canonical_digits, copy_range,
    digits_of_bytes, digits_value, digits_wf, div_mod_small, find_byte_from, gcd64, is_digit_byte,
    lemma_canonical_digits, lemma_digit_bytes_roundtrip, lemma_digits_value_injective,
    lemma_digits_value_nonneg, lemma_digits_value_zero, lemma_find_props, lemma_find_unique,
    normalize_digits, parse_digits_range, small_digits_to_u64, spec_find, spec_gcd, u64_to_digits,
};
use crate::Error;

verus! {

//
// Greatest-common-divisor theory.
//

/// The gcd of `a` and `b` divides both.
pub proof fn lemma_gcd_divides(a: nat, b: nat)
    requires
        a > 0 || b > 0,
    ensures
        spec_gcd(a, b) >= 1,
        (a as int) % (spec_gcd(a, b) as int) == 0,
        (b as int) % (spec_gcd(a, b) as int) == 0,
    decreases b,
{
    let g = spec_gcd(a, b);
    if b == 0 {
        assert(g == a);
        lemma_mod_self_0(a as int);
        lemma_small_mod(0, a as nat);
    } else {
        lemma_mod_bound(a as int, b as int);
        let r = ((a as int) % (b as int)) as nat;
        lemma_gcd_divides(b, r);
        assert(g == spec_gcd(b, r));
        lemma_fundamental_div_mod(a as int, b as int);
        lemma_fundamental_div_mod(b as int, g as int);
        lemma_fundamental_div_mod(r as int, g as int);
        let q = a as int / b as int;
        let kb = b as int / g as int;
        let kr = r as int / g as int;
        assert(a as int == (q * kb + kr) * g) by (nonlinear_arith)
            requires
                a as int == q * (b as int) + r,
                b as int == kb * (g as int) + 0,
                r as int == kr * (g as int) + 0,
        ;
        lemma_mod_multiples_basic(q * kb + kr, g as int);
    }
}

/// Any common divisor of `a` and `b` divides their gcd.
pub proof fn lemma_gcd_greatest(a: nat, b: nat, d: nat)
    requires
        d >= 1,
        (a as int) % (d as int) == 0,
        (b as int) % (d as int) == 0,
    ensures
        (spec_gcd(a, b) as int) % (d as int) == 0,
    decreases b,
{
    if b == 0 {
    } else {
        lemma_mod_bound(a as int, b as int);
        let r = ((a as int) % (b as int)) as nat;
        lemma_fundamental_div_mod(a as int, b as int);
        lemma_fundamental_div_mod(a as int, d as int);
        lemma_fundamental_div_mod(b as int, d as int);
        let q = a as int / b as int;
        let ka = a as int / d as int;
        let kb = b as int / d as int;
        assert(a as int == (b as int) * q + r);
        assert(a as int == (d as int) * ka + (a as int) % (d as int));
        assert(b as int == (d as int) * kb + (b as int) % (d as int));
        assert(a as int == q * (b as int) + r as int) by (nonlinear_arith)
            requires
                a as int == (b as int) * q + r as int,
        ;
        assert(a as int == ka * (d as int) + 0) by (nonlinear_arith)
            requires
                a as int == (d as int) * ka,
        ;
        assert(b as int == kb * (d as int) + 0) by (nonlinear_arith)
            requires
                b as int == (d as int) * kb,
        ;
        assert(r as int == (ka - q * kb) * d) by (nonlinear_arith)
            requires
                a as int == q * (b as int) + r,
                a as int == ka * (d as int) + 0,
                b as int == kb * (d as int) + 0,
        ;
        lemma_mod_multiples_basic(ka - q * kb, d as int);
        lemma_gcd_greatest(b, r, d);
    }
}

/// A positive multiple of `d` is at least `d`.
pub proof fn lemma_divisor_le(x: nat, d: nat)
    requires
        x >= 1,
        d >= 1,
        (x as int) % (d as int) == 0,
    ensures
        x >= d,
{
    lemma_fundamental_div_mod(x as int, d as int);
    let q = x as int / d as int;
    assert(x as int == (d as int) * q + (x as int) % (d as int));
    assert(x as int == (d as int) * q);
    assert(x as int == q * (d as int)) by (nonlinear_arith)
        requires
            x as int == (d as int) * q,
    ;
    if q <= 0 {
        assert(x as int == q * (d as int));
        assert(q * (d as int) <= 0) by (nonlinear_arith)
            requires
                q <= 0,
                d as int >= 1,
        ;
    } else {
        assert(q * (d as int) >= d as int) by (nonlinear_arith)
            requires
                q >= 1,
                d as int >= 1,
        ;
    }
}

/// Dividing `a` and `b` by their gcd leaves coprime parts.
pub proof fn lemma_gcd_quotient_coprime(a: nat, b: nat)
    requires
        b >= 1,
    ensures
        ({
            let g = spec_gcd(a, b);
            &&& g >= 1
            &&& (a as int) % (g as int) == 0
            &&& (b as int) % (g as int) == 0
            &&& (b as int / g as int) >= 1
            &&& spec_gcd((a as int / g as int) as nat, (b as int / g as int) as nat) == 1
        }),
{
    let g = spec_gcd(a, b);
    lemma_gcd_divides(a, b);
    lemma_fundamental_div_mod(a as int, g as int);
    lemma_fundamental_div_mod(b as int, g as int);
    let a1 = a as int / g as int;
    let b1 = b as int / g as int;
    assert(a as int == a1 * (g as int));
    assert(b as int == b1 * (g as int));
    lemma_div_pos_is_pos(a as int, g as int);
    lemma_div_pos_is_pos(b as int, g as int);
    if b1 == 0 {
        assert(b as int == 0) by (nonlinear_arith)
            requires
                b as int == b1 * (g as int),
                b1 == 0,
        ;
    }
    assert(b1 >= 1);
    let e = spec_gcd(a1 as nat, b1 as nat);
    lemma_gcd_divides(a1 as nat, b1 as nat);
    assert(e >= 1);
    lemma_fundamental_div_mod(a1, e as int);
    lemma_fundamental_div_mod(b1, e as int);
    let a2 = a1 / e as int;
    let b2 = b1 / e as int;
    assert(a as int == a2 * (e as int * g as int)) by (nonlinear_arith)
        requires
            a as int == a1 * (g as int),
            a1 == a2 * (e as int) + 0,
    ;
    assert(b as int == b2 * (e as int * g as int)) by (nonlinear_arith)
        requires
            b as int == b1 * (g as int),
            b1 == b2 * (e as int) + 0,
    ;
    assert(e as int * g as int >= 1) by (nonlinear_arith)
        requires
            e >= 1,
            g >= 1,
    ;
    lemma_mod_multiples_basic(a2, e as int * g as int);
    lemma_mod_multiples_basic(b2, e as int * g as int);
    lemma_gcd_greatest(a, b, (e * g) as nat);
    assert((e * g) as int == e as int * g as int) by (nonlinear_arith);
    if e >= 2 {
        assert((g as int) < (e as int) * (g as int)) by (nonlinear_arith)
            requires
                e >= 2,
                g >= 1,
        ;
        lemma_small_mod(g, (e * g) as nat);
        assert((g as int) % ((e * g) as nat as int) == g as int);
        assert(false);
    }
}

//
// Signed arbitrary-precision integers.
//

/// A signed arbitrary-precision integer: a sign and a canonical digit
/// string (zero is never negative).
#[derive(Debug, PartialEq, Eq)]
pub struct Int {
    pub negative: bool,
    pub magnitude: Vec<u8>,
}

/// Shape of an accepted integer literal: an optional leading minus,
/// then at least one decimal digit and nothing else.
pub open spec fn int_shape_ok(s: Seq<u8>) -> bool {
    if s.len() >= 1 && s[0] == 45 {
        s.len() >= 2 && all_digit_bytes(s.subrange(1, s.len() as int))
    } else {
        s.len() >= 1 && all_digit_bytes(s)
    }
}

/// The value an accepted integer literal denotes.
pub open spec fn spec_int_of(s: Seq<u8>) -> int {
    if s.len() >= 1 && s[0] == 45 {
        -digits_value(digits_of_bytes(s.subrange(1, s.len() as int)))
    } else {
        digits_value(digits_of_bytes(s))
    }
}

impl Int {
    /// Sign and canonical magnitude; zero is positive.
    pub open spec fn wf(&self) -> bool {
        &&& digits_wf(self.magnitude@)
        &&& (digits_value(self.magnitude@) == 0 ==> !self.negative)
    }

    /// The mathematical value.
    pub open spec fn value(&self) -> int {
        if self.negative {
            -digits_value(self.magnitude@)
        } else {
            digits_value(self.magnitude@)
        }
    }

    /// Parses a decimal integer literal: an optional leading minus and
    /// digits only.  Anything else is a `NumericParseError`.
    pub fn from_decimal(s: &Vec<u8>) -> (r: Result<Int, Error>)
        ensures
            match r {
                Ok(v) => int_shape_ok(s@) && v.wf() && v.value() == spec_int_of(s@),
                Err(e) => e == Error::NumericParseError && !int_shape_ok(s@),
            },
    {
        let n = s.len();
        if n == 0 {
            return Err(Error::NumericParseError);
        }
        let neg = s[0] == 45;
        let start: usize = if neg { 1 } else { 0 };
        if start == n {
            return Err(Error::NumericParseError);
        }
        let ghost body = s@.subrange(start as int, n as int);
        let mut raw: Vec<u8> = Vec::new();
        let mut i: usize = start;
        while i < n
            invariant
                start <= i <= n,
                n == s@.len(),
                n >= 1,
                neg == (s@[0] == 45),
                start == if neg { 1int } else { 0int },
                raw@.len() == i - start,
                all_digit_bytes(s@.subrange(start as int, i as int)),
                raw@ =~= digits_of_bytes(s@.subrange(start as int, i as int)),
                all_digits(raw@),
            decreases n - i,
        {
            let b = s[i];
            if b < 48 || b > 57 {
                proof {
                    assert(s@.subrange(start as int, n as int)[i - start] == b);
                    assert(!is_digit_byte(b));
                    if neg {
                        assert(s@.subrange(1, n as int)[i - 1] == b);
                    }
                }
                return Err(Error::NumericParseError);
            }
            raw.push(b - 48);
            i += 1;
            proof {
                assert(s@.subrange(start as int, i as int).drop_last() =~= s@.subrange(
                    start as int,
                    i - 1,
                ));
                assert(raw@ =~= digits_of_bytes(s@.subrange(start as int, i as int)));
            }
        }
        proof {
            assert(s@.subrange(start as int, n as int) =~= s@.subrange(start as int, i as int));
            if !neg {
                assert(s@.subrange(0, n as int) =~= s@);
            }
        }
        let mag = normalize_digits(raw);
        let zero = mag.len() == 1 && mag[0] == 0;
        proof {
            lemma_digits_value_zero(mag@);
            if zero {
                assert(mag@ =~= seq![0u8]);
            }
        }
        Ok(Int { negative: neg && !zero, magnitude: mag })
    }

    /// Renders the value as a decimal literal: an optional minus and
    /// the canonical digits.
    pub fn to_decimal(&self) -> (r: Vec<u8>)
        requires
            self.wf(),
        ensures
            int_shape_ok(r@),
            spec_int_of(r@) == self.value(),
    {
        let mut out: Vec<u8> = Vec::new();
        if self.negative {
            out.push(45);
        }
        let n = self.magnitude.len();
        let mut i: usize = 0;
        let ghost sign_len: int = if self.negative { 1int } else { 0int };
        while i < n
            invariant
                i <= n,
                n == self.magnitude@.len(),
                digits_wf(self.magnitude@),
                out@.len() == sign_len + i,
                sign_len == if self.negative { 1int } else { 0int },
                self.negative ==> out@[0] == 45,
                forall|j: int|
                    0 <= j < i ==> out@[sign_len + j] == byte_of_digit(self.magnitude@[j]),
            decreases n - i,
        {
            let d = self.magnitude[i];
            assert(d < 10);
            out.push(d + 48);
            i += 1;
        }
        proof {
            lemma_digit_bytes_roundtrip(self.magnitude@);
            let body = out@.subrange(sign_len, out@.len() as int);
            assert forall|j: int| 0 <= j < body.len() implies body[j] == bytes_of_digits(
                self.magnitude@,
            )[j] by {
                assert(body[j] == out@[sign_len + j]);
            }
            assert(body =~= bytes_of_digits(self.magnitude@));
            assert(digits_of_bytes(body) =~= self.magnitude@);
            if self.negative {
                assert(out@[0] == 45);
                lemma_digits_value_zero(self.magnitude@);
            } else {
                assert(out@.subrange(0, out@.len() as int) =~= out@);
                assert(out@[0] == byte_of_digit(self.magnitude@[0]));
                assert(out@[0] != 45);
            }
        }
        out
    }
}

//
// Exact rationals.
//

/// An exact rational in lowest terms: a sign, an arbitrary-precision
/// magnitude for the numerator, and a machine-word denominator.  Every
/// rational this pipeline builds has a denominator of at most 1000
/// (the bound of the decimal approximation search), so the denominator
/// is stored directly as a word.
#[derive(Debug, PartialEq, Eq)]
pub struct Ratio {
    pub negative: bool,
    pub numer: Vec<u8>,
    pub denom: u64,
}

impl Ratio {
    /// Lowest terms, positive bounded denominator, zero is `0/1` and
    /// never negative.
    pub open spec fn wf(&self) -> bool {
        &&& digits_wf(self.numer@)
        &&& 1 <= self.denom <= 1000
        &&& (digits_value(self.numer@) == 0 ==> !self.negative && self.denom == 1)
        &&& spec_gcd(digits_value(self.numer@) as nat, self.denom as nat) == 1
    }

    /// The signed numerator.
    pub open spec fn num_int(&self) -> int {
        if self.negative {
            -digits_value(self.numer@)
        } else {
            digits_value(self.numer@)
        }
    }

    /// The denominator.
    pub open spec fn den_int(&self) -> int {
        self.denom as int
    }

    /// The rational zero.
    pub fn zero() -> (r: Ratio)
        ensures
            r.wf(),
            r.num_int() == 0,
            r.den_int() == 1,
    {
        let mut numer: Vec<u8> = Vec::new();
        numer.push(0);
        proof {
            assert(numer@ =~= seq![0u8]);
            assert(numer@.drop_last() =~= Seq::<u8>::empty());
            assert(digits_value(Seq::<u8>::empty()) == 0);
            lemma_small_mod(0, 1);
            assert(spec_gcd(0, 1) == spec_gcd(1, 0));
            assert(spec_gcd(1, 0) == 1);
        }
        Ratio { negative: false, numer, denom: 1 }
    }

    /// True exactly when the value is zero.
    pub fn is_zero(&self) -> (z: bool)
        requires
            self.wf(),
        ensures
            z == (self.num_int() == 0),
    {
        proof {
            lemma_digits_value_zero(self.numer@);
        }
        let z = self.numer.len() == 1 && self.numer[0] == 0;
        proof {
            if z {
                assert(self.numer@ =~= seq![0u8]);
            }
        }
        z
    }

    /// Builds the rational `sign * magnitude / denom` in lowest terms.
    pub fn from_parts(negative: bool, magnitude: Vec<u8>, denom: u64) -> (r: Ratio)
        requires
            digits_wf(magnitude@),
            1 <= denom <= 1000,
        ensures
            ({
                let v = digits_value(magnitude@);
                let g = spec_gcd(v as nat, denom as nat) as int;
                &&& r.wf()
                &&& digits_value(r.numer@) == v / g
                &&& r.den_int() == denom as int / g
                &&& r.negative == (negative && v != 0)
                &&& r.num_int() * (denom as int) == (if negative {
                    -v
                } else {
                    v
                }) * r.den_int()
            }),
    {
        let ghost v = digits_value(magnitude@);
        proof {
            lemma_digits_value_nonneg(magnitude@);
        }
        let (_q0, rm) = div_mod_small(&magnitude, denom);
        proof {
            lemma_fundamental_div_mod_converse(
                v,
                denom as int,
                digits_value(_q0@),
                rm as int,
            );
            assert(rm as int == v % (denom as int));
            // Unfold one step of Euclid: gcd(v, denom) == gcd(denom, v % denom).
            assert(spec_gcd(v as nat, denom as nat) == spec_gcd(denom as nat, rm as nat));
        }
        let g = gcd64(denom, rm);
        proof {
            lemma_gcd_quotient_coprime(v as nat, denom as nat);
            lemma_divisor_le(denom as nat, spec_gcd(v as nat, denom as nat));
            assert(1 <= g <= denom);
            lemma_fundamental_div_mod(denom as int, g as int);
            assert(denom as int == (denom as int / g as int) * (g as int) + 0);
        }
        let (q, rem0) = div_mod_small(&magnitude, g);
        let newden = denom / g;
        proof {
            let gi = g as int;
            assert(v % gi == 0);
            lemma_fundamental_div_mod_converse(v, gi, digits_value(q@), rem0 as int);
            assert(rem0 == 0 && digits_value(q@) == v / gi) by {
                lemma_fundamental_div_mod(v, gi);
                assert(digits_value(q@) * gi + rem0 == (v / gi) * gi + (v % gi));
                assert(rem0 < g);
            }
            assert(newden as int == denom as int / gi);
            assert(newden >= 1);
            assert(newden <= denom) by (nonlinear_arith)
                requires
                    denom as int == (denom as int / g as int) * (g as int) + 0,
                    newden as int == denom as int / g as int,
                    g >= 1,
                    denom >= 1,
                    newden as int >= 1,
            ;
            assert(spec_gcd((v / gi) as nat, (newden as int) as nat) == 1);
        }
        let zero = q.len() == 1 && q[0] == 0;
        proof {
            lemma_digits_value_zero(q@);
            if zero {
                assert(q@ =~= seq![0u8]);
            }
            let gi = g as int;
            if v == 0 {
                // gcd(0, denom) == denom, so the quotient denominator is 1.
                lemma_mod_self_0(denom as int);
                assert(spec_gcd(denom as nat, 0nat) == denom as nat);
                assert(v % (denom as int) == 0) by {
                    lemma_small_mod(0, denom as nat);
                }
                assert(spec_gcd(v as nat, denom as nat) == denom as nat);
                lemma_div_by_self(denom as int);
                assert(newden == 1);
                assert(digits_value(q@) == 0) by {
                    lemma_div_of0(gi);
                }
            }
            if digits_value(q@) == 0 {
                assert(v == 0) by (nonlinear_arith)
                    requires
                        v == (v / gi) * gi + 0,
                        digits_value(q@) == v / gi,
                        digits_value(q@) == 0,
                ;
            }
            // Value preservation, cross-multiplied.
            assert((v / gi) * (denom as int) == v * (newden as int)) by (nonlinear_arith)
                requires
                    v == (v / gi) * gi + 0,
                    denom as int == (denom as int / gi) * gi + 0,
                    newden as int == denom as int / gi,
            ;
            assert((-(v / gi)) * (denom as int) == (-v) * (newden as int)) by (nonlinear_arith)
                requires
                    (v / gi) * (denom as int) == v * (newden as int),
            ;
        }
        Ratio { negative: negative && !zero, numer: q, denom: newden }
    }
}

/// Appends the ASCII rendering of a digit string.
pub fn push_digit_bytes(out: &mut Vec<u8>, d: &Vec<u8>)
    requires
        all_digits(d@),
    ensures
        final(out)@ == old(out)@ + bytes_of_digits(d@),
{
    let n = d.len();
    let mut i: usize = 0;
    while i < n
        invariant
            i <= n,
            n == d@.len(),
            all_digits(d@),
            out@ =~= old(out)@ + bytes_of_digits(d@.subrange(0, i as int)),
        decreases n - i,
    {
        let di = d[i];
        assert(di < 10);
        out.push(di + 48);
        i += 1;
        proof {
            assert(out@ =~= old(out)@ + bytes_of_digits(d@.subrange(0, i as int)));
        }
    }
    proof {
        assert(d@.subrange(0, n as int) =~= d@);
        assert(out@ =~= old(out)@ + bytes_of_digits(d@));
    }
}

/// Shape of an accepted canonical rational literal: an optional minus,
/// a digit run, and optionally a slash and a digit run whose value is
/// between 1 and 1000.
pub open spec fn ratio_shape_ok(s: Seq<u8>) -> bool {
    let body = if s.len() >= 1 && s[0] == 45 {
        s.subrange(1, s.len() as int)
    } else {
        s
    };
    let sl = spec_find(body, 47);
    if sl == -1 {
        body.len() >= 1 && all_digit_bytes(body)
    } else {
        &&& sl >= 1
        &&& sl + 1 < body.len()
        &&& all_digit_bytes(body.subrange(0, sl))
        &&& all_digit_bytes(body.subrange(sl + 1, body.len() as int))
        &&& 1 <= digits_value(digits_of_bytes(body.subrange(sl + 1, body.len() as int))) <= 1000
    }
}

/// The reduced components an accepted literal denotes: the sign, the
/// numerator magnitude, and the denominator, in lowest terms.
pub open spec fn spec_ratio_of(s: Seq<u8>) -> (bool, int, int) {
    let neg = s.len() >= 1 && s[0] == 45;
    let body = if neg {
        s.subrange(1, s.len() as int)
    } else {
        s
    };
    let sl = spec_find(body, 47);
    let rawnum = if sl == -1 {
        digits_value(digits_of_bytes(body))
    } else {
        digits_value(digits_of_bytes(body.subrange(0, sl)))
    };
    let rawden = if sl == -1 {
        1int
    } else {
        digits_value(digits_of_bytes(body.subrange(sl + 1, body.len() as int)))
    };
    let g = spec_gcd(rawnum as nat, rawden as nat) as int;
    (neg && rawnum / g != 0, rawnum / g, rawden / g)
}

/// The canonical rendering of a ratio: `-` for negatives, the
/// numerator digits, and `/denominator` unless the denominator is 1.
pub open spec fn spec_canonical(r: Ratio) -> Seq<u8> {
    let sign: Seq<u8> = if r.negative {
        seq![45u8]
    } else {
        Seq::<u8>::empty()
    };
    if r.denom == 1 {
        sign + bytes_of_digits(r.numer@)
    } else {
        sign + bytes_of_digits(r.numer@) + seq![47u8] + bytes_of_digits(
            canonical_digits(r.denom as int),
        )
    }
}

impl Ratio {
    /// Renders the ratio in canonical decimal form.
    pub fn to_canonical(&self) -> (out: Vec<u8>)
        requires
            self.wf(),
        ensures
            out@ == spec_canonical(*self),
    {
        let mut out: Vec<u8> = Vec::new();
        if self.negative {
            out.push(45);
        }
        let ghost sign: Seq<u8> = if self.negative {
            seq![45u8]
        } else {
            Seq::<u8>::empty()
        };
        proof {
            assert(out@ =~= sign);
        }
        push_digit_bytes(&mut out, &self.numer);
        if self.denom != 1 {
            out.push(47);
            let dd = u64_to_digits(self.denom);
            proof {
                lemma_canonical_digits(self.denom as int);
                lemma_digits_value_injective(dd@, canonical_digits(self.denom as int));
            }
            push_digit_bytes(&mut out, &dd);
            proof {
                assert(out@ =~= sign + bytes_of_digits(self.numer@) + seq![47u8]
                    + bytes_of_digits(canonical_digits(self.denom as int)));
            }
        }
        out
    }

    /// Parses a canonical rational literal back into a ratio in lowest
    /// terms.  Digit runs may carry leading zeros and need not be
    /// reduced; the result always is.
    pub fn from_canonical(s: &Vec<u8>) -> (r: Result<Ratio, Error>)
        ensures
            match r {
                Ok(v) => ratio_shape_ok(s@) && v.wf() && v.negative == spec_ratio_of(s@).0
                    && digits_value(v.numer@) == spec_ratio_of(s@).1 && v.den_int()
                    == spec_ratio_of(s@).2,
                Err(e) => e == Error::NumericParseError && !ratio_shape_ok(s@),
            },
    {
        let n = s.len();
        if n == 0 {
            return Err(Error::NumericParseError);
        }
        let neg = s[0] == 45;
        let start: usize = if neg { 1 } else { 0 };
        let ghost body: Seq<u8> = if neg {
            s@.subrange(1, n as int)
        } else {
            s@
        };
        proof {
            if !neg {
                assert(s@.subrange(0, n as int) =~= s@);
            }
        }
        if start == n {
            proof {
                lemma_find_props(body, 47);
            }
            return Err(Error::NumericParseError);
        }
        let slash = find_byte_from(s, start, 47);
        match slash {
            Option::None => {
                proof {
                    lemma_find_props(body, 47);
                    if spec_find(body, 47) != -1 {
                        let w = spec_find(body, 47);
                        assert(body[w] == s@[start + w]);
                        assert(false);
                    }
                }
                let parsed = parse_digits_range(s, start, n);
                proof {
                    assert(s@.subrange(start as int, n as int) =~= body);
                }
                match parsed {
                    Option::None => Err(Error::NumericParseError),
                    Option::Some(mag) => {
                        let zero = mag.len() == 1 && mag[0] == 0;
                        proof {
                            lemma_digits_value_zero(mag@);
                            if zero {
                                assert(mag@ =~= seq![0u8]);
                            }
                            let v = digits_value(mag@);
                            lemma_digits_value_nonneg(mag@);
                            lemma_mod_bound(v, 1);
                            assert(v % 1 == 0);
                            assert(spec_gcd(v as nat, 1nat) == spec_gcd(
                                1nat,
                                (v % 1) as nat,
                            ));
                            assert(spec_gcd(1nat, 0nat) == 1);
                            lemma_div_basics(v);
                            lemma_div_basics(1);
                        }
                        Ok(Ratio { negative: neg && !zero, numer: mag, denom: 1 })
                    },
                }
            },
            Option::Some(k) => {
                proof {
                    assert(body[k - start] == s@[k as int]);
                    assert forall|i: int| 0 <= i < k - start implies body[i] != 47 by {
                        assert(body[i] == s@[start + i]);
                    }
                    lemma_find_unique(body, 47, k - start);
                }
                let ghost sl = (k - start) as int;
                if k == start {
                    return Err(Error::NumericParseError);
                }
                if k + 1 >= n {
                    proof {
                        assert(sl + 1 >= body.len());
                    }
                    return Err(Error::NumericParseError);
                }
                let num_parsed = parse_digits_range(s, start, k);
                proof {
                    assert(s@.subrange(start as int, k as int) =~= body.subrange(0, sl));
                }
                let mag = match num_parsed {
                    Option::None => {
                        return Err(Error::NumericParseError);
                    },
                    Option::Some(m) => m,
                };
                let den_parsed = parse_digits_range(s, k + 1, n);
                proof {
                    assert(s@.subrange(k + 1, n as int) =~= body.subrange(
                        sl + 1,
                        body.len() as int,
                    ));
                }
                let dend = match den_parsed {
                    Option::None => {
                        return Err(Error::NumericParseError);
                    },
                    Option::Some(d) => d,
                };
                let denval = match small_digits_to_u64(&dend) {
                    Option::None => {
                        return Err(Error::NumericParseError);
                    },
                    Option::Some(x) => x,
                };
                if denval < 1 || denval > 1000 {
                    return Err(Error::NumericParseError);
                }
                let ghost v = digits_value(mag@);
                let r = Ratio::from_parts(neg, mag, denval);
                proof {
                    lemma_digits_value_nonneg(r.numer@);
                    let g = spec_gcd(v as nat, denval as nat) as int;
                    lemma_gcd_quotient_coprime(v as nat, denval as nat);
                    lemma_fundamental_div_mod(v, g);
                    if v / g == 0 {
                        assert(v == 0) by (nonlinear_arith)
                            requires
                                v == (v / g) * g + 0,
                                v / g == 0,
                        ;
                    }
                    if v == 0 {
                        lemma_div_of0(g);
                    }
                }
                Ok(r)
            },
        }
    }
}

/// Rendering a ratio canonically and parsing the text back recovers
/// exactly the same sign, numerator and denominator: the canonical
/// decimal string is a lossless encoding of every ratio value.
pub proof fn lemma_ratio_canonical_roundtrip(r: Ratio)
    requires
        r.wf(),
    ensures
        ratio_shape_ok(spec_canonical(r)),
        spec_ratio_of(spec_canonical(r)) == (r.negative, digits_value(r.numer@), r.denom as int),
{
    let s = spec_canonical(r);
    let sign_len: int = if r.negative { 1int } else { 0int };
    let numb = bytes_of_digits(r.numer@);
    let v = digits_value(r.numer@);
    lemma_digit_bytes_roundtrip(r.numer@);
    lemma_digits_value_nonneg(r.numer@);
    if r.negative {
        assert(s[0] == 45);
    } else {
        assert(s[0] == numb[0]);
        assert(is_digit_byte(numb[0]));
    }
    let body = if s.len() >= 1 && s[0] == 45 {
        s.subrange(1, s.len() as int)
    } else {
        s
    };
    if r.denom == 1 {
        assert(body =~= numb);
        lemma_find_props(body, 47);
        if spec_find(body, 47) != -1 {
            let w = spec_find(body, 47);
            assert(is_digit_byte(body[w]));
            assert(false);
        }
        assert(digits_of_bytes(body) =~= r.numer@);
        lemma_mod_bound(v, 1);
        assert(v % 1 == 0);
        assert(spec_gcd(v as nat, 1nat) == spec_gcd(1nat, (v % 1) as nat));
        assert(spec_gcd(1nat, 0nat) == 1);
        lemma_div_basics(v);
        lemma_div_basics(1);
    } else {
        lemma_canonical_digits(r.denom as int);
        let dend = canonical_digits(r.denom as int);
        let denb = bytes_of_digits(dend);
        lemma_digit_bytes_roundtrip(dend);
        assert(body =~= numb + seq![47u8] + denb);
        let sl = numb.len() as int;
        assert(body[sl] == 47);
        assert forall|i: int| 0 <= i < sl implies body[i] != 47 by {
            assert(body[i] == numb[i]);
            assert(is_digit_byte(numb[i]));
        }
        lemma_find_unique(body, 47, sl);
        assert(body.subrange(0, sl) =~= numb);
        assert(body.subrange(sl + 1, body.len() as int) =~= denb);
        assert(digits_of_bytes(numb) =~= r.numer@);
        assert(digits_of_bytes(denb) =~= dend);
        // In lowest terms the gcd is 1, so reduction changes nothing.
        assert(spec_gcd(v as nat, r.denom as nat) == 1);
        lemma_div_basics(v);
        lemma_div_basics(r.denom as int);
        lemma_digits_value_zero(r.numer@);
    }
}

/// Two well-formed ratios with the same value are equal.
pub proof fn lemma_ratio_value_injective(a: Ratio, b: Ratio)
    requires
        a.wf(),
        b.wf(),
        a.num_int() * b.den_int() == b.num_int() * a.den_int(),
    ensures
        a.negative == b.negative,
        a.numer@ =~= b.numer@,
        a.denom == b.denom,
{
    let va = digits_value(a.numer@);
    let vb = digits_value(b.numer@);
    lemma_digits_value_nonneg(a.numer@);
    lemma_digits_value_nonneg(b.numer@);
    lemma_digits_value_zero(a.numer@);
    lemma_digits_value_zero(b.numer@);
    if va == 0 || vb == 0 {
        if va == 0 {
            assert(a.num_int() == 0);
            assert(vb == 0) by (nonlinear_arith)
                requires
                    a.num_int() * b.den_int() == b.num_int() * a.den_int(),
                    a.num_int() == 0,
                    a.den_int() >= 1,
                    b.num_int() == if b.negative { -vb } else { vb },
                    vb >= 0,
            ;
        } else {
            assert(b.num_int() == 0);
            assert(va == 0) by (nonlinear_arith)
                requires
                    a.num_int() * b.den_int() == b.num_int() * a.den_int(),
                    b.num_int() == 0,
                    b.den_int() >= 1,
                    a.num_int() == if a.negative { -va } else { va },
                    va >= 0,
            ;
        }
        assert(a.numer@ =~= seq![0u8]);
        assert(b.numer@ =~= seq![0u8]);
    } else {
        // Signs agree because both sides of the cross product agree.
        if a.negative != b.negative {
            assert(false) by (nonlinear_arith)
                requires
                    a.num_int() * b.den_int() == b.num_int() * a.den_int(),
                    a.num_int() == if a.negative { -va } else { va },
                    b.num_int() == if b.negative { -vb } else { vb },
                    a.negative != b.negative,
                    va >= 1,
                    vb >= 1,
                    a.den_int() >= 1,
                    b.den_int() >= 1,
            ;
        }
        // In lowest terms the cross product pins both components.
        assert(va * b.den_int() == vb * a.den_int()) by (nonlinear_arith)
            requires
                a.num_int() * b.den_int() == b.num_int() * a.den_int(),
                a.num_int() == if a.negative { -va } else { va },
                b.num_int() == if b.negative { -vb } else { vb },
                a.negative == b.negative,
        ;
        let da = a.denom as nat;
        let db = b.denom as nat;
        // db divides vb * da and is coprime with vb, so db divides da;
        // symmetrically da divides db.
        assert((vb as nat * da) as int % (db as int) == 0) by {
            lemma_mod_multiples_basic(va, db as int);
            assert((va * (db as int)) % (db as int) == 0);
            assert((vb as nat * da) as int == va * (db as int)) by (nonlinear_arith)
                requires
                    va * b.den_int() == vb * a.den_int(),
                    da == a.den_int(),
                    db == b.den_int(),
                    va >= 0,
                    vb >= 0,
            ;
        }
        assert((va as nat * db) as int % (da as int) == 0) by {
            lemma_mod_multiples_basic(vb, da as int);
            assert((vb * (da as int)) % (da as int) == 0);
            assert((va as nat * db) as int == vb * (da as int)) by (nonlinear_arith)
                requires
                    va * b.den_int() == vb * a.den_int(),
                    da == a.den_int(),
                    db == b.den_int(),
                    va >= 0,
                    vb >= 0,
            ;
        }
        lemma_coprime_divides(vb as nat, db, da);
        lemma_coprime_divides(va as nat, da, db);
        lemma_divisor_le(da, db);
        lemma_divisor_le(db, da);
        assert(da == db);
        assert(va == vb) by (nonlinear_arith)
            requires
                va * b.den_int() == vb * a.den_int(),
                a.den_int() == b.den_int(),
                a.den_int() >= 1,
        ;
        lemma_digits_value_injective(a.numer@, b.numer@);
    }
}

/// If `gcd(n, d) == 1` and `d` divides `n * x`, then `d` divides `x`.
pub proof fn lemma_coprime_divides(n: nat, d: nat, x: nat)
    requires
        d >= 1,
        x >= 1,
        spec_gcd(n, d) == 1,
        (n * x) as int % (d as int) == 0,
    ensures
        (x as int) % (d as int) == 0,
{
    // gcd(n*x, d*x) == x * gcd(n, d) == x, and d divides both n*x and
    // d*x, so d divides x.
    lemma_gcd_scale(n, d, x);
    assert(spec_gcd((n * x) as nat, (d * x) as nat) == (1 * x) as nat);
    lemma_mod_multiples_basic(x as int, d as int);
    assert((d * x) as int % (d as int) == 0) by {
        assert((x * d) as int == (d * x) as int) by (nonlinear_arith);
    }
    lemma_gcd_greatest((n * x) as nat, (d * x) as nat, d);
    assert((1 * x) as int == x as int) by (nonlinear_arith);
}

/// Scaling both arguments scales the gcd.
pub proof fn lemma_gcd_scale(a: nat, b: nat, x: nat)
    requires
        x >= 1,
    ensures
        spec_gcd((a * x) as nat, (b * x) as nat) == (spec_gcd(a, b) * x) as nat,
    decreases b,
{
    if b == 0 {
        assert((b * x) as nat == 0) by (nonlinear_arith)
            requires
                b == 0,
        ;
        assert(spec_gcd((a * x) as nat, 0) == (a * x) as nat);
    } else {
        lemma_mod_bound(a as int, b as int);
        let r = ((a as int) % (b as int)) as nat;
        lemma_gcd_scale(b, r, x);
        assert((b * x) as int >= 1) by (nonlinear_arith)
            requires
                b >= 1,
                x >= 1,
        ;
        // (a*x) % (b*x) == (a % b) * x.
        lemma_fundamental_div_mod(a as int, b as int);
        let q = a as int / b as int;
        lemma_truncate_middle(q, b as int, x as int, r as int);
        assert((a * x) as int == (q * (b as int) + r as int) * (x as int)) by (nonlinear_arith)
            requires
                a as int == q * (b as int) + r as int,
        ;
        assert((a * x) as int % ((b * x) as int) == (r * x) as int);
        assert(spec_gcd((a * x) as nat, (b * x) as nat) == spec_gcd(
            (b * x) as nat,
            (((a * x) as int % ((b * x) as int)) as nat),
        ));
        assert((((a * x) as int % ((b * x) as int)) as nat) == (r * x) as nat);
        assert(spec_gcd((a * x) as nat, (b * x) as nat) == spec_gcd((b * x) as nat, (r * x) as nat));
        assert((spec_gcd(b, r) * x) as nat == (spec_gcd(a, b) * x) as nat);
    }
}

/// `(q*b + r) * x  mod  b*x == r * x` for `0 <= r < b`.
proof fn lemma_truncate_middle(q: int, b: int, x: int, r: int)
    requires
        b >= 1,
        x >= 1,
        0 <= r < b,
    ensures
        ((q * b + r) * x) % (b * x) == r * x,
{
    assert((q * b + r) * x == q * (b * x) + r * x) by (nonlinear_arith);
    assert(b * x >= 1) by (nonlinear_arith)
        requires
            b >= 1,
            x >= 1,
    ;
    assert(0 <= r * x < b * x) by (nonlinear_arith)
        requires
            0 <= r < b,
            x >= 1,
    ;
    lemma_mod_multiples_vanish(q, r * x, b * x);
    lemma_small_mod((r * x) as nat, (b * x) as nat);
}

impl Int {
    /// An equal-valued copy.
    pub fn duplicate(&self) -> (r: Int)
        ensures
            r.negative == self.negative,
            r.magnitude@ == self.magnitude@,
    {
        let magnitude = copy_range(&self.magnitude, 0, self.magnitude.len());
        proof {
            assert(magnitude@ =~= self.magnitude@);
        }
        Int { negative: self.negative, magnitude }
    }
}

impl Ratio {
    /// An equal-valued copy.
    pub fn duplicate(&self) -> (r: Ratio)
        ensures
            r.negative == self.negative,
            r.numer@ == self.numer@,
            r.denom == self.denom,
            self.wf() ==> r.wf(),
    {
        let numer = copy_range(&self.numer, 0, self.numer.len());
        proof {
            assert(numer@ =~= self.numer@);
        }
        Ratio { negative: self.negative, numer, denom: self.denom }
    }
}

/// Two well-formed integers with the same value are equal.
pub proof fn lemma_int_value_injective(a: Int, b: Int)
    requires
        a.wf(),
        b.wf(),
        a.value() == b.value(),
    ensures
        a.negative == b.negative,
        a.magnitude@ =~= b.magnitude@,
{
    lemma_digits_value_nonneg(a.magnitude@);
    lemma_digits_value_nonneg(b.magnitude@);
    if a.negative != b.negative {
        lemma_digits_value_zero(a.magnitude@);
        lemma_digits_value_zero(b.magnitude@);
        assert(false);
    }
    lemma_digits_value_injective(a.magnitude@, b.magnitude@);
}

} // verus!
