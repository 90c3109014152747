//! Bounded-denominator approximation of decimal fractions.
//!
//! The host emits decimal-truncated text for values that are
//! conceptually exact rationals.  This module recovers a rational from
//! such text: the integer part is kept exactly, and the fractional
//! part `D / 10^k` is replaced by the best fraction `n/d` with
//! `1 <= d <= 1000`, scanning denominators and numerators in ascending
//! order, keeping the earliest minimum, and stopping early once the
//! distance drops to `10^-8`.

use vstd::prelude::*;
use crate::digits::{
    all_digit_bytes, digits_of_bytes, digits_value, digits_wf, find_byte_from, is_digit_byte,
    lemma_digits_value_nonneg, lemma_digits_value_upper, lemma_find_props, lemma_find_unique,
    lemma_pow10_increases, lemma_pow10_pos, mul_add_small, parse_digits_range, pow10, spec_find,
    spec_gcd,
};
use crate::numbers::Ratio;
use crate::Error;

verus! {

pub open spec fn abs_int(x: int) -> int {
    if x < 0 {
        -x
    } else {
        x
    }
}

/// The distance `|dv/p - n/d|`, scaled by the positive factor `d * p`:
/// two candidates are compared by cross-multiplying with the other's
/// denominator.
pub open spec fn frac_dist(dv: int, p: int, n: int, d: int) -> int {
    abs_int(dv * d - n * p)
}

/// A candidate fraction of the search space.
pub open spec fn cand_ok(n: int, d: int) -> bool {
    1 <= d <= 1000 && 0 <= n < d
}

/// Search order: ascending denominator, then ascending numerator.
pub open spec fn cand_before(n1: int, d1: int, n2: int, d2: int) -> bool {
    d1 < d2 || (d1 == d2 && n1 < n2)
}

/// What the approximation search returns for `dv/p`: a candidate that
/// every earlier candidate strictly exceeds in distance, and that
/// either no candidate at all beats, or that is already within the
/// early-termination threshold of `10^-8`.
pub open spec fn approx_ok(dv: int, p: int, n: int, d: int) -> bool {
    &&& cand_ok(n, d)
    &&& forall|nn: int, dd: int|
        cand_ok(nn, dd) && cand_before(nn, dd, n, d) ==> frac_dist(dv, p, nn, dd) * d > frac_dist(
            dv,
            p,
            n,
            d,
        ) * dd
    &&& {
        ||| forall|nn: int, dd: int|
            cand_ok(nn, dd) ==> frac_dist(dv, p, n, d) * dd <= frac_dist(dv, p, nn, dd) * d
        ||| frac_dist(dv, p, n, d) * 100000000 <= d * p
    }
}

/// Comparing scaled distances is transitive across denominators:
/// if `a/da < b/db` and `b/db <= c/dc` then `a/da < c/dc`.
proof fn lemma_cross_lt_le(a: int, da: int, b: int, db: int, c: int, dc: int)
    requires
        da >= 1,
        db >= 1,
        dc >= 1,
        a * db < b * da,
        b * dc <= c * db,
    ensures
        a * dc < c * da,
{
    assert((a * db) * dc < (b * da) * dc) by (nonlinear_arith)
        requires
            a * db < b * da,
            dc >= 1,
    ;
    assert((b * dc) * da <= (c * db) * da) by (nonlinear_arith)
        requires
            b * dc <= c * db,
            da >= 1,
    ;
    assert((b * da) * dc == (b * dc) * da) by (nonlinear_arith);
    assert((a * db) * dc == (a * dc) * db) by (nonlinear_arith);
    assert((c * db) * da == (c * da) * db) by (nonlinear_arith);
    assert((a * dc) * db < (c * da) * db);
    assert(a * dc < c * da) by (nonlinear_arith)
        requires
            (a * dc) * db < (c * da) * db,
            db >= 1,
    ;
}

/// The scaled distance, computed exactly in 128-bit arithmetic.
fn dist_u128(dv: u64, p: u64, n: u64, d: u64) -> (r: u128)
    requires
        1 <= p <= 1000000000000,
        dv < p,
        n <= 1000,
        1 <= d <= 1000,
    ensures
        r == frac_dist(dv as int, p as int, n as int, d as int),
        r <= 1000000000000000,
{
    proof {
        assert((dv as int) * (d as int) < 1000000000000000) by (nonlinear_arith)
            requires
                dv < 1000000000000,
                d <= 1000,
        ;
        assert((n as int) * (p as int) <= 1000000000000000) by (nonlinear_arith)
            requires
                n <= 1000,
                p <= 1000000000000,
        ;
        assert((dv as int) * (d as int) >= 0) by (nonlinear_arith)
            requires
                dv >= 0,
                d >= 1,
        ;
        assert((n as int) * (p as int) >= 0) by (nonlinear_arith)
            requires
                n >= 0,
                p >= 1,
        ;
    }
    let a: u128 = (dv as u128) * (d as u128);
    let b: u128 = (n as u128) * (p as u128);
    if a >= b {
        a - b
    } else {
        b - a
    }
}

/// Searches for the fraction `n/d`, `1 <= d <= 1000`, closest to
/// `dv/p`, scanning in ascending `(d, n)` order, keeping the earliest
/// strict improvement, and stopping once within `10^-8`.
pub fn approximate_fraction(dv: u64, p: u64) -> (r: (u64, u64))
    requires
        1 <= p <= 1000000000000,
        dv < p,
    ensures
        approx_ok(dv as int, p as int, r.0 as int, r.1 as int),
{
    let ghost dvi = dv as int;
    let ghost pi = p as int;
    let mut best_n: u64 = 0;
    let mut best_d: u64 = 1;
    let mut done: bool = false;
    let mut den: u64 = 1;
    while den <= 1000 && !done
        invariant
            1 <= p <= 1000000000000,
            dv < p,
            dvi == dv as int,
            pi == p as int,
            1 <= den <= 1001,
            cand_ok(best_n as int, best_d as int),
            best_d < den || (best_n == 0 && best_d == 1),
            !done ==> forall|nn: int, dd: int|
                cand_ok(nn, dd) && dd < den ==> frac_dist(dvi, pi, best_n as int, best_d as int)
                    * dd <= frac_dist(dvi, pi, nn, dd) * (best_d as int),
            forall|nn: int, dd: int|
                cand_ok(nn, dd) && cand_before(nn, dd, best_n as int, best_d as int) ==> frac_dist(
                    dvi,
                    pi,
                    nn,
                    dd,
                ) * (best_d as int) > frac_dist(dvi, pi, best_n as int, best_d as int) * dd,
            done ==> frac_dist(dvi, pi, best_n as int, best_d as int) * 100000000 <= (
            best_d as int) * pi,
        decreases 1001 - den,
    {
        proof {
            // The untried numerator 0 of this row is no better than the
            // fraction 0/1, which the invariant already covers.
            if !done && den >= 2 {
                let bdist = frac_dist(dvi, pi, best_n as int, best_d as int);
                assert(cand_ok(0, 1));
                assert(0 < den as int);
                assert(bdist * 1 <= frac_dist(dvi, pi, 0, 1) * (best_d as int));
                assert(frac_dist(dvi, pi, 0, 1) == dvi) by {
                    assert(dvi * 1 - 0 * pi == dvi) by (nonlinear_arith);
                }
                assert(frac_dist(dvi, pi, 0, den as int) == dvi * (den as int)) by {
                    assert(0 * pi == 0) by (nonlinear_arith);
                }
                assert(bdist * (den as int) <= (dvi * (den as int)) * (best_d as int))
                    by (nonlinear_arith)
                    requires
                        bdist <= dvi * (best_d as int),
                        den >= 1,
                        bdist >= 0,
                ;
            }
        }
        let mut num: u64 = 1;
        while num < den && !done
            invariant
                1 <= p <= 1000000000000,
                dv < p,
                dvi == dv as int,
                pi == p as int,
                1 <= den <= 1000,
                1 <= num <= den,
                cand_ok(best_n as int, best_d as int),
                best_d < den || (best_d == den && best_n < num) || (best_n == 0 && best_d == 1),
                !done ==> forall|nn: int, dd: int|
                    cand_ok(nn, dd) && (dd < den || (dd == den && nn < num)) ==> frac_dist(
                        dvi,
                        pi,
                        best_n as int,
                        best_d as int,
                    ) * dd <= frac_dist(dvi, pi, nn, dd) * (best_d as int),
                forall|nn: int, dd: int|
                    cand_ok(nn, dd) && cand_before(nn, dd, best_n as int, best_d as int)
                        ==> frac_dist(dvi, pi, nn, dd) * (best_d as int) > frac_dist(
                        dvi,
                        pi,
                        best_n as int,
                        best_d as int,
                    ) * dd,
                done ==> frac_dist(dvi, pi, best_n as int, best_d as int) * 100000000 <= (
                best_d as int) * pi,
            decreases den - num,
        {
            let cd = dist_u128(dv, p, num, den);
            let bd_cur = dist_u128(dv, p, best_n, best_d);
            let ghost old_n = best_n as int;
            let ghost old_d = best_d as int;
            proof {
                assert(cd * (best_d as u128) <= 1000000000000000000) by (nonlinear_arith)
                    requires
                        cd <= 1000000000000000,
                        best_d <= 1000,
                ;
                assert(bd_cur * (den as u128) <= 1000000000000000000) by (nonlinear_arith)
                    requires
                        bd_cur <= 1000000000000000,
                        den <= 1000,
                ;
                assert(cd * 100000000u128 <= 100000000000000000000000) by (nonlinear_arith)
                    requires
                        cd <= 1000000000000000,
                ;
                assert((den as u128) * (p as u128) <= 1000000000000000) by (nonlinear_arith)
                    requires
                        den <= 1000,
                        p <= 1000000000000,
                ;
            }
            if cd * (best_d as u128) < bd_cur * (den as u128) {
                proof {
                    let cdist = frac_dist(dvi, pi, num as int, den as int);
                    let odist = frac_dist(dvi, pi, old_n, old_d);
                    assert(cdist * old_d < odist * (den as int));
                    // Everything before this candidate is strictly
                    // farther away than it.
                    assert forall|nn: int, dd: int|
                        cand_ok(nn, dd) && (dd < den || (dd == den && nn < num)) implies frac_dist(
                        dvi,
                        pi,
                        nn,
                        dd,
                    ) * (den as int) > cdist * dd by {
                        assert(odist * dd <= frac_dist(dvi, pi, nn, dd) * old_d);
                        lemma_cross_lt_le(
                            cdist,
                            den as int,
                            odist,
                            old_d,
                            frac_dist(dvi, pi, nn, dd),
                            dd,
                        );
                    }
                }
                best_n = num;
                best_d = den;
                if cd * 100000000u128 <= (den as u128) * (p as u128) {
                    done = true;
                }
                proof {
                    let cdist = frac_dist(dvi, pi, num as int, den as int);
                    assert forall|nn: int, dd: int|
                        cand_ok(nn, dd) && (dd < den || (dd == den && nn < num + 1))
                            implies cdist * dd <= frac_dist(dvi, pi, nn, dd) * (den as int) by {
                        if dd == den as int && nn == num as int {
                        } else {
                            assert(frac_dist(dvi, pi, nn, dd) * (den as int) > cdist * dd);
                        }
                    }
                }
            } else {
                proof {
                    // The current candidate is no closer than the best,
                    // which extends the processed region by one.
                    let cdist = frac_dist(dvi, pi, num as int, den as int);
                    let bdist = frac_dist(dvi, pi, old_n, old_d);
                    assert(bdist * (den as int) <= cdist * old_d);
                }
            }
            num += 1;
        }
        proof {
            if !done {
                assert(num == den);
                assert forall|nn: int, dd: int|
                    cand_ok(nn, dd) && dd < den + 1 implies frac_dist(
                    dvi,
                    pi,
                    best_n as int,
                    best_d as int,
                ) * dd <= frac_dist(dvi, pi, nn, dd) * (best_d as int) by {
                    if dd == den as int {
                        assert(nn < dd);
                    }
                }
            }
        }
        den += 1;
    }
    proof {
        if !done {
            assert(den == 1001);
        }
    }
    (best_n, best_d)
}

/// Shape of an accepted decimal literal: an optional minus, a digit
/// run (possibly empty), and optionally a dot followed by a nonempty
/// digit run.
pub open spec fn decimal_shape_ok(s: Seq<u8>) -> bool {
    &&& s.len() >= 1
    &&& {
        let body = if s[0] == 45 {
            s.subrange(1, s.len() as int)
        } else {
            s
        };
        let dot = spec_find(body, 46);
        if dot == -1 {
            all_digit_bytes(body)
        } else {
            &&& all_digit_bytes(body.subrange(0, dot))
            &&& dot + 1 < body.len()
            &&& all_digit_bytes(body.subrange(dot + 1, body.len() as int))
        }
    }
}

/// The fractional part as a scaled pair `(D, 10^k)`, reading at most
/// the first twelve fractional digits.
pub open spec fn spec_frac_scaled(body: Seq<u8>, dot: int) -> (int, int) {
    let frac = body.subrange(dot + 1, body.len() as int);
    let k: nat = if frac.len() > 12 {
        12nat
    } else {
        frac.len() as nat
    };
    (digits_value(digits_of_bytes(frac.subrange(0, k as int))), pow10(k))
}

/// The value an accepted decimal literal gives rise to, witnessed by
/// the fraction `n/d` that approximates its fractional part: the
/// ratio equals `sign * (whole + n/d)`, and `(n, d)` is what the
/// search returns for the scaled fraction (or `0/1` when there is no
/// fractional part to approximate).
pub open spec fn decimal_value_ok(s: Seq<u8>, r: Ratio, n: int, d: int) -> bool {
    let neg = s[0] == 45;
    let body = if neg {
        s.subrange(1, s.len() as int)
    } else {
        s
    };
    let dot = spec_find(body, 46);
    let w = if dot == -1 {
        digits_value(digits_of_bytes(body))
    } else {
        digits_value(digits_of_bytes(body.subrange(0, dot)))
    };
    if dot == -1 || spec_frac_scaled(body, dot).0 == 0 {
        &&& (n, d) == (0int, 1int)
        &&& digits_value(r.numer@) == w
        &&& r.negative == (neg && w != 0)
        &&& r.den_int() == 1
    } else {
        let dp = spec_frac_scaled(body, dot);
        &&& approx_ok(dp.0, dp.1, n, d)
        &&& r.num_int() * d == (if neg {
            -(w * d + n)
        } else {
            w * d + n
        }) * r.den_int()
    }
}

/// Reads a short canonical digit string back as a machine word.
fn frac_value_u64(d: &Vec<u8>) -> (r: u64)
    requires
        digits_wf(d@),
        d@.len() <= 12,
    ensures
        r == digits_value(d@),
        r < 1000000000000,
{
    let n = d.len();
    let mut acc: u64 = 0;
    let mut i: usize = 0;
    proof {
        assert(d@.subrange(0, 0) =~= Seq::<u8>::empty());
        assert(digits_value(Seq::<u8>::empty()) == 0);
    }
    while i < n
        invariant
            i <= n <= 12,
            n == d@.len(),
            digits_wf(d@),
            acc == digits_value(d@.subrange(0, i as int)),
            acc < 1000000000000,
        decreases n - i,
    {
        let d_i = d[i];
        assert(d_i < 10);
        proof {
            let prefix = d@.subrange(0, i + 1);
            assert(prefix.drop_last() =~= d@.subrange(0, i as int));
            assert(prefix.last() == d@[i as int]);
            lemma_digits_value_upper(prefix);
            lemma_pow10_increases(prefix.len() as nat, 12);
            assert(pow10(12) == 1000000000000) by {
                reveal_with_fuel(pow10, 13);
            }
        }
        acc = acc * 10 + (d_i as u64);
        i += 1;
    }
    proof {
        assert(d@.subrange(0, n as int) =~= d@);
        lemma_digits_value_upper(d@);
        lemma_pow10_increases(d@.len() as nat, 12);
        assert(pow10(12) == 1000000000000) by {
            reveal_with_fuel(pow10, 13);
        }
    }
    acc
}

/// `10^k` as a machine word.
fn pow10_u64(k: usize) -> (r: u64)
    requires
        k <= 12,
    ensures
        r == pow10(k as nat),
{
    let mut r: u64 = 1;
    let mut i: usize = 0;
    while i < k
        invariant
            i <= k <= 12,
            r == pow10(i as nat),
            r <= 1000000000000,
        decreases k - i,
    {
        proof {
            lemma_pow10_increases((i + 1) as nat, 12);
            lemma_pow10_pos(i as nat);
            assert(pow10(12) == 1000000000000) by {
                reveal_with_fuel(pow10, 13);
            }
            assert(pow10((i + 1) as nat) == 10 * pow10(i as nat));
        }
        r = r * 10;
        i += 1;
    }
    r
}

/// Everything `ratio_from_decimal` promises of its result: rejection
/// exactly of malformed shapes, and for accepted input a well-formed
/// ratio witnessed by a best approximation of the fractional part.
pub open spec fn ratio_from_decimal_post(s: Seq<u8>, r: Result<Ratio, Error>) -> bool {
    &&& (r matches Ok(v) ==> decimal_shape_ok(s) && v.wf() && exists|n: int, d: int|
        #[trigger] decimal_value_ok(s, v, n, d))
    &&& (r matches Err(e) ==> e == Error::NumericParseError && !decimal_shape_ok(s))
}

/// A witness for the fractional approximation discharges the parser's
/// contract.
proof fn lemma_post_from_witness(s: Seq<u8>, r: Ratio, n: int, d: int)
    requires
        decimal_shape_ok(s),
        r.wf(),
        decimal_value_ok(s, r, n, d),
    ensures
        ratio_from_decimal_post(s, Result::Ok(r)),
{
}

/// Parses a decimal literal `[-]digits[.digits]` into an exact ratio.
///
/// The integer part is kept exactly, at arbitrary precision.  The
/// fractional part is replaced by its best bounded-denominator
/// approximation, per [`approximate_fraction`].  Anything but an
/// optional minus, digits, and one dot with at least one digit after
/// it is a `NumericParseError`; in particular scientific notation is
/// rejected.
#[verifier::rlimit(100)]
#[verifier::spinoff_prover]
pub fn ratio_from_decimal(s: &Vec<u8>) -> (r: Result<Ratio, Error>)
    ensures
        ratio_from_decimal_post(s@, r),
{
    let n = s.len();
    if n == 0 {
        return Err(Error::NumericParseError);
    }
    let neg = s[0] == 45;
    let start: usize = if neg { 1 } else { 0 };
    let ghost body: Seq<u8> = if neg {
        s@.subrange(1, n as int)
    } else {
        s@
    };
    proof {
        if !neg {
            assert(s@.subrange(0, n as int) =~= s@);
        }
    }
    let dot = find_byte_from(s, start, 46);
    let dotpos: usize = match dot {
        Option::None => {
            proof {
                lemma_find_props(body, 46);
                if spec_find(body, 46) != -1 {
                    let w = spec_find(body, 46);
                    assert(body[w] == s@[start + w]);
                    assert(false);
                }
            }
            n
        },
        Option::Some(k) => {
            proof {
                assert(body[k - start] == s@[k as int]);
                assert forall|i: int| 0 <= i < k - start implies body[i] != 46 by {
                    assert(body[i] == s@[start + i]);
                }
                lemma_find_unique(body, 46, k - start);
            }
            k
        },
    };
    let ghost dot_spec = spec_find(body, 46);
    let whole = match parse_digits_range(s, start, dotpos) {
        Option::None => {
            proof {
                if dot_spec == -1 {
                    assert(s@.subrange(start as int, n as int) =~= body);
                } else {
                    assert(s@.subrange(start as int, dotpos as int) =~= body.subrange(
                        0,
                        dot_spec,
                    ));
                }
            }
            return Err(Error::NumericParseError);
        },
        Option::Some(wd) => wd,
    };
    proof {
        if dot_spec == -1 {
            assert(s@.subrange(start as int, n as int) =~= body);
        } else {
            assert(s@.subrange(start as int, dotpos as int) =~= body.subrange(0, dot_spec));
        }
    }
    let ghost w = digits_value(whole@);
    if dotpos == n {
        // No fractional part.
        proof {
            lemma_digits_value_nonneg(whole@);
        }
        let r = Ratio::from_parts(neg, whole, 1);
        proof {
            lemma_one_denominator(w);
            assert(decimal_value_ok(s@, r, 0, 1));
            assert(decimal_shape_ok(s@));
            lemma_post_from_witness(s@, r, 0, 1);
        }
        return Ok(r);
    }
    if dotpos + 1 == n {
        // A dot with nothing after it.
        proof {
            assert(dot_spec + 1 >= body.len());
        }
        return Err(Error::NumericParseError);
    }
    // Validate the whole fractional run, then read its leading digits.
    let ghost frac = body.subrange(dot_spec + 1, body.len() as int);
    if parse_digits_range(s, dotpos + 1, n).is_none() {
        proof {
            assert(s@.subrange(dotpos + 1, n as int) =~= frac);
        }
        return Err(Error::NumericParseError);
    }
    proof {
        assert(s@.subrange(dotpos + 1, n as int) =~= frac);
    }
    let fraclen = n - (dotpos + 1);
    let k: usize = if fraclen > 12 { 12 } else { fraclen };
    let frac12 = match parse_digits_range(s, dotpos + 1, dotpos + 1 + k) {
        Option::None => {
            proof {
                let sub = s@.subrange(dotpos + 1, dotpos + 1 + k);
                assert forall|i: int| 0 <= i < sub.len() implies is_digit_byte(sub[i]) by {
                    assert(sub[i] == frac[i]);
                }
                assert(false);
            }
            vstd::pervasive::unreached()
        },
        Option::Some(fd) => fd,
    };
    proof {
        assert(s@.subrange(dotpos + 1, dotpos + 1 + k) =~= frac.subrange(0, k as int));
    }
    let ghost dp = spec_frac_scaled(body, dot_spec);
    proof {
        assert(dp.0 == digits_value(frac12@));
        assert(dp.1 == pow10(k as nat));
        lemma_pow10_pos(k as nat);
        let raw = digits_of_bytes(frac.subrange(0, k as int));
        lemma_digits_value_upper(raw);
        assert(raw.len() == k);
        if frac12@.len() > 12 {
            crate::digits::lemma_digits_value_lower(frac12@);
            lemma_pow10_increases(k as nat, 12);
            lemma_pow10_increases(12, (frac12@.len() - 1) as nat);
            assert(false);
        }
    }
    let dv = frac_value_u64(&frac12);
    let p = pow10_u64(k);
    proof {
        assert(dv < p);
    }
    if dv == 0 {
        proof {
            lemma_digits_value_nonneg(whole@);
        }
        let r = Ratio::from_parts(neg, whole, 1);
        proof {
            lemma_one_denominator(w);
            assert(decimal_value_ok(s@, r, 0, 1));
            assert(decimal_shape_ok(s@));
            lemma_post_from_witness(s@, r, 0, 1);
        }
        return Ok(r);
    }
    proof {
        assert(p <= 1000000000000) by {
            lemma_pow10_increases(k as nat, 12);
            assert(pow10(12) == 1000000000000) by {
                reveal_with_fuel(pow10, 13);
            }
        }
    }
    let (nf, df) = approximate_fraction(dv, p);
    let mag = mul_add_small(&whole, df, nf);
    let r = Ratio::from_parts(neg, mag, df);
    proof {
        let v = digits_value(mag@);
        assert(v == w * df + nf);
        assert(approx_ok(dp.0, dp.1, nf as int, df as int));
        assert(r.num_int() * (df as int) == (if neg {
            -(w * (df as int) + nf)
        } else {
            w * (df as int) + nf
        }) * r.den_int());
        let sneg = s@[0] == 45;
        let sbody: Seq<u8> = if sneg {
            s@.subrange(1, s@.len() as int)
        } else {
            s@
        };
        assert(sbody == body);
        let sdot = spec_find(sbody, 46);
        assert(sdot == dot_spec);
        let sw = digits_value(digits_of_bytes(sbody.subrange(0, sdot)));
        let sdp = spec_frac_scaled(sbody, sdot);
        assert(sdp == dp);
        assert(sw == w);
        assert(sdp.0 != 0);
        assert(approx_ok(sdp.0, sdp.1, nf as int, df as int));
        assert(r.num_int() * (df as int) == (if sneg {
            -(sw * (df as int) + nf)
        } else {
            sw * (df as int) + nf
        }) * r.den_int());
        assert(decimal_value_ok(s@, r, nf as int, df as int));
        assert(decimal_shape_ok(s@));
        lemma_post_from_witness(s@, r, nf as int, df as int);
    }
    Ok(r)
}

/// With denominator 1 the reduction in `Ratio::from_parts` is the
/// identity.
proof fn lemma_one_denominator(w: int)
    requires
        w >= 0,
    ensures
        spec_gcd(w as nat, 1nat) == 1,
        w / (spec_gcd(w as nat, 1nat) as int) == w,
        1int / (spec_gcd(w as nat, 1nat) as int) == 1,
{
    vstd::arithmetic::div_mod::lemma_mod_bound(w, 1);
    assert(w % 1 == 0);
    assert(spec_gcd(w as nat, 1nat) == spec_gcd(1nat, (w % 1) as nat));
    assert(spec_gcd(1nat, 0nat) == 1);
    vstd::arithmetic::div_mod::lemma_div_basics(w);
    vstd::arithmetic::div_mod::lemma_div_basics(1);
}

} // verus!
