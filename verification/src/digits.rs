//! Arbitrary-precision decimal digit strings.
//!
//! The numeric kernel stores magnitudes as vectors of decimal digits,
//! most significant first.  This module defines the mathematical value
//! of such a string, the canonical-form invariant (no leading zeros),
//! and the small-scalar arithmetic the pipeline needs: multiply-and-add
//! by a machine word, and division with remainder by a machine word.

use vstd::prelude::*;
use vstd::arithmetic::div_mod::*;

verus! {

/// `10^n`.
pub open spec fn pow10(n: nat) -> int
    decreases n,
{
    if n == 0 {
        1
    } else {
        10 * pow10((n - 1) as nat)
    }
}

pub proof fn lemma_pow10_pos(n: nat)
    ensures
        pow10(n) >= 1,
    decreases n,
{
    if n > 0 {
        lemma_pow10_pos((n - 1) as nat);
    }
}

/// Every entry is a decimal digit.
pub open spec fn all_digits(s: Seq<u8>) -> bool {
    forall|i: int| 0 <= i < s.len() ==> s[i] < 10
}

/// Canonical digit string: nonempty, digits only, and no leading zero
/// (zero itself is the single digit `0`).
pub open spec fn digits_wf(s: Seq<u8>) -> bool {
    &&& s.len() >= 1
    &&& all_digits(s)
    &&& (s.len() > 1 ==> s[0] != 0)
}

/// The number a digit string denotes, most significant digit first.
pub open spec fn digits_value(s: Seq<u8>) -> int
    decreases s.len(),
{
    if s.len() == 0 {
        0
    } else {
        digits_value(s.drop_last()) * 10 + s.last()
    }
}

/// The number a digit string denotes, least significant digit first.
/// Used for carry loops that produce digits from the bottom up.
pub open spec fn rev_value(s: Seq<u8>) -> int
    decreases s.len(),
{
    if s.len() == 0 {
        0
    } else {
        rev_value(s.drop_last()) + s.last() * pow10((s.len() - 1) as nat)
    }
}

pub proof fn lemma_digits_value_nonneg(s: Seq<u8>)
    ensures
        digits_value(s) >= 0,
    decreases s.len(),
{
    if s.len() > 0 {
        lemma_digits_value_nonneg(s.drop_last());
    }
}

/// Expanding a digit string at the front: the leading digit carries
/// weight `10^(len-1)`.
pub proof fn lemma_digits_value_front(s: Seq<u8>)
    requires
        s.len() >= 1,
    ensures
        digits_value(s) == s[0] * pow10((s.len() - 1) as nat) + digits_value(
            s.subrange(1, s.len() as int),
        ),
    decreases s.len(),
{
    if s.len() == 1 {
        assert(digits_value(Seq::<u8>::empty()) == 0);
        assert(s.drop_last() =~= Seq::<u8>::empty());
        assert(s.subrange(1, s.len() as int) =~= Seq::<u8>::empty());
        assert(digits_value(s) == digits_value(s.drop_last()) * 10 + s.last());
        assert(digits_value(s) == s[0]);
        assert(pow10((s.len() - 1) as nat) == 1);
        assert(s[0] * 1 == s[0]) by (nonlinear_arith);
    } else {
        let head = s[0];
        let tail = s.subrange(1, s.len() as int);
        lemma_digits_value_front(s.drop_last());
        assert(s.drop_last().subrange(1, s.drop_last().len() as int) =~= tail.drop_last());
        assert(s.drop_last()[0] == head);
        let k = (s.len() - 2) as nat;
        assert(digits_value(s.drop_last()) == head * pow10(k) + digits_value(tail.drop_last()));
        assert(digits_value(s) == (head * pow10(k) + digits_value(tail.drop_last())) * 10
            + s.last());
        assert((head * pow10(k) + digits_value(tail.drop_last())) * 10 == head * (10 * pow10(k))
            + digits_value(tail.drop_last()) * 10) by (nonlinear_arith);
        assert(tail.last() == s.last());
        assert(digits_value(tail) == digits_value(tail.drop_last()) * 10 + tail.last());
        assert(pow10((s.len() - 1) as nat) == 10 * pow10(k));
        assert(digits_value(s) == digits_value(s.drop_last()) * 10 + s.last());
        assert(digits_value(s) == head * (10 * pow10(k)) + digits_value(tail.drop_last()) * 10
            + s.last());
        assert(head * pow10((s.len() - 1) as nat) == head * (10 * pow10(k)));
        assert(digits_value(s) == head * pow10((s.len() - 1) as nat) + digits_value(tail));
    }
}

/// A digit string of length `n` denotes a value below `10^n`.
pub proof fn lemma_digits_value_upper(s: Seq<u8>)
    requires
        all_digits(s),
    ensures
        digits_value(s) < pow10(s.len()),
    decreases s.len(),
{
    if s.len() == 0 {
    } else {
        lemma_digits_value_upper(s.drop_last());
        assert(all_digits(s.drop_last()));
        assert(digits_value(s.drop_last()) <= pow10((s.len() - 1) as nat) - 1);
        assert(pow10(s.len()) == 10 * pow10((s.len() - 1) as nat));
    }
}

/// A canonical digit string of more than one digit denotes at least
/// `10^(len-1)`.
pub proof fn lemma_digits_value_lower(s: Seq<u8>)
    requires
        s.len() >= 1,
        all_digits(s),
        s[0] >= 1,
    ensures
        digits_value(s) >= pow10((s.len() - 1) as nat),
{
    lemma_digits_value_front(s);
    lemma_digits_value_nonneg(s.subrange(1, s.len() as int));
    lemma_pow10_pos((s.len() - 1) as nat);
    assert(s[0] * pow10((s.len() - 1) as nat) >= pow10((s.len() - 1) as nat)) by (nonlinear_arith)
        requires
            s[0] >= 1,
            pow10((s.len() - 1) as nat) >= 1,
    ;
}

/// A canonical digit string denotes zero exactly when it is the single
/// digit `0`.
pub proof fn lemma_digits_value_zero(s: Seq<u8>)
    requires
        digits_wf(s),
    ensures
        (digits_value(s) == 0) <==> (s =~= seq![0u8]),
{
    if s.len() == 1 {
        assert(digits_value(Seq::<u8>::empty()) == 0);
        assert(s.drop_last() =~= Seq::<u8>::empty());
        assert(digits_value(s) == s[0]);
        if digits_value(s) == 0 {
            assert(s =~= seq![0u8]);
        }
    } else {
        lemma_digits_value_lower(s);
        lemma_pow10_pos((s.len() - 1) as nat);
    }
}

/// Two canonical digit strings with the same value are the same string.
pub proof fn lemma_digits_value_injective(a: Seq<u8>, b: Seq<u8>)
    requires
        digits_wf(a),
        digits_wf(b),
        digits_value(a) == digits_value(b),
    ensures
        a =~= b,
    decreases a.len(),
{
    if a.len() < b.len() {
        lemma_digits_value_upper(a);
        lemma_digits_value_lower(b);
        lemma_pow10_increases(a.len(), (b.len() - 1) as nat);
        assert(false);
    } else if a.len() > b.len() {
        lemma_digits_value_upper(b);
        lemma_digits_value_lower(a);
        lemma_pow10_increases(b.len(), (a.len() - 1) as nat);
        assert(false);
    } else if a.len() == 1 {
        assert(digits_value(Seq::<u8>::empty()) == 0);
        assert(a.drop_last() =~= Seq::<u8>::empty());
        assert(b.drop_last() =~= Seq::<u8>::empty());
        assert(a[0] == digits_value(a));
        assert(a =~= b);
    } else {
        // Values agree, so last digits agree (value mod 10) and the
        // leading parts agree (value div 10).
        let va = digits_value(a.drop_last());
        let vb = digits_value(b.drop_last());
        lemma_digits_value_nonneg(a.drop_last());
        lemma_digits_value_nonneg(b.drop_last());
        assert(va * 10 + a.last() == vb * 10 + b.last());
        assert(a.last() < 10 && b.last() < 10);
        assert(va == vb && a.last() == b.last()) by (nonlinear_arith)
            requires
                va * 10 + a.last() == vb * 10 + b.last(),
                0 <= a.last() < 10,
                0 <= b.last() < 10,
                va >= 0,
                vb >= 0,
        ;
        assert(digits_wf(a.drop_last()));
        assert(digits_wf(b.drop_last()));
        lemma_digits_value_injective(a.drop_last(), b.drop_last());
        assert forall|i: int| 0 <= i < a.len() implies a[i] == b[i] by {
            if i < a.len() - 1 {
                assert(a.drop_last()[i] == b.drop_last()[i]);
            }
        }
        assert(a =~= b);
    }
}

pub proof fn lemma_pow10_increases(m: nat, n: nat)
    requires
        m <= n,
    ensures
        pow10(m) <= pow10(n),
    decreases n,
{
    if m < n {
        lemma_pow10_increases(m, (n - 1) as nat);
        lemma_pow10_pos((n - 1) as nat);
    }
}

/// Appending a digit multiplies the value by ten and adds the digit.
pub proof fn lemma_digits_value_push(s: Seq<u8>, d: u8)
    ensures
        digits_value(s.push(d)) == digits_value(s) * 10 + d,
{
    assert(s.push(d).drop_last() =~= s);
    assert(s.push(d).last() == d);
}

/// A leading zero does not change the value.
pub proof fn lemma_digits_value_skip_zeros(s: Seq<u8>, k: int)
    requires
        0 <= k <= s.len(),
        forall|j: int| 0 <= j < k ==> s[j] == 0,
    ensures
        digits_value(s) == digits_value(s.subrange(k, s.len() as int)),
    decreases k,
{
    if k == 0 {
        assert(s.subrange(0, s.len() as int) =~= s);
    } else {
        lemma_digits_value_front(s);
        let t = s.subrange(1, s.len() as int);
        lemma_digits_value_skip_zeros(t, k - 1);
        assert(t.subrange(k - 1, t.len() as int) =~= s.subrange(k, s.len() as int));
    }
}

/// Appending a digit from below (carry loops).
pub proof fn lemma_rev_value_push(s: Seq<u8>, d: u8)
    ensures
        rev_value(s.push(d)) == rev_value(s) + d * pow10(s.len()),
{
    assert(s.push(d).drop_last() =~= s);
    assert(s.push(d).last() == d);
}

/// True when `b` is the ASCII code of a decimal digit.
pub open spec fn is_digit_byte(b: u8) -> bool {
    48 <= b <= 57
}

pub open spec fn all_digit_bytes(s: Seq<u8>) -> bool {
    forall|i: int| 0 <= i < s.len() ==> is_digit_byte(s[i])
}

pub open spec fn digit_of_byte(b: u8) -> u8 {
    (b - 48) as u8
}

pub open spec fn byte_of_digit(d: u8) -> u8 {
    (d + 48) as u8
}

/// The digit values of a run of ASCII digit bytes.
pub open spec fn digits_of_bytes(s: Seq<u8>) -> Seq<u8> {
    s.map_values(|b: u8| digit_of_byte(b))
}

/// The ASCII rendering of a digit string.
pub open spec fn bytes_of_digits(s: Seq<u8>) -> Seq<u8> {
    s.map_values(|d: u8| byte_of_digit(d))
}

/// Rendering digits as bytes and reading them back is the identity.
pub proof fn lemma_digit_bytes_roundtrip(s: Seq<u8>)
    requires
        all_digits(s),
    ensures
        all_digit_bytes(bytes_of_digits(s)),
        digits_of_bytes(bytes_of_digits(s)) =~= s,
{
}

/// Expanding a least-significant-first string at the front.
pub proof fn lemma_rev_value_front(s: Seq<u8>)
    requires
        s.len() >= 1,
    ensures
        rev_value(s) == s[0] + 10 * rev_value(s.subrange(1, s.len() as int)),
    decreases s.len(),
{
    if s.len() == 1 {
        assert(s.drop_last() =~= Seq::<u8>::empty());
        assert(s.subrange(1, 1) =~= Seq::<u8>::empty());
    } else {
        let tail = s.subrange(1, s.len() as int);
        lemma_rev_value_front(s.drop_last());
        assert(s.drop_last().subrange(1, s.drop_last().len() as int) =~= tail.drop_last());
        let k = (s.len() - 2) as nat;
        assert(rev_value(s) == rev_value(s.drop_last()) + s.last() * pow10((k + 1) as nat));
        assert(rev_value(s.drop_last()) == s[0] + 10 * rev_value(tail.drop_last()));
        assert(tail.last() == s.last());
        assert(rev_value(tail) == rev_value(tail.drop_last()) + tail.last() * pow10(k));
        assert(s.last() * pow10((k + 1) as nat) == 10 * (s.last() * pow10(k))) by (nonlinear_arith)
            requires
                pow10((k + 1) as nat) == 10 * pow10(k),
        ;
    }
}

/// Copies `v[from..to]` into a fresh vector.
pub fn copy_range(v: &Vec<u8>, from: usize, to: usize) -> (r: Vec<u8>)
    requires
        from <= to <= v@.len(),
    ensures
        r@ == v@.subrange(from as int, to as int),
{
    let mut r: Vec<u8> = Vec::new();
    let mut i: usize = from;
    while i < to
        invariant
            from <= i <= to <= v@.len(),
            r@ =~= v@.subrange(from as int, i as int),
        decreases to - i,
    {
        r.push(v[i]);
        i += 1;
        proof {
            assert(r@ =~= v@.subrange(from as int, i as int));
        }
    }
    proof {
        assert(r@ =~= v@.subrange(from as int, to as int));
    }
    r
}

/// Strips leading zeros, turning a raw digit run into canonical form.
pub fn normalize_digits(d: Vec<u8>) -> (r: Vec<u8>)
    requires
        d@.len() >= 1,
        all_digits(d@),
    ensures
        digits_wf(r@),
        digits_value(r@) == digits_value(d@),
{
    let n = d.len();
    let mut k: usize = 0;
    while k < n && d[k] == 0
        invariant
            k <= n,
            n == d@.len(),
            forall|j: int| 0 <= j < k ==> d@[j] == 0,
        decreases n - k,
    {
        k += 1;
    }
    if k == n {
        // All zeros: the canonical form of zero is the single digit 0.
        proof {
            lemma_digits_value_skip_zeros(d@, n as int);
            assert(d@.subrange(n as int, n as int) =~= Seq::<u8>::empty());
            assert(digits_value(Seq::<u8>::empty()) == 0);
        }
        let mut r: Vec<u8> = Vec::new();
        r.push(0);
        proof {
            assert(r@ =~= seq![0u8]);
            assert(r@.drop_last() =~= Seq::<u8>::empty());
        }
        r
    } else {
        let r = copy_range(&d, k, n);
        proof {
            lemma_digits_value_skip_zeros(d@, k as int);
        }
        r
    }
}

/// Computes `a * m + addend` on canonical digit strings, where `m` and
/// `addend` are machine words.
pub fn mul_add_small(a: &Vec<u8>, m: u64, addend: u64) -> (r: Vec<u8>)
    requires
        digits_wf(a@),
        1 <= m <= 1000000,
        addend <= 1000000,
    ensures
        digits_wf(r@),
        digits_value(r@) == digits_value(a@) * m + addend,
{
    let ghost total: int = digits_value(a@) * m + addend;
    let n = a.len();
    let mut rev: Vec<u8> = Vec::new();
    let mut carry: u64 = addend;
    let mut i: usize = n;
    proof {
        assert(a@.subrange(n as int, n as int) =~= Seq::<u8>::empty());
        assert(digits_value(Seq::<u8>::empty()) == 0);
        assert(rev@ =~= Seq::<u8>::empty());
        assert(rev_value(rev@) == 0);
        assert(pow10(0) == 1);
        assert(carry * pow10(rev@.len() as nat) == addend);
        assert(digits_value(a@.subrange(n as int, n as int)) * m == 0) by (nonlinear_arith)
            requires
                digits_value(a@.subrange(n as int, n as int)) == 0,
        ;
    }
    while i > 0
        invariant
            i <= n,
            n == a@.len(),
            digits_wf(a@),
            1 <= m <= 1000000,
            addend <= 1000000,
            carry <= 10000000,
            rev@.len() == n - i,
            all_digits(rev@),
            rev_value(rev@) + carry * pow10(rev@.len() as nat) == digits_value(
                a@.subrange(i as int, n as int),
            ) * m + addend,
        decreases i,
    {
        let ghost k = rev@.len() as nat;
        let ghost suffix_old = a@.subrange(i as int, n as int);
        i -= 1;
        let d = a[i];
        assert(d < 10);
        proof {
            assert(d as int * m as int <= 9000000) by (nonlinear_arith)
                requires
                    d < 10,
                    m <= 1000000,
            ;
        }
        let t: u64 = (d as u64) * m + carry;
        let ghost rev_old = rev@;
        let ghost carry_old = carry as int;
        rev.push((t % 10) as u8);
        carry = t / 10;
        proof {
            let suffix_new = a@.subrange(i as int, n as int);
            assert(suffix_new.len() >= 1);
            assert(suffix_new[0] == d);
            assert(suffix_new.subrange(1, suffix_new.len() as int) =~= suffix_old);
            lemma_digits_value_front(suffix_new);
            assert(digits_value(suffix_new) == d * pow10(k) + digits_value(suffix_old));
            lemma_rev_value_push(rev_old, (t % 10) as u8);
            assert(rev_value(rev@) == rev_value(rev_old) + (t % 10) * pow10(k));
            assert(t == 10 * (t / 10) + t % 10) by {
                lemma_fundamental_div_mod(t as int, 10);
            }
            assert(t < 20000000);
            assert(carry <= 10000000) by {
                assert(t as int / 10 <= 19999999int / 10) by {
                    lemma_div_is_ordered(t as int, 19999999int, 10);
                }
            }
            // rev_value grew by (t%10)*10^k; carry term is now (t/10)*10^(k+1).
            assert(pow10((k + 1) as nat) == 10 * pow10(k));
            assert(rev@.len() as nat == (k + 1) as nat);
            assert(carry * pow10(rev@.len() as nat) == (t / 10) * (10 * pow10(k)));
            assert((t % 10) * pow10(k) + (t / 10) * (10 * pow10(k)) == t * pow10(k))
                by (nonlinear_arith)
                requires
                    t == 10 * (t / 10) + t % 10,
            ;
            assert(rev_value(rev@) + carry * pow10(rev@.len() as nat) == rev_value(rev_old) + t
                * pow10(k));
            assert(t == d * m + carry_old);
            assert((d * m + carry_old) * pow10(k) == (d * m) * pow10(k) + carry_old * pow10(k))
                by (nonlinear_arith);
            assert(rev_value(rev@) + carry * pow10(rev@.len() as nat) == rev_value(rev_old)
                + carry_old * pow10(k) + (d * m) * pow10(k));
            assert(rev_value(rev_old) + carry_old * pow10(k) == digits_value(suffix_old) * m
                + addend);
            assert((d * pow10(k)) * m == (d * m) * pow10(k)) by (nonlinear_arith);
            assert((digits_value(suffix_old) + d * pow10(k)) * m == digits_value(suffix_old) * m + (
            d * pow10(k)) * m) by (nonlinear_arith);
            assert(rev_value(rev@) + carry * pow10(rev@.len() as nat) == digits_value(suffix_new)
                * m + addend);
        }
    }
    proof {
        assert(a@.subrange(0, n as int) =~= a@);
        assert(rev_value(rev@) + carry * pow10(rev@.len() as nat) == total);
    }
    while carry > 0
        invariant
            carry <= 10000000,
            all_digits(rev@),
            rev@.len() >= 1,
            rev_value(rev@) + carry * pow10(rev@.len() as nat) == total,
        decreases carry,
    {
        let ghost k = rev@.len() as nat;
        let ghost rev_old = rev@;
        let old_carry = carry;
        rev.push((carry % 10) as u8);
        carry = carry / 10;
        proof {
            lemma_rev_value_push(rev_old, (old_carry % 10) as u8);
            assert(rev_value(rev@) == rev_value(rev_old) + (old_carry % 10) * pow10(k));
            assert(old_carry == 10 * (old_carry / 10) + old_carry % 10) by {
                lemma_fundamental_div_mod(old_carry as int, 10);
            }
            assert(carry < old_carry) by {
                lemma_div_is_strictly_smaller(old_carry as int, 10);
            }
            assert(pow10((k + 1) as nat) == 10 * pow10(k));
            assert(rev@.len() as nat == (k + 1) as nat);
            assert(carry * pow10(rev@.len() as nat) == (old_carry as int / 10) * (10 * pow10(k)));
            assert((old_carry % 10) * pow10(k) + (old_carry / 10) * (10 * pow10(k)) == old_carry
                * pow10(k)) by (nonlinear_arith)
                requires
                    old_carry == 10 * (old_carry / 10) + old_carry % 10,
            ;
            assert(rev_value(rev@) + carry * pow10(rev@.len() as nat) == rev_value(rev_old)
                + old_carry * pow10(k));
        }
    }
    // The digits were produced least significant first; reverse them.
    let rn = rev.len();
    let mut out: Vec<u8> = Vec::new();
    let mut j: usize = 0;
    proof {
        assert(rev@.subrange(rn as int, rn as int) =~= Seq::<u8>::empty());
        assert(rev_value(Seq::<u8>::empty()) == 0);
        assert(digits_value(out@) == 0);
    }
    while j < rn
        invariant
            j <= rn,
            rn == rev@.len(),
            all_digits(rev@),
            all_digits(out@),
            out@.len() == j,
            digits_value(out@) == rev_value(rev@.subrange(rn - j, rn as int)),
        decreases rn - j,
    {
        let ghost out_old = out@;
        out.push(rev[rn - 1 - j]);
        j += 1;
        proof {
            let suffix = rev@.subrange(rn - j, rn as int);
            assert(suffix[0] == rev@[rn - j]);
            assert(suffix.subrange(1, suffix.len() as int) =~= rev@.subrange(rn - j + 1, rn as int));
            lemma_rev_value_front(suffix);
            lemma_digits_value_push(out_old, rev@[rn - j]);
            assert(out@ =~= out_old.push(rev@[rn - j]));
        }
    }
    proof {
        assert(rev@.subrange(0, rn as int) =~= rev@);
        assert(digits_value(out@) == total);
        lemma_digits_value_nonneg(a@);
        assert(digits_value(a@) * m >= 0) by (nonlinear_arith)
            requires
                digits_value(a@) >= 0,
                m >= 1,
        ;
    }
    normalize_digits(out)
}

/// Divides a canonical digit string by a machine word, returning the
/// quotient digits and the remainder.
pub fn div_mod_small(a: &Vec<u8>, m: u64) -> (r: (Vec<u8>, u64))
    requires
        digits_wf(a@),
        1 <= m <= 1000000,
    ensures
        digits_wf(r.0@),
        r.1 < m,
        digits_value(a@) == digits_value(r.0@) * m + r.1,
{
    let n = a.len();
    let mut q: Vec<u8> = Vec::new();
    let mut rem: u64 = 0;
    let mut i: usize = 0;
    proof {
        assert(a@.subrange(0, 0) =~= Seq::<u8>::empty());
        assert(digits_value(Seq::<u8>::empty()) == 0);
    }
    while i < n
        invariant
            i <= n,
            n == a@.len(),
            digits_wf(a@),
            1 <= m <= 1000000,
            rem < m,
            q@.len() == i,
            all_digits(q@),
            digits_value(a@.subrange(0, i as int)) == digits_value(q@) * m + rem,
        decreases n - i,
    {
        let ghost q_old = q@;
        let ghost rem_old = rem;
        let d = a[i];
        assert(d < 10);
        let acc: u64 = rem * 10 + (d as u64);
        let qd: u64 = acc / m;
        rem = acc % m;
        proof {
            lemma_fundamental_div_mod(acc as int, m as int);
            lemma_mod_bound(acc as int, m as int);
            assert(acc < 10 * m);
            assert(qd < 10) by (nonlinear_arith)
                requires
                    acc < 10 * m,
                    m >= 1,
                    qd == acc as int / m as int,
                    acc == (acc as int / m as int) * m + (acc as int % m as int),
                    acc as int % m as int >= 0,
            ;
        }
        q.push(qd as u8);
        i += 1;
        proof {
            let prefix = a@.subrange(0, i as int);
            assert(prefix.drop_last() =~= a@.subrange(0, i - 1));
            assert(prefix.last() == d);
            assert(digits_value(prefix) == digits_value(a@.subrange(0, i - 1)) * 10 + d);
            lemma_digits_value_push(q_old, qd as u8);
            assert(q@ =~= q_old.push(qd as u8));
            assert(acc == qd * m + rem);
            assert((digits_value(q_old) * m + rem_old) * 10 + d == (digits_value(q_old) * 10) * m
                + (rem_old * 10 + d)) by (nonlinear_arith);
            assert((digits_value(q_old) * 10 + qd) * m == (digits_value(q_old) * 10) * m + qd * m)
                by (nonlinear_arith);
        }
    }
    proof {
        assert(a@.subrange(0, n as int) =~= a@);
    }
    let qn = normalize_digits(q);
    (qn, rem)
}

/// Renders a machine word as a canonical digit string.
pub fn u64_to_digits(x: u64) -> (r: Vec<u8>)
    requires
        x <= 1000000,
    ensures
        digits_wf(r@),
        digits_value(r@) == x,
{
    let mut one: Vec<u8> = Vec::new();
    one.push(0);
    proof {
        assert(one@ =~= seq![0u8]);
        assert(one@.drop_last() =~= Seq::<u8>::empty());
        assert(digits_value(Seq::<u8>::empty()) == 0);
        assert(digits_value(one@) == 0);
    }
    mul_add_small(&one, 1, x)
}

/// Reads a short digit string back as a machine word.
pub fn small_digits_to_u64(d: &Vec<u8>) -> (r: Option<u64>)
    requires
        digits_wf(d@),
    ensures
        match r {
            Some(x) => x == digits_value(d@) && x <= 1000000,
            None => digits_value(d@) > 1000000,
        },
{
    let n = d.len();
    if n > 7 {
        proof {
            lemma_digits_value_lower(d@);
            lemma_pow10_increases(7, (d@.len() - 1) as nat);
            assert(pow10(7) == 10000000) by {
                reveal_with_fuel(pow10, 8);
            }
        }
        return None;
    }
    let mut acc: u64 = 0;
    let mut i: usize = 0;
    proof {
        assert(d@.subrange(0, 0) =~= Seq::<u8>::empty());
        assert(digits_value(Seq::<u8>::empty()) == 0);
    }
    while i < n
        invariant
            i <= n <= 7,
            n == d@.len(),
            digits_wf(d@),
            acc == digits_value(d@.subrange(0, i as int)),
            acc < 10000000,
        decreases n - i,
    {
        let d_i = d[i];
        assert(d_i < 10);
        acc = acc * 10 + (d_i as u64);
        i += 1;
        proof {
            let prefix = d@.subrange(0, i as int);
            assert(prefix.drop_last() =~= d@.subrange(0, i - 1));
            assert(prefix.last() == d_i);
            assert(acc == digits_value(prefix));
            lemma_digits_value_upper(prefix);
            lemma_pow10_increases(prefix.len() as nat, 7);
            assert(pow10(7) == 10000000) by {
                reveal_with_fuel(pow10, 8);
            }
        }
    }
    proof {
        assert(d@.subrange(0, n as int) =~= d@);
    }
    if acc > 1000000 {
        None
    } else {
        Some(acc)
    }
}

/// The index of the first occurrence of `b` in `s`, or `-1`.
pub open spec fn spec_find(s: Seq<u8>, b: u8) -> int
    decreases s.len(),
{
    if s.len() == 0 {
        -1
    } else if s[0] == b {
        0
    } else {
        let r = spec_find(s.subrange(1, s.len() as int), b);
        if r == -1 {
            -1
        } else {
            r + 1
        }
    }
}

/// What `spec_find` returns: either `-1` and no occurrence, or the
/// first occurrence.
pub proof fn lemma_find_props(s: Seq<u8>, b: u8)
    ensures
        spec_find(s, b) == -1 ==> forall|i: int| 0 <= i < s.len() ==> s[i] != b,
        spec_find(s, b) != -1 ==> 0 <= spec_find(s, b) < s.len() && s[spec_find(s, b)] == b
            && forall|i: int| 0 <= i < spec_find(s, b) ==> s[i] != b,
    decreases s.len(),
{
    if s.len() == 0 {
    } else if s[0] == b {
    } else {
        let t = s.subrange(1, s.len() as int);
        lemma_find_props(t, b);
        let r = spec_find(t, b);
        if r == -1 {
            assert forall|i: int| 0 <= i < s.len() implies s[i] != b by {
                if i >= 1 {
                    assert(t[i - 1] == s[i]);
                }
            }
        } else {
            assert(s[r + 1] == t[r]);
            assert forall|i: int| 0 <= i < r + 1 implies s[i] != b by {
                if i >= 1 {
                    assert(t[i - 1] == s[i]);
                }
            }
        }
    }
}

/// `spec_find` returns exactly the first occurrence.
pub proof fn lemma_find_unique(s: Seq<u8>, b: u8, k: int)
    requires
        0 <= k < s.len(),
        s[k] == b,
        forall|i: int| 0 <= i < k ==> s[i] != b,
    ensures
        spec_find(s, b) == k,
{
    lemma_find_props(s, b);
    let r = spec_find(s, b);
    if r == -1 {
        assert(s[k] != b);
    } else if r < k {
        assert(s[r] != b);
    } else if r > k {
        assert(s[k] != b);
    }
}

/// Finds the first occurrence of `b` in `v[from..]`.
pub fn find_byte_from(v: &Vec<u8>, from: usize, b: u8) -> (r: Option<usize>)
    requires
        from <= v@.len(),
    ensures
        match r {
            Some(k) => from <= k < v@.len() && v@[k as int] == b && forall|i: int|
                from <= i < k ==> v@[i] != b,
            None => forall|i: int| from <= i < v@.len() ==> v@[i] != b,
        },
{
    let n = v.len();
    let mut i: usize = from;
    while i < n
        invariant
            from <= i <= n,
            n == v@.len(),
            forall|j: int| from <= j < i ==> v@[j] != b,
        decreases n - i,
    {
        if v[i] == b {
            return Some(i);
        }
        i += 1;
    }
    None
}

/// Parses `v[from..to]` as a (possibly empty) run of ASCII digits and
/// returns the canonical digit string of its value.  An empty run
/// denotes zero.
pub fn parse_digits_range(v: &Vec<u8>, from: usize, to: usize) -> (r: Option<Vec<u8>>)
    requires
        from <= to <= v@.len(),
    ensures
        match r {
            Some(d) => all_digit_bytes(v@.subrange(from as int, to as int)) && digits_wf(d@)
                && digits_value(d@) == digits_value(digits_of_bytes(
                v@.subrange(from as int, to as int),
            )),
            None => !all_digit_bytes(v@.subrange(from as int, to as int)),
        },
{
    let ghost sub = v@.subrange(from as int, to as int);
    let mut raw: Vec<u8> = Vec::new();
    raw.push(0);
    proof {
        assert(raw@ =~= seq![0u8]);
        assert(raw@.drop_last() =~= Seq::<u8>::empty());
        assert(digits_value(Seq::<u8>::empty()) == 0);
        assert(digits_of_bytes(sub.subrange(0, 0)) =~= Seq::<u8>::empty());
    }
    let mut i: usize = from;
    while i < to
        invariant
            from <= i <= to <= v@.len(),
            sub == v@.subrange(from as int, to as int),
            all_digit_bytes(sub.subrange(0, i - from)),
            all_digits(raw@),
            raw@.len() >= 1,
            digits_value(raw@) == digits_value(digits_of_bytes(sub.subrange(0, i - from))),
        decreases to - i,
    {
        let b = v[i];
        if b < 48 || b > 57 {
            proof {
                assert(sub[i - from] == b);
                assert(!is_digit_byte(b));
            }
            return None;
        }
        let ghost raw_old = raw@;
        raw.push(b - 48);
        i += 1;
        proof {
            let pre = sub.subrange(0, i - from);
            assert(pre[i - from - 1] == b);
            assert(digits_of_bytes(pre).drop_last() =~= digits_of_bytes(
                sub.subrange(0, i - from - 1),
            ));
            assert(digits_of_bytes(pre).last() == digit_of_byte(b));
            lemma_digits_value_push(raw_old, (b - 48) as u8);
        }
    }
    proof {
        assert(sub.subrange(0, to - from) =~= sub);
    }
    Some(normalize_digits(raw))
}

/// The canonical digit string of a nonnegative number.
pub open spec fn canonical_digits(n: int) -> Seq<u8> {
    choose|s: Seq<u8>| digits_wf(s) && digits_value(s) == n
}

/// Every nonnegative number has a canonical digit string.
pub proof fn lemma_canonical_digits(n: int)
    requires
        n >= 0,
    ensures
        digits_wf(canonical_digits(n)),
        digits_value(canonical_digits(n)) == n,
    decreases n,
{
    if n < 10 {
        let w = seq![n as u8];
        assert(w.drop_last() =~= Seq::<u8>::empty());
        assert(digits_value(Seq::<u8>::empty()) == 0);
        assert(digits_value(w) == n);
        assert(digits_wf(w));
        assert(exists|s: Seq<u8>| digits_wf(s) && digits_value(s) == n);
    } else {
        vstd::arithmetic::div_mod::lemma_div_is_strictly_smaller(n, 10);
        vstd::arithmetic::div_mod::lemma_div_pos_is_pos(n, 10);
        lemma_canonical_digits(n / 10);
        let p = canonical_digits(n / 10);
        let d = (n % 10) as u8;
        vstd::arithmetic::div_mod::lemma_mod_bound(n, 10);
        let w = p.push(d);
        lemma_digits_value_push(p, d);
        vstd::arithmetic::div_mod::lemma_fundamental_div_mod(n, 10);
        assert(digits_value(w) == n);
        assert(w[0] == p[0]);
        assert(p[0] != 0) by {
            if p.len() == 1 {
                assert(p.drop_last() =~= Seq::<u8>::empty());
                assert(digits_value(Seq::<u8>::empty()) == 0);
                assert(digits_value(p) == p[0]);
            }
        }
        assert(digits_wf(w));
        assert(exists|s: Seq<u8>| digits_wf(s) && digits_value(s) == n);
    }
}

/// A prefix of a digit string never exceeds the whole string's value.
pub proof fn lemma_digits_prefix_le(s: Seq<u8>, i: int)
    requires
        0 <= i <= s.len(),
    ensures
        digits_value(s.subrange(0, i)) <= digits_value(s),
    decreases s.len() - i,
{
    if i == s.len() {
        assert(s.subrange(0, s.len() as int) =~= s);
    } else {
        let a = s.subrange(0, i);
        let b = s.subrange(0, i + 1);
        assert(b.drop_last() =~= a);
        assert(b.last() == s[i]);
        lemma_digits_value_nonneg(a);
        assert(digits_value(b) == digits_value(a) * 10 + s[i]);
        lemma_digits_prefix_le(s, i + 1);
    }
}

/// Euclid's algorithm as a specification.
pub open spec fn spec_gcd(a: nat, b: nat) -> nat
    decreases b,
{
    if b == 0 {
        a
    } else {
        spec_gcd(b, (a % b) as nat)
    }
}

/// Euclid's algorithm, executable.
pub fn gcd64(a: u64, b: u64) -> (g: u64)
    ensures
        g == spec_gcd(a as nat, b as nat),
{
    let mut x = a;
    let mut y = b;
    while y != 0
        invariant
            spec_gcd(x as nat, y as nat) == spec_gcd(a as nat, b as nat),
        decreases y,
    {
        let t = x % y;
        x = y;
        y = t;
    }
    x
}

} // verus!
