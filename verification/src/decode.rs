//! The record decoder: from raw host output to an ordered sequence of
//! text lines, and from lines to primitive fields.
//!
//! The host's output interleaves diagnostics with one payload region
//! bracketed by a start sentinel (0x01) and an end sentinel (0x04).
//! Inside the region, each line is framed by 0x02 and 0x03; anything
//! outside a frame is dropped.  The resulting lines are then consumed
//! strictly positionally by the assembly stage.

use vstd::prelude::*;
use crate::digits::{
    all_digit_bytes, copy_range, digits_of_bytes, digits_value, digits_wf, find_byte_from,
    lemma_find_props, lemma_find_unique, parse_digits_range, spec_find,
};
use crate::symbols::{spec_intern, Str, SymbolTable};
use crate::Error;

verus! {

//
// Newline normalization.
//

/// The byte stream with every 0x0D 0x0A pair collapsed to 0x0A.
pub open spec fn spec_strip_cr(s: Seq<u8>) -> Seq<u8>
    decreases s.len(),
{
    if s.len() == 0 {
        Seq::empty()
    } else if s.len() >= 2 && s[0] == 13 && s[1] == 10 {
        seq![10u8] + spec_strip_cr(s.subrange(2, s.len() as int))
    } else {
        seq![s[0]] + spec_strip_cr(s.subrange(1, s.len() as int))
    }
}

/// Collapses carriage-return/line-feed pairs to bare line feeds.
pub fn strip_cr(raw: &Vec<u8>) -> (out: Vec<u8>)
    ensures
        out@ == spec_strip_cr(raw@),
{
    let n = raw.len();
    let mut out: Vec<u8> = Vec::new();
    let mut i: usize = 0;
    proof {
        assert(raw@.subrange(0, n as int) =~= raw@);
        assert(out@ + spec_strip_cr(raw@.subrange(i as int, n as int)) =~= spec_strip_cr(raw@));
    }
    while i < n
        invariant
            i <= n,
            n == raw@.len(),
            out@ + spec_strip_cr(raw@.subrange(i as int, n as int)) == spec_strip_cr(raw@),
        decreases n - i,
    {
        let ghost out_old = out@;
        let ghost suffix = raw@.subrange(i as int, n as int);
        if raw[i] == 13 && i + 1 < n && raw[i + 1] == 10 {
            out.push(10);
            i += 2;
            proof {
                assert(suffix[0] == 13 && suffix[1] == 10);
                assert(suffix.subrange(2, suffix.len() as int) =~= raw@.subrange(
                    i as int,
                    n as int,
                ));
                assert(spec_strip_cr(suffix) == seq![10u8] + spec_strip_cr(
                    raw@.subrange(i as int, n as int),
                ));
                assert(out@ + spec_strip_cr(raw@.subrange(i as int, n as int)) =~= out_old + (
                seq![10u8] + spec_strip_cr(raw@.subrange(i as int, n as int))));
            }
        } else {
            let b = raw[i];
            out.push(b);
            i += 1;
            proof {
                assert(suffix[0] == b);
                assert(!(suffix.len() >= 2 && suffix[0] == 13 && suffix[1] == 10)) by {
                    if suffix.len() >= 2 {
                        assert(suffix[1] == raw@[i as int]);
                    }
                }
                assert(suffix.subrange(1, suffix.len() as int) =~= raw@.subrange(
                    i as int,
                    n as int,
                ));
                assert(spec_strip_cr(suffix) == seq![b] + spec_strip_cr(
                    raw@.subrange(i as int, n as int),
                ));
                assert(out@ + spec_strip_cr(raw@.subrange(i as int, n as int)) =~= out_old + (
                seq![b] + spec_strip_cr(raw@.subrange(i as int, n as int))));
            }
        }
    }
    proof {
        assert(raw@.subrange(n as int, n as int) =~= Seq::<u8>::empty());
        assert(spec_strip_cr(Seq::<u8>::empty()) == Seq::<u8>::empty());
        assert(out@ =~= out@ + Seq::<u8>::empty());
    }
    out
}

//
// Sentinel location.
//

/// The index of the last occurrence of `b` in `s`, or `-1`.
pub open spec fn spec_rfind(s: Seq<u8>, b: u8) -> int
    decreases s.len(),
{
    if s.len() == 0 {
        -1
    } else if s.last() == b {
        s.len() - 1
    } else {
        spec_rfind(s.drop_last(), b)
    }
}

/// What `spec_rfind` returns: either `-1` and no occurrence, or the
/// last occurrence.
pub proof fn lemma_rfind_props(s: Seq<u8>, b: u8)
    ensures
        spec_rfind(s, b) == -1 ==> forall|i: int| 0 <= i < s.len() ==> s[i] != b,
        spec_rfind(s, b) != -1 ==> 0 <= spec_rfind(s, b) < s.len() && s[spec_rfind(s, b)] == b
            && forall|i: int| spec_rfind(s, b) < i < s.len() ==> s[i] != b,
    decreases s.len(),
{
    if s.len() == 0 {
    } else if s.last() == b {
    } else {
        lemma_rfind_props(s.drop_last(), b);
        let r = spec_rfind(s.drop_last(), b);
        if r == -1 {
            assert forall|i: int| 0 <= i < s.len() implies s[i] != b by {
                if i < s.len() - 1 {
                    assert(s.drop_last()[i] == s[i]);
                }
            }
        } else {
            assert(s[r] == s.drop_last()[r]);
            assert forall|i: int| r < i < s.len() implies s[i] != b by {
                if i < s.len() - 1 {
                    assert(s.drop_last()[i] == s[i]);
                }
            }
        }
    }
}

/// `spec_rfind` returns exactly the last occurrence.
pub proof fn lemma_rfind_unique(s: Seq<u8>, b: u8, k: int)
    requires
        0 <= k < s.len(),
        s[k] == b,
        forall|i: int| k < i < s.len() ==> s[i] != b,
    ensures
        spec_rfind(s, b) == k,
{
    lemma_rfind_props(s, b);
    let r = spec_rfind(s, b);
    if r == -1 {
        assert(s[k] != b);
    } else if r < k {
        assert(s[k] != b);
    } else if r > k {
        assert(s[r] != b);
    }
}

/// Finds the last occurrence of `b` in `v`.
pub fn rfind_byte(v: &Vec<u8>, b: u8) -> (r: Option<usize>)
    ensures
        match r {
            Some(k) => k < v@.len() && v@[k as int] == b && forall|i: int|
                k < i < v@.len() ==> v@[i] != b,
            None => forall|i: int| 0 <= i < v@.len() ==> v@[i] != b,
        },
{
    let n = v.len();
    let mut i: usize = n;
    while i > 0
        invariant
            i <= n,
            n == v@.len(),
            forall|j: int| i <= j < n ==> v@[j] != b,
        decreases i,
    {
        i -= 1;
        if v[i] == b {
            return Some(i);
        }
    }
    None
}

//
// Token framing.
//

/// The framed lines of a byte span: each line starts after a 0x02 and
/// ends before the next 0x03; everything else, including an
/// unterminated trailing fragment, is dropped.  This reads the span
/// outside a frame, scanning for the next opening byte.
pub open spec fn spec_tokens(s: Seq<u8>) -> Seq<Seq<u8>>
    decreases s.len(), 0int,
{
    if s.len() == 0 {
        Seq::empty()
    } else if s[0] == 2 {
        spec_tokens_in(s.subrange(1, s.len() as int), Seq::empty())
    } else {
        spec_tokens(s.subrange(1, s.len() as int))
    }
}

/// Reading inside a frame: `cur` holds the bytes of the line so far;
/// the next closing byte yields it, and a span that ends first drops
/// the fragment.
pub open spec fn spec_tokens_in(s: Seq<u8>, cur: Seq<u8>) -> Seq<Seq<u8>>
    decreases s.len(), 1int,
{
    if s.len() == 0 {
        Seq::empty()
    } else if s[0] == 3 {
        seq![cur] + spec_tokens(s.subrange(1, s.len() as int))
    } else {
        spec_tokens_in(s.subrange(1, s.len() as int), cur.push(s[0]))
    }
}

/// The payload span of the raw output: after the first start sentinel
/// 0x01, before the last end sentinel 0x04.  Absent or inverted
/// sentinels leave no payload.
pub open spec fn spec_payload(s: Seq<u8>) -> Option<Seq<u8>> {
    let a = spec_find(s, 1);
    let b = spec_rfind(s, 4);
    if a == -1 || b == -1 || b < a {
        Option::None
    } else {
        Option::Some(s.subrange(a + 1, b))
    }
}

/// Decodes raw host output into the ordered payload lines: normalizes
/// newlines, locates the sentinel-bracketed payload region, and
/// extracts the framed lines within it.
pub fn extract_payload(raw: &Vec<u8>) -> (r: Result<Vec<Vec<u8>>, Error>)
    ensures
        match r {
            Ok(lines) => spec_payload(spec_strip_cr(raw@)) matches Option::Some(p)
                && lines@.map_values(|v: Vec<u8>| v@) == spec_tokens(p),
            Err(e) => e == Error::MalformedRecord && spec_payload(spec_strip_cr(raw@))
                matches Option::None,
        },
{
    let s = strip_cr(raw);
    let n = s.len();
    let start = match find_byte_from(&s, 0, 1) {
        Option::Some(k) => k,
        Option::None => {
            proof {
                lemma_find_props(s@, 1);
                if spec_find(s@, 1) != -1 {
                    assert(s@[spec_find(s@, 1)] == 1);
                }
            }
            return Err(Error::MalformedRecord);
        },
    };
    proof {
        lemma_find_unique(s@, 1, start as int);
    }
    let stop = match rfind_byte(&s, 4) {
        Option::Some(k) => k,
        Option::None => {
            proof {
                lemma_rfind_props(s@, 4);
                if spec_rfind(s@, 4) != -1 {
                    assert(s@[spec_rfind(s@, 4)] == 4);
                }
            }
            return Err(Error::MalformedRecord);
        },
    };
    proof {
        lemma_rfind_unique(s@, 4, stop as int);
    }
    if stop < start {
        return Err(Error::MalformedRecord);
    }
    // stop != start since the sentinels are distinct bytes.
    let ghost payload = s@.subrange(start + 1, stop as int);
    let mut lines: Vec<Vec<u8>> = Vec::new();
    let mut cur: Vec<u8> = Vec::new();
    let mut in_frame: bool = false;
    let mut pos: usize = start + 1;
    proof {
        assert(s@.subrange(pos as int, stop as int) =~= payload);
        assert(lines@.map_values(|v: Vec<u8>| v@) =~= Seq::<Seq<u8>>::empty());
        assert(Seq::<Seq<u8>>::empty() + spec_tokens(payload) =~= spec_tokens(payload));
    }
    while pos < stop
        invariant
            start < pos <= stop,
            stop < n,
            n == s@.len(),
            payload == s@.subrange(start + 1, stop as int),
            !in_frame ==> lines@.map_values(|v: Vec<u8>| v@) + spec_tokens(
                s@.subrange(pos as int, stop as int),
            ) == spec_tokens(payload),
            in_frame ==> lines@.map_values(|v: Vec<u8>| v@) + spec_tokens_in(
                s@.subrange(pos as int, stop as int),
                cur@,
            ) == spec_tokens(payload),
        decreases stop - pos,
    {
        let ghost sub = s@.subrange(pos as int, stop as int);
        let ghost lines_old = lines@;
        let ghost cur_old = cur@;
        let b = s[pos];
        proof {
            assert(sub[0] == b);
            assert(sub.subrange(1, sub.len() as int) =~= s@.subrange(pos + 1, stop as int));
        }
        if !in_frame {
            if b == 2 {
                in_frame = true;
                cur = Vec::new();
                proof {
                    assert(cur@ =~= Seq::<u8>::empty());
                    assert(spec_tokens(sub) == spec_tokens_in(
                        s@.subrange(pos + 1, stop as int),
                        Seq::empty(),
                    ));
                }
            } else {
                proof {
                    assert(spec_tokens(sub) == spec_tokens(s@.subrange(pos + 1, stop as int)));
                }
            }
        } else {
            if b == 3 {
                in_frame = false;
                let finished = cur;
                cur = Vec::new();
                lines.push(finished);
                proof {
                    assert(spec_tokens_in(sub, cur_old) == seq![cur_old] + spec_tokens(
                        s@.subrange(pos + 1, stop as int),
                    ));
                    assert(lines@.map_values(|v: Vec<u8>| v@) =~= lines_old.map_values(|v: Vec<u8>| v@)
                        + seq![cur_old]);
                    assert(lines@.map_values(|v: Vec<u8>| v@) + spec_tokens(
                        s@.subrange(pos + 1, stop as int),
                    ) =~= lines_old.map_values(|v: Vec<u8>| v@) + spec_tokens_in(sub, cur_old));
                }
            } else {
                cur.push(b);
                proof {
                    assert(cur@ =~= cur_old.push(b));
                    assert(spec_tokens_in(sub, cur_old) == spec_tokens_in(
                        s@.subrange(pos + 1, stop as int),
                        cur_old.push(b),
                    ));
                }
            }
        }
        pos += 1;
    }
    proof {
        assert(s@.subrange(pos as int, stop as int) =~= Seq::<u8>::empty());
        assert(spec_tokens(Seq::<u8>::empty()) =~= Seq::<Seq<u8>>::empty());
        assert(spec_tokens_in(Seq::<u8>::empty(), cur@) =~= Seq::<Seq<u8>>::empty());
        assert(lines@.map_values(|v: Vec<u8>| v@) =~= lines@.map_values(|v: Vec<u8>| v@)
            + Seq::<Seq<u8>>::empty());
        assert(lines@.map_values(|v: Vec<u8>| v@) == spec_tokens(payload));
        assert(spec_payload(s@) matches Option::Some(p) && p == payload);
    }
    Ok(lines)
}

//
// The positional cursor.
//

/// The ordered payload lines together with a read position.  The
/// assembly stage consumes fields strictly in schema order; running
/// out of lines mid-record is a `MalformedRecord`.
pub struct Lines {
    lines: Vec<Vec<u8>>,
    pos: usize,
}

impl Lines {
    /// All lines, as byte sequences.
    pub closed spec fn all(&self) -> Seq<Seq<u8>> {
        self.lines@.map_values(|v: Vec<u8>| v@)
    }

    /// The read position.
    pub closed spec fn cursor(&self) -> int {
        self.pos as int
    }

    pub open spec fn wf(&self) -> bool {
        0 <= self.cursor() <= self.all().len()
    }

    /// How many lines are left to read.
    pub open spec fn remaining(&self) -> int {
        self.all().len() - self.cursor()
    }

    /// Wraps decoded payload lines for positional reading.
    pub fn new(lines: Vec<Vec<u8>>) -> (p: Lines)
        ensures
            p.wf(),
            p.cursor() == 0,
            p.all() == lines@.map_values(|v: Vec<u8>| v@),
    {
        Lines { lines, pos: 0 }
    }

    /// True when every line has been consumed.
    pub fn is_exhausted(&self) -> (r: bool)
        requires
            self.wf(),
        ensures
            r == (self.remaining() == 0),
    {
        self.pos == self.lines.len()
    }
}

/// Reads the next line, or fails with `MalformedRecord` at the end of
/// the data.
pub fn read_line(p: &mut Lines) -> (r: Result<Vec<u8>, Error>)
    requires
        old(p).wf(),
    ensures
        final(p).wf(),
        final(p).all() == old(p).all(),
        old(p).cursor() <= final(p).cursor(),
        match r {
            Ok(v) => old(p).remaining() >= 1 && v@ == old(p).all()[old(p).cursor()]
                && final(p).cursor() == old(p).cursor() + 1,
            Err(e) => e == Error::MalformedRecord && old(p).remaining() == 0 && *final(p) == *old(p),
        },
{
    if p.pos == p.lines.len() {
        return Err(Error::MalformedRecord);
    }
    let line = copy_range(&p.lines[p.pos], 0, p.lines[p.pos].len());
    p.pos = p.pos + 1;
    proof {
        assert(line@ =~= old(p).all()[old(p).cursor()]);
    }
    Ok(line)
}

/// Reads the next line and interns it as a symbol.
pub fn read_str(p: &mut Lines, table: &mut SymbolTable) -> (r: Result<Str, Error>)
    requires
        old(p).wf(),
        old(table).wf(),
        old(table)@.len() + old(p).remaining() <= u32::MAX,
    ensures
        final(p).wf(),
        final(p).all() == old(p).all(),
        old(p).cursor() <= final(p).cursor(),
        final(table).wf(),
        final(table)@.len() + final(p).remaining() <= old(table)@.len() + old(p).remaining(),
        old(table)@.len() <= final(table)@.len(),
        forall|i: int| 0 <= i < old(table)@.len() ==> final(table)@[i] == old(table)@[i],
        match r {
            Ok(sym) => old(p).remaining() >= 1 && final(p).cursor() == old(p).cursor() + 1 && (
            final(table)@, sym.idx()) == spec_intern(old(table)@, old(p).all()[old(p).cursor()])
                && final(table).contains_sym(sym) && final(table)@[sym.idx()] == old(p).all()[old(
                p,
            ).cursor()],
            Err(e) => e == Error::MalformedRecord && old(p).remaining() == 0 && *final(p) == *old(p)
                && *final(table) == *old(table),
        },
{
    let line = match read_line(p) {
        Ok(v) => v,
        Err(e) => {
            return Err(e);
        },
    };
    let sym = table.intern(line);
    Ok(sym)
}

/// Shape of an accepted unsigned count: one or more digits, nothing
/// else.
pub open spec fn usize_shape_ok(s: Seq<u8>) -> bool {
    s.len() >= 1 && all_digit_bytes(s)
}

/// Reads the next line as an unsigned count that fits the machine.
pub fn read_usize(p: &mut Lines) -> (r: Result<usize, Error>)
    requires
        old(p).wf(),
    ensures
        final(p).wf(),
        final(p).all() == old(p).all(),
        old(p).cursor() <= final(p).cursor(),
        final(p).remaining() >= old(p).remaining() - 1,
        match r {
            Ok(v) => old(p).remaining() >= 1 && final(p).cursor() == old(p).cursor() + 1 && ({
                let line = old(p).all()[old(p).cursor()];
                usize_shape_ok(line) && v == digits_value(digits_of_bytes(line))
            }),
            Err(e) => {
                &&& (e == Error::MalformedRecord <==> old(p).remaining() == 0)
                &&& (old(p).remaining() == 0 ==> *final(p) == *old(p))
                &&& (old(p).remaining() >= 1 ==> final(p).cursor() == old(p).cursor() + 1 && e
                    == Error::NumericParseError && ({
                    let line = old(p).all()[old(p).cursor()];
                    !usize_shape_ok(line) || digits_value(digits_of_bytes(line)) > usize::MAX
                }))
            },
        },
{
    let line = match read_line(p) {
        Ok(v) => v,
        Err(e) => {
            return Err(e);
        },
    };
    if line.len() == 0 {
        return Err(Error::NumericParseError);
    }
    let digits = match parse_digits_range(&line, 0, line.len()) {
        Option::Some(d) => d,
        Option::None => {
            proof {
                assert(line@.subrange(0, line@.len() as int) =~= line@);
            }
            return Err(Error::NumericParseError);
        },
    };
    proof {
        assert(line@.subrange(0, line@.len() as int) =~= line@);
    }
    let mut acc: u64 = 0;
    let mut i: usize = 0;
    let dn = digits.len();
    proof {
        assert(digits@.subrange(0, 0) =~= Seq::<u8>::empty());
        assert(digits_value(Seq::<u8>::empty()) == 0);
    }
    while i < dn
        invariant
            i <= dn,
            dn == digits@.len(),
            digits_wf(digits@),
            acc == digits_value(digits@.subrange(0, i as int)),
            acc <= usize::MAX,
            p.wf(),
            p.all() == old(p).all(),
            p.cursor() == old(p).cursor() + 1,
            old(p).remaining() >= 1,
            usize_shape_ok(old(p).all()[old(p).cursor()]),
            digits_value(digits@) == digits_value(
                digits_of_bytes(old(p).all()[old(p).cursor()]),
            ),
        decreases dn - i,
    {
        let d_i = digits[i];
        assert(d_i < 10);
        let wide: u128 = (acc as u128) * 10 + (d_i as u128);
        proof {
            let prefix = digits@.subrange(0, i + 1);
            assert(prefix.drop_last() =~= digits@.subrange(0, i as int));
            assert(prefix.last() == digits@[i as int]);
            assert(wide == digits_value(prefix));
        }
        if wide > (usize::MAX as u128) {
            proof {
                crate::digits::lemma_digits_prefix_le(digits@, i + 1);
            }
            return Err(Error::NumericParseError);
        }
        acc = wide as u64;
        i += 1;
    }
    proof {
        assert(digits@.subrange(0, dn as int) =~= digits@);
    }
    Ok(acc as usize)
}

/// Reads the next line as an arbitrary-precision integer.
pub fn read_int(p: &mut Lines) -> (r: Result<crate::numbers::Int, Error>)
    requires
        old(p).wf(),
    ensures
        final(p).wf(),
        final(p).all() == old(p).all(),
        old(p).cursor() <= final(p).cursor(),
        final(p).remaining() >= old(p).remaining() - 1,
        match r {
            Ok(v) => old(p).remaining() >= 1 && final(p).cursor() == old(p).cursor() + 1 && ({
                let line = old(p).all()[old(p).cursor()];
                crate::numbers::int_shape_ok(line) && v.wf() && v.value()
                    == crate::numbers::spec_int_of(line)
            }),
            Err(e) => {
                &&& (e == Error::MalformedRecord <==> old(p).remaining() == 0)
                &&& (old(p).remaining() == 0 ==> *final(p) == *old(p))
                &&& (old(p).remaining() >= 1 ==> final(p).cursor() == old(p).cursor() + 1 && e
                    == Error::NumericParseError && !crate::numbers::int_shape_ok(
                    old(p).all()[old(p).cursor()],
                ))
            },
        },
{
    let line = match read_line(p) {
        Ok(v) => v,
        Err(e) => {
            return Err(e);
        },
    };
    crate::numbers::Int::from_decimal(&line)
}

/// Reads the next line as a decimal literal turned into an exact
/// ratio.
pub fn read_ratio(p: &mut Lines) -> (r: Result<crate::numbers::Ratio, Error>)
    requires
        old(p).wf(),
    ensures
        final(p).wf(),
        final(p).all() == old(p).all(),
        old(p).cursor() <= final(p).cursor(),
        final(p).remaining() >= old(p).remaining() - 1,
        match r {
            Ok(v) => old(p).remaining() >= 1 && final(p).cursor() == old(p).cursor() + 1
                && crate::approx::ratio_from_decimal_post(
                old(p).all()[old(p).cursor()],
                Result::Ok(v),
            ),
            Err(e) => {
                &&& (e == Error::MalformedRecord <==> old(p).remaining() == 0)
                &&& (old(p).remaining() == 0 ==> *final(p) == *old(p))
                &&& (old(p).remaining() >= 1 ==> final(p).cursor() == old(p).cursor() + 1 && e
                    == Error::NumericParseError && !crate::approx::decimal_shape_ok(
                    old(p).all()[old(p).cursor()],
                ))
            },
        },
{
    let line = match read_line(p) {
        Ok(v) => v,
        Err(e) => {
            return Err(e);
        },
    };
    crate::approx::ratio_from_decimal(&line)
}

/// The fixed prefix of the host's unresolved-key fallback text:
/// `Unknown key: "`.
pub open spec fn unknown_key_prefix() -> Seq<u8> {
    seq![85u8, 110u8, 107u8, 110u8, 111u8, 119u8, 110u8, 32u8, 107u8, 101u8, 121u8, 58u8, 32u8, 34u8]
}

/// Splits a localised line into its key and value at the single unit
/// separator.  A missing separator or a second one is malformed.
pub open spec fn spec_split_pair(line: Seq<u8>) -> Option<(Seq<u8>, Seq<u8>)> {
    let u = spec_find(line, 31);
    if u == -1 {
        Option::None
    } else {
        let key = line.subrange(0, u);
        let value = line.subrange(u + 1, line.len() as int);
        if spec_find(value, 31) == -1 {
            Option::Some((key, value))
        } else {
            Option::None
        }
    }
}

/// True when the value is the host's fixed-shape echo of an
/// unresolved key: `length == 15 + key length`, the fixed prefix, and
/// a closing quote.
pub open spec fn is_unresolved(key: Seq<u8>, value: Seq<u8>) -> bool {
    &&& value.len() == 15 + key.len()
    &&& value.subrange(0, 14) == unknown_key_prefix()
    &&& value.last() == 34
}

/// The text a localised line resolves to: the value, or for an
/// unresolved key the key itself (`None` here; the caller decides
/// whether that falls back to the key or to absence).
pub open spec fn spec_localised(line: Seq<u8>) -> Option<Option<Seq<u8>>> {
    match spec_split_pair(line) {
        Option::Some((key, value)) => if is_unresolved(key, value) {
            Option::Some(Option::None)
        } else {
            Option::Some(Option::Some(value))
        },
        Option::None => Option::None,
    }
}

/// Splits the next line at the unit separator and classifies the
/// value, returning the key and the resolved text (or `None` for an
/// unresolved key).
fn read_localised_parts(p: &mut Lines) -> (r: Result<(Vec<u8>, Option<Vec<u8>>), Error>)
    requires
        old(p).wf(),
    ensures
        final(p).wf(),
        final(p).all() == old(p).all(),
        old(p).cursor() <= final(p).cursor(),
        final(p).remaining() >= old(p).remaining() - 1,
        match r {
            Ok(kv) => old(p).remaining() >= 1 && final(p).cursor() == old(p).cursor() + 1 && ({
                let line = old(p).all()[old(p).cursor()];
                &&& spec_split_pair(line) matches Option::Some(pair) && kv.0@ == pair.0 && (match kv.1 {
                    Option::Some(v) => spec_localised(line) == Option::Some(
                        Option::Some(v@),
                    ),
                    Option::None => spec_localised(line) == Option::Some(
                        Option::None::<Seq<u8>>,
                    ),
                })
            }),
            Err(e) => e == Error::MalformedRecord && (old(p).remaining() == 0 || spec_localised(
                old(p).all()[old(p).cursor()],
            ) matches Option::None),
        },
{
    let line = match read_line(p) {
        Ok(v) => v,
        Err(e) => {
            return Err(e);
        },
    };
    let u = match find_byte_from(&line, 0, 31) {
        Option::Some(k) => k,
        Option::None => {
            proof {
                lemma_find_props(line@, 31);
                if spec_find(line@, 31) != -1 {
                    assert(line@[spec_find(line@, 31)] == 31);
                }
            }
            return Err(Error::MalformedRecord);
        },
    };
    proof {
        lemma_find_unique(line@, 31, u as int);
    }
    let ghost value_spec = line@.subrange(u + 1, line@.len() as int);
    match find_byte_from(&line, u + 1, 31) {
        Option::Some(w) => {
            proof {
                assert(value_spec[w - u - 1] == line@[w as int]);
                lemma_find_props(value_spec, 31);
                if spec_find(value_spec, 31) == -1 {
                    assert(value_spec[w - u - 1] != 31);
                }
            }
            return Err(Error::MalformedRecord);
        },
        Option::None => {
            proof {
                lemma_find_props(value_spec, 31);
                if spec_find(value_spec, 31) != -1 {
                    let w = spec_find(value_spec, 31);
                    assert(value_spec[w] == line@[u + 1 + w]);
                    assert(false);
                }
            }
        },
    }
    let key = copy_range(&line, 0, u);
    let value = copy_range(&line, u + 1, line.len());
    // Detect the fixed-shape fallback: length, prefix, closing quote.
    let is_fallback: bool = if value.len() >= 15 && value.len() - 15 == key.len() && value[value.len()
        - 1] == 34 {
        let mut matches_prefix = true;
        let mut i: usize = 0;
        while i < 14
            invariant
                i <= 14,
                value@.len() >= 15,
                matches_prefix == (forall|j: int|
                    0 <= j < i ==> value@[j] == unknown_key_prefix()[j]),
            decreases 14 - i,
        {
            let expected: u8 = if i == 0 {
                85
            } else if i == 1 {
                110
            } else if i == 2 {
                107
            } else if i == 3 {
                110
            } else if i == 4 {
                111
            } else if i == 5 {
                119
            } else if i == 6 {
                110
            } else if i == 7 {
                32
            } else if i == 8 {
                107
            } else if i == 9 {
                101
            } else if i == 10 {
                121
            } else if i == 11 {
                58
            } else if i == 12 {
                32
            } else {
                34
            };
            proof {
                assert(unknown_key_prefix()[i as int] == expected);
            }
            if value[i] != expected {
                matches_prefix = false;
            }
            i += 1;
        }
        proof {
            if matches_prefix {
                assert(value@.subrange(0, 14) =~= unknown_key_prefix());
            } else {
                if value@.subrange(0, 14) == unknown_key_prefix() {
                    assert(forall|j: int|
                        0 <= j < 14 ==> value@.subrange(0, 14)[j] == unknown_key_prefix()[j]);
                    assert(false);
                }
            }
        }
        matches_prefix
    } else {
        false
    };
    proof {
        let line0 = old(p).all()[old(p).cursor()];
        assert(line@ == line0);
        assert(key@ == line0.subrange(0, u as int));
        assert(value@ == line0.subrange(u + 1, line0.len() as int));
        assert(is_fallback == is_unresolved(key@, value@));
    }
    if is_fallback {
        Ok((key, Option::None))
    } else {
        Ok((key, Option::Some(value)))
    }
}

/// Reads a required localised string: an unresolved key falls back to
/// the key itself as display text.
pub fn read_localised_str(p: &mut Lines, table: &mut SymbolTable) -> (r: Result<Str, Error>)
    requires
        old(p).wf(),
        old(table).wf(),
        old(table)@.len() + old(p).remaining() <= u32::MAX,
    ensures
        final(p).wf(),
        final(p).all() == old(p).all(),
        old(p).cursor() <= final(p).cursor(),
        final(table).wf(),
        final(table)@.len() + final(p).remaining() <= old(table)@.len() + old(p).remaining(),
        old(table)@.len() <= final(table)@.len(),
        forall|i: int| 0 <= i < old(table)@.len() ==> final(table)@[i] == old(table)@[i],
        match r {
            Ok(sym) => old(p).remaining() >= 1 && final(p).cursor() == old(p).cursor() + 1 && ({
                let line = old(p).all()[old(p).cursor()];
                &&& spec_split_pair(line) matches Option::Some(pair)
                &&& (final(table)@, sym.idx()) == spec_intern(
                    old(table)@,
                    match spec_localised(line) {
                        Option::Some(Option::Some(v)) => v,
                        _ => pair.0,
                    },
                )
                &&& final(table).contains_sym(sym)
            }),
            Err(e) => e == Error::MalformedRecord && (old(p).remaining() == 0 || spec_localised(
                old(p).all()[old(p).cursor()],
            ) matches Option::None) && *final(table) == *old(table),
        },
{
    let parts = match read_localised_parts(p) {
        Ok(kv) => kv,
        Err(e) => {
            return Err(e);
        },
    };
    let (key, value) = parts;
    let sym = match value {
        Option::Some(v) => table.intern(v),
        Option::None => table.intern(key),
    };
    proof {
        assert(table@.len() <= old(table)@.len() + 1);
    }
    Ok(sym)
}

/// Reads an optional localised string: an unresolved key means the
/// field is absent.
pub fn read_optional_localised_str(p: &mut Lines, table: &mut SymbolTable) -> (r: Result<
    Option<Str>,
    Error,
>)
    requires
        old(p).wf(),
        old(table).wf(),
        old(table)@.len() + old(p).remaining() <= u32::MAX,
    ensures
        final(p).wf(),
        final(p).all() == old(p).all(),
        old(p).cursor() <= final(p).cursor(),
        final(table).wf(),
        final(table)@.len() + final(p).remaining() <= old(table)@.len() + old(p).remaining(),
        old(table)@.len() <= final(table)@.len(),
        forall|i: int| 0 <= i < old(table)@.len() ==> final(table)@[i] == old(table)@[i],
        match r {
            Ok(opt) => old(p).remaining() >= 1 && final(p).cursor() == old(p).cursor() + 1 && ({
                let line = old(p).all()[old(p).cursor()];
                match opt {
                    Option::Some(sym) => spec_localised(line) matches Option::Some(
                        Option::Some(v),
                    ) && (final(table)@, sym.idx()) == spec_intern(old(table)@, v)
                        && final(table).contains_sym(sym),
                    Option::None => spec_localised(line) == Option::Some(Option::None::<Seq<u8>>)
                        && *final(table) == *old(table),
                }
            }),
            Err(e) => e == Error::MalformedRecord && (old(p).remaining() == 0 || spec_localised(
                old(p).all()[old(p).cursor()],
            ) matches Option::None) && *final(table) == *old(table),
        },
{
    let parts = match read_localised_parts(p) {
        Ok(kv) => kv,
        Err(e) => {
            return Err(e);
        },
    };
    let (_key, value) = parts;
    match value {
        Option::Some(v) => {
            let sym = table.intern(v);
            proof {
                assert(table@.len() <= old(table)@.len() + 1);
            }
            Ok(Option::Some(sym))
        },
        Option::None => Ok(Option::None),
    }
}

/// Reads an entity's display metadata: a required localised name and
/// an optional localised description; the icon is attached only later
/// by the atlas stage.
pub fn read_metadata(p: &mut Lines, table: &mut SymbolTable) -> (r: Result<
    crate::model::Metadata,
    Error,
>)
    requires
        old(p).wf(),
        old(table).wf(),
        old(table)@.len() + old(p).remaining() <= u32::MAX,
    ensures
        final(p).wf(),
        final(p).all() == old(p).all(),
        old(p).cursor() <= final(p).cursor(),
        final(table).wf(),
        final(table)@.len() + final(p).remaining() <= old(table)@.len() + old(p).remaining(),
        old(table)@.len() <= final(table)@.len(),
        forall|i: int| 0 <= i < old(table)@.len() ==> final(table)@[i] == old(table)@[i],
        match r {
            Ok(m) => old(p).remaining() >= 2 && final(p).cursor() == old(p).cursor() + 2 && (
            m.icon matches Option::None) && final(table).contains_sym(m.localised_name) && (
            match m.localised_description {
                Option::Some(sym) => final(table).contains_sym(sym),
                Option::None => true,
            }) && ({
                // The name comes from the first line (or its key when
                // unresolved); the description from the second, absent
                // when unresolved.
                let line0 = old(p).all()[old(p).cursor()];
                let line1 = old(p).all()[old(p).cursor() + 1];
                &&& spec_split_pair(line0) matches Option::Some(pair0) && ({
                    let chosen0 = match spec_localised(line0) {
                        Option::Some(Option::Some(v)) => v,
                        _ => pair0.0,
                    };
                    let step1 = spec_intern(old(table)@, chosen0);
                    &&& m.localised_name.idx() == step1.1
                    &&& match m.localised_description {
                        Option::Some(sym) => spec_localised(line1) matches Option::Some(
                            Option::Some(v1),
                        ) && (final(table)@, sym.idx()) == spec_intern(step1.0, v1),
                        Option::None => spec_localised(line1) == Option::Some(
                            Option::None::<Seq<u8>>,
                        ) && final(table)@ == step1.0,
                    }
                })
            }),
            Err(e) => e == Error::MalformedRecord && (old(p).remaining() < 2 || spec_localised(
                old(p).all()[old(p).cursor()],
            ) matches Option::None || spec_localised(
                old(p).all()[old(p).cursor() + 1],
            ) matches Option::None),
        },
{
    let name = match read_localised_str(p, table) {
        Ok(v) => v,
        Err(e) => {
            return Err(e);
        },
    };
    let description = match read_optional_localised_str(p, table) {
        Ok(v) => v,
        Err(e) => {
            return Err(e);
        },
    };
    Ok(crate::model::Metadata { localised_name: name, localised_description: description, icon: Option::None })
}

/// The per-machine and per-beacon effect gates, read as a transient
/// four-bit flag set and consumed during cross-referencing.
#[derive(Clone, Copy, PartialEq, Eq, Structural, Debug)]
pub struct AllowedEffects {
    pub energy: bool,
    pub speed: bool,
    pub productivity: bool,
    pub pollution: bool,
}

/// Shape of an accepted effects line: exactly four `0`/`1` bytes.
pub open spec fn effects_shape_ok(s: Seq<u8>) -> bool {
    s.len() == 4 && forall|i: int| 0 <= i < 4 ==> (s[i] == 48 || s[i] == 49)
}

/// The effect gates a well-shaped effects line denotes, in the wire
/// order energy, speed, productivity, pollution.
pub open spec fn spec_effects(s: Seq<u8>) -> AllowedEffects {
    AllowedEffects {
        energy: s[0] == 49,
        speed: s[1] == 49,
        productivity: s[2] == 49,
        pollution: s[3] == 49,
    }
}

/// Reads the four allowed-effect bits (energy, speed, productivity,
/// pollution).
pub fn read_allowed_effects(p: &mut Lines) -> (r: Result<AllowedEffects, Error>)
    requires
        old(p).wf(),
    ensures
        final(p).wf(),
        final(p).all() == old(p).all(),
        old(p).cursor() <= final(p).cursor(),
        final(p).remaining() >= old(p).remaining() - 1,
        match r {
            Ok(e) => old(p).remaining() >= 1 && final(p).cursor() == old(p).cursor() + 1 && ({
                let line = old(p).all()[old(p).cursor()];
                effects_shape_ok(line) && e == spec_effects(line)
            }),
            Err(e) => e == Error::MalformedRecord && (old(p).remaining() == 0 || !effects_shape_ok(
                old(p).all()[old(p).cursor()],
            )),
        },
{
    let line = match read_line(p) {
        Ok(v) => v,
        Err(e) => {
            return Err(e);
        },
    };
    if line.len() != 4 {
        return Err(Error::MalformedRecord);
    }
    let mut bits: [bool; 4] = [false, false, false, false];
    let b0 = line[0];
    let b1 = line[1];
    let b2 = line[2];
    let b3 = line[3];
    if (b0 != 48 && b0 != 49) || (b1 != 48 && b1 != 49) || (b2 != 48 && b2 != 49) || (b3 != 48
        && b3 != 49) {
        return Err(Error::MalformedRecord);
    }
    Ok(
        AllowedEffects {
            energy: b0 == 49,
            speed: b1 == 49,
            productivity: b2 == 49,
            pollution: b3 == 49,
        },
    )
}

} // verus!
