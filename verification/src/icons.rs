//! Icon recovery and atlas building.
//!
//! For every entity the host renders the same icon twice, against a
//! dark and a light solid background.  From the two composites the
//! true color and transparency are recovered exactly, per pixel, in
//! integer arithmetic.  Recovered images are deduplicated by content
//! and packed into a single fixed-cell-size grid, and every entity's
//! metadata is rewritten with its atlas slot.

use vstd::prelude::*;
use vstd::multiset::Multiset;
use vstd::arithmetic::div_mod::{
    lemma_div_pos_is_pos, lemma_fundamental_div_mod, lemma_mod_bound,
};
use crate::model::{
    Beacon, Fluid, GameData, Icon, Item, Machine, Metadata, Recipe, TileMetadata,
};
use crate::symbols::{bytes_equal, Str, SymbolTable};
use crate::Error;

verus! {

/// A decoded opaque render: row-major, three bytes per pixel.
pub struct RgbImage {
    pub width: u32,
    pub height: u32,
    pub pixels: Vec<u8>,
}

impl RgbImage {
    pub open spec fn wf(&self) -> bool {
        self.pixels@.len() == self.width as int * self.height as int * 3
    }
}

/// A recovered image: row-major, four bytes per pixel.
pub struct RgbaImage {
    pub width: u32,
    pub height: u32,
    pub pixels: Vec<u8>,
}

impl RgbaImage {
    pub open spec fn wf(&self) -> bool {
        self.pixels@.len() == self.width as int * self.height as int * 4
    }
}

/// The summed per-channel alpha evidence of one pixel:
/// `sum_c (dark_c - light_c + 255)`, in `[0, 1530]`.
pub open spec fn alpha_sum(d0: u8, d1: u8, d2: u8, l0: u8, l1: u8, l2: u8) -> int {
    (d0 - l0 + 255) + (d1 - l1 + 255) + (d2 - l2 + 255)
}

/// The recovered alpha byte: `round(255 * s/765)`, clamped to 255.
pub open spec fn spec_alpha_byte(s: int) -> int {
    if s >= 765 {
        255
    } else {
        (2 * s + 3) / 6
    }
}

/// The recovered color byte for one channel: the average of the two
/// compositing solutions, `(dark + light - 1) / (2a) + 1/2` in
/// normalized terms, scaled to bytes, clamped to `[0, 255]` and
/// rounded half away from zero.  A fully transparent pixel (`s == 0`)
/// saturates to white.
pub open spec fn spec_color_byte(d: u8, l: u8, s: int) -> int {
    if s == 0 {
        255
    } else {
        let num = 765 * (d + l - 255) + 255 * s;
        if num <= 0 {
            0
        } else if num >= 510 * s {
            255
        } else {
            (num + s) / (2 * s)
        }
    }
}

/// The per-pixel recovery contract: pixel `i` of the output holds the
/// recovered color and alpha of pixel `i` of the two inputs.
pub open spec fn recovered_pixel_ok(dp: Seq<u8>, lp: Seq<u8>, op: Seq<u8>, i: int) -> bool {
    let s = alpha_sum(dp[3 * i], dp[3 * i + 1], dp[3 * i + 2], lp[3 * i], lp[3 * i + 1], lp[3 * i
        + 2]);
    &&& op[4 * i] == spec_color_byte(dp[3 * i], lp[3 * i], s)
    &&& op[4 * i + 1] == spec_color_byte(dp[3 * i + 1], lp[3 * i + 1], s)
    &&& op[4 * i + 2] == spec_color_byte(dp[3 * i + 2], lp[3 * i + 2], s)
    &&& op[4 * i + 3] == spec_alpha_byte(s)
}

/// Recovers one pixel from its dark and light composites.
fn combine_pixel(d0: u8, d1: u8, d2: u8, l0: u8, l1: u8, l2: u8) -> (px: (u8, u8, u8, u8))
    ensures
        ({
            let s = alpha_sum(d0, d1, d2, l0, l1, l2);
            &&& px.0 == spec_color_byte(d0, l0, s)
            &&& px.1 == spec_color_byte(d1, l1, s)
            &&& px.2 == spec_color_byte(d2, l2, s)
            &&& px.3 == spec_alpha_byte(s)
        }),
{
    let s: i64 = (d0 as i64 - l0 as i64 + 255) + (d1 as i64 - l1 as i64 + 255) + (d2 as i64
        - l2 as i64 + 255);
    let a: u8 = if s >= 765 {
        255
    } else {
        ((2 * s + 3) / 6) as u8
    };
    let r = combine_channel(d0, l0, s);
    let g = combine_channel(d1, l1, s);
    let b = combine_channel(d2, l2, s);
    (r, g, b, a)
}

/// Recovers one color channel.
fn combine_channel(d: u8, l: u8, s: i64) -> (c: u8)
    requires
        0 <= s <= 1530,
    ensures
        c == spec_color_byte(d, l, s as int),
{
    if s == 0 {
        return 255;
    }
    let num: i64 = 765 * (d as i64 + l as i64 - 255) + 255 * s;
    if num <= 0 {
        0
    } else if num >= 510 * s {
        255
    } else {
        proof {
            lemma_div_pos_is_pos(num + s, 2 * (s as int));
            vstd::arithmetic::div_mod::lemma_div_is_ordered(
                num + s,
                510 * (s as int) + s,
                2 * (s as int),
            );
            assert((510 * (s as int) + s) / (2 * (s as int)) <= 255) by (nonlinear_arith)
                requires
                    s >= 1,
            ;
        }
        ((num + s) / (2 * s)) as u8
    }
}

/// The recovered byte at flat RGBA position `pos`, as a function of
/// the two composite buffers alone.
pub open spec fn spec_recovered_byte(dp: Seq<u8>, lp: Seq<u8>, pos: int) -> int {
    let i = pos / 4;
    let b = pos % 4;
    let s = alpha_sum(dp[3 * i], dp[3 * i + 1], dp[3 * i + 2], lp[3 * i], lp[3 * i + 1], lp[3 * i
        + 2]);
    if b == 3 {
        spec_alpha_byte(s)
    } else {
        spec_color_byte(dp[3 * i + b], lp[3 * i + b], s)
    }
}

/// The whole recovered buffer of an `n`-pixel render pair.
pub open spec fn spec_recovered(dp: Seq<u8>, lp: Seq<u8>, n: int) -> Seq<u8> {
    Seq::new((4 * n) as nat, |pos: int| spec_recovered_byte(dp, lp, pos) as u8)
}

/// The recovered buffer of one single-tile render pair.
pub open spec fn rec_of(d: RgbImage, l: RgbImage) -> Seq<u8> {
    spec_recovered(d.pixels@, l.pixels@, 1024)
}

/// Per-pixel recovery determines the whole buffer: a buffer whose
/// every pixel satisfies the recovery contract is exactly the
/// recovered buffer.
pub proof fn lemma_recovered_unique(dp: Seq<u8>, lp: Seq<u8>, op: Seq<u8>, n: int)
    requires
        n >= 0,
        op.len() == 4 * n,
        forall|i: int| 0 <= i < n ==> #[trigger] recovered_pixel_ok(dp, lp, op, i),
    ensures
        op == spec_recovered(dp, lp, n),
{
    let sr = spec_recovered(dp, lp, n);
    assert forall|pos: int| 0 <= pos < op.len() implies op[pos] == sr[pos] by {
        let i = pos / 4;
        let b = pos % 4;
        lemma_fundamental_div_mod(pos, 4);
        lemma_mod_bound(pos, 4);
        lemma_div_pos_is_pos(pos, 4);
        assert(i < n) by (nonlinear_arith)
            requires
                pos == 4 * i + b,
                0 <= b < 4,
                pos < 4 * n,
        ;
        assert(recovered_pixel_ok(dp, lp, op, i));
        assert(pos == 4 * i + b);
        if b == 0 {
            assert(op[4 * i] == sr[pos]);
        } else if b == 1 {
            assert(op[4 * i + 1] == sr[pos]);
        } else if b == 2 {
            assert(op[4 * i + 2] == sr[pos]);
        } else {
            assert(op[4 * i + 3] == sr[pos]);
        }
    }
    assert(op =~= sr);
}

/// Recovers a full image from its dark and light composites,
/// pixel by pixel.
pub fn combine_image(dark: &RgbImage, light: &RgbImage) -> (out: RgbaImage)
    requires
        dark.wf(),
        light.wf(),
        dark.width == light.width,
        dark.height == light.height,
        dark.width as int * dark.height as int * 4 <= usize::MAX,
    ensures
        out.wf(),
        out.width == dark.width,
        out.height == dark.height,
        forall|i: int|
            0 <= i < dark.width as int * dark.height as int ==> #[trigger] recovered_pixel_ok(
                dark.pixels@,
                light.pixels@,
                out.pixels@,
                i,
            ),
{
    let count: usize = (dark.width as usize) * (dark.height as usize);
    let mut pixels: Vec<u8> = Vec::new();
    let mut i: usize = 0;
    while i < count
        invariant
            i <= count,
            count == dark.width as int * dark.height as int,
            dark.wf(),
            light.wf(),
            dark.width == light.width,
            dark.height == light.height,
            count * 4 <= usize::MAX,
            pixels@.len() == 4 * i,
            forall|k: int|
                0 <= k < i ==> #[trigger] recovered_pixel_ok(
                    dark.pixels@,
                    light.pixels@,
                    pixels@,
                    k,
                ),
        decreases count - i,
    {
        proof {
            assert(3 * (i as int) + 2 < dark.pixels@.len()) by (nonlinear_arith)
                requires
                    i < count,
                    dark.pixels@.len() == count * 3,
            ;
            assert(3 * (i as int) + 2 < light.pixels@.len()) by (nonlinear_arith)
                requires
                    i < count,
                    light.pixels@.len() == count * 3,
            ;
            assert(3 * (i as int) <= usize::MAX && 4 * (i as int) + 4 <= usize::MAX)
                by (nonlinear_arith)
                requires
                    i < count,
                    count * 4 <= usize::MAX,
            ;
        }
        let d0 = dark.pixels[3 * i];
        let d1 = dark.pixels[3 * i + 1];
        let d2 = dark.pixels[3 * i + 2];
        let l0 = light.pixels[3 * i];
        let l1 = light.pixels[3 * i + 1];
        let l2 = light.pixels[3 * i + 2];
        let px = combine_pixel(d0, d1, d2, l0, l1, l2);
        let ghost pixels_old = pixels@;
        pixels.push(px.0);
        pixels.push(px.1);
        pixels.push(px.2);
        pixels.push(px.3);
        proof {
            assert(pixels@[4 * (i as int)] == px.0);
            assert(pixels@[4 * (i as int) + 1] == px.1);
            assert(pixels@[4 * (i as int) + 2] == px.2);
            assert(pixels@[4 * (i as int) + 3] == px.3);
            assert(recovered_pixel_ok(dark.pixels@, light.pixels@, pixels@, i as int));
            assert forall|k: int|
                0 <= k < i + 1 implies #[trigger] recovered_pixel_ok(
                dark.pixels@,
                light.pixels@,
                pixels@,
                k,
            ) by {
                if k < i {
                    assert(recovered_pixel_ok(dark.pixels@, light.pixels@, pixels_old, k));
                    assert(pixels@[4 * k] == pixels_old[4 * k]);
                    assert(pixels@[4 * k + 1] == pixels_old[4 * k + 1]);
                    assert(pixels@[4 * k + 2] == pixels_old[4 * k + 2]);
                    assert(pixels@[4 * k + 3] == pixels_old[4 * k + 3]);
                }
            }
        }
        i += 1;
    }
    proof {
        assert(pixels@.len() == dark.width as int * dark.height as int * 4) by (nonlinear_arith)
            requires
                pixels@.len() == 4 * (count as int),
                count == dark.width as int * dark.height as int,
        ;
    }
    RgbaImage { width: dark.width, height: dark.height, pixels }
}

//
// Lexicographic order on byte strings.
//

/// Standard lexicographic order on byte strings.
pub open spec fn lex_le(a: Seq<u8>, b: Seq<u8>) -> bool
    decreases a.len(),
{
    if a.len() == 0 {
        true
    } else if b.len() == 0 {
        false
    } else if a[0] < b[0] {
        true
    } else if a[0] > b[0] {
        false
    } else {
        lex_le(a.subrange(1, a.len() as int), b.subrange(1, b.len() as int))
    }
}

/// Lexicographic order is total.
pub proof fn lemma_lex_total(a: Seq<u8>, b: Seq<u8>)
    ensures
        lex_le(a, b) || lex_le(b, a),
    decreases a.len(),
{
    if a.len() == 0 || b.len() == 0 {
    } else if a[0] == b[0] {
        lemma_lex_total(a.subrange(1, a.len() as int), b.subrange(1, b.len() as int));
    }
}

/// Lexicographic order is transitive.
pub proof fn lemma_lex_trans(a: Seq<u8>, b: Seq<u8>, c: Seq<u8>)
    requires
        lex_le(a, b),
        lex_le(b, c),
    ensures
        lex_le(a, c),
    decreases a.len(),
{
    if a.len() == 0 {
    } else if b.len() == 0 {
    } else if c.len() == 0 {
    } else {
        if a[0] == b[0] && b[0] == c[0] {
            lemma_lex_trans(
                a.subrange(1, a.len() as int),
                b.subrange(1, b.len() as int),
                c.subrange(1, c.len() as int),
            );
        }
    }
}

/// Compares two byte strings lexicographically.
pub fn lex_le_bytes(a: &Vec<u8>, b: &Vec<u8>) -> (r: bool)
    ensures
        r == lex_le(a@, b@),
{
    let an = a.len();
    let bn = b.len();
    let min: usize = if an < bn {
        an
    } else {
        bn
    };
    let mut i: usize = 0;
    proof {
        assert(a@.subrange(0, an as int) =~= a@);
        assert(b@.subrange(0, bn as int) =~= b@);
    }
    while i < min
        invariant
            i <= min,
            min == if an < bn {
                an
            } else {
                bn
            },
            an == a@.len(),
            bn == b@.len(),
            forall|j: int| 0 <= j < i ==> a@[j] == b@[j],
            lex_le(a@, b@) == lex_le(a@.subrange(i as int, an as int), b@.subrange(i as int, bn as int)),
        decreases min - i,
    {
        let av = a[i];
        let bv = b[i];
        let ghost asub = a@.subrange(i as int, an as int);
        let ghost bsub = b@.subrange(i as int, bn as int);
        proof {
            assert(asub[0] == av && bsub[0] == bv);
            assert(asub.subrange(1, asub.len() as int) =~= a@.subrange(i + 1, an as int));
            assert(bsub.subrange(1, bsub.len() as int) =~= b@.subrange(i + 1, bn as int));
        }
        if av < bv {
            proof {
                assert(lex_le(asub, bsub));
            }
            return true;
        }
        if av > bv {
            proof {
                assert(!lex_le(asub, bsub));
            }
            return false;
        }
        i += 1;
    }
    proof {
        let asub = a@.subrange(i as int, an as int);
        let bsub = b@.subrange(i as int, bn as int);
        if an <= bn {
            assert(asub.len() == 0);
            assert(lex_le(asub, bsub));
        } else {
            assert(bsub.len() == 0 && asub.len() > 0);
            assert(!lex_le(asub, bsub));
        }
    }
    an <= bn
}

/// Sorts symbols by the lexicographic order of their resolved texts
/// (a permutation of the input; all keys here are distinct, so the
/// result is unique).
pub fn sort_names(v: Vec<Str>, table: &SymbolTable) -> (r: Vec<Str>)
    requires
        forall|i: int| 0 <= i < v@.len() ==> 0 <= (#[trigger] v@[i]).idx() < table@.len(),
    ensures
        r@.to_multiset() == v@.to_multiset(),
        r@.len() == v@.len(),
        forall|i: int| 0 <= i < r@.len() ==> 0 <= (#[trigger] r@[i]).idx() < table@.len(),
        forall|i: int, j: int|
            #![trigger r@[i], r@[j]]
            0 <= i < j < r@.len() ==> lex_le(table@[r@[i].idx()], table@[r@[j].idx()]),
{
    broadcast use vstd::seq_lib::group_to_multiset_ensures;

    let mut rest = v;
    let mut out: Vec<Str> = Vec::new();
    proof {
        assert(out@.to_multiset().add(rest@.to_multiset()) =~= v@.to_multiset());
    }
    while rest.len() > 0
        invariant
            forall|i: int| 0 <= i < rest@.len() ==> 0 <= (#[trigger] rest@[i]).idx()
                < table@.len(),
            forall|i: int| 0 <= i < out@.len() ==> 0 <= (#[trigger] out@[i]).idx() < table@.len(),
            out@.to_multiset().add(rest@.to_multiset()) == v@.to_multiset(),
            out@.len() + rest@.len() == v@.len(),
            forall|i: int, j: int|
                #![trigger out@[i], out@[j]]
                0 <= i < j < out@.len() ==> lex_le(table@[out@[i].idx()], table@[out@[j].idx()]),
            forall|i: int, j: int|
                #![trigger out@[i], rest@[j]]
                0 <= i < out@.len() && 0 <= j < rest@.len() ==> lex_le(
                    table@[out@[i].idx()],
                    table@[rest@[j].idx()],
                ),
        decreases rest@.len(),
    {
        // Select the minimum of the remaining names.
        let mut mi: usize = 0;
        let mut t: usize = 1;
        let rn = rest.len();
        proof {
            lemma_lex_total(table@[rest@[0].idx()], table@[rest@[0].idx()]);
        }
        while t < rn
            invariant
                mi < t <= rn,
                rn == rest@.len(),
                forall|i: int| 0 <= i < rest@.len() ==> 0 <= (#[trigger] rest@[i]).idx()
                    < table@.len(),
                forall|k: int|
                    0 <= k < t ==> lex_le(
                        table@[rest@[mi as int].idx()],
                        table@[(#[trigger] rest@[k]).idx()],
                    ),
            decreases rn - t,
        {
            let cur_min = table.resolve(rest[mi]);
            let cand = table.resolve(rest[t]);
            if !lex_le_bytes(cur_min, cand) {
                proof {
                    lemma_lex_total(table@[rest@[mi as int].idx()], table@[rest@[t as int].idx()]);
                    lemma_lex_total(table@[rest@[t as int].idx()], table@[rest@[t as int].idx()]);
                    assert forall|k: int|
                        0 <= k < t + 1 implies lex_le(
                        table@[rest@[t as int].idx()],
                        table@[(#[trigger] rest@[k]).idx()],
                    ) by {
                        if k < t {
                            lemma_lex_trans(
                                table@[rest@[t as int].idx()],
                                table@[rest@[mi as int].idx()],
                                table@[rest@[k].idx()],
                            );
                        }
                    }
                }
                mi = t;
            } else {
                proof {
                    assert forall|k: int|
                        0 <= k < t + 1 implies lex_le(
                        table@[rest@[mi as int].idx()],
                        table@[(#[trigger] rest@[k]).idx()],
                    ) by {
                        if k == t {
                        }
                    }
                }
            }
            t += 1;
        }
        let ghost rest_old = rest@;
        let ghost out_old = out@;
        let chosen = rest.remove(mi);
        out.push(chosen);
        proof {
            broadcast use vstd::seq_lib::group_to_multiset_ensures;

            assert(rest@ =~= rest_old.remove(mi as int));
            assert(out@ == out_old.push(chosen));
            assert(out_old.push(chosen).to_multiset() =~= out_old.to_multiset().insert(chosen));
            assert(out@.to_multiset() =~= out_old.to_multiset().insert(chosen));
            assert(rest_old.remove(mi as int).to_multiset() =~= rest_old.to_multiset().remove(
                rest_old[mi as int],
            ));
            assert(rest@.to_multiset() =~= rest_old.to_multiset().remove(chosen));
            assert(rest_old.to_multiset().contains(chosen)) by {
                assert(rest_old[mi as int] == chosen);
                assert(rest_old.contains(chosen));
            }
            assert(out@.to_multiset().add(rest@.to_multiset()) =~= out_old.to_multiset().add(
                rest_old.to_multiset(),
            ));
            assert forall|i: int, j: int|
                #![trigger out@[i], rest@[j]]
                0 <= i < out@.len() && 0 <= j < rest@.len() implies lex_le(
                table@[out@[i].idx()],
                table@[rest@[j].idx()],
            ) by {
                let jj = if j < mi {
                    j
                } else {
                    j + 1
                };
                assert(rest@[j] == rest_old[jj]);
                if i < out_old.len() {
                    assert(out@[i] == out_old[i]);
                } else {
                    assert(out@[i] == chosen);
                    assert(lex_le(table@[rest_old[mi as int].idx()], table@[rest_old[jj].idx()]));
                }
            }
            assert forall|i: int, j: int|
                #![trigger out@[i], out@[j]]
                0 <= i < j < out@.len() implies lex_le(
                table@[out@[i].idx()],
                table@[out@[j].idx()],
            ) by {
                if j < out_old.len() {
                    assert(out@[i] == out_old[i] && out@[j] == out_old[j]);
                } else {
                    assert(out@[i] == out_old[i] && out@[j] == chosen);
                    assert(lex_le(table@[out_old[i].idx()], table@[rest_old[mi as int].idx()]));
                }
            }
        }
    }
    proof {
        broadcast use vstd::seq_lib::group_to_multiset_ensures;

        assert(rest@.to_multiset() =~= Multiset::<Str>::empty()) by {
            assert(rest@ =~= Seq::<Str>::empty());
            assert(Seq::<Str>::empty().to_multiset() =~= Multiset::<Str>::empty());
        }
        assert(out@.to_multiset() =~= out@.to_multiset().add(rest@.to_multiset()));
    }
    out
}

//
// Content deduplication.
//

/// Assigns every image its atlas slot: equal pixel content shares one
/// slot, and distinct content gets distinct slots, in first-seen
/// order.
#[verifier::rlimit(100)]
pub fn dedup_images(images: &Vec<RgbaImage>) -> (r: (Vec<usize>, Vec<RgbaImage>))
    requires
        forall|i: int|
            0 <= i < images@.len() ==> (#[trigger] images@[i]).wf() && images@[i].width == 32
                && images@[i].height == 32,
    ensures
        r.0@.len() == images@.len(),
        r.1@.len() <= images@.len(),
        forall|j: int|
            0 <= j < r.1@.len() ==> (#[trigger] r.1@[j]).wf() && r.1@[j].width == 32
                && r.1@[j].height == 32,
        forall|i: int|
            0 <= i < r.0@.len() ==> (#[trigger] r.0@[i]) < r.1@.len() && r.1@[r.0@[i] as int].pixels@
                == images@[i].pixels@,
        forall|j1: int, j2: int|
            #![trigger r.1@[j1], r.1@[j2]]
            0 <= j1 < j2 < r.1@.len() ==> r.1@[j1].pixels@ != r.1@[j2].pixels@,
        images@.len() > 0 ==> r.1@.len() > 0,
        forall|i1: int, i2: int|
            #![trigger r.0@[i1], r.0@[i2]]
            0 <= i1 < r.0@.len() && 0 <= i2 < r.0@.len() ==> ((r.0@[i1] == r.0@[i2]) <==> (
            images@[i1].pixels@ == images@[i2].pixels@)),
        exists|reps: Seq<int>| covers_all_slots(reps, slots_of(r.0@), r.1@.len() as int),
{
    let n = images.len();
    let mut idx: Vec<usize> = Vec::new();
    let mut unique: Vec<RgbaImage> = Vec::new();
    // The position in `idx` at which each slot was first assigned.
    let ghost mut firsts: Seq<int> = Seq::empty();
    let mut i: usize = 0;
    while i < n
        invariant
            i <= n,
            n == images@.len(),
            forall|k: int|
                0 <= k < images@.len() ==> (#[trigger] images@[k]).wf() && images@[k].width == 32
                    && images@[k].height == 32,
            idx@.len() == i,
            unique@.len() <= i,
            forall|j: int|
                0 <= j < unique@.len() ==> (#[trigger] unique@[j]).wf() && unique@[j].width == 32
                    && unique@[j].height == 32,
            forall|k: int|
                0 <= k < idx@.len() ==> (#[trigger] idx@[k]) < unique@.len() && unique@[idx@[
                    k] as int].pixels@ == images@[k].pixels@,
            forall|j1: int, j2: int|
                #![trigger unique@[j1], unique@[j2]]
                0 <= j1 < j2 < unique@.len() ==> unique@[j1].pixels@ != unique@[j2].pixels@,
            firsts.len() == unique@.len(),
            forall|s: int|
                0 <= s < firsts.len() ==> 0 <= #[trigger] firsts[s] < idx@.len() && idx@[firsts[s]]
                    == s,
            i > 0 ==> unique@.len() > 0,
        decreases n - i,
    {
        let img = &images[i];
        // Look for an existing slot with the same content.
        let un = unique.len();
        let mut hit: usize = un;
        let mut j: usize = 0;
        while j < un && hit == un
            invariant
                j <= un,
                un == unique@.len(),
                i < n,
                n == images@.len(),
                hit <= un,
                hit == un ==> forall|k: int|
                    0 <= k < j ==> (#[trigger] unique@[k]).pixels@ != images@[i as int].pixels@,
                hit < un ==> unique@[hit as int].pixels@ == images@[i as int].pixels@,
            decreases un - j,
        {
            if bytes_equal(&unique[j].pixels, &images[i].pixels) {
                hit = j;
                proof {
                    assert(unique@[j as int].pixels@ == images@[i as int].pixels@);
                }
            }
            j += 1;
        }
        let ghost idx_old = idx@;
        if hit < un {
            idx.push(hit);
            proof {
                assert forall|s: int|
                    0 <= s < firsts.len() implies 0 <= #[trigger] firsts[s] < idx@.len()
                    && idx@[firsts[s]] == s by {
                    assert(idx@[firsts[s]] == idx_old[firsts[s]]);
                }
            }
        } else {
            {
                idx.push(un);
                let copy = RgbaImage {
                    width: img.width,
                    height: img.height,
                    pixels: crate::digits::copy_range(&img.pixels, 0, img.pixels.len()),
                };
                proof {
                    assert(copy.pixels@ =~= images@[i as int].pixels@);
                }
                let ghost unique_old = unique@;
                unique.push(copy);
                proof {
                    assert forall|j1: int, j2: int|
                        #![trigger unique@[j1], unique@[j2]]
                        0 <= j1 < j2 < unique@.len() implies unique@[j1].pixels@ != unique@[
                    j2].pixels@ by {
                        if j2 == unique@.len() - 1 {
                            assert(unique@[j1] == unique_old[j1]);
                            assert(unique_old[j1].pixels@ != images@[i as int].pixels@);
                        } else {
                            assert(unique@[j1] == unique_old[j1]);
                            assert(unique@[j2] == unique_old[j2]);
                        }
                    }
                    let firsts_old = firsts;
                    firsts = firsts.push(idx_old.len() as int);
                    assert forall|s: int|
                        0 <= s < firsts.len() implies 0 <= #[trigger] firsts[s] < idx@.len()
                        && idx@[firsts[s]] == s by {
                        if s < firsts.len() - 1 {
                            assert(firsts[s] == firsts_old[s]);
                            assert(0 <= firsts_old[s] < idx_old.len() && idx_old[firsts_old[s]]
                                == s);
                            assert(idx@[firsts_old[s]] == idx_old[firsts_old[s]]);
                        } else {
                            assert(firsts[s] == idx_old.len());
                            assert(idx@[idx_old.len() as int] == un);
                        }
                    }
                }
            }
        }
        i += 1;
    }
    proof {
        assert forall|i1: int, i2: int|
            #![trigger idx@[i1], idx@[i2]]
            0 <= i1 < idx@.len() && 0 <= i2 < idx@.len() implies ((idx@[i1] == idx@[i2]) <==> (
        images@[i1].pixels@ == images@[i2].pixels@)) by {
            if idx@[i1] == idx@[i2] {
                assert(unique@[idx@[i1] as int].pixels@ == images@[i1].pixels@);
                assert(unique@[idx@[i2] as int].pixels@ == images@[i2].pixels@);
            } else {
                let j1 = idx@[i1] as int;
                let j2 = idx@[i2] as int;
                if j1 < j2 {
                    assert(unique@[j1].pixels@ != unique@[j2].pixels@);
                } else {
                    assert(unique@[j2].pixels@ != unique@[j1].pixels@);
                }
            }
        }
        assert forall|s: int|
            0 <= s < firsts.len() implies 0 <= #[trigger] firsts[s] < slots_of(idx@).len()
            && slots_of(idx@)[firsts[s]] == s by {
            assert(0 <= firsts[s] < idx@.len() && idx@[firsts[s]] == s);
            assert(slots_of(idx@)[firsts[s]] == idx@[firsts[s]] as int);
        }
        assert(covers_all_slots(firsts, slots_of(idx@), unique@.len() as int));
    }
    let out = (idx, unique);
    proof {
        assert(covers_all_slots(firsts, slots_of(out.0@), out.1@.len() as int));
    }
    out
}

/// The least `r` with `n <= r * r`.
pub fn ceil_sqrt(n: usize) -> (r: usize)
    requires
        1 <= n <= 1000000,
    ensures
        1 <= r <= 1000,
        (r - 1) * (r - 1) < n <= r * r,
{
    let mut r: usize = 1;
    let mut sq: usize = 1;
    while sq < n
        invariant
            1 <= r <= 1000,
            sq == r * r,
            sq <= 1000000,
            (r - 1) * (r - 1) < n,
            n <= 1000000,
        decreases 1000000 - sq,
    {
        proof {
            assert(r < 1000) by (nonlinear_arith)
                requires
                    r * r < n,
                    n <= 1000000,
                    r >= 1,
                    sq == r * r,
                    sq < n,
            ;
            assert((r + 1) * (r + 1) == r * r + 2 * r + 1) by (nonlinear_arith);
            assert((r + 1) * (r + 1) <= 1000000) by (nonlinear_arith)
                requires
                    r < 1000,
            ;
        }
        sq = sq + 2 * r + 1;
        r += 1;
    }
    proof {
        assert(n <= r * r);
    }
    r
}

//
// Atlas packing.
//

/// The byte at `pos` of the packed atlas: decompose the flat RGBA
/// position into channel, pixel column and row, locate the tile cell,
/// and read the tile's pixel; cells past the last tile are
/// transparent zeroes.
pub open spec fn spec_atlas_byte(tiles: Seq<RgbaImage>, columns: int, width: int, pos: int) -> int {
    let b = pos % 4;
    let rem = pos / 4;
    let px = rem % width;
    let py = rem / width;
    let tx = px / 32;
    let ty = py / 32;
    let t = ty * columns + tx;
    if t < tiles.len() {
        tiles[t].pixels@[((py % 32) * 32 + px % 32) * 4 + b] as int
    } else {
        0
    }
}

/// Each tile occupies exactly its cell: byte `(y, x, b)` of tile `t`
/// sits in the atlas at row `(t / columns) * 32 + y` and column
/// `(t % columns) * 32 + x`.
pub proof fn lemma_atlas_cell(
    tiles: Seq<RgbaImage>,
    columns: int,
    width: int,
    t: int,
    y: int,
    x: int,
    b: int,
)
    requires
        columns >= 1,
        width == columns * 32,
        0 <= t < tiles.len(),
        0 <= y < 32,
        0 <= x < 32,
        0 <= b < 4,
    ensures
        spec_atlas_byte(
            tiles,
            columns,
            width,
            (((t / columns) * 32 + y) * width + (t % columns) * 32 + x) * 4 + b,
        ) == tiles[t].pixels@[((y * 32) + x) * 4 + b] as int,
{
    let tx = t % columns;
    let ty = t / columns;
    lemma_fundamental_div_mod(t, columns);
    lemma_mod_bound(t, columns);
    lemma_div_pos_is_pos(t, columns);
    let px = tx * 32 + x;
    let py = ty * 32 + y;
    let rem = py * width + px;
    let pos = rem * 4 + b;
    assert(pos == (((t / columns) * 32 + y) * width + (t % columns) * 32 + x) * 4 + b);
    assert(px < width) by (nonlinear_arith)
        requires
            0 <= tx < columns,
            px == tx * 32 + x,
            x < 32,
            width == columns * 32,
    ;
    assert(rem >= 0) by (nonlinear_arith)
        requires
            py >= 0,
            px >= 0,
            width >= 1,
            rem == py * width + px,
    ;
    vstd::arithmetic::div_mod::lemma_fundamental_div_mod_converse(pos, 4, rem, b);
    vstd::arithmetic::div_mod::lemma_fundamental_div_mod_converse(rem, width, py, px);
    vstd::arithmetic::div_mod::lemma_fundamental_div_mod_converse(px, 32, tx, x);
    vstd::arithmetic::div_mod::lemma_fundamental_div_mod_converse(py, 32, ty, y);
    assert(pos % 4 == b && pos / 4 == rem);
    assert(rem % width == px && rem / width == py);
    assert(px / 32 == tx && px % 32 == x);
    assert(py / 32 == ty && py % 32 == y);
    assert(ty * columns + tx == t) by (nonlinear_arith)
        requires
            t == columns * ty + tx,
    ;
}

/// Packs the unique tiles into one RGBA atlas:
/// `columns = ceil(sqrt(count))`, `rows = ceil(count / columns)`, and
/// tile `t` occupies the cell `(t % columns, t / columns)`.
pub fn pack_atlas(tiles: &Vec<RgbaImage>) -> (r: (RgbaImage, TileMetadata))
    requires
        1 <= tiles@.len() <= 65536,
        forall|i: int|
            0 <= i < tiles@.len() ==> (#[trigger] tiles@[i]).wf() && tiles@[i].width == 32
                && tiles@[i].height == 32,
    ensures
        ({
            let count = tiles@.len() as int;
            let cols = r.0.width as int / 32;
            &&& r.1.tile_size.0 == 32 && r.1.tile_size.1 == 32
            &&& r.1.tile_count == count
            &&& r.1.image_size.0 == r.0.width && r.1.image_size.1 == r.0.height
            &&& (cols - 1) * (cols - 1) < count <= cols * cols
            &&& r.0.width as int == cols * 32
            &&& r.0.height as int == ((count + cols - 1) / cols) * 32
            &&& r.0.wf()
            &&& forall|pos: int|
                0 <= pos < r.0.pixels@.len() ==> r.0.pixels@[pos] == spec_atlas_byte(
                    tiles@,
                    cols,
                    r.0.width as int,
                    pos,
                )
        }),
{
    let count = tiles.len();
    let cols = ceil_sqrt(count);
    let rows = (count + cols - 1) / cols;
    proof {
        assert(rows <= 65536) by (nonlinear_arith)
            requires
                rows == (count + cols - 1) as int / cols as int,
                1 <= cols <= 1000,
                1 <= count <= 65536,
        ;
        assert(rows >= 1) by (nonlinear_arith)
            requires
                rows == (count + cols - 1) as int / cols as int,
                1 <= cols <= 1000,
                count >= 1,
        ;
        assert(cols <= 256) by (nonlinear_arith)
            requires
                (cols - 1) * (cols - 1) < count,
                count <= 65536,
                cols >= 1,
        ;
        assert(rows <= 256) by (nonlinear_arith)
            requires
                rows == (count + cols - 1) as int / cols as int,
                1 <= cols <= 256,
                (cols - 1) * (cols - 1) < count,
                count <= cols * cols,
        ;
    }
    proof {
        assert((cols * 32) * (rows * 32) <= 67108864) by (nonlinear_arith)
            requires
                1 <= cols <= 256,
                1 <= rows <= 256,
        ;
    }
    let width: usize = cols * 32;
    let height: usize = rows * 32;
    let total: usize = width * height * 4;
    let mut pixels: Vec<u8> = Vec::new();
    let mut pos: usize = 0;
    while pos < total
        invariant
            pos <= total,
            total == width * height * 4,
            width == cols * 32,
            height == rows * 32,
            1 <= cols <= 256,
            1 <= rows <= 256,
            count == tiles@.len(),
            1 <= count <= 65536,
            forall|i: int|
                0 <= i < tiles@.len() ==> (#[trigger] tiles@[i]).wf() && tiles@[i].width == 32
                    && tiles@[i].height == 32,
            pixels@.len() == pos,
            forall|k: int|
                0 <= k < pos ==> pixels@[k] == spec_atlas_byte(
                    tiles@,
                    cols as int,
                    width as int,
                    k,
                ),
        decreases total - pos,
    {
        let b = pos % 4;
        let rem = pos / 4;
        let px = rem % width;
        let py = rem / width;
        let tx = px / 32;
        let ty = py / 32;
        proof {
            lemma_mod_bound(pos as int, 4);
            lemma_mod_bound(rem as int, width as int);
            lemma_mod_bound(px as int, 32);
            lemma_mod_bound(py as int, 32);
            lemma_div_pos_is_pos(pos as int, 4);
            lemma_div_pos_is_pos(rem as int, width as int);
            lemma_div_pos_is_pos(px as int, 32);
            lemma_div_pos_is_pos(py as int, 32);
            lemma_fundamental_div_mod(pos as int, 4);
            lemma_fundamental_div_mod(rem as int, width as int);
            lemma_fundamental_div_mod(px as int, 32);
            lemma_fundamental_div_mod(py as int, 32);
            assert((rem as int) < (width as int) * (height as int)) by (nonlinear_arith)
                requires
                    pos as int == 4 * (rem as int) + pos as int % 4,
                    0 <= pos as int % 4,
                    pos < total,
                    total == width * height * 4,
            ;
            assert((py as int) < (height as int)) by (nonlinear_arith)
                requires
                    rem as int == (width as int) * (py as int) + (rem as int) % (width as int),
                    0 <= (rem as int) % (width as int),
                    (rem as int) < (width as int) * (height as int),
                    width >= 1,
            ;
            assert(tx < cols) by (nonlinear_arith)
                requires
                    px < width,
                    width == cols * 32,
                    px as int == 32 * (tx as int) + px as int % 32,
                    0 <= px as int % 32 < 32,
                    cols >= 1,
            ;
            assert(ty < rows) by (nonlinear_arith)
                requires
                    py < height,
                    height == rows * 32,
                    py as int == 32 * (ty as int) + py as int % 32,
                    0 <= py as int % 32 < 32,
                    rows >= 1,
            ;
            assert(ty * cols + tx < 65536) by (nonlinear_arith)
                requires
                    0 <= tx < cols,
                    0 <= ty < rows,
                    cols <= 256,
                    rows <= 256,
            ;
        }
        let t = ty * cols + tx;
        let byte: u8 = if t < count {
            proof {
                assert(tiles@[t as int].pixels@.len() == 4096) by {
                    assert(tiles@[t as int].wf());
                }
                assert(((py as int % 32) * 32 + px as int % 32) * 4 + b < 4096)
                    by (nonlinear_arith)
                    requires
                        0 <= py as int % 32 < 32,
                        0 <= px as int % 32 < 32,
                        0 <= b < 4,
                ;
            }
            tiles[t].pixels[((py % 32) * 32 + px % 32) * 4 + b]
        } else {
            0
        };
        pixels.push(byte);
        proof {
            assert(pixels@[pos as int] == spec_atlas_byte(tiles@, cols as int, width as int, pos as int));
        }
        pos += 1;
    }
    let out = RgbaImage { width: width as u32, height: height as u32, pixels };
    let tm = TileMetadata {
        tile_size: (32, 32),
        tile_count: count as u32,
        image_size: (width as u32, height as u32),
    };
    proof {
        assert(out.pixels@.len() == out.width as int * out.height as int * 4) by (nonlinear_arith)
            requires
                out.pixels@.len() == width * height * 4,
                out.width as int == width,
                out.height as int == height,
        ;
        assert(out.width as int / 32 == cols) by (nonlinear_arith)
            requires
                out.width as int == cols * 32,
                cols >= 1,
        ;
        assert(out.height as int == ((count as int + cols as int - 1) / cols as int) * 32);
    }
    (out, tm)
}

//
// Icon assignment.
//

/// True when some entry of `s` is `x`.
pub open spec fn contains_str(s: Seq<Str>, x: Str) -> bool {
    exists|i: int| #![trigger s[i]] 0 <= i < s.len() && s[i] == x
}

/// The stored 1-based slot of an attached icon, `0` when absent.
pub open spec fn icon_slot(icon: Option<Icon>) -> int {
    match icon {
        Option::Some(ic) => ic.slot(),
        Option::None => 0,
    }
}

/// A content-keyed slot assignment for the flat render list: every
/// render gets a slot below `count`, two renders share a slot exactly
/// when their recovered buffers are byte-identical, and every slot
/// below `count` is used by some render.
pub open spec fn slot_assignment_ok(
    slots: Seq<int>,
    dark: Seq<RgbImage>,
    light: Seq<RgbImage>,
    count: int,
) -> bool {
    &&& slots.len() == dark.len()
    &&& forall|k: int| 0 <= k < slots.len() ==> 0 <= #[trigger] slots[k] < count
    &&& forall|k1: int, k2: int|
        #![trigger slots[k1], slots[k2]]
        0 <= k1 < slots.len() && 0 <= k2 < slots.len() ==> ((slots[k1] == slots[k2]) <==> (rec_of(
            dark[k1],
            light[k1],
        ) == rec_of(dark[k2], light[k2])))
    &&& exists|reps: Seq<int>| covers_all_slots(reps, slots, count)
}

/// A machine-sized slot list, as mathematical integers.
pub open spec fn slots_of(idx: Seq<usize>) -> Seq<int> {
    idx.map_values(|v: usize| v as int)
}

/// `reps` names, for every slot below `count`, some render that was
/// assigned it.
pub open spec fn covers_all_slots(reps: Seq<int>, slots: Seq<int>, count: int) -> bool {
    &&& reps.len() == count
    &&& forall|s: int|
        0 <= s < count ==> 0 <= #[trigger] reps[s] < slots.len() && slots[reps[s]] == s
}

/// `tiles` carries each render's recovered buffer in its assigned
/// slot, and the atlas is its byte-for-byte grid layout.
pub open spec fn tiles_laid_out(
    tiles: Seq<RgbaImage>,
    slots: Seq<int>,
    atlas: RgbaImage,
    dark: Seq<RgbImage>,
    light: Seq<RgbImage>,
    count: int,
) -> bool {
    &&& tiles.len() == count
    &&& forall|k: int|
        #![trigger slots[k]]
        0 <= k < slots.len() ==> tiles[slots[k]].pixels@ == rec_of(dark[k], light[k])
    &&& forall|pos: int|
        0 <= pos < atlas.pixels@.len() ==> (#[trigger] atlas.pixels@[pos]) == spec_atlas_byte(
            tiles,
            atlas.width as int / 32,
            atlas.width as int,
            pos,
        )
}

/// The icon `icon` carries the slot that the assignment gives the
/// render of `sym`: `sym` stands at some position `j` of its name
/// list, whose render sits at flat offset `off + j`.
pub open spec fn icon_bound(
    icon: Option<Icon>,
    sym: Str,
    list: Seq<Str>,
    slots: Seq<int>,
    off: int,
) -> bool {
    exists|j: int|
        0 <= j < list.len() && (#[trigger] list[j]) == sym && icon_slot(icon) == slots[off + j] + 1
}

/// The whole icon stage, content-wise: one slot assignment keyed by
/// recovered content binds every entity's icon slot through the
/// position of its name in the flat name lists, and some tile
/// sequence of `count` tiles carries each render's recovered buffer
/// in its slot and lays the atlas out byte by byte.
pub open spec fn icons_assigned(
    slots: Seq<int>,
    gd2: GameData,
    names: IconNames,
    atlas: RgbaImage,
    dark: Seq<RgbImage>,
    light: Seq<RgbImage>,
    count: int,
) -> bool {
    let offf = names.items@.len() as int;
    let offr = offf + names.fluids@.len() as int;
    let offe = offr + names.recipes@.len() as int;
    &&& slot_assignment_ok(slots, dark, light, count)
    &&& forall|i: int|
        0 <= i < gd2.items@.len() ==> icon_bound(
            (#[trigger] gd2.items@[i]).metadata.icon,
            gd2.items@[i].id.0,
            names.items@,
            slots,
            0,
        )
    &&& forall|i: int|
        0 <= i < gd2.fluids@.len() ==> icon_bound(
            (#[trigger] gd2.fluids@[i]).metadata.icon,
            gd2.fluids@[i].id.0,
            names.fluids@,
            slots,
            offf,
        )
    &&& forall|i: int|
        0 <= i < gd2.recipes@.len() ==> icon_bound(
            (#[trigger] gd2.recipes@[i]).metadata.icon,
            gd2.recipes@[i].id.0,
            names.recipes@,
            slots,
            offr,
        )
    &&& forall|i: int|
        0 <= i < gd2.machines@.len() ==> icon_bound(
            (#[trigger] gd2.machines@[i]).metadata.icon,
            gd2.machines@[i].id.0,
            names.entities@,
            slots,
            offe,
        )
    &&& forall|i: int|
        0 <= i < gd2.beacons@.len() ==> icon_bound(
            (#[trigger] gd2.beacons@[i]).metadata.icon,
            gd2.beacons@[i].id.0,
            names.entities@,
            slots,
            offe,
        )
    &&& exists|tiles: Seq<RgbaImage>| tiles_laid_out(tiles, slots, atlas, dark, light, count)
}

/// The position of `x` in `v`, if present.
fn find_str(v: &Vec<Str>, x: Str) -> (r: Option<usize>)
    ensures
        match r {
            Option::Some(j) => j < v@.len() && v@[j as int] == x,
            Option::None => !contains_str(v@, x),
        },
{
    let n = v.len();
    let mut i: usize = 0;
    while i < n
        invariant
            i <= n,
            n == v@.len(),
            forall|j: int| #![trigger v@[j]] 0 <= j < i ==> v@[j] != x,
        decreases n - i,
    {
        if v[i].0 == x.0 {
            proof {
                assert(v@[i as int] == x);
            }
            return Option::Some(i);
        }
        i += 1;
    }
    proof {
        if contains_str(v@, x) {
            let j = choose|j: int| #![trigger v@[j]] 0 <= j < v@.len() && v@[j] == x;
            assert(v@[j] != x);
        }
    }
    Option::None
}

/// The deterministic icon-extraction order: per category, the IDs
/// sorted by their resolved text; machines and beacons share one
/// deduplicated entity list.
pub struct IconNames {
    pub items: Vec<Str>,
    pub fluids: Vec<Str>,
    pub recipes: Vec<Str>,
    pub entities: Vec<Str>,
}

impl IconNames {
    /// Every entity name of the model appears in its list.
    pub open spec fn covers(&self, gd: &GameData) -> bool {
        &&& forall|i: int|
            0 <= i < gd.items@.len() ==> contains_str(self.items@, (#[trigger] gd.items@[i]).id.0)
        &&& forall|i: int|
            0 <= i < gd.fluids@.len() ==> contains_str(
                self.fluids@,
                (#[trigger] gd.fluids@[i]).id.0,
            )
        &&& forall|i: int|
            0 <= i < gd.recipes@.len() ==> contains_str(
                self.recipes@,
                (#[trigger] gd.recipes@[i]).id.0,
            )
        &&& forall|i: int|
            0 <= i < gd.machines@.len() ==> contains_str(
                self.entities@,
                (#[trigger] gd.machines@[i]).id.0,
            )
        &&& forall|i: int|
            0 <= i < gd.beacons@.len() ==> contains_str(
                self.entities@,
                (#[trigger] gd.beacons@[i]).id.0,
            )
    }
}

/// Computes the icon-extraction order for a model: per category the
/// IDs sorted by resolved text, entities deduplicated across machines
/// and beacons.
pub fn icon_names(gd: &GameData, table: &SymbolTable) -> (r: IconNames)
    requires
        gd.syms_ok(table@.len() as int),
    ensures
        r.covers(gd),
        r.items@.len() == gd.items@.len(),
        r.fluids@.len() == gd.fluids@.len(),
        r.recipes@.len() == gd.recipes@.len(),
        r.entities@.len() <= gd.machines@.len() + gd.beacons@.len(),
        // Machines and beacons share one list, each symbol exactly
        // once.
        r.entities@.no_duplicates(),
{
    broadcast use vstd::seq_lib::group_to_multiset_ensures;

    // Items.
    let mut item_syms: Vec<Str> = Vec::new();
    let mut i: usize = 0;
    let n_items = gd.items.len();
    while i < n_items
        invariant
            i <= n_items,
            n_items == gd.items@.len(),
            gd.syms_ok(table@.len() as int),
            item_syms@.len() == i,
            forall|k: int| 0 <= k < i ==> (#[trigger] item_syms@[k]) == gd.items@[k].id.0,
            forall|k: int| 0 <= k < i ==> 0 <= (#[trigger] item_syms@[k]).idx() < table@.len(),
        decreases n_items - i,
    {
        item_syms.push(gd.items[i].id.0);
        i += 1;
    }
    let ghost item_syms0 = item_syms@;
    let items = sort_names(item_syms, table);
    proof {
        lemma_sorted_covers(item_syms0, items@);
    }
    // Fluids.
    let mut fluid_syms: Vec<Str> = Vec::new();
    let mut j: usize = 0;
    let n_fluids = gd.fluids.len();
    while j < n_fluids
        invariant
            j <= n_fluids,
            n_fluids == gd.fluids@.len(),
            gd.syms_ok(table@.len() as int),
            fluid_syms@.len() == j,
            forall|k: int| 0 <= k < j ==> (#[trigger] fluid_syms@[k]) == gd.fluids@[k].id.0,
            forall|k: int| 0 <= k < j ==> 0 <= (#[trigger] fluid_syms@[k]).idx() < table@.len(),
        decreases n_fluids - j,
    {
        fluid_syms.push(gd.fluids[j].id.0);
        j += 1;
    }
    let ghost fluid_syms0 = fluid_syms@;
    let fluids = sort_names(fluid_syms, table);
    proof {
        lemma_sorted_covers(fluid_syms0, fluids@);
    }
    // Recipes.
    let mut recipe_syms: Vec<Str> = Vec::new();
    let mut k: usize = 0;
    let n_recipes = gd.recipes.len();
    while k < n_recipes
        invariant
            k <= n_recipes,
            n_recipes == gd.recipes@.len(),
            gd.syms_ok(table@.len() as int),
            recipe_syms@.len() == k,
            forall|t: int| 0 <= t < k ==> (#[trigger] recipe_syms@[t]) == gd.recipes@[t].id.0,
            forall|t: int| 0 <= t < k ==> 0 <= (#[trigger] recipe_syms@[t]).idx() < table@.len(),
        decreases n_recipes - k,
    {
        proof {
            assert(gd.recipes@[k as int].syms_ok(table@.len() as int));
        }
        recipe_syms.push(gd.recipes[k].id.0);
        k += 1;
    }
    let ghost recipe_syms0 = recipe_syms@;
    let recipes = sort_names(recipe_syms, table);
    proof {
        lemma_sorted_covers(recipe_syms0, recipes@);
    }
    // Entities: machines and beacons share one deduplicated list.
    let mut entity_syms: Vec<Str> = Vec::new();
    let mut m: usize = 0;
    let n_machines = gd.machines.len();
    while m < n_machines
        invariant
            m <= n_machines,
            n_machines == gd.machines@.len(),
            gd.syms_ok(table@.len() as int),
            entity_syms@.len() <= m,
            forall|t: int| 0 <= t < m ==> contains_str(
                entity_syms@,
                (#[trigger] gd.machines@[t]).id.0,
            ),
            forall|t: int| 0 <= t < entity_syms@.len() ==> 0 <= (
            #[trigger] entity_syms@[t]).idx() < table@.len(),
            entity_syms@.no_duplicates(),
        decreases n_machines - m,
    {
        proof {
            assert(gd.machines@[m as int].syms_ok(table@.len() as int));
        }
        let sym = gd.machines[m].id.0;
        let ghost es_old = entity_syms@;
        match find_str(&entity_syms, sym) {
            Option::Some(_) => {},
            Option::None => {
                entity_syms.push(sym);
            },
        }
        proof {
            assert(entity_syms@.no_duplicates()) by {
                if entity_syms@.len() > es_old.len() {
                    assert forall|a: int, b: int|
                        0 <= a < entity_syms@.len() && 0 <= b < entity_syms@.len() && a
                            != b implies entity_syms@[a] != entity_syms@[b] by {
                        if a < es_old.len() && b < es_old.len() {
                            assert(entity_syms@[a] == es_old[a] && entity_syms@[b] == es_old[b]);
                        } else if b == es_old.len() && a < es_old.len() {
                            assert(entity_syms@[a] == es_old[a] && entity_syms@[b] == sym);
                            if es_old[a] == sym {
                                assert(contains_str(es_old, sym));
                            }
                        } else if a == es_old.len() && b < es_old.len() {
                            assert(entity_syms@[b] == es_old[b] && entity_syms@[a] == sym);
                            if es_old[b] == sym {
                                assert(contains_str(es_old, sym));
                            }
                        }
                    }
                }
            }
            assert(contains_str(entity_syms@, sym)) by {
                if entity_syms@.len() > es_old.len() {
                    assert(entity_syms@[entity_syms@.len() - 1] == sym);
                } else {
                    let w = choose|w: int|
                        #![trigger es_old[w]]
                        0 <= w < es_old.len() && es_old[w] == sym;
                    assert(entity_syms@[w] == sym);
                }
            }
            assert forall|t: int|
                0 <= t < m + 1 implies contains_str(
                entity_syms@,
                (#[trigger] gd.machines@[t]).id.0,
            ) by {
                if t < m {
                    let w = choose|w: int|
                        #![trigger es_old[w]]
                        0 <= w < es_old.len() && es_old[w] == gd.machines@[t].id.0;
                    assert(entity_syms@[w] == gd.machines@[t].id.0);
                }
            }
        }
        m += 1;
    }
    let mut bcount: usize = 0;
    let n_beacons = gd.beacons.len();
    while bcount < n_beacons
        invariant
            bcount <= n_beacons,
            n_beacons == gd.beacons@.len(),
            gd.syms_ok(table@.len() as int),
            entity_syms@.len() <= gd.machines@.len() + bcount,
            forall|t: int| 0 <= t < gd.machines@.len() ==> contains_str(
                entity_syms@,
                (#[trigger] gd.machines@[t]).id.0,
            ),
            forall|t: int| 0 <= t < bcount ==> contains_str(
                entity_syms@,
                (#[trigger] gd.beacons@[t]).id.0,
            ),
            forall|t: int| 0 <= t < entity_syms@.len() ==> 0 <= (
            #[trigger] entity_syms@[t]).idx() < table@.len(),
            entity_syms@.no_duplicates(),
        decreases n_beacons - bcount,
    {
        proof {
            assert(gd.beacons@[bcount as int].syms_ok(table@.len() as int));
        }
        let sym = gd.beacons[bcount].id.0;
        let ghost es_old = entity_syms@;
        match find_str(&entity_syms, sym) {
            Option::Some(_) => {},
            Option::None => {
                entity_syms.push(sym);
            },
        }
        proof {
            assert(entity_syms@.no_duplicates()) by {
                if entity_syms@.len() > es_old.len() {
                    assert forall|a: int, b: int|
                        0 <= a < entity_syms@.len() && 0 <= b < entity_syms@.len() && a
                            != b implies entity_syms@[a] != entity_syms@[b] by {
                        if a < es_old.len() && b < es_old.len() {
                            assert(entity_syms@[a] == es_old[a] && entity_syms@[b] == es_old[b]);
                        } else if b == es_old.len() && a < es_old.len() {
                            assert(entity_syms@[a] == es_old[a] && entity_syms@[b] == sym);
                            if es_old[a] == sym {
                                assert(contains_str(es_old, sym));
                            }
                        } else if a == es_old.len() && b < es_old.len() {
                            assert(entity_syms@[b] == es_old[b] && entity_syms@[a] == sym);
                            if es_old[b] == sym {
                                assert(contains_str(es_old, sym));
                            }
                        }
                    }
                }
            }
            assert(contains_str(entity_syms@, sym)) by {
                if entity_syms@.len() > es_old.len() {
                    assert(entity_syms@[entity_syms@.len() - 1] == sym);
                } else {
                    let w = choose|w: int|
                        #![trigger es_old[w]]
                        0 <= w < es_old.len() && es_old[w] == sym;
                    assert(entity_syms@[w] == sym);
                }
            }
            assert forall|t: int|
                0 <= t < gd.machines@.len() implies contains_str(
                entity_syms@,
                (#[trigger] gd.machines@[t]).id.0,
            ) by {
                let w = choose|w: int|
                    #![trigger es_old[w]]
                    0 <= w < es_old.len() && es_old[w] == gd.machines@[t].id.0;
                assert(entity_syms@[w] == gd.machines@[t].id.0);
            }
            assert forall|t: int|
                0 <= t < bcount + 1 implies contains_str(
                entity_syms@,
                (#[trigger] gd.beacons@[t]).id.0,
            ) by {
                if t < bcount {
                    let w = choose|w: int|
                        #![trigger es_old[w]]
                        0 <= w < es_old.len() && es_old[w] == gd.beacons@[t].id.0;
                    assert(entity_syms@[w] == gd.beacons@[t].id.0);
                }
            }
        }
        bcount += 1;
    }
    let ghost entity_syms0 = entity_syms@;
    let entities = sort_names(entity_syms, table);
    proof {
        entity_syms0.lemma_multiset_has_no_duplicates();
        entities@.lemma_multiset_has_no_duplicates_conv();
        assert forall|t: int|
            0 <= t < gd.machines@.len() implies contains_str(
            entities@,
            (#[trigger] gd.machines@[t]).id.0,
        ) by {
            lemma_sorted_contains(entity_syms0, entities@, gd.machines@[t].id.0);
        }
        assert forall|t: int|
            0 <= t < gd.beacons@.len() implies contains_str(
            entities@,
            (#[trigger] gd.beacons@[t]).id.0,
        ) by {
            lemma_sorted_contains(entity_syms0, entities@, gd.beacons@[t].id.0);
        }
    }
    proof {
        assert forall|i: int|
            0 <= i < gd.items@.len() implies contains_str(
            items@,
            (#[trigger] gd.items@[i]).id.0,
        ) by {
            assert(item_syms0[i] == gd.items@[i].id.0);
            assert(contains_str(items@, item_syms0[i]));
        }
        assert forall|i: int|
            0 <= i < gd.fluids@.len() implies contains_str(
            fluids@,
            (#[trigger] gd.fluids@[i]).id.0,
        ) by {
            assert(fluid_syms0[i] == gd.fluids@[i].id.0);
            assert(contains_str(fluids@, fluid_syms0[i]));
        }
        assert forall|i: int|
            0 <= i < gd.recipes@.len() implies contains_str(
            recipes@,
            (#[trigger] gd.recipes@[i]).id.0,
        ) by {
            assert(recipe_syms0[i] == gd.recipes@[i].id.0);
            assert(contains_str(recipes@, recipe_syms0[i]));
        }
    }
    IconNames { items, fluids, recipes, entities }
}

/// A permutation preserves membership.
proof fn lemma_sorted_contains(a: Seq<Str>, b: Seq<Str>, x: Str)
    requires
        a.to_multiset() == b.to_multiset(),
        contains_str(a, x),
    ensures
        contains_str(b, x),
{
    broadcast use vstd::seq_lib::group_to_multiset_ensures;

    let w = choose|w: int| #![trigger a[w]] 0 <= w < a.len() && a[w] == x;
    assert(a.contains(x));
    assert(a.to_multiset().count(x) > 0);
    assert(b.contains(x));
    let v = choose|v: int| 0 <= v < b.len() && b[v] == x;
    assert(b[v] == x);
}

/// A permutation of a position-indexed sym list covers every listed
/// sym.
proof fn lemma_sorted_covers(a: Seq<Str>, b: Seq<Str>)
    requires
        a.to_multiset() == b.to_multiset(),
    ensures
        forall|k: int| 0 <= k < a.len() ==> contains_str(b, #[trigger] a[k]),
        a.len() == b.len(),
{
    broadcast use vstd::seq_lib::group_to_multiset_ensures;

    assert forall|k: int| 0 <= k < a.len() implies contains_str(b, #[trigger] a[k]) by {
        assert(contains_str(a, a[k]));
        lemma_sorted_contains(a, b, a[k]);
    }
    assert(a.to_multiset().len() == b.to_multiset().len());
    assert(a.len() == a.to_multiset().len());
    assert(b.len() == b.to_multiset().len());
}

/// Rewrites the whole model with icon slots: recovers every render
/// pair, deduplicates by content, packs the atlas, and attaches to
/// each entity the 1-based slot of its image.  The render pairs arrive
/// flat, aligned with the four name lists in the order items, fluids,
/// recipes, entities.
#[verifier::rlimit(100)]
pub fn transform_icons(
    gd: GameData,
    names: &IconNames,
    dark: &Vec<RgbImage>,
    light: &Vec<RgbImage>,
) -> (r: Result<(GameData, RgbaImage), Error>)
    requires
        names.covers(&gd),
        dark@.len() == light@.len(),
        dark@.len() == names.items@.len() + names.fluids@.len() + names.recipes@.len()
            + names.entities@.len(),
        dark@.len() <= 65536,
        names.items@.len() == gd.items@.len(),
        names.fluids@.len() == gd.fluids@.len(),
        names.recipes@.len() == gd.recipes@.len(),
        forall|k: int| 0 <= k < dark@.len() ==> (#[trigger] dark@[k]).wf(),
        forall|k: int| 0 <= k < light@.len() ==> (#[trigger] light@[k]).wf(),
        gd.wf(),
    ensures
        match r {
            Ok(out) => {
                let gd2 = out.0;
                let atlas = out.1;
                &&& dark@.len() > 0
                &&& (forall|k: int|
                    0 <= k < dark@.len() ==> (#[trigger] dark@[k]).width == 32 && dark@[k].height
                        == 32 && light@[k].width == 32 && light@[k].height == 32)
                &&& gd2.wf()
                &&& gd2.items@.len() == gd.items@.len()
                &&& gd2.fluids@.len() == gd.fluids@.len()
                &&& gd2.recipes@.len() == gd.recipes@.len()
                &&& gd2.machines@.len() == gd.machines@.len()
                &&& gd2.beacons@.len() == gd.beacons@.len()
                &&& (forall|i: int|
                    0 <= i < gd2.items@.len() ==> (#[trigger] gd2.items@[i]).id == gd.items@[i].id
                        && gd2.items@[i].metadata.localised_name
                        == gd.items@[i].metadata.localised_name
                        && gd2.items@[i].metadata.localised_description
                        == gd.items@[i].metadata.localised_description && (
                    gd2.items@[i].metadata.icon matches Option::Some(ic) && ic.wf()))
                &&& (forall|i: int|
                    0 <= i < gd2.fluids@.len() ==> (#[trigger] gd2.fluids@[i]).id
                        == gd.fluids@[i].id && gd2.fluids@[i].metadata.localised_name
                        == gd.fluids@[i].metadata.localised_name
                        && gd2.fluids@[i].metadata.localised_description
                        == gd.fluids@[i].metadata.localised_description && (
                    gd2.fluids@[i].metadata.icon matches Option::Some(ic) && ic.wf()))
                &&& (forall|i: int|
                    0 <= i < gd2.recipes@.len() ==> (#[trigger] gd2.recipes@[i]).id
                        == gd.recipes@[i].id && gd2.recipes@[i].metadata.localised_name
                        == gd.recipes@[i].metadata.localised_name
                        && gd2.recipes@[i].metadata.localised_description
                        == gd.recipes@[i].metadata.localised_description
                        && gd2.recipes@[i].time == gd.recipes@[i].time && gd2.recipes@[
                        i].ingredients == gd.recipes@[i].ingredients && gd2.recipes@[i].products
                        == gd.recipes@[i].products && gd2.recipes@[i].crafted_in
                        == gd.recipes@[i].crafted_in && gd2.recipes@[i].supported_modules
                        == gd.recipes@[i].supported_modules && (
                    gd2.recipes@[i].metadata.icon matches Option::Some(ic) && ic.wf()))
                &&& (forall|i: int|
                    0 <= i < gd2.machines@.len() ==> (#[trigger] gd2.machines@[i]).id
                        == gd.machines@[i].id && gd2.machines@[i].metadata.localised_name
                        == gd.machines@[i].metadata.localised_name && gd2.machines@[
                        i].metadata.localised_description
                        == gd.machines@[i].metadata.localised_description && gd2.machines@[
                        i].crafting_speed == gd.machines@[i].crafting_speed && gd2.machines@[
                        i].energy_consumption == gd.machines@[i].energy_consumption && gd2.machines@[
                        i].energy_drain == gd.machines@[i].energy_drain && gd2.machines@[
                        i].module_slots == gd.machines@[i].module_slots && gd2.machines@[
                        i].supported_modules == gd.machines@[i].supported_modules && (
                    gd2.machines@[i].metadata.icon matches Option::Some(ic) && ic.wf()))
                &&& (forall|i: int|
                    0 <= i < gd2.beacons@.len() ==> (#[trigger] gd2.beacons@[i]).id
                        == gd.beacons@[i].id && gd2.beacons@[i].metadata.localised_name
                        == gd.beacons@[i].metadata.localised_name && gd2.beacons@[
                        i].metadata.localised_description
                        == gd.beacons@[i].metadata.localised_description && gd2.beacons@[
                        i].distribution_effectivity == gd.beacons@[i].distribution_effectivity
                        && gd2.beacons@[i].supported_modules == gd.beacons@[i].supported_modules
                        && (gd2.beacons@[i].metadata.icon matches Option::Some(ic) && ic.wf()))
                &&& gd2.modules == gd.modules
                &&& (gd2.tile_metadata matches Option::Some(tm) && tm.tile_size.0 == 32
                    && tm.tile_size.1 == 32 && 1 <= tm.tile_count <= dark@.len()
                    && tm.image_size.0 == atlas.width && tm.image_size.1 == atlas.height && ({
                    let cols = atlas.width as int / 32;
                    &&& (cols - 1) * (cols - 1) < tm.tile_count as int <= cols * cols
                    &&& atlas.width as int == cols * 32
                    &&& atlas.height as int == ((tm.tile_count as int + cols - 1) / cols) * 32
                }) && (exists|slots: Seq<int>|
                    icons_assigned(
                        slots,
                        gd2,
                        *names,
                        atlas,
                        dark@,
                        light@,
                        tm.tile_count as int,
                    )))
                &&& atlas.wf()
            },
            Err(e) => {
                ||| (e == Error::EmptyDataSet && dark@.len() == 0)
                ||| (e == Error::ImageDimensionMismatch && exists|k: int|
                    0 <= k < dark@.len() && ((#[trigger] dark@[k]).width != 32 || dark@[k].height
                        != 32 || light@[k].width != 32 || light@[k].height != 32))
            },
        },
{
    let total = dark.len();
    if total == 0 {
        return Err(Error::EmptyDataSet);
    }
    // Every render must be exactly one tile.
    let mut k: usize = 0;
    while k < total
        invariant
            k <= total,
            total == dark@.len(),
            dark@.len() == light@.len(),
            forall|t: int|
                0 <= t < k ==> (#[trigger] dark@[t]).width == 32 && dark@[t].height == 32
                    && light@[t].width == 32 && light@[t].height == 32,
        decreases total - k,
    {
        if dark[k].width != 32 || dark[k].height != 32 || light[k].width != 32 || light[k].height
            != 32 {
            return Err(Error::ImageDimensionMismatch);
        }
        proof {
            assert(dark@[k as int].width == 32 && dark@[k as int].height == 32 && light@[
                k as int].width == 32 && light@[k as int].height == 32);
            assert forall|t: int|
                0 <= t < k + 1 implies (#[trigger] dark@[t]).width == 32 && dark@[t].height == 32
                && light@[t].width == 32 && light@[t].height == 32 by {
                if t == k as int {
                    assert(dark@[t].width == 32 && dark@[t].height == 32 && light@[t].width == 32
                        && light@[t].height == 32);
                }
            }
        }
        k += 1;
    }
    // Recover every image.
    let mut combined: Vec<RgbaImage> = Vec::new();
    let mut c: usize = 0;
    while c < total
        invariant
            c <= total,
            total == dark@.len(),
            dark@.len() == light@.len(),
            forall|t: int| 0 <= t < dark@.len() ==> (#[trigger] dark@[t]).wf(),
            forall|t: int| 0 <= t < light@.len() ==> (#[trigger] light@[t]).wf(),
            forall|t: int|
                0 <= t < total ==> (#[trigger] dark@[t]).width == 32 && dark@[t].height == 32
                    && light@[t].width == 32 && light@[t].height == 32,
            combined@.len() == c,
            forall|t: int|
                0 <= t < combined@.len() ==> (#[trigger] combined@[t]).wf() && combined@[t].width
                    == 32 && combined@[t].height == 32,
            forall|t: int|
                #![trigger combined@[t]]
                0 <= t < combined@.len() ==> combined@[t].pixels@ == rec_of(dark@[t], light@[t]),
        decreases total - c,
    {
        let img = combine_image(&dark[c], &light[c]);
        proof {
            lemma_recovered_unique(dark@[c as int].pixels@, light@[c as int].pixels@, img.pixels@, 1024);
            assert(img.pixels@ == rec_of(dark@[c as int], light@[c as int]));
        }
        let ghost combined_old = combined@;
        combined.push(img);
        proof {
            assert forall|t: int|
                #![trigger combined@[t]]
                0 <= t < combined@.len() implies combined@[t].pixels@ == rec_of(
                dark@[t],
                light@[t],
            ) by {
                if t < combined_old.len() {
                    assert(combined@[t] == combined_old[t]);
                    assert(combined_old[t].pixels@ == rec_of(dark@[t], light@[t]));
                }
            }
        }
        c += 1;
    }
    let (idx, unique) = dedup_images(&combined);
    let (atlas, tm) = pack_atlas(&unique);
    let off_fluids = names.items.len();
    let off_recipes = off_fluids + names.fluids.len();
    let off_entities = off_recipes + names.recipes.len();
    // Attach icons.
    let GameData { tile_metadata: _, items, fluids, recipes, machines, beacons, modules } = gd;
    let ghost items0 = items@;
    let mut items_rest = items;
    let mut new_items: Vec<Item> = Vec::new();
    while items_rest.len() > 0
        invariant
            new_items@.len() + items_rest@.len() == items0.len(),
            items_rest@ =~= items0.subrange(new_items@.len() as int, items0.len() as int),
            idx@.len() == total,
            unique@.len() <= total,
            total <= 65536,
            names.items@.len() <= total,
            forall|t: int| 0 <= t < idx@.len() ==> (#[trigger] idx@[t]) < unique@.len(),
            names.items@.len() == items0.len(),
            forall|i: int|
                0 <= i < items0.len() ==> contains_str(names.items@, (#[trigger] items0[i]).id.0),
            forall|i: int|
                0 <= i < new_items@.len() ==> (#[trigger] new_items@[i]).id == items0[i].id
                    && new_items@[i].metadata.localised_name == items0[i].metadata.localised_name
                    && new_items@[i].metadata.localised_description
                    == items0[i].metadata.localised_description && (
                new_items@[i].metadata.icon matches Option::Some(ic) && ic.wf()),
            forall|i: int|
                #![trigger new_items@[i]]
                0 <= i < new_items@.len() ==> exists|j: int|
                    0 <= j < names.items@.len() && (#[trigger] names.items@[j]) == items0[i].id.0
                        && icon_slot(new_items@[i].metadata.icon) == idx@[j] + 1,
        decreases items_rest@.len(),
    {
        let it = items_rest.remove(0);
        proof {
            assert(it == items0[new_items@.len() as int]);
            assert(contains_str(names.items@, it.id.0));
        }
        let j = match find_str(&names.items, it.id.0) {
            Option::Some(j) => j,
            Option::None => {
                proof {
                    assert(false);
                }
                vstd::pervasive::unreached()
            },
        };
        let slot = idx[j];
        let icon = Icon::new(slot);
        let ghost ni_old = new_items@;
        new_items.push(
            Item {
                id: it.id,
                metadata: Metadata {
                    localised_name: it.metadata.localised_name,
                    localised_description: it.metadata.localised_description,
                    icon: Option::Some(icon),
                },
            },
        );
        proof {
            assert(items_rest@ =~= items0.subrange(new_items@.len() as int, items0.len() as int));
            assert forall|i2: int|
                #![trigger new_items@[i2]]
                0 <= i2 < new_items@.len() implies exists|j2: int|
                0 <= j2 < names.items@.len() && (#[trigger] names.items@[j2]) == items0[i2].id.0
                    && icon_slot(new_items@[i2].metadata.icon) == idx@[j2] + 1 by {
                if i2 < new_items@.len() - 1 {
                    assert(new_items@[i2] == ni_old[i2]);
                    let j2 = choose|j3: int|
                        0 <= j3 < names.items@.len() && (#[trigger] names.items@[j3]) == items0[
                            i2].id.0 && icon_slot(ni_old[i2].metadata.icon) == idx@[j3] + 1;
                    assert(icon_slot(new_items@[i2].metadata.icon) == idx@[j2] + 1);
                } else {
                    assert(new_items@[i2].metadata.icon == Option::Some(icon));
                    assert(names.items@[j as int] == items0[i2].id.0);
                    assert(icon_slot(new_items@[i2].metadata.icon) == idx@[j as int] + 1);
                }
            }
        }
    }
    let ghost fluids0 = fluids@;
    let mut fluids_rest = fluids;
    let mut new_fluids: Vec<Fluid> = Vec::new();
    while fluids_rest.len() > 0
        invariant
            new_fluids@.len() + fluids_rest@.len() == fluids0.len(),
            fluids_rest@ =~= fluids0.subrange(new_fluids@.len() as int, fluids0.len() as int),
            idx@.len() == total,
            unique@.len() <= total,
            total <= 65536,
            off_fluids + names.fluids@.len() <= total,
            forall|t: int| 0 <= t < idx@.len() ==> (#[trigger] idx@[t]) < unique@.len(),
            names.fluids@.len() == fluids0.len(),
            forall|i: int|
                0 <= i < fluids0.len() ==> contains_str(
                    names.fluids@,
                    (#[trigger] fluids0[i]).id.0,
                ),
            forall|i: int|
                0 <= i < new_fluids@.len() ==> (#[trigger] new_fluids@[i]).id == fluids0[i].id
                    && new_fluids@[i].metadata.localised_name == fluids0[i].metadata.localised_name
                    && new_fluids@[i].metadata.localised_description
                    == fluids0[i].metadata.localised_description && (
                new_fluids@[i].metadata.icon matches Option::Some(ic) && ic.wf()),
            forall|i: int|
                #![trigger new_fluids@[i]]
                0 <= i < new_fluids@.len() ==> exists|j: int|
                    0 <= j < names.fluids@.len() && (#[trigger] names.fluids@[j]) == fluids0[
                        i].id.0 && icon_slot(new_fluids@[i].metadata.icon) == idx@[off_fluids + j]
                        + 1,
        decreases fluids_rest@.len(),
    {
        let fl = fluids_rest.remove(0);
        proof {
            assert(fl == fluids0[new_fluids@.len() as int]);
            assert(contains_str(names.fluids@, fl.id.0));
        }
        let j = match find_str(&names.fluids, fl.id.0) {
            Option::Some(j) => j,
            Option::None => {
                proof {
                    assert(false);
                }
                vstd::pervasive::unreached()
            },
        };
        let slot = idx[off_fluids + j];
        let icon = Icon::new(slot);
        let ghost nf_old = new_fluids@;
        new_fluids.push(
            Fluid {
                id: fl.id,
                metadata: Metadata {
                    localised_name: fl.metadata.localised_name,
                    localised_description: fl.metadata.localised_description,
                    icon: Option::Some(icon),
                },
            },
        );
        proof {
            assert(fluids_rest@ =~= fluids0.subrange(
                new_fluids@.len() as int,
                fluids0.len() as int,
            ));
            assert forall|i2: int|
                #![trigger new_fluids@[i2]]
                0 <= i2 < new_fluids@.len() implies exists|j2: int|
                0 <= j2 < names.fluids@.len() && (#[trigger] names.fluids@[j2]) == fluids0[i2].id.0
                    && icon_slot(new_fluids@[i2].metadata.icon) == idx@[off_fluids + j2] + 1 by {
                if i2 < new_fluids@.len() - 1 {
                    assert(new_fluids@[i2] == nf_old[i2]);
                    let j2 = choose|j3: int|
                        0 <= j3 < names.fluids@.len() && (#[trigger] names.fluids@[j3]) == fluids0[
                            i2].id.0 && icon_slot(nf_old[i2].metadata.icon) == idx@[off_fluids + j3]
                            + 1;
                    assert(icon_slot(new_fluids@[i2].metadata.icon) == idx@[off_fluids + j2] + 1);
                } else {
                    assert(new_fluids@[i2].metadata.icon == Option::Some(icon));
                    assert(names.fluids@[j as int] == fluids0[i2].id.0);
                    assert(icon_slot(new_fluids@[i2].metadata.icon) == idx@[off_fluids + j as int]
                        + 1);
                }
            }
        }
    }
    let ghost recipes0 = recipes@;
    let mut recipes_rest = recipes;
    let mut new_recipes: Vec<Recipe> = Vec::new();
    while recipes_rest.len() > 0
        invariant
            new_recipes@.len() + recipes_rest@.len() == recipes0.len(),
            recipes_rest@ =~= recipes0.subrange(new_recipes@.len() as int, recipes0.len() as int),
            idx@.len() == total,
            unique@.len() <= total,
            total <= 65536,
            off_recipes + names.recipes@.len() <= total,
            forall|t: int| 0 <= t < idx@.len() ==> (#[trigger] idx@[t]) < unique@.len(),
            names.recipes@.len() == recipes0.len(),
            forall|i: int|
                0 <= i < recipes0.len() ==> contains_str(
                    names.recipes@,
                    (#[trigger] recipes0[i]).id.0,
                ),
            forall|i: int|
                0 <= i < new_recipes@.len() ==> (#[trigger] new_recipes@[i]).id == recipes0[i].id
                    && new_recipes@[i].metadata.localised_name
                    == recipes0[i].metadata.localised_name
                    && new_recipes@[i].metadata.localised_description
                    == recipes0[i].metadata.localised_description && new_recipes@[i].time
                    == recipes0[i].time && new_recipes@[i].ingredients == recipes0[i].ingredients
                    && new_recipes@[i].products == recipes0[i].products && new_recipes@[
                    i].crafted_in == recipes0[i].crafted_in && new_recipes@[i].supported_modules
                    == recipes0[i].supported_modules && (
                new_recipes@[i].metadata.icon matches Option::Some(ic) && ic.wf()),
            forall|i: int|
                #![trigger new_recipes@[i]]
                0 <= i < new_recipes@.len() ==> exists|j: int|
                    0 <= j < names.recipes@.len() && (#[trigger] names.recipes@[j]) == recipes0[
                        i].id.0 && icon_slot(new_recipes@[i].metadata.icon) == idx@[off_recipes + j]
                        + 1,
        decreases recipes_rest@.len(),
    {
        let rc = recipes_rest.remove(0);
        proof {
            assert(rc == recipes0[new_recipes@.len() as int]);
            assert(contains_str(names.recipes@, rc.id.0));
        }
        let j = match find_str(&names.recipes, rc.id.0) {
            Option::Some(j) => j,
            Option::None => {
                proof {
                    assert(false);
                }
                vstd::pervasive::unreached()
            },
        };
        let slot = idx[off_recipes + j];
        let icon = Icon::new(slot);
        let meta = Metadata {
            localised_name: rc.metadata.localised_name,
            localised_description: rc.metadata.localised_description,
            icon: Option::Some(icon),
        };
        let ghost nr_old = new_recipes@;
        new_recipes.push(
            Recipe {
                id: rc.id,
                metadata: meta,
                time: rc.time,
                ingredients: rc.ingredients,
                products: rc.products,
                crafted_in: rc.crafted_in,
                supported_modules: rc.supported_modules,
            },
        );
        proof {
            assert(recipes_rest@ =~= recipes0.subrange(
                new_recipes@.len() as int,
                recipes0.len() as int,
            ));
            assert forall|i2: int|
                #![trigger new_recipes@[i2]]
                0 <= i2 < new_recipes@.len() implies exists|j2: int|
                0 <= j2 < names.recipes@.len() && (#[trigger] names.recipes@[j2]) == recipes0[
                    i2].id.0 && icon_slot(new_recipes@[i2].metadata.icon) == idx@[off_recipes + j2]
                    + 1 by {
                if i2 < new_recipes@.len() - 1 {
                    assert(new_recipes@[i2] == nr_old[i2]);
                    let j2 = choose|j3: int|
                        0 <= j3 < names.recipes@.len() && (#[trigger] names.recipes@[j3])
                            == recipes0[i2].id.0 && icon_slot(nr_old[i2].metadata.icon) == idx@[
                            off_recipes + j3] + 1;
                    assert(icon_slot(new_recipes@[i2].metadata.icon) == idx@[off_recipes + j2] + 1);
                } else {
                    assert(new_recipes@[i2].metadata.icon == Option::Some(icon));
                    assert(names.recipes@[j as int] == recipes0[i2].id.0);
                    assert(icon_slot(new_recipes@[i2].metadata.icon) == idx@[off_recipes
                        + j as int] + 1);
                }
            }
        }
    }
    let ghost machines0 = machines@;
    let mut machines_rest = machines;
    let mut new_machines: Vec<Machine> = Vec::new();
    while machines_rest.len() > 0
        invariant
            new_machines@.len() + machines_rest@.len() == machines0.len(),
            machines_rest@ =~= machines0.subrange(
                new_machines@.len() as int,
                machines0.len() as int,
            ),
            idx@.len() == total,
            unique@.len() <= total,
            total <= 65536,
            off_entities + names.entities@.len() <= total,
            forall|t: int| 0 <= t < idx@.len() ==> (#[trigger] idx@[t]) < unique@.len(),
            forall|i: int|
                0 <= i < machines0.len() ==> contains_str(
                    names.entities@,
                    (#[trigger] machines0[i]).id.0,
                ),
            forall|i: int|
                0 <= i < new_machines@.len() ==> (#[trigger] new_machines@[i]).id == machines0[
                    i].id && new_machines@[i].metadata.localised_name
                    == machines0[i].metadata.localised_name && new_machines@[
                    i].metadata.localised_description
                    == machines0[i].metadata.localised_description && new_machines@[
                    i].crafting_speed == machines0[i].crafting_speed && new_machines@[
                    i].energy_consumption == machines0[i].energy_consumption && new_machines@[
                    i].energy_drain == machines0[i].energy_drain && new_machines@[i].module_slots
                    == machines0[i].module_slots && new_machines@[i].supported_modules
                    == machines0[i].supported_modules && (
                new_machines@[i].metadata.icon matches Option::Some(ic) && ic.wf()),
            forall|i: int|
                #![trigger new_machines@[i]]
                0 <= i < new_machines@.len() ==> exists|j: int|
                    0 <= j < names.entities@.len() && (#[trigger] names.entities@[j]) == machines0[
                        i].id.0 && icon_slot(new_machines@[i].metadata.icon) == idx@[off_entities
                        + j] + 1,
        decreases machines_rest@.len(),
    {
        let mc = machines_rest.remove(0);
        proof {
            assert(mc == machines0[new_machines@.len() as int]);
            assert(contains_str(names.entities@, mc.id.0));
        }
        let j = match find_str(&names.entities, mc.id.0) {
            Option::Some(j) => j,
            Option::None => {
                proof {
                    assert(false);
                }
                vstd::pervasive::unreached()
            },
        };
        let slot = idx[off_entities + j];
        let icon = Icon::new(slot);
        let meta = Metadata {
            localised_name: mc.metadata.localised_name,
            localised_description: mc.metadata.localised_description,
            icon: Option::Some(icon),
        };
        let ghost nm_old = new_machines@;
        new_machines.push(
            Machine {
                id: mc.id,
                metadata: meta,
                crafting_speed: mc.crafting_speed,
                energy_consumption: mc.energy_consumption,
                energy_drain: mc.energy_drain,
                module_slots: mc.module_slots,
                supported_modules: mc.supported_modules,
            },
        );
        proof {
            assert(machines_rest@ =~= machines0.subrange(
                new_machines@.len() as int,
                machines0.len() as int,
            ));
            assert forall|i2: int|
                #![trigger new_machines@[i2]]
                0 <= i2 < new_machines@.len() implies exists|j2: int|
                0 <= j2 < names.entities@.len() && (#[trigger] names.entities@[j2]) == machines0[
                    i2].id.0 && icon_slot(new_machines@[i2].metadata.icon) == idx@[off_entities
                    + j2] + 1 by {
                if i2 < new_machines@.len() - 1 {
                    assert(new_machines@[i2] == nm_old[i2]);
                    let j2 = choose|j3: int|
                        0 <= j3 < names.entities@.len() && (#[trigger] names.entities@[j3])
                            == machines0[i2].id.0 && icon_slot(nm_old[i2].metadata.icon) == idx@[
                            off_entities + j3] + 1;
                    assert(icon_slot(new_machines@[i2].metadata.icon) == idx@[off_entities + j2]
                        + 1);
                } else {
                    assert(new_machines@[i2].metadata.icon == Option::Some(icon));
                    assert(names.entities@[j as int] == machines0[i2].id.0);
                    assert(icon_slot(new_machines@[i2].metadata.icon) == idx@[off_entities
                        + j as int] + 1);
                }
            }
        }
    }
    let ghost beacons0 = beacons@;
    let mut beacons_rest = beacons;
    let mut new_beacons: Vec<Beacon> = Vec::new();
    while beacons_rest.len() > 0
        invariant
            new_beacons@.len() + beacons_rest@.len() == beacons0.len(),
            beacons_rest@ =~= beacons0.subrange(new_beacons@.len() as int, beacons0.len() as int),
            idx@.len() == total,
            unique@.len() <= total,
            total <= 65536,
            off_entities + names.entities@.len() <= total,
            forall|t: int| 0 <= t < idx@.len() ==> (#[trigger] idx@[t]) < unique@.len(),
            forall|i: int|
                0 <= i < beacons0.len() ==> contains_str(
                    names.entities@,
                    (#[trigger] beacons0[i]).id.0,
                ),
            forall|i: int|
                0 <= i < new_beacons@.len() ==> (#[trigger] new_beacons@[i]).id == beacons0[i].id
                    && new_beacons@[i].metadata.localised_name
                    == beacons0[i].metadata.localised_name && new_beacons@[
                    i].metadata.localised_description
                    == beacons0[i].metadata.localised_description && new_beacons@[
                    i].distribution_effectivity == beacons0[i].distribution_effectivity
                    && new_beacons@[i].supported_modules == beacons0[i].supported_modules && (
                new_beacons@[i].metadata.icon matches Option::Some(ic) && ic.wf()),
            forall|i: int|
                #![trigger new_beacons@[i]]
                0 <= i < new_beacons@.len() ==> exists|j: int|
                    0 <= j < names.entities@.len() && (#[trigger] names.entities@[j]) == beacons0[
                        i].id.0 && icon_slot(new_beacons@[i].metadata.icon) == idx@[off_entities
                        + j] + 1,
        decreases beacons_rest@.len(),
    {
        let bc = beacons_rest.remove(0);
        proof {
            assert(bc == beacons0[new_beacons@.len() as int]);
            assert(contains_str(names.entities@, bc.id.0));
        }
        let j = match find_str(&names.entities, bc.id.0) {
            Option::Some(j) => j,
            Option::None => {
                proof {
                    assert(false);
                }
                vstd::pervasive::unreached()
            },
        };
        let slot = idx[off_entities + j];
        let icon = Icon::new(slot);
        let meta = Metadata {
            localised_name: bc.metadata.localised_name,
            localised_description: bc.metadata.localised_description,
            icon: Option::Some(icon),
        };
        let ghost nb_old = new_beacons@;
        new_beacons.push(
            Beacon {
                id: bc.id,
                metadata: meta,
                distribution_effectivity: bc.distribution_effectivity,
                supported_modules: bc.supported_modules,
            },
        );
        proof {
            assert(beacons_rest@ =~= beacons0.subrange(
                new_beacons@.len() as int,
                beacons0.len() as int,
            ));
            assert forall|i2: int|
                #![trigger new_beacons@[i2]]
                0 <= i2 < new_beacons@.len() implies exists|j2: int|
                0 <= j2 < names.entities@.len() && (#[trigger] names.entities@[j2]) == beacons0[
                    i2].id.0 && icon_slot(new_beacons@[i2].metadata.icon) == idx@[off_entities
                    + j2] + 1 by {
                if i2 < new_beacons@.len() - 1 {
                    assert(new_beacons@[i2] == nb_old[i2]);
                    let j2 = choose|j3: int|
                        0 <= j3 < names.entities@.len() && (#[trigger] names.entities@[j3])
                            == beacons0[i2].id.0 && icon_slot(nb_old[i2].metadata.icon) == idx@[
                            off_entities + j3] + 1;
                    assert(icon_slot(new_beacons@[i2].metadata.icon) == idx@[off_entities + j2]
                        + 1);
                } else {
                    assert(new_beacons@[i2].metadata.icon == Option::Some(icon));
                    assert(names.entities@[j as int] == beacons0[i2].id.0);
                    assert(icon_slot(new_beacons@[i2].metadata.icon) == idx@[off_entities
                        + j as int] + 1);
                }
            }
        }
    }
    let gd2 = GameData {
        tile_metadata: Option::Some(tm),
        items: new_items,
        fluids: new_fluids,
        recipes: new_recipes,
        machines: new_machines,
        beacons: new_beacons,
        modules,
    };
    proof {
        assert(gd2.item_syms() =~= gd.item_syms());
        assert(gd2.fluid_syms() =~= gd.fluid_syms());
        assert(gd2.recipe_syms() =~= gd.recipe_syms());
        assert(gd2.machine_syms() =~= gd.machine_syms());
        assert(gd2.beacon_syms() =~= gd.beacon_syms());
        assert(gd2.module_syms() =~= gd.module_syms());
        let slots = slots_of(idx@);
        let count = tm.tile_count as int;
        let offf = names.items@.len() as int;
        let offr = offf + names.fluids@.len() as int;
        let offe = offr + names.recipes@.len() as int;
        assert(count == unique@.len());
        assert(slots.len() == dark@.len());
        assert forall|k: int| 0 <= k < slots.len() implies 0 <= #[trigger] slots[k] < count by {
            assert(slots[k] == idx@[k] as int);
            assert(idx@[k] < unique@.len());
        }
        assert forall|k1: int, k2: int|
            #![trigger slots[k1], slots[k2]]
            0 <= k1 < slots.len() && 0 <= k2 < slots.len() implies ((slots[k1] == slots[k2]) <==> (
        rec_of(dark@[k1], light@[k1]) == rec_of(dark@[k2], light@[k2]))) by {
            assert(combined@[k1].pixels@ == rec_of(dark@[k1], light@[k1]));
            assert(combined@[k2].pixels@ == rec_of(dark@[k2], light@[k2]));
            assert((idx@[k1] == idx@[k2]) <==> (combined@[k1].pixels@ == combined@[k2].pixels@));
            assert(slots[k1] == idx@[k1] as int && slots[k2] == idx@[k2] as int);
        }
        let reps0 = choose|reps: Seq<int>|
            covers_all_slots(reps, slots_of(idx@), unique@.len() as int);
        assert(covers_all_slots(reps0, slots_of(idx@), unique@.len() as int));
        assert(covers_all_slots(reps0, slots, count));
        assert(slot_assignment_ok(slots, dark@, light@, count));
        assert forall|i: int|
            0 <= i < gd2.items@.len() implies icon_bound(
            (#[trigger] gd2.items@[i]).metadata.icon,
            gd2.items@[i].id.0,
            names.items@,
            slots,
            0,
        ) by {
            assert(gd2.items@[i] == new_items@[i]);
            let j2 = choose|j3: int|
                0 <= j3 < names.items@.len() && (#[trigger] names.items@[j3]) == items0[i].id.0
                    && icon_slot(new_items@[i].metadata.icon) == idx@[j3] + 1;
            assert(names.items@[j2] == gd2.items@[i].id.0);
            assert(slots[0 + j2] == idx@[j2] as int);
            assert(icon_slot(gd2.items@[i].metadata.icon) == slots[0 + j2] + 1);
            assert(icon_bound(
                gd2.items@[i].metadata.icon,
                gd2.items@[i].id.0,
                names.items@,
                slots,
                0,
            ));
        }
        assert forall|i: int|
            0 <= i < gd2.fluids@.len() implies icon_bound(
            (#[trigger] gd2.fluids@[i]).metadata.icon,
            gd2.fluids@[i].id.0,
            names.fluids@,
            slots,
            offf,
        ) by {
            assert(gd2.fluids@[i] == new_fluids@[i]);
            let j2 = choose|j3: int|
                0 <= j3 < names.fluids@.len() && (#[trigger] names.fluids@[j3]) == fluids0[i].id.0
                    && icon_slot(new_fluids@[i].metadata.icon) == idx@[off_fluids + j3] + 1;
            assert(names.fluids@[j2] == gd2.fluids@[i].id.0);
            assert(off_fluids == names.items@.len());
            assert(slots[offf + j2] == idx@[off_fluids + j2] as int);
            assert(icon_slot(gd2.fluids@[i].metadata.icon) == slots[offf + j2] + 1);
            assert(icon_bound(
                gd2.fluids@[i].metadata.icon,
                gd2.fluids@[i].id.0,
                names.fluids@,
                slots,
                offf,
            ));
        }
        assert forall|i: int|
            0 <= i < gd2.recipes@.len() implies icon_bound(
            (#[trigger] gd2.recipes@[i]).metadata.icon,
            gd2.recipes@[i].id.0,
            names.recipes@,
            slots,
            offr,
        ) by {
            assert(gd2.recipes@[i] == new_recipes@[i]);
            let j2 = choose|j3: int|
                0 <= j3 < names.recipes@.len() && (#[trigger] names.recipes@[j3]) == recipes0[
                    i].id.0 && icon_slot(new_recipes@[i].metadata.icon) == idx@[off_recipes + j3]
                    + 1;
            assert(names.recipes@[j2] == gd2.recipes@[i].id.0);
            assert(off_recipes == names.items@.len() + names.fluids@.len());
            assert(slots[offr + j2] == idx@[off_recipes + j2] as int);
            assert(icon_slot(gd2.recipes@[i].metadata.icon) == slots[offr + j2] + 1);
            assert(icon_bound(
                gd2.recipes@[i].metadata.icon,
                gd2.recipes@[i].id.0,
                names.recipes@,
                slots,
                offr,
            ));
        }
        assert forall|i: int|
            0 <= i < gd2.machines@.len() implies icon_bound(
            (#[trigger] gd2.machines@[i]).metadata.icon,
            gd2.machines@[i].id.0,
            names.entities@,
            slots,
            offe,
        ) by {
            assert(gd2.machines@[i] == new_machines@[i]);
            let j2 = choose|j3: int|
                0 <= j3 < names.entities@.len() && (#[trigger] names.entities@[j3]) == machines0[
                    i].id.0 && icon_slot(new_machines@[i].metadata.icon) == idx@[off_entities + j3]
                    + 1;
            assert(names.entities@[j2] == gd2.machines@[i].id.0);
            assert(off_entities == names.items@.len() + names.fluids@.len()
                + names.recipes@.len());
            assert(slots[offe + j2] == idx@[off_entities + j2] as int);
            assert(icon_slot(gd2.machines@[i].metadata.icon) == slots[offe + j2] + 1);
            assert(icon_bound(
                gd2.machines@[i].metadata.icon,
                gd2.machines@[i].id.0,
                names.entities@,
                slots,
                offe,
            ));
        }
        assert forall|i: int|
            0 <= i < gd2.beacons@.len() implies icon_bound(
            (#[trigger] gd2.beacons@[i]).metadata.icon,
            gd2.beacons@[i].id.0,
            names.entities@,
            slots,
            offe,
        ) by {
            assert(gd2.beacons@[i] == new_beacons@[i]);
            let j2 = choose|j3: int|
                0 <= j3 < names.entities@.len() && (#[trigger] names.entities@[j3]) == beacons0[
                    i].id.0 && icon_slot(new_beacons@[i].metadata.icon) == idx@[off_entities + j3]
                    + 1;
            assert(names.entities@[j2] == gd2.beacons@[i].id.0);
            assert(off_entities == names.items@.len() + names.fluids@.len()
                + names.recipes@.len());
            assert(slots[offe + j2] == idx@[off_entities + j2] as int);
            assert(icon_slot(gd2.beacons@[i].metadata.icon) == slots[offe + j2] + 1);
            assert(icon_bound(
                gd2.beacons@[i].metadata.icon,
                gd2.beacons@[i].id.0,
                names.entities@,
                slots,
                offe,
            ));
        }
        assert forall|k: int|
            #![trigger slots[k]]
            0 <= k < slots.len() implies unique@[slots[k]].pixels@ == rec_of(
            dark@[k],
            light@[k],
        ) by {
            assert(unique@[idx@[k] as int].pixels@ == combined@[k].pixels@);
            assert(combined@[k].pixels@ == rec_of(dark@[k], light@[k]));
        }
        assert forall|pos: int|
            0 <= pos < atlas.pixels@.len() implies (#[trigger] atlas.pixels@[pos])
            == spec_atlas_byte(unique@, atlas.width as int / 32, atlas.width as int, pos) by {}
        assert(unique@.len() == count);
        assert(tiles_laid_out(unique@, slots, atlas, dark@, light@, count));
        assert(exists|tiles: Seq<RgbaImage>| tiles_laid_out(tiles, slots, atlas, dark@, light@, count));
        assert(exists|reps: Seq<int>| covers_all_slots(reps, slots, count));
        assert(icons_assigned(slots, gd2, *names, atlas, dark@, light@, count));
    }
    Ok((gd2, atlas))
}

} // verus!
