//! How the rain moves: what its formulas come to in exact numbers, up to rounding.

use crate::error_laws::apart;
use crate::error_laws::lemma_minus_error;
use crate::error_laws::lemma_over_error;
use crate::error_laws::lemma_plus_error;
use crate::error_laws::lemma_times_error;
use crate::hash::column_hash;
use crate::hash_laws::fnv;
use crate::hash_laws::lemma_column_picks;
use crate::nearest_laws::lemma_comparisons;
use crate::nearest_laws::lemma_moved_into_range;
use crate::nearest_laws::lemma_truncated;
use crate::rain_frame::column_at;
use crate::rain_frame::column_progress;
use crate::rain_frame::column_share;
use crate::rain_frame::duration_ms;
use crate::rain_frame::phase;
use crate::rain_frame::phase_max;
use crate::rain_frame::progress;
use crate::rain_frame::quantum_at;
use crate::rain_frame::smoothstep;
use crate::rain_frame::start_zoom;
use crate::rain_frame::total_lead;
use crate::rain_frame::zoom_at;
use crate::rain_frame::zoom_settle;
use crate::rain_laws::lemma_clamped;
use crate::rain_laws::lemma_column_lengths;
use crate::rain_laws::lemma_column_time;
use crate::rain_laws::lemma_fall_range;
use crate::rain_laws::lemma_phase;
use crate::rain_laws::lemma_phase_max;
use crate::rain_laws::lemma_rest_of_phase_max;
use crate::rain_laws::lemma_settle_range;
use crate::rain_laws::lemma_start_zoom;
use crate::rain_laws::lemma_stream_is_between_the_texts;
use crate::rain_laws::lemma_zoom_settle;
use crate::rain_laws::row_limit;
use crate::ramp_laws::lemma_smoothstep_error;
use crate::ramp_laws::lemma_smoothstep_range;
use crate::rounding::lemma_round_bits_zero;
use crate::rounding::lemma_round_error;
use crate::single::abs;
use crate::single::one_in_units;
use crate::single::Single;
use crate::single_laws::lemma_integer;
use crate::single_laws::lemma_integer_sum;
use crate::single_laws::lemma_over_increases;
use crate::single_laws::lemma_over_self;
use crate::single_laws::lemma_rounded;
use crate::single_laws::lemma_zero;
use vstd::arithmetic::power2::lemma2_to64;
use vstd::arithmetic::power2::lemma_pow2_adds;
use vstd::arithmetic::power2::lemma_pow2_pos;
use vstd::arithmetic::power2::lemma_pow2_strictly_increases;
use vstd::arithmetic::power2::pow2;
use vstd::prelude::*;

verus! {

/// One, in units, and how large a number may be to stay finite.
proof fn lemma_unit()
    ensures
        one_in_units() >= 0x100_0000_0000,
        pow2(200) >= 0x100_0000 * one_in_units(),
{
    lemma2_to64();
    lemma_pow2_strictly_increases(64, 149);
    lemma_pow2_adds(24, 149);
    lemma_pow2_strictly_increases(173, 200);
}

/// The transition takes 4200 milliseconds: after `elapsed` of them that part of it is
/// over, none before it began and all from its end on.
pub proof fn lemma_progress_is_the_share_of_4200(elapsed: Single)
    requires
        elapsed.is_finite(),
    ensures
        ({
            let u = one_in_units();
            let e = elapsed.value();
            let p = progress(elapsed).value();
            &&& e <= 0 ==> p == 0
            &&& e >= 4200 * u ==> p == u
            &&& 0 <= e <= 4200 * u ==> 0x100_0000 * apart(4200 * p, e) <= e + 4200 * 0x80_0000
        }),
{
    let u = one_in_units() as int;
    let e = elapsed.value();
    let d = duration_ms();
    lemma_pow2_pos(149);
    lemma_unit();
    lemma_zero();
    lemma_integer(4200);
    lemma_integer(1);
    assert(1 * u == u);
    let q = elapsed.over(d);
    lemma_over_increases(elapsed, elapsed, d);
    lemma_moved_into_range(q);
    let v = q.value();
    if e <= 0 {
        lemma_over_increases(elapsed, Single::integer(0), d);
        assert(Single::integer(0).over(d).value() == 0) by {
            reveal(Single::spec_over);
            assert(Single::integer(0).size() * (u as nat) == 0);
            lemma_round_bits_zero(0, d.size());
            lemma_rounded(false, 0, d.size());
        }
    }
    lemma_over_self(d);
    if e >= 4200 * u {
        lemma_over_increases(d, elapsed, d);
    }
    if 0 <= e <= 4200 * u {
        assert(abs(e) * u <= pow2(200) * (4200 * u)) by (nonlinear_arith)
            requires
                0 <= abs(e) <= 4200 * u,
                pow2(200) >= 0x100_0000 * u,
                u >= 0,
        ;
        lemma_over_error(elapsed, d);
        lemma_over_increases(elapsed, d, d);
        lemma_over_increases(Single::integer(0), elapsed, d);
        assert(Single::integer(0).over(d).value() == 0) by {
            reveal(Single::spec_over);
            assert(Single::integer(0).size() * (u as nat) == 0);
            lemma_round_bits_zero(0, d.size());
            lemma_rounded(false, 0, d.size());
        }
        assert(0x100_0000 * (4200 * v - e) <= e + 4200 * 0x80_0000 && 0x100_0000 * (e - 4200 * v)
            <= e + 4200 * 0x80_0000) by (nonlinear_arith)
            requires
                0x100_0000 * (v * (4200 * u) - e * u) <= e * u + 0x80_0000 * (4200 * u),
                0x100_0000 * (e * u - v * (4200 * u)) <= e * u + 0x80_0000 * (4200 * u),
                u > 0,
        ;
    }
}

/// The stream changes its glyphs every sixty milliseconds: their number is the count of
/// those that are over, up to rounding.
pub proof fn lemma_glyphs_change_every_60(elapsed: Single)
    requires
        elapsed.is_finite(),
        0 <= elapsed.value() <= 0x100_0000 * one_in_units(),
    ensures
        ({
            let u = one_in_units();
            let e = elapsed.value();
            let n = quantum_at(elapsed);
            &&& 0x100_0000 * (60 * (n * u) - e) <= e + 60 * 0x80_0000
            &&& 0x100_0000 * (e - 60 * ((n + 1) * u)) < e + 60 * 0x80_0000
        }),
{
    let u = one_in_units() as int;
    let e = elapsed.value();
    let d = Single::integer(60);
    lemma_pow2_pos(149);
    lemma_unit();
    lemma_integer(60);
    assert(abs(e) * u <= pow2(200) * (60 * u)) by (nonlinear_arith)
        requires
            0 <= abs(e) <= 0x100_0000 * u,
            pow2(200) >= 0x100_0000 * u,
            u >= 0,
    ;
    lemma_over_error(elapsed, d);
    let q = elapsed.over(d);
    let v = q.value();
    assert(0x100_0000 * (60 * v - e) <= e + 60 * 0x80_0000 && 0x100_0000 * (e - 60 * v) <= e + 60
        * 0x80_0000) by (nonlinear_arith)
        requires
            0x100_0000 * (v * (60 * u) - e * u) <= e * u + 0x80_0000 * (60 * u),
            0x100_0000 * (e * u - v * (60 * u)) <= e * u + 0x80_0000 * (60 * u),
            u > 0,
    ;
    lemma_truncated(q, u32::MAX as nat);
    assert((u32::MAX + 1) * u == 0x1_0000_0000 * u);
    let n = quantum_at(elapsed) as int;
    if v <= 0 {
        assert(n == 0);
        assert(0 * u == 0 && (0 + 1) * u == u);
    }
}

/// A column's head-start is as many four-thousandths of the transition as its hash modulo
/// a thousand says, up to rounding.
pub proof fn lemma_phase_is_by_the_hash(c: usize)
    ensures
        0x1000 * apart(
            4000 * phase(c).value(),
            (fnv((c as nat % 0x1_0000_0000) as u32, 3, 0) % 1000) as int * one_in_units(),
        ) <= one_in_units(),
{
    let u = one_in_units() as int;
    let h = (column_hash(c, 3) % 1000) as int;
    lemma_pow2_pos(149);
    lemma_unit();
    lemma_column_picks(c);
    lemma_integer(h);
    lemma_integer(1000);
    lemma_phase_max();
    let a = Single::integer(h);
    let k = Single::integer(1000);
    assert(0 <= h * u <= 1000 * u) by (nonlinear_arith)
        requires
            0 <= h <= 1000,
            u > 0,
    ;
    assert(abs(a.value()) * u <= pow2(200) * (1000 * u)) by (nonlinear_arith)
        requires
            0 <= abs(a.value()) <= 1000 * u,
            pow2(200) >= 0x100_0000 * u,
            u >= 0,
    ;
    lemma_over_error(a, k);
    let x = a.over(k).value();
    assert(0x100_0000 * (1000 * x - h * u) <= h * u + 1000 * 0x80_0000 && 0x100_0000 * (h * u
        - 1000 * x) <= h * u + 1000 * 0x80_0000) by (nonlinear_arith)
        requires
            0x100_0000 * (x * (1000 * u) - (h * u) * u) <= (h * u) * u + 0x80_0000 * (1000 * u),
            0x100_0000 * ((h * u) * u - x * (1000 * u)) <= (h * u) * u + 0x80_0000 * (1000 * u),
            u > 0,
    ;
    assert(-u <= x <= 2 * u);
    let q = phase_max().value();
    assert(abs(x * q) <= pow2(200) * u) by (nonlinear_arith)
        requires
            -u <= x <= 2 * u,
            4 * q == u,
            pow2(200) >= 0x100_0000 * u,
            abs(x * q) == if x * q < 0 {
                -(x * q)
            } else {
                x * q
            },
            u >= 0,
    ;
    lemma_times_error(a.over(k), phase_max());
    let p = phase(c).value();
    let m = abs(x * q) as int;
    assert(4 * m <= 2 * (u * u)) by (nonlinear_arith)
        requires
            m == if x * q < 0 {
                -(x * q)
            } else {
                x * q
            },
            -u <= x <= 2 * u,
            4 * q == u,
            u >= 0,
    ;
    assert(4 * (x * q) == x * u) by (nonlinear_arith)
        requires
            4 * q == u,
    ;
    assert(0x100_0000 * (4 * p - x) <= 2 * u + 0x200_0000 && 0x100_0000 * (x - 4 * p) <= 2 * u
        + 0x200_0000) by (nonlinear_arith)
        requires
            0x100_0000 * (p * u - x * q) <= m + 0x80_0000 * u,
            0x100_0000 * (x * q - p * u) <= m + 0x80_0000 * u,
            4 * m <= 2 * (u * u),
            4 * (x * q) == x * u,
            u > 0,
    ;
}

/// A number moved between two bounds.
pub open spec fn between(low: int, v: int, high: int) -> int {
    if v < low {
        low
    } else if v > high {
        high
    } else {
        v
    }
}

/// A column starts after its head-start and takes three quarters of the transition: the
/// share of its time that is over is four thirds of what is over since then, up to
/// rounding.
pub proof fn lemma_column_takes_three_quarters(c: usize, p: Single)
    requires
        p.is_finite(),
        0 <= p.value() <= one_in_units(),
    ensures
        ({
            let u = one_in_units() as int;
            0x10_0000 * apart(
                3 * column_share(c, p).value(),
                between(0, 4 * (p.value() - phase(c).value()), 3 * u),
            ) <= u
        }),
{
    let u = one_in_units() as int;
    let rest = Single::integer(1).minus(phase_max());
    let ph = phase(c);
    lemma_pow2_pos(149);
    lemma_unit();
    lemma_phase(c);
    lemma_phase_max();
    lemma_rest_of_phase_max();
    lemma_column_time(c, p);
    lemma_minus_error(p, ph);
    let gone = p.minus(ph);
    let g = gone.value();
    let d = rest.value();
    let m = abs(g) as int;
    assert(m * u <= pow2(200) * d) by (nonlinear_arith)
        requires
            0 <= m <= u,
            4 * d == 3 * u,
            pow2(200) >= 0x100_0000 * u,
            u >= 0,
    ;
    lemma_over_error(gone, rest);
    let q = gone.over(rest);
    let v = q.value();
    lemma_moved_into_range(q);
    assert(0x100_0000 * (3 * v - 4 * g) <= 4 * u + 0x180_0000 && 0x100_0000 * (4 * g - 3 * v) <= 4
        * u + 0x180_0000) by (nonlinear_arith)
        requires
            0x100_0000 * (v * d - g * u) <= m * u + 0x80_0000 * d,
            0x100_0000 * (g * u - v * d) <= m * u + 0x80_0000 * d,
            m <= u,
            4 * d == 3 * u,
            u > 0,
    ;
}

/// The old text of a column falls as far as the column has gone of its way, and the way is
/// all of its changed rows and its lead; the new text is behind it by the lead. Both up to
/// rounding. The last row that is locked in is the whole part of how far the new text is.
pub proof fn lemma_texts_fall_in_proportion(c: usize, depth: i32, fp: Single)
    requires
        0 <= depth < row_limit(),
        fp.is_finite(),
        !fp.negative(),
        fp.value() <= one_in_units(),
    ensures
        ({
            let u = one_in_units();
            let cd = column_at(c, depth, fp);
            let n = (c as nat % 0x1_0000_0000) as u32;
            let lead = 7 + fnv(n, 1, 0) % 10 + fnv(n, 2, 0) % 2 + fnv(n, 5, 0) % 2;
            let way = depth + 1 + lead;
            &&& 0x100_0000 * apart(cd.fall.value(), fp.value() * way) <= fp.value() * way
                + 0x80_0000
            &&& 0x100_0000 * apart(cd.settle.value(), cd.fall.value() - lead * u) <= abs(
                cd.fall.value() - lead * u,
            )
            &&& cd.front_row * u <= cd.settle.value() < (cd.front_row + 1) * u
            &&& cd.depth == depth
            &&& cd.matrix == 3 + fnv(n, 1, 0) % 10
            &&& cd.gap == 1 + fnv(n, 2, 0) % 2
        }),
{
    let u = one_in_units() as int;
    let cd = column_at(c, depth, fp);
    let lead = total_lead(c);
    let way = depth + 1 + lead;
    lemma_pow2_pos(149);
    lemma_unit();
    lemma_column_picks(c);
    lemma_column_lengths(c);
    lemma_integer_sum(depth as int, 1);
    lemma_integer_sum(depth + 1, lead);
    lemma_integer(way);
    lemma_integer(lead);
    lemma_fall_range(c, depth, fp);
    lemma_settle_range(c, depth, fp);
    let f = fp.value();
    assert(0 <= f * (way * u) <= pow2(200) * u && f * (way * u) == (f * way) * u)
        by (nonlinear_arith)
        requires
            0 <= f <= u,
            0 <= way <= 0x100_0000,
            pow2(200) >= 0x100_0000 * u,
            u >= 0,
    ;
    lemma_times_error(fp, Single::integer(way));
    let v = cd.fall.value();
    assert(0x100_0000 * (v - f * way) <= f * way + 0x80_0000 && 0x100_0000 * (f * way - v) <= f
        * way + 0x80_0000) by (nonlinear_arith)
        requires
            0x100_0000 * (v * u - (f * way) * u) <= (f * way) * u + 0x80_0000 * u,
            0x100_0000 * ((f * way) * u - v * u) <= (f * way) * u + 0x80_0000 * u,
            u > 0,
    ;
    lemma_stream_is_between_the_texts(c, depth, fp);
}

/// The zoom starts at 1.21 and settles over 0.35 of the transition: the constants, up to
/// rounding.
pub proof fn lemma_zoom_constants()
    ensures
        0x100_0000 * apart(100 * start_zoom().value(), 121 * (one_in_units() as int)) <= 122
            * one_in_units(),
        0x100_0000 * apart(100 * zoom_settle().value(), 35 * (one_in_units() as int)) <= 36
            * one_in_units(),
        4 * phase_max().value() == one_in_units(),
        duration_ms().value() == 4200 * one_in_units(),
{
    let u = one_in_units();
    lemma_unit();
    lemma_pow2_pos(149);
    lemma_start_zoom();
    lemma_zoom_settle();
    lemma_phase_max();
    lemma_integer(4200);
    reveal(Single::fraction);
    lemma_rounded(false, 121 * u, 100);
    lemma_rounded(false, 35 * u, 100);
    lemma_round_error(121 * u, 100);
    lemma_round_error(35 * u, 100);
}

/// The glyphs are larger than normal by what is left of the zoom's ramp: `start` times its
/// rest, up to rounding. `t` is the share of the ramp that is over.
pub proof fn lemma_zoom_is_the_rest_of_its_ramp(p: Single)
    requires
        p.is_finite(),
        0 <= p.value() <= one_in_units(),
    ensures
        ({
            let u = one_in_units() as int;
            let t = p.over(zoom_settle()).clamped();
            let way = start_zoom().value() - u;
            let r = smoothstep(t).value();
            &&& 0x8_0000 * apart(zoom_at(p).value() * u, start_zoom().value() * u - way * r) <= u * u
            &&& 0x10_0000 * apart(r * (u * u), t.value() * t.value() * (3 * u - 2 * t.value())) <= u
                * u * u
            &&& 0x10_0000 * apart(
                t.value() * zoom_settle().value(),
                between(0, p.value() * u, u * zoom_settle().value()),
            ) <= u * u
        }),
{
    let u = one_in_units() as int;
    let z = zoom_settle();
    let s = start_zoom();
    let rest = Single::integer(1).minus(s);
    lemma_pow2_pos(149);
    lemma_unit();
    lemma_zero();
    lemma_zoom_settle();
    lemma_start_zoom();
    let d = z.value();
    let pv = p.value();
    assert(abs(pv) * u <= pow2(200) * d) by (nonlinear_arith)
        requires
            0 <= abs(pv) <= u,
            4 * d >= u,
            pow2(200) >= 0x100_0000 * u,
            u >= 0,
    ;
    lemma_over_error(p, z);
    let q = p.over(z);
    lemma_moved_into_range(q);
    lemma_over_increases(p, p, z);
    lemma_clamped(q, q);
    let t = q.clamped();
    lemma_smoothstep_range(t);
    lemma_smoothstep_error(t);
    // The share.
    let v = q.value();
    assert(0 <= pv * u <= u * u && 0x80_0000 * d <= u * u) by (nonlinear_arith)
        requires
            0 <= pv <= u,
            0 <= d <= u,
            0x80_0000 <= u,
    ;
    assert(v < 0 ==> v * d <= 0) by (nonlinear_arith)
        requires
            d > 0,
    ;
    assert(v > u ==> v * d >= u * d) by (nonlinear_arith)
        requires
            d > 0,
    ;
    assert(0 <= v <= u ==> 0 <= v * d <= u * d) by (nonlinear_arith)
        requires
            d > 0,
    ;
    let tv = t.value();
    assert((tv == 0 ==> tv * d == 0) && (tv == u ==> tv * d == u * d) && (tv == v ==> tv * d == v
        * d)) by (nonlinear_arith);
    assert(0x10_0000 * apart(tv * d, between(0, pv * u, u * d)) <= u * u);
    assert(u * u * u >= 0) by (nonlinear_arith)
        requires
            u >= 0,
    ;
    // The zoom.
    let r = smoothstep(t).value();
    let k = -rest.value();
    assert(rest.value() * r == -(k * r) && 0 <= k * r <= u * u && u * u <= pow2(200) * u)
        by (nonlinear_arith)
        requires
            k == -rest.value(),
            0 <= k <= u,
            0 <= r <= u,
            pow2(200) >= u,
    ;
    lemma_times_error(rest, smoothstep(t));
    let w = rest.times(smoothstep(t));
    let wv = w.value();
    assert(-(2 * u) <= wv <= 2 * u) by (nonlinear_arith)
        requires
            0x100_0000 * (wv * u + k * r) <= k * r + 0x80_0000 * u,
            -(0x100_0000 * (wv * u + k * r)) <= k * r + 0x80_0000 * u,
            0 <= k * r <= u * u,
            0x1000_0000 <= u,
    ;
    lemma_plus_error(s, w);
    let zv = zoom_at(p).value();
    let sum = s.value() + wv;
    assert(0x100_0000 * (zv - sum) <= 4 * u && -(0x100_0000 * (zv - sum)) <= 4 * u);
    assert(0x8_0000 * (zv * u - s.value() * u + k * r) <= u * u && 0x8_0000 * (s.value() * u - k * r
        - zv * u) <= u * u) by (nonlinear_arith)
        requires
            0x100_0000 * (zv - sum) <= 4 * u,
            -(0x100_0000 * (zv - sum)) <= 4 * u,
            sum == s.value() + wv,
            0x100_0000 * (wv * u + k * r) <= k * r + 0x80_0000 * u,
            -(0x100_0000 * (wv * u + k * r)) <= k * r + 0x80_0000 * u,
            0 <= k * r <= u * u,
            0x1000_0000 <= u,
    ;
    assert((s.value() - u) * r == k * r);
}

/// A transition is over from 4200 milliseconds on, and not before.
pub proof fn lemma_rain_expires(elapsed: Single)
    ensures
        elapsed.at_least(duration_ms()) <==> !elapsed.is_nan() && elapsed.value() >= 4200
            * one_in_units(),
{
    lemma_integer(4200);
    lemma_comparisons(elapsed, duration_ms());
}

/// A column at any depth: what its texts are computed from.
pub proof fn lemma_column_at_any_depth(c: usize, depth: i32, fp: Single)
    ensures
        ({
            let cd = column_at(c, depth, fp);
            let n = (c as nat % 0x1_0000_0000) as u32;
            let lead = Single::integer(
                (7 + fnv(n, 1, 0) % 10 + fnv(n, 2, 0) % 2 + fnv(n, 5, 0) % 2) as int,
            );
            &&& cd.fall == fp.times(
                Single::integer(depth as int).plus(Single::integer(1)).plus(lead),
            )
            &&& cd.settle == cd.fall.minus(lead)
            &&& cd.front_row == cd.settle.floor_to_i32()
            &&& cd.depth == depth
            &&& cd.matrix == 3 + fnv(n, 1, 0) % 10
            &&& cd.gap == 1 + fnv(n, 2, 0) % 2
        }),
{
    lemma_column_picks(c);
}

/// The glyphs of the stream at any time.
pub proof fn lemma_glyphs_at_any_time(elapsed: Single)
    ensures
        quantum_at(elapsed) == elapsed.over(Single::integer(60)).truncated(u32::MAX as nat),
{
    lemma_truncated(elapsed.over(Single::integer(60)), u32::MAX as nat);
}

/// How the motion is computed at any time, step by step: the order of the operations counts
/// where they are rounded.
pub proof fn lemma_motion_is_computed(c: usize, elapsed: Single, p: Single, t: Single)
    ensures
        ({
            let one = Single::integer(1);
            let quarter = Single::fraction(1, 4);
            let large = Single::fraction(121, 100);
            let n = (c as nat % 0x1_0000_0000) as u32;
            let start = Single::integer((fnv(n, 3, 0) % 1000) as int).over(
                Single::integer(1000),
            ).times(quarter);
            let ease = t.times(t).times(Single::integer(3).minus(Single::integer(2).times(t)));
            let share = p.minus(start).over(one.minus(quarter)).clamped();
            let settled = p.over(Single::fraction(35, 100)).clamped();
            &&& progress(elapsed) == elapsed.over(Single::integer(4200)).clamped()
            &&& smoothstep(t) == ease
            &&& phase(c) == start
            &&& column_share(c, p) == share
            &&& column_progress(c, p) == smoothstep(share)
            &&& zoom_at(p) == large.plus(one.minus(large).times(smoothstep(settled)))
        }),
{
    lemma_column_picks(c);
}

} // verus!
