//! What holds of two frames of a transition, one after the other.
//!
//! The ramp of a column is computed in single precision, so that from one instant to
//! the very next it can fall back by a rounding step. Over four milliseconds it does
//! not, which is a quarter of the time between two frames; and it never falls back by
//! much.

use crate::error_laws::apart;
use crate::error_laws::lemma_minus_error;
use crate::error_laws::lemma_over_error;
use crate::error_laws::lemma_plus_error;
use crate::error_laws::lemma_times_error;
use crate::rain_frame::column_at;
use crate::rain_frame::column_in_frame;
use crate::rain_frame::column_progress;
use crate::rain_frame::column_share;
use crate::rain_frame::duration_ms;
use crate::rain_frame::mask_top;
use crate::rain_frame::phase;
use crate::rain_frame::phase_max;
use crate::rain_frame::progress;
use crate::rain_frame::smoothstep;
use crate::rain_frame::start_zoom;
use crate::rain_frame::total_lead;
use crate::rain_frame::zoom_at;
use crate::rain_frame::zoom_settle;
use crate::rain_frame::FrameSetup;
use crate::rain_laws::lemma_clamped;
use crate::rain_laws::lemma_column_lengths;
use crate::rain_laws::lemma_column_progress;
use crate::rain_laws::lemma_column_time;
use crate::rain_laws::lemma_columns_arrive;
use crate::rain_laws::lemma_fall_range;
use crate::rain_laws::lemma_front_descends;
use crate::rain_laws::lemma_phase;
use crate::rain_laws::lemma_phase_max;
use crate::rain_laws::lemma_progress_advances;
use crate::rain_laws::lemma_rest_of_phase_max;
use crate::rain_laws::lemma_settle_range;
use crate::rain_laws::lemma_start_zoom;
use crate::rain_laws::lemma_zoom_range;
use crate::rain_laws::lemma_zoom_settle;
use crate::rain_laws::lemma_zoom_settles;
use crate::rain_laws::row_limit;
use crate::ramp_laws::lemma_ramp_falls_back_little;
use crate::ramp_laws::lemma_ramp_rises;
use crate::ramp_laws::lemma_smoothstep_one;
use crate::ramp_laws::lemma_smoothstep_range;
use crate::ramp_laws::lemma_smoothstep_zero;
use crate::rounding::lemma_round_bits_zero;
use crate::single::abs;
use crate::single::one_in_units;
use crate::single::Single;
use crate::single_laws::lemma_integer;
use crate::single_laws::lemma_integer_sum;
use crate::single_laws::lemma_negated;
use crate::single_laws::lemma_one_times;
use crate::single_laws::lemma_over_increases;
use crate::single_laws::lemma_over_self;
use crate::single_laws::lemma_plus_commutes;
use crate::single_laws::lemma_plus_increases;
use crate::single_laws::lemma_rounded;
use crate::single_laws::lemma_same_value;
use crate::single_laws::lemma_times_increases;
use crate::single_laws::lemma_zero;
use crate::single_laws::lemma_zero_times;
use crate::term_window::TabSwitchAnim;
use vstd::arithmetic::power2::lemma2_to64;
use vstd::arithmetic::power2::lemma_pow2_adds;
use vstd::arithmetic::power2::lemma_pow2_pos;
use vstd::arithmetic::power2::lemma_pow2_strictly_increases;
use vstd::arithmetic::power2::pow2;
use vstd::prelude::*;

verus! {

/// How long after an instant a later one is safely later, in milliseconds.
pub const SAFE_MILLIS: u64 = 4;

/// The share of a column's time that is over never decreases with time.
pub proof fn lemma_share_advances(c: usize, a: Single, b: Single)
    requires
        a.is_finite(),
        b.is_finite(),
        a.value() <= b.value(),
    ensures
        column_share(c, progress(a)).is_finite(),
        column_share(c, progress(b)).is_finite(),
        0 <= column_share(c, progress(a)).value() <= column_share(c, progress(b)).value()
            <= one_in_units(),
{
    let pa = progress(a);
    let pb = progress(b);
    let rest = Single::integer(1).minus(phase_max());
    let ph = phase(c);
    lemma_progress_advances(a, b);
    lemma_rest_of_phase_max();
    lemma_phase(c);
    lemma_negated(ph);
    lemma_plus_increases(pa, pb, ph.negated());
    lemma_column_time(c, pa);
    lemma_column_time(c, pb);
    lemma_over_increases(pa.minus(ph), pb.minus(ph), rest);
    lemma_clamped(pa.minus(ph).over(rest), pb.minus(ph).over(rest));
}

/// One, in units, is 2^24 times the 2^125 that the steps here are counted in.
proof fn lemma_unit()
    ensures
        one_in_units() == 0x100_0000 * pow2(125),
        pow2(125) >= 0x100_0000,
        pow2(200) >= 0x100_0000 * one_in_units(),
{
    lemma2_to64();
    lemma_pow2_adds(24, 125);
    lemma_pow2_strictly_increases(24, 125);
    lemma_pow2_adds(24, 149);
    lemma_pow2_strictly_increases(173, 200);
}

/// A quotient of numbers up to one by a number, before it is clamped, from its error.
proof fn lemma_quotient_step(e: int, ga: int, gb: int, d: int, qa: int, qb: int, gain: int)
    requires
        e >= 0x100_0000,
        d > 0,
        abs(ga) <= 0x100_0000 * e,
        abs(gb) <= 0x100_0000 * e,
        gb - ga >= gain,
        0x100_0000 * apart(qa * d, ga * (0x100_0000 * e)) <= abs(ga) * (0x100_0000 * e) + 0x80_0000
            * d,
        0x100_0000 * apart(qb * d, gb * (0x100_0000 * e)) <= abs(gb) * (0x100_0000 * e) + 0x80_0000
            * d,
    ensures
        (qb - qa + 1) * d >= (gain - 2 * e) * (0x100_0000 * e),
{
    let u = 0x100_0000 * e;
    assert(abs(ga) * u <= u * u && abs(gb) * u <= u * u) by (nonlinear_arith)
        requires
            abs(ga) <= u,
            abs(gb) <= u,
            u >= 0,
    ;
    assert(u * u == 0x100_0000 * (e * u)) by (nonlinear_arith)
        requires
            u == 0x100_0000 * e,
    ;
    assert(gb * u - ga * u >= gain * u) by (nonlinear_arith)
        requires
            gb - ga >= gain,
            u >= 0,
    ;
    assert((qb - qa + 1) * d == qb * d - qa * d + d) by (nonlinear_arith);
    assert((gain - 2 * e) * u == gain * u - 2 * (e * u)) by (nonlinear_arith);
}

/// What is over of the transition grows over four milliseconds.
proof fn lemma_progress_step(a: Single, b: Single)
    requires
        a.is_finite(),
        b.is_finite(),
        0 <= a.value(),
        a.value() + SAFE_MILLIS * one_in_units() <= b.value(),
        b.value() <= 4200 * one_in_units(),
    ensures
        progress(b).value() - progress(a).value() >= 15975 * pow2(125),
{
    let u = one_in_units() as int;
    let e = pow2(125) as int;
    let d = duration_ms();
    lemma_pow2_pos(149);
    lemma_unit();
    lemma_integer(4200);
    lemma_progress_advances(a, b);
    assert(abs(a.value()) * u <= pow2(200) * (4200 * u) && abs(b.value()) * u <= pow2(200) * (4200
        * u)) by (nonlinear_arith)
        requires
            abs(a.value()) <= 4200 * u,
            abs(b.value()) <= 4200 * u,
            pow2(200) >= u,
            u >= 0,
    ;
    lemma_over_error(a, d);
    lemma_over_error(b, d);
    let pa = a.over(d);
    let pb = b.over(d);
    let (va, vb) = (pa.value(), pb.value());
    // Within the transition nothing is clamped but a zero.
    lemma_over_increases(b, d, d);
    lemma_over_self(d);
    lemma_integer(1);
    assert(1 * u == u);
    lemma_over_increases(a, b, d);
    assert(va >= 0) by {
        reveal(Single::spec_over);
        lemma_zero();
        lemma_rounded(a.negative(), a.size() * (u as nat), d.size());
        if a.negative() {
            assert(a.size() == 0);
            assert(a.size() * (u as nat) == 0);
            lemma_round_bits_zero(0, d.size());
        }
    }
    assert(progress(a).value() == va && progress(b).value() == vb) by {
        reveal(Single::spec_clamped);
    }
    assert(0 <= a.value() * u <= 4200 * (u * u) && 0 <= b.value() * u <= 4200 * (u * u))
        by (nonlinear_arith)
        requires
            0 <= a.value() <= 4200 * u,
            0 <= b.value() <= 4200 * u,
            u >= 0,
    ;
    assert(u * u == 0x100_0000 * (e * u)) by (nonlinear_arith)
        requires
            u == 0x100_0000 * e,
    ;
    assert(b.value() * u - a.value() * u >= 4 * (u * u)) by (nonlinear_arith)
        requires
            a.value() + 4 * u <= b.value(),
            u >= 0,
    ;
    assert(vb * (4200 * u) - va * (4200 * u) == 4200 * (vb * u - va * u)) by (nonlinear_arith);
    assert(4200 * (vb * u - va * u) >= 0x400_0000 * (e * u) - 8400 * (e * u) - 4200 * u);
    assert(vb - va >= 15975 * e) by (nonlinear_arith)
        requires
            4200 * (vb * u - va * u) >= 0x400_0000 * (e * u) - 8400 * (e * u) - 4200 * u,
            e >= 0x100_0000,
            u > 0,
    ;
}

/// Over four milliseconds a column goes on: it does not fall back on its way.
pub proof fn lemma_column_advances(c: usize, a: Single, b: Single)
    requires
        a.is_finite(),
        b.is_finite(),
        0 <= a.value(),
        a.value() + SAFE_MILLIS * one_in_units() <= b.value(),
    ensures
        column_progress(c, progress(a)).value() <= column_progress(c, progress(b)).value(),
{
    let u = one_in_units() as int;
    let e = pow2(125) as int;
    let pa = progress(a);
    let pb = progress(b);
    let rest = Single::integer(1).minus(phase_max());
    let ph = phase(c);
    lemma_pow2_pos(149);
    lemma_unit();
    lemma_zero();
    lemma_integer(1);
    assert(1 * u == u);
    lemma_progress_advances(a, b);
    lemma_share_advances(c, a, b);
    lemma_column_progress(c, pa);
    lemma_column_progress(c, pb);
    let ta = column_share(c, pa);
    let tb = column_share(c, pb);
    if b.value() > 4200 * u {
        lemma_progress_is_all(b);
        lemma_columns_arrive(c);
    } else {
        lemma_progress_step(a, b);
        lemma_phase(c);
        lemma_phase_max();
        lemma_rest_of_phase_max();
        lemma_column_time(c, pa);
        lemma_column_time(c, pb);
        let ga = pa.minus(ph);
        let gb = pb.minus(ph);
        lemma_minus_error(pa, ph);
        lemma_minus_error(pb, ph);
        assert(gb.value() - ga.value() >= 15973 * e);
        let d = rest.value();
        assert(abs(ga.value()) * u <= pow2(200) * d && abs(gb.value()) * u <= pow2(200) * d)
            by (nonlinear_arith)
            requires
                0 <= abs(ga.value()) <= u,
                0 <= abs(gb.value()) <= u,
                4 * d == 3 * u,
                pow2(200) >= 0x100_0000 * u,
                u >= 0,
        ;
        lemma_over_error(ga, rest);
        lemma_over_error(gb, rest);
        let qa = ga.over(rest);
        let qb = gb.over(rest);
        lemma_quotient_step(e, ga.value(), gb.value(), d, qa.value(), qb.value(), 15973 * e);
        assert(qb.value() - qa.value() >= 16384 * e) by (nonlinear_arith)
            requires
                (qb.value() - qa.value() + 1) * d >= (15971 * e) * u,
                4 * d == 3 * u,
                u > 0,
                e >= 0x100_0000,
        ;
        assert(ta == qa.clamped() && tb == qb.clamped());
        lemma_shares_apart(qa, qb);
    }
}

/// Shares that are 2^-10 apart before they are clamped are in order on the ramp.
proof fn lemma_shares_apart(qa: Single, qb: Single)
    requires
        qa.is_finite(),
        qb.is_finite(),
        qb.value() - qa.value() >= 16384 * pow2(125),
    ensures
        smoothstep(qa.clamped()).value() <= smoothstep(qb.clamped()).value(),
{
    let u = one_in_units() as int;
    lemma_pow2_pos(149);
    lemma_pow2_pos(125);
    lemma_unit();
    lemma_zero();
    lemma_clamped(qa, qb);
    let ta = qa.clamped();
    let tb = qb.clamped();
    lemma_smoothstep_range(ta);
    lemma_smoothstep_range(tb);
    if ta.value() == 0 {
        lemma_smoothstep_zero(ta);
    } else if tb.value() == u {
        lemma_integer(1);
        assert(1 * u == u);
        lemma_same_value(tb, Single::integer(1));
        lemma_smoothstep_one();
    } else {
        lemma_one_times(Single::integer(0));
        assert(ta == qa && tb == qb) by {
            reveal(Single::spec_clamped);
            lemma_integer(1);
        }
        lemma_ramp_rises(ta, tb);
    }
}

/// After the end of the transition all of it is over.
proof fn lemma_progress_is_all(b: Single)
    requires
        b.is_finite(),
        b.value() >= 4200 * one_in_units(),
    ensures
        progress(b) == Single::integer(1),
{
    let u = one_in_units() as int;
    let d = duration_ms();
    lemma_pow2_pos(149);
    lemma_zero();
    lemma_integer(4200);
    lemma_integer(1);
    assert(1 * u == u);
    lemma_one_times(Single::integer(0));
    lemma_over_increases(d, b, d);
    lemma_over_self(d);
    reveal(Single::spec_clamped);
    if b.over(d).value() == u {
        lemma_same_value(b.over(d), Single::integer(1));
    }
}

/// What has slid into place stays: of two frames of a transition over the same rows, the
/// second at least four milliseconds after the first, no row that the first shows as it
/// is gets covered by the second. The front of no column goes back up.
pub proof fn lemma_placed_rows_stay(
    anim: TabSwitchAnim,
    first: FrameSetup,
    second: FrameSetup,
    a: Single,
    b: Single,
    c: usize,
)
    requires
        anim.wf(),
        c < anim.cols,
        anim.rows <= row_limit(),
        0 < first.rows <= anim.rows,
        second.rows == first.rows,
        first.progress == progress(a),
        second.progress == progress(b),
        a.is_finite(),
        b.is_finite(),
        0 <= a.value(),
        a.value() + SAFE_MILLIS * one_in_units() <= b.value(),
    ensures
        ({
            let before = column_in_frame(anim, first, c);
            let after = column_in_frame(anim, second, c);
            before.depth >= 0 ==> {
                &&& before.fall.value() <= after.fall.value()
                &&& before.settle.value() <= after.settle.value()
                &&& before.front_row <= after.front_row
                &&& mask_top(before) <= mask_top(after)
            }
        }),
{
    let depth = column_in_frame(anim, first, c).depth;
    assert(-1 <= anim.depth@[c as int] < anim.rows);
    if depth >= 0 {
        lemma_progress_advances(a, b);
        lemma_column_progress(c, progress(a));
        lemma_column_progress(c, progress(b));
        lemma_column_advances(c, a, b);
        lemma_front_descends(
            c,
            depth,
            column_progress(c, progress(a)),
            column_progress(c, progress(b)),
        );
    }
}

/// The errors of a column's fall and settle, put together.
proof fn lemma_fall_back(u: int, w: int, l: int, ra: int, rb: int, fa: int, fb: int, sa: int, sb: int)
    requires
        0x100_0000 <= u <= w,
        0 <= ra <= u,
        0 <= rb <= u,
        0x10_0000 * (ra - rb) <= u,
        0x100_0000 * apart(fa * u, ra * w) <= ra * w + 0x80_0000 * u,
        0x100_0000 * apart(fb * u, rb * w) <= rb * w + 0x80_0000 * u,
        abs(fa - l) <= w,
        abs(fb - l) <= w,
        0x100_0000 * apart(sa, fa - l) <= abs(fa - l),
        0x100_0000 * apart(sb, fb - l) <= abs(fb - l),
    ensures
        0x8_0000 * (sa - sb) <= w,
{
    let n: int = 0x100_0000;
    assert(0x10_0000 * (ra * w - rb * w) <= u * w) by (nonlinear_arith)
        requires
            0x10_0000 * (ra - rb) <= u,
            w >= 0,
    ;
    assert(ra * w <= u * w && rb * w <= u * w) by (nonlinear_arith)
        requires
            ra <= u,
            rb <= u,
            w >= 0,
    ;
    assert(n * (fa * u - fb * u) <= 18 * (u * w) + n * u);
    assert(n * (fa - fb) <= 18 * w + n) by (nonlinear_arith)
        requires
            n * (fa * u - fb * u) <= 18 * (u * w) + n * u,
            u > 0,
    ;
    assert(n * (sa - sb) <= 20 * w + n);
}

/// From one instant to any later one, the texts of a column fall back by less than 2^-19
/// of its way, if at all. On a screen of up to half a million rows that is less than a
/// row, so that at most the row that is locking in is covered again, and a row that has
/// been in place for more than that stays.
pub proof fn lemma_columns_fall_back_little(c: usize, depth: i32, a: Single, b: Single)
    requires
        0 <= depth < row_limit(),
        a.is_finite(),
        b.is_finite(),
        a.value() <= b.value(),
    ensures
        ({
            let before = column_at(c, depth, column_progress(c, progress(a)));
            let after = column_at(c, depth, column_progress(c, progress(b)));
            let way = (depth + 1 + total_lead(c)) * one_in_units();
            &&& 0x8_0000 * (before.settle.value() - after.settle.value()) <= way
            &&& depth + 1 + total_lead(c) <= 0x8_0000 ==> {
                &&& before.front_row <= after.front_row + 1
                &&& mask_top(before) <= mask_top(after) + 1
            }
            &&& forall|r: int|
                0x8_0000 * (before.settle.value() - #[trigger] (r * one_in_units())) >= way
                    ==> after.front_row >= r
        }),
{
    let u = one_in_units() as int;
    let lead = total_lead(c);
    let ra = column_progress(c, progress(a));
    let rb = column_progress(c, progress(b));
    let before = column_at(c, depth, ra);
    let after = column_at(c, depth, rb);
    let w = (depth + 1 + lead) * u;
    let way = Single::integer(depth + 1 + lead);
    let l = Single::integer(lead);
    lemma_pow2_pos(149);
    lemma_unit();
    lemma_column_lengths(c);
    lemma_progress_advances(a, b);
    lemma_share_advances(c, a, b);
    lemma_column_progress(c, progress(a));
    lemma_column_progress(c, progress(b));
    lemma_ramp_falls_back_little(column_share(c, progress(a)), column_share(c, progress(b)));
    lemma_integer_sum(depth as int, 1);
    lemma_integer_sum(depth + 1, lead);
    lemma_integer(depth + 1 + lead);
    lemma_integer(lead);
    lemma_fall_range(c, depth, ra);
    lemma_fall_range(c, depth, rb);
    lemma_settle_range(c, depth, ra);
    lemma_settle_range(c, depth, rb);
    assert(u <= w <= 0x100_0000 * u && 0 <= lead * u <= w) by (nonlinear_arith)
        requires
            w == (depth + 1 + lead) * u,
            1 <= depth + 1 + lead <= 0x100_0000,
            0 <= lead,
            0 <= depth,
            u > 0,
    ;
    assert(0 <= ra.value() * w <= pow2(200) * u && 0 <= rb.value() * w <= pow2(200) * u)
        by (nonlinear_arith)
        requires
            0 <= ra.value() <= u,
            0 <= rb.value() <= u,
            0 <= w <= pow2(200),
    ;
    lemma_times_error(ra, way);
    lemma_times_error(rb, way);
    lemma_minus_error(before.fall, l);
    lemma_minus_error(after.fall, l);
    lemma_fall_back(
        u,
        w,
        lead * u,
        ra.value(),
        rb.value(),
        before.fall.value(),
        after.fall.value(),
        before.settle.value(),
        after.settle.value(),
    );
    let (sa, sb) = (before.settle.value(), after.settle.value());
    let (fa, fb) = (before.front_row as int, after.front_row as int);
    if depth + 1 + lead <= 0x8_0000 {
        assert(sa - sb <= u) by (nonlinear_arith)
            requires
                0x8_0000 * (sa - sb) <= (depth + 1 + lead) * u,
                depth + 1 + lead <= 0x8_0000,
                u > 0,
        ;
        assert(fa <= fb + 1) by (nonlinear_arith)
            requires
                fa * u <= sa,
                sb < (fb + 1) * u,
                sa - sb <= u,
                u > 0,
        ;
    }
    assert forall|r: int| 0x8_0000 * (sa - #[trigger] (r * one_in_units())) >= w implies fb
        >= r by {
        assert(fb >= r) by (nonlinear_arith)
            requires
                r * u <= sb,
                sb < (fb + 1) * u,
                u > 0,
        ;
    }
}

/// The zoom of an earlier and a later share of its ramp.
proof fn lemma_zoom_order(a: Single, b: Single)
    requires
        a.is_finite(),
        b.is_finite(),
        !a.negative(),
        !b.negative(),
        a.value() <= b.value() <= one_in_units(),
    ensures
        ({
            let rest = Single::integer(1).minus(start_zoom());
            start_zoom().plus(rest.times(b)).value() <= start_zoom().plus(rest.times(a)).value()
        }),
{
    let u = one_in_units();
    let s = start_zoom();
    let rest = Single::integer(1).minus(s);
    lemma_pow2_pos(149);
    lemma_unit();
    lemma_start_zoom();
    lemma_negated(rest);
    lemma_times_increases(a, b, rest.negated());
    lemma_times_negated(rest, a);
    lemma_times_negated(rest, b);
    assert(abs(rest.value() * a.value()) <= pow2(200) * u && abs(rest.value() * b.value())
        <= pow2(200) * u) by (nonlinear_arith)
        requires
            -(u as int) <= rest.value() <= 0,
            0 <= a.value() <= u,
            0 <= b.value() <= u,
            pow2(200) >= u,
    ;
    lemma_times_error(rest, a);
    lemma_times_error(rest, b);
    lemma_plus_commutes(s, rest.times(a));
    lemma_plus_commutes(s, rest.times(b));
    lemma_plus_increases(rest.times(b), rest.times(a), s);
}

/// A product by a number with the other sign has the other sign.
proof fn lemma_times_negated(rest: Single, t: Single)
    requires
        rest.is_finite(),
        t.is_finite(),
    ensures
        rest.times(t).value() == -t.times(rest.negated()).value(),
{
    let u = one_in_units();
    lemma_pow2_pos(149);
    lemma_negated(rest);
    reveal(Single::spec_times);
    lemma_rounded(rest.negative() != t.negative(), rest.size() * t.size(), u);
    lemma_rounded(t.negative() != rest.negated().negative(), t.size() * rest.size(), u);
    assert(rest.size() * t.size() == t.size() * rest.size()) by (nonlinear_arith);
}

/// Over four milliseconds the glyphs do not grow.
pub proof fn lemma_zoom_shrinks(a: Single, b: Single)
    requires
        a.is_finite(),
        b.is_finite(),
        0 <= a.value(),
        a.value() + SAFE_MILLIS * one_in_units() <= b.value(),
    ensures
        zoom_at(progress(b)).value() <= zoom_at(progress(a)).value(),
{
    let u = one_in_units() as int;
    let e = pow2(125) as int;
    let z = zoom_settle();
    let pa = progress(a);
    let pb = progress(b);
    lemma_pow2_pos(149);
    lemma_unit();
    lemma_zoom_settle();
    lemma_progress_advances(a, b);
    lemma_over_increases(pa, pb, z);
    let qa = pa.over(z);
    let qb = pb.over(z);
    lemma_clamped(qa, qb);
    lemma_smoothstep_range(qa.clamped());
    lemma_smoothstep_range(qb.clamped());
    if b.value() > 4200 * u {
        lemma_progress_is_all(b);
        lemma_integer(1);
        assert(1 * u == u);
        lemma_zoom_settles(pb);
        lemma_zoom_range(pa);
    } else {
        lemma_progress_step(a, b);
        let d = z.value();
        assert(abs(pa.value()) * u <= pow2(200) * d && abs(pb.value()) * u <= pow2(200) * d)
            by (nonlinear_arith)
            requires
                0 <= abs(pa.value()) <= u,
                0 <= abs(pb.value()) <= u,
                4 * d >= u,
                pow2(200) >= 0x100_0000 * u,
                u >= 0,
        ;
        lemma_over_error(pa, z);
        lemma_over_error(pb, z);
        lemma_quotient_step(e, pa.value(), pb.value(), d, qa.value(), qb.value(), 15975 * e);
        assert(qb.value() - qa.value() >= 16384 * e) by (nonlinear_arith)
            requires
                (qb.value() - qa.value() + 1) * d >= (15973 * e) * u,
                0 < 2 * d <= u,
                u > 0,
                e >= 0x100_0000,
        ;
        lemma_shares_apart(qa, qb);
        lemma_zoom_order(smoothstep(qa.clamped()), smoothstep(qb.clamped()));
    }
}

/// The errors of the zoom, put together.
proof fn lemma_zoom_errors(u: int, s: int, k: int, ta: int, tb: int, wa: int, wb: int, za: int, zb: int)
    requires
        0x100_0000 <= u,
        u <= s <= 2 * u,
        0 <= k <= u,
        0 <= ta <= u,
        0 <= tb <= u,
        0x10_0000 * (ta - tb) <= u,
        -k <= wa <= 0,
        -k <= wb <= 0,
        0x100_0000 * apart(wa * u, -k * ta) <= k * ta + 0x80_0000 * u,
        0x100_0000 * apart(wb * u, -k * tb) <= k * tb + 0x80_0000 * u,
        0x100_0000 * apart(za, s + wa) <= abs(s + wa),
        0x100_0000 * apart(zb, s + wb) <= abs(s + wb),
    ensures
        0x8_0000 * (zb - za) <= u,
{
    let n: int = 0x100_0000;
    assert(-k * ta == -(k * ta) && -k * tb == -(k * tb)) by (nonlinear_arith);
    assert(0 <= k * ta <= u * u && 0 <= k * tb <= u * u) by (nonlinear_arith)
        requires
            0 <= k <= u,
            0 <= ta <= u,
            0 <= tb <= u,
    ;
    assert(0x10_0000 * (k * ta - k * tb) <= u * u) by (nonlinear_arith)
        requires
            0x10_0000 * (ta - tb) <= u,
            0 <= k <= u,
            u >= 0,
    ;
    assert(n * (wb * u - wa * u) <= 18 * (u * u) + n * u);
    assert(n * (wb - wa) <= 18 * u + n) by (nonlinear_arith)
        requires
            n * (wb * u - wa * u) <= 18 * (u * u) + n * u,
            u > 0,
    ;
    assert(n * (zb - za) <= 22 * u + n);
}

/// From one instant to any later one, the glyphs grow by less than 2^-19 of their normal
/// size, if at all.
pub proof fn lemma_zoom_grows_little(a: Single, b: Single)
    requires
        a.is_finite(),
        b.is_finite(),
        a.value() <= b.value(),
    ensures
        0x8_0000 * (zoom_at(progress(b)).value() - zoom_at(progress(a)).value())
            <= one_in_units(),
{
    let u = one_in_units() as int;
    let z = zoom_settle();
    let s = start_zoom();
    let rest = Single::integer(1).minus(s);
    let pa = progress(a);
    let pb = progress(b);
    lemma_pow2_pos(149);
    lemma_unit();
    lemma_zero();
    lemma_zoom_settle();
    lemma_start_zoom();
    lemma_progress_advances(a, b);
    lemma_over_increases(pa, pb, z);
    lemma_clamped(pa.over(z), pb.over(z));
    lemma_smoothstep_range(pa.over(z).clamped());
    lemma_smoothstep_range(pb.over(z).clamped());
    lemma_ramp_falls_back_little(pa.over(z).clamped(), pb.over(z).clamped());
    let ta = smoothstep(pa.over(z).clamped());
    let tb = smoothstep(pb.over(z).clamped());
    let k = -rest.value();
    assert(abs(rest.value() * ta.value()) == k * ta.value() && abs(rest.value() * tb.value()) == k
        * tb.value() && k * ta.value() <= pow2(200) * u && k * tb.value() <= pow2(200) * u)
        by (nonlinear_arith)
        requires
            k == -rest.value(),
            0 <= k <= u,
            0 <= ta.value() <= u,
            0 <= tb.value() <= u,
            pow2(200) >= u,
    ;
    assert(rest.value() * ta.value() == -k * ta.value() && rest.value() * tb.value() == -k
        * tb.value()) by (nonlinear_arith)
        requires
            k == -rest.value(),
    ;
    lemma_times_error(rest, ta);
    lemma_times_error(rest, tb);
    lemma_rest_times_range(rest, ta);
    lemma_rest_times_range(rest, tb);
    lemma_plus_error(s, rest.times(ta));
    lemma_plus_error(s, rest.times(tb));
    lemma_zoom_errors(
        u,
        s.value(),
        k,
        ta.value(),
        tb.value(),
        rest.times(ta).value(),
        rest.times(tb).value(),
        zoom_at(pa).value(),
        zoom_at(pb).value(),
    );
}

/// A number from zero to one of something negative is between that and zero.
proof fn lemma_rest_times_range(rest: Single, t: Single)
    requires
        rest.is_finite(),
        rest.value() < 0,
        t.is_finite(),
        !t.negative(),
        t.value() <= one_in_units(),
    ensures
        rest.value() <= rest.times(t).value() <= 0,
{
    let one = Single::integer(1);
    lemma_zero();
    lemma_integer(1);
    assert(1 * one_in_units() == one_in_units());
    lemma_negated(rest);
    lemma_times_negated(rest, t);
    lemma_times_increases(t, one, rest.negated());
    lemma_times_increases(Single::integer(0), t, rest.negated());
    lemma_zero_times(Single::integer(0), rest.negated());
    lemma_one_times(rest.negated());
}

} // verus!
