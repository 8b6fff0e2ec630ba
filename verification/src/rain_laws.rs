//! What holds of the rain as a whole.

use crate::error_laws::apart;
use crate::error_laws::lemma_minus_error;
use crate::hash::column_hash;
use crate::matrix_rain::comparable;
use crate::matrix_rain::depths;
use crate::matrix_rain::rain_is_due;
use crate::matrix_rain::reveals;
use crate::rain_frame::column_at;
use crate::rain_frame::column_in_frame;
use crate::rain_frame::column_progress;
use crate::rain_frame::column_share;
use crate::rain_frame::column_steps;
use crate::rain_frame::duration_ms;
use crate::rain_frame::frame_steps;
use crate::rain_frame::mask_rect;
use crate::rain_frame::mask_steps;
use crate::rain_frame::mask_top;
use crate::rain_frame::new_steps;
use crate::rain_frame::old_row;
use crate::rain_frame::old_row_shown;
use crate::rain_frame::old_steps;
use crate::rain_frame::phase;
use crate::rain_frame::phase_max;
use crate::rain_frame::progress;
use crate::rain_frame::smoothstep;
use crate::rain_frame::start_zoom;
use crate::rain_frame::stream_bridge;
use crate::rain_frame::stream_gap;
use crate::rain_frame::stream_length;
use crate::rain_frame::stream_row;
use crate::rain_frame::stream_shown;
use crate::rain_frame::stream_steps;
use crate::rain_frame::total_lead;
use crate::rain_frame::zoom_at;
use crate::rain_frame::zoom_settle;
use crate::rain_frame::Column;
use crate::rain_frame::FrameSetup;
use crate::rain_frame::GlyphSource;
use crate::rain_frame::RainStep;
use crate::rain_frame::MATRIX_MAX;
use crate::rain_frame::MATRIX_MIN;
use crate::ramp_laws::lemma_smoothstep_one;
use crate::ramp_laws::lemma_smoothstep_range;
use crate::ramp_laws::lemma_smoothstep_zero;
use crate::rounding::lemma_magnitude_increases;
use crate::rounding::lemma_round_bits_scaled;
use crate::rounding::lemma_round_bits_zero;
use crate::rounding::lemma_round_exact;
use crate::rounding::lemma_round_fits;
use crate::rounding::lemma_round_increases;
use crate::rounding::round_bits;
use crate::rounding::BINADE;
use crate::screen::deepest_change;
use crate::screen::differs;
use crate::screen::lemma_deepest_change;
use crate::screen::texts;
use crate::screen::PaneSnapshot;
use crate::single::abs;
use crate::single::one_in_units;
use crate::single::Single;
use crate::single_laws::lemma_below_one_is_finite;
use crate::single_laws::lemma_integer;
use crate::single_laws::lemma_integer_back;
use crate::single_laws::lemma_integer_difference;
use crate::single_laws::lemma_integer_sum;
use crate::single_laws::lemma_minus_integer;
use crate::single_laws::lemma_negated;
use crate::single_laws::lemma_one_times;
use crate::single_laws::lemma_over_increases;
use crate::single_laws::lemma_over_self;
use crate::single_laws::lemma_plus_commutes;
use crate::single_laws::lemma_plus_exact;
use crate::single_laws::lemma_plus_increases;
use crate::single_laws::lemma_rounded;
use crate::single_laws::lemma_same_value;
use crate::single_laws::lemma_times_increases;
use crate::single_laws::lemma_times_one;
use crate::single_laws::lemma_zero;
use crate::single_laws::lemma_zero_times;
use crate::term_window::TabSwitchAnim;
use crate::term_window::Timestamp;
use vstd::arithmetic::div_mod::lemma_div_is_ordered;
use vstd::arithmetic::div_mod::lemma_fundamental_div_mod;
use vstd::arithmetic::power2::lemma2_to64;
use vstd::arithmetic::power2::lemma_pow2_adds;
use vstd::arithmetic::power2::lemma_pow2_pos;
use vstd::arithmetic::power2::lemma_pow2_strictly_increases;
use vstd::arithmetic::power2::lemma_pow2_unfold;
use vstd::arithmetic::power2::pow2;
use vstd::prelude::*;

verus! {

/// Row numbers below this are whole single-precision numbers, with every lead
/// that a column can have added.
pub open spec fn row_limit() -> int {
    0x100_0000 - 32
}

/// The lengths that a column picks: a stream of 3 to 12 cells, a gap of one or two
/// cells above it and a bridge of one or two below it.
pub proof fn lemma_column_lengths(c: usize)
    ensures
        MATRIX_MIN <= stream_length(c) <= MATRIX_MAX,
        1 <= stream_gap(c) <= 2,
        1 <= stream_bridge(c) <= 2,
        7 <= total_lead(c) <= 18,
{
}

/// A transition is due exactly where the new screen shows something that the
/// previous one did not show there: with the same screen nothing is animated, and
/// with no screen to compare with everything is.
pub proof fn lemma_rain_is_due(prev: Option<PaneSnapshot>, new: PaneSnapshot)
    requires
        new.dims.cols > 0,
        new.dims.viewport_rows > 0,
    ensures
        !comparable(prev, new) ==> rain_is_due(prev, new),
        comparable(prev, new) ==> (rain_is_due(prev, new) <==> exists|r: int, c: int|
            0 <= r < new.dims.viewport_rows && 0 <= c < new.dims.cols && #[trigger] differs(
                prev->0.shown(),
                new.shown(),
                new.dims.cols as int,
                r,
                c,
            )),
{
    let cols = new.dims.cols as int;
    let rows = new.dims.viewport_rows as nat;
    if !comparable(prev, new) {
        assert(depths(prev, new)[0] >= 0);
    } else {
        let old_texts = prev->0.shown();
        let new_texts = new.shown();
        if rain_is_due(prev, new) {
            let c = choose|c: int| 0 <= c < cols && #[trigger] depths(prev, new)[c] >= 0;
            lemma_deepest_change(old_texts, new_texts, cols, rows, c);
            assert(differs(old_texts, new_texts, cols, depths(prev, new)[c], c));
        }
        if exists|r: int, c: int|
            0 <= r < rows && 0 <= c < cols && #[trigger] differs(
                old_texts,
                new_texts,
                cols,
                r,
                c,
            ) {
            let (r, c) = choose|r: int, c: int|
                0 <= r < rows && 0 <= c < cols && #[trigger] differs(
                    old_texts,
                    new_texts,
                    cols,
                    r,
                    c,
                );
            lemma_deepest_change(old_texts, new_texts, cols, rows, c);
            assert(depths(prev, new)[c] >= 0);
        }
    }
}

/// What differs between two screens does not depend on which of them is the new one.
proof fn lemma_deepest_change_exchanged(
    a: Seq<Seq<char>>,
    b: Seq<Seq<char>>,
    cols: int,
    rows: nat,
    c: int,
)
    ensures
        deepest_change(a, b, cols, rows, c) == deepest_change(b, a, cols, rows, c),
    decreases rows,
{
    if rows > 0 {
        lemma_deepest_change_exchanged(a, b, cols, (rows - 1) as nat, c);
    }
}

/// Switching between two tabs and back animates the same columns to the same depth: for
/// screens of one extent, exchanging the two keeps whether a transition is due and the
/// depths, and exchanges the grids.
pub proof fn lemma_exchanged_screens(
    p: PaneSnapshot,
    q: PaneSnapshot,
    there: TabSwitchAnim,
    back: TabSwitchAnim,
    now: Timestamp,
    later: Timestamp,
)
    requires
        comparable(Some(p), q),
    ensures
        depths(Some(p), q) == depths(Some(q), p),
        rain_is_due(Some(p), q) == rain_is_due(Some(q), p),
        reveals(there, Some(p), q, now) && reveals(back, Some(q), p, later) ==> {
            &&& there.depth@ == back.depth@
            &&& texts(there.cells@) == texts(back.old_cells@)
            &&& texts(there.old_cells@) == texts(back.cells@)
        },
{
    let cols = q.dims.cols as int;
    let rows = q.dims.viewport_rows as nat;
    let a = depths(Some(p), q);
    let b = depths(Some(q), p);
    assert forall|c: int| 0 <= c < cols implies #[trigger] a[c] == b[c] by {
        lemma_deepest_change_exchanged(p.shown(), q.shown(), cols, rows, c);
    }
    assert(a =~= b);
    if reveals(there, Some(p), q, now) && reveals(back, Some(q), p, later) {
        assert forall|c: int| 0 <= c < cols implies there.depth@[c] == back.depth@[c] by {
            assert(there.depth@[c] == a[c] && back.depth@[c] == b[c]);
        }
        assert(there.depth@ =~= back.depth@);
    }
}

/// Columns whose content is unchanged from the previous tab are skipped: in no
/// frame is there a step for one.
pub proof fn lemma_unchanged_columns_are_skipped(
    anim: TabSwitchAnim,
    prev: Option<PaneSnapshot>,
    new: PaneSnapshot,
    now: Timestamp,
    setup: FrameSetup,
    c: usize,
)
    requires
        reveals(anim, prev, new, now),
        comparable(prev, new),
        c < new.dims.cols,
        0 < setup.rows <= anim.rows,
        forall|r: int|
            0 <= r < new.dims.viewport_rows ==> !#[trigger] differs(
                prev->0.shown(),
                new.shown(),
                new.dims.cols as int,
                r,
                c as int,
            ),
    ensures
        column_steps(
            column_in_frame(anim, setup, c),
            c,
            anim.cols,
            anim.old_cells@.len() > 0,
            setup,
        ).len() == 0,
{
    lemma_deepest_change(
        prev->0.shown(),
        new.shown(),
        new.dims.cols as int,
        new.dims.viewport_rows as nat,
        c as int,
    );
    assert(anim.depth@[c as int] == depths(prev, new)[c as int]);
}

/// Below the deepest changed row of a column the two screens are the same, so that
/// what the rain leaves alone there is what the new screen shows.
pub proof fn lemma_unchanged_below_depth(
    anim: TabSwitchAnim,
    prev: Option<PaneSnapshot>,
    new: PaneSnapshot,
    now: Timestamp,
    r: int,
    c: usize,
)
    requires
        reveals(anim, prev, new, now),
        comparable(prev, new),
        c < new.dims.cols,
        anim.depth@[c as int] < r < new.dims.viewport_rows,
    ensures
        !differs(prev->0.shown(), new.shown(), new.dims.cols as int, r, c as int),
{
    lemma_deepest_change(
        prev->0.shown(),
        new.shown(),
        new.dims.cols as int,
        new.dims.viewport_rows as nat,
        c as int,
    );
    assert(anim.depth@[c as int] == depths(prev, new)[c as int]);
}

/// What a step of a column paints lies between the top row and the deepest changed
/// row: the mask starts at or below the top and ends there, old text has not passed
/// it, and new text and stream are in it.
pub open spec fn within_depth(cd: Column, c: usize, setup: FrameSetup, step: RainStep) -> bool {
    match step {
        RainStep::Mask(rect) => 0 <= mask_top(cd) <= cd.depth && rect == mask_rect(
            cd,
            c,
            setup.geometry,
        ),
        RainStep::Glyph { source, col, row, .. } => col == c && match source {
            GlyphSource::Old(_) => exists|r: int|
                0 <= r <= cd.depth && #[trigger] old_row_shown(cd, r) && row == old_row(cd, r),
            GlyphSource::New(_) => 0 <= cd.front_row + 1 <= cd.depth && row == cd.settle,
            GlyphSource::Stream(_) => exists|r: int|
                0 <= r <= cd.depth && r < setup.rows && row == #[trigger] Single::integer(r),
        },
    }
}

/// Old text stays within the depth of its column.
proof fn lemma_old_within(cd: Column, c: usize, cols: usize, setup: FrameSetup, n: nat, i: int)
    requires
        n <= cd.depth + 1,
        0 <= i < old_steps(cd, c, cols, n).len(),
    ensures
        within_depth(cd, c, setup, old_steps(cd, c, cols, n)[i]),
    decreases n,
{
    if n > 0 {
        let before = old_steps(cd, c, cols, (n - 1) as nat);
        if i < before.len() {
            lemma_old_within(cd, c, cols, setup, (n - 1) as nat, i);
        } else {
            assert(old_row_shown(cd, n - 1));
        }
    }
}

/// The stream stays within the depth of its column.
proof fn lemma_stream_within(cd: Column, c: usize, setup: FrameSetup, n: nat, i: int)
    requires
        0 <= i < stream_steps(cd, c, setup, n).len(),
    ensures
        within_depth(cd, c, setup, stream_steps(cd, c, setup, n)[i]),
    decreases n,
{
    if n > 0 {
        let before = stream_steps(cd, c, setup, (n - 1) as nat);
        if i < before.len() {
            lemma_stream_within(cd, c, setup, (n - 1) as nat, i);
        } else {
            let r = stream_row(cd, n - 1);
            assert(stream_shown(cd, setup.rows as int, n - 1));
            assert(stream_steps(cd, c, setup, n)[i]->row == Single::integer(r));
        }
    }
}

/// Each column only rebuilds down to its deepest changed row.
pub proof fn lemma_steps_within_depth(
    cd: Column,
    c: usize,
    cols: usize,
    has_old: bool,
    setup: FrameSetup,
    i: int,
)
    requires
        0 <= i < column_steps(cd, c, cols, has_old, setup).len(),
    ensures
        within_depth(cd, c, setup, column_steps(cd, c, cols, has_old, setup)[i]),
{
    let masks = mask_steps(cd, c, setup.geometry);
    let olds = if has_old {
        old_steps(cd, c, cols, (cd.depth + 1) as nat)
    } else {
        Seq::empty()
    };
    let news = new_steps(cd, c, cols);
    let streams = if setup.palette_len > 0 {
        stream_steps(cd, c, setup, cd.matrix as nat)
    } else {
        Seq::empty()
    };
    let all = column_steps(cd, c, cols, has_old, setup);
    assert(all == masks + olds + news + streams);
    let a = masks.len();
    let b = a + olds.len();
    let d = b + news.len();
    if i < a {
        assert(all[i] == masks[i]);
    } else if i < b {
        assert(all[i] == olds[i - a]);
        lemma_old_within(cd, c, cols, setup, (cd.depth + 1) as nat, i - a);
    } else if i < d {
        assert(all[i] == news[i - b]);
    } else {
        assert(all[i] == streams[i - d]);
        lemma_stream_within(cd, c, setup, cd.matrix as nat, i - d);
    }
}

/// A quarter, as units.
pub proof fn lemma_phase_max()
    ensures
        phase_max().is_finite(),
        !phase_max().negative(),
        phase_max().value() * 4 == one_in_units(),
        phase_max().value() > 0,
{
    reveal(Single::fraction);
    let u = one_in_units();
    let q = pow2(147);
    lemma2_to64();
    lemma_pow2_adds(147, 2);
    lemma_pow2_pos(147);
    lemma_round_bits_scaled(q, 1, 4);
    assert(1 * u == u);
    assert(q * 4 == u && 1 * 4 == 4);
    lemma_round_fits(1, 147);
    assert(1 * q == q);
    lemma_rounded(false, u, 4);
}

/// One less a quarter, as units.
pub proof fn lemma_rest_of_phase_max()
    ensures
        Single::integer(1).minus(phase_max()).is_finite(),
        Single::integer(1).minus(phase_max()).value() == one_in_units() - phase_max().value(),
        Single::integer(1).minus(phase_max()).value() > 0,
        !Single::integer(1).minus(phase_max()).negative(),
{
    let u = one_in_units();
    lemma_phase_max();
    lemma_integer(1);
    lemma_negated(phase_max());
    let q = pow2(147);
    lemma2_to64();
    lemma_pow2_adds(147, 2);
    assert(1 * u == u);
    assert(u - phase_max().value() == 3 * q);
    lemma_plus_exact(Single::integer(1), phase_max().negated(), 3, 147);
}

/// A column's head-start is not negative, and not above the largest one.
pub proof fn lemma_phase(c: usize)
    ensures
        phase(c).is_finite(),
        0 <= phase(c).value() <= phase_max().value(),
        !phase(c).negative(),
{
    let h = (column_hash(c, 3) % 1000) as int;
    let u = one_in_units();
    lemma_pow2_pos(149);
    lemma_integer(0);
    lemma_integer(h);
    lemma_integer(1000);
    lemma_zero();
    lemma_phase_max();
    let a = Single::integer(h);
    let k = Single::integer(1000);
    assert(0 <= h * u <= 1000 * u) by (nonlinear_arith)
        requires
            0 <= h <= 1000,
            u > 0,
    ;
    assert(!k.is_zero());
    lemma_over_increases(a, k, k);
    lemma_over_self(k);
    let b = a.over(k);
    assert(!b.negative() && !b.is_nan() && b.value() <= Single::integer(1).value()) by {
        reveal(Single::spec_over);
        lemma_rounded(false, a.size() * u, k.size());
    }
    lemma_integer(1);
    lemma_below_one_is_finite(b);
    lemma_times_increases(b, Single::integer(1), phase_max());
    lemma_one_times(phase_max());
    let ph = phase(c);
    assert(ph == b.times(phase_max()));
    assert(!ph.negative() && !ph.is_nan()) by {
        reveal(Single::spec_times);
        lemma_rounded(false, b.size() * phase_max().size(), u);
    }
    lemma_below_one_is_finite(ph);
}

/// A number moved into the range from zero to one is in it, and moving keeps the order.
pub proof fn lemma_clamped(a: Single, b: Single)
    requires
        !a.is_nan(),
        !b.is_nan(),
        a.value() <= b.value(),
    ensures
        a.clamped().is_finite(),
        b.clamped().is_finite(),
        0 <= a.clamped().value() <= b.clamped().value() <= one_in_units(),
{
    reveal(Single::spec_clamped);
    lemma_zero();
    lemma_integer(1);
    lemma_one_times(Single::integer(0));
    assert(1 * one_in_units() == one_in_units());
    if 0 <= a.value() <= one_in_units() {
        lemma_below_one_is_finite(a);
    }
    if 0 <= b.value() <= one_in_units() {
        lemma_below_one_is_finite(b);
    }
}

/// The transition goes from its start to its end and not back: the later, the more of
/// it is over, from none to all of it.
pub proof fn lemma_progress_advances(a: Single, b: Single)
    requires
        a.is_finite(),
        b.is_finite(),
        a.value() <= b.value(),
    ensures
        progress(a).is_finite(),
        progress(b).is_finite(),
        0 <= progress(a).value() <= progress(b).value() <= one_in_units(),
{
    lemma_pow2_pos(149);
    lemma_integer(4200);
    assert(4200 * one_in_units() > 0);
    lemma_over_increases(a, b, duration_ms());
    lemma_clamped(a.over(duration_ms()), b.over(duration_ms()));
}

/// The time of the transition less a column's head-start is at most all of it, either
/// way.
pub proof fn lemma_column_time(c: usize, p: Single)
    requires
        p.is_finite(),
        0 <= p.value() <= one_in_units(),
    ensures
        p.minus(phase(c)).is_finite(),
        p.minus(phase(c)).size() <= one_in_units(),
{
    let u = one_in_units();
    let zero = Single::integer(0);
    let one = Single::integer(1);
    let ph = phase(c);
    lemma_pow2_pos(149);
    lemma_zero();
    lemma_integer(1);
    lemma_integer(-1);
    assert(1 * u == u && (-1) * u == -u);
    lemma_phase_max();
    lemma_phase(c);
    lemma_negated(ph);
    let gone = p.minus(ph);
    lemma_plus_commutes(p, ph.negated());
    lemma_plus_increases(ph.negated(), zero, p);
    lemma_plus_increases(p, one, zero);
    lemma_plus_commutes(zero, p);
    lemma_plus_commutes(zero, one);
    lemma_integer_sum(1, 0);
    lemma_plus_increases(zero, p, ph.negated());
    lemma_plus_increases(Single::integer(-1), ph.negated(), zero);
    lemma_plus_commutes(ph.negated(), zero);
    lemma_integer_sum(-1, 0);
    lemma_below_one_is_finite(gone);
}

/// A column is never outside of its way: it has gone none of it, some of it or all of
/// it.
pub proof fn lemma_column_progress(c: usize, p: Single)
    requires
        p.is_finite(),
        0 <= p.value() <= one_in_units(),
    ensures
        column_share(c, p).is_finite(),
        0 <= column_share(c, p).value() <= one_in_units(),
        column_progress(c, p).is_finite(),
        !column_progress(c, p).negative(),
        0 <= column_progress(c, p).value() <= one_in_units(),
{
    let rest = Single::integer(1).minus(phase_max());
    lemma_pow2_pos(149);
    lemma_rest_of_phase_max();
    lemma_column_time(c, p);
    let gone = p.minus(phase(c));
    lemma_over_increases(gone, gone, rest);
    lemma_clamped(gone.over(rest), gone.over(rest));
    lemma_smoothstep_range(column_share(c, p));
}

/// When the transition is over, every column has gone its whole way.
pub proof fn lemma_columns_arrive(c: usize)
    ensures
        progress(duration_ms()) == Single::integer(1),
        column_progress(c, Single::integer(1)) == Single::integer(1),
{
    let one = Single::integer(1);
    let u = one_in_units();
    lemma_pow2_pos(149);
    lemma_integer(1);
    lemma_integer(4200);
    lemma_one_times(one);
    assert(1 * u == u && 4200 * u > 0);
    lemma_zero();
    lemma_over_self(duration_ms());
    assert(one.clamped() == one) by {
        reveal(Single::spec_clamped);
    }
    lemma_phase(c);
    lemma_phase_max();
    lemma_rest_of_phase_max();
    let ph = phase(c);
    let rest = one.minus(phase_max());
    lemma_negated(ph);
    lemma_negated(phase_max());
    lemma_plus_commutes(one, phase_max().negated());
    lemma_plus_commutes(one, ph.negated());
    lemma_plus_increases(phase_max().negated(), ph.negated(), one);
    let gone = one.minus(ph);
    assert(gone.is_finite()) by {
        lemma_plus_increases(ph.negated(), Single { bits: 0 }, one);
        lemma_integer_sum(0, 1);
        if gone.negative() {
            assert(gone.value() >= rest.value());
        }
        lemma_below_one_is_finite(gone);
    }
    assert(!rest.is_zero());
    lemma_over_increases(rest, gone, rest);
    lemma_over_self(rest);
    assert(gone.over(rest).clamped() == one) by {
        reveal(Single::spec_clamped);
        if gone.over(rest).value() == u {
            lemma_same_value(gone.over(rest), one);
        }
    }
    lemma_smoothstep_one();
}

/// Where a column is that has gone its whole way.
proof fn lemma_column_arrived(c: usize, depth: i32)
    requires
        0 <= depth < row_limit(),
    ensures
        ({
            let cd = column_at(c, depth, Single::integer(1));
            &&& cd.fall == Single::integer(depth + 1 + total_lead(c))
            &&& cd.settle == Single::integer(depth + 1)
            &&& cd.front_row == depth + 1
        }),
{
    lemma_column_lengths(c);
    let lead = total_lead(c);
    lemma_integer_sum(depth as int, 1);
    lemma_integer_sum(depth + 1, lead);
    lemma_integer(depth + 1 + lead);
    lemma_one_times(Single::integer(depth + 1 + lead));
    lemma_integer_difference(depth + 1 + lead, lead);
    lemma_integer_back(depth + 1);
}

/// Without a row that is shown there is no step of old text.
proof fn lemma_no_old_rows(cd: Column, c: usize, cols: usize, n: nat)
    requires
        forall|r: int| 0 <= r < n ==> !#[trigger] old_row_shown(cd, r),
    ensures
        old_steps(cd, c, cols, n).len() == 0,
    decreases n,
{
    if n > 0 {
        lemma_no_old_rows(cd, c, cols, (n - 1) as nat);
        assert(!old_row_shown(cd, n - 1));
    }
}

/// Without a cell that is shown there is no step of the stream.
proof fn lemma_no_stream(cd: Column, c: usize, setup: FrameSetup, n: nat)
    requires
        forall|j: int| 0 <= j < n ==> !#[trigger] stream_shown(cd, setup.rows as int, j),
    ensures
        stream_steps(cd, c, setup, n).len() == 0,
    decreases n,
{
    if n > 0 {
        lemma_no_stream(cd, c, setup, (n - 1) as nat);
        assert(!stream_shown(cd, setup.rows as int, n - 1));
    }
}

/// The last shown place of old text is not below the row under the changed region.
proof fn lemma_bottom(depth: i32)
    requires
        0 <= depth < row_limit(),
    ensures
        Single::integer(depth as int).plus(Single::fraction(999, 1000)).value() <= (depth + 1)
            * one_in_units(),
        Single::integer(depth as int).plus(Single::fraction(999, 1000)).value() >= depth
            * one_in_units(),
        !Single::integer(depth as int).plus(Single::fraction(999, 1000)).is_nan(),
{
    let u = one_in_units();
    lemma_pow2_pos(149);
    let f = Single::fraction(999, 1000);
    let d = Single::integer(depth as int);
    lemma_integer(depth as int);
    lemma_integer(1);
    lemma_integer(0);
    lemma_integer(depth + 1);
    lemma_zero();
    assert(1 * u == u);
    assert(!f.negative() && !f.is_nan() && f.value() <= u) by {
        reveal(Single::fraction);
        reveal(Single::integer);
        lemma_rounded(false, 999 * u, 1000);
        assert((999 * u) * 1 <= (1 * u) * 1000);
        lemma_round_increases(999 * u, 1000, 1 * u, 1);
        let a = f.magnitude_bits();
        let b = Single::integer(1).magnitude_bits();
        if a < b {
            lemma_magnitude_increases(a, b);
        }
    }
    lemma_below_one_is_finite(f);
    lemma_plus_commutes(d, f);
    lemma_plus_commutes(d, Single::integer(1));
    lemma_plus_commutes(d, Single::integer(0));
    lemma_plus_increases(f, Single::integer(1), d);
    lemma_plus_increases(Single::integer(0), f, d);
    lemma_integer_sum(depth as int, 1);
    lemma_integer_sum(depth as int, 0);
}

/// Both texts of a column finish together: when it has gone its whole way, the old
/// text is fully off the bottom, all rows are built, and there is nothing left to
/// paint.
pub proof fn lemma_column_finishes(
    c: usize,
    depth: i32,
    cols: usize,
    has_old: bool,
    setup: FrameSetup,
)
    requires
        depth < row_limit(),
    ensures
        column_steps(
            column_at(c, depth, Single::integer(1)),
            c,
            cols,
            has_old,
            setup,
        ).len() == 0,
{
    if depth >= 0 {
        let cd = column_at(c, depth, Single::integer(1));
        let u = one_in_units();
        let lead = total_lead(c);
        lemma_pow2_pos(149);
        lemma_column_arrived(c, depth);
        lemma_column_lengths(c);
        lemma_bottom(depth);
        lemma_integer(depth + 1 + lead);
        assert forall|r: int| 0 <= r <= depth implies !#[trigger] old_row_shown(cd, r) by {
            reveal(Single::spec_below);
            lemma_integer(r);
            lemma_integer(0);
            lemma_zero();
            assert(r * u >= 0) by (nonlinear_arith)
                requires
                    r >= 0,
                    u > 0,
            ;
            lemma_plus_increases(Single::integer(0), Single::integer(r), cd.fall);
            lemma_integer_sum(0, depth + 1 + lead);
            assert((depth + 1 + lead) * u > (depth + 1) * u) by (nonlinear_arith)
                requires
                    lead > 0,
                    u > 0,
            ;
        }
        lemma_no_old_rows(cd, c, cols, (depth + 1) as nat);
        lemma_no_stream(cd, c, setup, cd.matrix as nat);
    }
}

/// When the transition is over, there is nothing left of the rain.
pub proof fn lemma_rain_ends(anim: TabSwitchAnim, setup: FrameSetup, n: nat)
    requires
        anim.wf(),
        n <= anim.cols,
        0 < setup.rows <= anim.rows,
        anim.rows <= row_limit(),
        setup.progress == Single::integer(1),
    ensures
        frame_steps(anim, setup, n).len() == 0,
    decreases n,
{
    if n > 0 {
        let c = (n - 1) as usize;
        lemma_rain_ends(anim, setup, (n - 1) as nat);
        lemma_columns_arrive(c);
        let cd = column_in_frame(anim, setup, c);
        assert(-1 <= anim.depth@[c as int] < anim.rows);
        lemma_column_finishes(c, cd.depth, anim.cols, anim.old_cells@.len() > 0, setup);
    }
}

/// Before the transition has begun, no column has gone any of its way.
pub proof fn lemma_columns_depart(c: usize)
    ensures
        progress(Single::integer(0)) == Single::integer(0),
        column_progress(c, Single::integer(0)) == Single::integer(0),
{
    let zero = Single::integer(0);
    let u = one_in_units();
    lemma_pow2_pos(149);
    lemma_zero();
    lemma_integer(4200);
    assert(zero.over(duration_ms()) == zero) by {
        reveal(Single::spec_over);
        assert(4200 * u > 0);
        assert(zero.size() * u == 0);
        lemma_round_bits_zero(0, duration_ms().size());
    }
    assert(zero.clamped() == zero) by {
        reveal(Single::spec_clamped);
    }
    lemma_phase(c);
    lemma_rest_of_phase_max();
    let ph = phase(c);
    let rest = Single::integer(1).minus(phase_max());
    lemma_negated(ph);
    let gone = zero.minus(ph);
    lemma_plus_commutes(zero, ph.negated());
    lemma_plus_increases(ph.negated(), zero, zero);
    lemma_integer_sum(0, 0);
    lemma_minus_small(ph);
    lemma_over_increases(gone, zero, rest);
    assert(zero.over(rest) == zero) by {
        reveal(Single::spec_over);
        assert(zero.size() * u == 0);
        lemma_round_bits_zero(0, rest.size());
    }
    let t = gone.over(rest).clamped();
    assert(t.is_finite() && t.value() == 0) by {
        reveal(Single::spec_clamped);
        if gone.over(rest).value() == 0 {
            lemma_value_zero_is_finite(gone.over(rest));
        }
    }
    lemma_smoothstep_zero(t);
}

/// Zero is finite.
proof fn lemma_value_zero_is_finite(a: Single)
    requires
        !a.is_nan(),
        a.value() == 0,
    ensures
        a.is_finite(),
{
    lemma_zero();
    if a.magnitude_bits() > 0 {
        lemma_magnitude_increases(0, a.magnitude_bits());
    }
}

/// Zero less a number is finite where the number is.
proof fn lemma_minus_small(a: Single)
    requires
        a.is_finite(),
    ensures
        Single::integer(0).minus(a).is_finite(),
{
    reveal(Single::spec_plus);
    lemma_zero();
    lemma_negated(a);
    lemma_round_exact(a.magnitude_bits());
    if a.value() != 0 {
        lemma_rounded(!a.negative(), a.size(), 1);
    }
}

/// Where a column is that has gone none of its way.
pub proof fn lemma_column_starts(c: usize, depth: i32)
    requires
        0 <= depth < row_limit(),
    ensures
        ({
            let cd = column_at(c, depth, Single::integer(0));
            // The whole changed region is covered,
            &&& mask_top(cd) == 0
            // each row of the old text is drawn in its place,
            &&& forall|r: int|
                0 <= r <= depth ==> old_row_shown(cd, r) && #[trigger] old_row(cd, r)
                    == Single::integer(r)
            // and nothing of the new text or of the stream is drawn.
            &&& forall|cols: usize| (#[trigger] new_steps(cd, c, cols)).len() == 0
            &&& forall|setup: FrameSetup|
                (#[trigger] stream_steps(cd, c, setup, cd.matrix as nat)).len() == 0
        }),
{
    let cd = column_at(c, depth, Single::integer(0));
    let lead = total_lead(c);
    let u = one_in_units();
    let zero = Single::integer(0);
    lemma_pow2_pos(149);
    lemma_column_lengths(c);
    lemma_zero();
    lemma_integer_sum(depth as int, 1);
    lemma_integer_sum(depth + 1, lead);
    lemma_integer(depth + 1 + lead);
    lemma_zero_times(zero, Single::integer(depth + 1 + lead));
    lemma_same_value(cd.fall, zero);
    lemma_integer_difference(0, lead);
    lemma_integer_back(-lead);
    assert(cd.front_row == -lead);
    assert forall|setup: FrameSetup|
        (#[trigger] stream_steps(cd, c, setup, cd.matrix as nat)).len() == 0 by {
        lemma_no_stream(cd, c, setup, cd.matrix as nat);
    }
    lemma_bottom(depth);
    assert forall|r: int| 0 <= r <= depth implies old_row_shown(cd, r) && #[trigger] old_row(cd, r)
        == Single::integer(r) by {
        lemma_integer_sum(r, 0);
        lemma_integer(r);
        reveal(Single::spec_below);
        assert(r * u <= depth * u) by (nonlinear_arith)
            requires
                r <= depth,
                u > 0,
        ;
    }
}

/// Where the fall of a column lies.
pub proof fn lemma_fall_range(c: usize, depth: i32, fp: Single)
    requires
        0 <= depth < row_limit(),
        !fp.is_nan(),
        !fp.negative(),
        fp.value() <= one_in_units(),
    ensures
        ({
            let cd = column_at(c, depth, fp);
            &&& cd.fall.is_finite()
            &&& !cd.fall.negative()
            &&& 0 <= cd.fall.value() <= (depth + 1 + total_lead(c)) * one_in_units()
            &&& !cd.settle.is_nan()
        }),
{
    let cd = column_at(c, depth, fp);
    let lead = total_lead(c);
    let u = one_in_units();
    lemma_column_lengths(c);
    lemma_integer_sum(depth as int, 1);
    lemma_integer_sum(depth + 1, lead);
    let way = Single::integer(depth + 1 + lead);
    lemma_integer(depth + 1 + lead);
    lemma_integer(1);
    lemma_integer(lead);
    assert(1 * u == u);
    lemma_below_one_is_finite(fp);
    lemma_times_increases(fp, Single::integer(1), way);
    lemma_one_times(way);
    assert(!cd.fall.negative() && !cd.fall.is_nan()) by {
        reveal(Single::spec_times);
        lemma_pow2_pos(149);
        lemma_rounded(false, fp.size() * way.size(), u);
    }
    if cd.fall.is_infinite() {
        lemma_magnitude_increases(
            way.magnitude_bits(),
            cd.fall.magnitude_bits(),
        );
    }
    lemma_negated(Single::integer(lead));
    lemma_plus_increases(cd.fall, cd.fall, Single::integer(lead).negated());
}

/// Columns are built from the top down: the further one has gone of its own way, the
/// further its old text has fallen, the deeper its front is and the deeper its mask
/// starts.
pub proof fn lemma_front_descends(c: usize, depth: i32, a: Single, b: Single)
    requires
        0 <= depth < row_limit(),
        !a.is_nan(),
        !a.negative(),
        !b.is_nan(),
        !b.negative(),
        a.value() <= b.value() <= one_in_units(),
    ensures
        column_at(c, depth, a).fall.value() <= column_at(c, depth, b).fall.value(),
        column_at(c, depth, a).settle.value() <= column_at(c, depth, b).settle.value(),
        column_at(c, depth, a).front_row <= column_at(c, depth, b).front_row,
        mask_top(column_at(c, depth, a)) <= mask_top(column_at(c, depth, b)),
{
    let lead = total_lead(c);
    let u = one_in_units();
    lemma_pow2_pos(149);
    lemma_column_lengths(c);
    lemma_fall_range(c, depth, a);
    lemma_fall_range(c, depth, b);
    lemma_integer_sum(depth as int, 1);
    lemma_integer_sum(depth + 1, lead);
    let way = Single::integer(depth + 1 + lead);
    lemma_integer(depth + 1 + lead);
    lemma_integer(lead);
    lemma_below_one_is_finite(a);
    lemma_below_one_is_finite(b);
    lemma_times_increases(a, b, way);
    let ca = column_at(c, depth, a);
    let cb = column_at(c, depth, b);
    lemma_negated(Single::integer(lead));
    lemma_plus_increases(ca.fall, cb.fall, Single::integer(lead).negated());
    reveal(Single::spec_floor_to_i32);
    lemma_div_is_ordered(
        ca.settle.value(),
        cb.settle.value(),
        u as int,
    );
}

/// The rows of a column's front and of the depth that its new text can reach.
pub proof fn lemma_settle_range(c: usize, depth: i32, fp: Single)
    requires
        0 <= depth < row_limit(),
        !fp.is_nan(),
        !fp.negative(),
        fp.value() <= one_in_units(),
    ensures
        ({
            let cd = column_at(c, depth, fp);
            let u = one_in_units();
            &&& cd.settle.is_finite()
            &&& -total_lead(c) * u <= cd.settle.value() <= (depth + 1) * u
            &&& -total_lead(c) <= cd.front_row <= depth + 1
            &&& cd.front_row * u <= cd.settle.value() < (cd.front_row + 1) * u
        }),
{
    let cd = column_at(c, depth, fp);
    let lead = total_lead(c);
    let u = one_in_units();
    let zero = Single::integer(0);
    let way = Single::integer(depth + 1 + lead);
    lemma_pow2_pos(149);
    lemma_zero();
    lemma_column_lengths(c);
    lemma_fall_range(c, depth, fp);
    lemma_integer(depth + 1 + lead);
    lemma_integer(depth + 1);
    lemma_integer(lead);
    lemma_integer(-lead);
    lemma_negated(Single::integer(lead));
    lemma_integer_difference(0, lead);
    lemma_integer_difference(depth + 1 + lead, lead);
    lemma_plus_increases(zero, cd.fall, Single::integer(lead).negated());
    lemma_plus_increases(cd.fall, way, Single::integer(lead).negated());
    let v = cd.settle.value();
    assert(-lead * u <= v <= (depth + 1) * u);
    if cd.settle.negative() {
        lemma_smaller_is_finite(cd.settle, Single::integer(-lead));
    } else {
        lemma_smaller_is_finite(cd.settle, Single::integer(depth + 1));
    }
    let q = v / (u as int);
    let r = v % (u as int);
    lemma_fundamental_div_mod(v, u as int);
    assert(-lead <= q <= depth + 1) by (nonlinear_arith)
        requires
            v == u * q + r,
            0 <= r < u,
            -lead * u <= v <= (depth + 1) * u,
            u > 0,
    ;
    reveal(Single::spec_floor_to_i32);
    assert(cd.front_row == q);
    assert(q * u == u * q && (q + 1) * u == u * q + u) by (nonlinear_arith);
}

/// The stream is between the two texts of its column all the way. Counted from how far
/// the new text has been built, its first cell is more than the gap below the end of the
/// sliding character, and its last one at least the bridge above the old text, and in
/// neither case is there a whole cell more. How far the old text has fallen is that
/// plus the column's lead, up to rounding.
pub proof fn lemma_stream_is_between_the_texts(c: usize, depth: i32, fp: Single)
    requires
        0 <= depth < row_limit(),
        !fp.is_nan(),
        !fp.negative(),
        fp.value() <= one_in_units(),
    ensures
        ({
            let cd = column_at(c, depth, fp);
            let first = stream_row(cd, 0);
            let last = stream_row(cd, cd.matrix - 1);
            let lead = total_lead(c);
            let u = one_in_units();
            &&& cd.settle.value() + (1 + stream_gap(c)) * u < first * u <= cd.settle.value() + (2
                + stream_gap(c)) * u
            &&& (last + 1 + stream_bridge(c)) * u <= cd.settle.value() + lead * u < (last + 2
                + stream_bridge(c)) * u
            &&& 0x100_0000 * apart(cd.settle.value() + lead * u, cd.fall.value()) <= abs(
                cd.fall.value() - lead * u,
            )
        }),
{
    let cd = column_at(c, depth, fp);
    let lead = total_lead(c);
    let u = one_in_units();
    lemma_pow2_pos(149);
    lemma_column_lengths(c);
    lemma_settle_range(c, depth, fp);
    lemma_fall_range(c, depth, fp);
    lemma_integer(lead);
    let front = cd.front_row as int;
    let gap = stream_gap(c);
    assert((front + 2 + gap) * u == front * u + (2 + gap) * u && (front + 1 + 1 + gap) * u == (front
        + 1) * u + (1 + gap) * u) by (nonlinear_arith);
    assert((front + lead) * u == front * u + lead * u && (front + lead + 1) * u == (front + 1) * u
        + lead * u) by (nonlinear_arith);
    assert(abs(cd.fall.value() - lead * u) <= pow2(200)) by {
        assert((depth + 1 + lead) * u <= 0x100_0000 * u && 0 <= lead * u <= 0x100_0000 * u)
            by (nonlinear_arith)
            requires
                0 <= depth + 1 + lead <= 0x100_0000,
                0 <= lead <= 0x100_0000,
                u > 0,
        ;
        lemma2_to64();
        lemma_pow2_adds(24, 149);
        lemma_pow2_strictly_increases(173, 200);
    }
    lemma_minus_error(cd.fall, Single::integer(lead));
}

/// The old text rides right below the stream. From when on a row is being built, the
/// new text is behind it by exactly the column's lead, and between the bottom of the
/// stream and its top there are at least the bridge's blank cells, and less than one
/// more.
pub proof fn lemma_old_text_rides_below_stream(c: usize, depth: i32, fp: Single)
    requires
        0 <= depth < row_limit(),
        !fp.is_nan(),
        !fp.negative(),
        fp.value() <= one_in_units(),
        column_at(c, depth, fp).fall.value() >= total_lead(c) * one_in_units(),
    ensures
        ({
            let cd = column_at(c, depth, fp);
            let last = stream_row(cd, cd.matrix - 1);
            let u = one_in_units();
            &&& cd.settle.value() == cd.fall.value() - total_lead(c) * u
            &&& (last + 1 + stream_bridge(c)) * u <= cd.fall.value() < (last + 2 + stream_bridge(c))
                * u
        }),
{
    let cd = column_at(c, depth, fp);
    let lead = total_lead(c);
    let u = one_in_units();
    lemma_pow2_pos(149);
    lemma_column_lengths(c);
    lemma_fall_range(c, depth, fp);
    assert((depth + 1 + lead) * u < 0x100_0000 * u) by (nonlinear_arith)
        requires
            depth + 1 + lead < 0x100_0000,
            u > 0,
    ;
    lemma_minus_integer(cd.fall, lead);
    lemma_stream_is_between_the_texts(c, depth, fp);
}

/// The size of the glyphs at the start, in units.
pub proof fn lemma_start_zoom()
    ensures
        start_zoom().is_finite(),
        !start_zoom().negative(),
        one_in_units() < start_zoom().value() <= 2 * one_in_units(),
        Single::integer(1).minus(start_zoom()).is_finite(),
        Single::integer(1).minus(start_zoom()).value() == one_in_units() - start_zoom().value(),
{
    let u = one_in_units();
    let s = start_zoom();
    let bits = s.magnitude_bits();
    let b = BINADE as nat;
    let one = Single::integer(1);
    let two = Single::integer(2);
    lemma_pow2_pos(149);
    lemma2_to64();
    lemma_integer(1);
    lemma_integer(2);
    lemma_one_times(one);
    assert(1 * u == u);
    assert(!s.negative() && !s.is_nan() && one.magnitude_bits() <= bits <= two.magnitude_bits())
        by {
        reveal(Single::fraction);
        reveal(Single::integer);
        lemma_rounded(false, 121 * u, 100);
        lemma_round_increases(1 * u, 1, 121 * u, 100);
        lemma_round_increases(121 * u, 100, 2 * u, 1);
    }
    assert(s.size() > u) by {
        // Nine eighths is not above it.
        let eighth = pow2(146);
        lemma_pow2_adds(146, 3);
        lemma_pow2_pos(146);
        lemma_round_fits(9, 146);
        let nine = round_bits(9 * eighth, 1);
        reveal(Single::fraction);
        lemma_rounded(false, 121 * u, 100);
        lemma_round_increases(9 * eighth, 1, 121 * u, 100);
        if nine < bits {
            lemma_magnitude_increases(nine, bits);
        }
    }
    assert(two == (Single { bits: 0x4000_0000 })) by {
        lemma_pow2_adds(23, 127);
        lemma_pow2_unfold(150);
        assert((Single { bits: 0x4000_0000 }).value() == 2 * u);
        lemma_same_value(two, Single { bits: 0x4000_0000 });
    }
    lemma_negated(s);
    lemma_pow2_adds(23, 126);
    let p = pow2(126);
    lemma_pow2_pos(126);
    if bits == two.magnitude_bits() {
        lemma_same_value(s, two);
        lemma_plus_exact(one, s.negated(), 1, 149);
    } else {
        lemma_magnitude_increases(bits, two.magnitude_bits());
        let f = bits % b;
        assert(bits / b == 127);
        assert(s.value() == (b + f) * p);
        assert((b + f) * p == b * p + f * p) by (nonlinear_arith);
        assert(u == b * p);
        assert(f * p >= 0) by (nonlinear_arith)
            requires
                f >= 0,
                p > 0,
        ;
        lemma_plus_exact(one, s.negated(), f, 126);
    }
}

/// What the zoom settles over is part of the transition.
pub proof fn lemma_zoom_settle()
    ensures
        zoom_settle().is_finite(),
        one_in_units() <= 4 * zoom_settle().value(),
        0 < 2 * zoom_settle().value() <= one_in_units(),
{
    let u = one_in_units();
    let z = zoom_settle();
    lemma_pow2_pos(149);
    lemma_zero();
    lemma_integer(1);
    lemma_one_times(Single::integer(1));
    reveal(Single::fraction);
    reveal(Single::integer);
    lemma_rounded(false, 35 * u, 100);
    lemma_round_increases(35 * u, 100, 1 * u, 1);
    // It is between a quarter and a half.
    let q = pow2(147);
    let h = pow2(148);
    lemma2_to64();
    lemma_pow2_adds(147, 2);
    lemma_pow2_adds(148, 1);
    lemma_pow2_pos(147);
    lemma_round_fits(1, 147);
    lemma_round_fits(1, 148);
    assert(1 * q == q && 1 * h == h);
    lemma_round_increases(q, 1, 35 * u, 100);
    lemma_round_increases(35 * u, 100, h, 1);
    let bits = z.magnitude_bits();
    if round_bits(q, 1) < bits {
        lemma_magnitude_increases(round_bits(q, 1), bits);
    }
    if bits < round_bits(h, 1) {
        lemma_magnitude_increases(bits, round_bits(h, 1));
    }
}

/// The effect's glyphs start at `start_zoom` and have settled to exactly the normal
/// size from `zoom_settle` of the transition on.
pub proof fn lemma_zoom_settles(p: Single)
    requires
        p.is_finite(),
        p.value() >= zoom_settle().value(),
    ensures
        zoom_at(Single::integer(0)) == start_zoom(),
        zoom_at(p) == Single::integer(1),
{
    let u = one_in_units();
    let one = Single::integer(1);
    let zero = Single::integer(0);
    let s = start_zoom();
    let z = zoom_settle();
    lemma_pow2_pos(149);
    lemma_zero();
    lemma_integer(1);
    lemma_one_times(one);
    assert(1 * u == u);
    lemma_start_zoom();
    lemma_zoom_settle();
    // From the end of the ramp on.
    lemma_over_increases(z, p, z);
    lemma_over_self(z);
    assert(p.over(z).clamped() == one) by {
        reveal(Single::spec_clamped);
        if p.over(z).value() == u {
            lemma_same_value(p.over(z), one);
        }
    }
    lemma_smoothstep_one();
    let rest = one.minus(s);
    lemma_times_one(rest);
    lemma_plus_exact(s, rest, 1, 149);
    lemma_same_value(s.plus(rest), one);
    // At its start.
    assert(zero.over(z) == zero) by {
        reveal(Single::spec_over);
        assert(zero.size() * u == 0);
        lemma_round_bits_zero(0, z.size());
    }
    assert(zero.clamped() == zero) by {
        reveal(Single::spec_clamped);
    }
    lemma_smoothstep_zero(zero);
    lemma_zero_times(rest, zero);
    lemma_plus_zero(s, rest.times(zero));
}

/// The glyphs are never larger than at the start, and never smaller than the normal
/// size.
pub proof fn lemma_zoom_range(p: Single)
    requires
        p.is_finite(),
        0 <= p.value() <= one_in_units(),
    ensures
        zoom_at(p).is_finite(),
        one_in_units() <= zoom_at(p).value() <= start_zoom().value(),
{
    let u = one_in_units();
    let one = Single::integer(1);
    let zero = Single::integer(0);
    let s = start_zoom();
    let z = zoom_settle();
    lemma_pow2_pos(149);
    lemma_zero();
    lemma_integer(1);
    assert(1 * u == u);
    lemma_start_zoom();
    lemma_zoom_settle();
    lemma_over_increases(p, p, z);
    lemma_clamped(p.over(z), p.over(z));
    let t = smoothstep(p.over(z).clamped());
    lemma_smoothstep_range(p.over(z).clamped());
    let rest = one.minus(s);
    let way = rest.times(t);
    lemma_times_increases(rest, zero, t);
    lemma_zero_times(zero, t);
    lemma_negated(rest);
    lemma_times_increases(t, one, rest.negated());
    lemma_one_times(rest.negated());
    assert(way.value() == -t.times(rest.negated()).value() && !way.is_nan() && way.size()
        == t.times(rest.negated()).size()) by {
        reveal(Single::spec_times);
        lemma_rounded(rest.negative() != t.negative(), rest.size() * t.size(), u);
        lemma_rounded(t.negative() != rest.negated().negative(), t.size() * rest.size(), u);
        assert(rest.size() * t.size() == t.size() * rest.size()) by (nonlinear_arith);
    }
    assert(rest.value() <= way.value() <= 0);
    lemma_smaller_is_finite(way, rest);
    lemma_plus_commutes(s, way);
    lemma_plus_commutes(s, rest);
    lemma_plus_commutes(s, zero);
    lemma_plus_increases(rest, way, s);
    lemma_plus_increases(way, zero, s);
    lemma_plus_exact(s, rest, 1, 149);
    lemma_plus_zero(s, zero);
    if zoom_at(p).negative() {
        assert(zoom_at(p).value() <= 0);
    }
    lemma_smaller_is_finite(zoom_at(p), s);
}

/// A number that is not further from zero than a finite one is finite.
pub proof fn lemma_smaller_is_finite(a: Single, b: Single)
    requires
        !a.is_nan(),
        b.is_finite(),
        a.size() <= b.size(),
    ensures
        a.is_finite(),
{
    if a.is_infinite() {
        lemma_magnitude_increases(b.magnitude_bits(), a.magnitude_bits());
    }
}

/// A positive number plus zero is the number.
pub proof fn lemma_plus_zero(a: Single, z: Single)
    requires
        a.is_finite(),
        a.value() > 0,
        z.is_finite(),
        z.value() == 0,
    ensures
        a.plus(z) == a,
{
    reveal(Single::spec_plus);
    lemma_zero();
    lemma_round_exact(a.magnitude_bits());
}

} // verus!
