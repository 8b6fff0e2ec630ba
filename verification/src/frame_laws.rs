//! What a frame of the rain shows: all of it, nothing else, and in which order.
//!
//! A step of a frame belongs to a column and is of one of four sorts: the mask of the
//! column, a row of its old text, the new character that slides into place, or a cell of
//! its stream. When there is such a step, and what it looks like, is said here of the
//! captured screens and of how far the column is.

use crate::error_laws::lemma_times_error;
use crate::hash_laws::fnv;
use crate::hash_laws::lemma_column_picks;
use crate::hash_laws::lemma_stream_glyph;
use crate::nearest_laws::lemma_comparisons;
use crate::rain_frame::column_in_frame;
use crate::rain_frame::column_steps;
use crate::rain_frame::frame_steps;
use crate::rain_frame::mask_steps;
use crate::rain_frame::new_steps;
use crate::rain_frame::old_color;
use crate::rain_frame::old_row;
use crate::rain_frame::old_row_shown;
use crate::rain_frame::old_steps;
use crate::rain_frame::stream_color;
use crate::rain_frame::stream_glyph;
use crate::rain_frame::stream_row;
use crate::rain_frame::stream_shown;
use crate::rain_frame::stream_steps;
use crate::rain_frame::Column;
use crate::rain_frame::FrameSetup;
use crate::rain_frame::GlyphSource;
use crate::rain_frame::RainGeometry;
use crate::rain_frame::RainStep;
use crate::rain_laws::lemma_clamped;
use crate::rain_laws::lemma_plus_zero;
use crate::rain_laws::row_limit;
use crate::rounding::lemma_magnitude_increases;
use crate::rounding::lemma_round_bits_zero;
use crate::rounding::lemma_round_fits;
use crate::rounding::lemma_round_increases;
use crate::rounding::round_bits;
use crate::single::one_in_units;
use crate::single::Single;
use crate::single_laws::lemma_below_one_is_finite;
use crate::single_laws::lemma_integer;
use crate::single_laws::lemma_integer_difference;
use crate::single_laws::lemma_integer_sum;
use crate::single_laws::lemma_over_increases;
use crate::single_laws::lemma_over_self;
use crate::single_laws::lemma_plus_commutes;
use crate::single_laws::lemma_plus_increases;
use crate::single_laws::lemma_rounded;
use crate::single_laws::lemma_times_increases;
use crate::single_laws::lemma_zero;
use crate::single_laws::lemma_zero_times;
use crate::term_window::TabSwitchAnim;
use crate::window_laws::lemma_integer_product;
use vstd::arithmetic::power2::lemma2_to64;
use vstd::arithmetic::power2::lemma_pow2_adds;
use vstd::arithmetic::power2::lemma_pow2_pos;
use vstd::arithmetic::power2::lemma_pow2_strictly_increases;
use vstd::arithmetic::power2::pow2;
use vstd::prelude::*;

verus! {

/// The sorts of steps, in the order in which they are painted.
pub enum Sort {
    Mask,
    /// This row of the old text.
    Old(int),
    New,
    /// This cell of the stream, from its top.
    Stream(int),
}

/// The place of a sort in its column: what is painted first is the lowest.
pub open spec fn rank(sort: Sort) -> (int, int) {
    match sort {
        Sort::Mask => (0, 0),
        Sort::Old(r) => (1, r),
        Sort::New => (2, 0),
        Sort::Stream(j) => (3, j),
    }
}

/// A step of the first column and sort is painted before one of the second.
pub open spec fn earlier(c: usize, sort: Sort, d: usize, other: Sort) -> bool {
    c < d || (c == d && (rank(sort).0 < rank(other).0 || (rank(sort).0 == rank(other).0 && rank(
        sort,
    ).1 < rank(other).1)))
}

/// The column, which is at `cd`, has a step of this sort.
///
/// It has a mask while a changed row is not built yet; each row of the old text that has
/// not fallen below the last changed row by 0.999; the new character while it is between
/// the top and the last changed row; and each cell of the stream that is between the top
/// and the last changed row of the pane.
pub open spec fn is_due(anim: TabSwitchAnim, setup: FrameSetup, cd: Column, sort: Sort) -> bool {
    &&& cd.depth >= 0
    &&& match sort {
        Sort::Mask => cd.front_row < cd.depth,
        Sort::Old(r) => {
            let fallen = Single::integer(r).plus(cd.fall);
            let bottom = Single::integer(cd.depth as int).plus(Single::fraction(999, 1000));
            &&& anim.old_cells@.len() > 0
            &&& 0 <= r <= cd.depth
            &&& fallen.is_nan() || bottom.is_nan() || fallen.value() <= bottom.value()
        },
        Sort::New => -1 <= cd.front_row < cd.depth && !cd.settle.is_nan() && cd.settle.value()
            >= 0,
        Sort::Stream(j) => {
            let row = cd.front_row + cd.gap + 2 + j;
            setup.palette_len > 0 && 0 <= j < cd.matrix && 0 <= row <= cd.depth && row < setup.rows
        },
    }
}

/// What a step of this sort looks like in column `c`, which is at `cd`.
///
/// The mask is as wide as a cell and goes from the first row that is not built to the
/// last changed one. Old text is green, brighter the deeper it is; the new character and
/// the last cell of the stream are almost white; the rest of the stream is green, brighter
/// and denser towards its end.
pub open spec fn looks(
    anim: TabSwitchAnim,
    setup: FrameSetup,
    cd: Column,
    c: usize,
    sort: Sort,
    step: RainStep,
) -> bool {
    let g = setup.geometry;
    let zero = Single { bits: 0 };
    let one = Single::integer(1);
    match sort {
        Sort::Mask => {
            let top = if cd.front_row < 0 {
                0
            } else {
                cd.front_row + 1
            };
            step matches RainStep::Mask(rect) && rect.width == g.cell_w && rect.x == g.ox.plus(
                Single::integer(c as int).times(g.cell_w),
            ) && rect.y == g.oy.plus(Single::integer(top).times(g.cell_h)) && rect.height
                == g.oy.plus(Single::integer(cd.depth + 1).times(g.cell_h)).minus(rect.y)
        },
        Sort::Old(r) => step matches RainStep::Glyph { source, col, row, color } && source
            == GlyphSource::Old((r * anim.cols + c) as usize) && col == c && row
            == Single::integer(r).plus(cd.fall) && color.red == zero && color.green
            == Single::fraction(40, 100).plus(
            Single::fraction(55, 100).times(
                row.over(Single::integer(cd.depth as int).plus(one)).clamped(),
            ),
        ) && color.blue == Single::fraction(12, 100).times(color.green) && color.alpha == one,
        Sort::New => step matches RainStep::Glyph { source, col, row, color } && source
            == GlyphSource::New(((cd.front_row + 1) * anim.cols + c) as usize) && col == c && row
            == cd.settle && color.red == Single::fraction(80, 100) && color.green == one
            && color.blue == Single::fraction(85, 100) && color.alpha == one,
        Sort::Stream(j) => {
            let at = cd.front_row + cd.gap + 2 + j;
            let share = Single::integer(j + 1).over(Single::integer(cd.matrix as int));
            step matches RainStep::Glyph { source, col, row, color } && source
                == GlyphSource::Stream(
                (fnv((c as nat % 0x1_0000_0000) as u32, at as u32, setup.quantum) % (
                setup.palette_len as nat)) as usize,
            ) && col == c && row == Single::integer(at) && (if j + 1 == cd.matrix {
                color.red == Single::fraction(75, 100) && color.green == one && color.blue
                    == Single::fraction(80, 100) && color.alpha == one
            } else {
                color.red == zero && color.green == Single::fraction(25, 100).plus(
                    Single::fraction(75, 100).times(share),
                ) && color.blue == Single::fraction(10, 100).times(color.green) && color.alpha
                    == Single::fraction(35, 100).plus(Single::fraction(65, 100).times(share))
            })
        },
    }
}

/// A column is as deep as its deepest changed row, or as the pane where that is shorter,
/// and has the lengths that it picked.
pub proof fn lemma_column_of_frame(anim: TabSwitchAnim, setup: FrameSetup, c: usize)
    requires
        anim.wf(),
        c < anim.cols,
        0 < setup.rows <= anim.rows,
    ensures
        ({
            let cd = column_in_frame(anim, setup, c);
            let n = (c as nat % 0x1_0000_0000) as u32;
            &&& cd.depth <= anim.depth@[c as int]
            &&& cd.depth < setup.rows
            &&& cd.depth == anim.depth@[c as int] || cd.depth == setup.rows - 1
            &&& cd.depth < 0 <==> anim.depth@[c as int] < 0
            &&& cd.matrix == 3 + fnv(n, 1, 0) % 10
            &&& cd.gap == 1 + fnv(n, 2, 0) % 2
        }),
{
    lemma_column_picks(c);
    assert(-1 <= anim.depth@[c as int] < anim.rows);
}

/// The row of old text that has not fallen too far is a step of the column.
proof fn lemma_old_has(cd: Column, c: usize, cols: usize, n: nat, r: int) -> (i: int)
    requires
        0 <= r < n,
        old_row_shown(cd, r),
    ensures
        0 <= i < old_steps(cd, c, cols, n).len(),
        old_steps(cd, c, cols, n)[i] == (RainStep::Glyph {
            source: GlyphSource::Old((r * cols + c) as usize),
            col: c,
            row: old_row(cd, r),
            color: old_color(cd, old_row(cd, r)),
        }),
    decreases n,
{
    if r == n - 1 {
        old_steps(cd, c, cols, n).len() - 1
    } else {
        lemma_old_has(cd, c, cols, (n - 1) as nat, r)
    }
}

/// The cell of the stream that is in the changed region is a step of the column.
proof fn lemma_stream_has(cd: Column, c: usize, setup: FrameSetup, n: nat, j: int) -> (i: int)
    requires
        0 <= j < n,
        stream_shown(cd, setup.rows as int, j),
    ensures
        0 <= i < stream_steps(cd, c, setup, n).len(),
        stream_steps(cd, c, setup, n)[i] == (RainStep::Glyph {
            source: GlyphSource::Stream(
                stream_glyph(c, stream_row(cd, j), setup.quantum, setup.palette_len),
            ),
            col: c,
            row: Single::integer(stream_row(cd, j)),
            color: stream_color(cd, j),
        }),
    decreases n,
{
    if j == n - 1 {
        stream_steps(cd, c, setup, n).len() - 1
    } else {
        lemma_stream_has(cd, c, setup, (n - 1) as nat, j)
    }
}

/// The parts of a column, one after the other.
proof fn lemma_parts(
    anim: TabSwitchAnim,
    setup: FrameSetup,
    cd: Column,
    c: usize,
) -> (parts: (Seq<RainStep>, Seq<RainStep>, Seq<RainStep>, Seq<RainStep>))
    requires
        cd.depth >= 0,
    ensures
        parts.0 == mask_steps(cd, c, setup.geometry),
        parts.1 == (if anim.old_cells@.len() > 0 {
            old_steps(cd, c, anim.cols, (cd.depth + 1) as nat)
        } else {
            Seq::empty()
        }),
        parts.2 == new_steps(cd, c, anim.cols),
        parts.3 == (if setup.palette_len > 0 {
            stream_steps(cd, c, setup, cd.matrix as nat)
        } else {
            Seq::empty()
        }),
        column_steps(cd, c, anim.cols, anim.old_cells@.len() > 0, setup) == parts.0 + parts.1
            + parts.2 + parts.3,
{
    (
        mask_steps(cd, c, setup.geometry),
        if anim.old_cells@.len() > 0 {
            old_steps(cd, c, anim.cols, (cd.depth + 1) as nat)
        } else {
            Seq::empty()
        },
        new_steps(cd, c, anim.cols),
        if setup.palette_len > 0 {
            stream_steps(cd, c, setup, cd.matrix as nat)
        } else {
            Seq::empty()
        },
    )
}

/// A row of the old text is not too far down where the numbers say so.
proof fn lemma_shown_by_value(cd: Column, r: int)
    ensures
        ({
            let fallen = Single::integer(r).plus(cd.fall);
            let bottom = Single::integer(cd.depth as int).plus(Single::fraction(999, 1000));
            old_row_shown(cd, r) == (fallen.is_nan() || bottom.is_nan() || fallen.value()
                <= bottom.value())
        }),
{
    lemma_comparisons(
        Single::integer(cd.depth as int).plus(Single::fraction(999, 1000)),
        Single::integer(r).plus(cd.fall),
    );
}

/// What is due in a column is one of its steps.
proof fn lemma_column_is_complete(
    anim: TabSwitchAnim,
    setup: FrameSetup,
    cd: Column,
    c: usize,
    sort: Sort,
) -> (i: int)
    requires
        is_due(anim, setup, cd, sort),
        setup.rows <= i32::MAX,
    ensures
        ({
            let steps = column_steps(cd, c, anim.cols, anim.old_cells@.len() > 0, setup);
            0 <= i < steps.len() && looks(anim, setup, cd, c, sort, steps[i])
        }),
{
    let (masks, olds, news, streams) = lemma_parts(anim, setup, cd, c);
    let steps = column_steps(cd, c, anim.cols, anim.old_cells@.len() > 0, setup);
    let a = masks.len() as int;
    let b = a + olds.len();
    let d = b + news.len();
    match sort {
        Sort::Mask => {
            assert(steps[0] == masks[0]);
            0
        },
        Sort::Old(r) => {
            lemma_shown_by_value(cd, r);
            let i = lemma_old_has(cd, c, anim.cols, (cd.depth + 1) as nat, r);
            lemma_old_looks(anim, setup, cd, c, r);
            assert(steps[a + i] == olds[i]);
            a + i
        },
        Sort::New => {
            lemma_zero();
            lemma_comparisons(cd.settle, Single { bits: 0 });
            assert(steps[b] == news[0]);
            b
        },
        Sort::Stream(j) => {
            assert(stream_shown(cd, setup.rows as int, j));
            let i = lemma_stream_has(cd, c, setup, cd.matrix as nat, j);
            lemma_stream_glyph(c, stream_row(cd, j), setup.quantum, setup.palette_len);
            assert(steps[d + i] == streams[i]);
            d + i
        },
    }
}

/// A step of a column is a step of a frame that has the column.
proof fn lemma_frame_has(anim: TabSwitchAnim, setup: FrameSetup, n: nat, c: usize, i: int) -> (j:
    int)
    requires
        c < n,
        n <= usize::MAX,
        0 <= i < column_steps(
            column_in_frame(anim, setup, c),
            c,
            anim.cols,
            anim.old_cells@.len() > 0,
            setup,
        ).len(),
    ensures
        0 <= j < frame_steps(anim, setup, n).len(),
        frame_steps(anim, setup, n)[j] == column_steps(
            column_in_frame(anim, setup, c),
            c,
            anim.cols,
            anim.old_cells@.len() > 0,
            setup,
        )[i],
    decreases n,
{
    let before = frame_steps(anim, setup, (n - 1) as nat);
    if c == n - 1 {
        before.len() + i
    } else {
        lemma_frame_has(anim, setup, (n - 1) as nat, c, i)
    }
}

/// Every changed column is painted, all of it: whatever is due in a column of the frame is
/// among the steps of the frame.
pub proof fn lemma_frame_is_complete(
    anim: TabSwitchAnim,
    setup: FrameSetup,
    c: usize,
    sort: Sort,
)
    requires
        anim.wf(),
        setup.cols <= anim.cols,
        0 < setup.rows <= anim.rows,
        c < setup.cols,
        is_due(anim, setup, column_in_frame(anim, setup, c), sort),
    ensures
        ({
            let steps = frame_steps(anim, setup, setup.cols as nat);
            exists|i: int|
                0 <= i < steps.len() && looks(
                    anim,
                    setup,
                    column_in_frame(anim, setup, c),
                    c,
                    sort,
                    #[trigger] steps[i],
                )
        }),
{
    let cd = column_in_frame(anim, setup, c);
    let i = lemma_column_is_complete(anim, setup, cd, c, sort);
    let j = lemma_frame_has(anim, setup, setup.cols as nat, c, i);
    let steps = frame_steps(anim, setup, setup.cols as nat);
    assert(looks(anim, setup, cd, c, sort, steps[j]));
}

/// The row of old text that a step is of.
proof fn lemma_old_place(cd: Column, c: usize, cols: usize, n: nat, i: int) -> (r: int)
    requires
        0 <= i < old_steps(cd, c, cols, n).len(),
    ensures
        0 <= r < n,
        old_row_shown(cd, r),
        old_steps(cd, c, cols, n)[i] == (RainStep::Glyph {
            source: GlyphSource::Old((r * cols + c) as usize),
            col: c,
            row: old_row(cd, r),
            color: old_color(cd, old_row(cd, r)),
        }),
    decreases n,
{
    let before = old_steps(cd, c, cols, (n - 1) as nat);
    if n > 0 && i < before.len() {
        lemma_old_place(cd, c, cols, (n - 1) as nat, i)
    } else {
        n - 1
    }
}

/// Rows of old text come from the top down.
proof fn lemma_old_order(cd: Column, c: usize, cols: usize, n: nat, i: int, j: int) -> (rows: (
    int,
    int,
))
    requires
        0 <= i < j < old_steps(cd, c, cols, n).len(),
    ensures
        0 <= rows.0 < rows.1 < n,
        old_row_shown(cd, rows.0),
        old_row_shown(cd, rows.1),
        old_steps(cd, c, cols, n)[i] == (RainStep::Glyph {
            source: GlyphSource::Old((rows.0 * cols + c) as usize),
            col: c,
            row: old_row(cd, rows.0),
            color: old_color(cd, old_row(cd, rows.0)),
        }),
        old_steps(cd, c, cols, n)[j] == (RainStep::Glyph {
            source: GlyphSource::Old((rows.1 * cols + c) as usize),
            col: c,
            row: old_row(cd, rows.1),
            color: old_color(cd, old_row(cd, rows.1)),
        }),
    decreases n,
{
    let before = old_steps(cd, c, cols, (n - 1) as nat);
    if n > 0 && j < before.len() {
        lemma_old_order(cd, c, cols, (n - 1) as nat, i, j)
    } else {
        let r = lemma_old_place(cd, c, cols, (n - 1) as nat, i);
        (r, n - 1)
    }
}

/// The cell of the stream that a step is of.
proof fn lemma_stream_place(cd: Column, c: usize, setup: FrameSetup, n: nat, i: int) -> (j: int)
    requires
        0 <= i < stream_steps(cd, c, setup, n).len(),
    ensures
        0 <= j < n,
        stream_shown(cd, setup.rows as int, j),
        stream_steps(cd, c, setup, n)[i] == (RainStep::Glyph {
            source: GlyphSource::Stream(
                stream_glyph(c, stream_row(cd, j), setup.quantum, setup.palette_len),
            ),
            col: c,
            row: Single::integer(stream_row(cd, j)),
            color: stream_color(cd, j),
        }),
    decreases n,
{
    let before = stream_steps(cd, c, setup, (n - 1) as nat);
    if n > 0 && i < before.len() {
        lemma_stream_place(cd, c, setup, (n - 1) as nat, i)
    } else {
        n - 1
    }
}

/// Cells of the stream come from the top down.
proof fn lemma_stream_order(
    cd: Column,
    c: usize,
    setup: FrameSetup,
    n: nat,
    i: int,
    k: int,
) -> (cells: (int, int))
    requires
        0 <= i < k < stream_steps(cd, c, setup, n).len(),
    ensures
        0 <= cells.0 < cells.1 < n,
        stream_shown(cd, setup.rows as int, cells.0),
        stream_shown(cd, setup.rows as int, cells.1),
        stream_steps(cd, c, setup, n)[i] == (RainStep::Glyph {
            source: GlyphSource::Stream(
                stream_glyph(c, stream_row(cd, cells.0), setup.quantum, setup.palette_len),
            ),
            col: c,
            row: Single::integer(stream_row(cd, cells.0)),
            color: stream_color(cd, cells.0),
        }),
        stream_steps(cd, c, setup, n)[k] == (RainStep::Glyph {
            source: GlyphSource::Stream(
                stream_glyph(c, stream_row(cd, cells.1), setup.quantum, setup.palette_len),
            ),
            col: c,
            row: Single::integer(stream_row(cd, cells.1)),
            color: stream_color(cd, cells.1),
        }),
    decreases n,
{
    let before = stream_steps(cd, c, setup, (n - 1) as nat);
    if n > 0 && k < before.len() {
        lemma_stream_order(cd, c, setup, (n - 1) as nat, i, k)
    } else {
        let j = lemma_stream_place(cd, c, setup, (n - 1) as nat, i);
        (j, n - 1)
    }
}

/// A row of old text looks as its sort does.
proof fn lemma_old_looks(anim: TabSwitchAnim, setup: FrameSetup, cd: Column, c: usize, r: int)
    requires
        cd.depth >= 0,
        anim.old_cells@.len() > 0,
        0 <= r <= cd.depth,
        old_row_shown(cd, r),
    ensures
        is_due(anim, setup, cd, Sort::Old(r)),
        looks(
            anim,
            setup,
            cd,
            c,
            Sort::Old(r),
            (RainStep::Glyph {
                source: GlyphSource::Old((r * anim.cols + c) as usize),
                col: c,
                row: old_row(cd, r),
                color: old_color(cd, old_row(cd, r)),
            }),
        ),
{
    lemma_shown_by_value(cd, r);
}

/// A cell of the stream looks as its sort does.
proof fn lemma_stream_looks(anim: TabSwitchAnim, setup: FrameSetup, cd: Column, c: usize, j: int)
    requires
        cd.depth >= 0,
        setup.palette_len > 0,
        setup.rows <= i32::MAX,
        0 <= j < cd.matrix,
        stream_shown(cd, setup.rows as int, j),
    ensures
        is_due(anim, setup, cd, Sort::Stream(j)),
        looks(
            anim,
            setup,
            cd,
            c,
            Sort::Stream(j),
            (RainStep::Glyph {
                source: GlyphSource::Stream(
                    stream_glyph(c, stream_row(cd, j), setup.quantum, setup.palette_len),
                ),
                col: c,
                row: Single::integer(stream_row(cd, j)),
                color: stream_color(cd, j),
            }),
        ),
{
    lemma_stream_glyph(c, stream_row(cd, j), setup.quantum, setup.palette_len);
}

/// A step of a column is of a sort that is due in it.
proof fn lemma_column_is_sound(
    anim: TabSwitchAnim,
    setup: FrameSetup,
    cd: Column,
    c: usize,
    i: int,
) -> (sort: Sort)
    requires
        setup.rows <= i32::MAX,
        cd.matrix >= 0,
        0 <= i < column_steps(cd, c, anim.cols, anim.old_cells@.len() > 0, setup).len(),
    ensures
        is_due(anim, setup, cd, sort),
        looks(
            anim,
            setup,
            cd,
            c,
            sort,
            column_steps(cd, c, anim.cols, anim.old_cells@.len() > 0, setup)[i],
        ),
        ({
            let a = mask_steps(cd, c, setup.geometry).len();
            let b = a + (if anim.old_cells@.len() > 0 {
                old_steps(cd, c, anim.cols, (cd.depth + 1) as nat).len()
            } else {
                0
            });
            let d = b + new_steps(cd, c, anim.cols).len();
            rank(sort).0 == if i < a {
                0int
            } else if i < b {
                1
            } else if i < d {
                2
            } else {
                3
            }
        }),
{
    let (masks, olds, news, streams) = lemma_parts(anim, setup, cd, c);
    let steps = column_steps(cd, c, anim.cols, anim.old_cells@.len() > 0, setup);
    let a = masks.len() as int;
    let b = a + olds.len();
    let d = b + news.len();
    if i < a {
        assert(steps[i] == masks[i]);
        Sort::Mask
    } else if i < b {
        assert(steps[i] == olds[i - a]);
        let r = lemma_old_place(cd, c, anim.cols, (cd.depth + 1) as nat, i - a);
        lemma_old_looks(anim, setup, cd, c, r);
        Sort::Old(r)
    } else if i < d {
        assert(steps[i] == news[i - b]);
        lemma_zero();
        lemma_comparisons(cd.settle, Single { bits: 0 });
        Sort::New
    } else {
        assert(steps[i] == streams[i - d]);
        let j = lemma_stream_place(cd, c, setup, cd.matrix as nat, i - d);
        lemma_stream_looks(anim, setup, cd, c, j);
        Sort::Stream(j)
    }
}

/// Two steps of a column that are in different parts are in the order of their sorts.
proof fn lemma_parts_order(
    anim: TabSwitchAnim,
    setup: FrameSetup,
    cd: Column,
    c: usize,
    i: int,
    k: int,
) -> (sorts: (Sort, Sort))
    requires
        setup.rows <= i32::MAX,
        cd.matrix >= 0,
        cd.depth >= 0,
        0 <= i < k < column_steps(cd, c, anim.cols, anim.old_cells@.len() > 0, setup).len(),
        ({
            let a = mask_steps(cd, c, setup.geometry).len();
            let b = a + (if anim.old_cells@.len() > 0 {
                old_steps(cd, c, anim.cols, (cd.depth + 1) as nat).len()
            } else {
                0
            });
            let d = b + new_steps(cd, c, anim.cols).len();
            !(a <= i && k < b) && i < d
        }),
    ensures
        is_due(anim, setup, cd, sorts.0),
        is_due(anim, setup, cd, sorts.1),
        looks(
            anim,
            setup,
            cd,
            c,
            sorts.0,
            column_steps(cd, c, anim.cols, anim.old_cells@.len() > 0, setup)[i],
        ),
        looks(
            anim,
            setup,
            cd,
            c,
            sorts.1,
            column_steps(cd, c, anim.cols, anim.old_cells@.len() > 0, setup)[k],
        ),
        rank(sorts.0).0 < rank(sorts.1).0,
{
    let first = lemma_column_is_sound(anim, setup, cd, c, i);
    let second = lemma_column_is_sound(anim, setup, cd, c, k);
    (first, second)
}

/// Two steps of a column are in the order of their sorts.
proof fn lemma_column_order(
    anim: TabSwitchAnim,
    setup: FrameSetup,
    cd: Column,
    c: usize,
    i: int,
    k: int,
) -> (sorts: (Sort, Sort))
    requires
        setup.rows <= i32::MAX,
        cd.matrix >= 0,
        0 <= i < k < column_steps(cd, c, anim.cols, anim.old_cells@.len() > 0, setup).len(),
    ensures
        is_due(anim, setup, cd, sorts.0),
        is_due(anim, setup, cd, sorts.1),
        looks(
            anim,
            setup,
            cd,
            c,
            sorts.0,
            column_steps(cd, c, anim.cols, anim.old_cells@.len() > 0, setup)[i],
        ),
        looks(
            anim,
            setup,
            cd,
            c,
            sorts.1,
            column_steps(cd, c, anim.cols, anim.old_cells@.len() > 0, setup)[k],
        ),
        earlier(c, sorts.0, c, sorts.1),
{
    let (masks, olds, news, streams) = lemma_parts(anim, setup, cd, c);
    let steps = column_steps(cd, c, anim.cols, anim.old_cells@.len() > 0, setup);
    let a = masks.len() as int;
    let b = a + olds.len();
    let d = b + news.len();
    if a <= i && k < b {
        assert(steps[i] == olds[i - a] && steps[k] == olds[k - a]);
        let (r, s) = lemma_old_order(cd, c, anim.cols, (cd.depth + 1) as nat, i - a, k - a);
        lemma_old_looks(anim, setup, cd, c, r);
        lemma_old_looks(anim, setup, cd, c, s);
        (Sort::Old(r), Sort::Old(s))
    } else if d <= i {
        assert(steps[i] == streams[i - d] && steps[k] == streams[k - d]);
        let (j, l) = lemma_stream_order(cd, c, setup, cd.matrix as nat, i - d, k - d);
        lemma_stream_looks(anim, setup, cd, c, j);
        lemma_stream_looks(anim, setup, cd, c, l);
        (Sort::Stream(j), Sort::Stream(l))
    } else {
        lemma_parts_order(anim, setup, cd, c, i, k)
    }
}

/// The column that a step of a frame is of, and its number among the steps of that.
proof fn lemma_frame_place(anim: TabSwitchAnim, setup: FrameSetup, n: nat, i: int) -> (place: (
    usize,
    int,
))
    requires
        n <= usize::MAX,
        0 <= i < frame_steps(anim, setup, n).len(),
    ensures
        place.0 < n,
        ({
            let steps = column_steps(
                column_in_frame(anim, setup, place.0),
                place.0,
                anim.cols,
                anim.old_cells@.len() > 0,
                setup,
            );
            0 <= place.1 < steps.len() && frame_steps(anim, setup, n)[i] == steps[place.1]
        }),
    decreases n,
{
    let before = frame_steps(anim, setup, (n - 1) as nat);
    if n > 0 && i < before.len() {
        lemma_frame_place(anim, setup, (n - 1) as nat, i)
    } else {
        ((n - 1) as usize, i - before.len())
    }
}

/// Nothing else is painted: each step of a frame is of a column of the frame and of a sort
/// that is due in it.
pub proof fn lemma_frame_is_sound(anim: TabSwitchAnim, setup: FrameSetup, i: int) -> (place: (
    usize,
    Sort,
))
    requires
        anim.wf(),
        setup.cols <= anim.cols,
        0 < setup.rows <= anim.rows,
        0 <= i < frame_steps(anim, setup, setup.cols as nat).len(),
    ensures
        place.0 < setup.cols,
        is_due(anim, setup, column_in_frame(anim, setup, place.0), place.1),
        looks(
            anim,
            setup,
            column_in_frame(anim, setup, place.0),
            place.0,
            place.1,
            frame_steps(anim, setup, setup.cols as nat)[i],
        ),
{
    let (c, k) = lemma_frame_place(anim, setup, setup.cols as nat, i);
    let sort = lemma_column_is_sound(anim, setup, column_in_frame(anim, setup, c), c, k);
    (c, sort)
}

/// Steps are painted column by column, from the left; within a column the mask, the old
/// text from the top down, the new character, and the stream from the top down, so that
/// the incoming build layers over the outgoing text. Nothing is painted twice.
pub proof fn lemma_frame_order(anim: TabSwitchAnim, setup: FrameSetup, n: nat, i: int, j: int) -> (
places: (usize, Sort, usize, Sort))
    requires
        anim.wf(),
        n <= anim.cols,
        0 < setup.rows <= anim.rows,
        0 <= i < j < frame_steps(anim, setup, n).len(),
    ensures
        ({
            let steps = frame_steps(anim, setup, n);
            let (c, sort, d, other) = places;
            &&& c < n && d < n
            &&& is_due(anim, setup, column_in_frame(anim, setup, c), sort)
            &&& is_due(anim, setup, column_in_frame(anim, setup, d), other)
            &&& looks(anim, setup, column_in_frame(anim, setup, c), c, sort, steps[i])
            &&& looks(anim, setup, column_in_frame(anim, setup, d), d, other, steps[j])
            &&& earlier(c, sort, d, other)
        }),
    decreases n,
{
    let before = frame_steps(anim, setup, (n - 1) as nat);
    let last = (n - 1) as usize;
    if n > 0 && j < before.len() {
        lemma_frame_order(anim, setup, (n - 1) as nat, i, j)
    } else {
        let cd = column_in_frame(anim, setup, last);
        let k = j - before.len();
        if i < before.len() {
            let (c, l) = lemma_frame_place(anim, setup, (n - 1) as nat, i);
            let sort = lemma_column_is_sound(anim, setup, column_in_frame(anim, setup, c), c, l);
            let other = lemma_column_is_sound(anim, setup, cd, last, k);
            (c, sort, last, other)
        } else {
            let (sort, other) = lemma_column_order(
                anim,
                setup,
                cd,
                last,
                i - before.len(),
                k,
            );
            (last, sort, last, other)
        }
    }
}

/// With whole numbers of pixels the mask of a column covers exactly its cells from the
/// first row that is not built to the last changed one.
pub proof fn lemma_mask_covers_its_rows(
    cd: Column,
    c: usize,
    g: RainGeometry,
    x: nat,
    y: nat,
    width: nat,
    height: nat,
)
    requires
        g.ox == Single::integer(x as int),
        g.oy == Single::integer(y as int),
        g.cell_w == Single::integer(width as int),
        g.cell_h == Single::integer(height as int),
        0 <= cd.depth < 0x80_0000,
        c < 0x80_0000,
        cd.front_row < cd.depth,
        0 < width,
        0 < height,
        x + (c + 1) * width < 0x100_0000,
        y + (cd.depth + 1) * height < 0x100_0000,
    ensures
        ({
            let top = if cd.front_row < 0 {
                0
            } else {
                cd.front_row + 1
            };
            let u = one_in_units();
            let steps = mask_steps(cd, c, g);
            &&& steps.len() == 1
            &&& steps[0] matches RainStep::Mask(rect) ==> {
                &&& rect.x.value() == (x + c * width) * u
                &&& rect.x.value() + rect.width.value() == (x + (c + 1) * width) * u
                &&& rect.y.value() == (y + top * height) * u
                &&& rect.y.value() + rect.height.value() == (y + (cd.depth + 1) * height) * u
            }
            &&& steps[0] is Mask
        }),
{
    let u = one_in_units() as int;
    let top = if cd.front_row < 0 {
        0
    } else {
        cd.front_row + 1
    };
    let d = cd.depth + 1;
    let w = width as int;
    let h = height as int;
    assert(0 <= c * w && (c + 1) * w == c * w + w && 0 <= top * h <= d * h && 0 < w && w < 0x100_0000
        && h < 0x100_0000) by (nonlinear_arith)
        requires
            0 <= c,
            0 <= top <= d,
            0 < d,
            0 < w,
            0 < h,
            (c + 1) * w < 0x100_0000,
            d * h < 0x100_0000,
    ;
    lemma_integer_product(c as nat, width);
    lemma_integer_product(top as nat, height);
    lemma_integer_product(d as nat, height);
    lemma_integer_sum(x as int, c * w);
    lemma_integer_sum(y as int, top * h);
    lemma_integer_sum(y as int, d * h);
    lemma_integer_difference(y + d * h, y + top * h);
    lemma_integer(x + c * w);
    lemma_integer(y + top * h);
    lemma_integer(d * h - top * h);
    lemma_integer(w);
    assert((x + c * w) * u + w * u == (x + (c * w + w)) * u && (y + top * h) * u + (d * h - top * h)
        * u == (y + d * h) * u) by (nonlinear_arith);
}

/// Old text is green, from two fifths on, and brighter the deeper it is.
pub proof fn lemma_old_text_brightens(cd: Column, a: Single, b: Single)
    requires
        0 <= cd.depth < row_limit(),
        a.is_finite(),
        b.is_finite(),
        a.value() <= b.value(),
    ensures
        ({
            let (first, second) = (old_color(cd, a), old_color(cd, b));
            &&& Single::fraction(40, 100).value() <= first.green.value() <= second.green.value()
            &&& first.red.value() == 0 && second.red.value() == 0
            &&& first.alpha.value() == one_in_units() && second.alpha.value() == one_in_units()
        }),
{
    let u = one_in_units();
    let d = Single::integer(cd.depth as int).plus(Single::integer(1));
    lemma_pow2_pos(149);
    lemma_zero();
    lemma_integer(1);
    assert(1 * u == u);
    lemma_integer_sum(cd.depth as int, 1);
    lemma_integer(cd.depth + 1);
    assert((cd.depth + 1) * u > 0) by (nonlinear_arith)
        requires
            cd.depth >= 0,
            u > 0,
    ;
    lemma_over_increases(a, b, d);
    lemma_clamped(a.over(d), b.over(d));
    lemma_ramp_of(40, 55, a.over(d).clamped(), b.over(d).clamped());
}

/// Hundredths below one are from zero to one.
proof fn lemma_fraction_below_one(n: nat)
    requires
        n <= 100,
    ensures
        Single::fraction(n, 100).is_finite(),
        !Single::fraction(n, 100).negative(),
        0 <= Single::fraction(n, 100).value() <= one_in_units(),
{
    let u = one_in_units();
    let f = Single::fraction(n, 100);
    lemma_pow2_pos(149);
    lemma_integer(1);
    assert(1 * u == u);
    reveal(Single::fraction);
    reveal(Single::integer);
    lemma_rounded(false, n * u, 100);
    assert((n * u) * 1 <= (1 * u) * 100) by (nonlinear_arith)
        requires
            n <= 100,
    ;
    lemma_round_increases(n * u, 100, 1 * u, 1);
    let one = Single::integer(1);
    if f.magnitude_bits() < one.magnitude_bits() {
        lemma_magnitude_increases(f.magnitude_bits(), one.magnitude_bits());
    }
    lemma_below_one_is_finite(f);
}

/// Hundredths are not zero.
proof fn lemma_fraction_positive(n: nat)
    requires
        1 <= n <= 100,
    ensures
        Single::fraction(n, 100).value() > 0,
{
    let u = one_in_units();
    lemma_pow2_pos(149);
    lemma2_to64();
    lemma_pow2_adds(7, 142);
    lemma_pow2_pos(142);
    lemma_fraction_below_one(n);
    reveal(Single::fraction);
    lemma_rounded(false, n * u, 100);
    let q = pow2(142);
    lemma_round_fits(1, 142);
    assert(1 * q == q);
    assert(q * 100 <= (n * u) * 1) by (nonlinear_arith)
        requires
            1 <= n,
            u == 128 * q,
    ;
    lemma_round_increases(q, 1, n * u, 100);
    let bits = round_bits(q, 1);
    let f = Single::fraction(n, 100);
    if bits < f.magnitude_bits() {
        lemma_magnitude_increases(bits, f.magnitude_bits());
    }
}

/// A product of numbers from zero to one is finite and not below zero.
proof fn lemma_below_one_product(a: Single, b: Single)
    requires
        a.is_finite(),
        b.is_finite(),
        !a.negative(),
        0 <= a.value() <= one_in_units(),
        0 <= b.value() <= one_in_units(),
    ensures
        a.times(b).is_finite(),
        a.times(b).value() >= 0,
{
    let u = one_in_units();
    lemma_pow2_pos(149);
    lemma_zero();
    lemma_pow2_strictly_increases(149, 200);
    assert(0 <= a.value() * b.value() <= pow2(200) * u) by (nonlinear_arith)
        requires
            0 <= a.value() <= u,
            0 <= b.value() <= u,
            pow2(200) >= u,
    ;
    lemma_times_error(a, b);
    lemma_times_commutes(a, b);
    lemma_times_increases(Single::integer(0), b, a);
    lemma_zero_times(Single::integer(0), a);
}

/// The order of a product does not matter.
proof fn lemma_times_commutes(a: Single, b: Single)
    requires
        a.is_finite(),
        b.is_finite(),
    ensures
        a.times(b) == b.times(a),
{
    reveal(Single::spec_times);
    assert(a.size() * b.size() == b.size() * a.size()) by (nonlinear_arith);
}

/// The stream is green, brighter and denser towards its end; only its last cell is almost
/// white.
pub proof fn lemma_stream_brightens(cd: Column, j: int, k: int)
    requires
        0 <= j <= k < cd.matrix - 1,
        cd.matrix < 0x100_0000,
    ensures
        ({
            let (first, second) = (stream_color(cd, j), stream_color(cd, k));
            &&& Single::fraction(25, 100).value() <= first.green.value() <= second.green.value()
            &&& Single::fraction(35, 100).value() <= first.alpha.value() <= second.alpha.value()
            &&& first.red.value() == 0 && second.red.value() == 0
        }),
{
    let u = one_in_units();
    let m = Single::integer(cd.matrix as int);
    lemma_pow2_pos(149);
    lemma_zero();
    lemma_integer(cd.matrix as int);
    lemma_integer(j + 1);
    lemma_integer(k + 1);
    assert(0 <= (j + 1) * u <= (k + 1) * u && (k + 1) * u <= cd.matrix * u && cd.matrix * u > 0)
        by (nonlinear_arith)
        requires
            0 <= j <= k,
            k + 1 <= cd.matrix,
            u > 0,
    ;
    lemma_over_increases(Single::integer(j + 1), Single::integer(k + 1), m);
    lemma_over_increases(Single::integer(k + 1), m, m);
    lemma_over_self(m);
    lemma_integer(1);
    assert(1 * u == u);
    let p = Single::integer(j + 1).over(m);
    let q = Single::integer(k + 1).over(m);
    lemma_over_increases(Single::integer(0), Single::integer(j + 1), m);
    assert(Single::integer(0).over(m).value() == 0) by {
        reveal(Single::spec_over);
        assert(Single::integer(0).size() * u == 0);
        lemma_round_bits_zero(0, m.size());
        lemma_rounded(false, 0, m.size());
    }
    lemma_below_one_is_finite(p);
    lemma_below_one_is_finite(q);
    lemma_ramp_of(25, 75, p, q);
    lemma_ramp_of(35, 65, p, q);
}

/// A base and a part of a span, of hundredths, grow with the part.
proof fn lemma_ramp_of(base: nat, span: nat, p: Single, q: Single)
    requires
        1 <= base <= 100,
        span <= 100,
        p.is_finite(),
        q.is_finite(),
        0 <= p.value() <= q.value() <= one_in_units(),
    ensures
        ({
            let low = Single::fraction(base, 100);
            let s = Single::fraction(span, 100);
            low.value() <= low.plus(s.times(p)).value() <= low.plus(s.times(q)).value()
        }),
{
    let low = Single::fraction(base, 100);
    let s = Single::fraction(span, 100);
    lemma_zero();
    lemma_fraction_below_one(base);
    lemma_fraction_below_one(span);
    lemma_fraction_positive(base);
    lemma_below_one_product(s, p);
    lemma_below_one_product(s, q);
    lemma_times_commutes(s, p);
    lemma_times_commutes(s, q);
    lemma_times_increases(p, q, s);
    lemma_plus_commutes(low, s.times(p));
    lemma_plus_commutes(low, s.times(q));
    lemma_plus_increases(s.times(p), s.times(q), low);
    lemma_plus_increases(Single::integer(0), s.times(p), low);
    lemma_plus_commutes(low, Single::integer(0));
    lemma_plus_zero(low, Single::integer(0));
}

} // verus!
