//! What one frame of the rain consists of.
//!
//! One descending coordinate ties the dissolve and the build of a column
//! together: the outgoing text's downward shift. The matrix stream sits just
//! above that text and the locked-in new text above the stream. So as the old
//! text pours off the bottom, the new screen flows in right behind it with only
//! a small gap, and no big black band between them.

use crate::hash::bridge_for;
use crate::hash::column_hash;
use crate::hash::hash3;
use crate::hash::hash_words;
use crate::screen::lemma_in_grid;
use crate::single::Single;
use crate::term_window::LinearRgba;
use crate::term_window::Rect;
use crate::term_window::TabSwitchAnim;
use vstd::prelude::*;

verus! {

/// Per-column matrix-glyph run length (the stream that leads each real char), in
/// cells. Each column picks a value in this inclusive range.
pub const MATRIX_MIN: i32 = 3;

/// The upper end of that range.
pub const MATRIX_MAX: i32 = 12;

/// Rain quads sit on the top quad layer so they cover the pane's text.
pub const LAYER: usize = 2;

/// Total length of the transition, in milliseconds.
pub open spec fn duration_ms() -> Single {
    Single::integer(4200)
}

/// Largest per-column head-start, as a fraction of the transition, so columns
/// finish building at slightly different times.
pub open spec fn phase_max() -> Single {
    Single::fraction(1, 4)
}

/// The effect's glyphs start this much larger than the cell and settle to 1.0x
/// over `zoom_settle` of the transition. 1.21 = two Ctrl+Plus steps (x1.1 each).
pub open spec fn start_zoom() -> Single {
    Single::fraction(121, 100)
}

/// How much of the transition the zoom takes to settle.
pub open spec fn zoom_settle() -> Single {
    Single::fraction(35, 100)
}

/// A ramp from zero to one that starts and ends level.
pub open spec fn smoothstep(t: Single) -> Single {
    t.times(t).times(Single::integer(3).minus(Single::integer(2).times(t)))
}

/// How much of the transition is over, from zero to one.
pub open spec fn progress(elapsed: Single) -> Single {
    elapsed.over(duration_ms()).clamped()
}

/// How much larger than the cell the glyphs are: a touch at the start, settling
/// to the normal size.
pub open spec fn zoom_at(p: Single) -> Single {
    let t = smoothstep(p.over(zoom_settle()).clamped());
    start_zoom().plus(Single::integer(1).minus(start_zoom()).times(t))
}

/// Which of the changing stream glyphs are up: their number changes with it.
pub open spec fn quantum_at(elapsed: Single) -> u32 {
    elapsed.over(Single::integer(60)).truncated(u32::MAX as nat) as u32
}

/// The length of a column's stream, in cells.
pub open spec fn stream_length(c: usize) -> int {
    MATRIX_MIN + (column_hash(c, 1) as int) % (MATRIX_MAX - MATRIX_MIN + 1)
}

/// The blank cells between the row of a column that is locking in and its stream.
pub open spec fn stream_gap(c: usize) -> int {
    1 + column_hash(c, 2) % 2
}

/// The blank cells between the bottom of a column's stream and the top of its falling
/// old text. Where the old text is between two rows, a part of a cell comes on top.
pub open spec fn stream_bridge(c: usize) -> int {
    1 + column_hash(c, 5) % 2
}

/// The rows by which a column's old text is ahead of its new text: the two rows that
/// the sliding character is in, the gap, the stream and the bridge.
pub open spec fn total_lead(c: usize) -> int {
    stream_gap(c) + stream_length(c) + stream_bridge(c) + 2
}

/// A column's head-start, as a fraction of the transition.
pub open spec fn phase(c: usize) -> Single {
    Single::integer((column_hash(c, 3) % 1000) as int).over(Single::integer(1000)).times(
        phase_max(),
    )
}

/// How much of a column's time is over, from zero to one.
pub open spec fn column_share(c: usize, p: Single) -> Single {
    p.minus(phase(c)).over(Single::integer(1).minus(phase_max())).clamped()
}

/// How much of its own way a column has gone, from zero to one.
pub open spec fn column_progress(c: usize, p: Single) -> Single {
    smoothstep(column_share(c, p))
}

/// Where a column is.
#[derive(Clone, Copy, PartialEq, Eq, Structural, Debug)]
pub struct Column {
    /// How far the old text has fallen, in rows.
    pub fall: Single,
    /// How far the new text has been built, in rows.
    pub settle: Single,
    /// The last row of the new text that is locked in.
    pub front_row: i32,
    pub gap: i32,
    pub matrix: i32,
    /// The deepest row that changes; -1 where none does.
    pub depth: i32,
}

/// Where a column is that has gone `fp` of its way. Both of its texts finish at
/// one: old fully off the bottom, all rows built.
pub open spec fn column_at(c: usize, depth: i32, fp: Single) -> Column {
    let lead = Single::integer(total_lead(c));
    let fall = fp.times(Single::integer(depth as int).plus(Single::integer(1)).plus(lead));
    let settle = fall.minus(lead);
    Column {
        fall,
        settle,
        front_row: settle.floor_to_i32(),
        gap: stream_gap(c) as i32,
        matrix: stream_length(c) as i32,
        depth,
    }
}

/// Where a frame is on the screen.
#[derive(Clone, Copy, PartialEq, Eq, Structural, Debug)]
pub struct RainGeometry {
    /// The top left corner of the pane's cell grid.
    pub ox: Single,
    pub oy: Single,
    pub cell_w: Single,
    pub cell_h: Single,
    /// Half of the window's extent: positions count from its centre.
    pub left_off: Single,
    pub top_off: Single,
    pub zoom: Single,
}

/// What the glyph of a step is.
#[derive(Clone, Copy, PartialEq, Eq, Structural, Debug)]
pub enum GlyphSource {
    /// The text at this place of the old grid.
    Old(usize),
    /// The text at this place of the new grid.
    New(usize),
    /// This glyph of the palette.
    Stream(usize),
}

/// One thing to paint.
#[derive(Clone, Copy, PartialEq, Eq, Structural, Debug)]
pub enum RainStep {
    /// Cover this area.
    Mask(Rect),
    /// Draw a glyph in this column, at this row, which need not be whole.
    Glyph { source: GlyphSource, col: usize, row: Single, color: LinearRgba },
}

/// What the steps of a frame depend on, besides the transition.
#[derive(Clone, Copy, PartialEq, Eq, Structural, Debug)]
pub struct FrameSetup {
    pub geometry: RainGeometry,
    /// How much of the transition is over.
    pub progress: Single,
    pub quantum: u32,
    pub cols: usize,
    pub rows: usize,
    pub palette_len: usize,
}

/// The first row that a column's mask covers: the one below the build front.
pub open spec fn mask_top(cd: Column) -> int {
    if cd.front_row + 1 > 0 {
        cd.front_row + 1
    } else {
        0
    }
}

/// The region below the build front, down to the deepest change. Above the front,
/// the locked-in new text shows through.
pub open spec fn mask_rect(cd: Column, c: usize, g: RainGeometry) -> Rect {
    let y0 = g.oy.plus(Single::integer(mask_top(cd)).times(g.cell_h));
    let y1 = g.oy.plus(Single::integer(cd.depth + 1).times(g.cell_h));
    Rect {
        x: g.ox.plus(Single::integer(c as int).times(g.cell_w)),
        y: y0,
        width: g.cell_w,
        height: y1.minus(y0),
    }
}

/// The mask of a column.
pub open spec fn mask_steps(cd: Column, c: usize, g: RainGeometry) -> Seq<RainStep> {
    if mask_top(cd) <= cd.depth {
        seq![RainStep::Mask(mask_rect(cd, c, g))]
    } else {
        Seq::empty()
    }
}

/// Where row `r` of the old text has fallen to.
pub open spec fn old_row(cd: Column, r: int) -> Single {
    Single::integer(r).plus(cd.fall)
}

/// Row `r` of the old text is not yet off the bottom of the changed region.
pub open spec fn old_row_shown(cd: Column, r: int) -> bool {
    !Single::integer(cd.depth as int).plus(Single::fraction(999, 1000)).below(old_row(cd, r))
}

/// The colour of old text at this row: the deeper, the brighter.
pub open spec fn old_color(cd: Column, yrow: Single) -> LinearRgba {
    let down = yrow.over(Single::integer(cd.depth as int).plus(Single::integer(1))).clamped();
    let g = Single::fraction(40, 100).plus(Single::fraction(55, 100).times(down));
    LinearRgba {
        red: Single { bits: 0 },
        green: g,
        blue: Single::fraction(12, 100).times(g),
        alpha: Single::integer(1),
    }
}

/// The falling old text of a column, as far as its first `n` rows.
pub open spec fn old_steps(cd: Column, c: usize, cols: usize, n: nat) -> Seq<RainStep>
    decreases n,
{
    if n == 0 {
        Seq::empty()
    } else {
        let before = old_steps(cd, c, cols, (n - 1) as nat);
        if old_row_shown(cd, n - 1) {
            before.push(
                RainStep::Glyph {
                    source: GlyphSource::Old(((n - 1) * cols + c) as usize),
                    col: c,
                    row: old_row(cd, n - 1),
                    color: old_color(cd, old_row(cd, n - 1)),
                },
            )
        } else {
            before
        }
    }
}

/// The colour of the new glyph that slides into place.
pub open spec fn new_color() -> LinearRgba {
    LinearRgba {
        red: Single::fraction(80, 100),
        green: Single::integer(1),
        blue: Single::fraction(85, 100),
        alpha: Single::integer(1),
    }
}

/// The new real glyph slides down sub-cell, riding the fractional front. There is
/// none while the front is still above the top edge.
pub open spec fn new_steps(cd: Column, c: usize, cols: usize) -> Seq<RainStep> {
    let r = cd.front_row + 1;
    if 0 <= r <= cd.depth && cd.settle.at_least(Single { bits: 0 }) {
        seq![
            RainStep::Glyph {
                source: GlyphSource::New((r * cols + c) as usize),
                col: c,
                row: cd.settle,
                color: new_color(),
            },
        ]
    } else {
        Seq::empty()
    }
}

/// The row of cell `j` of a column's stream: below the new char, separated by the
/// gap's blanks.
pub open spec fn stream_row(cd: Column, j: int) -> int {
    cd.front_row + 1 + cd.gap + 1 + j
}

/// Cell `j` of a column's stream is in the changed region of the pane.
pub open spec fn stream_shown(cd: Column, rows: int, j: int) -> bool {
    0 <= stream_row(cd, j) <= cd.depth && stream_row(cd, j) < rows
}

/// The glyph of the palette that is up in this cell.
pub open spec fn stream_glyph(c: usize, row: int, quantum: u32, palette_len: usize) -> usize {
    ((hash_words(seq![c as u32, row as u32, quantum]) as nat) % (palette_len as nat)) as usize
}

/// The colour of cell `j` of a column's stream: brighter towards its head, which
/// is almost white.
pub open spec fn stream_color(cd: Column, j: int) -> LinearRgba {
    let b = Single::integer(j + 1).over(Single::integer(cd.matrix as int));
    if j == cd.matrix - 1 {
        LinearRgba {
            red: Single::fraction(75, 100),
            green: Single::integer(1),
            blue: Single::fraction(80, 100),
            alpha: Single::integer(1),
        }
    } else {
        let g = Single::fraction(25, 100).plus(Single::fraction(75, 100).times(b));
        LinearRgba {
            red: Single { bits: 0 },
            green: g,
            blue: Single::fraction(10, 100).times(g),
            alpha: Single::fraction(35, 100).plus(Single::fraction(65, 100).times(b)),
        }
    }
}

/// The first `n` cells of a column's stream.
pub open spec fn stream_steps(cd: Column, c: usize, setup: FrameSetup, n: nat) -> Seq<RainStep>
    decreases n,
{
    if n == 0 {
        Seq::empty()
    } else {
        let before = stream_steps(cd, c, setup, (n - 1) as nat);
        let row = stream_row(cd, n - 1);
        if stream_shown(cd, setup.rows as int, n - 1) {
            before.push(
                RainStep::Glyph {
                    source: GlyphSource::Stream(
                        stream_glyph(c, row, setup.quantum, setup.palette_len),
                    ),
                    col: c,
                    row: Single::integer(row),
                    color: stream_color(cd, n - 1),
                },
            )
        } else {
            before
        }
    }
}

/// The steps of one column. Draw order within a column: black mask, falling old
/// text, building new text, so the incoming build layers over the outgoing text
/// where they meet. An unchanged column has none: its text just stays put.
pub open spec fn column_steps(
    cd: Column,
    c: usize,
    cols: usize,
    has_old: bool,
    setup: FrameSetup,
) -> Seq<RainStep> {
    if cd.depth < 0 {
        Seq::empty()
    } else {
        mask_steps(cd, c, setup.geometry) + (if has_old {
            old_steps(cd, c, cols, (cd.depth + 1) as nat)
        } else {
            Seq::empty()
        }) + new_steps(cd, c, cols) + (if setup.palette_len > 0 {
            stream_steps(cd, c, setup, cd.matrix as nat)
        } else {
            Seq::empty()
        })
    }
}

/// The deepest changed row of a column that is in the pane.
pub open spec fn visible_depth(depth: i32, rows: usize) -> i32 {
    if depth <= rows - 1 {
        depth
    } else {
        (rows - 1) as i32
    }
}

/// Where column `c` of a transition is in a frame.
pub open spec fn column_in_frame(anim: TabSwitchAnim, setup: FrameSetup, c: usize) -> Column {
    column_at(
        c,
        visible_depth(anim.depth@[c as int], setup.rows),
        column_progress(c, setup.progress),
    )
}

/// The steps of the first `n` columns of a frame.
pub open spec fn frame_steps(anim: TabSwitchAnim, setup: FrameSetup, n: nat) -> Seq<RainStep>
    decreases n,
{
    if n == 0 {
        Seq::empty()
    } else {
        let c = (n - 1) as usize;
        frame_steps(anim, setup, (n - 1) as nat) + column_steps(
            column_in_frame(anim, setup, c),
            c,
            anim.cols,
            anim.old_cells@.len() > 0,
            setup,
        )
    }
}

/// The ramp at `t`.
fn smoothed(t: Single) -> (r: Single)
    ensures
        r == smoothstep(t),
{
    t.times(t).times(Single::from_u64(3).minus(Single::from_u64(2).times(t)))
}

/// How much of the transition is over after this many milliseconds.
pub fn rain_progress(elapsed: Single) -> (p: Single)
    ensures
        p == progress(elapsed),
{
    elapsed.over(Single::from_u64(4200)).clamped()
}

/// The size of the glyphs, as a multiple of the normal one. The effect starts a
/// touch larger and settles to the normal cell size.
pub fn rain_zoom(p: Single) -> (zoom: Single)
    ensures
        zoom == zoom_at(p),
{
    let t = smoothed(p.over(Single::ratio(35, 100)).clamped());
    let start = Single::ratio(121, 100);
    start.plus(Single::from_u64(1).minus(start).times(t))
}

/// Which of the changing stream glyphs are up.
pub fn rain_quantum(elapsed: Single) -> (quantum: u32)
    ensures
        quantum == quantum_at(elapsed),
{
    elapsed.over(Single::from_u64(60)).to_u32()
}

/// Where a column is, with this much of the transition over.
pub fn describe_column(c: usize, depth: i32, p: Single) -> (cd: Column)
    ensures
        cd == column_at(c, depth, column_progress(c, p)),
{
    let salt: u32 = #[verifier::truncate]
    (c as u32);
    let span: u32 = (MATRIX_MAX - MATRIX_MIN + 1) as u32;
    let matrix: i32 = MATRIX_MIN + (hash3(salt, 1, 0) % span) as i32;
    let gap: i32 = 1 + (hash3(salt, 2, 0) % 2) as i32;
    let bridge = bridge_for(c);
    let phase_max = Single::ratio(1, 4);
    let phase = Single::from_u64((hash3(salt, 3, 0) % 1000) as u64).over(
        Single::from_u64(1000),
    ).times(phase_max);
    let fp = p.minus(phase).over(Single::from_u64(1).minus(phase_max)).clamped();
    let fp = smoothed(fp);
    let lead = Single::from_i64((gap + matrix + bridge + 2) as i64);
    let fall = fp.times(Single::from_i64(depth as i64).plus(Single::from_u64(1)).plus(lead));
    let settle = fall.minus(lead);
    Column { fall, settle, front_row: settle.floor_to_i32(), gap, matrix, depth }
}

/// Masks the region below the build front, if there is one.
fn push_mask(steps: &mut Vec<RainStep>, cd: Column, c: usize, g: RainGeometry)
    requires
        0 <= cd.depth,
    ensures
        final(steps)@ == old(steps)@ + mask_steps(cd, c, g),
{
    let below: i64 = cd.front_row as i64 + 1;
    let top: i64 = if below > 0 {
        below
    } else {
        0
    };
    if top <= cd.depth as i64 {
        let y0 = g.oy.plus(Single::from_i64(top).times(g.cell_h));
        let y1 = g.oy.plus(Single::from_i64(cd.depth as i64 + 1).times(g.cell_h));
        steps.push(
            RainStep::Mask(
                Rect {
                    x: g.ox.plus(Single::from_usize(c).times(g.cell_w)),
                    y: y0,
                    width: g.cell_w,
                    height: y1.minus(y0),
                },
            ),
        );
    }
}

/// Lets the old text fall, row by row.
fn push_old(steps: &mut Vec<RainStep>, cd: Column, c: usize, cols: usize, rows: usize)
    requires
        0 <= cd.depth < rows,
        c < cols,
        cols * rows <= usize::MAX,
    ensures
        final(steps)@ == old(steps)@ + old_steps(cd, c, cols, (cd.depth + 1) as nat),
{
    let deep: usize = cd.depth as usize;
    let depth = Single::from_i64(cd.depth as i64);
    let bottom = depth.plus(Single::ratio(999, 1000));
    let mut r: usize = 0;
    while r <= deep
        invariant
            0 <= cd.depth < rows,
            deep == cd.depth,
            r <= deep + 1,
            c < cols,
            cols * rows <= usize::MAX,
            depth == Single::integer(cd.depth as int),
            bottom == depth.plus(Single::fraction(999, 1000)),
            steps@ == old(steps)@ + old_steps(cd, c, cols, r as nat),
        decreases deep + 1 - r,
    {
        let yrow = Single::from_usize(r).plus(cd.fall);
        proof {
            lemma_in_grid(r as int, c as int, cols as int, rows as int);
        }
        if !bottom.below(yrow) {
            let down = yrow.over(depth.plus(Single::from_u64(1))).clamped();
            let g = Single::ratio(40, 100).plus(Single::ratio(55, 100).times(down));
            steps.push(
                RainStep::Glyph {
                    source: GlyphSource::Old(r * cols + c),
                    col: c,
                    row: yrow,
                    color: LinearRgba {
                        red: Single { bits: 0 },
                        green: g,
                        blue: Single::ratio(12, 100).times(g),
                        alpha: Single::from_u64(1),
                    },
                },
            );
        }
        r = r + 1;
    }
}

/// Slides the new glyph of the row that is locking in.
fn push_new(steps: &mut Vec<RainStep>, cd: Column, c: usize, cols: usize, rows: usize)
    requires
        0 <= cd.depth < rows,
        c < cols,
        cols * rows <= usize::MAX,
    ensures
        final(steps)@ == old(steps)@ + new_steps(cd, c, cols),
{
    let r: i64 = cd.front_row as i64 + 1;
    if r >= 0 && r <= cd.depth as i64 && cd.settle.at_least(Single { bits: 0 }) {
        proof {
            lemma_in_grid(r as int, c as int, cols as int, rows as int);
        }
        steps.push(
            RainStep::Glyph {
                source: GlyphSource::New(r as usize * cols + c),
                col: c,
                row: cd.settle,
                color: LinearRgba {
                    red: Single::ratio(80, 100),
                    green: Single::from_u64(1),
                    blue: Single::ratio(85, 100),
                    alpha: Single::from_u64(1),
                },
            },
        );
    }
    assert(steps@ =~= old(steps)@ + new_steps(cd, c, cols));
}

/// The colour of cell `j` of the stream.
fn stream_cell_color(cd: Column, j: i32) -> (color: LinearRgba)
    requires
        0 <= j < cd.matrix,
    ensures
        color == stream_color(cd, j as int),
{
    let b = Single::from_i64(j as i64 + 1).over(Single::from_i64(cd.matrix as i64));
    if j == cd.matrix - 1 {
        LinearRgba {
            red: Single::ratio(75, 100),
            green: Single::from_u64(1),
            blue: Single::ratio(80, 100),
            alpha: Single::from_u64(1),
        }
    } else {
        let g = Single::ratio(25, 100).plus(Single::ratio(75, 100).times(b));
        LinearRgba {
            red: Single { bits: 0 },
            green: g,
            blue: Single::ratio(10, 100).times(g),
            alpha: Single::ratio(35, 100).plus(Single::ratio(65, 100).times(b)),
        }
    }
}

/// Adds the stream, from the top down.
fn push_stream(steps: &mut Vec<RainStep>, cd: Column, c: usize, setup: FrameSetup)
    requires
        cd.matrix >= 0,
        setup.palette_len > 0,
    ensures
        final(steps)@ == old(steps)@ + stream_steps(cd, c, setup, cd.matrix as nat),
{
    let salt: u32 = #[verifier::truncate]
    (c as u32);
    let mut j: i32 = 0;
    assert(steps@ =~= old(steps)@ + stream_steps(cd, c, setup, 0));
    while j < cd.matrix
        invariant
            0 <= j <= cd.matrix,
            setup.palette_len > 0,
            salt == c as u32,
            steps@ == old(steps)@ + stream_steps(cd, c, setup, j as nat),
        decreases cd.matrix - j,
    {
        let row: i64 = cd.front_row as i64 + 1 + cd.gap as i64 + 1 + j as i64;
        if row >= 0 && row <= cd.depth as i64 && (row as u64) < setup.rows as u64 {
            let hash = hash3(salt, row as u32, setup.quantum);
            let idx: usize = hash as usize % setup.palette_len;
            steps.push(
                RainStep::Glyph {
                    source: GlyphSource::Stream(idx),
                    col: c,
                    row: Single::from_i64(row),
                    color: stream_cell_color(cd, j),
                },
            );
        }
        j = j + 1;
    }
}

/// The steps of a frame of the transition, in the order in which they are painted.
pub fn plan_frame(anim: &TabSwitchAnim, setup: FrameSetup) -> (steps: Vec<RainStep>)
    requires
        anim.wf(),
        setup.cols <= anim.cols,
        setup.rows <= anim.rows,
    ensures
        steps@ == frame_steps(*anim, setup, setup.cols as nat),
{
    let has_old = anim.old_cells.len() > 0;
    let mut steps: Vec<RainStep> = Vec::new();
    let mut c: usize = 0;
    proof {
        // The grid is in memory.
        assert(anim.cells.len() == anim.cols * anim.rows);
    }
    while c < setup.cols
        invariant
            c <= setup.cols,
            anim.wf(),
            setup.cols <= anim.cols,
            setup.rows <= anim.rows,
            has_old == (anim.old_cells@.len() > 0),
            anim.cols * anim.rows <= usize::MAX,
            steps@ == frame_steps(*anim, setup, c as nat),
        decreases setup.cols - c,
    {
        let ghost before = steps@;
        let depth = anim.depth[c];
        let last: i32 = setup.rows as i32 - 1;
        let depth: i32 = if depth <= last {
            depth
        } else {
            last
        };
        let cd = describe_column(c, depth, setup.progress);
        if cd.depth >= 0 {
            push_mask(&mut steps, cd, c, setup.geometry);
            if has_old {
                push_old(&mut steps, cd, c, anim.cols, anim.rows);
            }
            push_new(&mut steps, cd, c, anim.cols, anim.rows);
            if setup.palette_len > 0 {
                push_stream(&mut steps, cd, c, setup);
            }
        }
        assert(steps@ =~= before + column_steps(
            cd,
            c,
            anim.cols,
            anim.old_cells@.len() > 0,
            setup,
        ));
        c = c + 1;
    }
    steps
}

/// The step draws a cell of the grids or a glyph of the palette.
pub open spec fn step_in_range(anim: TabSwitchAnim, palette_len: usize, step: RainStep) -> bool {
    match step {
        RainStep::Mask(_) => true,
        RainStep::Glyph { source, .. } => match source {
            GlyphSource::Old(k) => k < anim.old_cells@.len(),
            GlyphSource::New(k) => k < anim.cells@.len(),
            GlyphSource::Stream(k) => k < palette_len,
        },
    }
}

/// Every step draws a cell of the grids or a glyph of the palette.
pub open spec fn steps_in_range(
    anim: TabSwitchAnim,
    palette_len: usize,
    steps: Seq<RainStep>,
) -> bool {
    forall|i: int| 0 <= i < steps.len() ==> step_in_range(anim, palette_len, #[trigger] steps[i])
}

/// The old text that falls is of the old grid.
proof fn lemma_old_steps_ok(anim: TabSwitchAnim, palette_len: usize, cd: Column, c: usize, n: nat)
    requires
        anim.wf(),
        anim.cols * anim.rows <= usize::MAX,
        anim.old_cells@.len() > 0,
        c < anim.cols,
        n <= anim.rows,
    ensures
        steps_in_range(anim, palette_len, old_steps(cd, c, anim.cols, n)),
    decreases n,
{
    if n > 0 {
        lemma_old_steps_ok(anim, palette_len, cd, c, (n - 1) as nat);
        lemma_in_grid(n - 1, c as int, anim.cols as int, anim.rows as int);
    }
}

/// The glyphs of the stream are of the palette.
proof fn lemma_stream_steps_ok(
    anim: TabSwitchAnim,
    cd: Column,
    c: usize,
    setup: FrameSetup,
    n: nat,
)
    requires
        setup.palette_len > 0,
    ensures
        steps_in_range(anim, setup.palette_len, stream_steps(cd, c, setup, n)),
    decreases n,
{
    if n > 0 {
        lemma_stream_steps_ok(anim, cd, c, setup, (n - 1) as nat);
    }
}

/// Every step of a frame draws a cell of the grids or a glyph of the palette.
pub proof fn lemma_frame_steps_ok(anim: TabSwitchAnim, setup: FrameSetup, n: nat)
    requires
        anim.wf(),
        anim.cols * anim.rows <= usize::MAX,
        0 < setup.rows <= anim.rows,
        n <= anim.cols,
    ensures
        steps_in_range(anim, setup.palette_len, frame_steps(anim, setup, n)),
    decreases n,
{
    if n > 0 {
        lemma_frame_steps_ok(anim, setup, (n - 1) as nat);
        let c = (n - 1) as usize;
        let cd = column_in_frame(anim, setup, c);
        if cd.depth >= 0 {
            if anim.old_cells@.len() > 0 {
                lemma_old_steps_ok(anim, setup.palette_len, cd, c, (cd.depth + 1) as nat);
            }
            if setup.palette_len > 0 {
                lemma_stream_steps_ok(anim, cd, c, setup, cd.matrix as nat);
            }
            if 0 <= cd.front_row + 1 <= cd.depth {
                lemma_in_grid(
                    cd.front_row + 1,
                    c as int,
                    anim.cols as int,
                    anim.rows as int,
                );
            }
        }
    }
}

} // verus!
