//! Matrix "digital rain" transition played over the active pane when the user
//! switches tabs. Each column of the freshly-activated screen is *built up* from
//! the top down: a stream of green katakana falls ahead of each real character, a
//! one-or-two cell gap follows, then the real glyph slides into place and stays.
//! Columns whose content is unchanged from the previous tab are skipped, and each
//! column only rebuilds down to its deepest changed row.
//!
//! Here is what the transition starts from and what a frame of it consists of.
//! The steps of a frame are carried out by the painter.

use crate::glyphs::GlyphInfo;
use crate::painter_laws::frame_start;
use crate::rain_frame::duration_ms;
use crate::rain_frame::frame_steps;
use crate::rain_frame::lemma_frame_steps_ok;
use crate::rain_frame::plan_frame;
use crate::rain_frame::progress;
use crate::rain_frame::quantum_at;
use crate::rain_frame::rain_progress;
use crate::rain_frame::rain_quantum;
use crate::rain_frame::rain_zoom;
use crate::rain_frame::zoom_at;
use crate::rain_frame::FrameSetup;
use crate::rain_frame::RainGeometry;
use crate::rain_frame::RainStep;
use crate::rain_painter::PainterState;
use crate::rain_painter::RainPainter;
use crate::rain_painter::SHAPE_BUDGET;
use crate::screen::capture_screen;
use crate::screen::changed_depths;
use crate::screen::deepest_change;
use crate::screen::lemma_deepest_change;
use crate::screen::texts;
use crate::screen::PaneSnapshot;
use crate::single::Single;
use crate::tab_bar::bar_height;
use crate::term_window::TabBarPosition;
use crate::term_window::TabSwitchAnim;
use crate::term_window::TermWindow;
use crate::term_window::Timestamp;
use vstd::hash_map::StringHashMap;
use vstd::prelude::*;

verus! {

/// How long after a frame the next one is due, in milliseconds.
pub const FRAME_MILLIS: u64 = 16;

/// What there is to do in a frame.
#[derive(Clone, Copy, PartialEq, Eq, Structural, Debug)]
pub enum RainFrame {
    /// There is no transition.
    Idle,
    /// The transition has run its course: the window has to be painted anew.
    Expired,
    /// The transition has run for this many milliseconds. The next frame is due
    /// after `next_frame_millis`. The palette has to be shaped if it is missing.
    Running { elapsed: Single, next_frame_millis: u64, palette_missing: bool },
}

/// What there is to do in a frame, of a window with or without a transition and with or
/// without a palette.
pub open spec fn frame_due(running: bool, has_palette: bool, elapsed_secs: Single) -> RainFrame {
    let elapsed = elapsed_secs.times(Single::integer(1000));
    if !running {
        RainFrame::Idle
    } else if elapsed.at_least(duration_ms()) {
        RainFrame::Expired
    } else {
        RainFrame::Running {
            elapsed,
            next_frame_millis: FRAME_MILLIS,
            palette_missing: !has_palette,
        }
    }
}

/// The glyphs that a frame's stream is made of: the ones that were kept, or else those that
/// were shaped for it.
pub open spec fn frame_palette(
    kept: Option<Vec<GlyphInfo>>,
    shaped: Option<Vec<GlyphInfo>>,
) -> Seq<GlyphInfo> {
    match kept {
        Some(palette) => palette@,
        None => match shaped {
            Some(palette) => palette@,
            None => Seq::empty(),
        },
    }
}

/// The steps of a frame: none, if it has no rows.
pub open spec fn planned(anim: TabSwitchAnim, setup: FrameSetup) -> Seq<RainStep> {
    if setup.rows == 0 {
        Seq::empty()
    } else {
        frame_steps(anim, setup, setup.cols as nat)
    }
}

/// The pane of the transition that runs, if one does.
pub open spec fn rain_pane(win: TermWindow) -> Option<usize> {
    match win.tab_switch_anim {
        Some(anim) => Some(anim.pane_id),
        None => None,
    }
}

/// The start of the transition that runs, if one does.
pub open spec fn rain_start(win: TermWindow) -> Option<Timestamp> {
    match win.tab_switch_anim {
        Some(anim) => Some(anim.start),
        None => None,
    }
}

/// The window once a frame is painted.
pub open spec fn handed_back(win: TermWindow, painter: RainPainter) -> TermWindow {
    TermWindow {
        tab_switch_anim: Some(painter.anim),
        matrix_rain_palette: Some(painter.palette),
        ..win
    }
}

/// The pane that a frame is painted over, in cells of the window.
#[derive(Clone, Copy, PartialEq, Eq, Structural, Debug)]
pub struct PaneArea {
    pub left: usize,
    pub top: usize,
    pub cols: usize,
    pub rows: usize,
}

/// The depth of each column of a new screen, with the screen that it replaces if
/// there is one. The screens are compared cell by cell where they have the same
/// extent; otherwise everything counts as changed.
pub open spec fn depths(prev: Option<PaneSnapshot>, new: PaneSnapshot) -> Seq<int> {
    let cols = new.dims.cols as int;
    let rows = new.dims.viewport_rows as nat;
    Seq::new(
        new.dims.cols as nat,
        |c: int|
            if comparable(prev, new) {
                deepest_change(prev->0.shown(), new.shown(), cols, rows, c)
            } else {
                rows - 1
            },
    )
}

/// There is a previous screen, and it has the extent of the new one.
pub open spec fn comparable(prev: Option<PaneSnapshot>, new: PaneSnapshot) -> bool {
    prev matches Some(old_pane) && old_pane.dims.cols == new.dims.cols
        && old_pane.dims.viewport_rows == new.dims.viewport_rows
}

/// There is something to animate: a screen, and a column of it that changed.
pub open spec fn rain_is_due(prev: Option<PaneSnapshot>, new: PaneSnapshot) -> bool {
    &&& new.dims.cols > 0
    &&& new.dims.viewport_rows > 0
    &&& exists|c: int| 0 <= c < new.dims.cols && #[trigger] depths(prev, new)[c] >= 0
}

/// The transition from one screen to another.
pub open spec fn reveals(
    anim: TabSwitchAnim,
    prev: Option<PaneSnapshot>,
    new: PaneSnapshot,
    now: Timestamp,
) -> bool {
    &&& anim.start == now
    &&& anim.pane_id == new.pane_id
    &&& anim.cols == new.dims.cols
    &&& anim.rows == new.dims.viewport_rows
    &&& texts(anim.cells@) == new.shown()
    &&& texts(anim.old_cells@) == if comparable(prev, new) {
        prev->0.shown()
    } else {
        Seq::empty()
    }
    &&& anim.depth@.len() == new.dims.cols
    &&& forall|c: int| 0 <= c < new.dims.cols ==> #[trigger] anim.depth@[c] == depths(prev, new)[c]
    &&& anim.glyphs@ == Map::<Seq<char>, Option<GlyphInfo>>::empty()
}

/// A depth is not negative in some column.
fn any_changed(depth: &Vec<i32>) -> (r: bool)
    ensures
        r == exists|c: int| 0 <= c < depth@.len() && #[trigger] depth@[c] >= 0,
{
    let mut c: usize = 0;
    while c < depth.len()
        invariant
            c <= depth@.len(),
            forall|k: int| 0 <= k < c ==> #[trigger] depth@[k] < 0,
        decreases depth@.len() - c,
    {
        if depth[c] >= 0 {
            return true;
        }
        c = c + 1;
    }
    false
}

impl TermWindow {
    /// The pane the active transition is animating, if any.
    pub fn matrix_rain_pane_id(&self) -> (id: Option<usize>)
        ensures
            id == (match self.tab_switch_anim {
                Some(anim) => Some(anim.pane_id),
                None => None,
            }),
            id == rain_pane(*self),
    {
        match &self.tab_switch_anim {
            Some(anim) => Some(anim.pane_id),
            None => None,
        }
    }

    /// When the active transition started, if there is one.
    pub fn matrix_rain_start(&self) -> (start: Option<Timestamp>)
        ensures
            start == (match self.tab_switch_anim {
                Some(anim) => Some(anim.start),
                None => None,
            }),
            start == rain_start(*self),
    {
        match &self.tab_switch_anim {
            Some(anim) => Some(anim.start),
            None => None,
        }
    }

    /// Begin the matrix-rain transition revealing `new_pane`. Diffs against
    /// `prev_pane` so unchanged columns are skipped. No-op when nothing changed.
    /// Returns whether the transition began, so that the window has to be painted
    /// anew.
    pub fn start_matrix_rain(
        &mut self,
        prev_pane: Option<PaneSnapshot>,
        new_pane: &PaneSnapshot,
        now: Timestamp,
    ) -> (began: bool)
        requires
            new_pane.dims.countable(),
            new_pane.dims.cols > 0 && new_pane.dims.viewport_rows > 0 ==> {
                &&& prev_pane matches Some(pane) ==> pane.dims.countable()
                &&& new_pane.dims.viewport_rows <= i32::MAX
            },
        ensures
            began == rain_is_due(prev_pane, *new_pane),
            !began ==> *final(self) == *old(self),
            began ==> {
                &&& *final(self) == (TermWindow {
                    tab_switch_anim: final(self).tab_switch_anim,
                    ..*old(self)
                })
                &&& final(self).tab_switch_anim is Some
                &&& reveals(final(self).tab_switch_anim->0, prev_pane, *new_pane, now)
                &&& final(self).tab_switch_anim->0.wf()
            },
    {
        let (cols, rows, cells) = capture_screen(new_pane);
        if cols == 0 || rows == 0 {
            return false;
        }
        // Per-column deepest changed row. When the previous screen has the same
        // dimensions we diff cell-by-cell; otherwise treat everything as changed.
        let mut same_extent = false;
        let mut old_cells: Vec<String> = Vec::new();
        if let Some(pane) = &prev_pane {
            let (pc, pr, pcells) = capture_screen(pane);
            if pc == cols && pr == rows {
                same_extent = true;
                old_cells = pcells;
            }
        }
        proof {
            assert(texts(cells@).len() == cells@.len());
            assert(texts(old_cells@).len() == old_cells@.len());
        }
        let depth: Vec<i32> = if same_extent {
            changed_depths(&old_cells, &cells, cols, rows)
        } else {
            // No comparable previous screen: rebuild every column fully and skip
            // the dissolve phase (no old grid to fall away).
            assert(texts(old_cells@) =~= Seq::empty());
            let mut depth: Vec<i32> = Vec::new();
            let mut c: usize = 0;
            while c < cols
                invariant
                    c <= cols,
                    0 < rows <= i32::MAX,
                    depth@.len() == c,
                    forall|k: int| 0 <= k < c ==> #[trigger] depth@[k] == rows - 1,
                decreases cols - c,
            {
                depth.push(rows as i32 - 1);
                c = c + 1;
            }
            depth
        };
        let ghost want = depths(prev_pane, *new_pane);
        proof {
            assert forall|c: int| 0 <= c < cols implies #[trigger] depth@[c] == want[c] && -1
                <= want[c] < rows by {
                lemma_deepest_change(
                    texts(old_cells@),
                    texts(cells@),
                    cols as int,
                    rows as nat,
                    c,
                );
            }
        }
        if !any_changed(&depth) {
            // Identical screen: nothing to animate.
            assert forall|c: int| 0 <= c < new_pane.dims.cols implies #[trigger] want[c] < 0 by {
                assert(depth@[c] == want[c]);
            }
            return false;
        }
        proof {
            let c = choose|c: int| 0 <= c < depth@.len() && #[trigger] depth@[c] >= 0;
        }
        self.tab_switch_anim = Some(
            TabSwitchAnim {
                start: now,
                pane_id: new_pane.pane_id,
                cols,
                rows,
                cells,
                old_cells,
                depth,
                // Real glyphs are shaped lazily, on demand, as cells resolve, so we
                // never pay for the whole screen up front (which could stall).
                glyphs: StringHashMap::new(),
            },
        );
        true
    }

    /// What the tab bar takes of the top: nothing, if its height cannot be told.
    pub open spec fn top_bar_height<E>(self, title_cell_height: Result<Single, E>) -> Single {
        if self.show_tab_bar && self.config.tab_bar_position == TabBarPosition::Top {
            match bar_height(self.config, title_cell_height, self.render_metrics) {
                Ok(height) => height,
                Err(_) => Single { bits: 0 },
            }
        } else {
            Single { bits: 0 }
        }
    }

    /// What the tab bar takes of the left.
    pub open spec fn left_bar_width(self) -> Single {
        if self.show_tab_bar && self.config.tab_bar_position == TabBarPosition::Left {
            self.bar_width()
        } else {
            Single { bits: 0 }
        }
    }

    /// The left edge of the cells of a pane that starts in this column.
    pub open spec fn pane_x(self, pane_left: usize) -> Single {
        self.left_bar_width().plus(self.padding.left).plus(
            Single::integer(self.os_border.left as int),
        ).plus(
            Single::integer(pane_left as int).times(
                Single::integer(self.render_metrics.cell_size.width as int),
            ),
        )
    }

    /// The top edge of the cells of a pane that starts in this row.
    pub open spec fn pane_y<E>(
        self,
        pane_top: usize,
        title_cell_height: Result<Single, E>,
    ) -> Single {
        self.top_bar_height(title_cell_height).plus(self.padding.top).plus(
            Single::integer(self.os_border.top as int),
        ).plus(
            Single::integer(pane_top as int).times(
                Single::integer(self.render_metrics.cell_size.height as int),
            ),
        )
    }

    /// Where a frame of the rain over a pane is on the screen.
    pub open spec fn rain_geometry<E>(
        self,
        elapsed: Single,
        pane: PaneArea,
        title_cell_height: Result<Single, E>,
    ) -> RainGeometry {
        RainGeometry {
            ox: self.pane_x(pane.left),
            oy: self.pane_y(pane.top, title_cell_height),
            cell_w: Single::integer(self.render_metrics.cell_size.width as int),
            cell_h: Single::integer(self.render_metrics.cell_size.height as int),
            left_off: Single::integer(self.dimensions.pixel_width as int).over(Single::integer(2)),
            top_off: Single::integer(self.dimensions.pixel_height as int).over(Single::integer(2)),
            zoom: zoom_at(progress(elapsed)),
        }
    }

    /// What a frame of the rain over a pane depends on. The grid is that of the
    /// live pane: if a resize changed it mid-flight, the smaller extent counts.
    pub open spec fn rain_setup<E>(
        self,
        anim: TabSwitchAnim,
        palette_len: usize,
        elapsed: Single,
        pane: PaneArea,
        title_cell_height: Result<Single, E>,
    ) -> FrameSetup {
        FrameSetup {
            geometry: self.rain_geometry(elapsed, pane, title_cell_height),
            progress: progress(elapsed),
            quantum: quantum_at(elapsed),
            cols: if anim.cols <= pane.cols {
                anim.cols
            } else {
                pane.cols
            },
            rows: if anim.rows <= pane.rows {
                anim.rows
            } else {
                pane.rows
            },
            palette_len,
        }
    }

    /// Top-left pixel of the active pane's cell grid, so the rain lines up with the
    /// real cells.
    pub fn matrix_pane_origin<E>(
        &self,
        pane_left: usize,
        pane_top: usize,
        title_cell_height: Result<Single, E>,
    ) -> (origin: (Single, Single))
        ensures
            origin.0 == self.pane_x(pane_left),
            origin.1 == self.pane_y(pane_top, title_cell_height),
            ({
                let bar = if self.show_tab_bar && self.config.tab_bar_position is Left {
                    match self.tab_bar_width_override {
                        Some(dragged) => dragged,
                        None => self.configured_tab_bar_width,
                    }
                } else {
                    Single { bits: 0 }
                };
                origin.0 == bar.plus(self.padding.left).plus(
                    Single::integer(self.os_border.left as int),
                ).plus(
                    Single::integer(pane_left as int).times(
                        Single::integer(self.render_metrics.cell_size.width as int),
                    ),
                )
            }),
    {
        let zero = Single { bits: 0 };
        let tab_pos = self.resolved_tab_bar_position();
        let tab_bar_height = if self.show_tab_bar && !tab_pos.is_vertical() {
            match self.tab_bar_pixel_height(title_cell_height) {
                Ok(height) => height,
                Err(_) => zero,
            }
        } else {
            zero
        };
        let tab_bar_width = if self.show_tab_bar {
            self.tab_bar_pixel_width()
        } else {
            zero
        };
        let top_bar_height = if tab_pos == TabBarPosition::Top {
            tab_bar_height
        } else {
            zero
        };
        let left_bar_width = if tab_pos == TabBarPosition::Left {
            tab_bar_width
        } else {
            zero
        };
        let border = self.os_border;
        let cell_w = Single::from_i64(self.render_metrics.cell_size.width as i64);
        let cell_h = Single::from_i64(self.render_metrics.cell_size.height as i64);
        let x = left_bar_width.plus(self.padding.left).plus(Single::from_usize(border.left)).plus(
            Single::from_usize(pane_left).times(cell_w),
        );
        let y = top_bar_height.plus(self.padding.top).plus(Single::from_usize(border.top)).plus(
            Single::from_usize(pane_top).times(cell_h),
        );
        (x, y)
    }

    /// Begin a frame of the transition, which has run for `elapsed_secs` seconds.
    /// Clears the animation state once it has run its course.
    pub fn paint_matrix_rain(&mut self, elapsed_secs: Single) -> (frame: RainFrame)
        ensures
            ({
                let elapsed = elapsed_secs.times(Single::integer(1000));
                if old(self).tab_switch_anim is None {
                    &&& frame == RainFrame::Idle
                    &&& *final(self) == *old(self)
                } else if elapsed.at_least(duration_ms()) {
                    &&& frame == RainFrame::Expired
                    &&& *final(self) == (TermWindow { tab_switch_anim: None, ..*old(self) })
                } else {
                    &&& frame == (RainFrame::Running {
                        elapsed,
                        next_frame_millis: FRAME_MILLIS,
                        palette_missing: old(self).matrix_rain_palette is None,
                    })
                    &&& *final(self) == *old(self)
                }
            }),
            frame == frame_due(
                old(self).tab_switch_anim is Some,
                old(self).matrix_rain_palette is Some,
                elapsed_secs,
            ),
            final(self).tab_switch_anim is Some <==> frame is Running,
    {
        if self.tab_switch_anim.is_none() {
            return RainFrame::Idle;
        }
        let elapsed = elapsed_secs.times(Single::from_u64(1000));
        if elapsed.at_least(Single::from_u64(4200)) {
            self.tab_switch_anim = None;
            return RainFrame::Expired;
        }
        // Keep the repaint loop spinning while the effect runs.
        RainFrame::Running {
            elapsed,
            next_frame_millis: FRAME_MILLIS,
            palette_missing: self.matrix_rain_palette.is_none(),
        }
    }

    /// Prepare one frame of the transition over the active pane, `elapsed`
    /// milliseconds after its start. The painter takes the animation and the palette
    /// out of the window; both are put back by `finish_matrix_rain`. `shaped` is the
    /// palette, if it had to be shaped and could be.
    pub fn paint_matrix_rain_inner<E>(
        &mut self,
        shaped: Option<Vec<GlyphInfo>>,
        elapsed: Single,
        pane: PaneArea,
        title_cell_height: Result<Single, E>,
    ) -> (painter: Option<RainPainter>)
        requires
            old(self).wf(),
        ensures
            match old(self).tab_switch_anim {
                None => painter is None && *final(self) == *old(self),
                Some(anim) => {
                    &&& painter is Some
                    &&& *final(self) == (TermWindow {
                        tab_switch_anim: None,
                        matrix_rain_palette: None,
                        ..*old(self)
                    })
                    &&& painter->0.wf()
                    &&& painter->0.anim == anim
                    &&& painter->0.palette@ == match old(self).matrix_rain_palette {
                        Some(palette) => palette@,
                        None => match shaped {
                            Some(palette) => palette@,
                            None => Seq::empty(),
                        },
                    }
                    &&& ({
                        let setup = old(self).rain_setup(
                            anim,
                            painter->0.palette.len(),
                            elapsed,
                            pane,
                            title_cell_height,
                        );
                        &&& painter->0.geometry == setup.geometry
                        &&& painter->0.steps@ == if setup.rows == 0 {
                            Seq::empty()
                        } else {
                            frame_steps(anim, setup, setup.cols as nat)
                        }
                        &&& painter->0.fonts_due == (setup.cols > 0 && setup.rows > 0)
                    })
                    &&& !painter->0.waiting
                    &&& painter->0.next == 0
                    &&& painter->0.budget == SHAPE_BUDGET
                },
            },
            painter is Some ==> painter->0.palette@ == frame_palette(
                old(self).matrix_rain_palette,
                shaped,
            ),
            painter is Some ==> painter->0.steps@ == planned(
                painter->0.anim,
                old(self).rain_setup(
                    painter->0.anim,
                    painter->0.palette.len(),
                    elapsed,
                    pane,
                    title_cell_height,
                ),
            ),
            painter is Some ==> painter->0.state() == (PainterState {
                fonts_due: painter->0.fonts_due,
                ..frame_start(painter->0.anim.glyphs@)
            }),
    {
        if self.tab_switch_anim.is_none() {
            return None;
        }
        let anim = self.tab_switch_anim.take().unwrap();
        let palette: Vec<GlyphInfo> = match self.matrix_rain_palette.take() {
            Some(palette) => palette,
            None => match shaped {
                Some(palette) => palette,
                None => Vec::new(),
            },
        };
        let cols = if anim.cols <= pane.cols {
            anim.cols
        } else {
            pane.cols
        };
        let rows = if anim.rows <= pane.rows {
            anim.rows
        } else {
            pane.rows
        };
        let p = rain_progress(elapsed);
        let (ox, oy) = self.matrix_pane_origin(pane.left, pane.top, title_cell_height);
        let two = Single::from_u64(2);
        let geometry = RainGeometry {
            ox,
            oy,
            cell_w: Single::from_i64(self.render_metrics.cell_size.width as i64),
            cell_h: Single::from_i64(self.render_metrics.cell_size.height as i64),
            left_off: Single::from_usize(self.dimensions.pixel_width).over(two),
            top_off: Single::from_usize(self.dimensions.pixel_height).over(two),
            zoom: rain_zoom(p),
        };
        let setup = FrameSetup {
            geometry,
            progress: p,
            quantum: rain_quantum(elapsed),
            cols,
            rows,
            palette_len: palette.len(),
        };
        let steps: Vec<RainStep> = if rows == 0 {
            Vec::new()
        } else {
            plan_frame(&anim, setup)
        };
        let painter = RainPainter {
            anim,
            palette,
            geometry,
            steps,
            fonts_due: cols > 0 && rows > 0,
            waiting: false,
            next: 0,
            budget: SHAPE_BUDGET,
        };
        proof {
            // The grid is in memory.
            assert(painter.anim.cells.len() == painter.anim.cols * painter.anim.rows);
            if rows > 0 {
                lemma_frame_steps_ok(painter.anim, setup, setup.cols as nat);
            }
        }
        Some(painter)
    }

    /// End a frame: the animation and the palette go back to the window.
    pub fn finish_matrix_rain(&mut self, painter: RainPainter)
        ensures
            *final(self) == (TermWindow {
                tab_switch_anim: Some(painter.anim),
                matrix_rain_palette: Some(painter.palette),
                ..*old(self)
            }),
            *final(self) == handed_back(*old(self), painter),
    {
        self.tab_switch_anim = Some(painter.anim);
        self.matrix_rain_palette = Some(painter.palette);
    }
}

} // verus!
