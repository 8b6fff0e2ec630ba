//! The terminal window, as far as the tab bar and the transition read it.

use crate::glyphs::GlyphInfo;
use crate::single::Single;
use vstd::hash_map::StringHashMap;
use vstd::prelude::*;

verus! {

/// A colour in linear space.
#[derive(Clone, Copy, PartialEq, Eq, Structural, Debug)]
pub struct LinearRgba {
    pub red: Single,
    pub green: Single,
    pub blue: Single,
    pub alpha: Single,
}

/// A rectangle in pixels, by its top left corner.
#[derive(Clone, Copy, PartialEq, Eq, Structural, Debug)]
pub struct Rect {
    pub x: Single,
    pub y: Single,
    pub width: Single,
    pub height: Single,
}

/// The edge of the window that the tab bar is at.
#[derive(Clone, Copy, PartialEq, Eq, Structural, Debug)]
pub enum TabBarPosition {
    Top,
    Bottom,
    Left,
    Right,
}

/// The options that the tab bar goes by.
#[derive(Clone, Copy, PartialEq, Eq, Structural, Debug)]
pub struct Config {
    /// The position in effect, after the options that give it were weighed.
    pub tab_bar_position: TabBarPosition,
    pub use_fancy_tab_bar: bool,
    pub window_background_opacity: Single,
    pub text_background_opacity: Single,
    pub experimental_pixel_positioning: bool,
}

/// The extent of the window.
#[derive(Clone, Copy, PartialEq, Eq, Structural, Debug)]
pub struct Dimensions {
    pub pixel_width: usize,
    pub pixel_height: usize,
    pub dpi: usize,
}

/// The extent of a text cell, in pixels.
#[derive(Clone, Copy, PartialEq, Eq, Structural, Debug)]
pub struct CellSize {
    pub width: isize,
    pub height: isize,
}

/// What text is laid out by.
#[derive(Clone, Copy, PartialEq, Eq, Structural, Debug)]
pub struct RenderMetrics {
    pub cell_size: CellSize,
}

/// What the operating system's border takes of each side, in pixels.
#[derive(Clone, Copy, PartialEq, Eq, Structural, Debug)]
pub struct Border {
    pub top: usize,
    pub left: usize,
    pub bottom: usize,
    pub right: usize,
}

/// The padding between the border and the panes, in pixels.
#[derive(Clone, Copy, PartialEq, Eq, Structural, Debug)]
pub struct Padding {
    pub left: Single,
    pub top: Single,
}

/// The size that the terminal was told.
#[derive(Clone, Copy, PartialEq, Eq, Structural, Debug)]
pub struct TerminalSize {
    pub dpi: u32,
    pub pixel_width: usize,
}

/// What a sensitive area of the window is for.
#[derive(Clone, Copy, PartialEq, Eq, Structural, Debug)]
pub enum UIItemType {
    /// The handle that resizes a vertical tab bar.
    TabBarSeparator,
    /// An area that the host laid out, by the host's number for it.
    Host(usize),
}

/// A sensitive area of the window.
#[derive(Clone, Copy, PartialEq, Eq, Structural, Debug)]
pub struct UIItem {
    pub x: usize,
    pub y: usize,
    pub width: usize,
    pub height: usize,
    pub item_type: UIItemType,
}

/// A reading of the host's clock.
#[derive(Clone, Copy, PartialEq, Eq, Structural, Debug)]
pub struct Timestamp {
    pub secs: u64,
    pub nanos: u32,
}

/// Captured state for one tab-switch transition.
pub struct TabSwitchAnim {
    pub start: Timestamp,
    pub pane_id: usize,
    pub cols: usize,
    pub rows: usize,
    /// New screen graphemes, row-major (`row * cols + col`).
    pub cells: Vec<String>,
    /// Outgoing screen graphemes, same layout. Empty when there was no comparable
    /// previous screen (then the dissolve phase is skipped).
    pub old_cells: Vec<String>,
    /// Deepest changed row per column; `-1` means the column is unchanged and is
    /// skipped entirely.
    pub depth: Vec<i32>,
    /// Memoised shaping of each real grapheme, filled lazily as cells resolve.
    /// `None` records a grapheme that has no drawable glyph (blank/unshaped).
    pub glyphs: StringHashMap<Option<GlyphInfo>>,
}

impl TabSwitchAnim {
    /// The grids and the depths fit the extent of the screen.
    pub open spec fn wf(self) -> bool {
        &&& self.cols > 0
        &&& 0 < self.rows <= i32::MAX
        &&& self.cells@.len() == self.cols * self.rows
        &&& self.old_cells@.len() == 0 || self.old_cells@.len() == self.cols * self.rows
        &&& self.depth@.len() == self.cols
        &&& forall|c: int| 0 <= c < self.cols ==> -1 <= #[trigger] self.depth@[c] < self.rows
    }

    /// Whether the grids and the depths fit the extent of the screen.
    pub fn is_wf(&self) -> (r: bool)
        ensures
            r == self.wf(),
    {
        if self.cols == 0 || self.rows == 0 || self.rows > i32::MAX as usize {
            return false;
        }
        let cells = match self.cols.checked_mul(self.rows) {
            Some(cells) => cells,
            None => {
                assert(self.cells.len() != self.cols * self.rows);
                return false;
            },
        };
        if self.cells.len() != cells || (self.old_cells.len() != 0 && self.old_cells.len()
            != cells) || self.depth.len() != self.cols {
            return false;
        }
        let mut c: usize = 0;
        while c < self.cols
            invariant
                c <= self.cols,
                self.rows <= i32::MAX,
                self.depth@.len() == self.cols,
                forall|k: int| 0 <= k < c ==> -1 <= #[trigger] self.depth@[k] < self.rows,
            decreases self.cols - c,
        {
            if self.depth[c] < -1 || self.depth[c] >= self.rows as i32 {
                return false;
            }
            c = c + 1;
        }
        true
    }
}

/// The window. The host keeps the facts about it up to date; the transition and
/// the sensitive areas are the window's own.
pub struct TermWindow {
    pub config: Config,
    pub show_tab_bar: bool,
    pub dimensions: Dimensions,
    pub render_metrics: RenderMetrics,
    pub os_border: Border,
    pub padding: Padding,
    pub terminal_size: TerminalSize,
    /// There is something behind the text: an image or a gradient.
    pub has_window_background: bool,
    /// The tab bar's configured width, in pixels of this window.
    pub configured_tab_bar_width: Single,
    /// The width that the user dragged the tab bar to.
    pub tab_bar_width_override: Option<Single>,
    /// The fancy tab bar has been built.
    pub has_fancy_tab_bar: bool,
    pub ui_items: Vec<UIItem>,
    pub tab_switch_anim: Option<TabSwitchAnim>,
    /// The glyphs of the falling stream, once they were shaped.
    pub matrix_rain_palette: Option<Vec<GlyphInfo>>,
}

impl TermWindow {
    /// The transition, if there is one, is well-formed.
    pub open spec fn wf(self) -> bool {
        self.tab_switch_anim matches Some(anim) ==> anim.wf()
    }

    /// Whether the transition, if there is one, is well-formed.
    pub fn is_wf(&self) -> (r: bool)
        ensures
            r == self.wf(),
    {
        match &self.tab_switch_anim {
            Some(anim) => anim.is_wf(),
            None => true,
        }
    }
}

} // verus!
