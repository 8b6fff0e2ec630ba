//! Where the tab bar is, how large it is, and how it is painted.

use crate::single::one_in_units;
use crate::single::Single;
use crate::single_laws::lemma_integer_back;
use crate::single_laws::lemma_integer_difference;
use crate::single_laws::lemma_integer_sum;
use crate::single_laws::lemma_minus_integer;
use crate::term_window::Border;
use crate::term_window::Config;
use crate::term_window::Dimensions;
use crate::term_window::LinearRgba;
use crate::term_window::RenderMetrics;
use crate::term_window::TabBarPosition;
use crate::term_window::TermWindow;
use crate::term_window::UIItem;
use crate::term_window::UIItemType;
use crate::window_laws::lemma_classic_bar_transparency;
use vstd::arithmetic::div_mod::lemma_fundamental_div_mod;
use vstd::prelude::*;

verus! {

/// How far the handle of a vertical tab bar reaches, in pixels.
pub const HANDLE: usize = 6;

/// What a length of the configuration is measured by.
#[derive(Clone, Copy, PartialEq, Eq, Structural, Debug)]
pub struct DimensionContext {
    pub dpi: Single,
    /// What a percentage is of.
    pub pixel_max: Single,
    /// What a count of cells multiplies.
    pub pixel_cell: Single,
}

/// The extent of the one line that a classic tab bar is.
#[derive(Clone, Copy, PartialEq, Eq, Structural, Debug)]
pub struct RenderableDimensions {
    pub cols: usize,
    pub viewport_rows: usize,
    pub scrollback_rows: usize,
    pub physical_top: isize,
    pub scrollback_top: isize,
    pub dpi: u32,
    pub pixel_width: usize,
    pub pixel_height: usize,
    pub reverse_video: bool,
}

/// How the line of a classic tab bar is rendered.
#[derive(Clone, Copy, PartialEq, Eq, Structural, Debug)]
pub struct TabBarLine {
    pub top_pixel_y: Single,
    pub left_pixel_x: Single,
    pub pixel_width: Single,
    /// The row of a scrollback that the line is, if it is one.
    pub stable_line_idx: Option<isize>,
    /// The pane that the line is of, if it is of one.
    pub pane_id: Option<usize>,
    /// The first selected column, and the one past the last.
    pub selection_start: usize,
    pub selection_end: usize,
    /// The column that the cursor is in; none stands for the host's default cursor.
    pub cursor_column: Option<usize>,
    /// The colours of cursor and selection; none stands for the host's default colour.
    pub cursor_border_color: Option<LinearRgba>,
    pub cursor_fg: Option<LinearRgba>,
    pub cursor_bg: Option<LinearRgba>,
    pub selection_fg: Option<LinearRgba>,
    pub selection_bg: Option<LinearRgba>,
    /// The style and the font to set the line in, by the host's numbers for them; none
    /// stands for those of each cell.
    pub style: Option<usize>,
    pub font: Option<usize>,
    /// What the shaped line is kept under, if it is kept.
    pub shape_key: Option<usize>,
    pub dims: RenderableDimensions,
    pub is_active: bool,
    pub cursor_is_default_color: bool,
    pub window_is_transparent: bool,
    /// What the alpha of the default background is multiplied by.
    pub background_alpha: Single,
    pub use_pixel_positioning: bool,
    pub password_input: bool,
}

/// What the host has to do next to paint the tab bar.
#[derive(Clone, Copy, PartialEq, Eq, Structural, Debug)]
pub enum TabBarAction {
    /// Build the fancy tab bar.
    BuildFancy,
    /// Paint the fancy tab bar, and tell its sensitive areas.
    PaintFancy,
    /// Tell the sensitive areas of a classic tab bar at this row of pixels, with
    /// cells of this extent.
    ComputeItems { y: usize, cell_height: usize, cell_width: usize },
    /// Render the line of a classic tab bar.
    RenderLine(TabBarLine),
    /// The tab bar is painted.
    Done,
}

/// What has come of the last action.
#[derive(Clone, Debug)]
pub enum TabBarEvent {
    /// Nothing was asked yet.
    Start,
    FancyBuilt,
    FancyPainted(Vec<UIItem>),
    ItemsComputed(Vec<UIItem>),
    LineRendered,
}

impl TabBarPosition {
    /// The bar runs from top to bottom.
    pub open spec fn vertical(self) -> bool {
        self == TabBarPosition::Left || self == TabBarPosition::Right
    }

    /// Returns true if the bar runs from top to bottom (Left or Right).
    pub fn is_vertical(&self) -> (r: bool)
        ensures
            r == self.vertical(),
            r == (*self is Left || *self is Right),
    {
        match self {
            TabBarPosition::Left => true,
            TabBarPosition::Right => true,
            _ => false,
        }
    }
}

/// The options in effect ask for a fancy tab bar.
pub open spec fn fancy(config: Config) -> bool {
    config.tab_bar_position.vertical() || config.use_fancy_tab_bar
}

/// The height of a tab bar. That of a fancy one is told by the title font's cells, and
/// fails as they do.
pub open spec fn bar_height<E>(
    config: Config,
    title_cell_height: Result<Single, E>,
    metrics: RenderMetrics,
) -> Result<Single, E> {
    if fancy(config) {
        match title_cell_height {
            Ok(height) => Ok(height.times(Single::fraction(7, 4)).ceil()),
            Err(e) => Err(e),
        }
    } else {
        Ok(Single::integer(metrics.cell_size.height as int))
    }
}

/// The edge of a vertical tab bar that the terminal is at.
pub open spec fn inner_edge(
    position: TabBarPosition,
    pixel_width: usize,
    border: Border,
    bar_width: Single,
) -> Single {
    if position == TabBarPosition::Left {
        Single::integer(border.left as int).plus(bar_width)
    } else {
        Single::integer(pixel_width as int).minus(Single::integer(border.right as int)).minus(
            bar_width,
        )
    }
}

/// The left edge of the handle that resizes a vertical tab bar.
pub open spec fn handle_x(
    position: TabBarPosition,
    pixel_width: usize,
    border: Border,
    bar_width: Single,
) -> Single {
    if position == TabBarPosition::Left {
        inner_edge(position, pixel_width, border, bar_width)
    } else {
        inner_edge(position, pixel_width, border, bar_width).minus(Single::integer(HANDLE as int))
    }
}

/// The height between the top and the bottom border.
pub open spec fn handle_height(pixel_height: usize, border: Border) -> Single {
    Single::integer(pixel_height as int).minus(
        Single::integer(border.top + border.bottom),
    ).or_zero()
}

/// The handle that resizes a vertical tab bar.
pub open spec fn handle(
    position: TabBarPosition,
    dimensions: Dimensions,
    border: Border,
    bar_width: Single,
) -> UIItem {
    UIItem {
        x: handle_x(position, dimensions.pixel_width, border, bar_width).or_zero().truncated(
            usize::MAX as nat,
        ) as usize,
        y: border.top,
        width: HANDLE,
        height: handle_height(dimensions.pixel_height, border).truncated(usize::MAX as nat) as usize,
        item_type: UIItemType::TabBarSeparator,
    }
}

/// The top of a classic tab bar.
pub open spec fn classic_y(
    position: TabBarPosition,
    dimensions: Dimensions,
    border: Border,
    metrics: RenderMetrics,
) -> Single {
    if position == TabBarPosition::Bottom {
        Single::integer(dimensions.pixel_height as int).minus(
            Single::integer(metrics.cell_size.height as int).plus(
                Single::integer(border.bottom as int),
            ),
        ).or_zero()
    } else {
        Single::integer(border.top as int)
    }
}

/// What the configured width of a tab bar is measured by, where there is something to
/// measure.
pub open spec fn width_context(
    config: Config,
    metrics: RenderMetrics,
    dimensions: Dimensions,
) -> Option<DimensionContext> {
    if config.tab_bar_position.vertical() {
        Some(
            DimensionContext {
                dpi: Single::integer(dimensions.dpi as int),
                pixel_max: Single::integer(dimensions.pixel_width as int),
                pixel_cell: Single::integer(metrics.cell_size.width as int),
            },
        )
    } else {
        None
    }
}

/// What the host is told after this outcome, to paint the bar of this window.
pub open spec fn bar_action(win: TermWindow, event: TabBarEvent) -> TabBarAction {
    match event {
        TabBarEvent::Start => if !fancy(win.config) {
            TabBarAction::ComputeItems {
                y: win.classic_line().top_pixel_y.truncated(usize::MAX as nat) as usize,
                cell_height: win.render_metrics.cell_size.height as usize,
                cell_width: win.render_metrics.cell_size.width as usize,
            }
        } else if win.has_fancy_tab_bar {
            TabBarAction::PaintFancy
        } else {
            TabBarAction::BuildFancy
        },
        TabBarEvent::FancyBuilt => TabBarAction::PaintFancy,
        TabBarEvent::ItemsComputed(_) => TabBarAction::RenderLine(win.classic_line()),
        TabBarEvent::FancyPainted(_) => TabBarAction::Done,
        TabBarEvent::LineRendered => TabBarAction::Done,
    }
}

/// The sensitive areas of the window after this outcome.
pub open spec fn bar_items(win: TermWindow, event: TabBarEvent) -> Seq<UIItem> {
    match event {
        TabBarEvent::FancyPainted(items) => if win.config.tab_bar_position.vertical() {
            (win.ui_items@ + items@).push(
                handle(
                    win.config.tab_bar_position,
                    win.dimensions,
                    win.os_border,
                    win.bar_width(),
                ),
            )
        } else {
            win.ui_items@ + items@
        },
        TabBarEvent::ItemsComputed(items) => win.ui_items@ + items@,
        _ => win.ui_items@,
    }
}

impl TermWindow {
    /// The width of the tab bar, as it is painted.
    pub open spec fn bar_width(self) -> Single {
        if !self.config.tab_bar_position.vertical() {
            Single { bits: 0 }
        } else {
            match self.tab_bar_width_override {
                Some(width) => width,
                None => self.configured_tab_bar_width,
            }
        }
    }

    /// What is behind the text shows through.
    pub open spec fn transparent(self) -> bool {
        self.has_window_background || !self.config.window_background_opacity.equals(
            Single::integer(1),
        )
    }

    /// How the line of this window's classic tab bar is rendered.
    pub open spec fn classic_line(self) -> TabBarLine {
        TabBarLine {
            top_pixel_y: classic_y(
                self.config.tab_bar_position,
                self.dimensions,
                self.os_border,
                self.render_metrics,
            ),
            left_pixel_x: Single { bits: 0 },
            pixel_width: Single::integer(self.dimensions.pixel_width as int),
            stable_line_idx: None,
            pane_id: None,
            selection_start: 0,
            selection_end: 0,
            cursor_column: None,
            cursor_border_color: None,
            cursor_fg: None,
            cursor_bg: None,
            selection_fg: None,
            selection_bg: None,
            style: None,
            font: None,
            shape_key: None,
            dims: RenderableDimensions {
                cols: (self.dimensions.pixel_width
                    / self.render_metrics.cell_size.width as usize) as usize,
                viewport_rows: 1,
                scrollback_rows: 0,
                physical_top: 0,
                scrollback_top: 0,
                dpi: self.terminal_size.dpi,
                pixel_width: self.terminal_size.pixel_width,
                pixel_height: self.render_metrics.cell_size.height as usize,
                reverse_video: false,
            },
            is_active: true,
            cursor_is_default_color: true,
            window_is_transparent: self.transparent(),
            background_alpha: if self.transparent() {
                Single { bits: 0 }
            } else {
                self.config.text_background_opacity
            },
            use_pixel_positioning: self.config.experimental_pixel_positioning,
            password_input: false,
        }
    }

    /// Returns the effective tab bar position.
    pub fn resolved_tab_bar_position(&self) -> (position: TabBarPosition)
        ensures
            position == self.config.tab_bar_position,
    {
        self.config.tab_bar_position
    }

    /// Returns true if the tab bar is positioned vertically (Left or Right).
    pub fn is_tab_bar_vertical(&self) -> (r: bool)
        ensures
            r == self.config.tab_bar_position.vertical(),
            r == (self.config.tab_bar_position is Left || self.config.tab_bar_position is Right),
    {
        self.resolved_tab_bar_position().is_vertical()
    }

    /// Returns the effective use_fancy_tab_bar setting. Vertical tab bar positions
    /// require fancy mode, so we force it on.
    pub fn effective_use_fancy_tab_bar(&self) -> (r: bool)
        ensures
            r == fancy(self.config),
            self.config.tab_bar_position is Left || self.config.tab_bar_position is Right ==> r,
            self.config.tab_bar_position is Top || self.config.tab_bar_position is Bottom ==> r
                == self.config.use_fancy_tab_bar,
    {
        if self.is_tab_bar_vertical() {
            true
        } else {
            self.config.use_fancy_tab_bar
        }
    }

    /// The height of a tab bar under these options: of a fancy one, 1.75 times the
    /// height of the title font's cells, rounded up to whole pixels; of a classic
    /// one, the height of a text cell. Where a fancy one has no title font, its error
    /// is handed on.
    pub fn tab_bar_pixel_height_impl<E>(
        config: &Config,
        title_cell_height: Result<Single, E>,
        render_metrics: &RenderMetrics,
    ) -> (height: Result<Single, E>)
        ensures
            height == bar_height(*config, title_cell_height, *render_metrics),
            fancy(*config) ==> (title_cell_height matches Err(e) ==> height
                == Result::<Single, E>::Err(e)),
            height is Err <==> fancy(*config) && title_cell_height is Err,
    {
        if config.use_fancy_tab_bar || config.tab_bar_position.is_vertical() {
            match title_cell_height {
                Ok(height) => Ok(height.times(Single::ratio(7, 4)).ceil()),
                Err(e) => Err(e),
            }
        } else {
            Ok(Single::from_i64(render_metrics.cell_size.height as i64))
        }
    }

    /// The height of this window's tab bar, with what the title font's cell height is.
    pub fn tab_bar_pixel_height<E>(&self, title_cell_height: Result<Single, E>) -> (height: Result<
        Single,
        E,
    >)
        ensures
            height == bar_height(self.config, title_cell_height, self.render_metrics),
            fancy(self.config) ==> (title_cell_height matches Err(e) ==> height
                == Result::<Single, E>::Err(e)),
            height is Err <==> fancy(self.config) && title_cell_height is Err,
    {
        Self::tab_bar_pixel_height_impl(&self.config, title_cell_height, &self.render_metrics)
    }

    /// What the configured width of a vertical tab bar is measured by. There is
    /// nothing to measure in a horizontal position.
    pub fn tab_bar_width_context(
        config: &Config,
        render_metrics: &RenderMetrics,
        dimensions: &Dimensions,
    ) -> (context: Option<DimensionContext>)
        ensures
            context is Some <==> config.tab_bar_position.vertical(),
            context matches Some(context) ==> {
                &&& context.dpi == Single::integer(dimensions.dpi as int)
                &&& context.pixel_max == Single::integer(dimensions.pixel_width as int)
                &&& context.pixel_cell == Single::integer(render_metrics.cell_size.width as int)
            },
            context == width_context(*config, *render_metrics, *dimensions),
    {
        if config.tab_bar_position.is_vertical() {
            Some(
                DimensionContext {
                    dpi: Single::from_usize(dimensions.dpi),
                    pixel_max: Single::from_usize(dimensions.pixel_width),
                    pixel_cell: Single::from_i64(render_metrics.cell_size.width as i64),
                },
            )
        } else {
            None
        }
    }

    /// Returns the pixel width of the tab bar when positioned vertically
    /// (Left/Right), which is what its configured width came to. Returns 0.0 for
    /// horizontal (Top/Bottom) positions.
    pub fn tab_bar_pixel_width_impl(config: &Config, configured_width: Single) -> (width: Single)
        ensures
            width == if config.tab_bar_position.vertical() {
                configured_width
            } else {
                Single { bits: 0 }
            },
            config.tab_bar_position is Left || config.tab_bar_position is Right ==> width
                == configured_width,
            config.tab_bar_position is Top || config.tab_bar_position is Bottom ==> width == (
            Single { bits: 0 }),
    {
        if config.tab_bar_position.is_vertical() {
            configured_width
        } else {
            Single { bits: 0 }
        }
    }

    /// The width of this window's tab bar. A drag-resized width takes precedence,
    /// but only while the bar is vertical.
    pub fn tab_bar_pixel_width(&self) -> (width: Single)
        ensures
            width == self.bar_width(),
            self.config.tab_bar_position is Left || self.config.tab_bar_position is Right ==> (
            match self.tab_bar_width_override {
                Some(dragged) => width == dragged,
                None => width == self.configured_tab_bar_width,
            }),
            self.config.tab_bar_position is Top || self.config.tab_bar_position is Bottom ==> width
                == (Single { bits: 0 }),
    {
        if let Some(width) = self.tab_bar_width_override {
            if self.config.tab_bar_position.is_vertical() {
                return width;
            }
        }
        Self::tab_bar_pixel_width_impl(&self.config, self.configured_tab_bar_width)
    }

    /// The handle on the terminal side of a vertical tab bar's inner edge, so it
    /// never overlaps tab content (notably the close button, which floats to the
    /// tab's inner edge on a Left bar).
    fn tab_bar_handle(&self) -> (item: UIItem)
        requires
            self.os_border.top + self.os_border.bottom <= usize::MAX,
        ensures
            item == handle(
                self.config.tab_bar_position,
                self.dimensions,
                self.os_border,
                self.bar_width(),
            ),
    {
        let border = self.os_border;
        let tab_bar_width = self.tab_bar_pixel_width();
        let x = match self.resolved_tab_bar_position() {
            TabBarPosition::Left => Single::from_usize(border.left).plus(tab_bar_width),
            // Right (and any other vertical position): terminal is to the left of
            // the bar, so the handle extends leftwards.
            _ => Single::from_usize(self.dimensions.pixel_width).minus(
                Single::from_usize(border.right),
            ).minus(tab_bar_width).minus(Single::from_usize(HANDLE)),
        };
        let height = Single::from_usize(self.dimensions.pixel_height).minus(
            Single::from_usize(border.top + border.bottom),
        ).or_zero();
        UIItem {
            x: x.or_zero().to_usize(),
            y: border.top,
            width: HANDLE,
            height: height.to_usize(),
            item_type: UIItemType::TabBarSeparator,
        }
    }

    /// The top of a classic tab bar.
    fn classic_tab_bar_y(&self) -> (y: Single)
        requires
            !fancy(self.config),
        ensures
            y == classic_y(
                self.config.tab_bar_position,
                self.dimensions,
                self.os_border,
                self.render_metrics,
            ),
    {
        let border = self.os_border;
        // No title font is asked for the height of a classic bar.
        let title_cell_height: Result<Single, ()> = Err(());
        let tab_bar_height = self.tab_bar_pixel_height(title_cell_height).unwrap();
        match self.resolved_tab_bar_position() {
            TabBarPosition::Bottom => Single::from_usize(self.dimensions.pixel_height).minus(
                tab_bar_height.plus(Single::from_usize(border.bottom)),
            ).or_zero(),
            _ => Single::from_usize(border.top),
        }
    }

    /// How the line of a classic tab bar is rendered.
    fn classic_tab_bar_line(&self) -> (line: TabBarLine)
        requires
            !fancy(self.config),
            self.render_metrics.cell_size.width as usize != 0,
        ensures
            line == self.classic_line(),
            ({
                let opacity = self.config.window_background_opacity;
                line.window_is_transparent <==> self.has_window_background || opacity.is_nan()
                    || opacity.value() != one_in_units()
            }),
            line.background_alpha == if line.window_is_transparent {
                Single { bits: 0 }
            } else {
                self.config.text_background_opacity
            },
    {
        proof {
            lemma_classic_bar_transparency(*self);
        }
        let window_is_transparent = self.has_window_background
            || !self.config.window_background_opacity.equals(Single::from_usize(1));
        TabBarLine {
            top_pixel_y: self.classic_tab_bar_y(),
            left_pixel_x: Single { bits: 0 },
            pixel_width: Single::from_usize(self.dimensions.pixel_width),
            stable_line_idx: None,
            pane_id: None,
            selection_start: 0,
            selection_end: 0,
            cursor_column: None,
            cursor_border_color: None,
            cursor_fg: None,
            cursor_bg: None,
            selection_fg: None,
            selection_bg: None,
            style: None,
            font: None,
            shape_key: None,
            dims: RenderableDimensions {
                cols: self.dimensions.pixel_width / self.render_metrics.cell_size.width as usize,
                viewport_rows: 1,
                scrollback_rows: 0,
                physical_top: 0,
                scrollback_top: 0,
                dpi: self.terminal_size.dpi,
                pixel_width: self.terminal_size.pixel_width,
                pixel_height: self.render_metrics.cell_size.height as usize,
                reverse_video: false,
            },
            is_active: true,
            cursor_is_default_color: true,
            window_is_transparent,
            background_alpha: if window_is_transparent {
                Single { bits: 0 }
            } else {
                self.config.text_background_opacity
            },
            use_pixel_positioning: self.config.experimental_pixel_positioning,
            password_input: false,
        }
    }

    /// Paint the tab bar: what to do next, after what has come of the last action.
    /// Where an action fails, painting ends with its error. A vertical tab bar gets
    /// a thin draggable handle on the terminal side of its inner edge so the user can
    /// resize the bar width. It is pushed last so it wins hit-testing, which scans in
    /// reverse.
    pub fn paint_tab_bar(&mut self, event: TabBarEvent) -> (action: TabBarAction)
        requires
            event is FancyPainted && old(self).config.tab_bar_position.vertical() ==> old(
                self,
            ).os_border.top + old(self).os_border.bottom <= usize::MAX,
            event is ItemsComputed ==> !fancy(old(self).config) && old(
                self,
            ).render_metrics.cell_size.width as usize != 0,
        ensures
            match event {
                TabBarEvent::Start => {
                    &&& *final(self) == *old(self)
                    &&& action == (if fancy(old(self).config) {
                        if old(self).has_fancy_tab_bar {
                            TabBarAction::PaintFancy
                        } else {
                            TabBarAction::BuildFancy
                        }
                    } else {
                        TabBarAction::ComputeItems {
                            y: old(self).classic_line().top_pixel_y.truncated(
                                usize::MAX as nat,
                            ) as usize,
                            cell_height: old(self).render_metrics.cell_size.height as usize,
                            cell_width: old(self).render_metrics.cell_size.width as usize,
                        }
                    })
                },
                TabBarEvent::FancyBuilt => {
                    &&& *final(self) == (TermWindow { has_fancy_tab_bar: true, ..*old(self) })
                    &&& action == TabBarAction::PaintFancy
                },
                TabBarEvent::FancyPainted(items) => {
                    &&& *final(self) == (TermWindow {
                        ui_items: final(self).ui_items,
                        ..*old(self)
                    })
                    &&& final(self).ui_items@ == if old(self).config.tab_bar_position.vertical() {
                        (old(self).ui_items@ + items@).push(
                            handle(
                                old(self).config.tab_bar_position,
                                old(self).dimensions,
                                old(self).os_border,
                                old(self).bar_width(),
                            ),
                        )
                    } else {
                        old(self).ui_items@ + items@
                    }
                    &&& action == TabBarAction::Done
                },
                TabBarEvent::ItemsComputed(items) => {
                    &&& *final(self) == (TermWindow {
                        ui_items: final(self).ui_items,
                        ..*old(self)
                    })
                    &&& final(self).ui_items@ == old(self).ui_items@ + items@
                    &&& action == TabBarAction::RenderLine(old(self).classic_line())
                },
                TabBarEvent::LineRendered => {
                    &&& *final(self) == *old(self)
                    &&& action == TabBarAction::Done
                },
            },
            action == bar_action(*old(self), event),
            final(self).ui_items@ == bar_items(*old(self), event),
            final(self).has_fancy_tab_bar == (old(self).has_fancy_tab_bar || event is FancyBuilt),
    {
        match event {
            TabBarEvent::Start => {
                if self.effective_use_fancy_tab_bar() {
                    if self.has_fancy_tab_bar {
                        TabBarAction::PaintFancy
                    } else {
                        TabBarAction::BuildFancy
                    }
                } else {
                    TabBarAction::ComputeItems {
                        y: self.classic_tab_bar_y().to_usize(),
                        cell_height: self.render_metrics.cell_size.height as usize,
                        cell_width: self.render_metrics.cell_size.width as usize,
                    }
                }
            },
            TabBarEvent::FancyBuilt => {
                self.has_fancy_tab_bar = true;
                TabBarAction::PaintFancy
            },
            TabBarEvent::FancyPainted(items) => {
                let mut items = items;
                self.ui_items.append(&mut items);
                if self.is_tab_bar_vertical() {
                    let item = self.tab_bar_handle();
                    self.ui_items.push(item);
                }
                TabBarAction::Done
            },
            TabBarEvent::ItemsComputed(items) => {
                let mut items = items;
                let line = self.classic_tab_bar_line();
                self.ui_items.append(&mut items);
                TabBarAction::RenderLine(line)
            },
            TabBarEvent::LineRendered => TabBarAction::Done,
        }
    }
}

/// The handle sits on the terminal side of a vertical tab bar's inner edge, to the
/// pixel: on a Left bar it starts in the pixel that the edge is in, and on a Right bar,
/// where there is room for it, it ends in or at that pixel and does not pass the edge.
pub proof fn lemma_handle_is_at_the_inner_edge(
    position: TabBarPosition,
    dimensions: Dimensions,
    border: Border,
    width: Single,
)
    requires
        position.vertical(),
        ({
            let edge = inner_edge(position, dimensions.pixel_width, border, width);
            &&& edge.is_finite()
            &&& edge.value() < 0x100_0000 * one_in_units()
            &&& edge.value() >= if position == TabBarPosition::Left {
                0
            } else {
                HANDLE * one_in_units()
            }
        }),
    ensures
        ({
            let edge = inner_edge(position, dimensions.pixel_width, border, width);
            let x = handle(position, dimensions, border, width).x as int;
            let at = if position == TabBarPosition::Left {
                x
            } else {
                x + HANDLE
            };
            at * one_in_units() <= edge.value() < (at + 1) * one_in_units()
        }),
{
    let u = one_in_units();
    let edge = inner_edge(position, dimensions.pixel_width, border, width);
    let left = handle_x(position, dimensions.pixel_width, border, width);
    let k: int = if position == TabBarPosition::Left {
        0
    } else {
        HANDLE as int
    };
    if position == TabBarPosition::Right {
        lemma_minus_integer(edge, k);
    }
    let x = left.value() / (u as int);
    lemma_fundamental_div_mod(left.value(), u as int);
    assert(0 <= x < 0x100_0000) by (nonlinear_arith)
        requires
            left.value() == u * x + left.value() % (u as int),
            0 <= left.value() % (u as int) < u,
            0 <= left.value() < 0x100_0000 * u,
            u > 0,
    ;
    assert(left.or_zero().truncated(usize::MAX as nat) == x) by {
        reveal(Single::spec_or_zero);
        reveal(Single::truncated);
    }
    assert((x + k) * u == u * x + k * u && (x + k + 1) * u == u * x + k * u + u)
        by (nonlinear_arith);
}

/// The handle of a tab bar of `width` whole pixels never overlaps tab content: on a
/// Left bar it starts where the bar ends, and on a Right bar, where there is room for
/// it, it ends where the bar starts.
pub proof fn lemma_handle_is_beside_the_bar(
    position: TabBarPosition,
    dimensions: Dimensions,
    border: Border,
    width: nat,
)
    requires
        position.vertical(),
        position == TabBarPosition::Left ==> border.left + width < 0x100_0000,
        position == TabBarPosition::Right ==> {
            &&& dimensions.pixel_width < 0x100_0000
            &&& border.right + width + HANDLE <= dimensions.pixel_width
        },
    ensures
        position == TabBarPosition::Left ==> handle(
            position,
            dimensions,
            border,
            Single::integer(width as int),
        ).x == border.left + width,
        position == TabBarPosition::Right ==> handle(
            position,
            dimensions,
            border,
            Single::integer(width as int),
        ).x + HANDLE == dimensions.pixel_width - border.right - width,
{
    if position == TabBarPosition::Left {
        lemma_integer_sum(border.left as int, width as int);
        lemma_integer_back(border.left + width);
    } else {
        let a = dimensions.pixel_width - border.right;
        lemma_integer_difference(dimensions.pixel_width as int, border.right as int);
        lemma_integer_difference(a, width as int);
        lemma_integer_difference(a - width, HANDLE as int);
        lemma_integer_back(a - width - HANDLE);
    }
}

/// The handle reaches from the top border to the bottom border.
pub proof fn lemma_handle_spans_the_window(
    position: TabBarPosition,
    dimensions: Dimensions,
    border: Border,
    width: Single,
)
    requires
        dimensions.pixel_height < 0x100_0000,
        border.top + border.bottom <= dimensions.pixel_height,
    ensures
        ({
            let item = handle(position, dimensions, border, width);
            item.y == border.top && item.y + item.height == dimensions.pixel_height - border.bottom
        }),
{
    lemma_integer_difference(dimensions.pixel_height as int, border.top + border.bottom);
    lemma_integer_back(dimensions.pixel_height - (border.top + border.bottom));
}

/// A classic tab bar is at the edge of the window that its position names: right below
/// the top border, or, where there is room for it, right above the bottom border.
pub proof fn lemma_classic_bar_is_at_the_edge(
    position: TabBarPosition,
    dimensions: Dimensions,
    border: Border,
    metrics: RenderMetrics,
)
    requires
        dimensions.pixel_height < 0x100_0000,
        metrics.cell_size.height >= 0,
        position == TabBarPosition::Bottom ==> metrics.cell_size.height + border.bottom
            <= dimensions.pixel_height,
    ensures
        position == TabBarPosition::Bottom ==> classic_y(position, dimensions, border, metrics)
            == Single::integer(
            dimensions.pixel_height - border.bottom - metrics.cell_size.height,
        ),
        position == TabBarPosition::Top ==> classic_y(position, dimensions, border, metrics)
            == Single::integer(border.top as int),
{
    if position == TabBarPosition::Bottom {
        let taken = metrics.cell_size.height + border.bottom;
        lemma_integer_sum(metrics.cell_size.height as int, border.bottom as int);
        lemma_integer_difference(dimensions.pixel_height as int, taken);
        lemma_integer_back(dimensions.pixel_height - taken);
    }
}

} // verus!
